//! Lists of `(name, value)` pairs looked up by name. As in a map filled in
//! order, a later entry overrides an earlier one with the same name.
use vstd::prelude::*;

verus! {

/// `i` is the last position of `s` whose name is `key`.
pub open spec fn last_at<V>(s: Seq<(String, V)>, key: Seq<char>, i: int) -> bool {
    &&& 0 <= i < s.len()
    &&& s[i].0@ == key
    &&& forall|j: int| i < j < s.len() ==> s[j].0@ != key
}

/// Some entry of `s` is named `key`.
pub open spec fn has_key<V>(s: Seq<(String, V)>, key: Seq<char>) -> bool {
    exists|i: int| 0 <= i < s.len() && s[i].0@ == key
}

/// The value of the last entry of `s` named `key`, if there is one.
pub open spec fn lookup<V>(s: Seq<(String, V)>, key: Seq<char>) -> Option<V> {
    if has_key(s, key) {
        Some(s[choose|i: int| last_at(s, key, i)].1)
    } else {
        None
    }
}

/// The last position is unique, and exists whenever the key does.
pub proof fn lemma_last_at<V>(s: Seq<(String, V)>, key: Seq<char>, i: int)
    requires
        last_at(s, key, i),
    ensures
        has_key(s, key),
        lookup(s, key) == Some(s[i].1),
{
    let k = choose|k: int| last_at(s, key, k);
    assert(last_at(s, key, k));
    if k < i {
        assert(s[i].0@ != key);
    } else if i < k {
        assert(s[k].0@ != key);
    }
}

/// Whether two texts hold the same characters.
pub fn same_text(a: &str, b: &str) -> (r: bool)
    ensures
        r == (a@ == b@),
{
    let x = a.to_owned();
    let y = b.to_owned();
    x == y
}

/// The last position of `entries` whose name is `key`.
pub fn find_key<V>(entries: &Vec<(String, V)>, key: &str) -> (r: Option<usize>)
    ensures
        match r {
            Some(i) => last_at(entries@, key@, i as int),
            None => !has_key(entries@, key@),
        },
{
    let mut i: usize = entries.len();
    while i > 0
        invariant
            i <= entries@.len(),
            forall|j: int| i <= j < entries@.len() ==> entries@[j].0@ != key@,
        decreases i,
    {
        i = i - 1;
        if same_text(entries[i].0.as_str(), key) {
            return Some(i);
        }
    }
    None
}

/// The value of the last entry named `key`.
pub fn get_by_key<'a, V>(entries: &'a Vec<(String, V)>, key: &str) -> (r: Option<&'a V>)
    ensures
        match r {
            Some(v) => lookup(entries@, key@) == Some(*v),
            None => lookup(entries@, key@) is None,
        },
{
    match find_key(entries, key) {
        Some(i) => {
            proof {
                lemma_last_at(entries@, key@, i as int);
            }
            Some(&entries[i].1)
        },
        None => None,
    }
}

} // verus!
