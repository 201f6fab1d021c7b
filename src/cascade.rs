//! Branch disabling: which nodes are closed when a branch is not taken.
//!
//! Closing cascades only along `action` connections, and only through nodes
//! whose `action` input has exactly one connection: a node with several
//! possible activators may still be reached by another live path.
use vstd::prelude::*;
use std::collections::HashMap;
use crate::keyed::{get_by_key, lookup};
use crate::node::Node;
use crate::target::Input;

verus! {

broadcast use {vstd::std_specs::hash::group_hash_axioms, vstd::seq_lib::group_seq_properties};

/// The reserved control-flow port.
pub open spec fn action_name() -> Seq<char> {
    "action"@
}

/// The node's `action` input port, if it declares one.
pub open spec fn action_input(n: Node) -> Option<Input> {
    lookup(n.input_ports(), action_name())
}

/// The node `id` is in the graph and its `action` input has exactly one
/// connection.
pub open spec fn qualifies(g: Map<i64, Node>, id: i64) -> bool {
    &&& g.contains_key(id)
    &&& match action_input(g[id]) {
        Some(i) => i.connections@.len() == 1,
        None => false,
    }
}

/// Some connection on the node's `action` input comes from `src`.
pub open spec fn points_back(n: Node, src: i64) -> bool {
    match action_input(n) {
        Some(i) => exists|k: int| 0 <= k < i.connections@.len() && #[trigger] i.connections@[k].node == src,
        None => false,
    }
}

/// The connection `k` of output port `p` of `n` goes to `t`.
pub open spec fn feeds_at(n: Node, p: int, k: int, t: i64) -> bool {
    &&& 0 <= p < n.output_ports().len()
    &&& 0 <= k < n.output_ports()[p].1.connections@.len()
    &&& n.output_ports()[p].1.connections@[k].node == t
}

/// Some output connection of `n` goes to `t`.
pub open spec fn feeds(n: Node, t: i64) -> bool {
    exists|p: int, k: int| #[trigger] feeds_at(n, p, k, t)
}

/// Closing `x` carries on to `y`: `x` feeds `y`, whose `action` input points
/// back to `x`.
pub open spec fn cascade_step(g: Map<i64, Node>, x: i64, y: i64) -> bool {
    &&& g.contains_key(x)
    &&& g.contains_key(y)
    &&& feeds(g[x], y)
    &&& points_back(g[y], x)
}

/// A path of qualifying nodes, each a cascade step from the one before.
pub open spec fn is_chain(g: Map<i64, Node>, c: Seq<i64>) -> bool {
    &&& c.len() > 0
    &&& forall|i: int| 0 <= i < c.len() ==> qualifies(g, #[trigger] c[i])
    &&& forall|i: int| 0 <= i < c.len() - 1 ==> #[trigger] cascade_step(g, c[i], c[i + 1])
}

pub open spec fn reaches(g: Map<i64, Node>, x: i64, y: i64) -> bool {
    exists|c: Seq<i64>| #[trigger] is_chain(g, c) && c[0] == x && c.last() == y
}

/// The nodes that disabling `x` closes: those that a chain from `x` reaches.
/// It is empty when `x` does not qualify.
pub open spec fn cascade(g: Map<i64, Node>, x: i64) -> Set<i64> {
    Set::new(|y: i64| reaches(g, x, y))
}

/// A set of closed nodes that already holds the cascade of each member.
pub open spec fn cascade_closed(g: Map<i64, Node>, s: Set<i64>) -> bool {
    forall|v: i64, y: i64| s.contains(v) && #[trigger] reaches(g, v, y) ==> s.contains(y)
}

proof fn lemma_reaches_trans(g: Map<i64, Node>, x: i64, v: i64, y: i64)
    requires
        reaches(g, x, v),
        reaches(g, v, y),
    ensures
        reaches(g, x, y),
{
    let c = choose|c: Seq<i64>| #[trigger] is_chain(g, c) && c[0] == x && c.last() == v;
    let d = choose|d: Seq<i64>| #[trigger] is_chain(g, d) && d[0] == v && d.last() == y;
    let e = c + d.drop_first();
    assert forall|i: int| 0 <= i < e.len() implies qualifies(g, #[trigger] e[i]) by {
        if i < c.len() {
            assert(e[i] == c[i]);
        } else {
            assert(e[i] == d[i - c.len() + 1]);
        }
    }
    assert forall|i: int| 0 <= i < e.len() - 1 implies #[trigger] cascade_step(g, e[i], e[i + 1]) by {
        if i < c.len() - 1 {
            assert(e[i] == c[i] && e[i + 1] == c[i + 1]);
            assert(cascade_step(g, c[i], c[i + 1]));
        } else {
            let j = i - c.len() + 1;
            assert(e[i] == d[j] && e[i + 1] == d[j + 1]);
            assert(cascade_step(g, d[j], d[j + 1]));
        }
    }
    assert(is_chain(g, e));
    if d.len() == 1 {
        assert(e.last() == c.last());
    } else {
        assert(e.last() == d.last());
    }
}

proof fn lemma_prepend(g: Map<i64, Node>, x: i64, t: i64, y: i64)
    requires
        qualifies(g, x),
        cascade_step(g, x, t),
        reaches(g, t, y),
    ensures
        reaches(g, x, y),
{
    let c = choose|c: Seq<i64>| #[trigger] is_chain(g, c) && c[0] == t && c.last() == y;
    let d = seq![x] + c;
    assert forall|i: int| 0 <= i < d.len() implies qualifies(g, #[trigger] d[i]) by {
        if i > 0 {
            assert(d[i] == c[i - 1]);
        }
    }
    assert forall|i: int| 0 <= i < d.len() - 1 implies #[trigger] cascade_step(g, d[i], d[i + 1]) by {
        if i > 0 {
            let j = i - 1;
            assert(d[i] == c[j] && d[i + 1] == c[j + 1]);
            assert(cascade_step(g, c[j], c[j + 1]));
        } else {
            assert(d[1] == c[0]);
        }
    }
    assert(is_chain(g, d));
    assert(d.last() == y);
}

proof fn lemma_single(g: Map<i64, Node>, x: i64)
    requires
        qualifies(g, x),
    ensures
        reaches(g, x, x),
{
    let c = seq![x];
    assert(is_chain(g, c));
}

/// A set that holds `x` and is closed under cascade steps from its members
/// holds everything that `x` reaches.
proof fn lemma_closed_holds_cascade(g: Map<i64, Node>, s: Set<i64>, x: i64, c: Seq<i64>, i: int)
    requires
        is_chain(g, c),
        c[0] == x,
        s.contains(x),
        forall|v: i64, w: i64| s.contains(v) && cascade_step(g, v, w) && qualifies(g, w) ==> s.contains(w),
        0 <= i < c.len(),
    ensures
        s.contains(c[i]),
    decreases i,
{
    if i > 0 {
        let j = i - 1;
        lemma_closed_holds_cascade(g, s, x, c, j);
        assert(cascade_step(g, c[j], c[j + 1]));
        assert(qualifies(g, c[j + 1]));
    }
}

proof fn lemma_grows(before: Seq<i64>, x: i64, now: Seq<i64>)
    requires
        before.no_duplicates(),
        now.no_duplicates(),
        !before.contains(x),
        now.contains(x),
        forall|v: i64| before.contains(v) ==> now.contains(v),
    ensures
        before.len() < now.len(),
{
    let b = before.push(x);
    assert(b.no_duplicates()) by {
        assert forall|i: int, j: int| 0 <= i < b.len() && 0 <= j < b.len() && i != j implies b[i] != b[j] by {
            if i < before.len() && j < before.len() {
            } else if i < before.len() {
                assert(before.contains(b[i]));
            } else {
                assert(before.contains(b[j]));
            }
        }
    }
    now.unique_seq_to_set();
    lemma_bounded(b, now.to_set());
}

pub(crate) proof fn lemma_push_fits(s: Seq<i64>, t: i64, d: Set<i64>)
    requires
        s.no_duplicates(),
        !s.contains(t),
        d.finite(),
        d.contains(t),
        forall|v: i64| s.contains(v) ==> d.contains(v),
    ensures
        s.len() < d.len(),
{
    let b = s.push(t);
    assert(b.no_duplicates()) by {
        assert forall|i: int, j: int| 0 <= i < b.len() && 0 <= j < b.len() && i != j implies b[i] != b[j] by {
            if i < s.len() && j < s.len() {
            } else if i < s.len() {
                assert(s.contains(b[i]));
            } else {
                assert(s.contains(b[j]));
            }
        }
    }
    assert forall|v: i64| b.contains(v) implies d.contains(v) by {
        if v != t {
            let i = choose|i: int| 0 <= i < b.len() && b[i] == v;
            assert(s[i] == v);
        }
    }
    lemma_bounded(b, d);
}

pub(crate) proof fn lemma_bounded(s: Seq<i64>, d: Set<i64>)
    requires
        s.no_duplicates(),
        d.finite(),
        forall|v: i64| s.contains(v) ==> d.contains(v),
    ensures
        s.len() <= d.len(),
{
    s.unique_seq_to_set();
    vstd::set_lib::lemma_len_subset(s.to_set(), d);
}

/// The closure rule: disabling `x` closes `x` exactly when its `action`
/// input has one connection; everything it closes qualifies in the same
/// way, so a node with several possible activators is never closed by it;
/// and it carries on along every cascade step into a node that qualifies.
pub proof fn lemma_cascade_rule(g: Map<i64, Node>, x: i64)
    ensures
        cascade(g, x).contains(x) <==> qualifies(g, x),
        forall|y: i64| #[trigger] cascade(g, x).contains(y) ==> qualifies(g, y),
        forall|y: i64, z: i64|
            cascade(g, x).contains(y) && #[trigger] cascade_step(g, y, z) && qualifies(g, z) ==> cascade(
                g,
                x,
            ).contains(z),
{
    if qualifies(g, x) {
        lemma_single(g, x);
    }
    if cascade(g, x).contains(x) {
        let c = choose|c: Seq<i64>| #[trigger] is_chain(g, c) && c[0] == x && c.last() == x;
        assert(qualifies(g, c[0]));
    }
    assert forall|y: i64| #[trigger] cascade(g, x).contains(y) implies qualifies(g, y) by {
        let c = choose|c: Seq<i64>| #[trigger] is_chain(g, c) && c[0] == x && c.last() == y;
        assert(qualifies(g, c[c.len() - 1]));
    }
    assert forall|y: i64, z: i64|
        cascade(g, x).contains(y) && #[trigger] cascade_step(g, y, z) && qualifies(g, z) implies cascade(
            g,
            x,
        ).contains(z) by {
        let c = choose|c: Seq<i64>| #[trigger] is_chain(g, c) && c[0] == x && c.last() == y;
        let d = c.push(z);
        assert forall|i: int| 0 <= i < d.len() implies qualifies(g, #[trigger] d[i]) by {
            if i < c.len() {
                assert(d[i] == c[i]);
            }
        }
        assert forall|i: int| 0 <= i < d.len() - 1 implies #[trigger] cascade_step(g, d[i], d[i + 1]) by {
            if i < c.len() - 1 {
                assert(d[i] == c[i] && d[i + 1] == c[i + 1]);
                assert(cascade_step(g, c[i], c[i + 1]));
            } else {
                assert(d[i] == y && d[i + 1] == z);
            }
        }
        assert(is_chain(g, d));
        assert(d[0] == x && d.last() == z);
    }
}

pub fn contains_id(v: &Vec<i64>, id: i64) -> (r: bool)
    ensures
        r == v@.contains(id),
{
    let mut i: usize = 0;
    while i < v.len()
        invariant
            i <= v@.len(),
            forall|j: int| 0 <= j < i ==> v@[j] != id,
        decreases v@.len() - i,
    {
        if v[i] == id {
            return true;
        }
        i = i + 1;
    }
    false
}

fn action_input_of(n: &Node) -> (r: Option<&Input>)
    ensures
        match r {
            Some(i) => action_input(*n) == Some(*i),
            None => action_input(*n) is None,
        },
{
    match &n.inputs {
        Some(inputs) => get_by_key(&inputs.0, "action"),
        None => None,
    }
}

fn qualifies_node(n: &Node) -> (r: bool)
    ensures
        r == match action_input(*n) {
            Some(i) => i.connections@.len() == 1,
            None => false,
        },
{
    match action_input_of(n) {
        Some(i) => i.connections.len() == 1,
        None => false,
    }
}

fn points_back_node(n: &Node, src: i64) -> (r: bool)
    ensures
        r == points_back(*n, src),
{
    match action_input_of(n) {
        Some(input) => {
            let mut k: usize = 0;
            while k < input.connections.len()
                invariant
                    k <= input.connections@.len(),
                    action_input(*n) == Some(*input),
                    forall|j: int| 0 <= j < k ==> input.connections@[j].node != src,
                decreases input.connections@.len() - k,
            {
                if input.connections[k].node == src {
                    proof {
                        let i = action_input(*n)->Some_0;
                        assert(i == *input);
                        assert(i.connections@[k as int].node == src);
                    }
                    return true;
                }
                k = k + 1;
            }
            false
        },
        None => false,
    }
}

/// Adds to `visited` every node that `x` reaches and `visited` lacks.
fn collect_cascade(nodes: &HashMap<i64, Node>, x: i64, visited: &mut Vec<i64>)
    requires
        qualifies(nodes@, x),
        !old(visited)@.contains(x),
        old(visited)@.no_duplicates(),
        forall|v: i64| old(visited)@.contains(v) ==> nodes@.contains_key(v),
    ensures
        final(visited)@.no_duplicates(),
        forall|v: i64| final(visited)@.contains(v) ==> nodes@.contains_key(v),
        forall|v: i64| old(visited)@.contains(v) ==> final(visited)@.contains(v),
        final(visited)@.contains(x),
        forall|v: i64|
            final(visited)@.contains(v) && !old(visited)@.contains(v) ==> reaches(nodes@, x, v),
        forall|v: i64, w: i64|
            final(visited)@.contains(v) && !old(visited)@.contains(v) && cascade_step(nodes@, v, w)
                && qualifies(nodes@, w) ==> final(visited)@.contains(w),
    decreases nodes@.dom().len() - old(visited)@.len(),
{
    let ghost g = nodes@;
    let ghost old_visited = visited@;
    proof {
        lemma_push_fits(visited@, x, g.dom());
        lemma_single(g, x);
    }
    visited.push(x);
    proof {
        assert(visited@.no_duplicates());
        lemma_grows(old_visited, x, visited@);
    }
    let node = match nodes.get(&x) {
        Some(n) => n,
        None => {
            return;
        },
    };
    let outs = match &node.outputs {
        Some(o) => &o.0,
        None => {
            proof {
                assert forall|v: i64, w: i64|
                    visited@.contains(v) && !old_visited.contains(v) && cascade_step(g, v, w) && qualifies(g, w)
                    implies visited@.contains(w) by {
                    assert(v == x);
                    let (p, k) = choose|p: int, k: int| #[trigger] feeds_at(g[x], p, k, w);
                }
            }
            return;
        },
    };
    let mut p: usize = 0;
    while p < outs.len()
        invariant
            *node == g[x],
            node.outputs is Some,
            *outs == node.outputs->Some_0.0,
            p <= outs@.len(),
            g == nodes@,
            qualifies(g, x),
            visited@.no_duplicates(),
            forall|v: i64| visited@.contains(v) ==> g.contains_key(v),
            forall|v: i64| old_visited.contains(v) ==> visited@.contains(v),
            visited@.contains(x),
            forall|v: i64| visited@.contains(v) && !old_visited.contains(v) ==> reaches(g, x, v),
            forall|v: i64, w: i64|
                visited@.contains(v) && !old_visited.contains(v) && v != x && cascade_step(g, v, w)
                    && qualifies(g, w) ==> visited@.contains(w),
            forall|q: int, k: int, w: i64|
                0 <= q < p && #[trigger] feeds_at(g[x], q, k, w) && points_back(g[w], x) && qualifies(g, w)
                    ==> visited@.contains(w),
            old_visited.len() < visited@.len(),
            old_visited.no_duplicates(),
            !old_visited.contains(x),
            old_visited == old(visited)@,
        decreases outs@.len() - p,
    {
        let conns = &outs[p].1.connections;
        let mut k: usize = 0;
        while k < conns.len()
            invariant
                *node == g[x],
                node.outputs is Some,
                *outs == node.outputs->Some_0.0,
                p < outs@.len(),
                *conns == outs@[p as int].1.connections,
                k <= conns@.len(),
                g == nodes@,
                qualifies(g, x),
                visited@.no_duplicates(),
                forall|v: i64| visited@.contains(v) ==> g.contains_key(v),
                forall|v: i64| old_visited.contains(v) ==> visited@.contains(v),
                visited@.contains(x),
                forall|v: i64| visited@.contains(v) && !old_visited.contains(v) ==> reaches(g, x, v),
                forall|v: i64, w: i64|
                    visited@.contains(v) && !old_visited.contains(v) && v != x && cascade_step(g, v, w)
                        && qualifies(g, w) ==> visited@.contains(w),
                forall|q: int, j: int, w: i64|
                    (0 <= q < p || (q == p && 0 <= j < k)) && #[trigger] feeds_at(g[x], q, j, w)
                        && points_back(g[w], x) && qualifies(g, w) ==> visited@.contains(w),
                old_visited.len() < visited@.len(),
                old_visited.no_duplicates(),
                !old_visited.contains(x),
                old_visited == old(visited)@,
            decreases conns@.len() - k,
        {
            let t = conns[k].node;
            if !contains_id(visited, t) {
                if let Some(tn) = nodes.get(&t) {
                    if points_back_node(tn, x) && qualifies_node(tn) {
                        let ghost before = visited@;
                        proof {
                            assert(feeds_at(g[x], p as int, k as int, t));
                            assert(cascade_step(g, x, t));
                            lemma_push_fits(visited@, t, g.dom());
                        }
                        collect_cascade(nodes, t, visited);
                        proof {
                            lemma_grows(old_visited, x, visited@);
                            assert forall|v: i64|
                                visited@.contains(v) && !old_visited.contains(v) implies reaches(g, x, v) by {
                                if !before.contains(v) {
                                    lemma_prepend(g, x, t, v);
                                }
                            }
                        }
                    }
                }
            }
            k = k + 1;
        }
        p = p + 1;
    }
    proof {
        assert forall|v: i64, w: i64|
            visited@.contains(v) && !old_visited.contains(v) && cascade_step(g, v, w) && qualifies(g, w)
            implies visited@.contains(w) by {
            if v == x {
                let (q, j) = choose|q: int, j: int| #[trigger] feeds_at(g[x], q, j, w);
            }
        }
    }
}

/// `later` is `earlier` followed by ids that `earlier` lacks, each once.
pub open spec fn appends_new(earlier: Seq<i64>, later: Seq<i64>) -> bool {
    &&& later.len() >= earlier.len()
    &&& later.subrange(0, earlier.len() as int) == earlier
    &&& forall|i: int| earlier.len() <= i < later.len() ==> !earlier.contains(#[trigger] later[i])
    &&& forall|i: int, j: int|
        earlier.len() <= i < later.len() && earlier.len() <= j < later.len() && i != j ==> later[i]
            != later[j]
}

/// Closes, in `closed`, every node that disabling `id` reaches.
pub fn disable_node_tree(nodes: &HashMap<i64, Node>, id: i64, closed: &mut Vec<i64>)
    ensures
        final(closed)@.to_set() == old(closed)@.to_set().union(cascade(nodes@, id)),
        cascade_closed(nodes@, old(closed)@.to_set()) ==> cascade_closed(nodes@, final(closed)@.to_set()),
        appends_new(old(closed)@, final(closed)@),
        forall|v: i64| #[trigger] final(closed)@.contains(v) ==> old(closed)@.contains(v) || qualifies(nodes@, v),
{
    proof {
        lemma_cascade_rule(nodes@, id);
    }
    proof {
        let g = nodes@;
        let s = old(closed)@.to_set().union(cascade(g, id));
        if cascade_closed(g, old(closed)@.to_set()) {
            assert forall|v: i64, y: i64| s.contains(v) && #[trigger] reaches(g, v, y) implies s.contains(y) by {
                if !old(closed)@.to_set().contains(v) {
                    lemma_reaches_trans(g, id, v, y);
                }
            }
        }
    }
    let ghost g = nodes@;
    let qualified = match nodes.get(&id) {
        Some(n) => qualifies_node(n),
        None => false,
    };
    if !qualified {
        proof {
            assert(cascade(g, id) =~= Set::empty()) by {
                assert forall|y: i64| !reaches(g, id, y) by {
                    if reaches(g, id, y) {
                        let c = choose|c: Seq<i64>| #[trigger] is_chain(g, c) && c[0] == id && c.last() == y;
                        assert(qualifies(g, c[0]));
                    }
                }
            }
            assert(closed@.to_set().union(cascade(g, id)) =~= closed@.to_set());
            assert(closed@.subrange(0, closed@.len() as int) =~= closed@);
        }
        return;
    }
    let mut visited: Vec<i64> = Vec::new();
    collect_cascade(nodes, id, &mut visited);
    proof {
        assert(visited@.to_set() =~= cascade(g, id)) by {
            assert forall|y: i64| cascade(g, id).contains(y) implies visited@.contains(y) by {
                let c = choose|c: Seq<i64>| #[trigger] is_chain(g, c) && c[0] == id && c.last() == y;
                lemma_closed_holds_cascade(g, visited@.to_set(), id, c, c.len() - 1);
            }
        }
    }
    let ghost start = closed@;
    proof {
        assert(closed@.subrange(0, closed@.len() as int) =~= closed@);
    }
    let mut i: usize = 0;
    while i < visited.len()
        invariant
            i <= visited@.len(),
            closed@.to_set() == start.to_set().union(visited@.subrange(0, i as int).to_set()),
            appends_new(start, closed@),
        decreases visited@.len() - i,
    {
        let v = visited[i];
        let ghost before = closed@;
        if !contains_id(closed, v) {
            closed.push(v);
            proof {
                before.lemma_push_to_set_commute(v);
                assert(closed@.subrange(0, start.len() as int) =~= before.subrange(0, start.len() as int));
                assert forall|a: int| start.len() <= a < closed@.len() implies !start.contains(#[trigger] closed@[a]) by {
                    if a == closed@.len() - 1 {
                        if start.contains(v) {
                            let w = choose|w: int| 0 <= w < start.len() && start[w] == v;
                            assert(before[w] == before.subrange(0, start.len() as int)[w]);
                            assert(before.contains(v));
                        }
                    } else {
                        assert(closed@[a] == before[a]);
                    }
                }
                assert forall|a: int, b: int|
                    start.len() <= a < closed@.len() && start.len() <= b < closed@.len() && a != b implies closed@[a]
                    != closed@[b] by {
                    if a == closed@.len() - 1 {
                        assert(closed@[b] == before[b]);
                        assert(before.contains(before[b]));
                    } else if b == closed@.len() - 1 {
                        assert(closed@[a] == before[a]);
                        assert(before.contains(before[a]));
                    } else {
                        assert(closed@[a] == before[a] && closed@[b] == before[b]);
                    }
                }
            }
        } else {
            assert(before.to_set().insert(v) =~= before.to_set());
        }
        proof {
            visited@.subrange(0, i as int).lemma_push_to_set_commute(v);
            assert(visited@.subrange(0, i + 1) =~= visited@.subrange(0, i as int).push(v));
            assert(closed@.to_set() =~= start.to_set().union(visited@.subrange(0, i + 1).to_set()));
        }
        i = i + 1;
    }
    proof {
        assert(visited@.subrange(0, visited@.len() as int) =~= visited@);
        assert forall|v: i64| #[trigger] closed@.contains(v) implies start.contains(v) || qualifies(nodes@, v) by {
            assert(closed@.to_set().contains(v));
            if !start.to_set().contains(v) {
                assert(cascade(nodes@, id).contains(v));
            }
        }
    }
}

} // verus!
