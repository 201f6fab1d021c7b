//! Reading the graph description: an object whose `nodes` member maps each
//! node id, written as a decimal string, to the node's record.
use vstd::prelude::*;
use crate::json::Json;
use crate::node::Node;
use crate::target::{Input, InputConnection, Inputs, Output, OutputConnection, Outputs};

verus! {

/// A member that is absent or `null`.
pub open spec fn absent(m: Option<Json>) -> bool {
    m is None || m == Some(Json::Null)
}

/// An optional member read as an optional value: absent or `null` gives
/// none, anything else an equal value.
pub open spec fn null_or(m: Option<Json>, v: Option<Json>) -> bool {
    if absent(m) {
        v is None
    } else {
        v matches Some(x) && x@ == m->Some_0@
    }
}

/// The payload of a connection: `null` when absent.
pub open spec fn payload(m: Option<Json>, v: Json) -> bool {
    match m {
        Some(x) => v@ == x@,
        None => v == Json::Null,
    }
}

pub open spec fn describes_input_connection(j: Json, c: InputConnection) -> bool {
    &&& j.field("node"@) matches Some(n) && n.int_value() == Some(c.node)
    &&& j.field("output"@) matches Some(Json::Str(s)) && s@ == c.output@
    &&& payload(j.field("data"@), c.data)
}

pub open spec fn describes_output_connection(j: Json, c: OutputConnection) -> bool {
    &&& j.field("node"@) matches Some(n) && n.int_value() == Some(c.node)
    &&& j.field("input"@) matches Some(Json::Str(s)) && s@ == c.input@
    &&& payload(j.field("data"@), c.data)
}

pub open spec fn describes_input(j: Json, i: Input) -> bool {
    j.field("connections"@) matches Some(Json::Array(cs)) && cs@.len() == i.connections@.len() && (
    forall|k: int| 0 <= k < cs@.len() ==> describes_input_connection(cs@[k], #[trigger] i.connections@[k]))
}

pub open spec fn describes_output(j: Json, o: Output) -> bool {
    j.field("connections"@) matches Some(Json::Array(cs)) && cs@.len() == o.connections@.len() && (
    forall|k: int| 0 <= k < cs@.len() ==> describes_output_connection(cs@[k], #[trigger] o.connections@[k]))
}

pub open spec fn describes_inputs(m: Option<Json>, v: Option<Inputs>) -> bool {
    if absent(m) {
        v is None
    } else {
        m matches Some(Json::Object(ports)) && v matches Some(ins) && ins.0@.len() == ports@.len() && (
        forall|p: int|
            0 <= p < ports@.len() ==> (#[trigger] ins.0@[p]).0@ == ports@[p].0@ && describes_input(
                ports@[p].1,
                ins.0@[p].1,
            ))
    }
}

pub open spec fn describes_outputs(m: Option<Json>, v: Option<Outputs>) -> bool {
    if absent(m) {
        v is None
    } else {
        m matches Some(Json::Object(ports)) && v matches Some(outs) && outs.0@.len() == ports@.len() && (
        forall|p: int|
            0 <= p < ports@.len() ==> (#[trigger] outs.0@[p]).0@ == ports@[p].0@ && describes_output(
                ports@[p].1,
                outs.0@[p].1,
            ))
    }
}

/// The record `j` is a connection whose `node` is an `i64` and whose
/// member `port` is a string.
pub open spec fn well_formed_connection(j: Json, port: Seq<char>) -> bool {
    &&& j.field("node"@) matches Some(n) && n.int_value() is Some
    &&& j.field(port) matches Some(Json::Str(_))
}

/// The record `j` is a port: `connections` is an array of connections.
pub open spec fn well_formed_port(j: Json, port: Seq<char>) -> bool {
    j.field("connections"@) matches Some(Json::Array(cs)) && forall|k: int|
        0 <= k < cs@.len() ==> well_formed_connection(#[trigger] cs@[k], port)
}

/// A port map that is absent, `null`, or an object of ports.
pub open spec fn well_formed_ports(m: Option<Json>, port: Seq<char>) -> bool {
    absent(m) || (m matches Some(Json::Object(ports)) && forall|p: int|
        0 <= p < ports@.len() ==> well_formed_port(#[trigger] ports@[p].1, port))
}

/// What [`decode_node`] accepts.
pub open spec fn well_formed_node(j: Json) -> bool {
    &&& j.field("id"@) matches Some(v) && v.int_value() is Some
    &&& j.field("name"@) matches Some(Json::Str(_))
    &&& absent(j.field("group"@)) || (j.field("group"@) matches Some(v) && v.int_value() is Some)
    &&& well_formed_ports(j.field("inputs"@), "output"@)
    &&& well_formed_ports(j.field("outputs"@), "input"@)
}

/// `n` is the node that the record `j` describes.
pub open spec fn describes_node(j: Json, n: Node) -> bool {
    &&& j.field("id"@) matches Some(v) && v.int_value() == Some(n.id)
    &&& j.field("name"@) matches Some(Json::Str(s)) && s@ == n.name@
    &&& null_or(j.field("data"@), n.data)
    &&& if absent(j.field("group"@)) {
        n.group is None
    } else {
        j.field("group"@) matches Some(v) && v.int_value() is Some && n.group == v.int_value()
    }
    &&& describes_inputs(j.field("inputs"@), n.inputs)
    &&& describes_outputs(j.field("outputs"@), n.outputs)
}

fn malformed(what: &str) -> (r: crate::engine::EngineError)
    ensures
        r is Other,
{
    crate::engine::EngineError::Other(what.to_owned())
}

fn int_member(j: &Json, key: &str) -> (r: Result<i64, crate::engine::EngineError>)
    ensures
        match r {
            Ok(i) => j.field(key@) matches Some(v) && v.int_value() == Some(i),
            Err(e) => e is Other && !(j.field(key@) matches Some(v) && v.int_value() is Some),
        },
{
    match j.get(key) {
        Some(v) => match v.as_i64() {
            Some(i) => Ok(i),
            None => Err(malformed(key)),
        },
        None => Err(malformed(key)),
    }
}

fn text_member(j: &Json, key: &str) -> (r: Result<String, crate::engine::EngineError>)
    ensures
        match r {
            Ok(s) => j.field(key@) matches Some(Json::Str(t)) && t@ == s@,
            Err(e) => e is Other && !(j.field(key@) matches Some(Json::Str(_))),
        },
{
    match j.get(key) {
        Some(v) => match v.as_str() {
            Some(s) => Ok(s.to_owned()),
            None => Err(malformed(key)),
        },
        None => Err(malformed(key)),
    }
}

fn payload_member(j: &Json) -> (r: Json)
    ensures
        payload(j.field("data"@), r),
{
    match j.get("data") {
        Some(d) => d.duplicate(),
        None => Json::Null,
    }
}

fn connections_member(j: &Json) -> (r: Result<&Vec<Json>, crate::engine::EngineError>)
    ensures
        match r {
            Ok(cs) => j.field("connections"@) == Some(Json::Array(*cs)),
            Err(e) => e is Other && !(j.field("connections"@) matches Some(Json::Array(_))),
        },
{
    match j.get("connections") {
        Some(Json::Array(cs)) => Ok(cs),
        _ => Err(malformed("connections")),
    }
}

fn decode_input(j: &Json) -> (r: Result<Input, crate::engine::EngineError>)
    ensures
        match r {
            Ok(i) => describes_input(*j, i) && well_formed_port(*j, "output"@),
            Err(e) => e is Other && !well_formed_port(*j, "output"@),
        },
{
    let cs = match connections_member(j) {
        Ok(cs) => cs,
        Err(e) => {
            return Err(e);
        },
    };
    let mut connections: Vec<InputConnection> = Vec::new();
    let mut k: usize = 0;
    while k < cs.len()
        invariant
            k <= cs@.len(),
            connections@.len() == k,
            j.field("connections"@) == Some(Json::Array(*cs)),
            forall|q: int| 0 <= q < k ==> describes_input_connection(cs@[q], #[trigger] connections@[q]),
            forall|q: int| 0 <= q < k ==> well_formed_connection(#[trigger] cs@[q], "output"@),
        decreases cs@.len() - k,
    {
        let c = &cs[k];
        let node = match int_member(c, "node") {
            Ok(n) => n,
            Err(e) => {
                proof {
                    assert(!well_formed_connection(cs@[k as int], "output"@));
                    if well_formed_port(*j, "output"@) {
                        let whole = j.field("connections"@)->Some_0->Array_0;
                        assert(whole == *cs);
                        assert(well_formed_connection(whole@[k as int], "output"@));
                    }
                }
                return Err(e);
            },
        };
        let output = match text_member(c, "output") {
            Ok(s) => s,
            Err(e) => {
                proof {
                    assert(!well_formed_connection(cs@[k as int], "output"@));
                    if well_formed_port(*j, "output"@) {
                        let whole = j.field("connections"@)->Some_0->Array_0;
                        assert(whole == *cs);
                        assert(well_formed_connection(whole@[k as int], "output"@));
                    }
                }
                return Err(e);
            },
        };
        let data = payload_member(c);
        connections.push(InputConnection { node, output, data });
        k = k + 1;
    }
    Ok(Input { connections })
}

fn decode_output(j: &Json) -> (r: Result<Output, crate::engine::EngineError>)
    ensures
        match r {
            Ok(o) => describes_output(*j, o) && well_formed_port(*j, "input"@),
            Err(e) => e is Other && !well_formed_port(*j, "input"@),
        },
{
    let cs = match connections_member(j) {
        Ok(cs) => cs,
        Err(e) => {
            return Err(e);
        },
    };
    let mut connections: Vec<OutputConnection> = Vec::new();
    let mut k: usize = 0;
    while k < cs.len()
        invariant
            k <= cs@.len(),
            connections@.len() == k,
            j.field("connections"@) == Some(Json::Array(*cs)),
            forall|q: int| 0 <= q < k ==> describes_output_connection(cs@[q], #[trigger] connections@[q]),
            forall|q: int| 0 <= q < k ==> well_formed_connection(#[trigger] cs@[q], "input"@),
        decreases cs@.len() - k,
    {
        let c = &cs[k];
        let node = match int_member(c, "node") {
            Ok(n) => n,
            Err(e) => {
                proof {
                    assert(!well_formed_connection(cs@[k as int], "input"@));
                    if well_formed_port(*j, "input"@) {
                        let whole = j.field("connections"@)->Some_0->Array_0;
                        assert(whole == *cs);
                        assert(well_formed_connection(whole@[k as int], "input"@));
                    }
                }
                return Err(e);
            },
        };
        let input = match text_member(c, "input") {
            Ok(s) => s,
            Err(e) => {
                proof {
                    assert(!well_formed_connection(cs@[k as int], "input"@));
                    if well_formed_port(*j, "input"@) {
                        let whole = j.field("connections"@)->Some_0->Array_0;
                        assert(whole == *cs);
                        assert(well_formed_connection(whole@[k as int], "input"@));
                    }
                }
                return Err(e);
            },
        };
        let data = payload_member(c);
        connections.push(OutputConnection { node, input, data });
        k = k + 1;
    }
    Ok(Output { connections })
}

fn decode_inputs(m: Option<&Json>) -> (r: Result<Option<Inputs>, crate::engine::EngineError>)
    ensures
        match r {
            Ok(v) => describes_inputs(
                match m {
                    Some(x) => Some(*x),
                    None => None,
                },
                v,
            ) && well_formed_ports(
                match m {
                    Some(x) => Some(*x),
                    None => None,
                },
                "output"@,
            ),
            Err(e) => e is Other && !well_formed_ports(
                match m {
                    Some(x) => Some(*x),
                    None => None,
                },
                "output"@,
            ),
        },
{
    match m {
        None => Ok(None),
        Some(Json::Null) => Ok(None),
        Some(Json::Object(ports)) => {
            let mut out: Vec<(String, Input)> = Vec::new();
            let mut p: usize = 0;
            while p < ports.len()
                invariant
                    p <= ports@.len(),
                    out@.len() == p,
                    m matches Some(x) && *x == Json::Object(*ports),
                    forall|q: int|
                        0 <= q < p ==> (#[trigger] out@[q]).0@ == ports@[q].0@ && describes_input(
                            ports@[q].1,
                            out@[q].1,
                        ),
                    forall|q: int| 0 <= q < p ==> well_formed_port(#[trigger] ports@[q].1, "output"@),
                decreases ports@.len() - p,
            {
                let input = match decode_input(&ports[p].1) {
                    Ok(i) => i,
                    Err(e) => {
                        proof {
                            assert(!well_formed_port(ports@[p as int].1, "output"@));
                            let whole = m->Some_0;
                            assert(*whole == Json::Object(*ports));
                            let mm: Option<Json> = Some(*whole);
                            assert(!absent(mm));
                            if well_formed_ports(mm, "output"@) {
                                let ps = mm->Some_0->Object_0;
                                assert(ps == *ports);
                                assert(well_formed_port(ps@[p as int].1, "output"@));
                            }
                        }
                        return Err(e);
                    },
                };
                out.push((ports[p].0.clone(), input));
                p = p + 1;
            }
            Ok(Some(Inputs(out)))
        },
        Some(_) => Err(malformed("inputs")),
    }
}

fn decode_outputs(m: Option<&Json>) -> (r: Result<Option<Outputs>, crate::engine::EngineError>)
    ensures
        match r {
            Ok(v) => describes_outputs(
                match m {
                    Some(x) => Some(*x),
                    None => None,
                },
                v,
            ) && well_formed_ports(
                match m {
                    Some(x) => Some(*x),
                    None => None,
                },
                "input"@,
            ),
            Err(e) => e is Other && !well_formed_ports(
                match m {
                    Some(x) => Some(*x),
                    None => None,
                },
                "input"@,
            ),
        },
{
    match m {
        None => Ok(None),
        Some(Json::Null) => Ok(None),
        Some(Json::Object(ports)) => {
            let mut out: Vec<(String, Output)> = Vec::new();
            let mut p: usize = 0;
            while p < ports.len()
                invariant
                    p <= ports@.len(),
                    out@.len() == p,
                    m matches Some(x) && *x == Json::Object(*ports),
                    forall|q: int|
                        0 <= q < p ==> (#[trigger] out@[q]).0@ == ports@[q].0@ && describes_output(
                            ports@[q].1,
                            out@[q].1,
                        ),
                    forall|q: int| 0 <= q < p ==> well_formed_port(#[trigger] ports@[q].1, "input"@),
                decreases ports@.len() - p,
            {
                let output = match decode_output(&ports[p].1) {
                    Ok(o) => o,
                    Err(e) => {
                        proof {
                            assert(!well_formed_port(ports@[p as int].1, "input"@));
                            let whole = m->Some_0;
                            assert(*whole == Json::Object(*ports));
                            let mm: Option<Json> = Some(*whole);
                            assert(!absent(mm));
                            if well_formed_ports(mm, "input"@) {
                                let ps = mm->Some_0->Object_0;
                                assert(ps == *ports);
                                assert(well_formed_port(ps@[p as int].1, "input"@));
                            }
                        }
                        return Err(e);
                    },
                };
                out.push((ports[p].0.clone(), output));
                p = p + 1;
            }
            Ok(Some(Outputs(out)))
        },
        Some(_) => Err(malformed("outputs")),
    }
}

/// Reads one node record.
pub fn decode_node(j: &Json) -> (r: Result<Node, crate::engine::EngineError>)
    ensures
        match r {
            Ok(n) => describes_node(*j, n),
            Err(e) => e is Other,
        },
        r is Ok <==> well_formed_node(*j),
{
    let id = match int_member(j, "id") {
        Ok(i) => i,
        Err(e) => {
            return Err(e);
        },
    };
    let name = match text_member(j, "name") {
        Ok(s) => s,
        Err(e) => {
            return Err(e);
        },
    };
    let data = match j.get("data") {
        None => None,
        Some(Json::Null) => None,
        Some(d) => Some(d.duplicate()),
    };
    let group = match j.get("group") {
        None => None,
        Some(Json::Null) => None,
        Some(g) => match g.as_i64() {
            Some(i) => Some(i),
            None => {
                return Err(malformed("group"));
            },
        },
    };
    let inputs = match decode_inputs(j.get("inputs")) {
        Ok(i) => i,
        Err(e) => {
            return Err(e);
        },
    };
    let outputs = match decode_outputs(j.get("outputs")) {
        Ok(o) => o,
        Err(e) => {
            return Err(e);
        },
    };
    Ok(Node { id, name, data, group, inputs, outputs })
}

/// The characters are one or more ASCII digits.
pub open spec fn all_digits(s: Seq<char>) -> bool {
    s.len() > 0 && forall|i: int| 0 <= i < s.len() ==> '0' <= #[trigger] s[i] && s[i] <= '9'
}

/// The number that a string of ASCII digits writes in base ten.
pub open spec fn digits_value(s: Seq<char>) -> int
    decreases s.len(),
{
    if s.len() == 0 {
        0
    } else {
        digits_value(s.drop_last()) * 10 + ((s.last() as u32) - ('0' as u32))
    }
}

/// The integer that a decimal text writes: an optional sign, then digits.
pub open spec fn decimal_value(s: Seq<char>) -> Option<int> {
    if s.len() > 0 && s[0] == '-' && all_digits(s.drop_first()) {
        Some(-digits_value(s.drop_first()))
    } else if s.len() > 0 && s[0] == '+' && all_digits(s.drop_first()) {
        Some(digits_value(s.drop_first()))
    } else if all_digits(s) {
        Some(digits_value(s))
    } else {
        None
    }
}

/// The `i64` that a decimal text writes, if it is in range.
pub open spec fn parsed_i64(s: Seq<char>) -> Option<i64> {
    match decimal_value(s) {
        Some(v) => if i64::MIN <= v <= i64::MAX {
            Some(v as i64)
        } else {
            None
        },
        None => None,
    }
}

/// Relies on i64's `FromStr`: an optional `+` or `-`, then one or more
/// ASCII digits, whose value must fit.
#[verifier::external_body]
pub(crate) fn parse_i64(s: &str) -> (r: Option<i64>)
    ensures
        r == parsed_i64(s@),
{
    s.parse::<i64>().ok()
}

} // verus!
