//! What nodes produce and consume: single values, output snapshots and the
//! input snapshot that a worker receives.
use vstd::prelude::*;
use std::rc::Rc;
use crate::json::{parse_json_text, parsed_json, Json, JsonView};
use crate::keyed::{find_key, get_by_key, has_key, lookup, same_text};
use crate::target::{Inputs, Outputs};

verus! {

/// The kinds of value a node can produce.
#[derive(Clone, Copy, Debug, PartialEq, Eq, Structural)]
pub enum Kind {
    Int,
    Float,
    Text,
    Bool,
    Json,
}

/// One produced value. A floating-point value is carried as its decimal text.
#[derive(Clone, Debug)]
pub enum DataValue {
    Int(i64),
    Float(String),
    Text(String),
    Bool(bool),
    Json(Json),
}

impl DataValue {
    pub open spec fn kind(self) -> Kind {
        match self {
            DataValue::Int(_) => Kind::Int,
            DataValue::Float(_) => Kind::Float,
            DataValue::Text(_) => Kind::Text,
            DataValue::Bool(_) => Kind::Bool,
            DataValue::Json(_) => Kind::Json,
        }
    }
}

/// A value with its runtime kind, as produced for one output port.
#[derive(Clone, Debug)]
pub struct IOData {
    pub data: DataValue,
}

impl IOData {
    /// Whether the value is of the given kind.
    pub fn is(&self, kind: Kind) -> (r: bool)
        ensures
            r == (self.data.kind() == kind),
    {
        let k = match &self.data {
            DataValue::Int(_) => Kind::Int,
            DataValue::Float(_) => Kind::Float,
            DataValue::Text(_) => Kind::Text,
            DataValue::Bool(_) => Kind::Bool,
            DataValue::Json(_) => Kind::Json,
        };
        k == kind
    }

    /// The value, when it is of the given kind.
    pub fn get(&self, kind: Kind) -> (r: Option<&DataValue>)
        ensures
            match r {
                Some(v) => self.data.kind() == kind && *v == self.data,
                None => self.data.kind() != kind,
            },
    {
        if self.is(kind) {
            Some(&self.data)
        } else {
            None
        }
    }
}

/// The result stored for one output port.
#[derive(Clone, Debug)]
pub struct NodeResult(pub IOData);

/// An immutable, shared snapshot of what one node produced, by output port.
/// A later entry overrides an earlier one with the same port name.
#[derive(Debug)]
pub struct OutputData(Rc<Vec<(String, NodeResult)>>);

impl OutputData {
    pub closed spec fn entries(self) -> Seq<(String, NodeResult)> {
        (*self.0)@
    }

    /// The value produced for `port`, if any.
    pub open spec fn port(self, port: Seq<char>) -> Option<DataValue> {
        match lookup(self.entries(), port) {
            Some(r) => Some(r.0.data),
            None => None,
        }
    }

    pub open spec fn has_port(self, port: Seq<char>) -> bool {
        has_key(self.entries(), port)
    }

    /// The snapshot of a node that produced nothing.
    pub fn empty() -> (r: OutputData)
        ensures
            r.entries() == Seq::<(String, NodeResult)>::empty(),
    {
        OutputData(Rc::new(Vec::new()))
    }

    /// Another handle on the same snapshot.
    pub fn share(&self) -> (r: OutputData)
        ensures
            r == *self,
    {
        OutputData(Rc::clone(&self.0))
    }

    pub fn contains_key(&self, port: &str) -> (r: bool)
        ensures
            r == self.has_port(port@),
    {
        find_key(&self.0, port).is_some()
    }

    pub fn get(&self, port: &str) -> (r: Option<&NodeResult>)
        ensures
            match r {
                Some(v) => self.has_port(port@) && self.port(port@) == Some(v.0.data),
                None => !self.has_port(port@),
            },
    {
        get_by_key(&self.0, port)
    }

    /// The names of the ports produced.
    pub open spec fn ports(self) -> Set<Seq<char>> {
        Set::new(|port: Seq<char>| self.has_port(port))
    }

    /// The number of distinct ports produced.
    pub fn len(&self) -> (r: usize)
        ensures
            r == self.ports().len(),
    {
        let entries: &Vec<(String, NodeResult)> = &self.0;
        let ghost seen: Set<Seq<char>> = Set::empty();
        let mut count: usize = 0;
        let mut i: usize = 0;
        while i < entries.len()
            invariant
                i <= entries@.len(),
                *entries == *self.0,
                seen.finite(),
                count == seen.len(),
                count <= i,
                seen == Set::new(|k: Seq<char>| exists|j: int| 0 <= j < i && entries@[j].0@ == k),
            decreases entries@.len() - i,
        {
            let mut earlier = false;
            let mut j: usize = 0;
            while j < i
                invariant
                    j <= i < entries@.len(),
                    earlier == exists|q: int| 0 <= q < j && entries@[q].0@ == entries@[i as int].0@,
                decreases i - j,
            {
                if same_text(entries[j].0.as_str(), entries[i].0.as_str()) {
                    earlier = true;
                }
                j = j + 1;
            }
            proof {
                let next = Set::new(|k: Seq<char>| exists|q: int| 0 <= q < i + 1 && entries@[q].0@ == k);
                if earlier {
                    assert(next =~= seen) by {
                        assert forall|k: Seq<char>| next.contains(k) implies seen.contains(k) by {
                            let q = choose|q: int| 0 <= q < i + 1 && entries@[q].0@ == k;
                            if q == i {
                                let w = choose|w: int| 0 <= w < i && entries@[w].0@ == entries@[i as int].0@;
                                assert(entries@[w].0@ == k);
                            }
                        }
                    }
                } else {
                    assert(next =~= seen.insert(entries@[i as int].0@));
                    assert(!seen.contains(entries@[i as int].0@));
                }
            }
            if !earlier {
                count = count + 1;
                proof {
                    seen = seen.insert(entries@[i as int].0@);
                }
            } else {
                proof {
                    seen = Set::new(|k: Seq<char>| exists|q: int| 0 <= q < i + 1 && entries@[q].0@ == k);
                }
            }
            proof {
                assert(seen =~= Set::new(|k: Seq<char>| exists|q: int| 0 <= q < i + 1 && entries@[q].0@ == k));
            }
            i = i + 1;
        }
        proof {
            assert(seen =~= self.ports());
        }
        count
    }
}

/// Collects the values of a node's output ports.
pub struct OutputDataBuilder {
    data: Vec<(String, NodeResult)>,
}

impl OutputDataBuilder {
    pub closed spec fn pending(self) -> Seq<(String, NodeResult)> {
        self.data@
    }

    pub fn new() -> (r: OutputDataBuilder)
        ensures
            r.pending() == Seq::<(String, NodeResult)>::empty(),
    {
        OutputDataBuilder { data: Vec::new() }
    }

    /// Records `data` for the port `key`, in place.
    pub fn add_data(&mut self, key: &str, data: DataValue) -> (r: &mut Self)
        ensures
            r.pending().len() == old(self).pending().len() + 1,
            r.pending().drop_last() == old(self).pending(),
            r.pending().last().0@ == key@,
            r.pending().last().1 == NodeResult(IOData { data }),
            *final(self) == *final(r),
    {
        self.data.push((key.to_owned(), NodeResult(IOData { data })));
        self
    }

    /// Records `data` for the port `key`, passing the builder on.
    pub fn data(self, key: &str, data: DataValue) -> (r: Self)
        ensures
            r.pending().len() == self.pending().len() + 1,
            r.pending().drop_last() == self.pending(),
            r.pending().last().0@ == key@,
            r.pending().last().1 == NodeResult(IOData { data }),
    {
        let mut b = self;
        b.data.push((key.to_owned(), NodeResult(IOData { data })));
        b
    }

    pub fn build(self) -> (r: OutputData)
        ensures
            r.entries() == self.pending(),
    {
        OutputData(Rc::new(self.data))
    }
}

/// What a worker receives: for each input port, the whole snapshot of the
/// node that feeds it. A later entry overrides an earlier one.
#[derive(Debug)]
pub struct InputData(Vec<(String, OutputData)>);

impl InputData {
    pub closed spec fn entries(self) -> Seq<(String, OutputData)> {
        self.0@
    }

    /// The snapshot that feeds `port`, if any.
    pub open spec fn source(self, port: Seq<char>) -> Option<OutputData> {
        lookup(self.entries(), port)
    }

    pub fn get(&self, port: &str) -> (r: Option<&OutputData>)
        ensures
            match r {
                Some(v) => self.source(port@) == Some(*v),
                None => self.source(port@) is None,
            },
    {
        get_by_key(&self.0, port)
    }
}

/// Collects the snapshots that feed a node's input ports.
pub struct InputDataBuilder {
    data: Vec<(String, OutputData)>,
}

impl InputDataBuilder {
    pub closed spec fn pending(self) -> Seq<(String, OutputData)> {
        self.data@
    }

    pub fn new() -> (r: InputDataBuilder)
        ensures
            r.pending() == Seq::<(String, OutputData)>::empty(),
    {
        InputDataBuilder { data: Vec::new() }
    }

    pub fn add_data(self, key: String, data: OutputData) -> (r: InputDataBuilder)
        ensures
            r.pending() == self.pending().push((key, data)),
    {
        let mut b = self;
        b.data.push((key, data));
        b
    }

    pub fn build(self) -> (r: InputData)
        ensures
            r.entries() == self.pending(),
    {
        InputData(self.data)
    }
}

/// Why a node's field could not be read, or a worker gave up.
#[derive(Debug)]
pub enum NodeError {
    /// A value was found but is not of the kind asked for.
    ConversionError(String),
    /// No value was found for the named field.
    NoValueFound(String),
    /// The field, the text that was read, and why it is not JSON.
    DeserializeError(String, String, String),
    /// A failure of the worker's own.
    Failed(String),
}

/// What a [`NodeError`] says; the reason a text is not JSON is left out.
pub enum NodeErrorView {
    ConversionError(Seq<char>),
    NoValueFound(Seq<char>),
    DeserializeError(Seq<char>, Seq<char>),
    Failed(Seq<char>),
}

impl NodeError {
    pub open spec fn view(self) -> NodeErrorView {
        match self {
            NodeError::ConversionError(m) => NodeErrorView::ConversionError(m@),
            NodeError::NoValueFound(f) => NodeErrorView::NoValueFound(f@),
            NodeError::DeserializeError(f, raw, _) => NodeErrorView::DeserializeError(f@, raw@),
            NodeError::Failed(m) => NodeErrorView::Failed(m@),
        }
    }
}

/// The text of a conversion error: `Field: <field>, Type: <type>`.
pub open spec fn conversion_message(field: Seq<char>, kind_name: Seq<char>) -> Seq<char> {
    "Field: "@ + field + ", Type: "@ + kind_name
}

fn conversion_error(field: &str, kind_name: &str) -> (r: NodeError)
    ensures
        r matches NodeError::ConversionError(m) && m@ == conversion_message(field@, kind_name@),
{
    let mut m = "Field: ".to_owned();
    m.append(field);
    m.append(", Type: ");
    m.append(kind_name);
    NodeError::ConversionError(m)
}

fn no_value_found(field: &str) -> (r: NodeError)
    ensures
        r matches NodeError::NoValueFound(m) && m@ == field@,
{
    NodeError::NoValueFound(field.to_owned())
}

impl NodeError {
    /// The text that [`NodeError::message`] gives.
    pub open spec fn message_text(self) -> Seq<char> {
        match self {
                NodeError::ConversionError(m) => "Node input conversion error: "@ + m@,
                NodeError::NoValueFound(f) => "No value found for: "@ + f@,
                NodeError::DeserializeError(f, v, e) => "Field: "@ + f@ + ", Value: "@ + v@
                    + ", Deserialization error: "@ + e@,
                NodeError::Failed(m) => m@,
        }
    }

    /// A human-readable account of the error.
    pub fn message(&self) -> (r: String)
        ensures
            r@ == self.message_text(),
    {
        match self {
            NodeError::ConversionError(m) => {
                let mut r = "Node input conversion error: ".to_owned();
                r.append(m.as_str());
                r
            },
            NodeError::NoValueFound(f) => {
                let mut r = "No value found for: ".to_owned();
                r.append(f.as_str());
                r
            },
            NodeError::DeserializeError(f, v, e) => {
                let mut r = "Field: ".to_owned();
                r.append(f.as_str());
                r.append(", Value: ");
                r.append(v.as_str());
                r.append(", Deserialization error: ");
                r.append(e.as_str());
                r
            },
            NodeError::Failed(m) => m.clone(),
        }
    }
}

/// A unit of computation: an id, the name of the worker that computes it,
/// a static payload and named input and output ports.
#[derive(Clone, Debug)]
pub struct Node {
    pub id: i64,
    pub name: String,
    pub data: Option<Json>,
    pub group: Option<i64>,
    pub inputs: Option<Inputs>,
    pub outputs: Option<Outputs>,
}

impl Node {
    pub open spec fn input_ports(self) -> Seq<(String, crate::target::Input)> {
        match self.inputs {
            Some(i) => i.0@,
            None => Seq::empty(),
        }
    }

    pub open spec fn output_ports(self) -> Seq<(String, crate::target::Output)> {
        match self.outputs {
            Some(o) => o.0@,
            None => Seq::empty(),
        }
    }

    /// The output port named by the first connection on input `field`.
    pub open spec fn feeding_port(self, field: Seq<char>) -> Option<Seq<char>> {
        match lookup(self.input_ports(), field) {
            Some(input) => if input.connections@.len() > 0 {
                Some(input.connections@[0].output@)
            } else {
                None
            },
            None => None,
        }
    }

    /// The upstream value for `field`: in the snapshot that feeds the input
    /// port `field`, the port that its connection names.
    pub open spec fn input_value(self, field: Seq<char>, inputs: InputData) -> Option<DataValue> {
        match (inputs.source(field), self.feeding_port(field)) {
            (Some(snapshot), Some(port)) => snapshot.port(port),
            _ => None,
        }
    }

    /// The member `field` of the static payload.
    pub open spec fn static_value(self, field: Seq<char>) -> Option<Json> {
        match self.data {
            Some(d) => d.field(field),
            None => None,
        }
    }

    fn feeding_port_of(&self, field: &str) -> (r: Option<&str>)
        ensures
            match r {
                Some(p) => self.feeding_port(field@) == Some(p@),
                None => self.feeding_port(field@) is None,
            },
    {
        match &self.inputs {
            Some(inputs) => match get_by_key(&inputs.0, field) {
                Some(input) => if input.connections.len() > 0 {
                    Some(input.connections[0].output.as_str())
                } else {
                    None
                },
                None => None,
            },
            None => None,
        }
    }

    /// Step one of field resolution: the value that arrives on input `field`.
    pub fn input_field<'a>(&self, field: &str, inputs: &'a InputData) -> (r: Option<&'a DataValue>)
        ensures
            match r {
                Some(v) => self.input_value(field@, *inputs) == Some(*v),
                None => self.input_value(field@, *inputs) is None,
            },
    {
        match inputs.get(field) {
            Some(snapshot) => match self.feeding_port_of(field) {
                Some(port) => match snapshot.get(port) {
                    Some(result) => Some(&result.0.data),
                    None => None,
                },
                None => None,
            },
            None => None,
        }
    }

    /// Step two of field resolution: the member `field` of the payload.
    pub fn static_field(&self, field: &str) -> (r: Option<&Json>)
        ensures
            match r {
                Some(v) => self.static_value(field@) == Some(*v),
                None => self.static_value(field@) is None,
            },
    {
        match &self.data {
            Some(d) => d.get(field),
            None => None,
        }
    }

    /// An integer field: an upstream integer, else the payload member
    /// (which must be an integer in range), else the default.
    pub open spec fn number_field(self, field: Seq<char>, inputs: InputData, default: Option<i64>) -> Result<
        i64,
        NodeErrorView,
    > {
        match self.input_value(field, inputs) {
            Some(DataValue::Int(i)) => Ok(i),
            _ => match self.static_value(field) {
                Some(v) => match v.int_value() {
                    Some(i) => Ok(i),
                    None => Err(NodeErrorView::ConversionError(conversion_message(field, "i64"@))),
                },
                None => match default {
                    Some(d) => Ok(d),
                    None => Err(NodeErrorView::NoValueFound(field)),
                },
            },
        }
    }

    /// A text field: upstream text, else the payload member (which must be
    /// a string), else the default.
    pub open spec fn string_field(self, field: Seq<char>, inputs: InputData, default: Option<Seq<char>>) -> Result<
        Seq<char>,
        NodeErrorView,
    > {
        match self.input_value(field, inputs) {
            Some(DataValue::Text(t)) => Ok(t@),
            _ => match self.static_value(field) {
                Some(Json::Str(t)) => Ok(t@),
                Some(_) => Err(
                    NodeErrorView::ConversionError(
                        conversion_message(field, "alloc::string::String"@),
                    ),
                ),
                None => match default {
                    Some(d) => Ok(d),
                    None => Err(NodeErrorView::NoValueFound(field)),
                },
            },
        }
    }

    /// A structured field: an upstream structured value, else the payload
    /// member, which must be a string holding JSON text, else the default.
    pub open spec fn json_field(self, field: Seq<char>, inputs: InputData, default: Option<JsonView>) -> Result<
        JsonView,
        NodeErrorView,
    > {
        match self.input_value(field, inputs) {
            Some(DataValue::Json(j)) => Ok(j@),
            _ => match self.static_value(field) {
                Some(Json::Str(t)) => match parsed_json(t@) {
                    Some(j) => Ok(j),
                    None => Err(NodeErrorView::DeserializeError(field, t@)),
                },
                Some(_) => Err(NodeErrorView::ConversionError(conversion_message(field, "json text"@))),
                None => match default {
                    Some(d) => Ok(d),
                    None => Err(NodeErrorView::NoValueFound(field)),
                },
            },
        }
    }

    /// Any field as a structured value: an upstream value of any kind in its
    /// structured form, else the payload member as it is, else the default.
    pub open spec fn as_json_field(self, field: Seq<char>, inputs: InputData, default: Option<JsonView>) -> Result<
        JsonView,
        NodeErrorView,
    > {
        match self.input_value(field, inputs) {
            Some(v) => match as_json(v) {
                Some(j) => Ok(j),
                None => Err(NodeErrorView::ConversionError("Unable to get `f64` as json field"@)),
            },
            None => match self.static_value(field) {
                Some(j) => Ok(j@),
                None => match default {
                    Some(d) => Ok(d),
                    None => Err(NodeErrorView::NoValueFound(field)),
                },
            },
        }
    }

    pub fn get_number_field_or(&self, field: &str, inputs: &InputData, default: Option<i64>) -> (r:
        Result<i64, NodeError>)
        ensures
            match r {
                Ok(v) => self.number_field(field@, *inputs, default) == Ok::<i64, NodeErrorView>(v),
                Err(e) => self.number_field(field@, *inputs, default) == Err::<i64, NodeErrorView>(e@),
            },
    {
        if let Some(DataValue::Int(i)) = self.input_field(field, inputs) {
            return Ok(*i);
        }
        match self.static_field(field) {
            Some(v) => match v.as_i64() {
                Some(i) => Ok(i),
                None => Err(conversion_error(field, "i64")),
            },
            None => match default {
                Some(d) => Ok(d),
                None => Err(no_value_found(field)),
            },
        }
    }

    pub fn get_number_field(&self, field: &str, inputs: &InputData) -> (r: Result<i64, NodeError>)
        ensures
            match r {
                Ok(v) => self.number_field(field@, *inputs, None) == Ok::<i64, NodeErrorView>(v),
                Err(e) => self.number_field(field@, *inputs, None) == Err::<i64, NodeErrorView>(e@),
            },
    {
        self.get_number_field_or(field, inputs, None)
    }

    pub fn get_string_field_or(&self, field: &str, inputs: &InputData, default: Option<String>) -> (r:
        Result<String, NodeError>)
        ensures
            match r {
                Ok(v) => self.string_field(field@, *inputs, text_view(default)) == Ok::<
                    Seq<char>,
                    NodeErrorView,
                >(v@),
                Err(e) => self.string_field(field@, *inputs, text_view(default)) == Err::<
                    Seq<char>,
                    NodeErrorView,
                >(e@),
            },
    {
        if let Some(DataValue::Text(t)) = self.input_field(field, inputs) {
            return Ok(t.clone());
        }
        match self.static_field(field) {
            Some(v) => match v.as_str() {
                Some(t) => Ok(t.to_owned()),
                None => Err(conversion_error(field, "alloc::string::String")),
            },
            None => match default {
                Some(d) => Ok(d),
                None => Err(no_value_found(field)),
            },
        }
    }

    pub fn get_string_field(&self, field: &str, inputs: &InputData) -> (r: Result<String, NodeError>)
        ensures
            match r {
                Ok(v) => self.string_field(field@, *inputs, None) == Ok::<Seq<char>, NodeErrorView>(v@),
                Err(e) => self.string_field(field@, *inputs, None) == Err::<Seq<char>, NodeErrorView>(
                    e@,
                ),
            },
    {
        self.get_string_field_or(field, inputs, None)
    }

    pub fn get_json_field_or(&self, field: &str, inputs: &InputData, default: Option<Json>) -> (r:
        Result<Json, NodeError>)
        ensures
            match r {
                Ok(v) => self.json_field(field@, *inputs, json_view(default)) == Ok::<
                    JsonView,
                    NodeErrorView,
                >(v@),
                Err(e) => self.json_field(field@, *inputs, json_view(default)) == Err::<
                    JsonView,
                    NodeErrorView,
                >(e@),
            },
    {
        if let Some(DataValue::Json(j)) = self.input_field(field, inputs) {
            return Ok(j.duplicate());
        }
        match self.static_field(field) {
            Some(v) => match v.as_str() {
                Some(t) => match parse_json_text(t) {
                    Ok(j) => Ok(j),
                    Err(e) => Err(NodeError::DeserializeError(field.to_owned(), t.to_owned(), e)),
                },
                None => Err(conversion_error(field, "json text")),
            },
            None => match default {
                Some(d) => Ok(d),
                None => Err(no_value_found(field)),
            },
        }
    }

    pub fn get_json_field(&self, field: &str, inputs: &InputData) -> (r: Result<Json, NodeError>)
        ensures
            match r {
                Ok(v) => self.json_field(field@, *inputs, None) == Ok::<JsonView, NodeErrorView>(v@),
                Err(e) => self.json_field(field@, *inputs, None) == Err::<JsonView, NodeErrorView>(e@),
            },
    {
        self.get_json_field_or(field, inputs, None)
    }

    pub fn get_as_json_field_or(&self, field: &str, inputs: &InputData, default: Option<Json>) -> (r:
        Result<Json, NodeError>)
        ensures
            match r {
                Ok(v) => self.as_json_field(field@, *inputs, json_view(default)) == Ok::<
                    JsonView,
                    NodeErrorView,
                >(v@),
                Err(e) => self.as_json_field(field@, *inputs, json_view(default)) == Err::<
                    JsonView,
                    NodeErrorView,
                >(e@),
            },
    {
        if let Some(v) = self.input_field(field, inputs) {
            return match v {
                DataValue::Json(j) => Ok(j.duplicate()),
                DataValue::Bool(b) => Ok(Json::Bool(*b)),
                DataValue::Int(i) => Ok(Json::Int(*i)),
                DataValue::Text(t) => Ok(Json::Str(t.clone())),
                DataValue::Float(t) => if is_finite_text(t.as_str()) {
                    Ok(Json::Float(t.clone()))
                } else {
                    Err(NodeError::ConversionError("Unable to get `f64` as json field".to_owned()))
                },
            };
        }
        match self.static_field(field) {
            Some(v) => Ok(v.duplicate()),
            None => match default {
                Some(d) => Ok(d),
                None => Err(no_value_found(field)),
            },
        }
    }

    pub fn get_as_json_field(&self, field: &str, inputs: &InputData) -> (r: Result<Json, NodeError>)
        ensures
            match r {
                Ok(v) => self.as_json_field(field@, *inputs, None) == Ok::<JsonView, NodeErrorView>(v@),
                Err(e) => self.as_json_field(field@, *inputs, None) == Err::<JsonView, NodeErrorView>(
                    e@,
                ),
            },
    {
        self.get_as_json_field_or(field, inputs, None)
    }
}

pub open spec fn text_view(o: Option<String>) -> Option<Seq<char>> {
    match o {
        Some(t) => Some(t@),
        None => None,
    }
}

pub open spec fn json_view(o: Option<Json>) -> Option<JsonView> {
    match o {
        Some(j) => Some(j@),
        None => None,
    }
}

/// The decimal texts that stand for no finite number.
pub open spec fn non_finite_text(t: Seq<char>) -> bool {
    t == "NaN"@ || t == "inf"@ || t == "-inf"@
}

fn is_finite_text(t: &str) -> (r: bool)
    ensures
        r == !non_finite_text(t@),
{
    !(same_text(t, "NaN") || same_text(t, "inf") || same_text(t, "-inf"))
}

/// The structured form of an upstream value; a float that is not finite
/// has none.
pub open spec fn as_json(v: DataValue) -> Option<JsonView> {
    match v {
        DataValue::Json(j) => Some(j@),
        DataValue::Bool(b) => Some(JsonView::Bool(b)),
        DataValue::Int(i) => Some(JsonView::Int(i)),
        DataValue::Text(t) => Some(JsonView::Str(t@)),
        DataValue::Float(t) => if non_finite_text(t@) {
            None
        } else {
            Some(JsonView::Float(t@))
        },
    }
}

} // verus!
