//! The static graph: input and output ports and the connections on them.
use vstd::prelude::*;
use crate::json::Json;
use crate::keyed::lookup;

verus! {

/// On an input port: the node and output port whose value feeds it.
#[derive(Clone, Debug)]
pub struct InputConnection {
    pub node: i64,
    pub output: String,
    pub data: Json,
}

#[derive(Clone, Debug)]
pub struct Input {
    pub connections: Vec<InputConnection>,
}

/// On an output port: the node and input port that it feeds.
#[derive(Clone, Debug)]
pub struct OutputConnection {
    pub node: i64,
    pub input: String,
    pub data: Json,
}

#[derive(Clone, Debug)]
pub struct Output {
    pub connections: Vec<OutputConnection>,
}

/// A node's input ports by name; a later entry overrides an earlier one.
#[derive(Clone, Debug)]
pub struct Inputs(pub Vec<(String, Input)>);

impl Inputs {
    pub open spec fn port(self, name: Seq<char>) -> Option<Input> {
        lookup(self.0@, name)
    }

    pub fn inner(&self) -> (r: &Vec<(String, Input)>)
        ensures
            *r == self.0,
    {
        &self.0
    }
}

/// A node's output ports by name; a later entry overrides an earlier one.
#[derive(Clone, Debug)]
pub struct Outputs(pub Vec<(String, Output)>);

impl Outputs {
    pub open spec fn port(self, name: Seq<char>) -> Option<Output> {
        lookup(self.0@, name)
    }

    pub fn inner(&self) -> (r: &Vec<(String, Output)>)
        ensures
            *r == self.0,
    {
        &self.0
    }
}

} // verus!
