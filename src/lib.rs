//! A dataflow-graph execution engine: nodes with typed ports, pluggable
//! per-type workers, memoised depth-first evaluation and branch pruning.
use vstd::prelude::*;

pub mod cascade;
pub mod description;
pub mod engine;
pub mod json;
pub mod keyed;
pub mod node;
pub mod target;
pub mod workers;

pub use engine::{Engine, EngineError, EvalContext};
pub use json::{Json, JsonView};
pub use node::{
    DataValue, IOData, InputData, InputDataBuilder, Kind, Node, NodeError, NodeResult, OutputData,
    OutputDataBuilder,
};
pub use target::{Input, InputConnection, Inputs, Output, OutputConnection, Outputs};
pub use workers::{Worker, WorkerError, Workers, WorkersBuilder};

verus! {

} // verus!
