use std::cell::RefCell;
use std::collections::HashMap;
use std::rc::Rc;

use dataflow_engine::{
    DataValue, Engine, EngineError, EvalContext, InputData, Kind, Node, NodeError, OutputData,
    OutputDataBuilder, Worker, WorkerError, WorkersBuilder,
};

type Log = Rc<RefCell<Vec<i64>>>;

struct Number(Log);
impl Worker for Number {
    fn name(&self) -> &str {
        "Number"
    }

    fn work(&self, node: &Node, input_data: InputData) -> Result<OutputData, NodeError> {
        self.0.borrow_mut().push(node.id);
        let result = node.get_number_field("num", &input_data)?;
        Ok(OutputDataBuilder::new().data("num", DataValue::Int(result)).build())
    }
}

struct Add(Log);
impl Worker for Add {
    fn name(&self) -> &str {
        "Add"
    }

    fn work(&self, node: &Node, input_data: InputData) -> Result<OutputData, NodeError> {
        self.0.borrow_mut().push(node.id);
        let num = node.get_number_field("num", &input_data)?;
        let num2 = node.get_number_field("num2", &input_data)?;
        Ok(OutputDataBuilder::new().data("num", DataValue::Int(num + num2)).build())
    }
}

struct Multiply(Log);
impl Worker for Multiply {
    fn name(&self) -> &str {
        "Multiply"
    }

    fn work(&self, node: &Node, input_data: InputData) -> Result<OutputData, NodeError> {
        self.0.borrow_mut().push(node.id);
        let num = node.get_number_field("num", &input_data)?;
        let num2 = node.get_number_field("num2", &input_data)?;
        Ok(OutputDataBuilder::new().data("num", DataValue::Int(num * num2)).build())
    }
}

/// Emits `true` = max when num > max, else `false` = num.
struct Check(Log);
impl Worker for Check {
    fn name(&self) -> &str {
        "Check"
    }

    fn work(&self, node: &Node, input_data: InputData) -> Result<OutputData, NodeError> {
        self.0.borrow_mut().push(node.id);
        let num = node.get_number_field("num", &input_data)?;
        let max = node.get_number_field("max", &input_data)?;
        if num > max {
            Ok(OutputDataBuilder::new().data("true", DataValue::Int(max)).build())
        } else {
            Ok(OutputDataBuilder::new().data("false", DataValue::Int(num)).build())
        }
    }
}

fn engine(version: &str, log: &Log) -> Engine {
    let mut workers = WorkersBuilder::new();
    workers
        .add(Number(log.clone()))
        .add(Add(log.clone()))
        .add(Multiply(log.clone()))
        .add(Check(log.clone()));
    Engine::new(version, workers.build())
}

fn int_port(out: &OutputData, port: &str) -> i64 {
    match out.get(port).unwrap().0.get(Kind::Int) {
        Some(DataValue::Int(i)) => *i,
        other => panic!("not an integer: {:?}", other),
    }
}

fn parse(engine: &Engine, text: &str) -> HashMap<i64, Node> {
    engine.parse_json(text).unwrap()
}

const FAN_GRAPH: &str = r#"{"id": "demo@0.1.1", "nodes": {
  "1": {"id": 1, "name": "Number", "data": {"num": 2}, "inputs": {},
        "outputs": {"num": {"connections": [{"node": 3, "input": "num", "data": {}},
                                             {"node": 4, "input": "num2", "data": {}},
                                             {"node": 5, "input": "num2", "data": {}}]}}},
  "2": {"id": 2, "name": "Number", "data": {"num": 0}, "inputs": {},
        "outputs": {"num": {"connections": [{"node": 3, "input": "num2", "data": {}}]}}},
  "3": {"id": 3, "name": "Add", "data": {},
        "inputs": {"num": {"connections": [{"node": 1, "output": "num", "data": {}}]},
                   "num2": {"connections": [{"node": 2, "output": "num", "data": {}}]}},
        "outputs": {"num": {"connections": [{"node": 4, "input": "num", "data": {}}]}}},
  "4": {"id": 4, "name": "Add", "data": {},
        "inputs": {"num": {"connections": [{"node": 3, "output": "num", "data": {}}]},
                   "num2": {"connections": [{"node": 1, "output": "num", "data": {}}]}},
        "outputs": {"num": {"connections": [{"node": 5, "input": "num", "data": {}}]}}},
  "5": {"id": 5, "name": "Multiply", "data": {},
        "inputs": {"num": {"connections": [{"node": 4, "output": "num", "data": {}}]},
                   "num2": {"connections": [{"node": 1, "output": "num", "data": {}}]}},
        "outputs": {"num": {"connections": []}}}
}, "comments": []}"#;

fn branch_graph(a: i64, b: i64) -> String {
    r#"{"id": "demo@0.1.0", "nodes": {
  "1": {"id": 1, "name": "Number", "data": {"num": @A@}, "inputs": {},
        "outputs": {"num": {"connections": [{"node": 3, "input": "num", "data": {}}]}}},
  "2": {"id": 2, "name": "Number", "data": {"num": @B@}, "inputs": {},
        "outputs": {"num": {"connections": [{"node": 3, "input": "num2", "data": {}}]}}},
  "3": {"id": 3, "name": "Add", "data": {},
        "inputs": {"num": {"connections": [{"node": 1, "output": "num", "data": {}}]},
                   "num2": {"connections": [{"node": 2, "output": "num", "data": {}}]}},
        "outputs": {"num": {"connections": [{"node": 4, "input": "num", "data": {}}]}}},
  "4": {"id": 4, "name": "Check", "data": {"max": 5},
        "inputs": {"num": {"connections": [{"node": 3, "output": "num", "data": {}}]}},
        "outputs": {"true": {"connections": [{"node": 5, "input": "num", "data": {}}]},
                    "false": {"connections": [{"node": 6, "input": "num", "data": {}}]}}},
  "5": {"id": 5, "name": "Add", "data": {"num2": 4},
        "inputs": {"num": {"connections": [{"node": 4, "output": "true", "data": {}}]}},
        "outputs": {"num": {"connections": []}}},
  "6": {"id": 6, "name": "Add", "data": {"num2": 7},
        "inputs": {"num": {"connections": [{"node": 4, "output": "false", "data": {}}]}},
        "outputs": {"num": {"connections": []}}}
}, "comments": []}"#
        .replace("@A@", &a.to_string())
        .replace("@B@", &b.to_string())
}

/// Node 2 chooses `false`; nodes 3 and 4 hang off its `true` port through
/// single `action` connections, so both are closed.
const ACTION_GRAPH: &str = r#"{"id": "demo@0.1.0", "nodes": {
  "1": {"id": 1, "name": "Number", "data": {"num": 3},
        "outputs": {"num": {"connections": [{"node": 2, "input": "num", "data": {}}]}}},
  "2": {"id": 2, "name": "Check", "data": {"max": 5},
        "inputs": {"num": {"connections": [{"node": 1, "output": "num", "data": {}}]}},
        "outputs": {"true": {"connections": [{"node": 3, "input": "true", "data": {}}]},
                    "false": {"connections": [{"node": 5, "input": "num", "data": {}}]}}},
  "3": {"id": 3, "name": "Add", "data": {"num": 1, "num2": 1},
        "inputs": {"true": {"connections": [{"node": 2, "output": "true", "data": {}}]},
                   "action": {"connections": [{"node": 2, "output": "true", "data": {}}]}},
        "outputs": {"num": {"connections": [{"node": 4, "input": "action", "data": {}}]}}},
  "4": {"id": 4, "name": "Add", "data": {"num": 1, "num2": 1},
        "inputs": {"action": {"connections": [{"node": 3, "output": "num", "data": {}}]}},
        "outputs": {}},
  "5": {"id": 5, "name": "Add", "data": {"num2": 10},
        "inputs": {"num": {"connections": [{"node": 2, "output": "false", "data": {}}]}},
        "outputs": SINK}
}, "comments": []}"#;

fn action_graph(sink: &str) -> String {
    ACTION_GRAPH.replace("SINK", sink)
}

#[test]
fn branch_not_taken_scenario() {
    let log: Log = Rc::default();
    let engine = engine("demo@0.1.0", &log);
    let nodes = parse(&engine, &branch_graph(2, 1));
    let out = engine.process(&nodes, 1).unwrap();
    assert_eq!(int_port(&out, "num"), 10);
    assert!(!log.borrow().contains(&5));
    assert!(log.borrow().contains(&6));
}

#[test]
fn branch_taken_scenario() {
    let log: Log = Rc::default();
    let engine = engine("demo@0.1.0", &log);
    let nodes = parse(&engine, &branch_graph(6, 1));
    let out = engine.process(&nodes, 1).unwrap();
    assert_eq!(int_port(&out, "num"), 9);
    assert!(log.borrow().contains(&5));
    assert!(!log.borrow().contains(&6));
}

#[test]
fn each_worker_runs_once_per_process() {
    let log: Log = Rc::default();
    let engine = engine("demo@0.1.1", &log);
    let nodes = parse(&engine, FAN_GRAPH);
    let out = engine.process(&nodes, 1).unwrap();
    assert_eq!(int_port(&out, "num"), 8);
    let mut seen = log.borrow().clone();
    seen.sort();
    assert_eq!(seen, vec![1, 2, 3, 4, 5]);
}

#[test]
fn repeated_process_gives_same_output() {
    let log: Log = Rc::default();
    let engine = engine("demo@0.1.1", &log);
    let nodes = parse(&engine, FAN_GRAPH);
    let first = engine.process(&nodes, 1).unwrap();
    let second = engine.process(&nodes, 1).unwrap();
    assert_eq!(int_port(&first, "num"), int_port(&second, "num"));
    assert_eq!(first.len(), second.len());
    // a fresh evaluation each time: every worker ran once per call
    assert_eq!(log.borrow().len(), 10);
}

#[test]
fn dependencies_run_before_their_consumer() {
    let log: Log = Rc::default();
    let engine = engine("demo@0.1.1", &log);
    let nodes = parse(&engine, FAN_GRAPH);
    engine.process(&nodes, 1).unwrap();
    let order = log.borrow().clone();
    let at = |id: i64| order.iter().position(|x| *x == id).unwrap();
    assert!(at(1) < at(3) && at(2) < at(3));
    assert!(at(3) < at(4) && at(4) < at(5));
}

#[test]
fn failure_stops_at_the_failing_node() {
    let log: Log = Rc::default();
    let engine = engine("demo@0.1.1", &log);
    let nodes = parse(&engine, &FAN_GRAPH.replace(r#""num": 2"#, r#""num": "abc""#));
    let err = engine.process(&nodes, 1).unwrap_err();
    match &err {
        EngineError::WorkerError(WorkerError::NodeRunError(1, NodeError::ConversionError(m))) => {
            assert_eq!(m, "Field: num, Type: i64")
        }
        other => panic!("unexpected error {:?}", other),
    }
    assert_eq!(*log.borrow(), vec![1]);
    assert_eq!(err.message(), "Node[1]: Node input conversion error: Field: num, Type: i64");
}

#[test]
fn untaken_action_branch_is_closed() {
    let log: Log = Rc::default();
    let engine = engine("demo@0.1.0", &log);
    let nodes = parse(&engine, &action_graph("{}"));
    let out = engine.process(&nodes, 1).unwrap();
    assert_eq!(int_port(&out, "num"), 13);
    assert_eq!(*log.borrow(), vec![1, 2, 5]);
}

#[test]
fn closed_terminal_gives_empty_snapshot() {
    let log: Log = Rc::default();
    let engine = engine("demo@0.1.0", &log);
    let sink = r#"{"num": {"connections": [{"node": 4, "input": "num", "data": {}}]}}"#;
    let nodes = parse(&engine, &action_graph(sink));
    let out = engine.process(&nodes, 1).unwrap();
    assert_eq!(out.len(), 0);
    assert!(!log.borrow().contains(&3));
    assert!(!log.borrow().contains(&4));
}

#[test]
fn process_with_a_fresh_context_matches_process() {
    let log: Log = Rc::default();
    let engine = engine("demo@0.1.1", &log);
    let nodes = parse(&engine, FAN_GRAPH);
    let mut ctx = EvalContext::new();
    let out = engine.process_with(&nodes, 1, &mut ctx).unwrap();
    assert_eq!(int_port(&out, "num"), 8);
}

#[test]
fn cycle_is_reported() {
    let log: Log = Rc::default();
    let engine = engine("demo@0.1.0", &log);
    let text = r#"{"id": "demo@0.1.0", "nodes": {
      "1": {"id": 1, "name": "Add", "data": {"num2": 1},
            "inputs": {"num": {"connections": [{"node": 2, "output": "num", "data": {}}]}}},
      "2": {"id": 2, "name": "Add", "data": {"num2": 1},
            "inputs": {"num": {"connections": [{"node": 1, "output": "num", "data": {}}]}}}
    }}"#;
    let nodes = parse(&engine, text);
    match engine.process(&nodes, 1) {
        Err(EngineError::Cycle(1)) => {}
        other => panic!("unexpected {:?}", other),
    }
    assert!(log.borrow().is_empty());
    assert_eq!(EngineError::Cycle(1).message(), "Node[1] depends on itself");
}

#[test]
fn missing_nodes_are_reported() {
    let log: Log = Rc::default();
    let engine = engine("demo@0.1.0", &log);
    let text = r#"{"id": "demo@0.1.0", "nodes": {
      "1": {"id": 1, "name": "Add", "data": {"num2": 1},
            "inputs": {"num": {"connections": [{"node": 9, "output": "num", "data": {}}]}}}
    }}"#;
    let nodes = parse(&engine, text);
    assert!(matches!(engine.process(&nodes, 1), Err(EngineError::MissingNode(9))));
    assert!(matches!(engine.process(&nodes, 7), Err(EngineError::MissingNode(7))));
    assert_eq!(EngineError::MissingNode(-7).message(), "No node with id -7");
}

#[test]
fn unknown_worker_is_reported() {
    let log: Log = Rc::default();
    let engine = engine("demo@0.1.0", &log);
    let text = r#"{"id": "demo@0.1.0", "nodes": {
      "1": {"id": 1, "name": "Divide", "data": {}}
    }}"#;
    let nodes = parse(&engine, text);
    let err = engine.process(&nodes, 1).unwrap_err();
    assert_eq!(err.message(), "Worker Not Found: `Divide`");
}

#[test]
fn version_mismatch_is_rejected() {
    let log: Log = Rc::default();
    let engine = engine("demo@0.1.0", &log);
    let err = engine.parse_json(r#"{"id": "demo@0.2.0", "nodes": {}}"#).unwrap_err();
    match &err {
        EngineError::VersionMismatch(e, n) => {
            assert_eq!(e, "demo@0.1.0");
            assert_eq!(n, "demo@0.2.0");
        }
        other => panic!("unexpected {:?}", other),
    }
    assert_eq!(err.message(), "Version mismatch: Engine(demo@0.1.0), Nodes(demo@0.2.0)");
}

#[test]
fn malformed_descriptions_are_rejected() {
    let log: Log = Rc::default();
    let engine = engine("demo@0.1.0", &log);
    let bad = [
        r#"{"nodes": {}}"#,
        r#"{"id": 3, "nodes": {}}"#,
        r#"{"id": "demo@0.1.0"}"#,
        r#"{"id": "demo@0.1.0", "nodes": {"x": {"id": 1, "name": "Add"}}}"#,
        r#"{"id": "demo@0.1.0", "nodes": {"1": {"id": 1}}}"#,
        r#"{"id": "demo@0.1.0", "nodes": {"1": {"id": "1", "name": "Add"}}}"#,
        r#"{"id": "demo@0.1.0", "nodes": {"1": {"id": 1, "name": "Add", "inputs": []}}}"#,
        r#"{"id": "demo@0.1.0", "nodes": {"1": {"id": 1, "name": "Add",
            "inputs": {"num": {"connections": [{"node": 2}]}}}}}"#,
        "{ not json",
    ];
    for text in bad.iter() {
        match engine.parse_json(text) {
            Err(EngineError::Other(_)) => {}
            other => panic!("{} gave {:?}", text, other),
        }
    }
}

#[test]
fn description_is_read_into_nodes() {
    let log: Log = Rc::default();
    let engine = engine("demo@0.1.0", &log);
    let nodes = parse(&engine, &branch_graph(2, 1));
    assert_eq!(nodes.len(), 6);
    let check = &nodes[&4];
    assert_eq!(check.id, 4);
    assert_eq!(check.name, "Check");
    assert_eq!(check.group, None);
    let outputs = check.outputs.as_ref().unwrap().inner();
    let names: Vec<&str> = outputs.iter().map(|(n, _)| n.as_str()).collect();
    assert_eq!(names, vec!["false", "true"]);
    assert_eq!(outputs[1].1.connections[0].node, 5);
    assert_eq!(outputs[1].1.connections[0].input, "num");
    let inputs = nodes[&6].inputs.as_ref().unwrap().inner();
    assert_eq!(inputs[0].0, "num");
    assert_eq!(inputs[0].1.connections[0].node, 4);
    assert_eq!(inputs[0].1.connections[0].output, "false");
    assert!(nodes[&1].data.is_some());
    let signed = parse(&engine, r#"{"id": "demo@0.1.0", "nodes": {"-3": {"id": -3, "name": "Add", "group": 2}}}"#);
    assert_eq!(signed[&-3].group, Some(2));
    assert!(signed[&-3].inputs.is_none());
}

#[test]
fn last_registration_of_a_name_wins() {
    struct Fixed(i64);
    impl Worker for Fixed {
        fn name(&self) -> &str {
            "Number"
        }

        fn work(&self, _node: &Node, _input: InputData) -> Result<OutputData, NodeError> {
            Ok(OutputDataBuilder::new().data("num", DataValue::Int(self.0)).build())
        }
    }
    let mut workers = WorkersBuilder::new();
    workers.add(Fixed(1)).add(Fixed(2));
    let engine = Engine::new("demo@0.1.0", workers.build());
    let nodes = parse(&engine, r#"{"id": "demo@0.1.0", "nodes": {"1": {"id": 1, "name": "Number"}}}"#);
    let out = engine.process(&nodes, 1).unwrap();
    assert_eq!(int_port(&out, "num"), 2);
}
