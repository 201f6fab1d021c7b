use dataflow_engine::engine::{Engine, EngineError};
use dataflow_engine::node::{DataValue, InputData, Kind, Node, NodeError, OutputData, OutputDataBuilder};
use dataflow_engine::workers::{Worker, WorkerError, WorkersBuilder};

const MULTIPLY_GRAPH: &str = r#"
    {
      "id": "demo@0.1.1",
      "nodes": {
        "1": {
          "id": 1,
          "data": {
            "num": 2
          },
          "inputs": {},
          "outputs": {
            "num": {
              "connections": [{
                "node": 3,
                "input": "num",
                "data": {}
              }, {
                "node": 4,
                "input": "num2",
                "data": {}
              }, {
                "node": 5,
                "input": "num2",
                "data": {}
              }]
            }
          },
          "position": [-60, 182],
          "name": "Number"
        },
        "2": {
          "id": 2,
          "data": {
            "num": 0
          },
          "inputs": {},
          "outputs": {
            "num": {
              "connections": [{
                "node": 3,
                "input": "num2",
                "data": {}
              }]
            }
          },
          "position": [-106, 378],
          "name": "Number"
        },
        "3": {
          "id": 3,
          "data": {},
          "inputs": {
            "num": {
              "connections": [{
                "node": 1,
                "output": "num",
                "data": {}
              }]
            },
            "num2": {
              "connections": [{
                "node": 2,
                "output": "num",
                "data": {}
              }]
            }
          },
          "outputs": {
            "num": {
              "connections": [{
                "node": 4,
                "input": "num",
                "data": {}
              }]
            }
          },
          "position": [241, 240],
          "name": "Add"
        },
        "4": {
          "id": 4,
          "data": {},
          "inputs": {
            "num": {
              "connections": [{
                "node": 3,
                "output": "num",
                "data": {}
              }]
            },
            "num2": {
              "connections": [{
                "node": 1,
                "output": "num",
                "data": {}
              }]
            }
          },
          "outputs": {
            "num": {
              "connections": [{
                "node": 5,
                "input": "num",
                "data": {}
              }]
            }
          },
          "position": [552.5, 204],
          "name": "Add"
        },
        "5": {
          "id": 5,
          "data": {},
          "inputs": {
            "num": {
              "connections": [{
                "node": 4,
                "output": "num",
                "data": {}
              }]
            },
            "num2": {
              "connections": [{
                "node": 1,
                "output": "num",
                "data": {}
              }]
            }
          },
          "outputs": {
            "num": {
              "connections": []
            }
          },
          "position": [826.5, 292],
          "name": "Multiply"
        }
      },
      "comments": []
    }
    "#;

const ADD_GRAPH: &str = r#"
    {
      "id": "demo@0.1.0",
      "nodes": {
        "1": {
          "id": 1,
          "data": {
            "num": 2
          },
          "inputs": {},
          "outputs": {
            "num": {
              "connections": [{
                "node": 3,
                "input": "num",
                "data": {}
              }, {
                "node": 4,
                "input": "num2",
                "data": {}
              }, {
                "node": 5,
                "input": "num2",
                "data": {}
              }]
            }
          },
          "position": [-98, 218],
          "name": "Number"
        },
        "2": {
          "id": 2,
          "data": {
            "num": 1
          },
          "inputs": {},
          "outputs": {
            "num": {
              "connections": [{
                "node": 3,
                "input": "num2",
                "data": {}
              }]
            }
          },
          "position": [-147, 406],
          "name": "Number"
        },
        "3": {
          "id": 3,
          "data": {},
          "inputs": {
            "num": {
              "connections": [{
                "node": 1,
                "output": "num",
                "data": {}
              }]
            },
            "num2": {
              "connections": [{
                "node": 2,
                "output": "num",
                "data": {}
              }]
            }
          },
          "outputs": {
            "num": {
              "connections": [{
                "node": 4,
                "input": "num",
                "data": {}
              }]
            }
          },
          "position": [424, 238],
          "name": "Add"
        },
        "4": {
          "id": 4,
          "data": {
            "num2": 5
          },
          "inputs": {
            "num": {
              "connections": [{
                "node": 3,
                "output": "num",
                "data": {}
              }]
            },
            "num2": {
              "connections": [{
                "node": 1,
                "output": "num",
                "data": {}
              }]
            }
          },
          "outputs": {
            "num": {
              "connections": [{
                "node": 5,
                "input": "num",
                "data": {}
              }]
            }
          },
          "position": [807.5, 228],
          "name": "Add"
        },
        "5": {
          "id": 5,
          "data": {
            "num2": 0
          },
          "inputs": {
            "num": {
              "connections": [{
                "node": 4,
                "output": "num",
                "data": {}
              }]
            },
            "num2": {
              "connections": [{
                "node": 1,
                "output": "num",
                "data": {}
              }]
            }
          },
          "outputs": {
            "num": {
              "connections": []
            }
          },
          "position": [1084.5, 243],
          "name": "Add"
        }
      },
      "comments": []
    }
    "#;

const ERROR_GRAPH: &str = r#"
    {
      "id": "demo@0.1.0",
      "nodes": {
        "1": {
          "id": 1,
          "data": {
            "num": "abc"
          },
          "inputs": {},
          "outputs": {
            "num": {
              "connections": [{
                "node": 3,
                "input": "num",
                "data": {}
              }, {
                "node": 4,
                "input": "num2",
                "data": {}
              }, {
                "node": 5,
                "input": "num2",
                "data": {}
              }]
            }
          },
          "position": [-98, 218],
          "name": "Number"
        },
        "2": {
          "id": 2,
          "data": {
            "num": 1
          },
          "inputs": {},
          "outputs": {
            "num": {
              "connections": [{
                "node": 3,
                "input": "num2",
                "data": {}
              }]
            }
          },
          "position": [-147, 406],
          "name": "Number"
        },
        "3": {
          "id": 3,
          "data": {},
          "inputs": {
            "num": {
              "connections": [{
                "node": 1,
                "output": "num",
                "data": {}
              }]
            },
            "num2": {
              "connections": [{
                "node": 2,
                "output": "num",
                "data": {}
              }]
            }
          },
          "outputs": {
            "num": {
              "connections": [{
                "node": 4,
                "input": "num",
                "data": {}
              }]
            }
          },
          "position": [424, 238],
          "name": "Add"
        },
        "4": {
          "id": 4,
          "data": {},
          "inputs": {
            "num": {
              "connections": [{
                "node": 3,
                "output": "num",
                "data": {}
              }]
            },
            "num2": {
              "connections": [{
                "node": 1,
                "output": "num",
                "data": {}
              }]
            }
          },
          "outputs": {
            "num": {
              "connections": [{
                "node": 5,
                "input": "num",
                "data": {}
              }]
            }
          },
          "position": [807.5, 228],
          "name": "Add"
        },
        "5": {
          "id": 5,
          "data": {},
          "inputs": {
            "num": {
              "connections": [{
                "node": 4,
                "output": "num",
                "data": {}
              }]
            },
            "num2": {
              "connections": [{
                "node": 1,
                "output": "num",
                "data": {}
              }]
            }
          },
          "outputs": {
            "num": {
              "connections": []
            }
          },
          "position": [1084.5, 243],
          "name": "Add"
        }
      },
      "comments": []
    }
    "#;

struct Number;
impl Worker for Number {
    fn name(&self) -> &str {
        "Number"
    }

    fn work(&self, node: &Node, input_data: InputData) -> Result<OutputData, NodeError> {
        let result = node.get_number_field("num", &input_data)?;
        Ok(OutputDataBuilder::new().data("num", DataValue::Int(result)).build())
    }
}

struct Add;
impl Worker for Add {
    fn name(&self) -> &str {
        "Add"
    }

    fn work(&self, node: &Node, input_data: InputData) -> Result<OutputData, NodeError> {
        let num = node.get_number_field("num", &input_data)?;
        let num2 = node.get_number_field("num2", &input_data)?;
        Ok(OutputDataBuilder::new().data("num", DataValue::Int(num + num2)).build())
    }
}

struct Multiply;
impl Worker for Multiply {
    fn name(&self) -> &str {
        "Multiply"
    }

    fn work(&self, node: &Node, input_data: InputData) -> Result<OutputData, NodeError> {
        let num = node.get_number_field("num", &input_data)?;
        let num2 = node.get_number_field("num2", &input_data)?;
        Ok(OutputDataBuilder::new().data("num", DataValue::Int(num * num2)).build())
    }
}

fn int_port(out: &OutputData, port: &str) -> i64 {
    match out.get(port).unwrap().0.get(Kind::Int) {
        Some(DataValue::Int(i)) => *i,
        other => panic!("not an integer: {:?}", other),
    }
}

#[test]
fn multiply_works() {
    let mut workers = WorkersBuilder::new();
    workers.add(Number).add(Add).add(Multiply);

    let engine = Engine::new("demo@0.1.1", workers.build());
    let nodes = engine.parse_json(MULTIPLY_GRAPH).unwrap();
    let nn = nodes.clone();
    let output = engine.process(&nn, 1);
    let oo = output.unwrap();
    let result = int_port(&oo, "num");
    assert_eq!(result, 8i64);
}

#[test]
fn add_works() {
    let mut workers = WorkersBuilder::new();

    workers.add(Number);
    workers.add(Add);

    let engine = Engine::new("demo@0.1.0", workers.build());
    let nodes = engine.parse_json(ADD_GRAPH).unwrap();
    let output = engine.process(&nodes, 1);
    let oo = output.unwrap();
    let result = int_port(&oo, "num");
    assert_eq!(result, 7i64);
}

#[test]
fn errors_propegate() {
    let mut workers = WorkersBuilder::new();

    workers.add(Number);
    workers.add(Add);

    let engine = Engine::new("demo@0.1.0", workers.build());
    let nodes = engine.parse_json(ERROR_GRAPH).unwrap();
    let output = engine.process(&nodes, 1);
    // Node[1]: Node input conversion error: Field: num, Type: i64
    let err: EngineError = output.err().unwrap();
    let expected = WorkerError::NodeRunError(
        1,
        NodeError::ConversionError("Field: num, Type: i64".to_owned()),
    );
    println!("{:?}", &err);
    println!("{:?}", &expected);
    assert_eq!(err.message(), expected.message());
}
