use dataflow_engine::workers::node_run_result;
use dataflow_engine::{
    DataValue, IOData, Input, InputConnection, InputData, InputDataBuilder, Inputs, Json, Kind, Node,
    NodeError, OutputData, OutputDataBuilder, WorkerError,
};

fn payload(members: Vec<(&str, Json)>) -> Option<Json> {
    Some(Json::Object(members.into_iter().map(|(k, v)| (k.to_string(), v)).collect()))
}

/// A node whose input `field` is fed by port `port` of node 2.
fn node_with(field: &str, port: &str, data: Option<Json>) -> Node {
    Node {
        id: 1,
        name: "Test".to_string(),
        data,
        group: None,
        inputs: Some(Inputs(vec![(
            field.to_string(),
            Input {
                connections: vec![InputConnection { node: 2, output: port.to_string(), data: Json::Null }],
            },
        )])),
        outputs: None,
    }
}

fn feeding(field: &str, port: &str, value: DataValue) -> InputData {
    let snapshot = OutputDataBuilder::new().data(port, value).build();
    InputDataBuilder::new().add_data(field.to_string(), snapshot).build()
}

fn no_inputs() -> InputData {
    InputDataBuilder::new().build()
}

#[test]
fn upstream_value_comes_before_payload() {
    let node = node_with("num", "out", payload(vec![("num", Json::Int(3))]));
    let inputs = feeding("num", "out", DataValue::Int(5));
    assert_eq!(node.get_number_field("num", &inputs).unwrap(), 5);
}

#[test]
fn upstream_value_of_another_kind_falls_back_to_payload() {
    let node = node_with("num", "out", payload(vec![("num", Json::Int(3))]));
    let inputs = feeding("num", "out", DataValue::Text("x".to_string()));
    assert_eq!(node.get_number_field("num", &inputs).unwrap(), 3);
}

#[test]
fn upstream_port_must_be_the_connected_one() {
    let node = node_with("num", "out", payload(vec![("num", Json::Int(3))]));
    let inputs = feeding("num", "other", DataValue::Int(5));
    assert_eq!(node.get_number_field("num", &inputs).unwrap(), 3);
}

#[test]
fn payload_of_wrong_kind_is_a_conversion_error() {
    let node = node_with("num", "out", payload(vec![("num", Json::Str("abc".to_string()))]));
    match node.get_number_field("num", &no_inputs()) {
        Err(NodeError::ConversionError(m)) => assert_eq!(m, "Field: num, Type: i64"),
        other => panic!("unexpected {:?}", other),
    }
    let big = node_with("num", "out", payload(vec![("num", Json::UInt(u64::MAX))]));
    assert!(matches!(big.get_number_field("num", &no_inputs()), Err(NodeError::ConversionError(_))));
    let fits = node_with("num", "out", payload(vec![("num", Json::UInt(12))]));
    assert_eq!(fits.get_number_field("num", &no_inputs()).unwrap(), 12);
}

#[test]
fn default_and_missing_value() {
    let node = node_with("num", "out", None);
    assert_eq!(node.get_number_field_or("num", &no_inputs(), Some(42)).unwrap(), 42);
    match node.get_number_field("num", &no_inputs()) {
        Err(NodeError::NoValueFound(f)) => assert_eq!(f, "num"),
        other => panic!("unexpected {:?}", other),
    }
    let e = node.get_number_field("num", &no_inputs()).unwrap_err();
    assert_eq!(e.message(), "No value found for: num");
}

#[test]
fn string_field() {
    let node = node_with("s", "out", payload(vec![("s", Json::Str("static".to_string())), ("n", Json::Int(1))]));
    assert_eq!(node.get_string_field("s", &no_inputs()).unwrap(), "static");
    let inputs = feeding("s", "out", DataValue::Text("live".to_string()));
    assert_eq!(node.get_string_field("s", &inputs).unwrap(), "live");
    match node.get_string_field("n", &no_inputs()) {
        Err(NodeError::ConversionError(m)) => assert_eq!(m, "Field: n, Type: alloc::string::String"),
        other => panic!("unexpected {:?}", other),
    }
    assert_eq!(node.get_string_field_or("zz", &no_inputs(), Some("d".to_string())).unwrap(), "d");
    assert!(matches!(node.get_string_field("zz", &no_inputs()), Err(NodeError::NoValueFound(_))));
}

#[test]
fn json_field_parses_payload_text() {
    let node = node_with(
        "j",
        "out",
        payload(vec![
            ("j", Json::Str(r#"{"a": [1, true, null]}"#.to_string())),
            ("bad", Json::Str("{oops".to_string())),
            ("n", Json::Int(1)),
        ]),
    );
    let parsed = node.get_json_field("j", &no_inputs()).unwrap();
    match parsed.get("a") {
        Some(Json::Array(items)) => {
            assert_eq!(items.len(), 3);
            assert!(matches!(items[0], Json::Int(1)));
            assert!(matches!(items[1], Json::Bool(true)));
            assert!(matches!(items[2], Json::Null));
        }
        other => panic!("unexpected {:?}", other),
    }
    match node.get_json_field("bad", &no_inputs()) {
        Err(NodeError::DeserializeError(f, raw, _)) => {
            assert_eq!(f, "bad");
            assert_eq!(raw, "{oops");
        }
        other => panic!("unexpected {:?}", other),
    }
    match node.get_json_field("n", &no_inputs()) {
        Err(NodeError::ConversionError(m)) => assert_eq!(m, "Field: n, Type: json text"),
        other => panic!("unexpected {:?}", other),
    }
    let inputs = feeding("j", "out", DataValue::Json(Json::Int(9)));
    assert!(matches!(node.get_json_field("j", &inputs).unwrap(), Json::Int(9)));
    assert!(matches!(node.get_json_field_or("zz", &no_inputs(), Some(Json::Null)).unwrap(), Json::Null));
}

#[test]
fn json_text_numbers_keep_their_kind() {
    let node = node_with(
        "j",
        "out",
        payload(vec![("j", Json::Str("[-5, 18446744073709551615, 2.5]".to_string()))]),
    );
    match node.get_json_field("j", &no_inputs()).unwrap() {
        Json::Array(items) => {
            assert!(matches!(items[0], Json::Int(-5)));
            assert!(matches!(items[1], Json::UInt(u64::MAX)));
            match &items[2] {
                Json::Float(t) => assert_eq!(t, "2.5"),
                other => panic!("unexpected {:?}", other),
            }
        }
        other => panic!("unexpected {:?}", other),
    }
}

#[test]
fn as_json_field_converts_every_kind() {
    let node = node_with("v", "out", payload(vec![("w", Json::Str("kept".to_string()))]));
    let cases = vec![
        (DataValue::Bool(true), "bool"),
        (DataValue::Int(-4), "int"),
        (DataValue::Text("t".to_string()), "text"),
        (DataValue::Float("1.5".to_string()), "float"),
        (DataValue::Json(Json::Null), "json"),
    ];
    for (value, kind) in cases {
        let inputs = feeding("v", "out", value);
        let got = node.get_as_json_field("v", &inputs).unwrap();
        let ok = match (kind, &got) {
            ("bool", Json::Bool(true)) => true,
            ("int", Json::Int(-4)) => true,
            ("text", Json::Str(s)) => s == "t",
            ("float", Json::Float(s)) => s == "1.5",
            ("json", Json::Null) => true,
            _ => false,
        };
        assert!(ok, "{} gave {:?}", kind, got);
    }
    let nan = feeding("v", "out", DataValue::Float("NaN".to_string()));
    match node.get_as_json_field("v", &nan) {
        Err(NodeError::ConversionError(m)) => assert_eq!(m, "Unable to get `f64` as json field"),
        other => panic!("unexpected {:?}", other),
    }
    match node.get_as_json_field("w", &no_inputs()).unwrap() {
        Json::Str(s) => assert_eq!(s, "kept"),
        other => panic!("unexpected {:?}", other),
    }
    assert!(matches!(node.get_as_json_field_or("zz", &no_inputs(), Some(Json::Bool(false))).unwrap(), Json::Bool(false)));
    assert!(matches!(node.get_as_json_field("zz", &no_inputs()), Err(NodeError::NoValueFound(_))));
    for text in ["inf", "-inf"] {
        let inputs = feeding("v", "out", DataValue::Float(text.to_string()));
        assert!(matches!(node.get_as_json_field("v", &inputs), Err(NodeError::ConversionError(_))));
    }
}

#[test]
fn io_data_kind_test_and_access() {
    let v = IOData { data: DataValue::Int(3) };
    assert!(v.is(Kind::Int));
    assert!(!v.is(Kind::Text));
    assert!(matches!(v.get(Kind::Int), Some(DataValue::Int(3))));
    assert!(v.get(Kind::Bool).is_none());
}

#[test]
fn later_entry_for_a_port_wins() {
    let mut builder = OutputDataBuilder::new();
    builder.add_data("num", DataValue::Int(1)).add_data("num", DataValue::Int(2));
    let out: OutputData = builder.build();
    assert_eq!(out.len(), 1);
    assert!(out.contains_key("num"));
    assert!(!out.contains_key("other"));
    assert!(matches!(out.get("num").unwrap().0.data, DataValue::Int(2)));
    assert!(OutputData::empty().get("num").is_none());
    let inputs = InputDataBuilder::new()
        .add_data("a".to_string(), OutputData::empty())
        .add_data("a".to_string(), out.share())
        .build();
    assert!(inputs.get("a").unwrap().contains_key("num"));
    assert!(inputs.get("b").is_none());
}

#[test]
fn json_member_lookup_and_copy() {
    let j = Json::Object(vec![
        ("a".to_string(), Json::Int(1)),
        ("a".to_string(), Json::UInt(7)),
        ("s".to_string(), Json::Str("x".to_string())),
    ]);
    assert_eq!(j.get("a").unwrap().as_i64(), Some(7));
    assert!(j.get("b").is_none());
    assert!(Json::Int(1).get("a").is_none());
    assert_eq!(j.get("s").unwrap().as_str(), Some("x"));
    assert_eq!(Json::Float("1.0".to_string()).as_i64(), None);
    match j.clone() {
        Json::Object(m) => assert_eq!(m.len(), 3),
        other => panic!("unexpected {:?}", other),
    }
}

#[test]
fn error_messages() {
    let e = NodeError::DeserializeError("f".to_string(), "v".to_string(), "why".to_string());
    assert_eq!(e.message(), "Field: f, Value: v, Deserialization error: why");
    assert_eq!(NodeError::Failed("custom".to_string()).message(), "custom");
    let w = WorkerError::NodeRunError(-12, NodeError::Failed("x".to_string()));
    assert_eq!(w.message(), "Node[-12]: x");
    assert_eq!(WorkerError::WorkerNotFound("Add".to_string()).message(), "Worker Not Found: `Add`");
}

#[test]
fn worker_failure_is_tagged_with_the_node() {
    match node_run_result(4, Err(NodeError::Failed("boom".to_string()))) {
        Err(WorkerError::NodeRunError(4, NodeError::Failed(m))) => assert_eq!(m, "boom"),
        other => panic!("unexpected {:?}", other),
    }
    assert!(node_run_result(4, Ok(OutputData::empty())).is_ok());
}

#[test]
fn ports_are_kept_in_order() {
    let node = node_with("num", "out", None);
    let inputs = node.inputs.as_ref().unwrap();
    assert_eq!(inputs.inner().len(), 1);
    assert_eq!(inputs.inner()[0].0, "num");
}
