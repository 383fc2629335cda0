use workflow_executor::{
    parse_input_reference, should_take_edge, Edge, Node, NodeType, StringHashMap, StringHashSet,
    Value, Workflow,
};

fn node(id: &str) -> Node {
    Node {
        id: id.to_string(),
        node_type: NodeType::Start,
        inputs: vec![],
    }
}

fn edge(from: &str, to: &str) -> Edge {
    Edge {
        from: from.to_string(),
        to: to.to_string(),
        condition: None,
    }
}

fn text(s: &str) -> Value {
    Value::String(s.to_string())
}

#[test]
fn test_should_take_edge() {
    // Unconditional edge - always taken
    assert!(should_take_edge(&Value::Bool(true), &None));
    assert!(should_take_edge(&Value::Bool(false), &None));
    assert!(should_take_edge(&text("anything"), &None));

    // Matching conditions
    assert!(should_take_edge(&Value::Bool(true), &Some("true".to_string())));
    assert!(should_take_edge(&Value::Bool(false), &Some("false".to_string())));

    // Non-matching conditions
    assert!(!should_take_edge(&Value::Bool(true), &Some("false".to_string())));
    assert!(!should_take_edge(&Value::Bool(false), &Some("true".to_string())));

    // Non-bool node_output - should not take edge
    assert!(!should_take_edge(&text("true"), &Some("true".to_string())));
    assert!(!should_take_edge(
        &Value::Number(serde_json::Number::from(123)),
        &Some("true".to_string())
    ));
    assert!(!should_take_edge(&Value::Null, &Some("false".to_string())));
}

#[test]
fn test_check_cycle() {
    // Acyclic Graph
    let mut adj_list = StringHashMap::new();
    adj_list.insert("a".to_string(), vec!["b".to_string()]);
    adj_list.insert("b".to_string(), vec!["c".to_string()]);
    adj_list.insert("c".to_string(), vec![]);

    let mut safe = StringHashSet::new();
    let mut hot = StringHashSet::new();
    let res = Workflow::check_cycle(&mut safe, &mut hot, &adj_list, &"a".to_string());
    assert!(res.is_ok(), "Acyclic graph should be valid");

    // Self loop
    let mut adj_list_self = StringHashMap::new();
    adj_list_self.insert("a".to_string(), vec!["a".to_string()]);

    let mut safe = StringHashSet::new();
    let mut hot = StringHashSet::new();
    let res = Workflow::check_cycle(&mut safe, &mut hot, &adj_list_self, &"a".to_string());
    assert!(res.is_err(), "Self loop should be detected");

    // Simple cycle
    let mut adj_list_cycle = StringHashMap::new();
    adj_list_cycle.insert("a".to_string(), vec!["b".to_string()]);
    adj_list_cycle.insert("b".to_string(), vec!["c".to_string()]);
    adj_list_cycle.insert("c".to_string(), vec!["a".to_string()]);

    let mut safe = StringHashSet::new();
    let mut hot = StringHashSet::new();
    let res = Workflow::check_cycle(&mut safe, &mut hot, &adj_list_cycle, &"a".to_string());
    assert!(res.is_err(), "Cycle should be detected");

    // Diamond DAG
    let mut adj_list_diamond = StringHashMap::new();
    adj_list_diamond.insert("a".to_string(), vec!["b".to_string(), "c".to_string()]);
    adj_list_diamond.insert("b".to_string(), vec!["d".to_string()]);
    adj_list_diamond.insert("c".to_string(), vec!["d".to_string()]);
    adj_list_diamond.insert("d".to_string(), vec![]);

    let mut safe = StringHashSet::new();
    let mut hot = StringHashSet::new();
    let res = Workflow::check_cycle(&mut safe, &mut hot, &adj_list_diamond, &"a".to_string());
    assert!(res.is_ok(), "Diamond DAG should be valid");

    // Empty graph
    let adj_list_empty = StringHashMap::new();
    let mut safe = StringHashSet::new();
    let mut hot = StringHashSet::new();
    let res = Workflow::check_cycle(&mut safe, &mut hot, &adj_list_empty, &"a".to_string());
    assert!(res.is_ok(), "Empty graph should be valid");
}

#[test]
fn test_validate() {
    // Missing node reference in edges
    let nodes = vec![node("a")];
    let edges = vec![edge("a", "missing")];
    let workflow = Workflow { nodes, edges };

    let res = workflow.validate();
    assert_eq!(
        res.unwrap_err().message(),
        "Node in edge does not exist".to_string()
    );

    // Invalid input reference
    let nodes_with_inputs = vec![Node {
        id: "a".to_string(),
        node_type: NodeType::Add,
        inputs: vec!["nonexistent.output".to_string()],
    }];
    let workflow_inputs = Workflow {
        nodes: nodes_with_inputs,
        edges: vec![],
    };
    let res = workflow_inputs.validate();
    assert_eq!(
        res.unwrap_err().message(),
        "Invalid node id in input".to_string()
    );

    // Invalid input reference again
    let nodes_with_inputs = vec![Node {
        id: "a".to_string(),
        node_type: NodeType::Add,
        inputs: vec!["bad".to_string()],
    }];
    let workflow_inputs = Workflow {
        nodes: nodes_with_inputs,
        edges: vec![],
    };
    let res = workflow_inputs.validate();
    assert_eq!(
        res.unwrap_err().message(),
        "Invalid input reference: bad".to_string()
    );

    // Sanity check
    let nodes = vec![node("a"), node("b"), node("c")];
    let edges = vec![edge("a", "b"), edge("b", "c")];
    let workflow = Workflow { nodes, edges };
    assert!(workflow.validate().is_ok(), "Acyclic graph should be valid");
}

#[test]
fn test_check_cycle_marks_reachable_nodes_safe() {
    let mut adj_list = StringHashMap::new();
    adj_list.insert("a".to_string(), vec!["b".to_string()]);
    adj_list.insert("b".to_string(), vec!["c".to_string()]);
    adj_list.insert("x".to_string(), vec!["a".to_string()]);
    let mut safe = StringHashSet::new();
    let mut hot = StringHashSet::new();
    assert!(Workflow::check_cycle(&mut safe, &mut hot, &adj_list, &"b".to_string()).is_ok());
    assert!(safe.contains("b"));
    assert!(safe.contains("c"));
    assert!(!safe.contains("a"));
    assert!(!safe.contains("x"));
    assert!(hot.is_empty());
    // A second search from an upstream node reuses the safe nodes.
    assert!(Workflow::check_cycle(&mut safe, &mut hot, &adj_list, &"x".to_string()).is_ok());
    assert!(safe.contains("x"));
    assert!(safe.contains("a"));
}

#[test]
fn test_check_cycle_reachable_from_start() {
    // The cycle b -> c -> b is reached from a, though a is on no cycle.
    let mut adj_list = StringHashMap::new();
    adj_list.insert("a".to_string(), vec!["b".to_string()]);
    adj_list.insert("b".to_string(), vec!["c".to_string()]);
    adj_list.insert("c".to_string(), vec!["b".to_string()]);
    let mut safe = StringHashSet::new();
    let mut hot = StringHashSet::new();
    let res = Workflow::check_cycle(&mut safe, &mut hot, &adj_list, &"a".to_string());
    assert_eq!(res.unwrap_err().message(), "Cycle detected".to_string());
}

#[test]
fn test_parse_input_reference() {
    let (id, field) = parse_input_reference("node1.output").unwrap();
    assert_eq!(id, "node1");
    assert_eq!(field, "output");
    let (id, field) = parse_input_reference(".").unwrap();
    assert_eq!(id, "");
    assert_eq!(field, "");
    let (id, field) = parse_input_reference("é.ü").unwrap();
    assert_eq!(id, "é");
    assert_eq!(field, "ü");
    assert_eq!(
        parse_input_reference("a.b.c").unwrap_err().message(),
        "Invalid input reference: a.b.c".to_string()
    );
    assert_eq!(
        parse_input_reference("plain").unwrap_err().message(),
        "Invalid input reference: plain".to_string()
    );
    assert!(parse_input_reference("").is_err());
}

#[test]
fn test_parse_input_reference_round_trip() {
    for (id, field) in [("a", "b"), ("node1", "output"), ("", "x"), ("y", "")] {
        let joined = format!("{}.{}", id, field);
        let (pid, pfield) = parse_input_reference(&joined).unwrap();
        assert_eq!(pid, id);
        assert_eq!(pfield, field);
    }
}

#[test]
fn test_validate_duplicate_and_cycle_errors() {
    let workflow = Workflow {
        nodes: vec![node("a"), node("a")],
        edges: vec![],
    };
    assert_eq!(
        workflow.validate().unwrap_err().message(),
        "Duplicate node id".to_string()
    );

    let workflow = Workflow {
        nodes: vec![node("a"), node("b"), node("c")],
        edges: vec![edge("a", "b"), edge("b", "c"), edge("c", "a")],
    };
    assert_eq!(
        workflow.validate().unwrap_err().message(),
        "Cycle detected".to_string()
    );

    // An edge to a missing node is reported before a cycle.
    let workflow = Workflow {
        nodes: vec![node("a")],
        edges: vec![edge("a", "a"), edge("a", "zzz")],
    };
    assert_eq!(
        workflow.validate().unwrap_err().message(),
        "Node in edge does not exist".to_string()
    );

    // The first failing node decides: here node "a" has a bad input.
    let workflow = Workflow {
        nodes: vec![
            Node {
                id: "a".to_string(),
                node_type: NodeType::End,
                inputs: vec!["q.r".to_string()],
            },
            node("b"),
        ],
        edges: vec![edge("b", "b")],
    };
    assert_eq!(
        workflow.validate().unwrap_err().message(),
        "Invalid node id in input".to_string()
    );
    // With the nodes the other way round, the cycle at "b" comes first.
    let workflow = Workflow {
        nodes: vec![
            node("b"),
            Node {
                id: "a".to_string(),
                node_type: NodeType::End,
                inputs: vec!["q.r".to_string()],
            },
        ],
        edges: vec![edge("b", "b")],
    };
    assert_eq!(
        workflow.validate().unwrap_err().message(),
        "Cycle detected".to_string()
    );
}

#[test]
fn test_dependencies_and_dependents() {
    let workflow = Workflow {
        nodes: vec![node("if"), node("t"), node("f"), node("end")],
        edges: vec![
            Edge {
                from: "if".to_string(),
                to: "t".to_string(),
                condition: Some("true".to_string()),
            },
            Edge {
                from: "if".to_string(),
                to: "f".to_string(),
                condition: Some("false".to_string()),
            },
            edge("t", "end"),
            edge("f", "end"),
            edge("if", "end"),
        ],
    };
    assert_eq!(workflow.get_dependencies("end"), vec!["t", "f", "if"]);
    assert_eq!(workflow.get_dependencies("if"), Vec::<String>::new());
    assert_eq!(
        workflow.get_dependents("if", &Value::Bool(true)),
        vec!["t", "end"]
    );
    assert_eq!(
        workflow.get_dependents("if", &Value::Bool(false)),
        vec!["f", "end"]
    );
    assert_eq!(workflow.get_dependents("if", &Value::Null), vec!["end"]);
    assert_eq!(
        workflow.get_dependents("t", &text("x")),
        vec!["end".to_string()]
    );
    assert_eq!(workflow.get_node("f").unwrap().id, "f");
    assert_eq!(
        workflow.get_node("nope").unwrap_err().message(),
        "Node not found".to_string()
    );
}
