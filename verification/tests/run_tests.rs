use std::collections::VecDeque;

use workflow_executor::{
    Edge, Evaluation, GraphState, Node, NodeOutput, NodeStatus, NodeType, Value, Workflow,
};

fn node(id: &str, node_type: NodeType, inputs: &[&str]) -> Node {
    Node {
        id: id.to_string(),
        node_type,
        inputs: inputs.iter().map(|s| s.to_string()).collect(),
    }
}

fn echo(id: &str, message: &str) -> Node {
    node(
        id,
        NodeType::Echo {
            message: message.to_string(),
        },
        &[],
    )
}

fn if_else(id: &str, condition: &str) -> Node {
    node(
        id,
        NodeType::IfElse {
            condition: condition.to_string(),
        },
        &[],
    )
}

fn edge(from: &str, to: &str) -> Edge {
    Edge {
        from: from.to_string(),
        to: to.to_string(),
        condition: None,
    }
}

fn cond_edge(from: &str, to: &str, condition: &str) -> Edge {
    Edge {
        from: from.to_string(),
        to: to.to_string(),
        condition: Some(condition.to_string()),
    }
}

fn text(s: &str) -> Value {
    Value::String(s.to_string())
}

fn number(x: f64) -> Value {
    Value::Number(serde_json::Number::from_f64(x).unwrap())
}

/// Adds the operands of an `Add` node as floating-point numbers.
fn add(operands: &[Value]) -> Result<Value, String> {
    let mut sum = 0.0;
    for v in operands {
        let x = match v {
            Value::Number(n) => n.as_f64().ok_or(format!("Invalid number: {}", n))?,
            Value::String(s) => s
                .parse::<f64>()
                .map_err(|_| format!("Invalid number: {}", s))?,
            _ => return Err("Expected number or numeric string".to_string()),
        };
        sum += x;
    }
    Ok(match serde_json::Number::from_f64(sum) {
        Some(n) => Value::Number(n),
        None => Value::Null,
    })
}

struct Run {
    order: Vec<String>,
    outputs: Vec<NodeOutput>,
}

impl Run {
    fn output(&self, id: &str) -> Option<&Value> {
        self.outputs
            .iter()
            .find(|o| o.node_id == id)
            .map(|o| &o.value)
    }

    fn position(&self, id: &str) -> usize {
        self.order.iter().position(|n| n == id).unwrap()
    }
}

/// Runs a workflow one node at a time, in the order the nodes are handed out.
fn run(workflow: Workflow) -> Result<Run, String> {
    let mut state = workflow.validate().map_err(|e| e.message())?;
    let mut queue: VecDeque<String> = state.start(&workflow).into();
    while let Some(id) = queue.pop_front() {
        let output = match state
            .evaluate_node(&workflow, &id)
            .map_err(|e| e.message())?
        {
            Evaluation::Output(v) => v,
            Evaluation::Sum { operands, stopped } => {
                let sum = add(&operands)?;
                if let Some(e) = stopped {
                    return Err(e.message());
                }
                sum
            }
        };
        let started = state
            .complete(&workflow, &id, output)
            .map_err(|e| e.message())?;
        queue.extend(started);
    }
    Ok(Run {
        order: state.execution_order.clone(),
        outputs: state.outputs.clone(),
    })
}

#[test]
fn test_linear_workflow() {
    let workflow = Workflow {
        nodes: vec![
            node("start", NodeType::Start, &[]),
            echo("echo1", "Hello World"),
            node("end", NodeType::End, &["echo1.output"]),
        ],
        edges: vec![edge("start", "echo1"), edge("echo1", "end")],
    };
    let result = run(workflow).expect("Workflow execution failed");
    assert_eq!(result.order, vec!["start", "echo1", "end"]);
    assert_eq!(result.output("echo1"), Some(&text("Hello World")));
    assert_eq!(
        result.output("end"),
        Some(&Value::Array(vec![text("Hello World")]))
    );
}

#[test]
fn test_parallel_execution() {
    let workflow = Workflow {
        nodes: vec![
            node("start", NodeType::Start, &[]),
            echo("echo1", "Branch A"),
            echo("echo2", "Branch B"),
            node("end", NodeType::End, &["echo1.output", "echo2.output"]),
        ],
        edges: vec![
            edge("start", "echo1"),
            edge("start", "echo2"),
            edge("echo1", "end"),
            edge("echo2", "end"),
        ],
    };
    let result = run(workflow).expect("Workflow execution failed");
    assert!(result.order.contains(&"echo1".to_string()));
    assert!(result.order.contains(&"echo2".to_string()));
    assert!(result.position("echo1") < result.position("end"));
    assert!(result.position("echo2") < result.position("end"));
    assert_eq!(result.output("echo1"), Some(&text("Branch A")));
    assert_eq!(result.output("echo2"), Some(&text("Branch B")));
    // Each node runs exactly once.
    assert_eq!(result.order.len(), 4);
}

fn if_else_workflow(condition: &str) -> Workflow {
    Workflow {
        nodes: vec![
            node("start", NodeType::Start, &[]),
            if_else("if_node", condition),
            echo("true_branch", "Took true path"),
            echo("false_branch", "Took false path"),
            node("end", NodeType::End, &[]),
        ],
        edges: vec![
            edge("start", "if_node"),
            cond_edge("if_node", "true_branch", "true"),
            cond_edge("if_node", "false_branch", "false"),
            edge("true_branch", "end"),
            edge("false_branch", "end"),
        ],
    }
}

#[test]
fn test_if_else_takes_true_branch() {
    let result = run(if_else_workflow("true")).expect("Workflow execution failed");
    assert!(result.order.contains(&"true_branch".to_string()));
    assert!(!result.order.contains(&"false_branch".to_string()));
    assert_eq!(result.output("true_branch"), Some(&text("Took true path")));
    assert_eq!(result.output("false_branch"), None);
}

#[test]
fn test_if_else_takes_false_branch() {
    let result = run(if_else_workflow("false")).expect("Workflow execution failed");
    assert!(!result.order.contains(&"true_branch".to_string()));
    assert!(result.order.contains(&"false_branch".to_string()));
    assert_eq!(result.output("true_branch"), None);
    assert_eq!(result.output("false_branch"), Some(&text("Took false path")));
}

#[test]
fn test_empty_workflow() {
    let result = run(Workflow {
        nodes: vec![],
        edges: vec![],
    })
    .expect("Empty workflow should execute successfully");
    assert!(result.order.is_empty());
    assert!(result.outputs.is_empty());
    // Validation accepts it too, with nothing to run.
    let workflow = Workflow {
        nodes: vec![],
        edges: vec![],
    };
    let mut state = workflow.validate().unwrap();
    assert!(state.start_ready_nodes().is_empty());
}

#[test]
fn test_single_node() {
    let workflow = Workflow {
        nodes: vec![echo("only", "Solo")],
        edges: vec![],
    };
    let result = run(workflow).expect("Single node workflow should execute");
    assert_eq!(result.order, vec!["only"]);
    assert_eq!(result.output("only"), Some(&text("Solo")));
}

#[test]
fn test_add_node_with_data_flow() {
    let workflow = Workflow {
        nodes: vec![
            node("start", NodeType::Start, &[]),
            echo("echo1", "10"),
            echo("echo2", "20"),
            node("add", NodeType::Add, &["echo1.output", "echo2.output"]),
            node("end", NodeType::End, &["add.output"]),
        ],
        edges: vec![
            edge("start", "echo1"),
            edge("start", "echo2"),
            edge("echo1", "add"),
            edge("echo2", "add"),
            edge("add", "end"),
        ],
    };
    let result = run(workflow).expect("Workflow execution failed");
    assert_eq!(result.output("add"), Some(&number(30.0)));
}

#[test]
fn test_complex_data_flow() {
    let workflow = Workflow {
        nodes: vec![
            echo("echo1", "5"),
            echo("echo2", "3"),
            echo("echo3", "7"),
            node("add1", NodeType::Add, &["echo1.output", "echo2.output"]),
            node("add2", NodeType::Add, &["add1.output", "echo3.output"]),
            node("end", NodeType::End, &["add2.output"]),
        ],
        edges: vec![
            edge("echo1", "add1"),
            edge("echo2", "add1"),
            edge("add1", "add2"),
            edge("echo3", "add2"),
            edge("add2", "end"),
        ],
    };
    let result = run(workflow).expect("Workflow execution failed");
    assert_eq!(result.output("add1"), Some(&number(8.0)));
    assert_eq!(result.output("add2"), Some(&number(15.0)));
}

#[test]
fn test_cycle_detection() {
    let workflow = Workflow {
        nodes: vec![echo("a", "A"), echo("b", "B"), echo("c", "C")],
        edges: vec![edge("a", "b"), edge("b", "c"), edge("c", "a")],
    };
    let result = run(workflow);
    assert!(result.is_err());
    let msg = result.err().unwrap().to_lowercase();
    assert!(msg.contains("cycle") || msg.contains("cyclic"));
}

#[test]
fn test_self_cycle_detection() {
    let workflow = Workflow {
        nodes: vec![echo("loop", "Loop")],
        edges: vec![edge("loop", "loop")],
    };
    assert!(run(workflow).is_err());
}

#[test]
fn test_missing_node_reference() {
    let workflow = Workflow {
        nodes: vec![node("start", NodeType::Start, &[])],
        edges: vec![edge("start", "nonexistent")],
    };
    assert!(run(workflow).is_err());
}

#[test]
fn test_diamond_pattern() {
    let workflow = Workflow {
        nodes: vec![echo("a", "A"), echo("b", "B"), echo("c", "C"), echo("d", "D")],
        edges: vec![
            edge("a", "b"),
            edge("a", "c"),
            edge("b", "d"),
            edge("c", "d"),
        ],
    };
    let result = run(workflow).expect("Diamond pattern should execute successfully");
    assert!(result.position("a") < result.position("b"));
    assert!(result.position("a") < result.position("c"));
    assert!(result.position("b") < result.position("d"));
    assert!(result.position("c") < result.position("d"));
    for id in ["a", "b", "c", "d"] {
        assert!(result.output(id).is_some());
    }
}

#[test]
fn test_nested_conditionals() {
    let workflow = Workflow {
        nodes: vec![
            node("start", NodeType::Start, &[]),
            if_else("if1", "true"),
            if_else("if2", "false"),
            echo("path_a", "Path A"),
            echo("path_b", "Path B"),
            echo("path_c", "Path C"),
            node("end", NodeType::End, &[]),
        ],
        edges: vec![
            edge("start", "if1"),
            cond_edge("if1", "if2", "true"),
            cond_edge("if1", "path_c", "false"),
            cond_edge("if2", "path_a", "true"),
            cond_edge("if2", "path_b", "false"),
            edge("path_a", "end"),
            edge("path_b", "end"),
            edge("path_c", "end"),
        ],
    };
    let result = run(workflow).expect("Nested conditionals should execute");
    assert!(!result.order.contains(&"path_a".to_string()));
    assert!(result.order.contains(&"path_b".to_string()));
    assert!(!result.order.contains(&"path_c".to_string()));
}

#[test]
fn test_execute_with_context_node_types() {
    let context = vec![
        NodeOutput {
            node_id: "x".to_string(),
            value: text("4"),
        },
        NodeOutput {
            node_id: "y".to_string(),
            value: number(2.5),
        },
        NodeOutput {
            node_id: "z".to_string(),
            value: Value::Bool(true),
        },
    ];
    let out = |n: Node| match n.execute_with_context(&context).unwrap() {
        Evaluation::Output(v) => v,
        Evaluation::Sum { .. } => panic!("unexpected sum"),
    };
    assert_eq!(out(node("s", NodeType::Start, &[])), Value::Null);
    assert_eq!(out(node("e", NodeType::End, &[])), Value::Null);
    assert_eq!(
        out(node("e", NodeType::End, &["z.output", "x.output"])),
        Value::Array(vec![Value::Bool(true), text("4")])
    );
    assert_eq!(out(echo("m", "hi")), text("hi"));
    assert_eq!(out(if_else("i", "true")), Value::Bool(true));
    assert_eq!(out(if_else("i", "false")), Value::Bool(false));
    assert_eq!(out(if_else("i", "maybe")), Value::Bool(false));

    match node("a", NodeType::Add, &["x.out", "y.out"])
        .execute_with_context(&context)
        .unwrap()
    {
        Evaluation::Sum { operands, stopped } => {
            assert_eq!(operands, vec![text("4"), number(2.5)]);
            assert!(stopped.is_none());
            assert_eq!(add(&operands).unwrap(), number(6.5));
        }
        _ => panic!("expected a sum"),
    }
    // A non-numeric operand stops the operands there.
    match node("a", NodeType::Add, &["x.out", "z.out", "y.out"])
        .execute_with_context(&context)
        .unwrap()
    {
        Evaluation::Sum { operands, stopped } => {
            assert_eq!(operands, vec![text("4")]);
            assert_eq!(
                stopped.unwrap().message(),
                "Expected number or numeric string".to_string()
            );
        }
        _ => panic!("expected a sum"),
    }
    // Errors of End inputs.
    assert_eq!(
        node("e", NodeType::End, &["missing.output"])
            .execute_with_context(&context)
            .unwrap_err()
            .message(),
        "Input not in context map".to_string()
    );
    assert_eq!(
        node("e", NodeType::End, &["x.output", "noref"])
            .execute_with_context(&context)
            .unwrap_err()
            .message(),
        "Invalid input reference: noref".to_string()
    );
}

#[test]
fn test_state_machine_steps() {
    let workflow = if_else_workflow("true");
    let mut state = workflow.validate().unwrap();
    assert_eq!(state.in_degree, vec![0, 1, 1, 1, 2]);
    assert_eq!(state.get_ready_nodes(), vec!["start"]);
    // Completing a node that is not running is refused and changes nothing.
    assert_eq!(
        state
            .complete(&workflow, &"start".to_string(), Value::Null)
            .unwrap_err()
            .message(),
        "Node is not running".to_string()
    );
    assert_eq!(state.start_ready_nodes(), vec!["start"]);
    assert_eq!(state.status[0], NodeStatus::Running);
    assert!(state.get_ready_nodes().is_empty());
    assert_eq!(
        state
            .complete(&workflow, &"start".to_string(), Value::Null)
            .unwrap(),
        vec!["if_node"]
    );
    assert_eq!(
        state
            .complete(&workflow, &"if_node".to_string(), Value::Bool(true))
            .unwrap(),
        vec!["true_branch"]
    );
    assert_eq!(
        state
            .complete(&workflow, &"true_branch".to_string(), text("Took true path"))
            .unwrap(),
        Vec::<String>::new()
    );
    // "end" still waits for the untaken false branch.
    assert_eq!(state.status[4], NodeStatus::Waiting);
    assert_eq!(state.in_degree[4], 1);
    assert_eq!(state.status[3], NodeStatus::Waiting);
    assert_eq!(
        state.execution_order,
        vec!["start", "if_node", "true_branch"]
    );
    // A node completes only once.
    assert!(state
        .complete(&workflow, &"start".to_string(), Value::Null)
        .is_err());
}

#[test]
fn test_update_records_and_decrements() {
    let workflow = Workflow {
        nodes: vec![echo("a", "A"), echo("b", "B")],
        edges: vec![edge("a", "b"), edge("a", "b")],
    };
    let mut state = GraphState::new(&workflow);
    assert_eq!(state.in_degree, vec![0, 2]);
    let deps = vec!["b".to_string(), "b".to_string()];
    state.update("a".to_string(), text("A"), &deps).unwrap();
    assert_eq!(state.in_degree, vec![0, 0]);
    assert_eq!(state.status[0], NodeStatus::Completed);
    assert_eq!(state.execution_order, vec!["a"]);
    assert_eq!(state.outputs[0].value, text("A"));

    let mut state = GraphState::new(&workflow);
    let deps = vec!["b".to_string(), "nope".to_string(), "b".to_string()];
    assert_eq!(
        state
            .update("a".to_string(), text("A"), &deps)
            .unwrap_err()
            .message(),
        "Updating on a node that does not exist".to_string()
    );
    // The dependency before the unknown id was taken off; the one after was not.
    assert_eq!(state.in_degree, vec![0, 1]);
}

#[test]
fn test_value_duplicate_and_clone() {
    let v = Value::Array(vec![
        Value::Null,
        number(1.5),
        Value::Array(vec![text("x"), Value::Bool(false)]),
    ]);
    assert_eq!(v.duplicate(), v);
    assert_eq!(v.clone(), v);
}

#[test]
fn test_empty_workflow_with_dangling_edge_is_rejected() {
    let workflow = Workflow {
        nodes: vec![],
        edges: vec![edge("a", "b")],
    };
    assert_eq!(
        run(workflow).err().unwrap(),
        "Node in edge does not exist".to_string()
    );
}

#[test]
fn test_update_twice_keeps_latest_output() {
    let workflow = Workflow {
        nodes: vec![echo("a", "A"), node("e", NodeType::End, &["a.output"])],
        edges: vec![],
    };
    let mut state = GraphState::new(&workflow);
    state.update("a".to_string(), text("first"), &vec![]).unwrap();
    state.update("a".to_string(), text("second"), &vec![]).unwrap();
    assert_eq!(state.execution_order, vec!["a", "a"]);
    match state.evaluate_node(&workflow, "e").unwrap() {
        Evaluation::Output(v) => assert_eq!(v, Value::Array(vec![text("second")])),
        _ => panic!("expected an output"),
    }
}

#[test]
fn test_start_and_evaluate_node() {
    let workflow = Workflow {
        nodes: vec![
            echo("a", "A"),
            echo("b", "B"),
            node("c", NodeType::End, &["a.output", "b.output"]),
        ],
        edges: vec![edge("a", "c"), edge("b", "c")],
    };
    let mut state = workflow.validate().unwrap();
    assert_eq!(state.start(&workflow), vec!["a", "b"]);
    assert!(state.get_ready_nodes().is_empty());
    match state.evaluate_node(&workflow, "a").unwrap() {
        Evaluation::Output(v) => assert_eq!(v, text("A")),
        _ => panic!("expected an output"),
    }
    // "c" cannot be evaluated before its inputs have outputs.
    assert_eq!(
        state.evaluate_node(&workflow, "c").unwrap_err().message(),
        "Input not in context map".to_string()
    );
    assert_eq!(
        state.evaluate_node(&workflow, "zz").unwrap_err().message(),
        "Node not found".to_string()
    );
    assert!(state.complete(&workflow, &"a".to_string(), text("A")).unwrap().is_empty());
    assert_eq!(
        state.complete(&workflow, &"b".to_string(), text("B")).unwrap(),
        vec!["c"]
    );
    match state.evaluate_node(&workflow, "c").unwrap() {
        Evaluation::Output(v) => assert_eq!(v, Value::Array(vec![text("A"), text("B")])),
        _ => panic!("expected an output"),
    }
}

#[test]
fn test_dependents_within_dependencies() {
    let workflow = Workflow {
        nodes: vec![if_else("u", "true"), echo("v", "V")],
        edges: vec![cond_edge("u", "v", "false"), edge("u", "v"), cond_edge("u", "v", "true")],
    };
    let count = |s: Vec<String>, x: &str| s.iter().filter(|y| *y == x).count();
    let deps = count(workflow.get_dependencies("v"), "u");
    assert_eq!(deps, 3);
    assert_eq!(count(workflow.get_dependents("u", &Value::Bool(true)), "v"), 2);
    assert_eq!(count(workflow.get_dependents("u", &Value::Bool(false)), "v"), 2);
    assert_eq!(count(workflow.get_dependents("u", &Value::Null), "v"), 1);
    let plain = Workflow {
        nodes: vec![echo("u", "U"), echo("v", "V")],
        edges: vec![edge("u", "v"), edge("u", "v")],
    };
    assert_eq!(
        count(plain.get_dependents("u", &Value::Null), "v"),
        count(plain.get_dependencies("v"), "u")
    );
}
