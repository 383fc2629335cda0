//! Nodes and edges of a workflow.

use vstd::prelude::*;

use crate::error::{ErrorView, WorkflowError};
use crate::state::{lookup, lookup_output, outputs_view, NodeOutput, OutputView};
use crate::value::{values_view, lemma_values_view_push, Value, ValueView};
use crate::workflow::{parse_input_reference, parse_reference};

verus! {

/// Nodes are named by strings.
pub type NodeId = String;

/// A single node in the workflow.
#[derive(Debug)]
pub struct Node {
    /// Unique identifier for this node
    pub id: NodeId,
    /// The type and configuration of this node
    pub node_type: NodeType,
    /// Input references from other nodes (e.g., ["node1.output", "node2.output"])
    pub inputs: Vec<String>,
}

/// Different types of nodes that can be executed.
#[derive(Debug)]
pub enum NodeType {
    /// Starting point of the workflow (no-op)
    Start,
    /// End point of the workflow (collects all inputs)
    End,
    /// Outputs a static message
    Echo { message: String },
    /// Adds all numeric inputs together
    Add,
    /// Conditional branching; the condition is a string, "true" or anything else
    IfElse { condition: String },
}

/// An edge connecting two nodes.
#[derive(Debug)]
pub struct Edge {
    /// Source node ID
    pub from: NodeId,
    /// Destination node ID
    pub to: NodeId,
    /// Optional condition for conditional edges ("true" or "false" after an IfElse node)
    pub condition: Option<String>,
}

/// The content of a [`NodeType`].
pub enum NodeTypeView {
    Start,
    End,
    Echo { message: Seq<char> },
    Add,
    IfElse { condition: Seq<char> },
}

/// The content of a [`Node`].
pub struct NodeView {
    pub id: Seq<char>,
    pub node_type: NodeTypeView,
    pub inputs: Seq<Seq<char>>,
}

/// The content of an [`Edge`].
pub struct EdgeView {
    pub from: Seq<char>,
    pub to: Seq<char>,
    pub condition: Option<Seq<char>>,
}

impl View for NodeType {
    type V = NodeTypeView;

    open spec fn view(&self) -> NodeTypeView {
        match self {
            NodeType::Start => NodeTypeView::Start,
            NodeType::End => NodeTypeView::End,
            NodeType::Echo { message } => NodeTypeView::Echo { message: message@ },
            NodeType::Add => NodeTypeView::Add,
            NodeType::IfElse { condition } => NodeTypeView::IfElse { condition: condition@ },
        }
    }
}

impl View for Node {
    type V = NodeView;

    open spec fn view(&self) -> NodeView {
        NodeView { id: self.id@, node_type: self.node_type@, inputs: self.inputs.deep_view() }
    }
}

impl View for Edge {
    type V = EdgeView;

    open spec fn view(&self) -> EdgeView {
        EdgeView { from: self.from@, to: self.to@, condition: self.condition.deep_view() }
    }
}

/// A copy of a list of strings with the same content.
pub fn copy_strings(v: &Vec<String>) -> (r: Vec<String>)
    ensures
        r.deep_view() == v.deep_view(),
{
    let mut out: Vec<String> = Vec::new();
    let mut i: usize = 0;
    while i < v.len()
        invariant
            i <= v.len(),
            out@.len() == i,
            forall|k: int| 0 <= k < i ==> #[trigger] out@[k]@ == v@[k]@,
        decreases v.len() - i,
    {
        out.push(v[i].clone());
        i = i + 1;
    }
    assert(out.deep_view() =~= v.deep_view());
    out
}

impl NodeType {
    /// A copy of this node type with the same content.
    pub fn duplicate(&self) -> (r: NodeType)
        ensures
            r@ == self@,
    {
        match self {
            NodeType::Start => NodeType::Start,
            NodeType::End => NodeType::End,
            NodeType::Echo { message } => NodeType::Echo { message: message.clone() },
            NodeType::Add => NodeType::Add,
            NodeType::IfElse { condition } => NodeType::IfElse { condition: condition.clone() },
        }
    }
}

impl Node {
    /// A copy of this node with the same content.
    pub fn duplicate(&self) -> (r: Node)
        ensures
            r@ == self@,
    {
        Node {
            id: self.id.clone(),
            node_type: self.node_type.duplicate(),
            inputs: copy_strings(&self.inputs),
        }
    }
}

impl Clone for NodeType {
    fn clone(&self) -> (r: Self)
        ensures
            r@ == self@,
    {
        self.duplicate()
    }
}

impl Clone for Node {
    fn clone(&self) -> (r: Self)
        ensures
            r@ == self@,
    {
        self.duplicate()
    }
}

impl Edge {
    /// A copy of this edge with the same content.
    pub fn duplicate(&self) -> (r: Edge)
        ensures
            r@ == self@,
    {
        let condition = match &self.condition {
            Some(c) => Some(c.clone()),
            None => None,
        };
        Edge { from: self.from.clone(), to: self.to.clone(), condition }
    }
}

impl Clone for Edge {
    fn clone(&self) -> (r: Self)
        ensures
            r@ == self@,
    {
        self.duplicate()
    }
}

/// What running a node yields.
#[derive(Debug)]
pub enum Evaluation {
    /// The node's output.
    Output(Value),
    /// An `Add` node: its output is the floating-point sum of `operands` (each a
    /// number or a string holding one), added in order; `stopped` is the error
    /// met at the input after the last operand, if there is one.
    Sum { operands: Vec<Value>, stopped: Option<WorkflowError> },
}

/// The content of an [`Evaluation`].
pub enum EvaluationView {
    Output(ValueView),
    Sum { operands: Seq<ValueView>, stopped: Option<ErrorView> },
}

impl View for Evaluation {
    type V = EvaluationView;

    open spec fn view(&self) -> EvaluationView {
        match self {
            Evaluation::Output(v) => EvaluationView::Output(v@),
            Evaluation::Sum { operands, stopped } => EvaluationView::Sum {
                operands: values_view(operands@),
                stopped: match stopped {
                    Some(e) => Some(e@),
                    None => None,
                },
            },
        }
    }
}

/// The value that an input reference designates in `ctx`.
pub open spec fn resolve_reference(r: Seq<char>, ctx: Seq<OutputView>) -> Result<ValueView, ErrorView> {
    match parse_reference(r) {
        None => Err(ErrorView::InvalidInputReference(r)),
        Some((id, _)) => match lookup(ctx, id) {
            Some(v) => Ok(v),
            None => Err(ErrorView::InputNotInContext),
        },
    }
}

/// The values that a list of input references designates, or the error at the
/// first reference that designates none.
pub open spec fn resolve_inputs(inputs: Seq<Seq<char>>, ctx: Seq<OutputView>) -> Result<
    Seq<ValueView>,
    ErrorView,
>
    decreases inputs.len(),
{
    if inputs.len() == 0 {
        Ok(Seq::empty())
    } else {
        match resolve_inputs(inputs.drop_last(), ctx) {
            Err(e) => Err(e),
            Ok(vs) => match resolve_reference(inputs.last(), ctx) {
                Err(e) => Err(e),
                Ok(v) => Ok(vs.push(v)),
            },
        }
    }
}

/// A value an `Add` node can take as an operand: a number or a string.
pub open spec fn is_numeric(v: ValueView) -> bool {
    v is Number || v is String
}

/// The operands of an `Add` node, in input order, up to the first input that
/// designates no value or a value that is not numeric; and the error there.
pub open spec fn sum_operands(inputs: Seq<Seq<char>>, ctx: Seq<OutputView>) -> (Seq<ValueView>, Option<ErrorView>)
    decreases inputs.len(),
{
    if inputs.len() == 0 {
        (Seq::empty(), None)
    } else {
        let (ops, stopped) = sum_operands(inputs.drop_last(), ctx);
        if stopped is Some {
            (ops, stopped)
        } else {
            match resolve_reference(inputs.last(), ctx) {
                Err(e) => (ops, Some(e)),
                Ok(v) => if is_numeric(v) {
                    (ops.push(v), None)
                } else {
                    (ops, Some(ErrorView::NotNumeric))
                },
            }
        }
    }
}

/// What running a node in context `ctx` yields: `Start` gives null; `End` with
/// no inputs null, else the array of its inputs' values; `Echo` its message;
/// `IfElse` whether its condition reads "true"; `Add` its operands.
pub open spec fn evaluate(node: NodeView, ctx: Seq<OutputView>) -> Result<EvaluationView, ErrorView> {
    match node.node_type {
        NodeTypeView::Start => Ok(EvaluationView::Output(ValueView::Null)),
        NodeTypeView::End => if node.inputs.len() == 0 {
            Ok(EvaluationView::Output(ValueView::Null))
        } else {
            match resolve_inputs(node.inputs, ctx) {
                Ok(vs) => Ok(EvaluationView::Output(ValueView::Array(vs))),
                Err(e) => Err(e),
            }
        },
        NodeTypeView::Echo { message } => Ok(EvaluationView::Output(ValueView::String(message))),
        NodeTypeView::Add => {
            let (ops, stopped) = sum_operands(node.inputs, ctx);
            Ok(EvaluationView::Sum { operands: ops, stopped })
        },
        NodeTypeView::IfElse { condition } => Ok(
            EvaluationView::Output(ValueView::Bool(condition == "true"@)),
        ),
    }
}

/// Once a prefix of the inputs fails to resolve, the whole list fails there.
pub proof fn lemma_resolve_inputs_prefix(inputs: Seq<Seq<char>>, ctx: Seq<OutputView>, k: int)
    requires
        0 <= k <= inputs.len(),
        resolve_inputs(inputs.take(k), ctx) is Err,
    ensures
        resolve_inputs(inputs, ctx) == resolve_inputs(inputs.take(k), ctx),
    decreases inputs.len(),
{
    if k < inputs.len() {
        assert(inputs.drop_last().take(k) =~= inputs.take(k));
        lemma_resolve_inputs_prefix(inputs.drop_last(), ctx, k);
    } else {
        assert(inputs.take(k) =~= inputs);
    }
}

/// Once a prefix of the inputs stops the operands, the whole list stops there.
pub proof fn lemma_sum_operands_prefix(inputs: Seq<Seq<char>>, ctx: Seq<OutputView>, k: int)
    requires
        0 <= k <= inputs.len(),
        sum_operands(inputs.take(k), ctx).1 is Some,
    ensures
        sum_operands(inputs, ctx) == sum_operands(inputs.take(k), ctx),
    decreases inputs.len(),
{
    if k < inputs.len() {
        assert(inputs.drop_last().take(k) =~= inputs.take(k));
        lemma_sum_operands_prefix(inputs.drop_last(), ctx, k);
    } else {
        assert(inputs.take(k) =~= inputs);
    }
}

/// A list of input references resolves exactly when each of its references
/// does, and then to one value per reference, in order; when it does not, the
/// error is that of its first reference that designates no value.
pub proof fn lemma_resolve_inputs_exact(inputs: Seq<Seq<char>>, ctx: Seq<OutputView>)
    ensures
        resolve_inputs(inputs, ctx) is Ok <==> forall|k: int|
            0 <= k < inputs.len() ==> #[trigger] resolve_reference(inputs[k], ctx) is Ok,
        resolve_inputs(inputs, ctx) is Ok ==> {
            &&& resolve_inputs(inputs, ctx)->Ok_0.len() == inputs.len()
            &&& forall|k: int|
                0 <= k < inputs.len() ==> #[trigger] resolve_reference(inputs[k], ctx) == Ok::<
                    ValueView,
                    ErrorView,
                >(resolve_inputs(inputs, ctx)->Ok_0[k])
        },
        resolve_inputs(inputs, ctx) is Err ==> exists|k: int|
            0 <= k < inputs.len() && #[trigger] resolve_reference(inputs[k], ctx) == Err::<ValueView, ErrorView>(
                resolve_inputs(inputs, ctx)->Err_0,
            ) && forall|j: int| 0 <= j < k ==> #[trigger] resolve_reference(inputs[j], ctx) is Ok,
    decreases inputs.len(),
{
    if inputs.len() > 0 {
        let init = inputs.drop_last();
        let n = inputs.len() - 1;
        lemma_resolve_inputs_exact(init, ctx);
        assert forall|k: int| 0 <= k < n implies init[k] == inputs[k] by {}
        assert(inputs.last() == inputs[n]);
        match resolve_inputs(init, ctx) {
            Err(e) => {
                let k = choose|k: int|
                    0 <= k < init.len() && #[trigger] resolve_reference(init[k], ctx) == Err::<ValueView, ErrorView>(e)
                        && forall|j: int| 0 <= j < k ==> #[trigger] resolve_reference(init[j], ctx) is Ok;
                assert(resolve_reference(inputs[k], ctx) == Err::<ValueView, ErrorView>(e));
                assert forall|j: int| 0 <= j < k implies #[trigger] resolve_reference(inputs[j], ctx) is Ok by {
                    assert(resolve_reference(init[j], ctx) is Ok);
                }
            },
            Ok(vs) => {
                assert forall|j: int| 0 <= j < n implies #[trigger] resolve_reference(inputs[j], ctx)
                    == Ok::<ValueView, ErrorView>(vs[j]) by {
                    assert(resolve_reference(init[j], ctx) == Ok::<ValueView, ErrorView>(vs[j]));
                }
                match resolve_reference(inputs[n], ctx) {
                    Err(e) => {},
                    Ok(v) => {
                        assert(vs.push(v)[n] == v);
                        assert forall|j: int| 0 <= j < n implies vs.push(v)[j] == vs[j] by {}
                    },
                }
            },
        }
    }
}

/// The operands of an `Add` node are the values of its first inputs, each a
/// number or a string, one per input and in order; the listing stops at the
/// first input that designates no value (with that error) or a value that is
/// neither (with `NotNumeric`), and only there.
pub proof fn lemma_sum_operands_exact(inputs: Seq<Seq<char>>, ctx: Seq<OutputView>)
    ensures
        sum_operands(inputs, ctx).0.len() <= inputs.len(),
        forall|k: int|
            0 <= k < sum_operands(inputs, ctx).0.len() ==> #[trigger] resolve_reference(inputs[k], ctx) == Ok::<
                ValueView,
                ErrorView,
            >(sum_operands(inputs, ctx).0[k]) && is_numeric(sum_operands(inputs, ctx).0[k]),
        sum_operands(inputs, ctx).1 is None <==> sum_operands(inputs, ctx).0.len() == inputs.len(),
        sum_operands(inputs, ctx).1 is Some ==> match resolve_reference(inputs[sum_operands(inputs, ctx).0.len() as int], ctx) {
            Err(e) => sum_operands(inputs, ctx).1 == Some(e),
            Ok(v) => !is_numeric(v) && sum_operands(inputs, ctx).1 == Some(ErrorView::NotNumeric),
        },
    decreases inputs.len(),
{
    if inputs.len() > 0 {
        let init = inputs.drop_last();
        let n = inputs.len() - 1;
        lemma_sum_operands_exact(init, ctx);
        assert forall|k: int| 0 <= k < n implies init[k] == inputs[k] by {}
        assert(inputs.last() == inputs[n]);
        let (ops, stopped) = sum_operands(init, ctx);
        assert forall|k: int| 0 <= k < ops.len() implies #[trigger] resolve_reference(inputs[k], ctx)
            == Ok::<ValueView, ErrorView>(ops[k]) by {
            assert(resolve_reference(init[k], ctx) == Ok::<ValueView, ErrorView>(ops[k]));
        }
        if stopped is None {
            match resolve_reference(inputs[n], ctx) {
                Err(e) => {},
                Ok(v) => {
                    if is_numeric(v) {
                        assert(ops.push(v)[n] == v);
                        assert forall|j: int| 0 <= j < n implies ops.push(v)[j] == ops[j] by {}
                    }
                },
            }
        }
    }
}

/// What each kind of node yields, said of its configuration and its inputs'
/// values: `Start` null; `Echo` its message unchanged; `IfElse` whether its
/// condition is exactly "true"; `End` null without inputs, else the array of
/// its inputs' values, one per input and in order, or the error of its first
/// input that designates no value; `Add` the operands described by
/// [`lemma_sum_operands_exact`], and never an error of its own.
pub proof fn lemma_evaluate_kinds(node: NodeView, ctx: Seq<OutputView>)
    ensures
        node.node_type is Start ==> evaluate(node, ctx) == Ok::<EvaluationView, ErrorView>(
            EvaluationView::Output(ValueView::Null),
        ),
        node.node_type matches NodeTypeView::Echo { message } ==> evaluate(node, ctx) == Ok::<
            EvaluationView,
            ErrorView,
        >(EvaluationView::Output(ValueView::String(message))),
        node.node_type matches NodeTypeView::IfElse { condition } ==> evaluate(node, ctx) == Ok::<
            EvaluationView,
            ErrorView,
        >(EvaluationView::Output(ValueView::Bool(condition == "true"@))),
        node.node_type is End && node.inputs.len() == 0 ==> evaluate(node, ctx) == Ok::<EvaluationView, ErrorView>(
            EvaluationView::Output(ValueView::Null),
        ),
        node.node_type is End && node.inputs.len() > 0 ==> {
            &&& (evaluate(node, ctx) is Ok <==> forall|k: int|
                0 <= k < node.inputs.len() ==> #[trigger] resolve_reference(node.inputs[k], ctx) is Ok)
            &&& (evaluate(node, ctx) is Ok ==> (evaluate(node, ctx)->Ok_0 matches EvaluationView::Output(
                ValueView::Array(vs),
            ) && vs.len() == node.inputs.len() && forall|k: int|
                0 <= k < node.inputs.len() ==> #[trigger] resolve_reference(node.inputs[k], ctx) == Ok::<
                    ValueView,
                    ErrorView,
                >(vs[k])))
            &&& (evaluate(node, ctx) is Err ==> exists|k: int|
                0 <= k < node.inputs.len() && #[trigger] resolve_reference(node.inputs[k], ctx) == Err::<
                    ValueView,
                    ErrorView,
                >(evaluate(node, ctx)->Err_0) && forall|j: int|
                    0 <= j < k ==> #[trigger] resolve_reference(node.inputs[j], ctx) is Ok)
        },
        node.node_type is Add ==> evaluate(node, ctx) is Ok && (evaluate(node, ctx)->Ok_0 matches EvaluationView::Sum {
            operands,
            stopped,
        } && {
            &&& operands.len() <= node.inputs.len()
            &&& (forall|k: int|
                0 <= k < operands.len() ==> #[trigger] resolve_reference(node.inputs[k], ctx) == Ok::<
                    ValueView,
                    ErrorView,
                >(operands[k]) && is_numeric(operands[k]))
            &&& (stopped is None <==> operands.len() == node.inputs.len())
            &&& (stopped is Some ==> match resolve_reference(node.inputs[operands.len() as int], ctx) {
                Err(e) => stopped == Some(e),
                Ok(v) => !is_numeric(v) && stopped == Some(ErrorView::NotNumeric),
            })
        }),
{
    lemma_resolve_inputs_exact(node.inputs, ctx);
    lemma_sum_operands_exact(node.inputs, ctx);
}

impl Node {
    /// The value that input `r` designates in `context`.
    fn resolve(r: &String, context: &Vec<NodeOutput>) -> (res: Result<Value, WorkflowError>)
        ensures
            match res {
                Ok(v) => resolve_reference(r@, outputs_view(context@)) == Ok::<ValueView, ErrorView>(v@),
                Err(e) => resolve_reference(r@, outputs_view(context@)) == Err::<ValueView, ErrorView>(e@),
            },
    {
        let (id, _field) = match parse_input_reference(r.as_str()) {
            Ok(parts) => parts,
            Err(e) => {
                return Err(e);
            },
        };
        match lookup_output(context, id.as_str()) {
            Some(v) => Ok(v.duplicate()),
            None => Err(WorkflowError::InputNotInContext),
        }
    }

    /// Execute this node in `context`, the outputs of the nodes that have
    /// completed. An `Add` node yields its operands; the caller adds them.
    pub fn execute_with_context(&self, context: &Vec<NodeOutput>) -> (r: Result<Evaluation, WorkflowError>)
        ensures
            match r {
                Ok(ev) => evaluate(self@, outputs_view(context@)) == Ok::<EvaluationView, ErrorView>(ev@),
                Err(e) => evaluate(self@, outputs_view(context@)) == Err::<EvaluationView, ErrorView>(e@),
            },
            self@.node_type is Start ==> (r matches Ok(ev) && ev@ == EvaluationView::Output(ValueView::Null)),
            self@.node_type matches NodeTypeView::Echo { message } ==> (r matches Ok(ev) && ev@
                == EvaluationView::Output(ValueView::String(message))),
            self@.node_type matches NodeTypeView::IfElse { condition } ==> (r matches Ok(ev) && ev@
                == EvaluationView::Output(ValueView::Bool(condition == "true"@))),
            self@.node_type is End && self@.inputs.len() == 0 ==> (r matches Ok(ev) && ev@ == EvaluationView::Output(
                ValueView::Null,
            )),
            self@.node_type is End && self@.inputs.len() > 0 ==> {
                &&& (r is Ok <==> forall|k: int|
                    0 <= k < self@.inputs.len() ==> #[trigger] resolve_reference(
                        self@.inputs[k],
                        outputs_view(context@),
                    ) is Ok)
                &&& (r matches Ok(ev) ==> (ev@ matches EvaluationView::Output(ValueView::Array(vs)) && vs.len()
                    == self@.inputs.len() && forall|k: int|
                    0 <= k < self@.inputs.len() ==> #[trigger] resolve_reference(
                        self@.inputs[k],
                        outputs_view(context@),
                    ) == Ok::<ValueView, ErrorView>(vs[k])))
                &&& (r matches Err(e) ==> exists|k: int|
                    0 <= k < self@.inputs.len() && #[trigger] resolve_reference(
                        self@.inputs[k],
                        outputs_view(context@),
                    ) == Err::<ValueView, ErrorView>(e@) && forall|j: int|
                        0 <= j < k ==> #[trigger] resolve_reference(self@.inputs[j], outputs_view(context@)) is Ok)
            },
            self@.node_type is Add ==> (r matches Ok(ev) && (ev@ matches EvaluationView::Sum { operands, stopped } && {
                &&& operands.len() <= self@.inputs.len()
                &&& (forall|k: int|
                    0 <= k < operands.len() ==> #[trigger] resolve_reference(
                        self@.inputs[k],
                        outputs_view(context@),
                    ) == Ok::<ValueView, ErrorView>(operands[k]) && is_numeric(operands[k]))
                &&& (stopped is None <==> operands.len() == self@.inputs.len())
                &&& (stopped is Some ==> match resolve_reference(
                    self@.inputs[operands.len() as int],
                    outputs_view(context@),
                ) {
                    Err(e) => stopped == Some(e),
                    Ok(v) => !is_numeric(v) && stopped == Some(ErrorView::NotNumeric),
                })
            })),
    {
        let ghost ctx = outputs_view(context@);
        let ghost inputs = self.inputs.deep_view();
        proof {
            lemma_evaluate_kinds(self@, ctx);
        }
        match &self.node_type {
            NodeType::Start => Ok(Evaluation::Output(Value::Null)),
            NodeType::End => {
                if self.inputs.len() == 0 {
                    return Ok(Evaluation::Output(Value::Null));
                }
                let mut coll: Vec<Value> = Vec::new();
                let mut i: usize = 0;
                while i < self.inputs.len()
                    invariant
                        ctx == outputs_view(context@),
                        inputs == self.inputs.deep_view(),
                        i <= self.inputs.len(),
                        self@.node_type == NodeTypeView::End,
                        self.inputs@.len() > 0,
                        resolve_inputs(inputs.take(i as int), ctx) == Ok::<Seq<ValueView>, ErrorView>(
                            values_view(coll@),
                        ),
                    decreases self.inputs.len() - i,
                {
                    assert(inputs.take(i + 1).drop_last() =~= inputs.take(i as int));
                    assert(inputs.take(i + 1).last() == self.inputs@[i as int]@);
                    match Self::resolve(&self.inputs[i], context) {
                        Err(e) => {
                            proof {
                                lemma_resolve_inputs_prefix(inputs, ctx, i + 1);
                                lemma_evaluate_kinds(self@, ctx);
                            }
                            return Err(e);
                        },
                        Ok(v) => {
                            proof {
                                lemma_values_view_push(coll@, v);
                            }
                            coll.push(v);
                        },
                    }
                    i = i + 1;
                }
                assert(inputs.take(i as int) =~= inputs);
                Ok(Evaluation::Output(Value::Array(coll)))
            },
            NodeType::Echo { message } => Ok(Evaluation::Output(Value::String(message.clone()))),
            NodeType::IfElse { condition } => {
                let t = "true".to_owned();
                Ok(Evaluation::Output(Value::Bool(*condition == t)))
            },
            NodeType::Add => {
                let mut operands: Vec<Value> = Vec::new();
                let mut i: usize = 0;
                while i < self.inputs.len()
                    invariant
                        ctx == outputs_view(context@),
                        inputs == self.inputs.deep_view(),
                        i <= self.inputs.len(),
                        self@.node_type == NodeTypeView::Add,
                        sum_operands(inputs.take(i as int), ctx) == (values_view(operands@), None::<ErrorView>),
                    decreases self.inputs.len() - i,
                {
                    assert(inputs.take(i + 1).drop_last() =~= inputs.take(i as int));
                    assert(inputs.take(i + 1).last() == self.inputs@[i as int]@);
                    match Self::resolve(&self.inputs[i], context) {
                        Err(e) => {
                            proof {
                                lemma_sum_operands_prefix(inputs, ctx, i + 1);
                                lemma_evaluate_kinds(self@, ctx);
                            }
                            return Ok(Evaluation::Sum { operands, stopped: Some(e) });
                        },
                        Ok(v) => {
                            match v {
                                Value::Number(_) | Value::String(_) => {
                                    proof {
                                        lemma_values_view_push(operands@, v);
                                    }
                                    operands.push(v);
                                },
                                _ => {
                                    proof {
                                        lemma_sum_operands_prefix(inputs, ctx, i + 1);
                                        lemma_evaluate_kinds(self@, ctx);
                                    }
                                    return Ok(
                                        Evaluation::Sum { operands, stopped: Some(WorkflowError::NotNumeric) },
                                    );
                                },
                            }
                        },
                    }
                    i = i + 1;
                }
                assert(inputs.take(i as int) =~= inputs);
                Ok(Evaluation::Sum { operands, stopped: None })
            },
        }
    }
}

} // verus!
