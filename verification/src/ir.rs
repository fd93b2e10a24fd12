//! The intermediate representation: a tree of operations with literal
//! constants at its leaves.

use crate::json::{Number, Value, ValueView};
use vstd::prelude::*;

verus! {

/// A reference to a variable of the environment.
#[derive(Debug, Clone, PartialEq)]
pub struct Get {
    pub var: String,
}

/// An operation, or a literal constant that is already a final value.
#[derive(Debug, PartialEq)]
pub enum Node {
    Op(Op),
    Json(Value),
}

/// An operation of a plan.
#[derive(Debug, PartialEq)]
pub enum Op {
    SetVar { var: String, value: Box<Node> },
    Get(Get),
    Sequence { seq: Vec<Op> },
    UniformChoice { choices: Box<Op>, unit: Box<Op> },
    BernoulliTrial { p: Number, unit: Box<Op> },
    Product { values: Vec<Node> },
    Sum { values: Vec<Node> },
    Array { values: Vec<Node> },
    Cond { cond: Vec<Conditional> },
    Index { index: String, base: Get },
}

/// One arm of a conditional chain: the operation runs when `when` is `true`.
#[derive(Debug, PartialEq)]
pub struct Conditional {
    pub when: Node,
    pub then_op: Op,
}

/// The mathematical content of a [`Node`].
pub enum NodeView {
    Op(OpView),
    Json(ValueView),
}

/// The mathematical content of an [`Op`].
pub enum OpView {
    SetVar { var: Seq<char>, value: Box<NodeView> },
    Get { var: Seq<char> },
    Sequence { seq: Seq<OpView> },
    UniformChoice { choices: Box<OpView>, unit: Box<OpView> },
    BernoulliTrial { p: Number, unit: Box<OpView> },
    Product { values: Seq<NodeView> },
    Sum { values: Seq<NodeView> },
    Array { values: Seq<NodeView> },
    Cond { cond: Seq<ArmView> },
    Index { index: Seq<char>, base: Seq<char> },
}

/// The mathematical content of a [`Conditional`].
pub struct ArmView {
    pub when: NodeView,
    pub then_op: OpView,
}

/// The views of a sequence of operations, item by item.
pub open spec fn op_views(ops: Seq<Op>) -> Seq<OpView>
    decreases ops,
{
    if ops.len() == 0 {
        Seq::empty()
    } else {
        op_views(ops.drop_last()).push(ops.last()@)
    }
}

/// The views of a sequence of nodes, item by item.
pub open spec fn node_views(nodes: Seq<Node>) -> Seq<NodeView>
    decreases nodes,
{
    if nodes.len() == 0 {
        Seq::empty()
    } else {
        node_views(nodes.drop_last()).push(nodes.last()@)
    }
}

/// The views of the arms of a conditional chain, item by item.
pub open spec fn arm_views(arms: Seq<Conditional>) -> Seq<ArmView>
    decreases arms,
{
    if arms.len() == 0 {
        Seq::empty()
    } else {
        arm_views(arms.drop_last()).push(arms.last()@)
    }
}

impl View for Get {
    type V = Seq<char>;

    open spec fn view(&self) -> Seq<char> {
        self.var@
    }
}

impl View for Node {
    type V = NodeView;

    open spec fn view(&self) -> NodeView
        decreases self,
    {
        match self {
            Node::Op(op) => NodeView::Op(op@),
            Node::Json(value) => NodeView::Json(value@),
        }
    }
}

impl View for Op {
    type V = OpView;

    open spec fn view(&self) -> OpView
        decreases self,
    {
        match self {
            Op::SetVar { var, value } => OpView::SetVar { var: var@, value: Box::new((**value)@) },
            Op::Get(get) => OpView::Get { var: get.var@ },
            Op::Sequence { seq } => OpView::Sequence { seq: op_views(seq@) },
            Op::UniformChoice { choices, unit } => OpView::UniformChoice {
                choices: Box::new((**choices)@),
                unit: Box::new((**unit)@),
            },
            Op::BernoulliTrial { p, unit } => OpView::BernoulliTrial { p: *p, unit: Box::new((**unit)@) },
            Op::Product { values } => OpView::Product { values: node_views(values@) },
            Op::Sum { values } => OpView::Sum { values: node_views(values@) },
            Op::Array { values } => OpView::Array { values: node_views(values@) },
            Op::Cond { cond } => OpView::Cond { cond: arm_views(cond@) },
            Op::Index { index, base } => OpView::Index { index: index@, base: base.var@ },
        }
    }
}

impl View for Conditional {
    type V = ArmView;

    open spec fn view(&self) -> ArmView
        decreases self,
    {
        ArmView { when: self.when@, then_op: self.then_op@ }
    }
}

/// The literal `true`, the guard of an `else` arm.
pub fn bool_true() -> (node: Node)
    ensures
        node@ == NodeView::Json(ValueView::Bool(true)),
{
    Node::Json(Value::Bool(true))
}

/// Why a node could not be taken as an operation.
#[derive(Debug, Clone, Copy, PartialEq, Eq)]
pub enum NodeError {
    /// The node is a literal constant.
    FoundJson,
}

impl Op {
    /// The operation that `node` holds; a literal constant is refused.
    pub fn try_from(node: Node) -> (r: Result<Op, NodeError>)
        ensures
            match r {
                Ok(op) => node == Node::Op(op),
                Err(e) => node is Json && e == NodeError::FoundJson,
            },
    {
        match node {
            Node::Op(op) => Ok(op),
            Node::Json(_) => Err(NodeError::FoundJson),
        }
    }
}

/// What [`op_views`] holds at each position.
pub proof fn lemma_op_views(ops: Seq<Op>)
    ensures
        op_views(ops).len() == ops.len(),
        forall|i: int| 0 <= i < ops.len() ==> (#[trigger] op_views(ops)[i]) == ops[i]@,
    decreases ops.len(),
{
    if ops.len() > 0 {
        let front = ops.drop_last();
        lemma_op_views(front);
        assert(op_views(ops) == op_views(front).push(ops.last()@));
        assert forall|i: int| 0 <= i < ops.len() implies (#[trigger] op_views(ops)[i]) == ops[i]@ by {
            if i < front.len() {
                assert(front[i] == ops[i]);
            }
        }
    } else {
        assert(op_views(ops).len() == 0);
    }
}

/// What [`node_views`] holds at each position.
pub proof fn lemma_node_views(nodes: Seq<Node>)
    ensures
        node_views(nodes).len() == nodes.len(),
        forall|i: int| 0 <= i < nodes.len() ==> (#[trigger] node_views(nodes)[i]) == nodes[i]@,
    decreases nodes.len(),
{
    if nodes.len() > 0 {
        let front = nodes.drop_last();
        lemma_node_views(front);
        assert(node_views(nodes) == node_views(front).push(nodes.last()@));
        assert forall|i: int| 0 <= i < nodes.len() implies (#[trigger] node_views(nodes)[i]) == nodes[i]@ by {
            if i < front.len() {
                assert(front[i] == nodes[i]);
            }
        }
    } else {
        assert(node_views(nodes).len() == 0);
    }
}

/// What [`arm_views`] holds at each position.
pub proof fn lemma_arm_views(arms: Seq<Conditional>)
    ensures
        arm_views(arms).len() == arms.len(),
        forall|i: int| 0 <= i < arms.len() ==> (#[trigger] arm_views(arms)[i]) == arms[i]@,
    decreases arms.len(),
{
    if arms.len() > 0 {
        let front = arms.drop_last();
        lemma_arm_views(front);
        assert(arm_views(arms) == arm_views(front).push(arms.last()@));
        assert forall|i: int| 0 <= i < arms.len() implies (#[trigger] arm_views(arms)[i]) == arms[i]@ by {
            if i < front.len() {
                assert(front[i] == arms[i]);
            }
        }
    } else {
        assert(arm_views(arms).len() == 0);
    }
}

} // verus!
