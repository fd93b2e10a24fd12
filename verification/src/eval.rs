//! The evaluator: runs the operations of a plan against an environment and
//! hands out the declared parameters.

use crate::host::{Host, Oracle};
use crate::ir::{
    arm_views, lemma_arm_views, lemma_node_views, lemma_op_views, node_views, op_views, ArmView, Node, NodeView, Op,
    OpView,
};
use crate::json::{
    as_float, finite, is_finite, lemma_views, number_as_float, views, Number, Object, Value, ValueView, ONE,
};
use crate::{Plan, PlanView};
use vstd::prelude::*;

verus! {

/// The environment of one evaluation.
pub type Variables = Object;

/// The content of an environment.
pub type Env = Map<Seq<char>, ValueView>;

/// Why an evaluation failed.
#[derive(Debug, Clone, PartialEq)]
pub enum EvalError {
    /// A variable was read that the environment does not hold.
    UnboundVariable(String),
    /// An operand has the wrong kind of value.
    TypeMismatch,
    /// A declared parameter was not assigned on the path taken.
    MissingParam(String),
    /// An override names a key that is no declared parameter.
    UnknownOverride(String),
}

/// The mathematical content of an [`EvalError`].
pub enum EvalErrorView {
    UnboundVariable(Seq<char>),
    TypeMismatch,
    MissingParam(Seq<char>),
    UnknownOverride(Seq<char>),
}

impl View for EvalError {
    type V = EvalErrorView;

    open spec fn view(&self) -> EvalErrorView {
        match self {
            EvalError::UnboundVariable(name) => EvalErrorView::UnboundVariable(name@),
            EvalError::TypeMismatch => EvalErrorView::TypeMismatch,
            EvalError::MissingParam(name) => EvalErrorView::MissingParam(name@),
            EvalError::UnknownOverride(name) => EvalErrorView::UnknownOverride(name@),
        }
    }
}

/// What an operation leaves behind: the environment after it, and its value
/// or the error that stopped it.
pub struct Outcome {
    pub env: Env,
    pub result: Result<ValueView, EvalErrorView>,
}

/// Whether the evaluator accepts `node`: no reserved operation occurs in it.
pub open spec fn evaluable_node(node: NodeView) -> bool
    decreases node,
{
    match node {
        NodeView::Json(_) => true,
        NodeView::Op(op) => evaluable(op),
    }
}

/// Whether the evaluator accepts every operation of `ops`.
pub open spec fn evaluable_ops(ops: Seq<OpView>) -> bool
    decreases ops,
{
    if ops.len() == 0 {
        true
    } else {
        evaluable_ops(ops.drop_last()) && evaluable(ops.last())
    }
}

/// Whether the evaluator accepts every node of `nodes`.
pub open spec fn evaluable_nodes(nodes: Seq<NodeView>) -> bool
    decreases nodes,
{
    if nodes.len() == 0 {
        true
    } else {
        evaluable_nodes(nodes.drop_last()) && evaluable_node(nodes.last())
    }
}

/// Whether the evaluator accepts the guard and the body of every arm of
/// `arms`.
pub open spec fn evaluable_arms(arms: Seq<ArmView>) -> bool
    decreases arms,
{
    if arms.len() == 0 {
        true
    } else {
        evaluable_arms(arms.drop_last()) && evaluable_node(arms.last().when) && evaluable(arms.last().then_op)
    }
}

/// Whether the evaluator accepts `op`: neither `Sum` nor `Index` occurs in it.
pub open spec fn evaluable(op: OpView) -> bool
    decreases op,
{
    match op {
        OpView::SetVar { var, value } => evaluable_node(*value),
        OpView::Get { var } => true,
        OpView::Sequence { seq } => evaluable_ops(seq),
        OpView::UniformChoice { choices, unit } => evaluable(*choices) && evaluable(*unit),
        OpView::BernoulliTrial { p, unit } => evaluable(*unit),
        OpView::Product { values } => evaluable_nodes(values),
        OpView::Sum { values } => false,
        OpView::Array { values } => evaluable_nodes(values),
        OpView::Cond { cond } => evaluable_arms(cond),
        OpView::Index { index, base } => false,
    }
}

/// A sequence of operations is accepted where each of them is.
pub proof fn lemma_evaluable_ops(ops: Seq<OpView>)
    ensures
        evaluable_ops(ops) <==> forall|i: int| 0 <= i < ops.len() ==> evaluable(#[trigger] ops[i]),
    decreases ops.len(),
{
    if ops.len() > 0 {
        let front = ops.drop_last();
        lemma_evaluable_ops(front);
        assert(evaluable_ops(ops) == (evaluable_ops(front) && evaluable(ops.last())));
        if evaluable_ops(ops) {
            assert forall|i: int| 0 <= i < ops.len() implies evaluable(#[trigger] ops[i]) by {
                if i < front.len() {
                    assert(front[i] == ops[i]);
                }
            }
        }
        if forall|i: int| 0 <= i < ops.len() ==> evaluable(#[trigger] ops[i]) {
            assert forall|i: int| 0 <= i < front.len() implies evaluable(#[trigger] front[i]) by {
                assert(front[i] == ops[i]);
            }
            assert(evaluable(ops[ops.len() - 1]));
        }
    }
}

/// A sequence of nodes is accepted where each of them is.
pub proof fn lemma_evaluable_nodes(nodes: Seq<NodeView>)
    ensures
        evaluable_nodes(nodes) <==> forall|i: int| 0 <= i < nodes.len() ==> evaluable_node(#[trigger] nodes[i]),
    decreases nodes.len(),
{
    if nodes.len() > 0 {
        let front = nodes.drop_last();
        lemma_evaluable_nodes(front);
        assert(evaluable_nodes(nodes) == (evaluable_nodes(front) && evaluable_node(nodes.last())));
        if evaluable_nodes(nodes) {
            assert forall|i: int| 0 <= i < nodes.len() implies evaluable_node(#[trigger] nodes[i]) by {
                if i < front.len() {
                    assert(front[i] == nodes[i]);
                }
            }
        }
        if forall|i: int| 0 <= i < nodes.len() ==> evaluable_node(#[trigger] nodes[i]) {
            assert forall|i: int| 0 <= i < front.len() implies evaluable_node(#[trigger] front[i]) by {
                assert(front[i] == nodes[i]);
            }
            assert(evaluable_node(nodes[nodes.len() - 1]));
        }
    }
}

/// The arms of a chain are accepted where the guard and the body of each are.
pub proof fn lemma_evaluable_arms(arms: Seq<ArmView>)
    ensures
        evaluable_arms(arms) <==> forall|i: int|
            0 <= i < arms.len() ==> evaluable_node((#[trigger] arms[i]).when) && evaluable(arms[i].then_op),
    decreases arms.len(),
{
    if arms.len() > 0 {
        let front = arms.drop_last();
        lemma_evaluable_arms(front);
        assert(evaluable_arms(arms) == (evaluable_arms(front) && evaluable_node(arms.last().when) && evaluable(
            arms.last().then_op,
        )));
        if evaluable_arms(arms) {
            assert forall|i: int| 0 <= i < arms.len() implies evaluable_node((#[trigger] arms[i]).when)
                && evaluable(arms[i].then_op) by {
                if i < front.len() {
                    assert(front[i] == arms[i]);
                }
            }
        }
        if forall|i: int|
            0 <= i < arms.len() ==> evaluable_node((#[trigger] arms[i]).when) && evaluable(arms[i].then_op) {
            assert forall|i: int| 0 <= i < front.len() implies evaluable_node((#[trigger] front[i]).when)
                && evaluable(front[i].then_op) by {
                assert(front[i] == arms[i]);
            }
            assert(evaluable_node(arms[arms.len() - 1].when));
        }
    }
}

/// Whether the evaluator accepts `node`.
pub fn is_evaluable_node(node: &Node) -> (r: bool)
    ensures
        r == evaluable_node(node@),
    decreases node, 0nat,
{
    match node {
        Node::Json(_) => true,
        Node::Op(op) => is_evaluable(op),
    }
}

/// Whether every node of `nodes` is accepted.
#[verifier::loop_isolation(false)]
fn all_evaluable(nodes: &Vec<Node>) -> (r: bool)
    ensures
        r == forall|i: int| 0 <= i < nodes.len() ==> evaluable_node(#[trigger] node_views(nodes@)[i]),
    decreases nodes, 0nat,
{
    proof {
        lemma_node_views(nodes@);
    }
    let mut i: usize = 0;
    while i < nodes.len()
        invariant
            i <= nodes.len(),
            forall|j: int| 0 <= j < i ==> evaluable_node(#[trigger] node_views(nodes@)[j]),
        decreases nodes.len() - i,
    {
        if !is_evaluable_node(&nodes[i]) {
            assert(!evaluable_node(node_views(nodes@)[i as int]));
            return false;
        }
        i += 1;
    }
    true
}

/// Whether the evaluator accepts `op`.
#[verifier::loop_isolation(false)]
pub fn is_evaluable(op: &Op) -> (r: bool)
    ensures
        r == evaluable(op@),
    decreases op, 1nat,
{
    match op {
        Op::SetVar { var, value } => {
            let r = is_evaluable_node(value);
            assert(evaluable(op@) == evaluable_node((**value)@));
            r
        },
        Op::Get(_) => true,
        Op::Sequence { seq } => {
            proof {
                lemma_op_views(seq@);
                assert(op@ == OpView::Sequence { seq: op_views(seq@) });
                lemma_evaluable_ops(op_views(seq@));
            }
            let mut i: usize = 0;
            while i < seq.len()
                invariant
                    i <= seq.len(),
                    forall|j: int| 0 <= j < i ==> evaluable(#[trigger] op_views(seq@)[j]),
                decreases seq.len() - i,
            {
                if !is_evaluable(&seq[i]) {
                    assert(!evaluable(op_views(seq@)[i as int]));
                    return false;
                }
                i += 1;
            }
            true
        },
        Op::UniformChoice { choices, unit } => {
            assert(evaluable(op@) == (evaluable((**choices)@) && evaluable((**unit)@)));
            is_evaluable(choices) && is_evaluable(unit)
        },
        Op::BernoulliTrial { p, unit } => {
            assert(evaluable(op@) == evaluable((**unit)@));
            is_evaluable(unit)
        },
        Op::Product { values } => {
            proof {
                lemma_node_views(values@);
                lemma_evaluable_nodes(node_views(values@));
            }
            all_evaluable(values)
        },
        Op::Sum { values } => false,
        Op::Array { values } => {
            proof {
                lemma_node_views(values@);
                lemma_evaluable_nodes(node_views(values@));
            }
            all_evaluable(values)
        },
        Op::Cond { cond } => {
            proof {
                lemma_arm_views(cond@);
                lemma_evaluable_arms(arm_views(cond@));
            }
            let mut i: usize = 0;
            while i < cond.len()
                invariant
                    i <= cond.len(),
                    forall|j: int|
                        0 <= j < i ==> evaluable_node((#[trigger] arm_views(cond@)[j]).when) && evaluable(
                            arm_views(cond@)[j].then_op,
                        ),
                decreases cond.len() - i,
            {
                if !is_evaluable_node(&cond[i].when) || !is_evaluable(&cond[i].then_op) {
                    assert(arm_views(cond@)[i as int] == cond@[i as int]@);
                    assert(!(evaluable_node(arm_views(cond@)[i as int].when) && evaluable(
                        arm_views(cond@)[i as int].then_op,
                    )));
                    return false;
                }
                i += 1;
            }
            true
        },
        Op::Index { index, base } => false,
    }
}

/// Whether the evaluator accepts every statement of `plan`.
#[verifier::loop_isolation(false)]
pub fn is_evaluable_plan(plan: &Plan) -> (r: bool)
    ensures
        r == evaluable_plan(plan@),
{
    proof {
        lemma_op_views(plan.ops@);
        lemma_evaluable_ops(plan@.ops);
    }
    let mut i: usize = 0;
    while i < plan.ops.len()
        invariant
            i <= plan.ops.len(),
            plan@.ops.len() == plan.ops.len(),
            forall|j: int| 0 <= j < plan.ops.len() ==> (#[trigger] plan@.ops[j]) == plan.ops@[j]@,
            forall|j: int| 0 <= j < i ==> evaluable(#[trigger] plan@.ops[j]),
        decreases plan.ops.len() - i,
    {
        if !is_evaluable(&plan.ops[i]) {
            assert(!evaluable(plan@.ops[i as int]));
            return false;
        }
        i += 1;
    }
    true
}

/// The value of a node: a literal as it stands, an operation by [`eval_op`].
/// `salt` is the name of the variable that the value is assigned to, empty
/// where it is assigned to none.
pub open spec fn eval_node(o: Oracle, env: Env, salt: Seq<char>, node: NodeView) -> Outcome
    decreases node, 0nat,
{
    match node {
        NodeView::Json(value) => Outcome { env, result: Ok(value) },
        NodeView::Op(op) => eval_op(o, env, salt, op),
    }
}

/// What one operation does to the environment, and its value.
///
/// An assignment evaluates its value and writes it to the environment; its
/// own value is the environment. A read hands out the value of a variable,
/// and fails where the environment holds none. A sequence, a product, an
/// array and a conditional chain are evaluated by [`eval_seq`],
/// [`eval_product`], [`eval_array`] and [`eval_cond`]. A uniform choice
/// evaluates its choices and its unit, and takes the choice that the oracle
/// draws; a Bernoulli trial evaluates its unit, and is what the oracle says
/// of the trial. `Sum` and `Index` are reserved: the evaluator accepts no
/// operation that holds one, and nothing is said of them here but that they
/// fail.
pub open spec fn eval_op(o: Oracle, env: Env, salt: Seq<char>, op: OpView) -> Outcome
    decreases op, 0nat,
{
    match op {
        OpView::SetVar { var, value } => {
            let r = eval_node(o, env, var, *value);
            match r.result {
                Ok(v) => {
                    let after = r.env.insert(var, v);
                    Outcome { env: after, result: Ok(ValueView::Object(after)) }
                },
                Err(_) => r,
            }
        },
        OpView::Get { var } => if env.contains_key(var) {
            Outcome { env, result: Ok(env[var]) }
        } else {
            Outcome { env, result: Err(EvalErrorView::UnboundVariable(var)) }
        },
        OpView::Sequence { seq } => eval_seq(o, env, salt, seq, 0),
        OpView::UniformChoice { choices, unit } => {
            let c = eval_op(o, env, salt, *choices);
            match c.result {
                Ok(cv) => {
                    let u = eval_op(o, c.env, salt, *unit);
                    match u.result {
                        Ok(uv) => Outcome { env: u.env, result: pick(o, salt, cv, uv) },
                        Err(_) => u,
                    }
                },
                Err(_) => c,
            }
        },
        OpView::BernoulliTrial { p, unit } => {
            let u = eval_op(o, env, salt, *unit);
            match u.result {
                Ok(uv) => Outcome { env: u.env, result: Ok(ValueView::Bool((o.trial)(salt, p, uv))) },
                Err(_) => u,
            }
        },
        OpView::Product { values } => eval_product(o, env, salt, values, 0, ONE),
        OpView::Array { values } => eval_array(o, env, salt, values, 0, Seq::empty()),
        OpView::Cond { cond } => eval_cond(o, env, salt, cond, 0),
        OpView::Sum { values } => Outcome { env, result: Err(EvalErrorView::TypeMismatch) },
        OpView::Index { index, base } => Outcome { env, result: Err(EvalErrorView::TypeMismatch) },
    }
}

/// The choice taken for the unit `unit` among `choices`, which has to be a
/// non-empty array, in an assignment to `salt`.
pub open spec fn pick(o: Oracle, salt: Seq<char>, choices: ValueView, unit: ValueView) -> Result<
    ValueView,
    EvalErrorView,
> {
    match choices {
        ValueView::Array(items) => {
            let k = (o.choice)(salt, unit, items.len());
            if k < items.len() {
                Ok(items[k as int])
            } else {
                Err(EvalErrorView::TypeMismatch)
            }
        },
        _ => Err(EvalErrorView::TypeMismatch),
    }
}

/// Runs `ops` from position `i` on, each for its effect, and stops at the
/// first error. The value of a finished sequence is the environment.
pub open spec fn eval_seq(o: Oracle, env: Env, salt: Seq<char>, ops: Seq<OpView>, i: int) -> Outcome
    decreases ops, ops.len() - i,
{
    if i < 0 || i >= ops.len() {
        Outcome { env, result: Ok(ValueView::Object(env)) }
    } else {
        let r = eval_op(o, env, salt, ops[i]);
        match r.result {
            Ok(_) => eval_seq(o, r.env, salt, ops, i + 1),
            Err(_) => r,
        }
    }
}

/// Evaluates `nodes` from position `i` on into an array that begins with
/// `done`, and stops at the first error.
pub open spec fn eval_array(
    o: Oracle,
    env: Env,
    salt: Seq<char>,
    nodes: Seq<NodeView>,
    i: int,
    done: Seq<ValueView>,
) -> Outcome
    decreases nodes, nodes.len() - i,
{
    if i < 0 || i >= nodes.len() {
        Outcome { env, result: Ok(ValueView::Array(done)) }
    } else {
        let r = eval_node(o, env, salt, nodes[i]);
        match r.result {
            Ok(v) => eval_array(o, r.env, salt, nodes, i + 1, done.push(v)),
            Err(_) => r,
        }
    }
}

/// Multiplies the values of `nodes` from position `i` on into the float
/// `acc`, from left to right. An operand that is no number is a type
/// mismatch; a product that is not finite is `null`.
pub open spec fn eval_product(
    o: Oracle,
    env: Env,
    salt: Seq<char>,
    nodes: Seq<NodeView>,
    i: int,
    acc: u64,
) -> Outcome
    decreases nodes, nodes.len() - i,
{
    if i < 0 || i >= nodes.len() {
        Outcome {
            env,
            result: Ok(
                if is_finite(acc) {
                    ValueView::Number(Number::Float(acc))
                } else {
                    ValueView::Null
                },
            ),
        }
    } else {
        let r = eval_node(o, env, salt, nodes[i]);
        match r.result {
            Ok(ValueView::Number(n)) => eval_product(
                o,
                r.env,
                salt,
                nodes,
                i + 1,
                (o.product)(number_as_float(n), acc),
            ),
            Ok(_) => Outcome { env: r.env, result: Err(EvalErrorView::TypeMismatch) },
            Err(_) => r,
        }
    }
}

/// Tries the arms from position `i` on: the first whose guard is exactly
/// `true` runs, and no later guard is looked at. With no such arm the value is
/// `null`.
pub open spec fn eval_cond(o: Oracle, env: Env, salt: Seq<char>, arms: Seq<ArmView>, i: int) -> Outcome
    decreases arms, arms.len() - i,
{
    if i < 0 || i >= arms.len() {
        Outcome { env, result: Ok(ValueView::Null) }
    } else {
        let r = eval_node(o, env, salt, arms[i].when);
        match r.result {
            Ok(ValueView::Bool(true)) => eval_op(o, r.env, salt, arms[i].then_op),
            Ok(_) => eval_cond(o, r.env, salt, arms, i + 1),
            Err(_) => r,
        }
    }
}

/// The content of what an evaluation returned.
pub open spec fn result_view(r: Result<Value, EvalError>) -> Result<ValueView, EvalErrorView> {
    match r {
        Ok(v) => Ok(v@),
        Err(e) => Err(e@),
    }
}

/// Evaluates a node against `vars`, outside any assignment.
pub fn evaluate_node<M, C, T>(vars: &mut Variables, node: &Node, host: &Host<M, C, T>) -> (r: Result<
    Value,
    EvalError,
>) where M: Fn(u64, u64) -> u64, C: Fn(&str, &Value, usize) -> usize, T: Fn(&str, Number, &Value) -> bool
    requires
        host.total(),
        evaluable_node(node@),
    ensures
        host.functional() ==> (Outcome { env: final(vars)@, result: result_view(r) }) == eval_node(
            host.oracle(),
            old(vars)@,
            Seq::empty(),
            node@,
        ),
{
    proof {
        reveal_strlit("");
        assert(""@ =~= Seq::<char>::empty());
    }
    evaluate_node_under(vars, node, "", host)
}

/// Evaluates an operation against `vars`, which it may change, outside any
/// assignment.
pub fn evaluate_op<M, C, T>(vars: &mut Variables, op: &Op, host: &Host<M, C, T>) -> (r: Result<
    Value,
    EvalError,
>) where M: Fn(u64, u64) -> u64, C: Fn(&str, &Value, usize) -> usize, T: Fn(&str, Number, &Value) -> bool
    requires
        host.total(),
        evaluable(op@),
    ensures
        host.functional() ==> (Outcome { env: final(vars)@, result: result_view(r) }) == eval_op(
            host.oracle(),
            old(vars)@,
            Seq::empty(),
            op@,
        ),
{
    proof {
        reveal_strlit("");
        assert(""@ =~= Seq::<char>::empty());
    }
    evaluate_op_under(vars, op, "", host)
}

/// Evaluates a node against `vars` in an assignment to `name`.
pub fn evaluate_node_under<M, C, T>(vars: &mut Variables, node: &Node, name: &str, host: &Host<M, C, T>) -> (r:
    Result<Value, EvalError>) where
    M: Fn(u64, u64) -> u64,
    C: Fn(&str, &Value, usize) -> usize,
    T: Fn(&str, Number, &Value) -> bool,

    requires
        host.total(),
        evaluable_node(node@),
    ensures
        host.functional() ==> (Outcome { env: final(vars)@, result: result_view(r) }) == eval_node(
            host.oracle(),
            old(vars)@,
            name@,
            node@,
        ),
    decreases node, 0nat,
{
    match node {
        Node::Json(value) => Ok(value.clone()),
        Node::Op(op) => evaluate_op_under(vars, op, name, host),
    }
}

/// Evaluates an operation against `vars`, which it may change, in an
/// assignment to `name`.
#[verifier::loop_isolation(false)]
pub fn evaluate_op_under<M, C, T>(vars: &mut Variables, op: &Op, name: &str, host: &Host<M, C, T>) -> (r:
    Result<Value, EvalError>) where
    M: Fn(u64, u64) -> u64,
    C: Fn(&str, &Value, usize) -> usize,
    T: Fn(&str, Number, &Value) -> bool,

    requires
        host.total(),
        evaluable(op@),
    ensures
        host.functional() ==> (Outcome { env: final(vars)@, result: result_view(r) }) == eval_op(
            host.oracle(),
            old(vars)@,
            name@,
            op@,
        ),
    decreases op, 0nat,
{
    let ghost o = host.oracle();
    let ghost salt = name@;
    let ghost env0 = vars@;
    proof {
        match op {
            Op::Sequence { seq } => {
                lemma_op_views(seq@);
                lemma_evaluable_ops(op_views(seq@));
            },
            Op::Array { values } => {
                lemma_node_views(values@);
                lemma_evaluable_nodes(node_views(values@));
            },
            Op::Product { values } => {
                lemma_node_views(values@);
                lemma_evaluable_nodes(node_views(values@));
            },
            Op::Cond { cond } => {
                lemma_arm_views(cond@);
                lemma_evaluable_arms(arm_views(cond@));
            },
            _ => {},
        }
    }
    match op {
        Op::Sequence { seq } => {
            let ghost ops = op_views(seq@);
            let mut i: usize = 0;
            while i < seq.len()
                invariant
                    i <= seq.len(),
                    ops == op_views(seq@),
                    ops.len() == seq.len(),
                    forall|j: int| 0 <= j < seq.len() ==> (#[trigger] ops[j]) == seq[j]@,
                    forall|j: int| 0 <= j < ops.len() ==> evaluable(#[trigger] ops[j]),
                    host.functional() ==> eval_seq(o, env0, salt, ops, 0) == eval_seq(o, vars@, salt, ops, i as int),
                decreases seq.len() - i,
            {
                assert(ops[i as int] == seq[i as int]@);
                match evaluate_op_under(vars, &seq[i], name, host) {
                    Ok(_) => {},
                    Err(e) => {
                        return Err(e);
                    },
                }
                i += 1;
            }
            Ok(Value::Object(vars.clone()))
        },
        Op::Array { values } => {
            let ghost nodes = node_views(values@);
            let mut out: Vec<Value> = Vec::new();
            let mut i: usize = 0;
            assert(views(out@) =~= Seq::<ValueView>::empty());
            while i < values.len()
                invariant
                    i <= values.len(),
                    nodes == node_views(values@),
                    nodes.len() == values.len(),
                    forall|j: int| 0 <= j < values.len() ==> (#[trigger] nodes[j]) == values[j]@,
                    forall|j: int| 0 <= j < nodes.len() ==> evaluable_node(#[trigger] nodes[j]),
                    host.functional() ==> eval_array(o, env0, salt, nodes, 0, Seq::empty()) == eval_array(
                        o,
                        vars@,
                        salt,
                        nodes,
                        i as int,
                        views(out@),
                    ),
                decreases values.len() - i,
            {
                assert(nodes[i as int] == values[i as int]@);
                let ghost before = views(out@);
                let ghost old_out = out@;
                match evaluate_node_under(vars, &values[i], name, host) {
                    Ok(v) => {
                        out.push(v);
                        assert(out@.drop_last() =~= old_out);
                        assert(views(out@) =~= before.push(v@));
                    },
                    Err(e) => {
                        return Err(e);
                    },
                }
                i += 1;
            }
            Ok(Value::Array(out))
        },
        Op::SetVar { var, value } => {
            match evaluate_node_under(vars, value, var.as_str(), host) {
                Ok(v) => {
                    vars.insert(var.clone(), v);
                    Ok(Value::Object(vars.clone()))
                },
                Err(e) => Err(e),
            }
        },
        Op::Get(get) => {
            match vars.get(get.var.as_str()) {
                Some(v) => Ok(v.clone()),
                None => Err(EvalError::UnboundVariable(get.var.clone())),
            }
        },
        Op::Product { values } => {
            let ghost nodes = node_views(values@);
            let mut acc: u64 = ONE;
            let mut i: usize = 0;
            while i < values.len()
                invariant
                    i <= values.len(),
                    nodes == node_views(values@),
                    nodes.len() == values.len(),
                    forall|j: int| 0 <= j < values.len() ==> (#[trigger] nodes[j]) == values[j]@,
                    forall|j: int| 0 <= j < nodes.len() ==> evaluable_node(#[trigger] nodes[j]),
                    host.functional() ==> eval_product(o, env0, salt, nodes, 0, ONE) == eval_product(
                        o,
                        vars@,
                        salt,
                        nodes,
                        i as int,
                        acc,
                    ),
                decreases values.len() - i,
            {
                assert(nodes[i as int] == values[i as int]@);
                match evaluate_node_under(vars, &values[i], name, host) {
                    Ok(Value::Number(n)) => {
                        acc = host.product(as_float(n), acc);
                    },
                    Ok(_) => {
                        return Err(EvalError::TypeMismatch);
                    },
                    Err(e) => {
                        return Err(e);
                    },
                }
                i += 1;
            }
            if finite(acc) {
                Ok(Value::Number(Number::Float(acc)))
            } else {
                Ok(Value::Null)
            }
        },
        Op::Cond { cond } => {
            let ghost arms = arm_views(cond@);
            let mut i: usize = 0;
            while i < cond.len()
                invariant
                    i <= cond.len(),
                    arms == arm_views(cond@),
                    arms.len() == cond.len(),
                    forall|j: int| 0 <= j < cond.len() ==> (#[trigger] arms[j]) == cond[j]@,
                    forall|j: int|
                        0 <= j < arms.len() ==> evaluable_node((#[trigger] arms[j]).when) && evaluable(
                            arms[j].then_op,
                        ),
                    host.functional() ==> eval_cond(o, env0, salt, arms, 0) == eval_cond(o, vars@, salt, arms, i as int),
                decreases cond.len() - i,
            {
                assert(arms[i as int] == cond[i as int]@);
                let arm = &cond[i];
                match evaluate_node_under(vars, &arm.when, name, host) {
                    Ok(Value::Bool(true)) => {
                        return evaluate_op_under(vars, &arm.then_op, name, host);
                    },
                    Ok(_) => {},
                    Err(e) => {
                        return Err(e);
                    },
                }
                i += 1;
            }
            Ok(Value::Null)
        },
        Op::UniformChoice { choices, unit } => {
            let candidates = match evaluate_op_under(vars, choices, name, host) {
                Ok(v) => v,
                Err(e) => {
                    return Err(e);
                },
            };
            let who = match evaluate_op_under(vars, unit, name, host) {
                Ok(v) => v,
                Err(e) => {
                    return Err(e);
                },
            };
            match candidates {
                Value::Array(items) => {
                    proof {
                        lemma_views(items@);
                    }
                    let k = host.choice(name, &who, items.len());
                    if k < items.len() {
                        proof {
                            lemma_views(items@);
                        }
                        Ok(items[k].clone())
                    } else {
                        Err(EvalError::TypeMismatch)
                    }
                },
                _ => Err(EvalError::TypeMismatch),
            }
        },
        Op::BernoulliTrial { p, unit } => {
            match evaluate_op_under(vars, unit, name, host) {
                Ok(who) => Ok(Value::Bool(host.outcome(name, *p, &who))),
                Err(e) => Err(e),
            }
        },
        Op::Sum { values } => Err(EvalError::TypeMismatch),
        Op::Index { index, base } => Err(EvalError::TypeMismatch),
    }
}


/// Whether the evaluator accepts every statement of `plan`.
pub open spec fn evaluable_plan(plan: PlanView) -> bool {
    evaluable_ops(plan.ops)
}

/// What a whole evaluation leaves behind: the environment after it, and the
/// output parameters or the error that stopped it.
pub struct Run {
    pub env: Env,
    pub result: Result<Env, EvalErrorView>,
}

/// Moves the parameters `params[i..]` out of `env` into `out`. A parameter that
/// `env` does not hold stops the move.
pub open spec fn collect(env: Env, params: Seq<Seq<char>>, i: int, out: Env) -> Run
    decreases params.len() - i,
{
    if i < 0 || i >= params.len() {
        Run { env, result: Ok(out) }
    } else if env.contains_key(params[i]) {
        collect(env.remove(params[i]), params, i + 1, out.insert(params[i], env[params[i]]))
    } else {
        Run { env, result: Err(EvalErrorView::MissingParam(params[i])) }
    }
}

/// Puts the overrides of the keys `keys[i..]` over `out`. A key that `out` does
/// not hold stops the work.
pub open spec fn apply_overrides(out: Env, keys: Seq<Seq<char>>, values: Env, i: int) -> Result<
    Env,
    EvalErrorView,
>
    decreases keys.len() - i,
{
    if i < 0 || i >= keys.len() {
        Ok(out)
    } else if out.contains_key(keys[i]) {
        apply_overrides(out.insert(keys[i], values[keys[i]]), keys, values, i + 1)
    } else {
        Err(EvalErrorView::UnknownOverride(keys[i]))
    }
}

/// The overrides of a call, as the evaluation reads them: the keys in
/// ascending order, and the value under each.
pub open spec fn overrides_view(overrides: Option<&Variables>) -> Option<(Seq<Seq<char>>, Env)> {
    match overrides {
        Some(o) => Some((o.keys(), o@)),
        None => None,
    }
}

/// A whole evaluation: the statements run in order, then every declared
/// parameter moves from the environment to the output, then the overrides are
/// put over the output.
pub open spec fn run(o: Oracle, env: Env, overrides: Option<(Seq<Seq<char>>, Env)>, plan: PlanView) -> Run {
    let ran = eval_seq(o, env, Seq::empty(), plan.ops, 0);
    match ran.result {
        Err(e) => Run { env: ran.env, result: Err(e) },
        Ok(_) => {
            let moved = collect(ran.env, plan.params, 0, Map::empty());
            match (moved.result, overrides) {
                (Ok(out), Some((keys, values))) => Run {
                    env: moved.env,
                    result: apply_overrides(out, keys, values, 0),
                },
                _ => moved,
            }
        },
    }
}

/// Runs `plan` against `inputs` and hands out its declared parameters, with
/// `overrides` put over them.
#[verifier::loop_isolation(false)]
pub fn evaluate<M, C, T>(
    inputs: &mut Variables,
    overrides: Option<&Variables>,
    plan: &Plan,
    host: &Host<M, C, T>,
) -> (r: Result<Object, EvalError>) where
    M: Fn(u64, u64) -> u64,
    C: Fn(&str, &Value, usize) -> usize,
    T: Fn(&str, Number, &Value) -> bool,

    requires
        host.total(),
        evaluable_plan(plan@),
    ensures
        host.functional() ==> (Run {
            env: final(inputs)@,
            result: match r {
                Ok(out) => Ok(out@),
                Err(e) => Err(e@),
            },
        }) == run(host.oracle(), old(inputs)@, overrides_view(overrides), plan@),
{
    let ghost o = host.oracle();
    let ghost salt = Seq::<char>::empty();
    let ghost env0 = inputs@;
    let ghost ops = plan@.ops;
    let ghost params = plan@.params;
    proof {
        lemma_op_views(plan.ops@);
        lemma_evaluable_ops(plan@.ops);
    }
    let mut i: usize = 0;
    while i < plan.ops.len()
        invariant
            i <= plan.ops.len(),
            host.total(),
            ops == op_views(plan.ops@),
            ops.len() == plan.ops.len(),
            forall|j: int| 0 <= j < plan.ops.len() ==> (#[trigger] ops[j]) == plan.ops[j]@,
            forall|j: int| 0 <= j < ops.len() ==> evaluable(#[trigger] ops[j]),
            host.functional() ==> eval_seq(o, env0, salt, ops, 0) == eval_seq(o, inputs@, salt, ops, i as int),
        decreases plan.ops.len() - i,
    {
        match evaluate_op(inputs, &plan.ops[i], host) {
            Ok(_) => {},
            Err(e) => {
                return Err(e);
            },
        }
        i += 1;
    }
    let ghost env1 = inputs@;
    let mut out = Object::new();
    let mut k: usize = 0;
    while k < plan.params.len()
        invariant
            k <= plan.params.len(),
            params.len() == plan.params.len(),
            forall|j: int| 0 <= j < plan.params.len() ==> (#[trigger] params[j]) == plan.params[j]@,
            collect(env1, params, 0, Map::empty()) == collect(inputs@, params, k as int, out@),
        decreases plan.params.len() - k,
    {
        let name = &plan.params[k];
        let ghost before = inputs@;
        match inputs.remove(name.as_str()) {
            Some(value) => {
                out.insert(name.clone(), value);
            },
            None => {
                assert(inputs@ =~= before);
                return Err(EvalError::MissingParam(name.clone()));
            },
        }
        k += 1;
    }
    match overrides {
        Some(given) => {
            let ghost keys = given.keys();
            let ghost values = given@;
            let ghost out0 = out@;
            let count = given.len();
            let mut n: usize = 0;
            while n < count
                invariant
                    n <= count,
                    count == keys.len(),
                    keys == given.keys(),
                    values == given@,
                    apply_overrides(out0, keys, values, 0) == apply_overrides(out@, keys, values, n as int),
                decreases count - n,
            {
                let (key, value) = given.entry_at(n);
                if out.contains_key(key.as_str()) {
                    out.insert(key.clone(), value.clone());
                } else {
                    return Err(EvalError::UnknownOverride(key.clone()));
                }
                n += 1;
            }
            Ok(out)
        },
        None => Ok(out),
    }
}

/// The value of a guard that cannot change the environment: a literal
/// constant, or a variable that the environment holds.
pub open spec fn plain_guard(env: Env, guard: NodeView) -> Option<ValueView> {
    match guard {
        NodeView::Json(value) => Some(value),
        NodeView::Op(OpView::Get { var }) => if env.contains_key(var) {
            Some(env[var])
        } else {
            None
        },
        _ => None,
    }
}

/// A conditional chain takes the first arm whose guard is `true`: where the
/// guards before arm `k` are constants or variables with a value other than
/// `true`, and the guard of arm `k` is one with the value `true`, the chain
/// does what the body of arm `k` does, to the environment too, and nothing
/// else. No other body runs.
pub proof fn lemma_cond_takes_first_true(o: Oracle, env: Env, salt: Seq<char>, arms: Seq<ArmView>, k: int)
    requires
        0 <= k < arms.len(),
        forall|i: int|
            0 <= i < k ==> plain_guard(env, (#[trigger] arms[i]).when) is Some && plain_guard(env, arms[i].when)
                != Some(ValueView::Bool(true)),
        plain_guard(env, arms[k].when) == Some(ValueView::Bool(true)),
    ensures
        eval_op(o, env, salt, OpView::Cond { cond: arms }) == eval_op(o, env, salt, arms[k].then_op),
{
    reveal_with_fuel(eval_op, 3);
    reveal_with_fuel(eval_cond, 3);
    reveal_with_fuel(eval_node, 3);
    lemma_cond_skips(o, env, salt, arms, 0, k);
    assert(eval_node(o, env, salt, arms[k].when) == (Outcome { env, result: Ok(ValueView::Bool(true)) }));
    assert(eval_cond(o, env, salt, arms, k) == eval_op(o, env, salt, arms[k].then_op));
}

/// A conditional chain none of whose guards is `true` leaves the environment
/// as it was, and its value is `null`: no body runs.
pub proof fn lemma_cond_without_true(o: Oracle, env: Env, salt: Seq<char>, arms: Seq<ArmView>)
    requires
        forall|i: int|
            0 <= i < arms.len() ==> plain_guard(env, (#[trigger] arms[i]).when) is Some && plain_guard(
                env,
                arms[i].when,
            ) != Some(ValueView::Bool(true)),
    ensures
        eval_op(o, env, salt, OpView::Cond { cond: arms }) == (Outcome { env, result: Ok(ValueView::Null) }),
{
    reveal_with_fuel(eval_op, 3);
    lemma_cond_skips(o, env, salt, arms, 0, arms.len() as int);
}

proof fn lemma_cond_skips(o: Oracle, env: Env, salt: Seq<char>, arms: Seq<ArmView>, from: int, k: int)
    requires
        0 <= from <= k <= arms.len(),
        forall|i: int|
            from <= i < k ==> plain_guard(env, (#[trigger] arms[i]).when) is Some && plain_guard(
                env,
                arms[i].when,
            ) != Some(ValueView::Bool(true)),
    ensures
        eval_cond(o, env, salt, arms, from) == eval_cond(o, env, salt, arms, k),
    decreases k - from,
{
    reveal_with_fuel(eval_cond, 2);
    reveal_with_fuel(eval_node, 3);
    reveal_with_fuel(eval_op, 2);
    if from < k {
        let guard = arms[from].when;
        assert(plain_guard(env, guard) is Some);
        assert(eval_node(o, env, salt, guard) == (Outcome { env, result: Ok(plain_guard(env, guard)->Some_0) }));
        lemma_cond_skips(o, env, salt, arms, from + 1, k);
    }
}

/// The output holds the declared parameters and nothing else: where every
/// parameter could be moved out of the environment, the keys of the output
/// are the parameters.
pub proof fn lemma_outputs_are_params(env: Env, params: Seq<Seq<char>>)
    ensures
        collect(env, params, 0, Map::empty()).result matches Ok(out) ==> forall|name: Seq<char>|
            out.contains_key(name) <==> params.contains(name),
{
    lemma_collect_keys(env, params, 0, Map::empty());
    match collect(env, params, 0, Map::empty()).result {
        Ok(out) => {
            assert forall|name: Seq<char>| out.contains_key(name) <==> params.contains(name) by {
                if params.contains(name) {
                    let j = choose|j: int| 0 <= j < params.len() && params[j] == name;
                    assert(params[j] == name);
                }
            }
        },
        Err(_) => {},
    }
}

proof fn lemma_collect_keys(env: Env, params: Seq<Seq<char>>, i: int, done: Env)
    requires
        0 <= i <= params.len(),
    ensures
        collect(env, params, i, done).result matches Ok(out) ==> forall|name: Seq<char>|
            out.contains_key(name) <==> (done.contains_key(name) || exists|j: int|
                i <= j < params.len() && #[trigger] params[j] == name),
    decreases params.len() - i,
{
    if i < params.len() && env.contains_key(params[i]) {
        let next = done.insert(params[i], env[params[i]]);
        lemma_collect_keys(env.remove(params[i]), params, i + 1, next);
        match collect(env, params, i, done).result {
            Ok(out) => {
                assert forall|name: Seq<char>|
                    out.contains_key(name) <==> (done.contains_key(name) || exists|j: int|
                        i <= j < params.len() && #[trigger] params[j] == name) by {
                    if done.contains_key(name) {
                        assert(next.contains_key(name));
                    }
                    if exists|j: int| i <= j < params.len() && #[trigger] params[j] == name {
                        let j = choose|j: int| i <= j < params.len() && #[trigger] params[j] == name;
                        if j == i {
                            assert(next.contains_key(name));
                        } else {
                            assert(i + 1 <= j < params.len() && params[j] == name);
                        }
                    }
                    if out.contains_key(name) && !done.contains_key(name) {
                        if next.contains_key(name) {
                            assert(params[i] == name);
                        } else {
                            let j = choose|j: int| i + 1 <= j < params.len() && #[trigger] params[j] == name;
                            assert(i <= j < params.len() && params[j] == name);
                        }
                    }
                }
            },
            Err(_) => {},
        }
    }
}

/// Overrides replace declared parameters only: where they succeed, the output
/// keeps its keys, holds the override under each overridden key and its own
/// value under every other. The keys of the overrides are distinct, as those
/// of every object are.
pub proof fn lemma_overrides_replace(out: Env, keys: Seq<Seq<char>>, values: Env, i: int)
    requires
        0 <= i <= keys.len(),
        forall|a: int, b: int| 0 <= a < b < keys.len() ==> keys[a] != keys[b],
        apply_overrides(out, keys, values, i) is Ok,
    ensures
        ({
            let done = apply_overrides(out, keys, values, i)->Ok_0;
            &&& done.dom() == out.dom()
            &&& forall|j: int| i <= j < keys.len() ==> out.contains_key(#[trigger] keys[j])
            &&& forall|j: int| i <= j < keys.len() ==> done[#[trigger] keys[j]] == values[keys[j]]
            &&& forall|name: Seq<char>|
                out.contains_key(name) && (forall|j: int| i <= j < keys.len() ==> keys[j] != name)
                    ==> #[trigger] done[name] == out[name]
        }),
    decreases keys.len() - i,
{
    if i < keys.len() {
        let next = out.insert(keys[i], values[keys[i]]);
        lemma_overrides_replace(next, keys, values, i + 1);
        let done = apply_overrides(out, keys, values, i)->Ok_0;
        assert(next.dom() =~= out.dom());
        assert(done[keys[i]] == next[keys[i]]);
    }
}

/// An override whose key is no declared parameter is an error, never passed
/// over: overrides succeed only where the output holds every one of their
/// keys.
pub proof fn lemma_overrides_fail(out: Env, keys: Seq<Seq<char>>, values: Env, i: int)
    requires
        0 <= i <= keys.len(),
    ensures
        apply_overrides(out, keys, values, i) is Ok <==> forall|j: int|
            i <= j < keys.len() ==> out.contains_key(#[trigger] keys[j]),
    decreases keys.len() - i,
{
    if i < keys.len() {
        let next = out.insert(keys[i], values[keys[i]]);
        lemma_overrides_fail(next, keys, values, i + 1);
        if out.contains_key(keys[i]) {
            assert(next.dom() =~= out.dom());
        }
    }
}

/// The kind of a literal is kept through an assignment and a read: what was
/// assigned as an integer is read as that integer, and a float as that float.
pub proof fn lemma_literal_kept(o: Oracle, env: Env, salt: Seq<char>, var: Seq<char>, literal: ValueView)
    ensures
        ({
            let assigned = eval_op(o, env, salt, OpView::SetVar { var, value: Box::new(NodeView::Json(literal)) });
            &&& assigned.result is Ok
            &&& eval_op(o, assigned.env, salt, OpView::Get { var }).result == Ok::<ValueView, EvalErrorView>(literal)
            &&& eval_op(o, assigned.env, salt, OpView::Get { var }).env == assigned.env
        }),
{
    reveal_with_fuel(eval_op, 3);
}

} // verus!

