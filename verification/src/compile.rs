//! The compiler: turns a parse tree into a plan.

use crate::ir::{
    arm_views, lemma_node_views, lemma_op_views, node_views, op_views, ArmView, Conditional, Get,
    Node, NodeView, Op, OpView,
};
use crate::json::{compare_keys, KeyOrder, Number, Value, ValueView};
use crate::eval::{evaluable, evaluable_arms, evaluable_node, evaluable_nodes, evaluable_ops, evaluable_plan};
use crate::parse::{p_program, parse};
use crate::wire::{
    decode_ops, encode_ops, faithful, faithful_arms, faithful_node, faithful_nodes, faithful_ops, lemma_round_trip_ops,
};
use crate::tree::{lemma_pair_views, pair_views, Pair, PairView, Rule};
use crate::{names, Plan, PlanView};
use vstd::prelude::*;

verus! {

/// Why a parse tree could not be compiled.
#[derive(Debug, PartialEq)]
pub enum CompileError {
    /// The tree lacks a node of the rule `expected`; `found` stands in its
    /// place, if anything does.
    Malformed { expected: Rule, found: Option<Rule> },
    /// A rule or an operator that the compiler does not take, with its text.
    Unsupported { rule: Rule, text: String },
    /// A constant where a statement is required.
    UselessConstant,
}

/// The mathematical content of a [`CompileError`].
pub enum CompileErrorView {
    Malformed { expected: Rule, found: Option<Rule> },
    Unsupported { rule: Rule, text: Seq<char> },
    UselessConstant,
}

impl View for CompileError {
    type V = CompileErrorView;

    open spec fn view(&self) -> CompileErrorView {
        match self {
            CompileError::Malformed { expected, found } => CompileErrorView::Malformed {
                expected: *expected,
                found: *found,
            },
            CompileError::Unsupported { rule, text } => CompileErrorView::Unsupported { rule: *rule, text: text@ },
            CompileError::UselessConstant => CompileErrorView::UselessConstant,
        }
    }
}

/// The names assigned so far, each once, in the order in which they were
/// first assigned.
pub type Params = Seq<Seq<char>>;

/// `params` with `name` among them.
pub open spec fn add_param(params: Params, name: Seq<char>) -> Params {
    if params.contains(name) {
        params
    } else {
        params.push(name)
    }
}

/// What serde_json reads in a number literal: its value as an unsigned
/// integer, as a signed integer and as the bits of a float, each where the
/// number has it; `None` where the text is no JSON number.
pub uninterp spec fn json_number(text: Seq<char>) -> Option<(Option<u64>, Option<i64>, Option<u64>)>;

/// The number with the given readings: the unsigned integer where there is
/// one, else the signed integer, else the float. An integer stays an integer,
/// and a decimal becomes a float.
pub open spec fn number_of_parts(parts: Option<(Option<u64>, Option<i64>, Option<u64>)>) -> Option<Number> {
    match parts {
        Some((Some(u), _, _)) => Some(Number::PosInt(u)),
        Some((None, Some(i), _)) => Some(Number::NegInt(i)),
        Some((None, None, Some(bits))) => Some(Number::Float(bits)),
        _ => None,
    }
}

/// The number that a literal stands for.
pub open spec fn literal_number(text: Seq<char>) -> Option<Number> {
    number_of_parts(json_number(text))
}

/// Calls `serde_json::from_str` for a `serde_json::Number`, and then
/// `Number::as_u64`, `Number::as_i64` and `Number::as_f64` on what was read.
/// All four depend on the text alone. `None` stands for a refusal by
/// `from_str`.
#[verifier::external_body]
fn read_number(text: &str) -> (r: Option<(Option<u64>, Option<i64>, Option<u64>)>)
    ensures
        r == json_number(text@),
{
    let n: serde_json::Number = serde_json::from_str(text).ok()?;
    let float = match n.as_f64() {
        Some(f) => Some(f.to_bits()),
        None => None,
    };
    Some((n.as_u64(), n.as_i64(), float))
}

/// The number with the given readings, if there is one.
pub fn number_from_parts(parts: Option<(Option<u64>, Option<i64>, Option<u64>)>) -> (r: Option<Number>)
    ensures
        r == number_of_parts(parts),
{
    match parts {
        Some((Some(u), _, _)) => Some(Number::PosInt(u)),
        Some((None, Some(i), _)) => Some(Number::NegInt(i)),
        Some((None, None, Some(bits))) => Some(Number::Float(bits)),
        Some((None, None, None)) => None,
        None => None,
    }
}

/// The number that the literal `text` stands for, if it is one.
pub fn number_of_literal(text: &str) -> (r: Option<Number>)
    ensures
        r == literal_number(text@),
{
    number_from_parts(read_number(text))
}

/// A compiled node with the names assigned up to it.
pub type Compiled = Result<(NodeView, Params), CompileErrorView>;

/// The error of a missing or misplaced node.
pub open spec fn malformed(expected: Rule, found: Option<Rule>) -> CompileErrorView {
    CompileErrorView::Malformed { expected, found }
}

/// Where the compiler goes on after position `i`: at `next` if that is
/// further on and within the `len` items, at the end otherwise.
pub open spec fn onward(i: int, next: int, len: int) -> int {
    if i < next <= len {
        next
    } else {
        len
    }
}

/// The node that one parse-tree node compiles to.
pub open spec fn compile_node(pair: PairView, params: Params) -> Compiled
    decreases pair, 1nat,
{
    match pair.rule {
        Rule::Number => compile_number_node(pair, params),
        Rule::String => compile_string_node(pair, params),
        Rule::Expr | Rule::Terms => compile_expr_node(pair.inner, params),
        Rule::DyadicExpr => compile_dyadic(pair, params),
        Rule::Ident => Ok((NodeView::Op(OpView::Get { var: pair.text }), params)),
        Rule::Assignment => compile_assignment(pair, params),
        Rule::Conditional => match compile_arms(pair.inner, 0, params, Seq::empty()) {
            Ok((arms, after)) => Ok((NodeView::Op(OpView::Cond { cond: arms }), after)),
            Err(e) => Err(e),
        },
        Rule::Array => compile_array_node(pair, params),
        _ => Err(CompileErrorView::Unsupported { rule: pair.rule, text: pair.text }),
    }
}

/// A number literal: the first node under it holds the text of the number.
pub open spec fn compile_number_node(pair: PairView, params: Params) -> Compiled {
    if pair.inner.len() < 1 {
        Err(malformed(Rule::Int, None))
    } else {
        match literal_number(pair.inner[0].text) {
            Some(n) => Ok((NodeView::Json(ValueView::Number(n)), params)),
            None => Err(malformed(Rule::Number, Some(pair.inner[0].rule))),
        }
    }
}

/// A string literal: the first node under it holds the inner text.
pub open spec fn compile_string_node(pair: PairView, params: Params) -> Compiled {
    if pair.inner.len() < 1 {
        Err(malformed(Rule::StringInner, None))
    } else {
        Ok((NodeView::Json(ValueView::String(pair.inner[0].text)), params))
    }
}

/// An expression: every node under it is compiled in order, and the last is
/// its value.
pub open spec fn compile_expr_node(items: Seq<PairView>, params: Params) -> Compiled
    decreases items, items.len() + 1,
{
    match compile_items(items, 0, params, None) {
        Ok((Some(node), after)) => Ok((node, after)),
        Ok((None, _)) => Err(malformed(Rule::Terms, None)),
        Err(e) => Err(e),
    }
}

/// Compiles `items[i..]` in order and keeps the last node, `last` where there
/// is none.
pub open spec fn compile_items(items: Seq<PairView>, i: int, params: Params, last: Option<NodeView>) -> Result<
    (Option<NodeView>, Params),
    CompileErrorView,
>
    decreases items, items.len() - i,
{
    if i < 0 || i >= items.len() {
        Ok((last, params))
    } else {
        match compile_node(items[i], params) {
            Ok((node, after)) => compile_items(items, i + 1, after, Some(node)),
            Err(e) => Err(e),
        }
    }
}

/// The text of the one operator that is supported.
pub open spec fn times() -> Seq<char> {
    seq!['*']
}

/// A dyadic expression: a left operand, an operator and a right operand. Only
/// `*` is supported, and it gives a product of the two.
pub open spec fn compile_dyadic(pair: PairView, params: Params) -> Compiled
    decreases pair, 0nat,
{
    let inner = pair.inner;
    if inner.len() < 1 {
        Err(malformed(Rule::Terms, None))
    } else {
        match compile_node(inner[0], params) {
            Err(e) => Err(e),
            Ok((lhs, next_params)) => if inner.len() < 2 {
                Err(malformed(Rule::Verb, None))
            } else if inner.len() < 3 {
                Err(malformed(Rule::Expr, None))
            } else {
                match compile_node(inner[2], next_params) {
                    Err(e) => Err(e),
                    Ok((rhs, last_params)) => if inner[1].text == times() {
                        Ok((NodeView::Op(OpView::Product { values: seq![lhs, rhs] }), last_params))
                    } else {
                        Err(CompileErrorView::Unsupported { rule: inner[1].rule, text: inner[1].text })
                    },
                }
            },
        }
    }
}

/// An assignment: an identifier, the assignment operator, a value and, at the
/// end, a semicolon. The name joins the assigned names once the value is
/// compiled.
pub open spec fn compile_assignment(pair: PairView, params: Params) -> Compiled
    decreases pair, 0nat,
{
    let inner = pair.inner;
    let n = inner.len() as int;
    if n < 1 {
        Err(malformed(Rule::Ident, None))
    } else if inner[0].rule != Rule::Ident {
        Err(malformed(Rule::Ident, Some(inner[0].rule)))
    } else if n < 2 {
        Err(malformed(Rule::OpAssign, None))
    } else if inner[1].rule != Rule::OpAssign {
        Err(malformed(Rule::OpAssign, Some(inner[1].rule)))
    } else if n < 3 {
        Err(malformed(Rule::Semi, None))
    } else if inner[n - 1].rule != Rule::Semi {
        Err(malformed(Rule::Semi, Some(inner[n - 1].rule)))
    } else if n < 4 {
        Err(malformed(Rule::Expr, None))
    } else {
        match compile_node(inner[2], params) {
            Ok((value, after)) => Ok(
                (
                    NodeView::Op(OpView::SetVar { var: inner[0].text, value: Box::new(value) }),
                    add_param(after, inner[0].text),
                ),
            ),
            Err(e) => Err(e),
        }
    }
}

/// An array literal: between its two markers, each node is an expression of
/// its own.
pub open spec fn compile_array_node(pair: PairView, params: Params) -> Compiled
    decreases pair, 0nat,
{
    let inner = pair.inner;
    let n = inner.len() as int;
    if n < 1 {
        Err(malformed(Rule::ArrayStart, None))
    } else if inner[0].rule != Rule::ArrayStart {
        Err(malformed(Rule::ArrayStart, Some(inner[0].rule)))
    } else if n < 2 {
        Err(malformed(Rule::ArrayEnd, None))
    } else if inner[n - 1].rule != Rule::ArrayEnd {
        Err(malformed(Rule::ArrayEnd, Some(inner[n - 1].rule)))
    } else {
        match compile_elements(inner, 1, params, Seq::empty()) {
            Ok((values, after)) => Ok((NodeView::Op(OpView::Array { values }), after)),
            Err(e) => Err(e),
        }
    }
}

/// Compiles the elements `items[i..]` of an array but the last item, which is
/// the closing marker, after the elements `done`.
pub open spec fn compile_elements(items: Seq<PairView>, i: int, params: Params, done: Seq<NodeView>) -> Result<
    (Seq<NodeView>, Params),
    CompileErrorView,
>
    decreases items, items.len() - i,
{
    if i < 0 || i >= items.len() - 1 {
        Ok((done, params))
    } else {
        match compile_expr_node(items[i].inner, params) {
            Ok((node, after)) => compile_elements(items, i + 1, after, done.push(node)),
            Err(e) => Err(e),
        }
    }
}

/// A block with the position behind it.
pub type Block = Result<(OpView, int, Params), CompileErrorView>;

/// One statement stands for itself, any other number of statements is a
/// sequence.
pub open spec fn unwrap_single(ops: Seq<OpView>) -> OpView {
    if ops.len() == 1 {
        ops[0]
    } else {
        OpView::Sequence { seq: ops }
    }
}

/// A block: the opening marker at position `i`, then statements up to the
/// closing marker or the end of the items.
pub open spec fn compiled_block(items: Seq<PairView>, i: int, params: Params) -> Block
    decreases items, 2 * (items.len() - i) + 1,
{
    if i < 0 || i >= items.len() {
        Err(malformed(Rule::BlockStart, None))
    } else if items[i].rule != Rule::BlockStart {
        Err(malformed(Rule::BlockStart, Some(items[i].rule)))
    } else {
        match compile_statements(items, i + 1, params, Seq::empty()) {
            Ok((ops, next, after)) => Ok((unwrap_single(ops), next, after)),
            Err(e) => Err(e),
        }
    }
}

/// Compiles the statements `items[i..]` of a block after the statements
/// `done`, and stops behind the closing marker. A constant is no statement.
pub open spec fn compile_statements(items: Seq<PairView>, i: int, params: Params, done: Seq<OpView>) -> Result<
    (Seq<OpView>, int, Params),
    CompileErrorView,
>
    decreases items, 2 * (items.len() - i),
{
    if i < 0 || i >= items.len() {
        Ok((done, items.len() as int, params))
    } else if items[i].rule == Rule::BlockEnd {
        Ok((done, i + 1, params))
    } else {
        match compile_node(items[i], params) {
            Ok((NodeView::Op(op), after)) => compile_statements(items, i + 1, after, done.push(op)),
            Ok((NodeView::Json(_), _)) => Err(CompileErrorView::UselessConstant),
            Err(e) => Err(e),
        }
    }
}

/// Compiles the arms `items[i..]` of a conditional chain after the arms
/// `done`, in source order. An `if` and an `else if` have a guard before
/// their block; the guard of an `else` is the literal `true`.
pub open spec fn compile_arms(items: Seq<PairView>, i: int, params: Params, done: Seq<ArmView>) -> Result<
    (Seq<ArmView>, Params),
    CompileErrorView,
>
    decreases items, 2 * (items.len() - i) + 2,
{
    let len = items.len() as int;
    if i < 0 || i >= len {
        Ok((done, params))
    } else {
        match items[i].rule {
            Rule::OpIf | Rule::OpElseIf => if i + 1 >= len {
                Err(malformed(Rule::Expr, None))
            } else {
                match compile_node(items[i + 1], params) {
                    Err(e) => Err(e),
                    Ok((when, next_params)) => match compiled_block(items, i + 2, next_params) {
                        Err(e) => Err(e),
                        Ok((body, next, last_params)) => compile_arms(
                            items,
                            onward(i, next, len),
                            last_params,
                            done.push(ArmView { when, then_op: body }),
                        ),
                    },
                }
            },
            Rule::OpElse => match compiled_block(items, i + 1, params) {
                Err(e) => Err(e),
                Ok((body, next, last_params)) => compile_arms(
                    items,
                    onward(i, next, len),
                    last_params,
                    done.push(ArmView { when: NodeView::Json(ValueView::Bool(true)), then_op: body }),
                ),
            },
            other => Err(malformed(Rule::OpIf, Some(other))),
        }
    }
}

/// Compiles the top-level statements `pairs[i..]` after the statements
/// `done`. The first `return` or end-of-input marker ends the plan: nothing
/// behind it is compiled.
pub open spec fn compile_program(pairs: Seq<PairView>, i: int, params: Params, done: Seq<OpView>) -> Result<
    PlanView,
    CompileErrorView,
>
    decreases pairs.len() - i,
{
    if i < 0 || i >= pairs.len() {
        Ok(PlanView { ops: done, params })
    } else if pairs[i].rule == Rule::EOI || pairs[i].rule == Rule::Ret {
        Ok(PlanView { ops: done, params })
    } else {
        match compile_node(pairs[i], params) {
            Ok((NodeView::Op(op), after)) => compile_program(pairs, i + 1, after, done.push(op)),
            Ok((NodeView::Json(_), _)) => Err(CompileErrorView::UselessConstant),
            Err(e) => Err(e),
        }
    }
}


/// Whether `r`, with the names `params` behind it, is what `expected` says.
pub open spec fn compiled_as(r: Result<Node, CompileError>, params: Params, expected: Compiled) -> bool {
    match expected {
        Ok((node, after)) => r matches Ok(n) && n@ == node && params == after,
        Err(e) => r matches Err(x) && x@ == e,
    }
}

/// The content of a node that may be missing.
pub open spec fn option_view(node: Option<Node>) -> Option<NodeView> {
    match node {
        Some(n) => Some(n@),
        None => None,
    }
}

/// Puts `name` among `params` unless it is there.
fn add_name(params: &mut Vec<String>, name: String)
    ensures
        names(final(params)@) == add_param(names(old(params)@), name@),
{
    let ghost before = names(params@);
    let mut i: usize = 0;
    while i < params.len()
        invariant
            i <= params.len(),
            before == names(params@),
            forall|j: int| 0 <= j < i ==> before[j] != name@,
        decreases params.len() - i,
    {
        match compare_keys(params[i].as_str(), name.as_str()) {
            KeyOrder::Same => {
                assert(before[i as int] == name@);
                return ;
            },
            _ => {},
        }
        i += 1;
    }
    params.push(name);
    assert(names(params@) =~= before.push(name@));
}

/// Checks that the item at position `at` is there and of the rule `ty`.
fn skip_front(items: &Vec<Pair>, at: usize, ty: Rule) -> (r: Result<(), CompileError>)
    ensures
        match r {
            Ok(_) => at < items.len() && items[at as int].rule == ty,
            Err(e) => if at < items.len() {
                items[at as int].rule != ty && e@ == malformed(ty, Some(items[at as int].rule))
            } else {
                e@ == malformed(ty, None)
            },
        },
{
    if at >= items.len() {
        return Err(CompileError::Malformed { expected: ty, found: None });
    }
    let found = items[at].rule;
    if found == ty {
        Ok(())
    } else {
        Err(CompileError::Malformed { expected: ty, found: Some(found) })
    }
}

/// Checks that the last item is of the rule `ty`, the items before position
/// `front` being taken already.
fn skip_back(items: &Vec<Pair>, front: usize, ty: Rule) -> (r: Result<(), CompileError>)
    ensures
        match r {
            Ok(_) => front < items.len() && items[items.len() - 1].rule == ty,
            Err(e) => if front < items.len() {
                items[items.len() - 1].rule != ty && e@ == malformed(ty, Some(items[items.len() - 1].rule))
            } else {
                e@ == malformed(ty, None)
            },
        },
{
    if front >= items.len() {
        return Err(CompileError::Malformed { expected: ty, found: None });
    }
    let found = items[items.len() - 1].rule;
    if found == ty {
        Ok(())
    } else {
        Err(CompileError::Malformed { expected: ty, found: Some(found) })
    }
}

/// Compiles a number literal.
fn compile_number(pair: &Pair) -> (r: Result<Node, CompileError>)
    ensures
        forall|params: Params| compiled_as(r, params, #[trigger] compile_number_node(pair@, params)),
{
    proof {
        lemma_pair_views(pair.inner@);
    }
    if pair.inner.len() < 1 {
        return Err(CompileError::Malformed { expected: Rule::Int, found: None });
    }
    let literal = &pair.inner[0];
    match number_of_literal(literal.text.as_str()) {
        Some(n) => Ok(Node::Json(Value::Number(n))),
        None => Err(CompileError::Malformed { expected: Rule::Number, found: Some(literal.rule) }),
    }
}

/// Compiles a string literal.
fn compile_string(pair: &Pair) -> (r: Result<Node, CompileError>)
    ensures
        forall|params: Params| compiled_as(r, params, #[trigger] compile_string_node(pair@, params)),
{
    proof {
        lemma_pair_views(pair.inner@);
    }
    if pair.inner.len() < 1 {
        return Err(CompileError::Malformed { expected: Rule::StringInner, found: None });
    }
    Ok(Node::Json(Value::String(pair.inner[0].text.clone())))
}

/// Compiles the nodes of an expression, and hands back the last.
#[verifier::loop_isolation(false)]
fn compile_expr(items: &Vec<Pair>, params: &mut Vec<String>) -> (r: Result<Node, CompileError>)
    ensures
        compiled_as(r, names(final(params)@), compile_expr_node(pair_views(items@), names(old(params)@))),
    decreases items, 0nat,
{
    let ghost iv = pair_views(items@);
    let ghost first_params = names(params@);
    proof {
        lemma_pair_views(items@);
    }
    let mut last: Option<Node> = None;
    let mut i: usize = 0;
    while i < items.len()
        invariant
            i <= items.len(),
            compile_items(iv, 0, first_params, None) == compile_items(iv, i as int, names(params@), option_view(last)),
        decreases items.len() - i,
    {
        match compile_op(&items[i], params) {
            Ok(node) => {
                last = Some(node);
            },
            Err(e) => {
                return Err(e);
            },
        }
        i += 1;
    }
    match last {
        Some(node) => Ok(node),
        None => Err(CompileError::Malformed { expected: Rule::Terms, found: None }),
    }
}

/// Compiles a dyadic expression.
fn compile_dyadic_expr(pair: &Pair, params: &mut Vec<String>) -> (r: Result<Node, CompileError>)
    ensures
        compiled_as(r, names(final(params)@), compile_dyadic(pair@, names(old(params)@))),
    decreases pair, 0nat,
{
    proof {
        lemma_pair_views(pair.inner@);
    }
    let inner = &pair.inner;
    if inner.len() < 1 {
        return Err(CompileError::Malformed { expected: Rule::Terms, found: None });
    }
    let lhs = match compile_op(&inner[0], params) {
        Ok(node) => node,
        Err(e) => {
            return Err(e);
        },
    };
    if inner.len() < 2 {
        return Err(CompileError::Malformed { expected: Rule::Verb, found: None });
    }
    if inner.len() < 3 {
        return Err(CompileError::Malformed { expected: Rule::Expr, found: None });
    }
    let rhs = match compile_op(&inner[2], params) {
        Ok(node) => node,
        Err(e) => {
            return Err(e);
        },
    };
    let verb = &inner[1];
    proof {
        reveal_strlit("*");
        assert("*"@ =~= times());
    }
    match compare_keys(verb.text.as_str(), "*") {
        KeyOrder::Same => {
            let ghost l = lhs@;
            let ghost r = rhs@;
            let mut values: Vec<Node> = Vec::new();
            values.push(lhs);
            values.push(rhs);
            proof {
                lemma_node_views(values@);
                assert(node_views(values@) =~= seq![l, r]);
            }
            Ok(Node::Op(Op::Product { values }))
        },
        _ => Err(CompileError::Unsupported { rule: verb.rule, text: verb.text.clone() }),
    }
}

/// Compiles an assignment, and records the name that it assigns.
fn compile_set(pair: &Pair, params: &mut Vec<String>) -> (r: Result<Node, CompileError>)
    ensures
        compiled_as(r, names(final(params)@), compile_assignment(pair@, names(old(params)@))),
    decreases pair, 0nat,
{
    proof {
        lemma_pair_views(pair.inner@);
    }
    let inner = &pair.inner;
    match skip_front(inner, 0, Rule::Ident) {
        Ok(_) => {},
        Err(e) => {
            return Err(e);
        },
    }
    let var = inner[0].text.clone();
    match skip_front(inner, 1, Rule::OpAssign) {
        Ok(_) => {},
        Err(e) => {
            return Err(e);
        },
    }
    match skip_back(inner, 2, Rule::Semi) {
        Ok(_) => {},
        Err(e) => {
            return Err(e);
        },
    }
    if inner.len() < 4 {
        return Err(CompileError::Malformed { expected: Rule::Expr, found: None });
    }
    let value = match compile_op(&inner[2], params) {
        Ok(node) => node,
        Err(e) => {
            return Err(e);
        },
    };
    add_name(params, var.clone());
    Ok(Node::Op(Op::SetVar { var, value: Box::new(value) }))
}

/// Compiles an array literal.
#[verifier::loop_isolation(false)]
fn compile_array(pair: &Pair, params: &mut Vec<String>) -> (r: Result<Node, CompileError>)
    ensures
        compiled_as(r, names(final(params)@), compile_array_node(pair@, names(old(params)@))),
    decreases pair, 0nat,
{
    let ghost iv = pair_views(pair.inner@);
    let ghost first_params = names(params@);
    proof {
        lemma_pair_views(pair.inner@);
    }
    let inner = &pair.inner;
    match skip_front(inner, 0, Rule::ArrayStart) {
        Ok(_) => {},
        Err(e) => {
            return Err(e);
        },
    }
    match skip_back(inner, 1, Rule::ArrayEnd) {
        Ok(_) => {},
        Err(e) => {
            return Err(e);
        },
    }
    let mut values: Vec<Node> = Vec::new();
    let mut i: usize = 1;
    while i < inner.len() - 1
        invariant
            1 <= i <= inner.len() - 1,
            compile_elements(iv, 1, first_params, Seq::empty()) == compile_elements(
                iv,
                i as int,
                names(params@),
                node_views(values@),
            ),
        decreases inner.len() - i,
    {
        let ghost before = values@;
        match compile_expr(&inner[i].inner, params) {
            Ok(node) => {
                values.push(node);
                assert(values@.drop_last() =~= before);
            },
            Err(e) => {
                return Err(e);
            },
        }
        i += 1;
    }
    Ok(Node::Op(Op::Array { values }))
}

/// Whether `r`, with the names `params` behind it, is what `expected` says.
pub open spec fn block_as(r: Result<(Op, usize), CompileError>, params: Params, expected: Block) -> bool {
    match expected {
        Ok((body, next, after)) => r matches Ok(found) && found.0@ == body && found.1 == next && params == after,
        Err(e) => r matches Err(x) && x@ == e,
    }
}

/// Compiles the block that begins at position `start` of `items`, and hands
/// back the position behind it.
#[verifier::loop_isolation(false)]
fn compile_block(items: &Vec<Pair>, start: usize, params: &mut Vec<String>) -> (r: Result<
    (Op, usize),
    CompileError,
>)
    ensures
        block_as(r, names(final(params)@), compiled_block(pair_views(items@), start as int, names(old(params)@))),
        r matches Ok(found) ==> start < found.1 <= items.len(),
    decreases items, 0nat,
{
    let ghost iv = pair_views(items@);
    let ghost first_params = names(params@);
    proof {
        lemma_pair_views(items@);
    }
    match skip_front(items, start, Rule::BlockStart) {
        Ok(_) => {},
        Err(e) => {
            return Err(e);
        },
    }
    let mut ops: Vec<Op> = Vec::new();
    let mut i: usize = start + 1;
    let mut closed = false;
    while i < items.len() && !closed
        invariant
            start < i <= items.len(),
            !closed ==> compile_statements(iv, start + 1, first_params, Seq::empty()) == compile_statements(
                iv,
                i as int,
                names(params@),
                op_views(ops@),
            ),
            closed ==> compile_statements(iv, start + 1, first_params, Seq::empty()) == Ok::<
                (Seq<OpView>, int, Params),
                CompileErrorView,
            >((op_views(ops@), i as int, names(params@))),
        decreases items.len() - i + (if closed { 0int } else { 1int }),
    {
        if items[i].rule == Rule::BlockEnd {
            closed = true;
        } else {
            let ghost before = ops@;
            match compile_op(&items[i], params) {
                Ok(Node::Op(op)) => {
                    ops.push(op);
                    assert(ops@.drop_last() =~= before);
                },
                Ok(Node::Json(_)) => {
                    return Err(CompileError::UselessConstant);
                },
                Err(e) => {
                    return Err(e);
                },
            }
        }
        i += 1;
    }
    proof {
        lemma_op_views(ops@);
    }
    if ops.len() == 1 {
        Ok((ops.remove(0), i))
    } else {
        Ok((Op::Sequence { seq: ops }, i))
    }
}

/// Compiles a conditional chain into one operation whose arms are in source
/// order.
#[verifier::loop_isolation(false)]
fn compile_conditional(pair: &Pair, params: &mut Vec<String>) -> (r: Result<Node, CompileError>)
    ensures
        match compile_arms(pair_views(pair.inner@), 0, names(old(params)@), Seq::empty()) {
            Ok((arms, after)) => r matches Ok(n) && n@ == NodeView::Op(OpView::Cond { cond: arms }) && names(
                final(params)@,
            ) == after,
            Err(e) => r matches Err(x) && x@ == e,
        },
    decreases pair, 0nat,
{
    let ghost iv = pair_views(pair.inner@);
    let ghost first_params = names(params@);
    proof {
        lemma_pair_views(pair.inner@);
    }
    let inner = &pair.inner;
    let mut conds: Vec<Conditional> = Vec::new();
    let mut i: usize = 0;
    while i < inner.len()
        invariant
            i <= inner.len(),
            compile_arms(iv, 0, first_params, Seq::empty()) == compile_arms(iv, i as int, names(params@), arm_views(conds@)),
        decreases inner.len() - i,
    {
        let ghost before = conds@;
        let ghost loop_params = names(params@);
        let rule = inner[i].rule;
        let is_else = match rule {
            Rule::OpIf => false,
            Rule::OpElseIf => false,
            Rule::OpElse => true,
            other => {
                return Err(CompileError::Malformed { expected: Rule::OpIf, found: Some(other) });
            },
        };
        let when;
        let at;
        if is_else {
            when = crate::ir::bool_true();
            at = i + 1;
        } else {
            if i + 1 >= inner.len() {
                return Err(CompileError::Malformed { expected: Rule::Expr, found: None });
            }
            when = match compile_op(&inner[i + 1], params) {
                Ok(node) => node,
                Err(e) => {
                    return Err(e);
                },
            };
            at = i + 2;
        }
        let (body, next) = match compile_block(inner, at, params) {
            Ok(found) => found,
            Err(e) => {
                return Err(e);
            },
        };
        let ghost arm = ArmView { when: when@, then_op: body@ };
        let ghost last_params = names(params@);
        conds.push(Conditional { when, then_op: body });
        proof {
            assert(conds@.drop_last() =~= before);
            assert(conds@.last()@ == arm);
            assert(arm_views(conds@) == arm_views(conds@.drop_last()).push(conds@.last()@));
            assert(arm_views(conds@) == arm_views(before).push(arm));
            assert(onward(i as int, next as int, iv.len() as int) == next);
            assert(compile_arms(iv, i as int, loop_params, arm_views(before)) == compile_arms(
                iv,
                next as int,
                last_params,
                arm_views(before).push(arm),
            ));
        }
        i = next;
    }
    Ok(Node::Op(Op::Cond { cond: conds }))
}

/// Compiles one node of a parse tree. Names that the node assigns join
/// `params`.
pub fn compile_op(pair: &Pair, params: &mut Vec<String>) -> (r: Result<Node, CompileError>)
    ensures
        compiled_as(r, names(final(params)@), compile_node(pair@, names(old(params)@))),
    decreases pair, 1nat,
{
    match pair.rule {
        Rule::Number => compile_number(pair),
        Rule::String => compile_string(pair),
        Rule::Expr => compile_expr(&pair.inner, params),
        Rule::Terms => compile_expr(&pair.inner, params),
        Rule::DyadicExpr => compile_dyadic_expr(pair, params),
        Rule::Ident => Ok(Node::Op(Op::Get(Get { var: pair.text.clone() }))),
        Rule::Assignment => compile_set(pair, params),
        Rule::Conditional => compile_conditional(pair, params),
        Rule::Array => compile_array(pair, params),
        rule => Err(CompileError::Unsupported { rule, text: pair.text.clone() }),
    }
}

/// Compiles the top-level nodes of a parse tree into a plan. Compilation
/// stops at the first `return` or end-of-input marker.
#[verifier::loop_isolation(false)]
pub fn compile_pairs(pairs: &Vec<Pair>) -> (r: Result<Plan, CompileError>)
    ensures
        match compile_program(pair_views(pairs@), 0, Seq::empty(), Seq::empty()) {
            Ok(plan) => r matches Ok(p) && p@ == plan,
            Err(e) => r matches Err(x) && x@ == e,
        },
        r matches Ok(p) ==> evaluable_plan(p@) && distinct(p@.params),
{
    let ghost iv = pair_views(pairs@);
    proof {
        lemma_pair_views(pairs@);
        lemma_compiled_program_evaluable(pair_views(pairs@), 0, Seq::empty(), Seq::empty());
        lemma_compiled_params_distinct(pair_views(pairs@), 0, Seq::empty(), Seq::empty());
    }
    let mut params: Vec<String> = Vec::new();
    let mut ops: Vec<Op> = Vec::new();
    assert(names(params@) =~= Seq::<Seq<char>>::empty());
    let mut i: usize = 0;
    while i < pairs.len()
        invariant
            i <= pairs.len(),
            compile_program(iv, 0, Seq::empty(), Seq::empty()) == compile_program(
                iv,
                i as int,
                names(params@),
                op_views(ops@),
            ),
        decreases pairs.len() - i,
    {
        let rule = pairs[i].rule;
        if rule == Rule::EOI || rule == Rule::Ret {
            return Ok(Plan { ops, params });
        }
        let ghost before = ops@;
        match compile_op(&pairs[i], &mut params) {
            Ok(Node::Op(op)) => {
                ops.push(op);
                assert(ops@.drop_last() =~= before);
            },
            Ok(Node::Json(_)) => {
                return Err(CompileError::UselessConstant);
            },
            Err(e) => {
                return Err(e);
            },
        }
        i += 1;
    }
    Ok(Plan { ops, params })
}


proof fn lemma_push_ops(ops: Seq<OpView>, op: OpView)
    ensures
        evaluable_ops(ops.push(op)) == (evaluable_ops(ops) && evaluable(op)),
{
    assert(ops.push(op).drop_last() =~= ops);
}

proof fn lemma_push_nodes(nodes: Seq<NodeView>, node: NodeView)
    ensures
        evaluable_nodes(nodes.push(node)) == (evaluable_nodes(nodes) && evaluable_node(node)),
{
    assert(nodes.push(node).drop_last() =~= nodes);
}

proof fn lemma_push_arms(arms: Seq<ArmView>, arm: ArmView)
    ensures
        evaluable_arms(arms.push(arm)) == (evaluable_arms(arms) && evaluable_node(arm.when) && evaluable(
            arm.then_op,
        )),
{
    assert(arms.push(arm).drop_last() =~= arms);
}

/// What the compiler yields, the evaluator accepts: no reserved operation
/// comes out of a parse tree.
pub proof fn lemma_compiled_node_evaluable(pair: PairView, params: Params)
    ensures
        compile_node(pair, params) matches Ok(found) ==> evaluable_node(found.0),
    decreases pair, 1nat,
{
    match pair.rule {
        Rule::Expr | Rule::Terms => {
            lemma_compiled_items_evaluable(pair.inner, 0, params, None);
        },
        Rule::DyadicExpr => {
            let inner = pair.inner;
            if inner.len() >= 1 {
                lemma_compiled_node_evaluable(inner[0], params);
                match compile_node(inner[0], params) {
                    Ok((lhs, next_params)) => {
                        if inner.len() >= 3 {
                            lemma_compiled_node_evaluable(inner[2], next_params);
                            match compile_node(inner[2], next_params) {
                                Ok((rhs, last_params)) => {
                                    lemma_push_nodes(Seq::empty(), lhs);
                                    lemma_push_nodes(Seq::empty().push(lhs), rhs);
                                    assert(seq![lhs, rhs] =~= Seq::empty().push(lhs).push(rhs));
                                },
                                Err(_) => {},
                            }
                        }
                    },
                    Err(_) => {},
                }
            }
        },
        Rule::Assignment => {
            let inner = pair.inner;
            if inner.len() >= 4 {
                lemma_compiled_node_evaluable(inner[2], params);
            }
        },
        Rule::Conditional => {
            lemma_compiled_arms_evaluable(pair.inner, 0, params, Seq::empty());
        },
        Rule::Array => {
            let inner = pair.inner;
            if inner.len() >= 2 {
                lemma_compiled_elements_evaluable(inner, 1, params, Seq::empty());
            }
        },
        _ => {},
    }
}

proof fn lemma_compiled_items_evaluable(items: Seq<PairView>, i: int, params: Params, last: Option<NodeView>)
    requires
        last matches Some(node) ==> evaluable_node(node),
    ensures
        compile_items(items, i, params, last) matches Ok(found) ==> (found.0 matches Some(node)
            ==> evaluable_node(node)),
    decreases items, items.len() - i,
{
    if 0 <= i < items.len() {
        lemma_compiled_node_evaluable(items[i], params);
        match compile_node(items[i], params) {
            Ok((node, after)) => {
                lemma_compiled_items_evaluable(items, i + 1, after, Some(node));
            },
            Err(_) => {},
        }
    }
}

proof fn lemma_compiled_elements_evaluable(items: Seq<PairView>, i: int, params: Params, done: Seq<NodeView>)
    requires
        evaluable_nodes(done),
    ensures
        compile_elements(items, i, params, done) matches Ok(found) ==> evaluable_nodes(found.0),
    decreases items, items.len() - i,
{
    if 0 <= i < items.len() - 1 {
        lemma_compiled_items_evaluable(items[i].inner, 0, params, None);
        match compile_expr_node(items[i].inner, params) {
            Ok((node, after)) => {
                lemma_push_nodes(done, node);
                lemma_compiled_elements_evaluable(items, i + 1, after, done.push(node));
            },
            Err(_) => {},
        }
    }
}

proof fn lemma_compiled_statements_evaluable(items: Seq<PairView>, i: int, params: Params, done: Seq<OpView>)
    requires
        evaluable_ops(done),
    ensures
        compile_statements(items, i, params, done) matches Ok(found) ==> evaluable_ops(found.0),
    decreases items, 2 * (items.len() - i),
{
    if 0 <= i < items.len() && items[i].rule != Rule::BlockEnd {
        lemma_compiled_node_evaluable(items[i], params);
        match compile_node(items[i], params) {
            Ok((NodeView::Op(op), after)) => {
                lemma_push_ops(done, op);
                lemma_compiled_statements_evaluable(items, i + 1, after, done.push(op));
            },
            _ => {},
        }
    }
}

proof fn lemma_compiled_block_evaluable(items: Seq<PairView>, i: int, params: Params)
    ensures
        compiled_block(items, i, params) matches Ok(found) ==> evaluable(found.0),
    decreases items, 2 * (items.len() - i) + 1,
{
    if 0 <= i < items.len() && items[i].rule == Rule::BlockStart {
        lemma_compiled_statements_evaluable(items, i + 1, params, Seq::empty());
        match compile_statements(items, i + 1, params, Seq::empty()) {
            Ok((ops, next, after)) => {
                if ops.len() == 1 {
                    assert(ops.last() == ops[0]);
                }
            },
            Err(_) => {},
        }
    }
}

proof fn lemma_compiled_arms_evaluable(items: Seq<PairView>, i: int, params: Params, done: Seq<ArmView>)
    requires
        evaluable_arms(done),
    ensures
        compile_arms(items, i, params, done) matches Ok(found) ==> evaluable_arms(found.0),
    decreases items, 2 * (items.len() - i) + 2,
{
    let len = items.len() as int;
    if 0 <= i < len {
        match items[i].rule {
            Rule::OpIf | Rule::OpElseIf => {
                if i + 1 < len {
                    lemma_compiled_node_evaluable(items[i + 1], params);
                    match compile_node(items[i + 1], params) {
                        Ok((when, next_params)) => {
                            lemma_compiled_block_evaluable(items, i + 2, next_params);
                            match compiled_block(items, i + 2, next_params) {
                                Ok((body, next, last_params)) => {
                                    let arm = ArmView { when, then_op: body };
                                    lemma_push_arms(done, arm);
                                    lemma_compiled_arms_evaluable(items, onward(i, next, len), last_params, done.push(arm));
                                },
                                Err(_) => {},
                            }
                        },
                        Err(_) => {},
                    }
                }
            },
            Rule::OpElse => {
                lemma_compiled_block_evaluable(items, i + 1, params);
                match compiled_block(items, i + 1, params) {
                    Ok((body, next, last_params)) => {
                        let arm = ArmView { when: NodeView::Json(ValueView::Bool(true)), then_op: body };
                        lemma_push_arms(done, arm);
                        lemma_compiled_arms_evaluable(items, onward(i, next, len), last_params, done.push(arm));
                    },
                    Err(_) => {},
                }
            },
            _ => {},
        }
    }
}

/// The plan that the compiler yields, the evaluator accepts.
pub proof fn lemma_compiled_program_evaluable(pairs: Seq<PairView>, i: int, params: Params, done: Seq<OpView>)
    requires
        evaluable_ops(done),
    ensures
        compile_program(pairs, i, params, done) matches Ok(plan) ==> evaluable_plan(plan),
    decreases pairs.len() - i,
{
    if 0 <= i < pairs.len() && !(pairs[i].rule == Rule::EOI || pairs[i].rule == Rule::Ret) {
        lemma_compiled_node_evaluable(pairs[i], params);
        match compile_node(pairs[i], params) {
            Ok((NodeView::Op(op), after)) => {
                lemma_push_ops(done, op);
                lemma_compiled_program_evaluable(pairs, i + 1, after, done.push(op));
            },
            _ => {},
        }
    }
}

proof fn lemma_keep_ops(ops: Seq<OpView>, op: OpView)
    ensures
        faithful_ops(ops.push(op)) == (faithful_ops(ops) && faithful(op)),
{
    assert(ops.push(op).drop_last() =~= ops);
}

proof fn lemma_keep_nodes(nodes: Seq<NodeView>, node: NodeView)
    ensures
        faithful_nodes(nodes.push(node)) == (faithful_nodes(nodes) && faithful_node(node)),
{
    assert(nodes.push(node).drop_last() =~= nodes);
}

proof fn lemma_keep_arms(arms: Seq<ArmView>, arm: ArmView)
    ensures
        faithful_arms(arms.push(arm)) == (faithful_arms(arms) && faithful_node(arm.when) && faithful(
            arm.then_op,
        )),
{
    assert(arms.push(arm).drop_last() =~= arms);
}

/// What the compiler yields is read back as itself from the interchange
/// format: the literal constants that come out of a parse tree are numbers,
/// strings and `true`, none of which reads as an operation.
pub proof fn lemma_compiled_node_faithful(pair: PairView, params: Params)
    ensures
        compile_node(pair, params) matches Ok(found) ==> faithful_node(found.0),
    decreases pair, 1nat,
{
    match pair.rule {
        Rule::Expr | Rule::Terms => {
            lemma_compiled_items_faithful(pair.inner, 0, params, None);
        },
        Rule::DyadicExpr => {
            let inner = pair.inner;
            if inner.len() >= 1 {
                lemma_compiled_node_faithful(inner[0], params);
                match compile_node(inner[0], params) {
                    Ok((lhs, next_params)) => {
                        if inner.len() >= 3 {
                            lemma_compiled_node_faithful(inner[2], next_params);
                            match compile_node(inner[2], next_params) {
                                Ok((rhs, last_params)) => {
                                    lemma_keep_nodes(Seq::empty(), lhs);
                                    lemma_keep_nodes(Seq::empty().push(lhs), rhs);
                                    assert(seq![lhs, rhs] =~= Seq::empty().push(lhs).push(rhs));
                                },
                                Err(_) => {},
                            }
                        }
                    },
                    Err(_) => {},
                }
            }
        },
        Rule::Assignment => {
            let inner = pair.inner;
            if inner.len() >= 4 {
                lemma_compiled_node_faithful(inner[2], params);
            }
        },
        Rule::Conditional => {
            lemma_compiled_arms_faithful(pair.inner, 0, params, Seq::empty());
        },
        Rule::Array => {
            let inner = pair.inner;
            if inner.len() >= 2 {
                lemma_compiled_elements_faithful(inner, 1, params, Seq::empty());
            }
        },
        _ => {},
    }
}

proof fn lemma_compiled_items_faithful(items: Seq<PairView>, i: int, params: Params, last: Option<NodeView>)
    requires
        last matches Some(node) ==> faithful_node(node),
    ensures
        compile_items(items, i, params, last) matches Ok(found) ==> (found.0 matches Some(node)
            ==> faithful_node(node)),
    decreases items, items.len() - i,
{
    if 0 <= i < items.len() {
        lemma_compiled_node_faithful(items[i], params);
        match compile_node(items[i], params) {
            Ok((node, after)) => {
                lemma_compiled_items_faithful(items, i + 1, after, Some(node));
            },
            Err(_) => {},
        }
    }
}

proof fn lemma_compiled_elements_faithful(items: Seq<PairView>, i: int, params: Params, done: Seq<NodeView>)
    requires
        faithful_nodes(done),
    ensures
        compile_elements(items, i, params, done) matches Ok(found) ==> faithful_nodes(found.0),
    decreases items, items.len() - i,
{
    if 0 <= i < items.len() - 1 {
        lemma_compiled_items_faithful(items[i].inner, 0, params, None);
        match compile_expr_node(items[i].inner, params) {
            Ok((node, after)) => {
                lemma_keep_nodes(done, node);
                lemma_compiled_elements_faithful(items, i + 1, after, done.push(node));
            },
            Err(_) => {},
        }
    }
}

proof fn lemma_compiled_statements_faithful(items: Seq<PairView>, i: int, params: Params, done: Seq<OpView>)
    requires
        faithful_ops(done),
    ensures
        compile_statements(items, i, params, done) matches Ok(found) ==> faithful_ops(found.0),
    decreases items, 2 * (items.len() - i),
{
    if 0 <= i < items.len() && items[i].rule != Rule::BlockEnd {
        lemma_compiled_node_faithful(items[i], params);
        match compile_node(items[i], params) {
            Ok((NodeView::Op(op), after)) => {
                lemma_keep_ops(done, op);
                lemma_compiled_statements_faithful(items, i + 1, after, done.push(op));
            },
            _ => {},
        }
    }
}

proof fn lemma_compiled_block_faithful(items: Seq<PairView>, i: int, params: Params)
    ensures
        compiled_block(items, i, params) matches Ok(found) ==> faithful(found.0),
    decreases items, 2 * (items.len() - i) + 1,
{
    if 0 <= i < items.len() && items[i].rule == Rule::BlockStart {
        lemma_compiled_statements_faithful(items, i + 1, params, Seq::empty());
        match compile_statements(items, i + 1, params, Seq::empty()) {
            Ok((ops, next, after)) => {
                if ops.len() == 1 {
                    assert(ops.last() == ops[0]);
                }
            },
            Err(_) => {},
        }
    }
}

proof fn lemma_compiled_arms_faithful(items: Seq<PairView>, i: int, params: Params, done: Seq<ArmView>)
    requires
        faithful_arms(done),
    ensures
        compile_arms(items, i, params, done) matches Ok(found) ==> faithful_arms(found.0),
    decreases items, 2 * (items.len() - i) + 2,
{
    let len = items.len() as int;
    if 0 <= i < len {
        match items[i].rule {
            Rule::OpIf | Rule::OpElseIf => {
                if i + 1 < len {
                    lemma_compiled_node_faithful(items[i + 1], params);
                    match compile_node(items[i + 1], params) {
                        Ok((when, next_params)) => {
                            lemma_compiled_block_faithful(items, i + 2, next_params);
                            match compiled_block(items, i + 2, next_params) {
                                Ok((body, next, last_params)) => {
                                    let arm = ArmView { when, then_op: body };
                                    lemma_keep_arms(done, arm);
                                    lemma_compiled_arms_faithful(items, onward(i, next, len), last_params, done.push(arm));
                                },
                                Err(_) => {},
                            }
                        },
                        Err(_) => {},
                    }
                }
            },
            Rule::OpElse => {
                lemma_compiled_block_faithful(items, i + 1, params);
                match compiled_block(items, i + 1, params) {
                    Ok((body, next, last_params)) => {
                        let arm = ArmView { when: NodeView::Json(ValueView::Bool(true)), then_op: body };
                        lemma_keep_arms(done, arm);
                        lemma_compiled_arms_faithful(items, onward(i, next, len), last_params, done.push(arm));
                    },
                    Err(_) => {},
                }
            },
            _ => {},
        }
    }
}

/// The operations of a plan that the compiler yields are written so that
/// they are read back as themselves.
pub proof fn lemma_compiled_program_faithful(pairs: Seq<PairView>, i: int, params: Params, done: Seq<OpView>)
    requires
        faithful_ops(done),
    ensures
        compile_program(pairs, i, params, done) matches Ok(plan) ==> faithful_ops(plan.ops),
    decreases pairs.len() - i,
{
    if 0 <= i < pairs.len() && !(pairs[i].rule == Rule::EOI || pairs[i].rule == Rule::Ret) {
        lemma_compiled_node_faithful(pairs[i], params);
        match compile_node(pairs[i], params) {
            Ok((NodeView::Op(op), after)) => {
                lemma_keep_ops(done, op);
                lemma_compiled_program_faithful(pairs, i + 1, after, done.push(op));
            },
            _ => {},
        }
    }
}

/// Whether no name occurs twice.
pub open spec fn distinct(params: Params) -> bool {
    forall|i: int, j: int| 0 <= i < j < params.len() ==> params[i] != params[j]
}

proof fn lemma_add_param_distinct(params: Params, name: Seq<char>)
    requires
        distinct(params),
    ensures
        distinct(add_param(params, name)),
{
    if !params.contains(name) {
        let more = params.push(name);
        assert forall|i: int, j: int| 0 <= i < j < more.len() implies more[i] != more[j] by {
            if j == params.len() {
                assert(params[i] == more[i]);
            }
        }
    }
}

proof fn lemma_compiled_node_distinct(pair: PairView, params: Params)
    requires
        distinct(params),
    ensures
        compile_node(pair, params) matches Ok(found) ==> distinct(found.1),
    decreases pair, 1nat,
{
    match pair.rule {
        Rule::Expr | Rule::Terms => {
            lemma_compiled_items_distinct(pair.inner, 0, params, None);
        },
        Rule::DyadicExpr => {
            let inner = pair.inner;
            if inner.len() >= 1 {
                lemma_compiled_node_distinct(inner[0], params);
                match compile_node(inner[0], params) {
                    Ok((lhs, after)) => {
                        if inner.len() >= 3 {
                            lemma_compiled_node_distinct(inner[2], after);
                        }
                    },
                    Err(_) => {},
                }
            }
        },
        Rule::Assignment => {
            let inner = pair.inner;
            if inner.len() >= 4 {
                lemma_compiled_node_distinct(inner[2], params);
                match compile_node(inner[2], params) {
                    Ok((value, after)) => {
                        lemma_add_param_distinct(after, inner[0].text);
                    },
                    Err(_) => {},
                }
            }
        },
        Rule::Conditional => {
            lemma_compiled_arms_distinct(pair.inner, 0, params, Seq::empty());
        },
        Rule::Array => {
            let inner = pair.inner;
            if inner.len() >= 2 {
                lemma_compiled_elements_distinct(inner, 1, params, Seq::empty());
            }
        },
        _ => {},
    }
}

proof fn lemma_compiled_items_distinct(items: Seq<PairView>, i: int, params: Params, last: Option<NodeView>)
    requires
        distinct(params),
    ensures
        compile_items(items, i, params, last) matches Ok(found) ==> distinct(found.1),
    decreases items, items.len() - i,
{
    if 0 <= i < items.len() {
        lemma_compiled_node_distinct(items[i], params);
        match compile_node(items[i], params) {
            Ok((node, after)) => {
                lemma_compiled_items_distinct(items, i + 1, after, Some(node));
            },
            Err(_) => {},
        }
    }
}

proof fn lemma_compiled_elements_distinct(items: Seq<PairView>, i: int, params: Params, done: Seq<NodeView>)
    requires
        distinct(params),
    ensures
        compile_elements(items, i, params, done) matches Ok(found) ==> distinct(found.1),
    decreases items, items.len() - i,
{
    if 0 <= i < items.len() - 1 {
        lemma_compiled_items_distinct(items[i].inner, 0, params, None);
        match compile_expr_node(items[i].inner, params) {
            Ok((node, after)) => {
                lemma_compiled_elements_distinct(items, i + 1, after, done.push(node));
            },
            Err(_) => {},
        }
    }
}

proof fn lemma_compiled_statements_distinct(items: Seq<PairView>, i: int, params: Params, done: Seq<OpView>)
    requires
        distinct(params),
    ensures
        compile_statements(items, i, params, done) matches Ok(found) ==> distinct(found.2),
    decreases items, 2 * (items.len() - i),
{
    if 0 <= i < items.len() && items[i].rule != Rule::BlockEnd {
        lemma_compiled_node_distinct(items[i], params);
        match compile_node(items[i], params) {
            Ok((NodeView::Op(op), after)) => {
                lemma_compiled_statements_distinct(items, i + 1, after, done.push(op));
            },
            _ => {},
        }
    }
}

proof fn lemma_compiled_block_distinct(items: Seq<PairView>, i: int, params: Params)
    requires
        distinct(params),
    ensures
        compiled_block(items, i, params) matches Ok(found) ==> distinct(found.2),
    decreases items, 2 * (items.len() - i) + 1,
{
    if 0 <= i < items.len() && items[i].rule == Rule::BlockStart {
        lemma_compiled_statements_distinct(items, i + 1, params, Seq::empty());
    }
}

proof fn lemma_compiled_arms_distinct(items: Seq<PairView>, i: int, params: Params, done: Seq<ArmView>)
    requires
        distinct(params),
    ensures
        compile_arms(items, i, params, done) matches Ok(found) ==> distinct(found.1),
    decreases items, 2 * (items.len() - i) + 2,
{
    let len = items.len() as int;
    if 0 <= i < len {
        match items[i].rule {
            Rule::OpIf | Rule::OpElseIf => {
                if i + 1 < len {
                    lemma_compiled_node_distinct(items[i + 1], params);
                    match compile_node(items[i + 1], params) {
                        Ok((when, after)) => {
                            lemma_compiled_block_distinct(items, i + 2, after);
                            match compiled_block(items, i + 2, after) {
                                Ok((body, next, behind)) => {
                                    let arm = ArmView { when, then_op: body };
                                    lemma_compiled_arms_distinct(items, onward(i, next, len), behind, done.push(arm));
                                },
                                Err(_) => {},
                            }
                        },
                        Err(_) => {},
                    }
                }
            },
            Rule::OpElse => {
                lemma_compiled_block_distinct(items, i + 1, params);
                match compiled_block(items, i + 1, params) {
                    Ok((body, next, behind)) => {
                        let arm = ArmView { when: NodeView::Json(ValueView::Bool(true)), then_op: body };
                        lemma_compiled_arms_distinct(items, onward(i, next, len), behind, done.push(arm));
                    },
                    Err(_) => {},
                }
            },
            _ => {},
        }
    }
}

/// The parameters of a plan that the compiler yields are a set: no name
/// occurs twice among them.
pub proof fn lemma_compiled_params_distinct(pairs: Seq<PairView>, i: int, params: Params, done: Seq<OpView>)
    requires
        distinct(params),
    ensures
        compile_program(pairs, i, params, done) matches Ok(plan) ==> distinct(plan.params),
    decreases pairs.len() - i,
{
    if 0 <= i < pairs.len() && !(pairs[i].rule == Rule::EOI || pairs[i].rule == Rule::Ret) {
        lemma_compiled_node_distinct(pairs[i], params);
        match compile_node(pairs[i], params) {
            Ok((NodeView::Op(op), after)) => {
                lemma_compiled_params_distinct(pairs, i + 1, after, done.push(op));
            },
            _ => {},
        }
    }
}

/// The plan that a source text compiles to: that of its parse tree, where it
/// has one.
pub open spec fn compile_text(src: Seq<char>) -> Result<PlanView, CompileErrorView> {
    match p_program(src) {
        Some(pairs) => compile_program(pairs, 0, Seq::empty(), Seq::empty()),
        None => Err(malformed(Rule::Program, None)),
    }
}

/// Compiling a text, and reading the operations that it compiles to from
/// what they are written as in the interchange format, give the same
/// operations.
pub proof fn lemma_compiled_plan_round_trips(src: Seq<char>)
    ensures
        compile_text(src) matches Ok(plan) ==> decode_ops(encode_ops(plan.ops)) == Some(plan.ops),
{
    match p_program(src) {
        Some(pairs) => {
            lemma_compiled_program_faithful(pairs, 0, Seq::empty(), Seq::empty());
            match compile_program(pairs, 0, Seq::empty(), Seq::empty()) {
                Ok(plan) => {
                    lemma_round_trip_ops(plan.ops);
                },
                Err(_) => {},
            }
        },
        None => {},
    }
}

/// Compiles a source text into a plan.
pub fn compile(src: &str) -> (r: Result<Plan, CompileError>)
    ensures
        match compile_text(src@) {
            Ok(plan) => r matches Ok(p) && p@ == plan,
            Err(e) => r matches Err(x) && x@ == e,
        },
        r matches Ok(p) ==> evaluable_plan(p@) && distinct(p@.params),
{
    match parse(src) {
        Ok(pairs) => compile_pairs(&pairs),
        Err(_) => Err(CompileError::Malformed { expected: Rule::Program, found: None }),
    }
}

} // verus!
