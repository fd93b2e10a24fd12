//! The interchange format: operations as tagged JSON objects.
//!
//! An operation is an object whose field `op` names it; the other fields are
//! those of the operation. A node is an operation where it reads as one, and a
//! literal constant otherwise.

use crate::ir::{
    arm_views, lemma_arm_views, lemma_node_views, lemma_op_views, node_views, op_views, ArmView, Conditional, Get,
    Node, NodeView, Op, OpView,
};
use crate::json::{compare_keys, lemma_views, views, KeyOrder, Number, Object, Value, ValueView};
use vstd::prelude::*;

verus! {

/// The field that names the operation.
pub open spec fn k_op() -> Seq<char> {
    seq!['o', 'p']
}

/// The field of a variable name.
pub open spec fn k_var() -> Seq<char> {
    seq!['v', 'a', 'r']
}

/// The field of the value of an assignment.
pub open spec fn k_value() -> Seq<char> {
    seq!['v', 'a', 'l', 'u', 'e']
}

/// The name of a sequence, and the field of its operations.
pub open spec fn k_seq() -> Seq<char> {
    seq!['s', 'e', 'q']
}

/// The field of the choices of a uniform choice.
pub open spec fn k_choices() -> Seq<char> {
    seq!['c', 'h', 'o', 'i', 'c', 'e', 's']
}

/// The field of the unit of a randomization operator.
pub open spec fn k_unit() -> Seq<char> {
    seq!['u', 'n', 'i', 't']
}

/// The field of the probability of a Bernoulli trial.
pub open spec fn k_p() -> Seq<char> {
    seq!['p']
}

/// The field of the operands of a product, a sum or an array.
pub open spec fn k_values() -> Seq<char> {
    seq!['v', 'a', 'l', 'u', 'e', 's']
}

/// The name of a conditional chain, and the field of its arms.
pub open spec fn k_cond() -> Seq<char> {
    seq!['c', 'o', 'n', 'd']
}

/// The field of the guard of an arm.
pub open spec fn k_if() -> Seq<char> {
    seq!['i', 'f']
}

/// The field of the body of an arm.
pub open spec fn k_then() -> Seq<char> {
    seq!['t', 'h', 'e', 'n']
}

/// The name of an index, and the field of its position.
pub open spec fn k_index() -> Seq<char> {
    seq!['i', 'n', 'd', 'e', 'x']
}

/// The field of the base of an index.
pub open spec fn k_base() -> Seq<char> {
    seq!['b', 'a', 's', 'e']
}

/// The name of an assignment.
pub open spec fn n_set() -> Seq<char> {
    seq!['s', 'e', 't']
}

/// The name of a read.
pub open spec fn n_get() -> Seq<char> {
    seq!['g', 'e', 't']
}

/// The name of a uniform choice.
pub open spec fn n_uniform_choice() -> Seq<char> {
    seq!['u', 'n', 'i', 'f', 'o', 'r', 'm', 'C', 'h', 'o', 'i', 'c', 'e']
}

/// The name of a Bernoulli trial.
pub open spec fn n_bernoulli_trial() -> Seq<char> {
    seq!['b', 'e', 'r', 'n', 'o', 'u', 'l', 'l', 'i', 'T', 'r', 'i', 'a', 'l']
}

/// The name of a product.
pub open spec fn n_product() -> Seq<char> {
    seq!['p', 'r', 'o', 'd', 'u', 'c', 't']
}

/// The name of a sum.
pub open spec fn n_sum() -> Seq<char> {
    seq!['s', 'u', 'm']
}

/// The name of an array.
pub open spec fn n_array() -> Seq<char> {
    seq!['a', 'r', 'r', 'a', 'y']
}

/// An object of one operation: its name under `op`.
pub open spec fn tagged(name: Seq<char>) -> Map<Seq<char>, ValueView> {
    Map::empty().insert(k_op(), ValueView::String(name))
}

/// The JSON value that a node is written as.
pub open spec fn encode_node(node: NodeView) -> ValueView
    decreases node,
{
    match node {
        NodeView::Op(op) => encode_op(op),
        NodeView::Json(value) => value,
    }
}

/// The JSON object that an operation is written as.
pub open spec fn encode_op(op: OpView) -> ValueView
    decreases op,
{
    match op {
        OpView::SetVar { var, value } => ValueView::Object(
            tagged(n_set()).insert(k_var(), ValueView::String(var)).insert(k_value(), encode_node(*value)),
        ),
        OpView::Get { var } => ValueView::Object(tagged(n_get()).insert(k_var(), ValueView::String(var))),
        OpView::Sequence { seq } => ValueView::Object(
            tagged(k_seq()).insert(k_seq(), ValueView::Array(encode_ops(seq))),
        ),
        OpView::UniformChoice { choices, unit } => ValueView::Object(
            tagged(n_uniform_choice()).insert(k_choices(), encode_op(*choices)).insert(k_unit(), encode_op(*unit)),
        ),
        OpView::BernoulliTrial { p, unit } => ValueView::Object(
            tagged(n_bernoulli_trial()).insert(k_p(), ValueView::Number(p)).insert(k_unit(), encode_op(*unit)),
        ),
        OpView::Product { values } => ValueView::Object(
            tagged(n_product()).insert(k_values(), ValueView::Array(encode_nodes(values))),
        ),
        OpView::Sum { values } => ValueView::Object(
            tagged(n_sum()).insert(k_values(), ValueView::Array(encode_nodes(values))),
        ),
        OpView::Array { values } => ValueView::Object(
            tagged(n_array()).insert(k_values(), ValueView::Array(encode_nodes(values))),
        ),
        OpView::Cond { cond } => ValueView::Object(
            tagged(k_cond()).insert(k_cond(), ValueView::Array(encode_arms(cond))),
        ),
        OpView::Index { index, base } => ValueView::Object(
            tagged(k_index()).insert(k_index(), ValueView::String(index)).insert(
                k_base(),
                ValueView::Object(Map::empty().insert(k_var(), ValueView::String(base))),
            ),
        ),
    }
}

/// The JSON values that a sequence of operations is written as.
pub open spec fn encode_ops(ops: Seq<OpView>) -> Seq<ValueView>
    decreases ops,
{
    if ops.len() == 0 {
        Seq::empty()
    } else {
        encode_ops(ops.drop_last()).push(encode_op(ops.last()))
    }
}

/// The JSON values that a sequence of nodes is written as.
pub open spec fn encode_nodes(nodes: Seq<NodeView>) -> Seq<ValueView>
    decreases nodes,
{
    if nodes.len() == 0 {
        Seq::empty()
    } else {
        encode_nodes(nodes.drop_last()).push(encode_node(nodes.last()))
    }
}

/// The JSON object that one arm is written as: its guard under `if`, its body
/// under `then`.
pub open spec fn encode_arm(arm: ArmView) -> ValueView
    decreases arm,
{
    ValueView::Object(Map::empty().insert(k_if(), encode_node(arm.when)).insert(k_then(), encode_op(arm.then_op)))
}

/// The JSON values that the arms of a chain are written as.
pub open spec fn encode_arms(arms: Seq<ArmView>) -> Seq<ValueView>
    decreases arms,
{
    if arms.len() == 0 {
        Seq::empty()
    } else {
        encode_arms(arms.drop_last()).push(encode_arm(arms.last()))
    }
}

/// The text under `key`, if `m` holds one there.
pub open spec fn text_at(m: Map<Seq<char>, ValueView>, key: Seq<char>) -> Option<Seq<char>> {
    if m.contains_key(key) {
        match m[key] {
            ValueView::String(s) => Some(s),
            _ => None,
        }
    } else {
        None
    }
}

/// The items of the array under `key`, if `m` holds one there.
pub open spec fn items_at(m: Map<Seq<char>, ValueView>, key: Seq<char>) -> Option<Seq<ValueView>> {
    if m.contains_key(key) {
        match m[key] {
            ValueView::Array(items) => Some(items),
            _ => None,
        }
    } else {
        None
    }
}

/// The node that a JSON value is read as: an operation where it reads as
/// one, a literal constant otherwise.
pub open spec fn decode_node(value: ValueView) -> NodeView
    decreases value, 1nat,
{
    match decode_op(value) {
        Some(op) => NodeView::Op(op),
        None => NodeView::Json(value),
    }
}

/// The operation that the value under `key` is read as.
pub open spec fn decode_op_at(m: Map<Seq<char>, ValueView>, key: Seq<char>) -> Option<OpView>
    decreases m, 0nat,
{
    if m.dom().finite() && m.contains_key(key) {
        decode_op(m[key])
    } else {
        None
    }
}

/// The operation that a JSON value is read as, if it is one: an object whose
/// field `op` names an operation and which holds the fields of that
/// operation, each of the right kind. Other fields are passed over.
pub open spec fn decode_op(value: ValueView) -> Option<OpView>
    decreases value, 0nat,
{
    match value {
        ValueView::Object(m) => if !m.dom().finite() {
            None
        } else {
            match text_at(m, k_op()) {
                None => None,
                Some(name) => if name == n_set() {
                    match text_at(m, k_var()) {
                        Some(var) => if m.contains_key(k_value()) {
                            Some(OpView::SetVar { var, value: Box::new(decode_node(m[k_value()])) })
                        } else {
                            None
                        },
                        None => None,
                    }
                } else if name == n_get() {
                    match text_at(m, k_var()) {
                        Some(var) => Some(OpView::Get { var }),
                        None => None,
                    }
                } else if name == k_seq() {
                    match items_at(m, k_seq()) {
                        Some(items) => match decode_ops(items) {
                            Some(seq) => Some(OpView::Sequence { seq }),
                            None => None,
                        },
                        None => None,
                    }
                } else if name == n_uniform_choice() {
                    match (decode_op_at(m, k_choices()), decode_op_at(m, k_unit())) {
                        (Some(choices), Some(unit)) => Some(
                            OpView::UniformChoice { choices: Box::new(choices), unit: Box::new(unit) },
                        ),
                        _ => None,
                    }
                } else if name == n_bernoulli_trial() {
                    if m.contains_key(k_p()) {
                        match (m[k_p()], decode_op_at(m, k_unit())) {
                            (ValueView::Number(p), Some(unit)) => Some(
                                OpView::BernoulliTrial { p, unit: Box::new(unit) },
                            ),
                            _ => None,
                        }
                    } else {
                        None
                    }
                } else if name == n_product() {
                    match items_at(m, k_values()) {
                        Some(items) => Some(OpView::Product { values: decode_nodes(items) }),
                        None => None,
                    }
                } else if name == n_sum() {
                    match items_at(m, k_values()) {
                        Some(items) => Some(OpView::Sum { values: decode_nodes(items) }),
                        None => None,
                    }
                } else if name == n_array() {
                    match items_at(m, k_values()) {
                        Some(items) => Some(OpView::Array { values: decode_nodes(items) }),
                        None => None,
                    }
                } else if name == k_cond() {
                    match items_at(m, k_cond()) {
                        Some(items) => match decode_arms(items) {
                            Some(cond) => Some(OpView::Cond { cond }),
                            None => None,
                        },
                        None => None,
                    }
                } else if name == k_index() {
                    match (text_at(m, k_index()), m.contains_key(k_base())) {
                        (Some(index), true) => match m[k_base()] {
                            ValueView::Object(b) => match text_at(b, k_var()) {
                                Some(base) => Some(OpView::Index { index, base }),
                                None => None,
                            },
                            _ => None,
                        },
                        _ => None,
                    }
                } else {
                    None
                },
            }
        },
        _ => None,
    }
}

/// The operations that JSON values are read as, if each of them is one.
pub open spec fn decode_ops(items: Seq<ValueView>) -> Option<Seq<OpView>>
    decreases items, 2nat,
{
    if items.len() == 0 {
        Some(Seq::empty())
    } else {
        match (decode_ops(items.drop_last()), decode_op(items.last())) {
            (Some(front), Some(op)) => Some(front.push(op)),
            _ => None,
        }
    }
}

/// The nodes that JSON values are read as.
pub open spec fn decode_nodes(items: Seq<ValueView>) -> Seq<NodeView>
    decreases items, 2nat,
{
    if items.len() == 0 {
        Seq::empty()
    } else {
        decode_nodes(items.drop_last()).push(decode_node(items.last()))
    }
}

/// The arm that a JSON value is read as, if it is one: an object with a guard
/// under `if` and an operation under `then`.
pub open spec fn decode_arm(value: ValueView) -> Option<ArmView>
    decreases value, 2nat,
{
    match value {
        ValueView::Object(m) => if m.dom().finite() && m.contains_key(k_if()) {
            match decode_op_at(m, k_then()) {
                Some(then_op) => Some(ArmView { when: decode_node(m[k_if()]), then_op }),
                None => None,
            }
        } else {
            None
        },
        _ => None,
    }
}

/// The arms that JSON values are read as, if each of them is one.
pub open spec fn decode_arms(items: Seq<ValueView>) -> Option<Seq<ArmView>>
    decreases items, 3nat,
{
    if items.len() == 0 {
        Some(Seq::empty())
    } else {
        match (decode_arms(items.drop_last()), decode_arm(items.last())) {
            (Some(front), Some(arm)) => Some(front.push(arm)),
            _ => None,
        }
    }
}


/// Whether a node is written so that it is read back as itself: no literal
/// constant in it reads as an operation.
pub open spec fn faithful_node(node: NodeView) -> bool
    decreases node,
{
    match node {
        NodeView::Op(op) => faithful(op),
        NodeView::Json(value) => decode_op(value) is None,
    }
}

/// Whether an operation is written so that it is read back as itself: no
/// literal constant in it reads as an operation.
pub open spec fn faithful(op: OpView) -> bool
    decreases op,
{
    match op {
        OpView::SetVar { var, value } => faithful_node(*value),
        OpView::Get { var } => true,
        OpView::Sequence { seq } => faithful_ops(seq),
        OpView::UniformChoice { choices, unit } => faithful(*choices) && faithful(*unit),
        OpView::BernoulliTrial { p, unit } => faithful(*unit),
        OpView::Product { values } => faithful_nodes(values),
        OpView::Sum { values } => faithful_nodes(values),
        OpView::Array { values } => faithful_nodes(values),
        OpView::Cond { cond } => faithful_arms(cond),
        OpView::Index { index, base } => true,
    }
}

/// Whether each operation of `ops` is written so that it is read back as
/// itself.
pub open spec fn faithful_ops(ops: Seq<OpView>) -> bool
    decreases ops,
{
    if ops.len() == 0 {
        true
    } else {
        faithful_ops(ops.drop_last()) && faithful(ops.last())
    }
}

/// Whether each node of `nodes` is written so that it is read back as itself.
pub open spec fn faithful_nodes(nodes: Seq<NodeView>) -> bool
    decreases nodes,
{
    if nodes.len() == 0 {
        true
    } else {
        faithful_nodes(nodes.drop_last()) && faithful_node(nodes.last())
    }
}

/// Whether the guard and the body of each arm of `arms` are written so that
/// they are read back as themselves.
pub open spec fn faithful_arms(arms: Seq<ArmView>) -> bool
    decreases arms,
{
    if arms.len() == 0 {
        true
    } else {
        faithful_arms(arms.drop_last()) && faithful_node(arms.last().when) && faithful(arms.last().then_op)
    }
}

/// The field names and the operation names differ from each other where the
/// format tells them apart.
pub proof fn lemma_names()
    ensures
        k_op() != k_var(),
        k_op() != k_value(),
        k_op() != k_seq(),
        k_op() != k_choices(),
        k_op() != k_unit(),
        k_op() != k_p(),
        k_op() != k_values(),
        k_op() != k_cond(),
        k_op() != k_if(),
        k_op() != k_then(),
        k_op() != k_index(),
        k_op() != k_base(),
        k_var() != k_value(),
        k_choices() != k_unit(),
        k_p() != k_unit(),
        k_index() != k_base(),
        k_if() != k_then(),
        n_set() != n_get(),
        n_set() != k_seq(),
        n_set() != n_uniform_choice(),
        n_set() != n_bernoulli_trial(),
        n_set() != n_product(),
        n_set() != n_sum(),
        n_set() != n_array(),
        n_set() != k_cond(),
        n_set() != k_index(),
        n_get() != k_seq(),
        n_get() != n_uniform_choice(),
        n_get() != n_bernoulli_trial(),
        n_get() != n_product(),
        n_get() != n_sum(),
        n_get() != n_array(),
        n_get() != k_cond(),
        n_get() != k_index(),
        k_seq() != n_uniform_choice(),
        k_seq() != n_bernoulli_trial(),
        k_seq() != n_product(),
        k_seq() != n_sum(),
        k_seq() != n_array(),
        k_seq() != k_cond(),
        k_seq() != k_index(),
        n_uniform_choice() != n_bernoulli_trial(),
        n_uniform_choice() != n_product(),
        n_uniform_choice() != n_sum(),
        n_uniform_choice() != n_array(),
        n_uniform_choice() != k_cond(),
        n_uniform_choice() != k_index(),
        n_bernoulli_trial() != n_product(),
        n_bernoulli_trial() != n_sum(),
        n_bernoulli_trial() != n_array(),
        n_bernoulli_trial() != k_cond(),
        n_bernoulli_trial() != k_index(),
        n_product() != n_sum(),
        n_product() != n_array(),
        n_product() != k_cond(),
        n_product() != k_index(),
        n_sum() != n_array(),
        n_sum() != k_cond(),
        n_sum() != k_index(),
        n_array() != k_cond(),
        n_array() != k_index(),
        k_cond() != k_index(),
{
    assert(k_op().len() == 2);
    assert(k_var().len() == 3 && k_var()[0] == 'v');
    assert(k_value().len() == 5 && k_value()[0] == 'v');
    assert(k_seq().len() == 3 && k_seq()[0] == 's' && k_seq()[2] == 'q');
    assert(k_choices().len() == 7);
    assert(k_unit().len() == 4 && k_unit()[0] == 'u');
    assert(k_p().len() == 1);
    assert(k_values().len() == 6);
    assert(k_cond().len() == 4 && k_cond()[0] == 'c');
    assert(k_if().len() == 2 && k_if()[0] == 'i');
    assert(k_op()[0] == 'o');
    assert(k_then().len() == 4 && k_then()[0] == 't');
    assert(k_index().len() == 5 && k_index()[0] == 'i');
    assert(k_base().len() == 4 && k_base()[0] == 'b');
    assert(n_set().len() == 3 && n_set()[0] == 's' && n_set()[2] == 't' && n_set()[1] == 'e');
    assert(n_get().len() == 3 && n_get()[0] == 'g');
    assert(n_uniform_choice().len() == 13);
    assert(n_bernoulli_trial().len() == 14);
    assert(n_product().len() == 7);
    assert(n_sum().len() == 3 && n_sum()[0] == 's' && n_sum()[1] == 'u');
    assert(n_array().len() == 5 && n_array()[0] == 'a');
    assert(k_seq()[1] == 'e');
}

/// What was written is read back: an operation in which no literal constant
/// reads as an operation is read as itself from what it is written as.
pub proof fn lemma_round_trip(op: OpView)
    requires
        faithful(op),
    ensures
        decode_op(encode_op(op)) == Some(op),
    decreases op, 0nat,
{
    lemma_names();
    match op {
        OpView::SetVar { var, value } => {
            lemma_round_trip_node(*value);
        },
        OpView::Get { var } => {},
        OpView::Sequence { seq } => {
            lemma_round_trip_ops(seq);
        },
        OpView::UniformChoice { choices, unit } => {
            lemma_round_trip(*choices);
            lemma_round_trip(*unit);
        },
        OpView::BernoulliTrial { p, unit } => {
            lemma_round_trip(*unit);
        },
        OpView::Product { values } => {
            lemma_round_trip_nodes(values);
        },
        OpView::Sum { values } => {
            lemma_round_trip_nodes(values);
        },
        OpView::Array { values } => {
            lemma_round_trip_nodes(values);
        },
        OpView::Cond { cond } => {
            lemma_round_trip_arms(cond);
        },
        OpView::Index { index, base } => {},
    }
}

/// A node in which no literal constant reads as an operation is read as
/// itself from what it is written as.
pub proof fn lemma_round_trip_node(node: NodeView)
    requires
        faithful_node(node),
    ensures
        decode_node(encode_node(node)) == node,
    decreases node, 1nat,
{
    match node {
        NodeView::Op(op) => {
            lemma_round_trip(op);
        },
        NodeView::Json(_) => {},
    }
}

/// Operations in which no literal constant reads as an operation are read
/// as themselves from what they are written as.
pub proof fn lemma_round_trip_ops(ops: Seq<OpView>)
    requires
        faithful_ops(ops),
    ensures
        decode_ops(encode_ops(ops)) == Some(ops),
    decreases ops, 1nat,
{
    if ops.len() > 0 {
        let front = ops.drop_last();
        lemma_round_trip_ops(front);
        lemma_round_trip(ops.last());
        let written = encode_ops(ops);
        assert(written == encode_ops(front).push(encode_op(ops.last())));
        assert(written.drop_last() =~= encode_ops(front));
        assert(written.last() == encode_op(ops.last()));
        assert(front.push(ops.last()) =~= ops);
    } else {
        assert(encode_ops(ops) =~= Seq::<ValueView>::empty());
        assert(ops =~= Seq::<OpView>::empty());
    }
}

/// Nodes in which no literal constant reads as an operation are read as
/// themselves from what they are written as.
pub proof fn lemma_round_trip_nodes(nodes: Seq<NodeView>)
    requires
        faithful_nodes(nodes),
    ensures
        decode_nodes(encode_nodes(nodes)) == nodes,
    decreases nodes, 2nat,
{
    if nodes.len() > 0 {
        let front = nodes.drop_last();
        lemma_round_trip_nodes(front);
        lemma_round_trip_node(nodes.last());
        let written = encode_nodes(nodes);
        assert(written == encode_nodes(front).push(encode_node(nodes.last())));
        assert(written.drop_last() =~= encode_nodes(front));
        assert(written.last() == encode_node(nodes.last()));
        assert(front.push(nodes.last()) =~= nodes);
    } else {
        assert(encode_nodes(nodes) =~= Seq::<ValueView>::empty());
        assert(nodes =~= Seq::<NodeView>::empty());
    }
}

/// Arms in which no literal constant reads as an operation are read as
/// themselves from what they are written as.
pub proof fn lemma_round_trip_arms(arms: Seq<ArmView>)
    requires
        faithful_arms(arms),
    ensures
        decode_arms(encode_arms(arms)) == Some(arms),
    decreases arms, 2nat,
{
    lemma_names();
    if arms.len() > 0 {
        let front = arms.drop_last();
        lemma_round_trip_arms(front);
        lemma_round_trip_node(arms.last().when);
        lemma_round_trip(arms.last().then_op);
        let written = encode_arms(arms);
        assert(written == encode_arms(front).push(encode_arm(arms.last())));
        assert(written.drop_last() =~= encode_arms(front));
        assert(written.last() == encode_arm(arms.last()));
        assert(decode_arm(encode_arm(arms.last())) == Some(arms.last()));
        assert(front.push(arms.last()) =~= arms);
    } else {
        assert(encode_arms(arms) =~= Seq::<ValueView>::empty());
        assert(arms =~= Seq::<ArmView>::empty());
    }
}


/// What the names of the format are as string literals.
pub proof fn lemma_literals()
    ensures
        "op"@ == k_op(),
        "var"@ == k_var(),
        "value"@ == k_value(),
        "seq"@ == k_seq(),
        "choices"@ == k_choices(),
        "unit"@ == k_unit(),
        "p"@ == k_p(),
        "values"@ == k_values(),
        "cond"@ == k_cond(),
        "if"@ == k_if(),
        "then"@ == k_then(),
        "index"@ == k_index(),
        "base"@ == k_base(),
        "set"@ == n_set(),
        "get"@ == n_get(),
        "uniformChoice"@ == n_uniform_choice(),
        "bernoulliTrial"@ == n_bernoulli_trial(),
        "product"@ == n_product(),
        "sum"@ == n_sum(),
        "array"@ == n_array(),
{
    reveal_strlit("op");
    reveal_strlit("var");
    reveal_strlit("value");
    reveal_strlit("seq");
    reveal_strlit("choices");
    reveal_strlit("unit");
    reveal_strlit("p");
    reveal_strlit("values");
    reveal_strlit("cond");
    reveal_strlit("if");
    reveal_strlit("then");
    reveal_strlit("index");
    reveal_strlit("base");
    reveal_strlit("set");
    reveal_strlit("get");
    reveal_strlit("uniformChoice");
    reveal_strlit("bernoulliTrial");
    reveal_strlit("product");
    reveal_strlit("sum");
    reveal_strlit("array");
    assert("op"@ =~= k_op());
    assert("var"@ =~= k_var());
    assert("value"@ =~= k_value());
    assert("seq"@ =~= k_seq());
    assert("choices"@ =~= k_choices());
    assert("unit"@ =~= k_unit());
    assert("p"@ =~= k_p());
    assert("values"@ =~= k_values());
    assert("cond"@ =~= k_cond());
    assert("if"@ =~= k_if());
    assert("then"@ =~= k_then());
    assert("index"@ =~= k_index());
    assert("base"@ =~= k_base());
    assert("set"@ =~= n_set());
    assert("get"@ =~= n_get());
    assert("uniformChoice"@ =~= n_uniform_choice());
    assert("bernoulliTrial"@ =~= n_bernoulli_trial());
    assert("product"@ =~= n_product());
    assert("sum"@ =~= n_sum());
    assert("array"@ =~= n_array());
}

/// An object with the one field `op`, which holds `name`.
fn tagged_object(name: &str) -> (o: Object)
    ensures
        o@ == tagged(name@),
{
    proof {
        lemma_literals();
    }
    let mut o = Object::new();
    o.insert("op".to_owned(), Value::String(name.to_owned()));
    o
}

/// Writes a node as a JSON value.
pub fn node_to_value(node: &Node) -> (value: Value)
    ensures
        value@ == encode_node(node@),
    decreases node, 0nat,
{
    match node {
        Node::Op(op) => to_value(op),
        Node::Json(value) => value.clone(),
    }
}

/// Writes nodes as JSON values.
#[verifier::loop_isolation(false)]
fn nodes_to_values(nodes: &Vec<Node>) -> (values: Vec<Value>)
    ensures
        views(values@) == encode_nodes(node_views(nodes@)),
    decreases nodes, 0nat,
{
    let ghost nv = node_views(nodes@);
    proof {
        lemma_node_views(nodes@);
    }
    let mut out: Vec<Value> = Vec::new();
    let mut i: usize = 0;
    assert(nv.subrange(0, 0) =~= Seq::<NodeView>::empty());
    while i < nodes.len()
        invariant
            i <= nodes.len(),
            views(out@) == encode_nodes(nv.subrange(0, i as int)),
        decreases nodes.len() - i,
    {
        let ghost before = out@;
        out.push(node_to_value(&nodes[i]));
        proof {
            assert(out@.drop_last() =~= before);
            assert(nv.subrange(0, i + 1).drop_last() =~= nv.subrange(0, i as int));
            assert(nv.subrange(0, i + 1).last() == nv[i as int]);
        }
        i += 1;
    }
    assert(nv.subrange(0, nodes.len() as int) =~= nv);
    out
}

/// Writes an operation as a JSON object.
#[verifier::loop_isolation(false)]
pub fn to_value(op: &Op) -> (value: Value)
    ensures
        value@ == encode_op(op@),
    decreases op, 1nat,
{
    proof {
        lemma_literals();
    }
    match op {
        Op::SetVar { var, value } => {
            let mut o = tagged_object("set");
            o.insert("var".to_owned(), Value::String(var.clone()));
            o.insert("value".to_owned(), node_to_value(value));
            Value::Object(o)
        },
        Op::Get(get) => {
            let mut o = tagged_object("get");
            o.insert("var".to_owned(), Value::String(get.var.clone()));
            Value::Object(o)
        },
        Op::Sequence { seq } => {
            let ghost ov = op_views(seq@);
            proof {
                lemma_op_views(seq@);
            }
            let mut out: Vec<Value> = Vec::new();
            let mut i: usize = 0;
            assert(ov.subrange(0, 0) =~= Seq::<OpView>::empty());
            while i < seq.len()
                invariant
                    i <= seq.len(),
                    views(out@) == encode_ops(ov.subrange(0, i as int)),
                decreases seq.len() - i,
            {
                let ghost before = out@;
                out.push(to_value(&seq[i]));
                proof {
                    assert(out@.drop_last() =~= before);
                    assert(ov.subrange(0, i + 1).drop_last() =~= ov.subrange(0, i as int));
                    assert(ov.subrange(0, i + 1).last() == ov[i as int]);
                }
                i += 1;
            }
            assert(ov.subrange(0, seq.len() as int) =~= ov);
            let mut o = tagged_object("seq");
            o.insert("seq".to_owned(), Value::Array(out));
            Value::Object(o)
        },
        Op::UniformChoice { choices, unit } => {
            let mut o = tagged_object("uniformChoice");
            o.insert("choices".to_owned(), to_value(choices));
            o.insert("unit".to_owned(), to_value(unit));
            Value::Object(o)
        },
        Op::BernoulliTrial { p, unit } => {
            let mut o = tagged_object("bernoulliTrial");
            o.insert("p".to_owned(), Value::Number(*p));
            o.insert("unit".to_owned(), to_value(unit));
            Value::Object(o)
        },
        Op::Product { values } => {
            let mut o = tagged_object("product");
            o.insert("values".to_owned(), Value::Array(nodes_to_values(values)));
            Value::Object(o)
        },
        Op::Sum { values } => {
            let mut o = tagged_object("sum");
            o.insert("values".to_owned(), Value::Array(nodes_to_values(values)));
            Value::Object(o)
        },
        Op::Array { values } => {
            let mut o = tagged_object("array");
            o.insert("values".to_owned(), Value::Array(nodes_to_values(values)));
            Value::Object(o)
        },
        Op::Cond { cond } => {
            let ghost av = arm_views(cond@);
            proof {
                lemma_arm_views(cond@);
            }
            let mut out: Vec<Value> = Vec::new();
            let mut i: usize = 0;
            assert(av.subrange(0, 0) =~= Seq::<ArmView>::empty());
            while i < cond.len()
                invariant
                    i <= cond.len(),
                    views(out@) == encode_arms(av.subrange(0, i as int)),
                decreases cond.len() - i,
            {
                let ghost before = out@;
                let arm = &cond[i];
                let mut a = Object::new();
                a.insert("if".to_owned(), node_to_value(&arm.when));
                a.insert("then".to_owned(), to_value(&arm.then_op));
                out.push(Value::Object(a));
                proof {
                    assert(out@.drop_last() =~= before);
                    assert(av.subrange(0, i + 1).drop_last() =~= av.subrange(0, i as int));
                    assert(av.subrange(0, i + 1).last() == av[i as int]);
                    assert(av[i as int] == cond@[i as int]@);
                    assert(cond@[i as int]@ == (ArmView { when: arm.when@, then_op: arm.then_op@ }));
                    assert(encode_arm(av[i as int]) == ValueView::Object(
                        Map::empty().insert(k_if(), encode_node(arm.when@)).insert(
                            k_then(),
                            encode_op(arm.then_op@),
                        ),
                    ));
                    assert(out@.last()@ == encode_arm(av[i as int]));
                }
                i += 1;
            }
            assert(av.subrange(0, cond.len() as int) =~= av);
            let mut o = tagged_object("cond");
            o.insert("cond".to_owned(), Value::Array(out));
            Value::Object(o)
        },
        Op::Index { index, base } => {
            let mut b = Object::new();
            b.insert("var".to_owned(), Value::String(base.var.clone()));
            let mut o = tagged_object("index");
            o.insert("index".to_owned(), Value::String(index.clone()));
            o.insert("base".to_owned(), Value::Object(b));
            Value::Object(o)
        },
    }
}


/// Whether `r` is the operation that `expected` says.
pub open spec fn decoded_as(r: Option<Op>, expected: Option<OpView>) -> bool {
    match expected {
        Some(op) => r matches Some(found) && found@ == op,
        None => r is None,
    }
}

proof fn lemma_decode_ops_fails(items: Seq<ValueView>, i: int)
    requires
        0 <= i < items.len(),
        decode_op(items[i]) is None,
    ensures
        decode_ops(items) is None,
    decreases items.len(),
{
    if i < items.len() - 1 {
        assert(items.drop_last()[i] == items[i]);
        lemma_decode_ops_fails(items.drop_last(), i);
    }
}

proof fn lemma_decode_arms_fails(items: Seq<ValueView>, i: int)
    requires
        0 <= i < items.len(),
        decode_arm(items[i]) is None,
    ensures
        decode_arms(items) is None,
    decreases items.len(),
{
    if i < items.len() - 1 {
        assert(items.drop_last()[i] == items[i]);
        lemma_decode_arms_fails(items.drop_last(), i);
    }
}

proof fn lemma_prefix<T>(items: Seq<T>, i: int)
    requires
        0 <= i < items.len(),
    ensures
        items.subrange(0, i + 1).drop_last() == items.subrange(0, i),
        items.subrange(0, i + 1).last() == items[i],
        items.subrange(0, i + 1).len() == i + 1,
{
    assert(items.subrange(0, i + 1).drop_last() =~= items.subrange(0, i));
}

/// The text under `key` of `o`.
fn text_of(o: &Object, key: &str) -> (r: Option<String>)
    ensures
        match text_at(o@, key@) {
            Some(s) => r matches Some(found) && found@ == s,
            None => r is None,
        },
{
    match o.get(key) {
        Some(Value::String(s)) => Some(s.clone()),
        _ => None,
    }
}

/// The items of the array under `key` of `o`.
fn items_of<'a>(o: &'a Object, key: &str) -> (r: Option<&'a Vec<Value>>)
    ensures
        match items_at(o@, key@) {
            Some(items) => r matches Some(found) && views(found@) == items,
            None => r is None,
        },
{
    match o.get(key) {
        Some(Value::Array(items)) => Some(items),
        _ => None,
    }
}

/// Reads the operation under `key` of `o`.
fn op_at(o: &Object, key: &str) -> (r: Option<Op>)
    ensures
        decoded_as(r, decode_op_at(o@, key@)),
    decreases o@, 0nat,
{
    let _n = o.len();
    proof {
        o.lemma_dom_finite();
    }
    match o.get(key) {
        Some(value) => from_value(value),
        None => None,
    }
}

/// Reads a node from a JSON value: an operation where the value reads as
/// one, a literal constant otherwise.
pub fn node_from_value(value: &Value) -> (node: Node)
    ensures
        node@ == decode_node(value@),
    decreases value@, 1nat,
{
    match from_value(value) {
        Some(op) => Node::Op(op),
        None => Node::Json(value.clone()),
    }
}

/// Reads nodes from JSON values.
#[verifier::loop_isolation(false)]
fn nodes_from_values(values: &Vec<Value>) -> (nodes: Vec<Node>)
    ensures
        node_views(nodes@) == decode_nodes(views(values@)),
    decreases views(values@), 2nat,
{
    let ghost vs = views(values@);
    proof {
        lemma_views(values@);
    }
    let mut out: Vec<Node> = Vec::new();
    let mut i: usize = 0;
    assert(vs.subrange(0, 0) =~= Seq::<ValueView>::empty());
    while i < values.len()
        invariant
            i <= values.len(),
            node_views(out@) == decode_nodes(vs.subrange(0, i as int)),
        decreases values.len() - i,
    {
        let ghost before = out@;
        proof {
            lemma_prefix(vs, i as int);
        }
        out.push(node_from_value(&values[i]));
        assert(out@.drop_last() =~= before);
        i += 1;
    }
    assert(vs.subrange(0, values.len() as int) =~= vs);
    out
}

/// Reads operations from JSON values, each of which has to be one.
#[verifier::loop_isolation(false)]
fn ops_from_values(values: &Vec<Value>) -> (r: Option<Vec<Op>>)
    ensures
        match decode_ops(views(values@)) {
            Some(ops) => r matches Some(found) && op_views(found@) == ops,
            None => r is None,
        },
    decreases views(values@), 2nat,
{
    let ghost vs = views(values@);
    proof {
        lemma_views(values@);
    }
    let mut out: Vec<Op> = Vec::new();
    let mut i: usize = 0;
    assert(vs.subrange(0, 0) =~= Seq::<ValueView>::empty());
    while i < values.len()
        invariant
            i <= values.len(),
            decode_ops(vs.subrange(0, i as int)) == Some(op_views(out@)),
        decreases values.len() - i,
    {
        let ghost before = out@;
        proof {
            lemma_prefix(vs, i as int);
        }
        match from_value(&values[i]) {
            Some(op) => {
                out.push(op);
                assert(out@.drop_last() =~= before);
            },
            None => {
                proof {
                    lemma_decode_ops_fails(vs, i as int);
                }
                return None;
            },
        }
        i += 1;
    }
    assert(vs.subrange(0, values.len() as int) =~= vs);
    Some(out)
}

/// Reads one arm of a conditional chain.
fn arm_from_value(value: &Value) -> (r: Option<Conditional>)
    ensures
        match decode_arm(value@) {
            Some(arm) => r matches Some(found) && found@ == arm,
            None => r is None,
        },
    decreases value@, 2nat,
{
    proof {
        lemma_literals();
    }
    match value {
        Value::Object(o) => {
            let _n = o.len();
            proof {
                o.lemma_dom_finite();
            }
            match o.get("if") {
                Some(guard) => {
                    match op_at(o, "then") {
                        Some(then_op) => Some(Conditional { when: node_from_value(guard), then_op }),
                        None => None,
                    }
                },
                None => None,
            }
        },
        _ => None,
    }
}

/// Reads the arms of a conditional chain, each of which has to be one.
#[verifier::loop_isolation(false)]
fn arms_from_values(values: &Vec<Value>) -> (r: Option<Vec<Conditional>>)
    ensures
        match decode_arms(views(values@)) {
            Some(arms) => r matches Some(found) && arm_views(found@) == arms,
            None => r is None,
        },
    decreases views(values@), 3nat,
{
    let ghost vs = views(values@);
    proof {
        lemma_views(values@);
    }
    let mut out: Vec<Conditional> = Vec::new();
    let mut i: usize = 0;
    assert(vs.subrange(0, 0) =~= Seq::<ValueView>::empty());
    while i < values.len()
        invariant
            i <= values.len(),
            decode_arms(vs.subrange(0, i as int)) == Some(arm_views(out@)),
        decreases values.len() - i,
    {
        let ghost before = out@;
        proof {
            lemma_prefix(vs, i as int);
        }
        match arm_from_value(&values[i]) {
            Some(arm) => {
                out.push(arm);
                assert(out@.drop_last() =~= before);
            },
            None => {
                proof {
                    lemma_decode_arms_fails(vs, i as int);
                }
                return None;
            },
        }
        i += 1;
    }
    assert(vs.subrange(0, values.len() as int) =~= vs);
    Some(out)
}

/// Whether `name` is the name `word`.
fn named(name: &String, word: &str) -> (r: bool)
    ensures
        r == (name@ == word@),
{
    match compare_keys(name.as_str(), word) {
        KeyOrder::Same => true,
        _ => false,
    }
}

/// Reads an operation from a JSON value, if the value is one.
pub fn from_value(value: &Value) -> (r: Option<Op>)
    ensures
        decoded_as(r, decode_op(value@)),
    decreases value@, 0nat,
{
    proof {
        lemma_literals();
    }
    let o = match value {
        Value::Object(o) => o,
        _ => {
            return None;
        },
    };
    let _n = o.len();
    proof {
        o.lemma_dom_finite();
    }
    let name = match text_of(o, "op") {
        Some(name) => name,
        None => {
            return None;
        },
    };
    if named(&name, "set") {
        match (text_of(o, "var"), o.get("value")) {
            (Some(var), Some(v)) => Some(Op::SetVar { var, value: Box::new(node_from_value(v)) }),
            _ => None,
        }
    } else if named(&name, "get") {
        match text_of(o, "var") {
            Some(var) => Some(Op::Get(Get { var })),
            None => None,
        }
    } else if named(&name, "seq") {
        match items_of(o, "seq") {
            Some(items) => match ops_from_values(items) {
                Some(seq) => Some(Op::Sequence { seq }),
                None => None,
            },
            None => None,
        }
    } else if named(&name, "uniformChoice") {
        match (op_at(o, "choices"), op_at(o, "unit")) {
            (Some(choices), Some(unit)) => Some(
                Op::UniformChoice { choices: Box::new(choices), unit: Box::new(unit) },
            ),
            _ => None,
        }
    } else if named(&name, "bernoulliTrial") {
        match o.get("p") {
            Some(Value::Number(p)) => match op_at(o, "unit") {
                Some(unit) => Some(Op::BernoulliTrial { p: *p, unit: Box::new(unit) }),
                None => None,
            },
            _ => None,
        }
    } else if named(&name, "product") {
        match items_of(o, "values") {
            Some(items) => Some(Op::Product { values: nodes_from_values(items) }),
            None => None,
        }
    } else if named(&name, "sum") {
        match items_of(o, "values") {
            Some(items) => Some(Op::Sum { values: nodes_from_values(items) }),
            None => None,
        }
    } else if named(&name, "array") {
        match items_of(o, "values") {
            Some(items) => Some(Op::Array { values: nodes_from_values(items) }),
            None => None,
        }
    } else if named(&name, "cond") {
        match items_of(o, "cond") {
            Some(items) => match arms_from_values(items) {
                Some(cond) => Some(Op::Cond { cond }),
                None => None,
            },
            None => None,
        }
    } else if named(&name, "index") {
        match (text_of(o, "index"), o.get("base")) {
            (Some(index), Some(Value::Object(b))) => match text_of(b, "var") {
                Some(var) => Some(Op::Index { index, base: Get { var } }),
                None => None,
            },
            _ => None,
        }
    } else {
        None
    }
}

} // verus!
