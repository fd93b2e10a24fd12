use planout::api::{Assignment, Experiment, Meta, Plan, Segment};
use planout::compile::compile;
use planout::ir::{Conditional, Get, Node, Op};
use planout::json::{Number, Object, Value};
use planout::wire::{from_value, node_from_value, node_to_value, to_value};

fn text(s: &str) -> Value {
    Value::String(s.to_string())
}

fn object(entries: Vec<(&str, Value)>) -> Value {
    let mut o = Object::new();
    for (key, value) in entries {
        o.insert(key.to_string(), value);
    }
    Value::Object(o)
}

fn get(name: &str) -> Op {
    Op::Get(Get { var: name.to_string() })
}

#[test]
fn an_operation_is_written_as_a_tagged_object() {
    assert_eq!(to_value(&get("x")), object(vec![("op", text("get")), ("var", text("x"))]));
    let set = Op::SetVar { var: "x".to_string(), value: Box::new(Node::Json(Value::Number(Number::PosInt(3)))) };
    assert_eq!(
        to_value(&set),
        object(vec![("op", text("set")), ("var", text("x")), ("value", Value::Number(Number::PosInt(3)))])
    );
    let cond = Op::Cond { cond: vec![Conditional { when: Node::Json(Value::Bool(true)), then_op: get("a") }] };
    assert_eq!(
        to_value(&cond),
        object(vec![
            ("op", text("cond")),
            (
                "cond",
                Value::Array(vec![object(vec![
                    ("if", Value::Bool(true)),
                    ("then", object(vec![("op", text("get")), ("var", text("a"))])),
                ])]),
            ),
        ])
    );
    let trial = Op::BernoulliTrial { p: Number::Float(0.8f64.to_bits()), unit: Box::new(get("userid")) };
    assert_eq!(
        to_value(&trial),
        object(vec![
            ("op", text("bernoulliTrial")),
            ("p", Value::Number(Number::Float(0.8f64.to_bits()))),
            ("unit", object(vec![("op", text("get")), ("var", text("userid"))])),
        ])
    );
}

#[test]
fn what_is_written_is_read_back() {
    let ops = vec![
        get("x"),
        Op::SetVar { var: "x".to_string(), value: Box::new(Node::Op(get("y"))) },
        Op::Sequence { seq: vec![get("a"), Op::Sequence { seq: vec![] }] },
        Op::UniformChoice {
            choices: Box::new(Op::Array { values: vec![Node::Json(text("a")), Node::Json(Value::Null)] }),
            unit: Box::new(get("userid")),
        },
        Op::BernoulliTrial { p: Number::PosInt(1), unit: Box::new(get("userid")) },
        Op::Product { values: vec![Node::Op(get("a")), Node::Json(Value::Number(Number::NegInt(-2)))] },
        Op::Sum { values: vec![Node::Json(Value::Bool(false))] },
        Op::Array { values: vec![] },
        Op::Cond {
            cond: vec![
                Conditional { when: Node::Op(get("c")), then_op: get("a") },
                Conditional { when: Node::Json(Value::Bool(true)), then_op: Op::Sequence { seq: vec![] } },
            ],
        },
        Op::Index { index: "i".to_string(), base: Get { var: "b".to_string() } },
    ];
    for op in ops {
        assert_eq!(from_value(&to_value(&op)), Some(op));
    }
    let source = "a = 1.5; if (c) { b = [a, \"s\"]; } else { b = a * 2 * 3; }";
    for op in compile(source).unwrap().ops {
        assert_eq!(from_value(&to_value(&op)), Some(op));
    }
    let literal = Node::Json(object(vec![("k", Value::Array(vec![Value::Null]))]));
    assert_eq!(node_from_value(&node_to_value(&literal)), literal);
}

#[test]
fn a_literal_that_reads_as_an_operation_is_read_as_one() {
    let literal = Node::Json(object(vec![("op", text("get")), ("var", text("x"))]));
    assert_eq!(node_from_value(&node_to_value(&literal)), Node::Op(get("x")));
}

#[test]
fn what_is_no_operation_is_not_read_as_one() {
    assert_eq!(from_value(&Value::Null), None);
    assert_eq!(from_value(&text("get")), None);
    assert_eq!(from_value(&object(vec![])), None);
    assert_eq!(from_value(&object(vec![("op", text("get"))])), None);
    assert_eq!(from_value(&object(vec![("op", text("nope")), ("var", text("x"))])), None);
    assert_eq!(from_value(&object(vec![("op", Value::Null), ("var", text("x"))])), None);
    assert_eq!(from_value(&object(vec![("op", text("get")), ("var", Value::Null)])), None);
    assert_eq!(from_value(&object(vec![("op", text("seq")), ("seq", Value::Array(vec![Value::Null]))])), None);
    assert_eq!(from_value(&object(vec![("op", text("cond")), ("cond", Value::Array(vec![object(vec![])]))])), None);
    assert_eq!(node_from_value(&Value::Null), Node::Json(Value::Null));
}

#[test]
fn fields_that_an_operation_does_not_have_are_passed_over() {
    let value = object(vec![("op", text("get")), ("var", text("x")), ("extra", Value::Null)]);
    assert_eq!(from_value(&value), Some(get("x")));
}

#[test]
fn a_segment_has_a_variable_and_then_a_size() {
    let segment = Segment::variable("user_id");
    assert_eq!(segment.variable_name(), Some(&"user_id".to_string()));
    assert_eq!(segment.length(), None);
    let sized = segment.size(1000);
    assert_eq!(sized.variable_name(), Some(&"user_id".to_string()));
    assert_eq!(sized.length(), Some(1000));
}

#[test]
fn a_plan_has_a_name_and_a_tree() {
    let plan = Plan::new(Node::Op(get("x")));
    assert_eq!(plan.id(), "no-name");
    assert_eq!(plan.ast(), &Node::Op(get("x")));
    let named = plan.name("asap_bid_pricing");
    assert_eq!(named.id(), "asap_bid_pricing");
    let mut overrides = Object::new();
    overrides.insert("x".to_string(), Value::Null);
    let with = named.overrides(overrides);
    assert_eq!(with.id(), "asap_bid_pricing");
    assert_eq!(with.ast(), &Node::Op(get("x")));
    let meta = Meta::segment(Segment::variable("user_id").size(10));
    assert_eq!(meta.plan_count(), 0);
    assert_eq!(meta.plan(with).plan_count(), 1);
}

#[test]
fn an_assignment_hands_out_what_was_assigned() {
    let mut vars = Object::new();
    vars.insert("p".to_string(), Value::Number(Number::Float(0.2f64.to_bits())));
    let assignment = Assignment::new(vars, None);
    assert_eq!(assignment.get("p"), Value::Number(Number::Float(0.2f64.to_bits())));
}
