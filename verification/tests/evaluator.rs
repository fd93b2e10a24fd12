use planout::compile::compile;
use planout::eval::{evaluate, evaluate_node, evaluate_op, is_evaluable, is_evaluable_node, is_evaluable_plan, EvalError};
use planout::host::Host;
use planout::ir::{Conditional, Get, Node, Op};
use planout::json::{Number, Object, Value};
use planout::Plan;

fn decimal(f: f64) -> Value {
    Value::Number(Number::Float(f.to_bits()))
}

fn integer(i: u64) -> Value {
    Value::Number(Number::PosInt(i))
}

fn text(s: &str) -> Value {
    Value::String(s.to_string())
}

fn object(entries: Vec<(&str, Value)>) -> Object {
    let mut o = Object::new();
    for (key, value) in entries {
        o.insert(key.to_string(), value);
    }
    o
}

fn get(name: &str) -> Op {
    Op::Get(Get { var: name.to_string() })
}

fn set(name: &str, value: Node) -> Op {
    Op::SetVar { var: name.to_string(), value: Box::new(value) }
}

fn times(a: u64, b: u64) -> u64 {
    (f64::from_bits(a) * f64::from_bits(b)).to_bits()
}

fn by_length(salt: &str, unit: &Value, count: usize) -> usize {
    match unit {
        Value::String(s) => (salt.len() + s.len()) % count.max(1),
        _ => 0,
    }
}

fn when_named(salt: &str, p: Number, unit: &Value) -> bool {
    salt.is_empty() && matches!(p, Number::Float(_)) && matches!(unit, Value::String(_))
}

fn run(plan: &Plan, input: Object, overrides: Option<&Object>) -> (Result<Object, EvalError>, Object) {
    let mut env = input;
    assert!(is_evaluable_plan(plan));
    let host = Host { multiply: times, choose: by_length, trial: when_named };
    let result = evaluate(&mut env, overrides, plan, &host);
    (result, env)
}

fn run_op(op: &Op, input: Object) -> (Result<Value, EvalError>, Object) {
    let mut env = input;
    assert!(is_evaluable(op));
    let host = Host { multiply: times, choose: by_length, trial: when_named };
    let result = evaluate_op(&mut env, op, &host);
    (result, env)
}

#[test]
fn a_product_of_integers_is_a_float() {
    let plan = compile("x = 2 * 3;").unwrap();
    let (result, env) = run(&plan, object(vec![]), None);
    assert_eq!(result, Ok(object(vec![("x", decimal(6.0))])));
    assert_eq!(env, object(vec![]));
}

#[test]
fn a_product_multiplies_from_left_to_right() {
    let op = Op::Product {
        values: vec![
            Node::Json(decimal(0.1)),
            Node::Json(decimal(0.2)),
            Node::Json(decimal(0.3)),
            Node::Json(Value::Number(Number::NegInt(-7))),
        ],
    };
    let expected = -7.0 * (0.3 * (0.2 * (0.1 * 1.0)));
    assert_eq!(run_op(&op, object(vec![])).0, Ok(decimal(expected)));
    assert_eq!(run_op(&Op::Product { values: vec![] }, object(vec![])).0, Ok(decimal(1.0)));
}

#[test]
fn a_product_that_is_not_finite_is_null() {
    let op = Op::Product { values: vec![Node::Json(decimal(1e308)), Node::Json(decimal(1e308))] };
    assert_eq!(run_op(&op, object(vec![])).0, Ok(Value::Null));
}

#[test]
fn a_product_of_what_is_no_number_is_a_type_mismatch() {
    let plan = compile("x = y * 2;").unwrap();
    let (result, env) = run(&plan, object(vec![("y", text("3"))]), None);
    assert_eq!(result, Err(EvalError::TypeMismatch));
    assert_eq!(env, object(vec![("y", text("3"))]));
    let op = Op::Product { values: vec![Node::Json(Value::Bool(true))] };
    assert_eq!(run_op(&op, object(vec![])).0, Err(EvalError::TypeMismatch));
}

#[test]
fn a_read_of_an_unbound_variable_fails() {
    let plan = compile("x = y;").unwrap();
    let (result, env) = run(&plan, object(vec![]), None);
    assert_eq!(result, Err(EvalError::UnboundVariable("y".to_string())));
    assert_eq!(env, object(vec![]));
}

#[test]
fn a_parameter_that_was_not_assigned_is_missing() {
    let plan = compile("if (c) { p = 1; } else { q = 2; }").unwrap();
    assert_eq!(plan.params, vec!["p".to_string(), "q".to_string()]);
    let (result, _) = run(&plan, object(vec![("c", Value::Bool(true))]), None);
    assert_eq!(result, Err(EvalError::MissingParam("q".to_string())));
    let (result, _) = run(&plan, object(vec![("c", Value::Bool(false))]), None);
    assert_eq!(result, Err(EvalError::MissingParam("p".to_string())));
}

#[test]
fn an_override_of_what_is_no_parameter_fails() {
    let plan = compile("x = 1;").unwrap();
    let overrides = object(vec![("y", integer(2))]);
    let (result, _) = run(&plan, object(vec![]), Some(&overrides));
    assert_eq!(result, Err(EvalError::UnknownOverride("y".to_string())));
    let both = object(vec![("x", integer(5)), ("a", integer(2)), ("z", integer(2))]);
    let (result, _) = run(&plan, object(vec![]), Some(&both));
    assert_eq!(result, Err(EvalError::UnknownOverride("a".to_string())));
}

#[test]
fn overrides_replace_declared_parameters_only() {
    let plan = compile("x = 1; y = 2.5; z = \"s\";").unwrap();
    let overrides = object(vec![("y", text("over")), ("x", Value::Null)]);
    let (result, env) = run(&plan, object(vec![("input", integer(9))]), Some(&overrides));
    assert_eq!(result, Ok(object(vec![("x", Value::Null), ("y", text("over")), ("z", text("s"))])));
    assert_eq!(env, object(vec![("input", integer(9))]));
    let (result, _) = run(&plan, object(vec![]), Some(&object(vec![])));
    assert_eq!(result, Ok(object(vec![("x", integer(1)), ("y", decimal(2.5)), ("z", text("s"))])));
}

#[test]
fn a_conditional_takes_the_first_arm_whose_guard_is_true() {
    let arm = |guard: Value, name: &str| Conditional {
        when: Node::Json(guard),
        then_op: set(name, Node::Json(integer(1))),
    };
    let op = Op::Cond {
        cond: vec![
            arm(Value::Bool(false), "a"),
            arm(integer(1), "b"),
            arm(text("true"), "c"),
            arm(Value::Bool(true), "d"),
            arm(Value::Bool(true), "e"),
        ],
    };
    let (result, env) = run_op(&op, object(vec![]));
    assert_eq!(env, object(vec![("d", integer(1))]));
    assert_eq!(result, Ok(Value::Object(object(vec![("d", integer(1))]))));
}

#[test]
fn a_conditional_without_a_true_guard_is_null_and_changes_nothing() {
    let op = Op::Cond {
        cond: vec![Conditional { when: Node::Json(Value::Null), then_op: set("a", Node::Json(integer(1))) }],
    };
    let (result, env) = run_op(&op, object(vec![("k", integer(7))]));
    assert_eq!(result, Ok(Value::Null));
    assert_eq!(env, object(vec![("k", integer(7))]));
    assert_eq!(run_op(&Op::Cond { cond: vec![] }, object(vec![])).0, Ok(Value::Null));
}

#[test]
fn an_assignment_in_a_branch_is_seen_behind_it() {
    let plan = compile("if (c) { a = 2; } b = a * 3;").unwrap();
    let (result, env) = run(&plan, object(vec![("c", Value::Bool(true))]), None);
    assert_eq!(result, Ok(object(vec![("a", integer(2)), ("b", decimal(6.0))])));
    assert_eq!(env, object(vec![("c", Value::Bool(true))]));
}

#[test]
fn a_literal_keeps_its_kind_through_set_and_get() {
    let plan = compile("a = 3; b = 3.0; c = a; d = b; e = -4;").unwrap();
    let (result, _) = run(&plan, object(vec![]), None);
    assert_eq!(
        result,
        Ok(object(vec![
            ("a", integer(3)),
            ("b", decimal(3.0)),
            ("c", integer(3)),
            ("d", decimal(3.0)),
            ("e", Value::Number(Number::NegInt(-4))),
        ]))
    );
}

#[test]
fn the_value_of_a_sequence_and_of_a_set_is_the_environment() {
    let op = Op::Sequence { seq: vec![set("a", Node::Json(integer(1))), set("b", Node::Json(integer(2)))] };
    let (result, env) = run_op(&op, object(vec![]));
    assert_eq!(env, object(vec![("a", integer(1)), ("b", integer(2))]));
    assert_eq!(result, Ok(Value::Object(object(vec![("a", integer(1)), ("b", integer(2))]))));
    let (result, env) = run_op(&set("a", Node::Json(integer(1))), object(vec![("z", Value::Null)]));
    assert_eq!(result, Ok(Value::Object(object(vec![("a", integer(1)), ("z", Value::Null)]))));
    assert_eq!(env, object(vec![("a", integer(1)), ("z", Value::Null)]));
    assert_eq!(run_op(&Op::Sequence { seq: vec![] }, object(vec![])).0, Ok(Value::Object(object(vec![]))));
}

#[test]
fn a_sequence_stops_at_the_first_error() {
    let op = Op::Sequence { seq: vec![set("a", Node::Json(integer(1))), get("nope"), set("b", Node::Json(integer(2)))] };
    let (result, env) = run_op(&op, object(vec![]));
    assert_eq!(result, Err(EvalError::UnboundVariable("nope".to_string())));
    assert_eq!(env, object(vec![("a", integer(1))]));
}

#[test]
fn an_array_evaluates_each_element() {
    let op = Op::Array {
        values: vec![Node::Op(get("y")), Node::Json(text("s")), Node::Op(Op::Array { values: vec![] })],
    };
    let (result, _) = run_op(&op, object(vec![("y", integer(3))]));
    assert_eq!(result, Ok(Value::Array(vec![integer(3), text("s"), Value::Array(vec![])])));
}

#[test]
fn a_uniform_choice_is_a_function_of_the_unit() {
    let choices = Op::Array { values: vec![Node::Json(text("a")), Node::Json(text("b")), Node::Json(text("c"))] };
    let op = Op::UniformChoice { choices: Box::new(choices), unit: Box::new(get("userid")) };
    let pick = |unit: &str| run_op(&op, object(vec![("userid", text(unit))])).0;
    assert_eq!(pick("abcd"), Ok(text("b")));
    assert_eq!(pick("abcd"), Ok(text("b")));
    assert_eq!(pick("ab"), Ok(text("c")));
    assert_eq!(pick("abc"), Ok(text("a")));
    let none = Op::UniformChoice { choices: Box::new(get("userid")), unit: Box::new(get("userid")) };
    assert_eq!(run_op(&none, object(vec![("userid", text("u"))])).0, Err(EvalError::TypeMismatch));
    let empty = Op::UniformChoice {
        choices: Box::new(Op::Array { values: vec![] }),
        unit: Box::new(get("userid")),
    };
    assert_eq!(run_op(&empty, object(vec![("userid", text("u"))])).0, Err(EvalError::TypeMismatch));
}

#[test]
fn a_draw_depends_on_the_variable_that_is_assigned() {
    let choices = || Op::Array { values: vec![Node::Json(text("a")), Node::Json(text("b")), Node::Json(text("c"))] };
    let draw = |var: &str| {
        let op = set(var, Node::Op(Op::UniformChoice { choices: Box::new(choices()), unit: Box::new(get("userid")) }));
        let (_, env) = run_op(&op, object(vec![("userid", text("abc"))]));
        env.get(var).cloned()
    };
    assert_eq!(draw("p"), Some(text("b")));
    assert_eq!(draw("pq"), Some(text("c")));
    assert_eq!(draw("pqr"), Some(text("a")));
    let trial = set(
        "t",
        Node::Op(Op::BernoulliTrial { p: Number::Float(0.5f64.to_bits()), unit: Box::new(get("userid")) }),
    );
    let (_, env) = run_op(&trial, object(vec![("userid", text("u"))]));
    assert_eq!(env.get("t"), Some(&Value::Bool(false)));
    let nested = set(
        "outer",
        Node::Op(Op::Array {
            values: vec![Node::Op(set(
                "in",
                Node::Op(Op::UniformChoice { choices: Box::new(choices()), unit: Box::new(get("userid")) }),
            ))],
        }),
    );
    let (_, env) = run_op(&nested, object(vec![("userid", text("abc"))]));
    assert_eq!(env.get("in"), Some(&text("c")));
}

#[test]
fn a_bernoulli_trial_is_a_function_of_the_unit() {
    let op = Op::BernoulliTrial { p: Number::Float(0.5f64.to_bits()), unit: Box::new(get("userid")) };
    assert_eq!(run_op(&op, object(vec![("userid", text("u"))])).0, Ok(Value::Bool(true)));
    assert_eq!(run_op(&op, object(vec![("userid", integer(1))])).0, Ok(Value::Bool(false)));
    assert_eq!(run_op(&op, object(vec![])).0, Err(EvalError::UnboundVariable("userid".to_string())));
}

#[test]
fn reserved_operations_are_not_evaluable() {
    assert!(!is_evaluable(&Op::Sum { values: vec![] }));
    assert!(!is_evaluable(&Op::Index { index: "i".to_string(), base: Get { var: "b".to_string() } }));
    assert!(!is_evaluable(&Op::Sequence { seq: vec![get("a"), Op::Sum { values: vec![] }] }));
    assert!(!is_evaluable(&set("x", Node::Op(Op::Sum { values: vec![] }))));
    assert!(!is_evaluable_node(&Node::Op(Op::Array { values: vec![Node::Op(Op::Sum { values: vec![] })] })));
    assert!(is_evaluable_node(&Node::Json(Value::Null)));
    assert!(is_evaluable(&Op::Cond {
        cond: vec![Conditional { when: Node::Json(Value::Null), then_op: get("a") }]
    }));
    assert!(!is_evaluable(&Op::Cond {
        cond: vec![Conditional { when: Node::Json(Value::Null), then_op: Op::Sum { values: vec![] } }]
    }));
    assert!(!is_evaluable_plan(&Plan { ops: vec![Op::Sum { values: vec![] }], params: vec![] }));
}

#[test]
fn a_literal_node_is_its_value() {
    let mut env = object(vec![]);
    let host = Host { multiply: times, choose: by_length, trial: when_named };
    assert_eq!(evaluate_node(&mut env, &Node::Json(text("s")), &host), Ok(text("s")));
    assert_eq!(env, object(vec![]));
}
