use planout::compile::compile;
use planout::ir::{Get, Node, Op};
use planout::json::{self, Value};
use planout::number::Number;
use planout::opt::{
    optimize, optimize_mul, optimize_mul_transitive, optimize_node, optimize_product, split_recursive, OptError,
    State, Var,
};
use planout::or::{Array, Assign, Mul, Param, Pointer, Stack, Ty, Val};

fn times(a: u64, b: u64) -> u64 {
    (f64::from_bits(a) * f64::from_bits(b)).to_bits()
}

fn param(name: &str) -> Val {
    Val::Param(Param { name: name.to_string() })
}

fn decimal(f: f64) -> Val {
    Val::Number(Number::F64(f.to_bits()))
}

fn product(base: Option<Number>, rest: Vec<Val>) -> Val {
    Val::Mul(Mul { base, rest })
}

#[test]
fn folding_does_not_depend_on_the_grouping() {
    let flat = vec![param("x"), decimal(2.0), decimal(2.0)];
    let right = vec![param("x"), product(None, vec![decimal(2.0), decimal(2.0)])];
    let left = vec![product(None, vec![param("x"), decimal(2.0)]), decimal(2.0)];
    let folded = vec![param("x"), product(Some(Number::F64(4.0f64.to_bits())), vec![])];
    let expected = Mul { base: Some(Number::F64(4.0f64.to_bits())), rest: vec![param("x")] };
    for vals in [flat, right, left, folded] {
        assert_eq!(optimize_mul_transitive(&vals, &times), Ok(Mul { base: expected.base, rest: vec![param("x")] }));
        assert_eq!(optimize_mul(&vals, &times), Ok(Mul { base: expected.base, rest: vec![param("x")] }));
    }
}

#[test]
fn the_factors_keep_the_order_in_which_they_are_met() {
    let vals = vec![
        param("a"),
        Val::Number(Number::I64(2)),
        product(Some(Number::I64(5)), vec![param("b"), Val::Number(Number::I64(3)), Val::Bool(true)]),
        Val::String("s".to_string()),
    ];
    let (nums, others) = split_recursive(&vals);
    assert_eq!(nums, vec![Number::I64(2), Number::I64(3), Number::I64(5)]);
    assert_eq!(others, vec![param("a"), param("b"), Val::Bool(true), Val::String("s".to_string())]);
    assert_eq!(
        optimize_mul(&vals, &times),
        Ok(Mul {
            base: Some(Number::I64(30)),
            rest: vec![param("a"), param("b"), Val::Bool(true), Val::String("s".to_string())],
        })
    );
}

#[test]
fn a_product_without_numbers_has_no_coefficient() {
    assert_eq!(optimize_mul(&vec![param("a")], &times), Ok(Mul { base: None, rest: vec![param("a")] }));
    assert_eq!(optimize_mul(&vec![], &times), Ok(Mul { base: None, rest: vec![] }));
}

#[test]
fn kinds_are_promoted_in_the_coefficient() {
    let vals = vec![Val::Number(Number::I64(3)), Val::Number(Number::U64(2)), decimal(0.5)];
    assert_eq!(optimize_mul(&vals, &times), Ok(Mul { base: Some(Number::F64(3.0f64.to_bits())), rest: vec![] }));
}

#[test]
fn an_unsigned_factor_too_large_for_a_signed_one_stops_the_folding() {
    let vals = vec![Val::Number(Number::I64(1)), Val::Number(Number::U64(u64::MAX))];
    assert_eq!(optimize_mul(&vals, &times), Err(OptError::Conversion));
    let plan = compile("x = -1 * 18446744073709551615;").unwrap();
    assert_eq!(optimize(&plan.ops, &times), Err(OptError::Conversion));
}

#[test]
fn a_known_variable_is_inlined() {
    let plan = compile("a = 3; b = a; c = \"s\"; d = c; e = missing;").unwrap();
    let assign = |var: &str, value: Val| Val::Assign(Assign { var: var.to_string(), value: Box::new(value) });
    assert_eq!(
        optimize(&plan.ops, &times),
        Ok(Stack {
            inner: vec![
                assign("a", Val::Number(Number::I64(3))),
                assign("b", Val::Number(Number::I64(3))),
                assign("c", Val::String("s".to_string())),
                assign("d", Val::String("s".to_string())),
                assign("e", param("missing")),
            ],
        })
    );
}

#[test]
fn the_last_assignment_counts() {
    let plan = compile("a = 1; a = 2; b = a;").unwrap();
    let stack = optimize(&plan.ops, &times).unwrap();
    assert_eq!(
        stack.inner[2],
        Val::Assign(Assign { var: "b".to_string(), value: Box::new(Val::Number(Number::I64(2))) })
    );
}

#[test]
fn what_the_optimizer_does_not_take_is_unsupported() {
    let plan = compile("x = [1];").unwrap();
    assert_eq!(optimize(&plan.ops, &times), Err(OptError::Unsupported));
    let plan = compile("if (c) { x = 1; }").unwrap();
    assert_eq!(optimize(&plan.ops, &times), Err(OptError::Unsupported));
    let mut state = State::default();
    assert_eq!(optimize_node(&Node::Json(Value::Null), &mut state, &times), Err(OptError::Unsupported));
    assert_eq!(optimize_node(&Node::Json(Value::Bool(true)), &mut state, &times), Ok(Val::Bool(true)));
    assert_eq!(
        optimize_node(&Node::Json(Value::Number(json::Number::Float(1.5f64.to_bits()))), &mut state, &times),
        Ok(decimal(1.5))
    );
}

#[test]
fn a_product_of_nodes_is_optimized_and_folded() {
    let mut state = State::default();
    state.insert("y", &product(Some(Number::F64(4.0f64.to_bits())), vec![param("x")]));
    let values = vec![
        Node::Op(Op::Get(Get { var: "y".to_string() })),
        Node::Json(Value::Number(json::Number::Float(2.0f64.to_bits()))),
    ];
    assert_eq!(
        optimize_product(&values, &mut state, &times),
        Ok(Mul { base: Some(Number::F64(8.0f64.to_bits())), rest: vec![param("x")] })
    );
}

#[test]
fn the_state_holds_the_last_binding_of_each_variable() {
    let mut state = State::default();
    assert_eq!(state.get("a"), None);
    state.insert("a", &Val::Bool(true));
    state.insert("b", &Val::Bool(false));
    assert_eq!(state.get("a"), Some(Var::Val(Val::Bool(true))));
    state.insert("a", &param("p"));
    assert_eq!(state.get("a"), Some(Var::Val(param("p"))));
    assert_eq!(state.get("b"), Some(Var::Val(Val::Bool(false))));
    assert_eq!(state.get("c"), None);
}

#[test]
fn every_value_has_its_kind() {
    assert_eq!(decimal(1.0).ty(), Ty::Number);
    assert_eq!(Val::Bool(true).ty(), Ty::Bool);
    assert_eq!(Val::String(String::new()).ty(), Ty::String);
    assert_eq!(Val::Assign(Assign { var: String::new(), value: Box::new(Val::Bool(true)) }).ty(), Ty::Assign);
    assert_eq!(Val::Pointer(Pointer { var: String::new() }).ty(), Ty::Pointer);
    assert_eq!(param("x").ty(), Ty::Param);
    assert_eq!(Val::Array(Array(vec![])).ty(), Ty::Array);
    assert_eq!(Val::Stack(Stack { inner: vec![] }).ty(), Ty::Stack);
    assert_eq!(product(None, vec![]).ty(), Ty::Mul);
    let copy = product(Some(Number::I64(1)), vec![param("x"), Val::Array(Array(vec![Val::Bool(false)]))]);
    assert_eq!(copy.clone(), copy);
}
