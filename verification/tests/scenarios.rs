use planout::compile::compile;
use planout::eval::{evaluate, is_evaluable_plan};
use planout::host::Host;
use planout::json::{Number, Object, Value};
use planout::number;
use planout::opt::optimize;
use planout::or::{Assign, Mul, Param, Stack, Val};

fn decimal(f: f64) -> Value {
    Value::Number(Number::Float(f.to_bits()))
}

fn integer(i: u64) -> Value {
    Value::Number(Number::PosInt(i))
}

fn object(entries: Vec<(&str, Value)>) -> Object {
    let mut o = Object::new();
    for (key, value) in entries {
        o.insert(key.to_string(), value);
    }
    o
}

fn times(a: u64, b: u64) -> u64 {
    (f64::from_bits(a) * f64::from_bits(b)).to_bits()
}

fn first_choice(_salt: &str, _unit: &Value, _count: usize) -> usize {
    0
}

fn never(_salt: &str, _p: Number, _unit: &Value) -> bool {
    false
}

fn run_test(plan: &'static str, input: Object, overrides: Option<Object>, output: Object) {
    let mut input = input;
    let ir = compile(plan).expect("compile ok");
    assert!(is_evaluable_plan(&ir));
    let host = Host { multiply: times, choose: first_choice, trial: never };
    match overrides {
        Some(ov) => {
            let res = evaluate(&mut input, Some(&ov), &ir, &host).unwrap();
            assert_eq!(res, output);
        }
        None => {
            let res = evaluate(&mut input, None, &ir, &host).unwrap();
            assert_eq!(res, output);
        }
    }
}

#[test]
fn test_return_breaks() {
    run_test(
        r#"x = y * 2;
            return 3;
            z = 5.0;"#,
        object(vec![("y", decimal(3.0))]),
        None,
        object(vec![("x", decimal(6.0))]),
    )
}

#[test]
fn test_product_mul() {
    run_test(
        r#"x = y * 2;"#,
        object(vec![("y", decimal(3.0))]),
        None,
        object(vec![("x", decimal(6.0))]),
    )
}

#[test]
fn test_simple_overrides() {
    run_test(
        r#"
            x = y * 2;
            "#,
        object(vec![("y", decimal(3.0))]),
        Some(object(vec![("x", decimal(2.0))])),
        object(vec![("x", decimal(2.0))]),
    )
}

#[test]
fn test_simple_fp_and_int_passthrough() {
    run_test(
        r#"
            z = 3.0;
        "#,
        object(vec![]),
        None,
        object(vec![("z", decimal(3.0))]),
    );
    run_test(
        r#"
            z = 3;
        "#,
        object(vec![]),
        None,
        object(vec![("z", integer(3))]),
    )
}

#[test]
fn test_array_assignment() {
    run_test(
        r#"
            z = [y, x, "string"];
        "#,
        object(vec![("y", integer(3)), ("x", decimal(5.0))]),
        None,
        object(vec![(
            "z",
            Value::Array(vec![integer(3), decimal(5.0), Value::String("string".to_string())]),
        )]),
    )
}

fn assert_stack(script: &str, stack: Stack) {
    let ir = compile(script).unwrap().ops;
    let or = optimize(&ir, &times).unwrap();
    assert_eq!(or, stack)
}

#[test]
fn test_mul_opt() {
    assert_stack(
        r#"
            y = x * 2.0 * 2.0;
        "#,
        Stack {
            inner: vec![Val::Assign(Assign {
                var: "y".to_owned(),
                value: Box::new(Val::Mul(Mul {
                    base: Some(number::Number::F64(4.0f64.to_bits())),
                    rest: vec![Val::Param(Param { name: "x".to_string() })],
                })),
            })],
        },
    )
}

#[test]
fn test_mul_opt_deeper() {
    let rest_x = || vec![Val::Param(Param { name: "x".to_string() })];
    assert_stack(
        r#"
            y = x * 2.0 * 2.0;
            z = y * 2.0;
        "#,
        Stack {
            inner: vec![
                Val::Assign(Assign {
                    var: "y".to_owned(),
                    value: Box::new(Val::Mul(Mul {
                        base: Some(number::Number::F64(4.0f64.to_bits())),
                        rest: rest_x(),
                    })),
                }),
                Val::Assign(Assign {
                    var: "z".to_owned(),
                    value: Box::new(Val::Mul(Mul {
                        base: Some(number::Number::F64(8.0f64.to_bits())),
                        rest: rest_x(),
                    })),
                }),
            ],
        },
    )
}
