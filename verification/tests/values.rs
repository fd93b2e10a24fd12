use planout::json::{as_float, compare_keys, finite, KeyOrder, Number, Object, Value, ONE};
use planout::number::Number::{F64, I64, U64};
use planout::number::{self, Operation};

fn times(a: u64, b: u64) -> u64 {
    (f64::from_bits(a) * f64::from_bits(b)).to_bits()
}

fn plus(a: u64, b: u64) -> u64 {
    (f64::from_bits(a) + f64::from_bits(b)).to_bits()
}

#[test]
fn object_insert_get_remove() {
    let mut o = Object::new();
    assert_eq!(o.len(), 0);
    assert_eq!(o.insert("b".to_string(), Value::Number(Number::PosInt(2))), None);
    assert_eq!(o.insert("a".to_string(), Value::Bool(true)), None);
    assert_eq!(o.get("a"), Some(&Value::Bool(true)));
    assert_eq!(o.get("b"), Some(&Value::Number(Number::PosInt(2))));
    assert_eq!(o.get("c"), None);
    assert!(o.contains_key("a"));
    assert!(!o.contains_key("c"));
    assert_eq!(o.len(), 2);
    assert_eq!(o.insert("a".to_string(), Value::Null), Some(Value::Bool(true)));
    assert_eq!(o.get("a"), Some(&Value::Null));
    assert_eq!(o.len(), 2);
    assert_eq!(o.remove("a"), Some(Value::Null));
    assert_eq!(o.remove("a"), None);
    assert_eq!(o.len(), 1);
    assert_eq!(o.get("b"), Some(&Value::Number(Number::PosInt(2))));
}

#[test]
fn object_keeps_keys_in_ascending_order() {
    let mut o = Object::new();
    o.insert("b".to_string(), Value::Null);
    o.insert("ab".to_string(), Value::Null);
    o.insert("a".to_string(), Value::Null);
    o.insert("B".to_string(), Value::Null);
    let keys: Vec<String> = (0..o.len()).map(|i| o.entry_at(i).0.clone()).collect();
    assert_eq!(keys, vec!["B", "a", "ab", "b"]);
}

#[test]
fn objects_are_equal_whatever_the_order_of_insertion() {
    let mut one = Object::new();
    one.insert("x".to_string(), Value::Bool(true));
    one.insert("y".to_string(), Value::Bool(false));
    let mut other = Object::new();
    other.insert("y".to_string(), Value::Bool(false));
    other.insert("x".to_string(), Value::Bool(true));
    assert_eq!(one, other);
}

#[test]
fn keys_compare_as_strings_do() {
    assert_eq!(compare_keys("a", "b"), KeyOrder::Before);
    assert_eq!(compare_keys("b", "a"), KeyOrder::After);
    assert_eq!(compare_keys("a", "a"), KeyOrder::Same);
    assert_eq!(compare_keys("", ""), KeyOrder::Same);
    assert_eq!(compare_keys("", "a"), KeyOrder::Before);
    assert_eq!(compare_keys("a", "ab"), KeyOrder::Before);
    assert_eq!(compare_keys("Z", "a"), KeyOrder::Before);
    assert_eq!(compare_keys("é", "z"), KeyOrder::After);
    for (a, b) in [("x", "y"), ("abc", "abd"), ("é", "e"), ("10", "9")] {
        let expected = if a < b {
            KeyOrder::Before
        } else if a == b {
            KeyOrder::Same
        } else {
            KeyOrder::After
        };
        assert_eq!(compare_keys(a, b), expected);
    }
}

#[test]
fn a_copy_of_a_value_is_equal_to_it() {
    let mut inner = Object::new();
    inner.insert("k".to_string(), Value::Array(vec![Value::Null, Value::String("s".to_string())]));
    let v = Value::Array(vec![Value::Object(inner), Value::Number(Number::NegInt(-4))]);
    assert_eq!(v.clone(), v);
}

#[test]
fn integers_become_the_nearest_float() {
    assert_eq!(as_float(Number::PosInt(2)), 2.0f64.to_bits());
    assert_eq!(as_float(Number::NegInt(-3)), (-3.0f64).to_bits());
    assert_eq!(as_float(Number::PosInt(u64::MAX)), (u64::MAX as f64).to_bits());
    assert_eq!(as_float(Number::NegInt(i64::MIN)), (i64::MIN as f64).to_bits());
    assert_eq!(as_float(Number::Float(1.5f64.to_bits())), 1.5f64.to_bits());
}

#[test]
fn finite_tells_numbers_from_infinities() {
    assert!(finite(0.0f64.to_bits()));
    assert!(finite(f64::MAX.to_bits()));
    assert!(finite(f64::MIN_POSITIVE.to_bits()));
    assert!(finite((-1.5f64).to_bits()));
    assert!(!finite(f64::INFINITY.to_bits()));
    assert!(!finite(f64::NEG_INFINITY.to_bits()));
    assert!(!finite(f64::NAN.to_bits()));
    assert_eq!(ONE, 1.0f64.to_bits());
}

#[test]
fn numbers_of_one_kind_keep_their_kind() {
    assert_eq!(I64(6).mul(I64(7), &times), Some(I64(42)));
    assert_eq!(U64(6).mul(U64(7), &times), Some(U64(42)));
    assert_eq!(F64(1.5f64.to_bits()).mul(F64(2.0f64.to_bits()), &times), Some(F64(3.0f64.to_bits())));
    assert_eq!(I64(6).add(I64(7), &plus), Some(I64(13)));
    assert_eq!(U64(6).add(U64(7), &plus), Some(U64(13)));
    assert_eq!(F64(1.5f64.to_bits()).add(F64(2.0f64.to_bits()), &plus), Some(F64(3.5f64.to_bits())));
}

#[test]
fn a_float_operand_makes_a_float() {
    let half = 0.5f64.to_bits();
    assert_eq!(I64(-4).mul(F64(half), &times), Some(F64((-2.0f64).to_bits())));
    assert_eq!(F64(half).mul(I64(-4), &times), Some(F64((-2.0f64).to_bits())));
    assert_eq!(U64(4).mul(F64(half), &times), Some(F64(2.0f64.to_bits())));
    assert_eq!(F64(half).mul(U64(4), &times), Some(F64(2.0f64.to_bits())));
    assert_eq!(I64(-4).add(F64(half), &plus), Some(F64((-3.5f64).to_bits())));
    assert_eq!(F64(half).add(U64(4), &plus), Some(F64(4.5f64.to_bits())));
}

#[test]
fn signed_and_unsigned_make_signed() {
    assert_eq!(I64(-2).mul(U64(3), &times), Some(I64(-6)));
    assert_eq!(U64(3).mul(I64(-2), &times), Some(I64(-6)));
    assert_eq!(I64(-2).add(U64(3), &plus), Some(I64(1)));
    assert_eq!(I64(1).mul(U64(i64::MAX as u64), &times), Some(I64(i64::MAX)));
}

#[test]
fn an_unsigned_operand_above_the_signed_range_has_no_signed_counterpart() {
    assert_eq!(I64(1).mul(U64(i64::MAX as u64 + 1), &times), None);
    assert_eq!(U64(u64::MAX).mul(I64(1), &times), None);
    assert_eq!(I64(1).add(U64(u64::MAX), &plus), None);
}

#[test]
fn integer_overflow_wraps_around() {
    assert_eq!(I64(i64::MAX).add(I64(1), &plus), Some(I64(i64::MIN)));
    assert_eq!(U64(u64::MAX).add(U64(1), &plus), Some(U64(0)));
    assert_eq!(I64(i64::MAX).mul(I64(2), &times), Some(I64(-2)));
    assert_eq!(U64(u64::MAX).mul(U64(2), &times), Some(U64(u64::MAX - 1)));
}

#[test]
fn combined_is_what_add_and_mul_are() {
    assert_eq!(I64(3).combined(Operation::Plus, I64(4), &plus), Some(I64(7)));
    assert_eq!(I64(3).combined(Operation::Times, I64(4), &times), Some(I64(12)));
}

#[test]
fn a_json_number_keeps_its_kind_in_the_algebra() {
    assert_eq!(number::Number::from(Number::PosInt(3)), number::Number::I64(3));
    assert_eq!(number::Number::from(Number::PosInt(i64::MAX as u64)), number::Number::I64(i64::MAX));
    assert_eq!(number::Number::from(Number::PosInt(i64::MAX as u64 + 1)), number::Number::U64(i64::MAX as u64 + 1));
    assert_eq!(number::Number::from(Number::NegInt(-3)), number::Number::I64(-3));
    assert_eq!(number::Number::from(Number::Float(3.0f64.to_bits())), number::Number::F64(3.0f64.to_bits()));
}
