use glue_exec::data::Row;
use glue_exec::translate::{Blend, CmpOp, Filter, Limit, Operand};
use glue_exec::value::{compare_text, compare_values, like, Order, Value};

fn text(s: &str) -> Value {
    Value::Text(s.to_string())
}

fn row(items: Vec<Value>) -> Row<u64> {
    Row { key: 0, items }
}

#[test]
fn like_patterns() {
    assert!(like("a%c", "abbbc", false));
    assert!(like("a_c", "abc", false));
    assert!(!like("a_c", "abbc", false));
    assert!(like("%", "", false));
    assert!(!like("_", "", false));
    assert!(!like("ABC", "abc", false));
    assert!(like("ABC", "abc", true));
    assert!(like("%WORLD%", "Glue World!", true));
    assert!(!like("%world", "world!", true));
}

#[test]
fn text_and_value_ordering() {
    assert_eq!(compare_text("abc", "abd"), Order::Less);
    assert_eq!(compare_text("ab", "abc"), Order::Less);
    assert_eq!(compare_text("b", "abc"), Order::Greater);
    assert_eq!(compare_text("", ""), Order::Equal);
    assert_eq!(compare_values(&Value::Integer(-3), &Value::Integer(2)), Some(Order::Less));
    assert_eq!(compare_values(&Value::Integer(2), &text("2")), None);
    assert_eq!(compare_values(&Value::Null, &Value::Null), None);
}

#[test]
fn null_and_mismatched_comparisons_are_false() {
    let r = row(vec![Value::Null, Value::Integer(1)]);
    let eq = |a: Operand, b: Operand| Filter::Compare(a, CmpOp::Eq, b);
    assert!(!eq(Operand::Column(0), Operand::Literal(Value::Null)).check(&r));
    assert!(!Filter::Compare(Operand::Column(0), CmpOp::NotEq, Operand::Literal(Value::Integer(1))).check(&r));
    assert!(!eq(Operand::Column(1), Operand::Literal(text("1"))).check(&r));
    assert!(eq(Operand::Column(1), Operand::Literal(Value::Integer(1))).check(&r));
    assert!(!eq(Operand::Column(5), Operand::Literal(Value::Integer(1))).check(&r));
    assert!(Filter::All.check(&r));
    assert!(Filter::Not(Box::new(eq(Operand::Column(0), Operand::Literal(Value::Null)))).check(&r));
}

#[test]
fn comparison_operators() {
    let r = row(vec![Value::Integer(5), text("m")]);
    let cmp = |c: usize, op: CmpOp, v: Value| Filter::Compare(Operand::Column(c), op, Operand::Literal(v)).check(&r);
    assert!(cmp(0, CmpOp::Lt, Value::Integer(6)));
    assert!(!cmp(0, CmpOp::Lt, Value::Integer(5)));
    assert!(cmp(0, CmpOp::LtEq, Value::Integer(5)));
    assert!(cmp(0, CmpOp::GtEq, Value::Integer(5)));
    assert!(cmp(0, CmpOp::Gt, Value::Integer(4)));
    assert!(cmp(0, CmpOp::NotEq, Value::Integer(4)));
    assert!(cmp(1, CmpOp::Gt, text("a")));
    assert!(cmp(1, CmpOp::Lt, text("z")));
    let both = Filter::And(
        Box::new(Filter::Compare(Operand::Column(0), CmpOp::Eq, Operand::Literal(Value::Integer(5)))),
        Box::new(Filter::Like(Operand::Column(1), "_".to_string(), false)),
    );
    assert!(both.check(&r));
    assert!(!Filter::Like(Operand::Column(0), "%".to_string(), false).check(&r));
}

#[test]
fn limit_window() {
    let l = Limit { offset: 2, count: Some(3) };
    assert!(!l.check(1));
    assert!(l.check(2));
    assert!(l.check(4));
    assert!(!l.check(5));
    let open = Limit { offset: 1, count: None };
    assert!(!open.check(0));
    assert!(open.check(usize::MAX));
    let big = Limit { offset: usize::MAX - 1, count: Some(usize::MAX) };
    assert!(big.check(usize::MAX));
}

#[test]
fn blend_projection() {
    let r = Row { key: 9u64, items: vec![Value::Integer(1), text("b")] };
    let p = Blend::Columns(vec![1, 1, 0]).apply(r.clone());
    assert_eq!(p.key, 9);
    assert_eq!(p.items, vec![text("b"), text("b"), Value::Integer(1)]);
    assert_eq!(Blend::All.apply(r.clone()), r);
}
