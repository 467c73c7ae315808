use minilisp::env::{Environment, Store};
use minilisp::primitives::{
    add, apply, binary_bool_op, binary_int_op, count, div, eq, ge, gt, is_empty, is_list, le, lt,
    mk_list, mul, prn, str, sub, BoolOp, IntOp,
};
use minilisp::types::{pr_str, values_equal, ErrorKind, LispType, Primitive};

fn number(i: i64) -> LispType {
    LispType::Integer(i)
}

fn text(s: &str) -> LispType {
    LispType::Str(s.to_string())
}

fn closure() -> LispType {
    let mut store = Store::new();
    let env = Environment::new(&mut store, None);
    LispType::Closure(vec![], Box::new(LispType::Nil), env)
}

#[test]
fn pr_str_prints_atoms() {
    assert_eq!(pr_str(&LispType::Nil, true), "nil");
    assert_eq!(pr_str(&LispType::True, true), "true");
    assert_eq!(pr_str(&LispType::False, true), "false");
    assert_eq!(pr_str(&LispType::Symbol("abc".to_string()), true), "abc");
    assert_eq!(pr_str(&LispType::Keyword(":kw".to_string()), true), ":kw");
    assert_eq!(pr_str(&LispType::Func(Primitive::Add), true), "#<function ...>");
    assert_eq!(pr_str(&closure(), false), "#<function ...>");
}

#[test]
fn pr_str_prints_integers_in_decimal() {
    assert_eq!(pr_str(&number(0), true), "0");
    assert_eq!(pr_str(&number(7), true), "7");
    assert_eq!(pr_str(&number(10), true), "10");
    assert_eq!(pr_str(&number(-120), true), "-120");
    assert_eq!(pr_str(&number(1234567890), false), "1234567890");
    assert_eq!(pr_str(&number(i64::MAX), true), "9223372036854775807");
    assert_eq!(pr_str(&number(i64::MIN), true), "-9223372036854775808");
}

#[test]
fn pr_str_escapes_strings_only_when_readable() {
    let s = text("a\"b\\c\nd\re\tf");
    assert_eq!(pr_str(&s, true), "\"a\\\"b\\\\c\\nd\\re\\tf\"");
    assert_eq!(pr_str(&s, false), "a\"b\\c\nd\re\tf");
    assert_eq!(pr_str(&text(""), true), "\"\"");
    assert_eq!(pr_str(&text("é λ"), true), "\"é λ\"");
}

#[test]
fn pr_str_prints_lists_and_vectors() {
    let list = LispType::List(vec![number(1), text("a"), LispType::Vector(vec![LispType::Nil, LispType::List(vec![])])]);
    assert_eq!(pr_str(&list, true), "(1 \"a\" [nil ()])");
    assert_eq!(pr_str(&list, false), "(1 a [nil ()])");
    assert_eq!(pr_str(&LispType::List(vec![]), true), "()");
    assert_eq!(pr_str(&LispType::Vector(vec![number(1)]), true), "[1]");
}

#[test]
fn equality_compares_atoms_by_content() {
    assert!(LispType::Nil == LispType::Nil);
    assert!(LispType::True == LispType::True);
    assert!(LispType::False != LispType::Nil);
    assert!(number(3) == number(3));
    assert!(number(3) != number(4));
    assert!(text("a") == text("a"));
    assert!(text("a") != LispType::Symbol("a".to_string()));
    assert!(LispType::Keyword(":a".to_string()) != text(":a"));
    assert!(values_equal(&number(3), &number(3)));
}

#[test]
fn equality_crosses_lists_and_vectors() {
    let list = LispType::List(vec![number(1), number(2)]);
    let vector = LispType::Vector(vec![number(1), number(2)]);
    assert!(list == vector);
    assert!(vector == list);
    assert!(list == LispType::List(vec![number(1), number(2)]));
    assert!(list != LispType::List(vec![number(1)]));
    assert!(list != LispType::Vector(vec![number(1), number(3)]));
    let nested = LispType::List(vec![vector]);
    assert!(nested == LispType::Vector(vec![list]));
}

#[test]
fn a_callable_equals_nothing() {
    assert!(LispType::Func(Primitive::Add) != LispType::Func(Primitive::Add));
    let c = closure();
    assert!(c != c.clone());
    assert!(LispType::List(vec![closure()]) != LispType::List(vec![closure()]));
    assert!(matches!(eq(vec![closure(), closure()]).unwrap(), LispType::False));
    let plus = LispType::Func(Primitive::Add);
    assert!(matches!(eq(vec![plus.clone(), plus]).unwrap(), LispType::False));
}

#[test]
fn eq_compares_each_argument_with_the_first() {
    assert!(matches!(eq(vec![]).unwrap(), LispType::True));
    assert!(matches!(eq(vec![closure()]).unwrap(), LispType::True));
    assert!(matches!(eq(vec![number(1), number(1), number(1)]).unwrap(), LispType::True));
    assert!(matches!(eq(vec![number(1), number(1), number(2)]).unwrap(), LispType::False));
    let list = LispType::List(vec![number(1), number(2)]);
    let vector = LispType::Vector(vec![number(1), number(2)]);
    assert!(matches!(eq(vec![list, vector]).unwrap(), LispType::True));
}

#[test]
fn arithmetic_on_two_integers() {
    assert_eq!(add(vec![number(2), number(3)]).unwrap(), number(5));
    assert_eq!(sub(vec![number(2), number(3)]).unwrap(), number(-1));
    assert_eq!(mul(vec![number(-4), number(3)]).unwrap(), number(-12));
    assert_eq!(div(vec![number(7), number(2)]).unwrap(), number(3));
    assert_eq!(div(vec![number(-7), number(2)]).unwrap(), number(-3));
    assert_eq!(div(vec![number(7), number(-2)]).unwrap(), number(-3));
    assert_eq!(div(vec![number(-7), number(-2)]).unwrap(), number(3));
    assert_eq!(div(vec![number(0), number(-2)]).unwrap(), number(0));
    assert_eq!(binary_int_op(IntOp::Add, vec![number(1), number(1)]).unwrap(), number(2));
}

#[test]
fn arithmetic_at_the_limits() {
    assert_eq!(add(vec![number(i64::MAX - 1), number(1)]).unwrap(), number(i64::MAX));
    assert!(matches!(add(vec![number(i64::MAX), number(1)]).unwrap_err().kind, ErrorKind::ArithmeticError));
    assert_eq!(sub(vec![number(i64::MIN + 1), number(1)]).unwrap(), number(i64::MIN));
    assert!(matches!(sub(vec![number(i64::MIN), number(1)]).unwrap_err().kind, ErrorKind::ArithmeticError));
    assert!(matches!(mul(vec![number(i64::MAX), number(2)]).unwrap_err().kind, ErrorKind::ArithmeticError));
    assert_eq!(mul(vec![number(i64::MIN), number(1)]).unwrap(), number(i64::MIN));
    assert!(matches!(mul(vec![number(i64::MIN), number(-1)]).unwrap_err().kind, ErrorKind::ArithmeticError));
    assert!(matches!(div(vec![number(1), number(0)]).unwrap_err().kind, ErrorKind::ArithmeticError));
    assert!(matches!(div(vec![number(i64::MIN), number(-1)]).unwrap_err().kind, ErrorKind::ArithmeticError));
    assert_eq!(div(vec![number(i64::MIN), number(1)]).unwrap(), number(i64::MIN));
}

#[test]
fn binary_primitives_check_their_arguments() {
    assert!(matches!(add(vec![number(1)]).unwrap_err().kind, ErrorKind::WrongArgumentCount(1)));
    assert!(matches!(lt(vec![]).unwrap_err().kind, ErrorKind::WrongArgumentCount(0)));
    assert!(matches!(mul(vec![number(1), number(2), number(3)]).unwrap_err().kind, ErrorKind::WrongArgumentCount(3)));
    assert!(matches!(add(vec![number(1), text("b")]).unwrap_err().kind, ErrorKind::ExpectedInteger(LispType::Str(_))));
    assert!(matches!(add(vec![text("a"), number(2)]).unwrap_err().kind, ErrorKind::ExpectedInteger(LispType::Integer(2))));
    assert!(matches!(ge(vec![LispType::Nil, LispType::True]).unwrap_err().kind, ErrorKind::ExpectedInteger(LispType::True)));
}

#[test]
fn comparisons_on_two_integers() {
    assert!(matches!(lt(vec![number(1), number(2)]).unwrap(), LispType::True));
    assert!(matches!(lt(vec![number(2), number(2)]).unwrap(), LispType::False));
    assert!(matches!(le(vec![number(2), number(2)]).unwrap(), LispType::True));
    assert!(matches!(le(vec![number(3), number(2)]).unwrap(), LispType::False));
    assert!(matches!(gt(vec![number(3), number(2)]).unwrap(), LispType::True));
    assert!(matches!(gt(vec![number(2), number(2)]).unwrap(), LispType::False));
    assert!(matches!(ge(vec![number(2), number(2)]).unwrap(), LispType::True));
    assert!(matches!(ge(vec![number(-1), number(2)]).unwrap(), LispType::False));
    assert!(matches!(binary_bool_op(BoolOp::Lt, vec![number(-1), number(2)]).unwrap(), LispType::True));
}

#[test]
fn list_primitives() {
    assert_eq!(pr_str(&mk_list(vec![number(1), text("a")]).unwrap(), true), "(1 \"a\")");
    assert_eq!(pr_str(&mk_list(vec![]).unwrap(), true), "()");
    assert!(matches!(is_list(vec![LispType::List(vec![])]).unwrap(), LispType::True));
    assert!(matches!(is_list(vec![LispType::Vector(vec![])]).unwrap(), LispType::False));
    assert!(matches!(is_list(vec![LispType::List(vec![]), number(1)]).unwrap(), LispType::False));
    assert!(matches!(is_list(vec![]).unwrap(), LispType::True));
    assert!(matches!(is_empty(vec![LispType::List(vec![]), LispType::Vector(vec![])]).unwrap(), LispType::True));
    assert!(matches!(is_empty(vec![LispType::List(vec![number(1)])]).unwrap(), LispType::False));
    assert!(matches!(is_empty(vec![LispType::List(vec![number(1)]), number(5)]).unwrap(), LispType::False));
    assert!(matches!(is_empty(vec![LispType::List(vec![]), number(5)]).unwrap_err().kind, ErrorKind::NotAList(LispType::Integer(5))));
    assert!(matches!(is_empty(vec![LispType::Nil]).unwrap_err().kind, ErrorKind::NotAList(LispType::Nil)));
}

#[test]
fn count_adds_the_lengths() {
    assert_eq!(count(vec![]).unwrap(), number(0));
    assert_eq!(count(vec![LispType::Nil]).unwrap(), number(0));
    assert_eq!(count(vec![LispType::List(vec![number(1), number(2)])]).unwrap(), number(2));
    assert_eq!(
        count(vec![LispType::List(vec![number(1), number(2)]), LispType::Nil, LispType::Vector(vec![number(3)])]).unwrap(),
        number(3)
    );
    assert!(matches!(count(vec![text("abc")]).unwrap_err().kind, ErrorKind::NotAList(LispType::Str(_))));
}

#[test]
fn string_primitives() {
    let args = vec![text("a\"b"), number(1), LispType::List(vec![text("c")])];
    assert_eq!(minilisp::primitives::pr_str(args.clone()).unwrap(), text("\"a\\\"b\" 1 (\"c\")"));
    assert_eq!(str(args).unwrap(), text("a\"b1(c)"));
    assert_eq!(minilisp::primitives::pr_str(vec![]).unwrap(), text(""));
    assert_eq!(str(vec![]).unwrap(), text(""));
}

#[test]
fn printing_primitives() {
    let mut store = Store::new();
    assert_eq!(prn(vec![text("a b"), number(1)], &mut store).unwrap(), LispType::Nil);
    assert_eq!(minilisp::primitives::println(vec![text("a b"), number(1)], &mut store).unwrap(), LispType::Nil);
    assert_eq!(prn(vec![], &mut store).unwrap(), LispType::Nil);
    assert_eq!(store.take_output(), vec!["\"a b\" 1".to_string(), "a b 1".to_string(), String::new()]);
}

#[test]
fn apply_calls_the_primitive() {
    let mut store = Store::new();
    assert_eq!(apply(Primitive::Add, vec![number(1), number(2)], &mut store).unwrap(), number(3));
    assert_eq!(apply(Primitive::Count, vec![LispType::List(vec![number(1)])], &mut store).unwrap(), number(1));
    assert_eq!(apply(Primitive::Str, vec![number(1), number(2)], &mut store).unwrap(), text("12"));
    assert!(store.take_output().is_empty());
    assert_eq!(apply(Primitive::Println, vec![number(1)], &mut store).unwrap(), LispType::Nil);
    assert_eq!(store.take_output(), vec!["1".to_string()]);
}

#[test]
fn clone_keeps_the_value() {
    let v = LispType::List(vec![number(1), text("a"), LispType::Vector(vec![LispType::Keyword(":k".to_string())])]);
    assert_eq!(v.clone(), v);
    assert_eq!(pr_str(&closure().clone(), true), "#<function ...>");
}
