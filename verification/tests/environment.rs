use minilisp::env::{Environment, Store};
use minilisp::primitives::default_environment;
use minilisp::types::{ErrorKind, LispType, Primitive};

fn symbol(name: &str) -> LispType {
    LispType::Symbol(name.to_string())
}

#[test]
fn a_new_store_has_no_frames() {
    let store = Store::new();
    assert_eq!(store.len(), 0);
}

#[test]
fn lookup_in_a_fresh_root_frame_fails() {
    let mut store = Store::new();
    let env = Environment::new(&mut store, None);
    let err = env.get(&store, "nope").unwrap_err();
    assert!(matches!(err.kind, ErrorKind::UnboundSymbol(ref name) if name == "nope"));
    assert_eq!(err.message(), "nope not found");
}

#[test]
fn set_then_get_returns_the_value() {
    let mut store = Store::new();
    let env = Environment::new(&mut store, None);
    env.set(&mut store, "x", LispType::Integer(5));
    assert_eq!(env.get(&store, "x").unwrap(), LispType::Integer(5));
}

#[test]
fn set_overwrites_in_the_same_frame() {
    let mut store = Store::new();
    let env = Environment::new(&mut store, None);
    env.set(&mut store, "x", LispType::Integer(5));
    env.set(&mut store, "y", LispType::Integer(6));
    env.set(&mut store, "x", LispType::Integer(7));
    assert_eq!(env.get(&store, "x").unwrap(), LispType::Integer(7));
    assert_eq!(env.get(&store, "y").unwrap(), LispType::Integer(6));
}

#[test]
fn get_walks_outwards_and_set_stays_local() {
    let mut store = Store::new();
    let root = Environment::new(&mut store, None);
    let child = Environment::new(&mut store, Some(root));
    let grandchild = Environment::new(&mut store, Some(child));
    root.set(&mut store, "x", LispType::Integer(1));
    assert_eq!(grandchild.get(&store, "x").unwrap(), LispType::Integer(1));
    child.set(&mut store, "x", LispType::Integer(2));
    assert_eq!(grandchild.get(&store, "x").unwrap(), LispType::Integer(2));
    assert_eq!(child.get(&store, "x").unwrap(), LispType::Integer(2));
    assert_eq!(root.get(&store, "x").unwrap(), LispType::Integer(1));
    grandchild.set(&mut store, "y", LispType::Integer(3));
    assert!(child.get(&store, "y").is_err());
}

#[test]
fn frames_are_numbered_in_the_order_they_were_made() {
    let mut store = Store::new();
    let root = Environment::new(&mut store, None);
    let child = Environment::new(&mut store, Some(root));
    assert_eq!(store.len(), 2);
    assert!(store.contains(root));
    assert!(store.contains(child));
    let other = Store::new();
    assert!(!other.contains(root));
}

#[test]
fn with_bindings_binds_each_parameter_to_its_argument() {
    let mut store = Store::new();
    let root = Environment::new(&mut store, None);
    let frame = Environment::with_bindings(
        &mut store,
        Some(root),
        vec![symbol("a"), symbol("b"), symbol("c")],
        vec![LispType::Integer(1), LispType::Str("two".to_string()), LispType::Nil],
    )
    .unwrap();
    assert_eq!(frame.get(&store, "a").unwrap(), LispType::Integer(1));
    assert_eq!(frame.get(&store, "b").unwrap(), LispType::Str("two".to_string()));
    assert_eq!(frame.get(&store, "c").unwrap(), LispType::Nil);
    assert!(root.get(&store, "a").is_err());
}

#[test]
fn with_bindings_lets_a_repeated_parameter_keep_the_last_argument() {
    let mut store = Store::new();
    let frame = Environment::with_bindings(
        &mut store,
        None,
        vec![symbol("a"), symbol("a")],
        vec![LispType::Integer(1), LispType::Integer(2)],
    )
    .unwrap();
    assert_eq!(frame.get(&store, "a").unwrap(), LispType::Integer(2));
}

#[test]
fn with_bindings_collects_the_rest() {
    let mut store = Store::new();
    let frame = Environment::with_bindings(
        &mut store,
        None,
        vec![symbol("a"), symbol("&"), symbol("rest")],
        vec![LispType::Integer(1), LispType::Integer(2), LispType::Integer(3)],
    )
    .unwrap();
    assert_eq!(
        frame.get(&store, "rest").unwrap(),
        LispType::List(vec![LispType::Integer(2), LispType::Integer(3)])
    );
    let empty = Environment::with_bindings(
        &mut store,
        None,
        vec![symbol("&"), symbol("rest")],
        vec![],
    )
    .unwrap();
    assert_eq!(empty.get(&store, "rest").unwrap(), LispType::List(vec![]));
}

#[test]
fn with_bindings_rejects_a_wrong_count() {
    let mut store = Store::new();
    let few = Environment::with_bindings(&mut store, None, vec![symbol("a"), symbol("b")], vec![LispType::Nil]);
    assert!(matches!(few.unwrap_err().kind, ErrorKind::ArityMismatch));
    let many = Environment::with_bindings(&mut store, None, vec![symbol("a")], vec![LispType::Nil, LispType::Nil]);
    assert!(matches!(many.unwrap_err().kind, ErrorKind::ArityMismatch));
    assert_eq!(store.len(), 0);
}

#[test]
fn with_bindings_rejects_bad_parameters() {
    let mut store = Store::new();
    let number = Environment::with_bindings(&mut store, None, vec![LispType::Integer(1)], vec![LispType::Nil]);
    assert!(matches!(number.unwrap_err().kind, ErrorKind::InvalidBindingForm));
    let bare = Environment::with_bindings(&mut store, None, vec![symbol("&")], vec![]);
    assert!(matches!(bare.unwrap_err().kind, ErrorKind::InvalidBindingForm));
    let two = Environment::with_bindings(
        &mut store,
        None,
        vec![symbol("&"), symbol("a"), symbol("b")],
        vec![],
    );
    assert!(matches!(two.unwrap_err().kind, ErrorKind::InvalidBindingForm));
    let keyword = Environment::with_bindings(
        &mut store,
        None,
        vec![symbol("&"), LispType::Keyword(":a".to_string())],
        vec![],
    );
    assert!(matches!(keyword.unwrap_err().kind, ErrorKind::InvalidBindingForm));
}

#[test]
fn with_bindings_reports_the_first_problem_from_the_left() {
    let mut store = Store::new();
    let r = Environment::with_bindings(&mut store, None, vec![symbol("a"), LispType::Integer(5)], vec![]);
    assert!(matches!(r.unwrap_err().kind, ErrorKind::ArityMismatch));
    let r = Environment::with_bindings(&mut store, None, vec![LispType::Integer(5), symbol("a")], vec![]);
    assert!(matches!(r.unwrap_err().kind, ErrorKind::InvalidBindingForm));
}

#[test]
fn the_default_environment_binds_the_primitives() {
    let mut store = Store::new();
    let env = default_environment(&mut store);
    let names = [
        ("+", Primitive::Add),
        ("-", Primitive::Sub),
        ("*", Primitive::Mul),
        ("/", Primitive::Div),
        ("list", Primitive::List),
        ("list?", Primitive::IsList),
        ("empty?", Primitive::IsEmpty),
        ("count", Primitive::Count),
        ("=", Primitive::Eq),
        ("<", Primitive::Lt),
        ("<=", Primitive::Le),
        (">", Primitive::Gt),
        (">=", Primitive::Ge),
        ("pr-str", Primitive::PrStr),
        ("str", Primitive::Str),
        ("prn", Primitive::Prn),
        ("println", Primitive::Println),
    ];
    for (name, primitive) in names {
        assert!(matches!(env.get(&store, name).unwrap(), LispType::Func(p) if p == primitive));
    }
    assert!(env.get(&store, "vector").is_err());
}

#[test]
fn a_store_admits_the_values_that_refer_to_its_frames() {
    let mut store = Store::new();
    let empty = Store::new();
    let env = Environment::new(&mut store, None);
    let closure = LispType::Closure(vec![symbol("a")], Box::new(symbol("a")), env);
    let nested = LispType::List(vec![LispType::Integer(1), LispType::Vector(vec![closure.clone()])]);
    assert!(store.admits(&closure));
    assert!(store.admits(&nested));
    assert!(!empty.admits(&closure));
    assert!(!empty.admits(&nested));
    assert!(empty.admits(&LispType::List(vec![LispType::Integer(1), symbol("x")])));
    assert!(closure.is_closed_under(1));
    assert!(!closure.is_closed_under(0));
    assert_eq!(env.index(), 0);
}
