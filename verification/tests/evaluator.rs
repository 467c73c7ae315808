use minilisp::env::{Environment, Store};
use minilisp::eval::{eval, eval_ast, set_bindings};
use minilisp::primitives::default_environment;
use minilisp::reader::read_str;
use minilisp::repl::rep;
use minilisp::types::{pr_str, ErrorKind, LispError, LispType};

fn fresh() -> (Store, Environment) {
    let mut store = Store::new();
    let env = default_environment(&mut store);
    (store, env)
}

fn run(store: &mut Store, env: Environment, source: &str) -> Result<LispType, LispError> {
    let ast = read_str(source).unwrap();
    eval(&ast, env, store, u64::MAX)
}

fn shown(store: &mut Store, env: Environment, source: &str) -> String {
    pr_str(&run(store, env, source).unwrap(), true)
}

fn kind_of(store: &mut Store, env: Environment, source: &str) -> ErrorKind {
    run(store, env, source).unwrap_err().kind
}

#[test]
fn atoms_evaluate_to_themselves() {
    let (mut store, env) = fresh();
    assert_eq!(shown(&mut store, env, "42"), "42");
    assert_eq!(shown(&mut store, env, "nil"), "nil");
    assert_eq!(shown(&mut store, env, "true"), "true");
    assert_eq!(shown(&mut store, env, "\"a b\""), "\"a b\"");
    assert_eq!(shown(&mut store, env, ":key"), ":key");
}

#[test]
fn a_vector_is_not_evaluated() {
    let (mut store, env) = fresh();
    assert_eq!(shown(&mut store, env, "[1 (+ 1 2) x]"), "[1 (+ 1 2) x]");
}

#[test]
fn def_binds_in_the_current_frame_and_returns_the_value() {
    let (mut store, env) = fresh();
    assert_eq!(shown(&mut store, env, "(def! x 5)"), "5");
    assert_eq!(shown(&mut store, env, "(def! y x)"), "5");
    assert_eq!(env.get(&store, "y").unwrap(), LispType::Integer(5));
}

#[test]
fn def_inside_let_does_not_reach_the_outer_frame() {
    let (mut store, env) = fresh();
    assert_eq!(shown(&mut store, env, "(let* (a 1) (def! b 2))"), "2");
    assert!(matches!(kind_of(&mut store, env, "b"), ErrorKind::UnboundSymbol(ref name) if name == "b"));
}

#[test]
fn a_closure_sees_the_frame_in_which_it_was_made() {
    let (mut store, env) = fresh();
    let source = "(let* (x 1) (do (def! f (fn* () x)) (let* (x 2) (f))))";
    assert_eq!(run(&mut store, env, source).unwrap(), LispType::Integer(1));
}

#[test]
fn let_with_three_arguments_is_malformed() {
    let (mut store, env) = fresh();
    let source = "(let* (x 1) (def! f (fn* () x)) (let* (x 2) (f)))";
    assert!(matches!(kind_of(&mut store, env, source), ErrorKind::MalformedBindings));
}

#[test]
fn a_closure_sees_later_definitions_in_the_captured_frame() {
    let (mut store, env) = fresh();
    run(&mut store, env, "(def! f (fn* () later))").unwrap();
    assert!(matches!(kind_of(&mut store, env, "(f)"), ErrorKind::UnboundSymbol(ref name) if name == "later"));
    run(&mut store, env, "(def! later 7)").unwrap();
    assert_eq!(shown(&mut store, env, "(f)"), "7");
}

#[test]
fn let_bindings_see_the_earlier_ones() {
    let (mut store, env) = fresh();
    assert_eq!(shown(&mut store, env, "(let* (a 2 b (* a 3)) (+ a b))"), "8");
    assert_eq!(shown(&mut store, env, "(let* [a 2 b (* a 3)] (+ a b))"), "8");
}

#[test]
fn let_shadows_without_changing_the_outer_binding() {
    let (mut store, env) = fresh();
    run(&mut store, env, "(def! x 1)").unwrap();
    assert_eq!(shown(&mut store, env, "(let* (x 2) x)"), "2");
    assert_eq!(shown(&mut store, env, "x"), "1");
}

#[test]
fn if_takes_the_branch_that_the_condition_selects() {
    let (mut store, env) = fresh();
    assert_eq!(shown(&mut store, env, "(if true 1 2)"), "1");
    assert_eq!(shown(&mut store, env, "(if false 1 2)"), "2");
    assert_eq!(shown(&mut store, env, "(if nil 1 2)"), "2");
    assert_eq!(shown(&mut store, env, "(if false 1)"), "nil");
    assert_eq!(shown(&mut store, env, "(if 0 1 2)"), "1");
    assert_eq!(shown(&mut store, env, "(if \"\" 1 2)"), "1");
    assert_eq!(shown(&mut store, env, "(if (list) 1 2)"), "1");
}

#[test]
fn if_evaluates_only_the_branch_it_takes() {
    let (mut store, env) = fresh();
    assert_eq!(shown(&mut store, env, "(if true 1 (nope))"), "1");
    assert_eq!(shown(&mut store, env, "(if false (nope) 2)"), "2");
}

#[test]
fn if_with_fewer_than_two_arguments_is_malformed() {
    let (mut store, env) = fresh();
    assert!(matches!(kind_of(&mut store, env, "(if)"), ErrorKind::MalformedIf));
    assert!(matches!(kind_of(&mut store, env, "(if true)"), ErrorKind::MalformedIf));
    assert!(matches!(kind_of(&mut store, env, "(if false)"), ErrorKind::MalformedIf));
}

#[test]
fn if_reports_the_error_of_its_condition_first() {
    let (mut store, env) = fresh();
    assert!(matches!(kind_of(&mut store, env, "(if nope)"), ErrorKind::UnboundSymbol(ref name) if name == "nope"));
}

#[test]
fn do_returns_the_value_of_its_last_argument() {
    let (mut store, env) = fresh();
    assert_eq!(shown(&mut store, env, "(do (def! a 1) (def! b 2) (+ a b))"), "3");
}

#[test]
fn do_without_arguments_is_nil() {
    let (mut store, env) = fresh();
    assert_eq!(shown(&mut store, env, "(do)"), "nil");
}

#[test]
fn do_stops_at_the_first_error() {
    let (mut store, env) = fresh();
    assert!(matches!(kind_of(&mut store, env, "(do (nope) (def! after 1))"), ErrorKind::UnboundSymbol(_)));
    assert!(matches!(kind_of(&mut store, env, "after"), ErrorKind::UnboundSymbol(_)));
}

#[test]
fn fn_makes_a_closure_that_can_be_called() {
    let (mut store, env) = fresh();
    assert_eq!(shown(&mut store, env, "((fn* (a b) (+ a b)) 3 4)"), "7");
    assert_eq!(shown(&mut store, env, "((fn* [a b] (- a b)) 3 4)"), "-1");
    assert_eq!(shown(&mut store, env, "(fn* (a) a)"), "#<function ...>");
}

#[test]
fn a_closure_takes_the_rest_of_its_arguments_as_a_list() {
    let (mut store, env) = fresh();
    assert_eq!(shown(&mut store, env, "((fn* (a & more) more) 1 2 3)"), "(2 3)");
    assert_eq!(shown(&mut store, env, "((fn* (a & more) more) 1)"), "()");
    assert_eq!(shown(&mut store, env, "((fn* (& all) (count all)) 1 2 3)"), "3");
}

#[test]
fn a_call_with_the_wrong_number_of_arguments_fails() {
    let (mut store, env) = fresh();
    assert!(matches!(kind_of(&mut store, env, "((fn* (a b) a) 1)"), ErrorKind::ArityMismatch));
    assert!(matches!(kind_of(&mut store, env, "((fn* (a) a) 1 2)"), ErrorKind::ArityMismatch));
    assert!(matches!(kind_of(&mut store, env, "((fn* (a & more) a))"), ErrorKind::ArityMismatch));
}

#[test]
fn a_call_with_bad_parameters_fails() {
    let (mut store, env) = fresh();
    assert!(matches!(kind_of(&mut store, env, "((fn* (1) 1) 1)"), ErrorKind::InvalidBindingForm));
    assert!(matches!(kind_of(&mut store, env, "((fn* (&) 1))"), ErrorKind::InvalidBindingForm));
    assert!(matches!(kind_of(&mut store, env, "((fn* (& 5) 1))"), ErrorKind::InvalidBindingForm));
    assert!(matches!(kind_of(&mut store, env, "((fn* (& a b) 1))"), ErrorKind::InvalidBindingForm));
}

#[test]
fn malformed_special_forms_fail() {
    let (mut store, env) = fresh();
    assert!(matches!(kind_of(&mut store, env, "(def! x)"), ErrorKind::MalformedDef));
    assert!(matches!(kind_of(&mut store, env, "(def! 1 2)"), ErrorKind::MalformedDef));
    assert!(matches!(kind_of(&mut store, env, "(def! x 1 2)"), ErrorKind::MalformedDef));
    assert!(matches!(kind_of(&mut store, env, "(fn* (a))"), ErrorKind::MalformedFn));
    assert!(matches!(kind_of(&mut store, env, "(fn* a a)"), ErrorKind::MalformedFn));
    assert!(matches!(kind_of(&mut store, env, "(let* x x)"), ErrorKind::MalformedBindings));
    assert!(matches!(kind_of(&mut store, env, "(let* (x 1))"), ErrorKind::MalformedBindings));
    assert!(matches!(kind_of(&mut store, env, "(let* (1 2) 3)"), ErrorKind::MalformedBindings));
}

#[test]
fn let_with_an_odd_number_of_bindings_is_malformed() {
    let (mut store, env) = fresh();
    assert!(matches!(kind_of(&mut store, env, "(let* (x) x)"), ErrorKind::MalformedBindings));
}

#[test]
fn an_empty_list_cannot_be_applied() {
    let (mut store, env) = fresh();
    assert!(matches!(kind_of(&mut store, env, "()"), ErrorKind::EmptyApplication));
}

#[test]
fn what_is_not_a_function_cannot_be_called() {
    let (mut store, env) = fresh();
    assert!(matches!(kind_of(&mut store, env, "(1 2 3)"), ErrorKind::NotCallable(LispType::Integer(1))));
    assert!(matches!(kind_of(&mut store, env, "(\"f\" 1)"), ErrorKind::NotCallable(LispType::Str(_))));
}

#[test]
fn the_head_fails_before_the_arguments_are_evaluated() {
    let (mut store, env) = fresh();
    assert!(matches!(kind_of(&mut store, env, "(1 (def! seen 1))"), ErrorKind::NotCallable(_)));
    assert!(matches!(kind_of(&mut store, env, "seen"), ErrorKind::UnboundSymbol(_)));
}

#[test]
fn arguments_are_evaluated_from_left_to_right() {
    let (mut store, env) = fresh();
    assert_eq!(shown(&mut store, env, "(list (def! a 1) (def! a 2) a)"), "(1 2 2)");
}

#[test]
fn a_tail_call_loop_of_a_hundred_thousand_rounds_completes() {
    let (mut store, env) = fresh();
    run(&mut store, env, "(def! loop (fn* (n) (if (= n 0) 0 (loop (- n 1)))))").unwrap();
    assert_eq!(run(&mut store, env, "(loop 100000)").unwrap(), LispType::Integer(0));
}

#[test]
fn a_tail_call_in_do_and_let_completes() {
    let (mut store, env) = fresh();
    run(&mut store, env, "(def! down (fn* (n acc) (if (= n 0) acc (do 1 (let* (m (- n 1)) (down m (+ acc 2)))))))").unwrap();
    assert_eq!(shown(&mut store, env, "(down 20000 0)"), "40000");
}

#[test]
fn recursion_that_is_not_in_tail_position_works() {
    let (mut store, env) = fresh();
    run(&mut store, env, "(def! sum (fn* (n) (if (= n 0) 0 (+ n (sum (- n 1))))))").unwrap();
    assert_eq!(shown(&mut store, env, "(sum 100)"), "5050");
}

#[test]
fn evaluation_stops_when_the_fuel_runs_out() {
    let (mut store, env) = fresh();
    run(&mut store, env, "(def! forever (fn* () (forever)))").unwrap();
    let ast = read_str("(forever)").unwrap();
    let err = eval(&ast, env, &mut store, 1000).unwrap_err();
    assert!(matches!(err.kind, ErrorKind::StepLimit));
}

#[test]
fn an_atom_needs_no_fuel_and_a_list_needs_one_round() {
    let (mut store, env) = fresh();
    let atom = read_str("7").unwrap();
    assert_eq!(eval(&atom, env, &mut store, 0).unwrap(), LispType::Integer(7));
    let sum = read_str("(+ 1 2)").unwrap();
    assert!(matches!(eval(&sum, env, &mut store, 0).unwrap_err().kind, ErrorKind::StepLimit));
    assert_eq!(eval(&sum, env, &mut store, 1).unwrap(), LispType::Integer(3));
    let nested = read_str("(+ 1 (+ 1 1))").unwrap();
    assert!(matches!(eval(&nested, env, &mut store, 1).unwrap_err().kind, ErrorKind::StepLimit));
    assert_eq!(eval(&nested, env, &mut store, 2).unwrap(), LispType::Integer(3));
}

#[test]
fn printing_primitives_write_lines_to_the_store() {
    let (mut store, env) = fresh();
    assert_eq!(shown(&mut store, env, "(prn \"a\" 1)"), "nil");
    assert_eq!(shown(&mut store, env, "(println \"a\" 1)"), "nil");
    assert_eq!(store.take_output(), vec!["\"a\" 1".to_string(), "a 1".to_string()]);
    assert!(store.take_output().is_empty());
}

#[test]
fn eval_ast_evaluates_the_elements_of_a_list() {
    let (mut store, env) = fresh();
    let ast = read_str("((+ 1 2) 4 \"s\")").unwrap();
    let value = eval_ast(&ast, env, &mut store, 10).unwrap();
    assert_eq!(pr_str(&value, true), "(3 4 \"s\")");
    let symbol = read_str("count").unwrap();
    assert_eq!(pr_str(&eval_ast(&symbol, env, &mut store, 10).unwrap(), true), "#<function ...>");
    let vector = read_str("[a b]").unwrap();
    assert_eq!(pr_str(&eval_ast(&vector, env, &mut store, 10).unwrap(), true), "[a b]");
}

#[test]
fn set_bindings_binds_pairs_in_order() {
    let (mut store, env) = fresh();
    let child = Environment::new(&mut store, Some(env));
    let pairs = match read_str("(a 1 b (+ a 1))").unwrap() {
        LispType::List(pairs) => pairs,
        _ => unreachable!(),
    };
    assert_eq!(set_bindings(&pairs, child, &mut store, 10).unwrap(), LispType::Nil);
    assert_eq!(child.get(&store, "b").unwrap(), LispType::Integer(2));
    assert!(env.get(&store, "b").is_err());
}

#[test]
fn rep_reads_evaluates_and_prints() {
    let (mut store, env) = fresh();
    assert_eq!(rep("(+ 1 2)", env, &mut store, 1000), "3");
    assert_eq!(rep("(str \"a\" \"b\")", env, &mut store, 1000), "ab");
    assert_eq!(rep("\"a\\nb\"", env, &mut store, 1000), "a\nb");
    assert_eq!(rep("(def! not (fn* (a) (if a false true)))", env, &mut store, 1000), "#<function ...>");
    assert_eq!(rep("(not nil)", env, &mut store, 1000), "true");
}

#[test]
fn rep_prints_errors() {
    let (mut store, env) = fresh();
    assert_eq!(rep("nope", env, &mut store, 1000), "error: nope not found");
    assert_eq!(rep("(1 2", env, &mut store, 1000), "error: expected more input but got EOF");
    assert_eq!(rep("(5 1)", env, &mut store, 1000), "error: 5 is not a function, cannot evaluate it");
    assert_eq!(rep("(+ 1)", env, &mut store, 1000), "error: binary function called with 1 arguments");
    assert_eq!(
        rep("(+ 1 \"x\")", env, &mut store, 1000),
        "error: illegal argument: x to function which expects integers"
    );
    assert_eq!(rep("(count 5)", env, &mut store, 1000), "error: argument 5 is not a list");
    assert_eq!(rep("()", env, &mut store, 1000), "error: tried to evaluate a list with no function");
}

#[test]
fn more_fuel_than_needed_changes_nothing() {
    let source = "(do (def! f (fn* (n) (if (= n 0) (list 1 2) (f (- n 1))))) (f 5))";
    let ast = read_str(source).unwrap();
    let mut results = Vec::new();
    for fuel in [20, 21, 1000, u64::MAX] {
        let (mut store, env) = fresh();
        let value = eval(&ast, env, &mut store, fuel).unwrap();
        results.push((pr_str(&value, true), store.len()));
    }
    assert_eq!(results[0], ("(1 2)".to_string(), 7));
    assert!(results.iter().all(|r| *r == results[0]));
    let (mut store, env) = fresh();
    assert!(matches!(eval(&ast, env, &mut store, 5).unwrap_err().kind, ErrorKind::StepLimit));
}

#[test]
fn equality_in_the_language_crosses_lists_and_vectors() {
    let (mut store, env) = fresh();
    assert_eq!(shown(&mut store, env, "(= (list 1 2) [1 2])"), "true");
    assert_eq!(shown(&mut store, env, "(= [1 2] (list 1 2))"), "true");
    assert_eq!(shown(&mut store, env, "(= (list 1 2) [1 3])"), "false");
    assert_eq!(shown(&mut store, env, "(= (list 1 (list 2 3)) [1 [2 3]])"), "true");
}

#[test]
fn a_function_is_not_equal_to_itself_in_the_language() {
    let (mut store, env) = fresh();
    assert_eq!(shown(&mut store, env, "(= + +)"), "false");
    run(&mut store, env, "(def! f (fn* (a) a))").unwrap();
    assert_eq!(shown(&mut store, env, "(= f f)"), "false");
    assert_eq!(shown(&mut store, env, "(= (list f) (list f))"), "false");
}

#[test]
fn primitives_are_called_through_their_names() {
    let (mut store, env) = fresh();
    assert_eq!(shown(&mut store, env, "(+ 1 (* 2 3))"), "7");
    assert_eq!(shown(&mut store, env, "(/ (- 10 1) 2)"), "4");
    assert_eq!(shown(&mut store, env, "(list? (list))"), "true");
    assert_eq!(shown(&mut store, env, "(empty? [])"), "true");
    assert_eq!(shown(&mut store, env, "(count (list 1 2 3))"), "3");
    assert_eq!(shown(&mut store, env, "(<= 1 1)"), "true");
    assert_eq!(shown(&mut store, env, "(pr-str \"a\" (list 1))"), "\"\\\"a\\\" (1)\"");
    assert_eq!(shown(&mut store, env, "(str \"a\" (list 1))"), "\"a(1)\"");
    assert!(matches!(kind_of(&mut store, env, "(/ 1 0)"), ErrorKind::ArithmeticError));
    assert!(matches!(
        kind_of(&mut store, env, "(+ 9223372036854775807 1)"),
        ErrorKind::ArithmeticError
    ));
    assert!(matches!(kind_of(&mut store, env, "(vector 1 2)"), ErrorKind::UnboundSymbol(ref n) if n == "vector"));
}
