//! The evaluator: its meaning as a recursive function on models, the loop that
//! computes it, and what follows from the meaning.

use crate::env::{
    bind_spec, lemma_empty_child_sees_outer, lemma_extends_refl, lemma_extends_steps,
    lemma_extends_trans, Environment, Store, StoreView,
};
use crate::primitives::{apply, apply_spec, lemma_apply_closed, store_after};
use crate::text::text_is;
use crate::types::{
    all_closed, clone_values, fail, lemma_all_closed_grows, lemma_closed_under_grows, result_view,
    values_of, ErrorKind, Failure, LispError, LispResult, LispType, Value,
};
use vstd::prelude::*;

verus! {

/// What one round of the evaluator leaves: a value, or the expression and the
/// frame with which the next round goes on.
pub enum Step {
    Done(LispType),
    Tail(LispType, Environment),
}

/// The model of a `Step`.
pub enum StepView {
    Done(Value),
    Tail(Value, int),
}

impl View for Step {
    type V = StepView;

    open spec fn view(&self) -> StepView {
        match self {
            Step::Done(v) => StepView::Done(v@),
            Step::Tail(next, env) => StepView::Tail(next@, env@),
        }
    }
}

/// A result together with the store that the computation left.
pub struct Outcome<T> {
    pub result: Result<T, Failure>,
    pub store: StoreView,
}

/// The form that the head of a list selects.
#[derive(Clone, Copy, Debug, PartialEq, Eq, Structural)]
pub enum Form {
    Def,
    Let,
    Do,
    If,
    Fn,
    Call,
}

/// The form that a list with the head `head` is: a special form where the head is
/// the symbol that names one, an application otherwise.
pub open spec fn form_spec(head: Value) -> Form {
    if head == Value::Symbol("def!"@) {
        Form::Def
    } else if head == Value::Symbol("let*"@) {
        Form::Let
    } else if head == Value::Symbol("do"@) {
        Form::Do
    } else if head == Value::Symbol("if"@) {
        Form::If
    } else if head == Value::Symbol("fn*"@) {
        Form::Fn
    } else {
        Form::Call
    }
}

/// The meaning of `eval`: the value of `ast` in frame `env` of store `st`, and the
/// store afterwards. `fuel` bounds the rounds that any one chain of nested
/// evaluations and tail calls may take; a list costs one, an atom nothing.
pub open spec fn eval_spec(ast: Value, env: int, st: StoreView, fuel: nat) -> Outcome<Value>
    decreases fuel, 2nat, 0nat,
{
    let step = step_spec(ast, env, st, fuel);
    match step.result {
        Ok(s) => finish_spec(s, step.store, fuel),
        Err(e) => Outcome { result: Err(e), store: step.store },
    }
}

/// What is left to do after a round that took place with `fuel`.
pub open spec fn finish_spec(step: StepView, st: StoreView, fuel: nat) -> Outcome<Value>
    decreases fuel, 0nat, 0nat,
{
    match step {
        StepView::Done(v) => Outcome { result: Ok(v), store: st },
        StepView::Tail(next, env) => if fuel > 0 {
            eval_spec(next, env, st, (fuel - 1) as nat)
        } else {
            Outcome { result: Err(Failure::StepLimit), store: st }
        },
    }
}

/// One round: a symbol is looked up, another atom is its own value, and a list is
/// a special form or an application.
pub open spec fn step_spec(ast: Value, env: int, st: StoreView, fuel: nat) -> Outcome<StepView>
    decreases fuel, 1nat, 0nat,
{
    match ast {
        Value::Symbol(name) => Outcome {
            result: match st.lookup(env, name) {
                Some(v) => Ok(StepView::Done(v)),
                None => Err(Failure::UnboundSymbol(name)),
            },
            store: st,
        },
        Value::List(items) => if items.len() == 0 {
            Outcome { result: Err(Failure::EmptyApplication), store: st }
        } else if fuel == 0 {
            Outcome { result: Err(Failure::StepLimit), store: st }
        } else {
            let f = (fuel - 1) as nat;
            let args = items.subrange(1, items.len() as int);
            match form_spec(items[0]) {
                Form::Def => def_spec(args, env, st, f),
                Form::Let => let_spec(args, env, st, f),
                Form::Do => do_spec(args, env, st, f),
                Form::If => if_spec(args, env, st, f),
                Form::Fn => fn_spec(args, env, st),
                Form::Call => call_spec(items[0], args, env, st, f),
            }
        },
        _ => Outcome { result: Ok(StepView::Done(ast)), store: st },
    }
}

/// `(def! name expr)`: the value of `expr`, bound to `name` in the current frame.
pub open spec fn def_spec(args: Seq<Value>, env: int, st: StoreView, fuel: nat) -> Outcome<StepView>
    decreases fuel, 4nat, 0nat,
{
    if args.len() == 2 && args[0] is Symbol {
        let value = eval_spec(args[1], env, st, fuel);
        match value.result {
            Ok(v) => Outcome {
                result: Ok(StepView::Done(v)),
                store: value.store.set(env, args[0]->Symbol_0, v),
            },
            Err(e) => Outcome { result: Err(e), store: value.store },
        }
    } else {
        Outcome { result: Err(Failure::MalformedDef), store: st }
    }
}

/// `(let* (name expr ...) body)`: a new frame inside the current one, filled pair
/// by pair, each `expr` seeing the names before it; then `body` in that frame.
pub open spec fn let_spec(args: Seq<Value>, env: int, st: StoreView, fuel: nat) -> Outcome<StepView>
    decreases fuel, 4nat, 0nat,
{
    if args.len() == 2 && args[0].elements() is Some {
        let child = st.frames.len() as int;
        let bound = bindings_from(
            args[0].elements()->0,
            0,
            child,
            st.push_frame(Map::empty(), Some(env)),
            fuel,
        );
        match bound.result {
            Ok(_) => Outcome { result: Ok(StepView::Tail(args[1], child)), store: bound.store },
            Err(e) => Outcome { result: Err(e), store: bound.store },
        }
    } else {
        Outcome { result: Err(Failure::MalformedBindings), store: st }
    }
}

/// The pairs of `bindings` from position `i` on, evaluated and bound in frame `env`.
pub open spec fn bindings_from(
    bindings: Seq<Value>,
    i: int,
    env: int,
    st: StoreView,
    fuel: nat,
) -> Outcome<()>
    decreases fuel, 3nat, bindings.len() - i,
{
    if i < 0 || i >= bindings.len() {
        Outcome { result: Ok(()), store: st }
    } else if i + 1 >= bindings.len() {
        Outcome { result: Err(Failure::MalformedBindings), store: st }
    } else {
        match bindings[i] {
            Value::Symbol(name) => {
                let value = eval_spec(bindings[i + 1], env, st, fuel);
                match value.result {
                    Ok(v) => bindings_from(bindings, i + 2, env, value.store.set(env, name, v), fuel),
                    Err(e) => Outcome { result: Err(e), store: value.store },
                }
            },
            _ => Outcome { result: Err(Failure::MalformedBindings), store: st },
        }
    }
}

/// `(do e1 ... en)`: `e1` to the one before `en` for their effects, then `en`.
/// Without arguments it is `nil`.
pub open spec fn do_spec(args: Seq<Value>, env: int, st: StoreView, fuel: nat) -> Outcome<StepView>
    decreases fuel, 4nat, 0nat,
{
    let effects = effects_from(args, 0, env, st, fuel);
    match effects.result {
        Ok(_) => Outcome {
            result: Ok(
                StepView::Tail(
                    if args.len() == 0 {
                        Value::Nil
                    } else {
                        args.last()
                    },
                    env,
                ),
            ),
            store: effects.store,
        },
        Err(e) => Outcome { result: Err(e), store: effects.store },
    }
}

/// The expressions of `exprs` from position `i` to the one before the last,
/// evaluated in order, their values dropped.
pub open spec fn effects_from(
    exprs: Seq<Value>,
    i: int,
    env: int,
    st: StoreView,
    fuel: nat,
) -> Outcome<()>
    decreases fuel, 3nat, exprs.len() - i,
{
    if i < 0 || i + 1 >= exprs.len() {
        Outcome { result: Ok(()), store: st }
    } else {
        let value = eval_spec(exprs[i], env, st, fuel);
        match value.result {
            Ok(_) => effects_from(exprs, i + 1, env, value.store, fuel),
            Err(e) => Outcome { result: Err(e), store: value.store },
        }
    }
}

/// `(if cond then else)`: `else`, or `nil` where there is none, if `cond` is `nil`
/// or `false`; `then` otherwise.
pub open spec fn if_spec(args: Seq<Value>, env: int, st: StoreView, fuel: nat) -> Outcome<StepView>
    decreases fuel, 4nat, 0nat,
{
    if args.len() == 0 {
        Outcome { result: Err(Failure::MalformedIf), store: st }
    } else {
        let cond = eval_spec(args[0], env, st, fuel);
        match cond.result {
            Ok(c) => Outcome {
                result: if args.len() < 2 {
                    Err(Failure::MalformedIf)
                } else if c is Nil || c is False {
                    if args.len() >= 3 {
                        Ok(StepView::Tail(args[2], env))
                    } else {
                        Ok(StepView::Done(Value::Nil))
                    }
                } else {
                    Ok(StepView::Tail(args[1], env))
                },
                store: cond.store,
            },
            Err(e) => Outcome { result: Err(e), store: cond.store },
        }
    }
}

/// `(fn* params body)`: a closure over the current frame.
pub open spec fn fn_spec(args: Seq<Value>, env: int, st: StoreView) -> Outcome<StepView> {
    Outcome {
        result: if args.len() == 2 && args[0].elements() is Some {
            Ok(StepView::Done(Value::Closure(args[0].elements()->0, Box::new(args[1]), env)))
        } else {
            Err(Failure::MalformedFn)
        },
        store: st,
    }
}

/// An application: the head is evaluated, then the arguments from left to right.
/// A primitive is called on them. A closure gets a new frame inside the one it
/// captured, with its parameters bound to them, and its body goes on there.
pub open spec fn call_spec(
    head: Value,
    args: Seq<Value>,
    env: int,
    st: StoreView,
    fuel: nat,
) -> Outcome<StepView>
    decreases fuel, 4nat, 0nat,
{
    let callee = eval_spec(head, env, st, fuel);
    match callee.result {
        Ok(Value::Func(p)) => {
            let values = list_from(args, 0, Seq::empty(), env, callee.store, fuel);
            match values.result {
                Ok(vs) => Outcome {
                    result: match apply_spec(p, vs) {
                        Ok(v) => Ok(StepView::Done(v)),
                        Err(e) => Err(e),
                    },
                    store: store_after(p, vs, values.store),
                },
                Err(e) => Outcome { result: Err(e), store: values.store },
            }
        },
        Ok(Value::Closure(params, body, captured)) => {
            let values = list_from(args, 0, Seq::empty(), env, callee.store, fuel);
            match values.result {
                Ok(vs) => match bind_spec(params, vs) {
                    Ok(symbols) => Outcome {
                        result: Ok(StepView::Tail(*body, values.store.frames.len() as int)),
                        store: values.store.push_frame(symbols, Some(captured)),
                    },
                    Err(e) => Outcome { result: Err(e), store: values.store },
                },
                Err(e) => Outcome { result: Err(e), store: values.store },
            }
        },
        Ok(other) => Outcome { result: Err(Failure::NotCallable(other)), store: callee.store },
        Err(e) => Outcome { result: Err(e), store: callee.store },
    }
}

/// The values of `items` from position `i` on, evaluated from left to right and
/// added to `done`.
pub open spec fn list_from(
    items: Seq<Value>,
    i: int,
    done: Seq<Value>,
    env: int,
    st: StoreView,
    fuel: nat,
) -> Outcome<Seq<Value>>
    decreases fuel, 3nat, items.len() - i,
{
    if i < 0 || i >= items.len() {
        Outcome { result: Ok(done), store: st }
    } else {
        let value = eval_spec(items[i], env, st, fuel);
        match value.result {
            Ok(v) => list_from(items, i + 1, done.push(v), env, value.store, fuel),
            Err(e) => Outcome { result: Err(e), store: value.store },
        }
    }
}

/// The list `(if args...)`.
pub open spec fn if_form(args: Seq<Value>) -> Value {
    Value::List(seq![Value::Symbol("if"@)] + args)
}

proof fn lemma_if_is_a_form()
    ensures
        form_spec(Value::Symbol("if"@)) == Form::If,
{
    reveal_strlit("if");
    reveal_strlit("def!");
    reveal_strlit("let*");
    reveal_strlit("do");
    assert("if"@.len() == 2);
    assert("def!"@.len() == 4);
    assert("let*"@.len() == 4);
    assert("do"@[0] == 'd');
    assert("if"@[0] == 'i');
}

/// A value that is neither a symbol nor a list is its own value, whatever the fuel.
pub proof fn lemma_atom_is_its_own_value(ast: Value, env: int, st: StoreView, fuel: nat)
    requires
        !(ast is Symbol),
        !(ast is List),
    ensures
        eval_spec(ast, env, st, fuel) == (Outcome { result: Ok(ast), store: st }),
{
}

/// `(if true a b)` is `a`.
pub proof fn lemma_if_true(a: Value, b: Value, env: int, st: StoreView, fuel: nat)
    ensures
        eval_spec(if_form(seq![Value::True, a, b]), env, st, fuel + 1) == eval_spec(a, env, st, fuel),
{
    let items = seq![Value::Symbol("if"@)] + seq![Value::True, a, b];
    let args = items.subrange(1, items.len() as int);
    lemma_if_is_a_form();
    lemma_atom_is_its_own_value(Value::True, env, st, fuel);
    assert(args =~= seq![Value::True, a, b]);
    assert(items[0] == Value::Symbol("if"@));
    assert(if_spec(args, env, st, fuel) == (Outcome { result: Ok(StepView::Tail(a, env)), store: st }));
    assert(step_spec(if_form(seq![Value::True, a, b]), env, st, fuel + 1) == if_spec(args, env, st, fuel));
}

/// `(if false a b)` is `b`.
pub proof fn lemma_if_false(a: Value, b: Value, env: int, st: StoreView, fuel: nat)
    ensures
        eval_spec(if_form(seq![Value::False, a, b]), env, st, fuel + 1) == eval_spec(b, env, st, fuel),
{
    let items = seq![Value::Symbol("if"@)] + seq![Value::False, a, b];
    let args = items.subrange(1, items.len() as int);
    lemma_if_is_a_form();
    lemma_atom_is_its_own_value(Value::False, env, st, fuel);
    assert(args =~= seq![Value::False, a, b]);
    assert(items[0] == Value::Symbol("if"@));
    assert(if_spec(args, env, st, fuel) == (Outcome { result: Ok(StepView::Tail(b, env)), store: st }));
    assert(step_spec(if_form(seq![Value::False, a, b]), env, st, fuel + 1) == if_spec(args, env, st, fuel));
}

/// `(if false a)` is `nil`, and `a` is not evaluated.
pub proof fn lemma_if_false_without_else(a: Value, env: int, st: StoreView, fuel: nat)
    ensures
        eval_spec(if_form(seq![Value::False, a]), env, st, fuel + 1) == (Outcome {
            result: Ok(Value::Nil),
            store: st,
        }),
{
    let items = seq![Value::Symbol("if"@)] + seq![Value::False, a];
    let args = items.subrange(1, items.len() as int);
    lemma_if_is_a_form();
    lemma_atom_is_its_own_value(Value::False, env, st, fuel);
    assert(args =~= seq![Value::False, a]);
    assert(items[0] == Value::Symbol("if"@));
    assert(if_spec(args, env, st, fuel) == (Outcome { result: Ok(StepView::Done(Value::Nil)), store: st }));
    assert(step_spec(if_form(seq![Value::False, a]), env, st, fuel + 1) == if_spec(args, env, st, fuel));
}

/// A closure sees the frame in which it was made, not the one from which it is
/// called: where `callee` names a closure without parameters whose body is the
/// symbol `name`, the call `(callee)` gives what `name` stands for in the frame
/// that the closure captured, whatever the frame `env` of the call binds.
pub proof fn lemma_closure_sees_captured_frame(
    callee: Seq<char>,
    name: Seq<char>,
    captured: int,
    env: int,
    st: StoreView,
    fuel: nat,
)
    requires
        st.has(captured),
        form_spec(Value::Symbol(callee)) == Form::Call,
        st.lookup(env, callee) == Some(
            Value::Closure(Seq::empty(), Box::new(Value::Symbol(name)), captured),
        ),
    ensures
        eval_spec(Value::List(seq![Value::Symbol(callee)]), env, st, fuel + 1) == (Outcome {
            result: match st.lookup(captured, name) {
                Some(v) => Ok(v),
                None => Err(Failure::UnboundSymbol(name)),
            },
            store: st.push_frame(Map::empty(), Some(captured)),
        }),
{
    let items = seq![Value::Symbol(callee)];
    let args = items.subrange(1, items.len() as int);
    let frame = st.frames.len() as int;
    let after = st.push_frame(Map::empty(), Some(captured));
    assert(args =~= Seq::<Value>::empty());
    assert(eval_spec(Value::Symbol(callee), env, st, fuel).store == st);
    assert(list_from(args, 0, Seq::empty(), env, st, fuel) == (Outcome {
        result: Ok(Seq::<Value>::empty()),
        store: st,
    }));
    assert(call_spec(items[0], args, env, st, fuel) == (Outcome {
        result: Ok(StepView::Tail(Value::Symbol(name), frame)),
        store: after,
    }));
    assert(step_spec(Value::List(items), env, st, fuel + 1) == call_spec(
        items[0],
        args,
        env,
        st,
        fuel,
    ));
    lemma_empty_child_sees_outer(st, captured, name);
    let body = eval_spec(Value::Symbol(name), frame, after, fuel);
    assert(step_spec(Value::Symbol(name), frame, after, fuel).store == after);
    assert(body.store == after);
    assert(body.result == match st.lookup(captured, name) {
        Some(v) => Ok::<Value, Failure>(v),
        None => Err(Failure::UnboundSymbol(name)),
    });
    assert(finish_spec(StepView::Tail(Value::Symbol(name), frame), after, fuel + 1) == body);
}

/// Evaluation only adds to the store: whatever is evaluated, with whatever fuel
/// and whatever the result, every frame that was there is still there with the
/// parent it had and with all its names, and every line of output is still there.
pub proof fn lemma_eval_extends(ast: Value, env: int, st: StoreView, fuel: nat)
    requires
        st.has(env),
    ensures
        eval_spec(ast, env, st, fuel).store.extends(st),
    decreases fuel, 2nat, 0nat,
{
    let step = step_spec(ast, env, st, fuel);
    lemma_step_extends(ast, env, st, fuel);
    match step.result {
        Ok(s) => {
            lemma_finish_extends(s, step.store, fuel);
            lemma_extends_trans(st, step.store, finish_spec(s, step.store, fuel).store);
        },
        Err(_) => {},
    }
}

proof fn lemma_finish_extends(step: StepView, st: StoreView, fuel: nat)
    requires
        step matches StepView::Tail(_, env) ==> st.has(env),
    ensures
        finish_spec(step, st, fuel).store.extends(st),
    decreases fuel, 0nat, 0nat,
{
    lemma_extends_refl(st);
    match step {
        StepView::Done(_) => {},
        StepView::Tail(next, env) => {
            if fuel > 0 {
                lemma_eval_extends(next, env, st, (fuel - 1) as nat);
            }
        },
    }
}

proof fn lemma_step_extends(ast: Value, env: int, st: StoreView, fuel: nat)
    requires
        st.has(env),
    ensures
        step_spec(ast, env, st, fuel).store.extends(st),
        step_spec(ast, env, st, fuel).result matches Ok(StepView::Tail(_, next)) ==> step_spec(
            ast,
            env,
            st,
            fuel,
        ).store.has(next),
    decreases fuel, 1nat, 0nat,
{
    lemma_extends_refl(st);
    match ast {
        Value::List(items) => {
            if items.len() > 0 && fuel > 0 {
                let f = (fuel - 1) as nat;
                let args = items.subrange(1, items.len() as int);
                match form_spec(items[0]) {
                    Form::Def => lemma_def_extends(args, env, st, f),
                    Form::Let => lemma_let_extends(args, env, st, f),
                    Form::Do => lemma_do_extends(args, env, st, f),
                    Form::If => lemma_if_extends(args, env, st, f),
                    Form::Fn => {},
                    Form::Call => lemma_call_extends(items[0], args, env, st, f),
                }
            }
        },
        _ => {},
    }
}

proof fn lemma_def_extends(args: Seq<Value>, env: int, st: StoreView, fuel: nat)
    requires
        st.has(env),
    ensures
        def_spec(args, env, st, fuel).store.extends(st),
        !(def_spec(args, env, st, fuel).result matches Ok(StepView::Tail(_, _))),
    decreases fuel, 4nat, 0nat,
{
    lemma_extends_refl(st);
    if args.len() == 2 && args[0] is Symbol {
        let value = eval_spec(args[1], env, st, fuel);
        lemma_eval_extends(args[1], env, st, fuel);
        lemma_extends_steps(value.store);
        lemma_extends_trans(st, value.store, def_spec(args, env, st, fuel).store);
    }
}

proof fn lemma_let_extends(args: Seq<Value>, env: int, st: StoreView, fuel: nat)
    requires
        st.has(env),
    ensures
        let_spec(args, env, st, fuel).store.extends(st),
        let_spec(args, env, st, fuel).result matches Ok(StepView::Tail(_, next)) ==> let_spec(
            args,
            env,
            st,
            fuel,
        ).store.has(next),
    decreases fuel, 4nat, 0nat,
{
    lemma_extends_refl(st);
    if args.len() == 2 && args[0].elements() is Some {
        let child = st.frames.len() as int;
        let inner = st.push_frame(Map::empty(), Some(env));
        lemma_extends_steps(st);
        lemma_bindings_extend(args[0].elements()->0, 0, child, inner, fuel);
        lemma_extends_trans(st, inner, let_spec(args, env, st, fuel).store);
    }
}

proof fn lemma_bindings_extend(bindings: Seq<Value>, i: int, env: int, st: StoreView, fuel: nat)
    requires
        st.has(env),
    ensures
        bindings_from(bindings, i, env, st, fuel).store.extends(st),
    decreases fuel, 3nat, bindings.len() - i,
{
    lemma_extends_refl(st);
    if 0 <= i && i + 1 < bindings.len() {
        match bindings[i] {
            Value::Symbol(name) => {
                let value = eval_spec(bindings[i + 1], env, st, fuel);
                lemma_eval_extends(bindings[i + 1], env, st, fuel);
                match value.result {
                    Ok(v) => {
                        let bound = value.store.set(env, name, v);
                        lemma_extends_steps(value.store);
                        lemma_extends_trans(st, value.store, bound);
                        lemma_bindings_extend(bindings, i + 2, env, bound, fuel);
                        lemma_extends_trans(
                            st,
                            bound,
                            bindings_from(bindings, i + 2, env, bound, fuel).store,
                        );
                    },
                    Err(_) => {},
                }
            },
            _ => {},
        }
    }
}

proof fn lemma_do_extends(args: Seq<Value>, env: int, st: StoreView, fuel: nat)
    requires
        st.has(env),
    ensures
        do_spec(args, env, st, fuel).store.extends(st),
        do_spec(args, env, st, fuel).result matches Ok(StepView::Tail(_, next)) ==> do_spec(
            args,
            env,
            st,
            fuel,
        ).store.has(next),
    decreases fuel, 4nat, 0nat,
{
    lemma_effects_extend(args, 0, env, st, fuel);
}

proof fn lemma_effects_extend(exprs: Seq<Value>, i: int, env: int, st: StoreView, fuel: nat)
    requires
        st.has(env),
    ensures
        effects_from(exprs, i, env, st, fuel).store.extends(st),
    decreases fuel, 3nat, exprs.len() - i,
{
    lemma_extends_refl(st);
    if 0 <= i && i + 1 < exprs.len() {
        let value = eval_spec(exprs[i], env, st, fuel);
        lemma_eval_extends(exprs[i], env, st, fuel);
        match value.result {
            Ok(_) => {
                lemma_effects_extend(exprs, i + 1, env, value.store, fuel);
                lemma_extends_trans(
                    st,
                    value.store,
                    effects_from(exprs, i + 1, env, value.store, fuel).store,
                );
            },
            Err(_) => {},
        }
    }
}

proof fn lemma_if_extends(args: Seq<Value>, env: int, st: StoreView, fuel: nat)
    requires
        st.has(env),
    ensures
        if_spec(args, env, st, fuel).store.extends(st),
        if_spec(args, env, st, fuel).result matches Ok(StepView::Tail(_, next)) ==> if_spec(
            args,
            env,
            st,
            fuel,
        ).store.has(next),
    decreases fuel, 4nat, 0nat,
{
    lemma_extends_refl(st);
    if args.len() > 0 {
        lemma_eval_extends(args[0], env, st, fuel);
    }
}

proof fn lemma_call_extends(head: Value, args: Seq<Value>, env: int, st: StoreView, fuel: nat)
    requires
        st.has(env),
    ensures
        call_spec(head, args, env, st, fuel).store.extends(st),
        call_spec(head, args, env, st, fuel).result matches Ok(StepView::Tail(_, next))
            ==> call_spec(head, args, env, st, fuel).store.has(next),
    decreases fuel, 4nat, 0nat,
{
    let callee = eval_spec(head, env, st, fuel);
    lemma_eval_extends(head, env, st, fuel);
    match callee.result {
        Ok(Value::Func(_)) => {
            let values = list_from(args, 0, Seq::empty(), env, callee.store, fuel);
            lemma_list_extends(args, 0, Seq::empty(), env, callee.store, fuel);
            lemma_extends_steps(values.store);
            lemma_extends_refl(values.store);
            lemma_extends_trans(st, callee.store, values.store);
            lemma_extends_trans(st, values.store, call_spec(head, args, env, st, fuel).store);
        },
        Ok(Value::Closure(_, _, _)) => {
            let values = list_from(args, 0, Seq::empty(), env, callee.store, fuel);
            lemma_list_extends(args, 0, Seq::empty(), env, callee.store, fuel);
            lemma_extends_steps(values.store);
            lemma_extends_refl(values.store);
            lemma_extends_trans(st, callee.store, values.store);
            lemma_extends_trans(st, values.store, call_spec(head, args, env, st, fuel).store);
        },
        _ => {},
    }
}

proof fn lemma_list_extends(
    items: Seq<Value>,
    i: int,
    done: Seq<Value>,
    env: int,
    st: StoreView,
    fuel: nat,
)
    requires
        st.has(env),
    ensures
        list_from(items, i, done, env, st, fuel).store.extends(st),
    decreases fuel, 3nat, items.len() - i,
{
    lemma_extends_refl(st);
    if 0 <= i < items.len() {
        let value = eval_spec(items[i], env, st, fuel);
        lemma_eval_extends(items[i], env, st, fuel);
        match value.result {
            Ok(v) => {
                lemma_list_extends(items, i + 1, done.push(v), env, value.store, fuel);
                lemma_extends_trans(
                    st,
                    value.store,
                    list_from(items, i + 1, done.push(v), env, value.store, fuel).store,
                );
            },
            Err(_) => {},
        }
    }
}

/// The list `(def! name expr)`.
pub open spec fn def_form(name: Seq<char>, expr: Value) -> Value {
    Value::List(seq![Value::Symbol("def!"@), Value::Symbol(name), expr])
}

/// After `(def! name expr)` the name stands, in the frame of the definition, for
/// the value of `expr`, which is also the value of the form.
pub proof fn lemma_def_then_get(name: Seq<char>, expr: Value, env: int, st: StoreView, fuel: nat)
    requires
        st.has(env),
        eval_spec(expr, env, st, fuel).result is Ok,
    ensures
        ({
            let value = eval_spec(expr, env, st, fuel);
            let defined = eval_spec(def_form(name, expr), env, st, fuel + 1);
            &&& defined.result == value.result
            &&& defined.store == value.store.set(env, name, value.result->Ok_0)
            &&& defined.store.lookup(env, name) == Some(value.result->Ok_0)
        }),
{
    let items = seq![Value::Symbol("def!"@), Value::Symbol(name), expr];
    let args = items.subrange(1, items.len() as int);
    let value = eval_spec(expr, env, st, fuel);
    lemma_eval_extends(expr, env, st, fuel);
    assert(args =~= seq![Value::Symbol(name), expr]);
    assert(form_spec(items[0]) == Form::Def);
    assert(step_spec(def_form(name, expr), env, st, fuel + 1) == def_spec(args, env, st, fuel));
    crate::env::lemma_set_then_get(value.store, env, name, value.result->Ok_0);
}

impl<T> Outcome<T> {
    /// The computation stopped for want of fuel.
    pub open spec fn ran_out(self) -> bool {
        self.result matches Err(Failure::StepLimit)
    }
}

/// Fuel is a budget and nothing else: an evaluation that did not run out of it
/// gives the same result, and leaves the same store, with any larger amount.
pub proof fn lemma_more_fuel(ast: Value, env: int, st: StoreView, fuel: nat, more: nat)
    requires
        fuel <= more,
        !eval_spec(ast, env, st, fuel).ran_out(),
    ensures
        eval_spec(ast, env, st, more) == eval_spec(ast, env, st, fuel),
    decreases fuel, 2nat, 0nat,
{
    let step = step_spec(ast, env, st, fuel);
    lemma_more_fuel_step(ast, env, st, fuel, more);
    match step.result {
        Ok(s) => {
            lemma_more_fuel_finish(s, step.store, fuel, more);
        },
        Err(_) => {},
    }
}

proof fn lemma_more_fuel_finish(step: StepView, st: StoreView, fuel: nat, more: nat)
    requires
        fuel <= more,
        !finish_spec(step, st, fuel).ran_out(),
    ensures
        finish_spec(step, st, more) == finish_spec(step, st, fuel),
    decreases fuel, 0nat, 0nat,
{
    match step {
        StepView::Done(_) => {},
        StepView::Tail(next, env) => {
            lemma_more_fuel(next, env, st, (fuel - 1) as nat, (more - 1) as nat);
        },
    }
}

proof fn lemma_more_fuel_step(ast: Value, env: int, st: StoreView, fuel: nat, more: nat)
    requires
        fuel <= more,
        !step_spec(ast, env, st, fuel).ran_out(),
    ensures
        step_spec(ast, env, st, more) == step_spec(ast, env, st, fuel),
    decreases fuel, 1nat, 0nat,
{
    match ast {
        Value::List(items) => {
            if items.len() > 0 {
                let f = (fuel - 1) as nat;
                let g = (more - 1) as nat;
                let args = items.subrange(1, items.len() as int);
                match form_spec(items[0]) {
                    Form::Def => lemma_more_fuel_def(args, env, st, f, g),
                    Form::Let => lemma_more_fuel_let(args, env, st, f, g),
                    Form::Do => lemma_more_fuel_do(args, env, st, f, g),
                    Form::If => lemma_more_fuel_if(args, env, st, f, g),
                    Form::Fn => {},
                    Form::Call => lemma_more_fuel_call(items[0], args, env, st, f, g),
                }
            }
        },
        _ => {},
    }
}

proof fn lemma_more_fuel_def(args: Seq<Value>, env: int, st: StoreView, fuel: nat, more: nat)
    requires
        fuel <= more,
        !def_spec(args, env, st, fuel).ran_out(),
    ensures
        def_spec(args, env, st, more) == def_spec(args, env, st, fuel),
    decreases fuel, 4nat, 0nat,
{
    if args.len() == 2 && args[0] is Symbol {
        lemma_more_fuel(args[1], env, st, fuel, more);
    }
}

proof fn lemma_more_fuel_let(args: Seq<Value>, env: int, st: StoreView, fuel: nat, more: nat)
    requires
        fuel <= more,
        !let_spec(args, env, st, fuel).ran_out(),
    ensures
        let_spec(args, env, st, more) == let_spec(args, env, st, fuel),
    decreases fuel, 4nat, 0nat,
{
    if args.len() == 2 && args[0].elements() is Some {
        lemma_more_fuel_bindings(
            args[0].elements()->0,
            0,
            st.frames.len() as int,
            st.push_frame(Map::empty(), Some(env)),
            fuel,
            more,
        );
    }
}

proof fn lemma_more_fuel_bindings(
    bindings: Seq<Value>,
    i: int,
    env: int,
    st: StoreView,
    fuel: nat,
    more: nat,
)
    requires
        fuel <= more,
        !bindings_from(bindings, i, env, st, fuel).ran_out(),
    ensures
        bindings_from(bindings, i, env, st, more) == bindings_from(bindings, i, env, st, fuel),
    decreases fuel, 3nat, bindings.len() - i,
{
    if 0 <= i && i + 1 < bindings.len() {
        match bindings[i] {
            Value::Symbol(name) => {
                let value = eval_spec(bindings[i + 1], env, st, fuel);
                lemma_more_fuel(bindings[i + 1], env, st, fuel, more);
                match value.result {
                    Ok(v) => {
                        let bound = value.store.set(env, name, v);
                        lemma_more_fuel_bindings(bindings, i + 2, env, bound, fuel, more);
                    },
                    Err(_) => {},
                }
            },
            _ => {},
        }
    }
}

proof fn lemma_more_fuel_do(args: Seq<Value>, env: int, st: StoreView, fuel: nat, more: nat)
    requires
        fuel <= more,
        !do_spec(args, env, st, fuel).ran_out(),
    ensures
        do_spec(args, env, st, more) == do_spec(args, env, st, fuel),
    decreases fuel, 4nat, 0nat,
{
    lemma_more_fuel_effects(args, 0, env, st, fuel, more);
}

proof fn lemma_more_fuel_effects(
    exprs: Seq<Value>,
    i: int,
    env: int,
    st: StoreView,
    fuel: nat,
    more: nat,
)
    requires
        fuel <= more,
        !effects_from(exprs, i, env, st, fuel).ran_out(),
    ensures
        effects_from(exprs, i, env, st, more) == effects_from(exprs, i, env, st, fuel),
    decreases fuel, 3nat, exprs.len() - i,
{
    if 0 <= i && i + 1 < exprs.len() {
        let value = eval_spec(exprs[i], env, st, fuel);
        lemma_more_fuel(exprs[i], env, st, fuel, more);
        match value.result {
            Ok(_) => {
                lemma_more_fuel_effects(exprs, i + 1, env, value.store, fuel, more);
            },
            Err(_) => {},
        }
    }
}

proof fn lemma_more_fuel_if(args: Seq<Value>, env: int, st: StoreView, fuel: nat, more: nat)
    requires
        fuel <= more,
        !if_spec(args, env, st, fuel).ran_out(),
    ensures
        if_spec(args, env, st, more) == if_spec(args, env, st, fuel),
    decreases fuel, 4nat, 0nat,
{
    if args.len() > 0 {
        lemma_more_fuel(args[0], env, st, fuel, more);
    }
}

proof fn lemma_more_fuel_call(
    head: Value,
    args: Seq<Value>,
    env: int,
    st: StoreView,
    fuel: nat,
    more: nat,
)
    requires
        fuel <= more,
        !call_spec(head, args, env, st, fuel).ran_out(),
    ensures
        call_spec(head, args, env, st, more) == call_spec(head, args, env, st, fuel),
    decreases fuel, 4nat, 0nat,
{
    let callee = eval_spec(head, env, st, fuel);
    lemma_more_fuel(head, env, st, fuel, more);
    match callee.result {
        Ok(Value::Func(p)) => {
            let values = list_from(args, 0, Seq::empty(), env, callee.store, fuel);
            if !values.ran_out() {
                lemma_more_fuel_list(args, 0, Seq::empty(), env, callee.store, fuel, more);
            }
        },
        Ok(Value::Closure(_, _, _)) => {
            lemma_more_fuel_list(args, 0, Seq::empty(), env, callee.store, fuel, more);
        },
        _ => {},
    }
}

proof fn lemma_more_fuel_list(
    items: Seq<Value>,
    i: int,
    done: Seq<Value>,
    env: int,
    st: StoreView,
    fuel: nat,
    more: nat,
)
    requires
        fuel <= more,
        !list_from(items, i, done, env, st, fuel).ran_out(),
    ensures
        list_from(items, i, done, env, st, more) == list_from(items, i, done, env, st, fuel),
    decreases fuel, 3nat, items.len() - i,
{
    if 0 <= i < items.len() {
        let value = eval_spec(items[i], env, st, fuel);
        lemma_more_fuel(items[i], env, st, fuel, more);
        match value.result {
            Ok(v) => {
                lemma_more_fuel_list(items, i + 1, done.push(v), env, value.store, fuel, more);
            },
            Err(_) => {},
        }
    }
}

/// The form that `head` selects.
fn special_form(head: &LispType) -> (form: Form)
    ensures
        form == form_spec(head@),
{
    match head {
        LispType::Symbol(name) => {
            if text_is(name, "def!") {
                Form::Def
            } else if text_is(name, "let*") {
                Form::Let
            } else if text_is(name, "do") {
                Form::Do
            } else if text_is(name, "if") {
                Form::If
            } else if text_is(name, "fn*") {
                Form::Fn
            } else {
                Form::Call
            }
        },
        _ => Form::Call,
    }
}

/// What holds of a store after an evaluation that began with `before`.
pub open spec fn evolved(before: &Store, after: &Store) -> bool {
    &&& after.wf()
    &&& after@.extends(before@)
}

/// Evaluates the elements of `items` from position `from` on, from left to right.
fn eval_list(
    items: &Vec<LispType>,
    from: usize,
    env: Environment,
    store: &mut Store,
    fuel: u64,
) -> (r: Result<Vec<LispType>, LispError>)
    requires
        old(store).wf(),
        old(store)@.has(env@),
        from <= items.len(),
        all_closed(values_of(*items), old(store)@.frames.len() as int),
    ensures
        evolved(old(store), final(store)),
        ({
            let args = values_of(*items).subrange(from as int, items.len() as int);
            let o = list_from(args, 0, Seq::empty(), env@, old(store)@, fuel as nat);
            &&& final(store)@ == o.store
            &&& match o.result {
                Ok(vs) => r matches Ok(out) && values_of(out) == vs,
                Err(failure) => r matches Err(e) && e@ == failure,
            }
        }),
        r matches Ok(out) ==> all_closed(values_of(out), final(store)@.frames.len() as int),
    decreases fuel, 3nat,
{
    let ghost args = values_of(*items).subrange(from as int, items.len() as int);
    let ghost goal = list_from(args, 0, Seq::empty(), env@, old(store)@, fuel as nat);
    let mut out: Vec<LispType> = Vec::new();
    let mut j: usize = from;
    proof {
        lemma_extends_refl(store@);
        assert(values_of(out) =~= Seq::empty());
    }
    while j < items.len()
        invariant
            from <= j <= items.len(),
            store.wf(),
            store@.extends(old(store)@),
            store@.has(env@),
            args == values_of(*items).subrange(from as int, items.len() as int),
            all_closed(values_of(*items), store@.frames.len() as int),
            all_closed(values_of(out), store@.frames.len() as int),
            goal == list_from(args, 0, Seq::empty(), env@, old(store)@, fuel as nat),
            list_from(args, j - from, values_of(out), env@, store@, fuel as nat) == goal,
        decreases items.len() - j,
    {
        let ghost before = store@;
        let ghost done = values_of(out);
        assert(args[j - from] == items[j as int]@);
        assert(values_of(*items)[j as int] == items[j as int]@);
        match eval(&items[j], env, store, fuel) {
            Ok(v) => {
                out.push(v);
                proof {
                    assert(values_of(out) =~= done.push(v@));
                    lemma_extends_trans(old(store)@, before, store@);
                    lemma_all_closed_grows(
                        values_of(*items),
                        before.frames.len() as int,
                        store@.frames.len() as int,
                    );
                    lemma_all_closed_grows(
                        done,
                        before.frames.len() as int,
                        store@.frames.len() as int,
                    );
                }
            },
            Err(e) => {
                proof {
                    lemma_extends_trans(old(store)@, before, store@);
                }
                return Err(e);
            },
        }
        j += 1;
    }
    Ok(out)
}

/// Evaluates `ast` in frame `env`. A symbol is looked up, another atom is its own
/// value, and a list is a special form or an application. What stands in tail
/// position is evaluated in the same call, so that a chain of tail calls takes no
/// stack. `fuel` bounds the rounds of any one chain of nested evaluations and
/// tail calls; where it runs out the result is `StepLimit`.
pub fn eval(ast: &LispType, env: Environment, store: &mut Store, fuel: u64) -> (r: LispResult)
    requires
        old(store).wf(),
        old(store)@.has(env@),
        ast@.closed_under(old(store)@.frames.len() as int),
    ensures
        evolved(old(store), final(store)),
        result_view(r) == eval_spec(ast@, env@, old(store)@, fuel as nat).result,
        final(store)@ == eval_spec(ast@, env@, old(store)@, fuel as nat).store,
        r matches Ok(v) ==> v@.closed_under(final(store)@.frames.len() as int),
    decreases fuel, 2nat,
{
    let ghost goal = eval_spec(ast@, env@, old(store)@, fuel as nat);
    let mut step = match eval_step(ast, env, store, fuel) {
        Ok(step) => step,
        Err(e) => {
            return Err(e);
        },
    };
    let mut fuel_left: u64 = fuel;
    loop
        invariant
            fuel_left <= fuel,
            store.wf(),
            store@.extends(old(store)@),
            step_closed(step@, store@),
            step is Tail ==> fuel_left > 0,
            goal == eval_spec(ast@, env@, old(store)@, fuel as nat),
            finish_spec(step@, store@, fuel_left as nat) == goal,
        decreases fuel_left,
    {
        match step {
            Step::Done(v) => {
                return Ok(v);
            },
            Step::Tail(next, next_env) => {
                let ghost before = store@;
                fuel_left = fuel_left - 1;
                match eval_step(&next, next_env, store, fuel_left) {
                    Ok(s) => {
                        proof {
                            lemma_extends_trans(old(store)@, before, store@);
                        }
                        step = s;
                    },
                    Err(e) => {
                        proof {
                            lemma_extends_trans(old(store)@, before, store@);
                        }
                        return Err(e);
                    },
                }
            },
        }
    }
}

/// What a step holds refers to frames of `st` only.
pub open spec fn step_closed(step: StepView, st: StoreView) -> bool {
    match step {
        StepView::Done(v) => v.closed_under(st.frames.len() as int),
        StepView::Tail(next, env) => next.closed_under(st.frames.len() as int) && st.has(env),
    }
}

/// The model of a step's result.
pub open spec fn step_result_view(r: Result<Step, LispError>) -> Result<StepView, Failure> {
    match r {
        Ok(step) => Ok(step@),
        Err(e) => Err(e@),
    }
}

/// One round of `eval`.
pub fn eval_step(
    ast: &LispType,
    env: Environment,
    store: &mut Store,
    fuel: u64,
) -> (r: Result<Step, LispError>)
    requires
        old(store).wf(),
        old(store)@.has(env@),
        ast@.closed_under(old(store)@.frames.len() as int),
    ensures
        evolved(old(store), final(store)),
        step_result_view(r) == step_spec(ast@, env@, old(store)@, fuel as nat).result,
        final(store)@ == step_spec(ast@, env@, old(store)@, fuel as nat).store,
        r matches Ok(step) ==> step_closed(step@, final(store)@),
        r matches Ok(Step::Tail(_, _)) ==> fuel > 0,
    decreases fuel, 1nat,
{
    proof {
        lemma_extends_refl(store@);
    }
    match ast {
        LispType::Symbol(name) => match env.get(store, name.as_str()) {
            Ok(v) => Ok(Step::Done(v)),
            Err(e) => Err(e),
        },
        LispType::List(items) => {
            assert(ast@ == Value::List(values_of(*items)));
            assert(values_of(*items).len() == items.len());
            if items.len() == 0 {
                return fail(ErrorKind::EmptyApplication);
            }
            if fuel == 0 {
                return fail(ErrorKind::StepLimit);
            }
            assert(values_of(*items)[0] == items[0]@);
            assert(all_closed(values_of(*items), store@.frames.len() as int));
            match special_form(&items[0]) {
                Form::Def => eval_def(items, env, store, fuel - 1),
                Form::Let => eval_let(items, env, store, fuel - 1),
                Form::Do => eval_do(items, env, store, fuel - 1),
                Form::If => eval_if(items, env, store, fuel - 1),
                Form::Fn => eval_fn(items, env, store),
                Form::Call => eval_call(items, env, store, fuel - 1),
            }
        },
        _ => Ok(Step::Done(ast.clone())),
    }
}

/// `(def! name expr)`, where `items` is the whole form.
fn eval_def(
    items: &Vec<LispType>,
    env: Environment,
    store: &mut Store,
    fuel: u64,
) -> (r: Result<Step, LispError>)
    requires
        old(store).wf(),
        old(store)@.has(env@),
        items.len() > 0,
        all_closed(values_of(*items), old(store)@.frames.len() as int),
    ensures
        evolved(old(store), final(store)),
        ({
            let args = values_of(*items).subrange(1, items.len() as int);
            let o = def_spec(args, env@, old(store)@, fuel as nat);
            &&& step_result_view(r) == o.result
            &&& final(store)@ == o.store
        }),
        r matches Ok(step) ==> step_closed(step@, final(store)@) && step is Done,
    decreases fuel, 4nat,
{
    let ghost args = values_of(*items).subrange(1, items.len() as int);
    proof {
        lemma_extends_refl(store@);
    }
    if items.len() != 3 {
        return fail(ErrorKind::MalformedDef);
    }
    assert(args[0] == items[1]@);
    assert(args[1] == items[2]@);
    assert(values_of(*items)[2] == items[2]@);
    match &items[1] {
        LispType::Symbol(name) => match eval(&items[2], env, store, fuel) {
            Ok(v) => {
                let ghost mid = store@;
                env.set(store, name.as_str(), v.clone());
                proof {
                    lemma_extends_trans(old(store)@, mid, store@);
                }
                Ok(Step::Done(v))
            },
            Err(e) => Err(e),
        },
        _ => fail(ErrorKind::MalformedDef),
    }
}

/// The elements of a list or a vector.
fn elements_of(v: &LispType) -> (r: Option<&Vec<LispType>>)
    ensures
        match v@.elements() {
            Some(xs) => r matches Some(elems) && values_of(*elems) == xs,
            None => r is None,
        },
{
    match v {
        LispType::List(elems) => Some(elems),
        LispType::Vector(elems) => Some(elems),
        _ => None,
    }
}

/// Evaluates the pairs of a `let*` and binds them in frame `env`, one after the other.
pub fn set_bindings(
    bindings: &Vec<LispType>,
    env: Environment,
    store: &mut Store,
    fuel: u64,
) -> (r: LispResult)
    requires
        old(store).wf(),
        old(store)@.has(env@),
        all_closed(values_of(*bindings), old(store)@.frames.len() as int),
    ensures
        evolved(old(store), final(store)),
        ({
            let o = bindings_from(values_of(*bindings), 0, env@, old(store)@, fuel as nat);
            &&& final(store)@ == o.store
            &&& match o.result {
                Ok(_) => r matches Ok(v) && v@ == Value::Nil,
                Err(failure) => r matches Err(e) && e@ == failure,
            }
        }),
    decreases fuel, 3nat,
{
    let ghost pairs = values_of(*bindings);
    let ghost goal = bindings_from(pairs, 0, env@, old(store)@, fuel as nat);
    let mut i: usize = 0;
    proof {
        lemma_extends_refl(store@);
    }
    while i < bindings.len()
        invariant
            i <= bindings.len(),
            store.wf(),
            store@.extends(old(store)@),
            store@.has(env@),
            pairs == values_of(*bindings),
            all_closed(pairs, store@.frames.len() as int),
            goal == bindings_from(pairs, 0, env@, old(store)@, fuel as nat),
            bindings_from(pairs, i as int, env@, store@, fuel as nat) == goal,
        decreases bindings.len() - i,
    {
        if bindings.len() - i < 2 {
            return fail(ErrorKind::MalformedBindings);
        }
        let ghost before = store@;
        assert(pairs[i as int] == bindings[i as int]@);
        assert(pairs[i + 1] == bindings[i + 1]@);
        match &bindings[i] {
            LispType::Symbol(name) => match eval(&bindings[i + 1], env, store, fuel) {
                Ok(v) => {
                    let ghost mid = store@;
                    env.set(store, name.as_str(), v);
                    proof {
                        lemma_extends_trans(before, mid, store@);
                        lemma_extends_trans(old(store)@, before, store@);
                        lemma_all_closed_grows(
                        pairs,
                        before.frames.len() as int,
                        store@.frames.len() as int,
                    );
                    }
                },
                Err(e) => {
                    proof {
                        lemma_extends_trans(old(store)@, before, store@);
                    }
                    return Err(e);
                },
            },
            _ => {
                return fail(ErrorKind::MalformedBindings);
            },
        }
        i += 2;
    }
    Ok(LispType::Nil)
}

/// `(let* bindings body)`, where `items` is the whole form.
fn eval_let(
    items: &Vec<LispType>,
    env: Environment,
    store: &mut Store,
    fuel: u64,
) -> (r: Result<Step, LispError>)
    requires
        old(store).wf(),
        old(store)@.has(env@),
        items.len() > 0,
        all_closed(values_of(*items), old(store)@.frames.len() as int),
    ensures
        evolved(old(store), final(store)),
        ({
            let args = values_of(*items).subrange(1, items.len() as int);
            let o = let_spec(args, env@, old(store)@, fuel as nat);
            &&& step_result_view(r) == o.result
            &&& final(store)@ == o.store
        }),
        r matches Ok(step) ==> step_closed(step@, final(store)@),
    decreases fuel, 4nat,
{
    let ghost args = values_of(*items).subrange(1, items.len() as int);
    let ghost n = store@.frames.len() as int;
    proof {
        lemma_extends_refl(store@);
    }
    if items.len() != 3 {
        return fail(ErrorKind::MalformedBindings);
    }
    assert(args[0] == items[1]@);
    assert(args[1] == items[2]@);
    assert(values_of(*items)[1] == items[1]@);
    assert(values_of(*items)[2] == items[2]@);
    match elements_of(&items[1]) {
        Some(bindings) => {
            let child = Environment::new(store, Some(env));
            let ghost mid = store@;
            proof {
                lemma_all_closed_grows(values_of(*bindings), n, n + 1);
            }
            match set_bindings(bindings, child, store, fuel) {
                Ok(_) => {
                    proof {
                        lemma_extends_trans(old(store)@, mid, store@);
                        lemma_closed_under_grows(items[2]@, n, store@.frames.len() as int);
                    }
                    Ok(Step::Tail(items[2].clone(), child))
                },
                Err(e) => {
                    proof {
                        lemma_extends_trans(old(store)@, mid, store@);
                    }
                    Err(e)
                },
            }
        },
        None => fail(ErrorKind::MalformedBindings),
    }
}

/// `(do e1 ... en)`, where `items` is the whole form.
fn eval_do(
    items: &Vec<LispType>,
    env: Environment,
    store: &mut Store,
    fuel: u64,
) -> (r: Result<Step, LispError>)
    requires
        old(store).wf(),
        old(store)@.has(env@),
        items.len() > 0,
        all_closed(values_of(*items), old(store)@.frames.len() as int),
    ensures
        evolved(old(store), final(store)),
        ({
            let args = values_of(*items).subrange(1, items.len() as int);
            let o = do_spec(args, env@, old(store)@, fuel as nat);
            &&& step_result_view(r) == o.result
            &&& final(store)@ == o.store
        }),
        r matches Ok(step) ==> step_closed(step@, final(store)@),
    decreases fuel, 4nat,
{
    let ghost args = values_of(*items).subrange(1, items.len() as int);
    let ghost goal = effects_from(args, 0, env@, old(store)@, fuel as nat);
    let ghost n = store@.frames.len() as int;
    proof {
        lemma_extends_refl(store@);
    }
    let mut j: usize = 1;
    while j < items.len() - 1
        invariant
            1 <= j <= items.len(),
            store.wf(),
            store@.extends(old(store)@),
            store@.has(env@),
            args == values_of(*items).subrange(1, items.len() as int),
            all_closed(values_of(*items), store@.frames.len() as int),
            goal == effects_from(args, 0, env@, old(store)@, fuel as nat),
            effects_from(args, j - 1, env@, store@, fuel as nat) == goal,
        decreases items.len() - j,
    {
        let ghost before = store@;
        assert(args[j - 1] == items[j as int]@);
        assert(values_of(*items)[j as int] == items[j as int]@);
        match eval(&items[j], env, store, fuel) {
            Ok(_) => {
                proof {
                    lemma_extends_trans(old(store)@, before, store@);
                    lemma_all_closed_grows(
                        values_of(*items),
                        before.frames.len() as int,
                        store@.frames.len() as int,
                    );
                }
            },
            Err(e) => {
                proof {
                    lemma_extends_trans(old(store)@, before, store@);
                }
                return Err(e);
            },
        }
        j += 1;
    }
    if items.len() == 1 {
        Ok(Step::Tail(LispType::Nil, env))
    } else {
        let last = items.len() - 1;
        assert(args.last() == items[last as int]@);
        assert(values_of(*items)[last as int] == items[last as int]@);
        Ok(Step::Tail(items[last].clone(), env))
    }
}

/// `(if cond then else)`, where `items` is the whole form.
fn eval_if(
    items: &Vec<LispType>,
    env: Environment,
    store: &mut Store,
    fuel: u64,
) -> (r: Result<Step, LispError>)
    requires
        old(store).wf(),
        old(store)@.has(env@),
        items.len() > 0,
        all_closed(values_of(*items), old(store)@.frames.len() as int),
    ensures
        evolved(old(store), final(store)),
        ({
            let args = values_of(*items).subrange(1, items.len() as int);
            let o = if_spec(args, env@, old(store)@, fuel as nat);
            &&& step_result_view(r) == o.result
            &&& final(store)@ == o.store
        }),
        r matches Ok(step) ==> step_closed(step@, final(store)@),
    decreases fuel, 4nat,
{
    let ghost args = values_of(*items).subrange(1, items.len() as int);
    let ghost n = store@.frames.len() as int;
    proof {
        lemma_extends_refl(store@);
    }
    if items.len() < 2 {
        return fail(ErrorKind::MalformedIf);
    }
    assert(args[0] == items[1]@);
    assert(values_of(*items)[1] == items[1]@);
    let cond = match eval(&items[1], env, store, fuel) {
        Ok(c) => c,
        Err(e) => {
            return Err(e);
        },
    };
    proof {
        lemma_all_closed_grows(values_of(*items), n, store@.frames.len() as int);
    }
    if items.len() < 3 {
        return fail(ErrorKind::MalformedIf);
    }
    assert(args[1] == items[2]@);
    assert(values_of(*items)[2] == items[2]@);
    let falsy = match cond {
        LispType::Nil => true,
        LispType::False => true,
        _ => false,
    };
    if falsy {
        if items.len() >= 4 {
            assert(args[2] == items[3]@);
            assert(values_of(*items)[3] == items[3]@);
            Ok(Step::Tail(items[3].clone(), env))
        } else {
            Ok(Step::Done(LispType::Nil))
        }
    } else {
        Ok(Step::Tail(items[2].clone(), env))
    }
}

/// `(fn* params body)`, where `items` is the whole form.
fn eval_fn(items: &Vec<LispType>, env: Environment, store: &Store) -> (r: Result<Step, LispError>)
    requires
        store.wf(),
        store@.has(env@),
        items.len() > 0,
        all_closed(values_of(*items), store@.frames.len() as int),
    ensures
        step_result_view(r) == fn_spec(
            values_of(*items).subrange(1, items.len() as int),
            env@,
            store@,
        ).result,
        r matches Ok(step) ==> step_closed(step@, store@) && step is Done,
{
    let ghost args = values_of(*items).subrange(1, items.len() as int);
    if items.len() != 3 {
        return fail(ErrorKind::MalformedFn);
    }
    assert(args[0] == items[1]@);
    assert(args[1] == items[2]@);
    assert(values_of(*items)[1] == items[1]@);
    assert(values_of(*items)[2] == items[2]@);
    match elements_of(&items[1]) {
        Some(params) => {
            let closure = LispType::Closure(clone_values(params), Box::new(items[2].clone()), env);
            Ok(Step::Done(closure))
        },
        None => fail(ErrorKind::MalformedFn),
    }
}

/// An application, where `items` is the whole form.
fn eval_call(
    items: &Vec<LispType>,
    env: Environment,
    store: &mut Store,
    fuel: u64,
) -> (r: Result<Step, LispError>)
    requires
        old(store).wf(),
        old(store)@.has(env@),
        items.len() > 0,
        all_closed(values_of(*items), old(store)@.frames.len() as int),
    ensures
        evolved(old(store), final(store)),
        ({
            let args = values_of(*items).subrange(1, items.len() as int);
            let o = call_spec(items[0]@, args, env@, old(store)@, fuel as nat);
            &&& step_result_view(r) == o.result
            &&& final(store)@ == o.store
        }),
        r matches Ok(step) ==> step_closed(step@, final(store)@),
    decreases fuel, 4nat,
{
    let ghost args = values_of(*items).subrange(1, items.len() as int);
    let ghost n = store@.frames.len() as int;
    proof {
        lemma_extends_refl(store@);
    }
    assert(values_of(*items)[0] == items[0]@);
    let callee = match eval(&items[0], env, store, fuel) {
        Ok(c) => c,
        Err(e) => {
            return Err(e);
        },
    };
    let ghost mid = store@;
    proof {
        lemma_all_closed_grows(values_of(*items), n, mid.frames.len() as int);
    }
    match callee {
        LispType::Func(p) => {
            let values = match eval_list(items, 1, env, store, fuel) {
                Ok(vs) => vs,
                Err(e) => {
                    proof {
                        lemma_extends_trans(old(store)@, mid, store@);
                    }
                    return Err(e);
                },
            };
            let ghost late = store@;
            let ghost vs = values_of(values);
            let r = apply(p, values, store);
            proof {
                lemma_extends_steps(late);
                lemma_extends_trans(old(store)@, mid, late);
                lemma_extends_trans(old(store)@, late, store@);
                lemma_apply_closed(p, vs, late.frames.len() as int);
            }
            match r {
                Ok(v) => Ok(Step::Done(v)),
                Err(e) => Err(e),
            }
        },
        LispType::Closure(params, body, captured) => {
            let values = match eval_list(items, 1, env, store, fuel) {
                Ok(vs) => vs,
                Err(e) => {
                    proof {
                        lemma_extends_trans(old(store)@, mid, store@);
                    }
                    return Err(e);
                },
            };
            let ghost late = store@;
            proof {
                lemma_closed_under_grows(callee@, mid.frames.len() as int, late.frames.len() as int);
            }
            match Environment::with_bindings(store, Some(captured), params, values) {
                Ok(frame) => {
                    proof {
                        lemma_extends_trans(old(store)@, mid, late);
                        lemma_extends_trans(old(store)@, late, store@);
                        lemma_closed_under_grows(body@, late.frames.len() as int, store@.frames.len() as int);
                    }
                    Ok(Step::Tail(*body, frame))
                },
                Err(e) => {
                    proof {
                        lemma_extends_trans(old(store)@, mid, late);
                    }
                    Err(e)
                },
            }
        },
        other => fail(ErrorKind::NotCallable(other)),
    }
}

/// The value of `ast` where a list is no form but a sequence: each of its elements
/// is evaluated, and the list of their values is the result.
pub open spec fn eval_ast_spec(ast: Value, env: int, st: StoreView, fuel: nat) -> Outcome<Value> {
    match ast {
        Value::Symbol(name) => Outcome {
            result: match st.lookup(env, name) {
                Some(v) => Ok(v),
                None => Err(Failure::UnboundSymbol(name)),
            },
            store: st,
        },
        Value::List(items) => {
            let values = list_from(items, 0, Seq::empty(), env, st, fuel);
            Outcome {
                result: match values.result {
                    Ok(vs) => Ok(Value::List(vs)),
                    Err(e) => Err(e),
                },
                store: values.store,
            }
        },
        _ => Outcome { result: Ok(ast), store: st },
    }
}

/// Evaluates a symbol by looking it up and a list element by element; any other
/// value is its own result.
pub fn eval_ast(ast: &LispType, env: Environment, store: &mut Store, fuel: u64) -> (r: LispResult)
    requires
        old(store).wf(),
        old(store)@.has(env@),
        ast@.closed_under(old(store)@.frames.len() as int),
    ensures
        evolved(old(store), final(store)),
        result_view(r) == eval_ast_spec(ast@, env@, old(store)@, fuel as nat).result,
        final(store)@ == eval_ast_spec(ast@, env@, old(store)@, fuel as nat).store,
        r matches Ok(v) ==> v@.closed_under(final(store)@.frames.len() as int),
{
    proof {
        lemma_extends_refl(store@);
    }
    match ast {
        LispType::Symbol(name) => env.get(store, name.as_str()),
        LispType::List(items) => {
            assert(values_of(*items).subrange(0, items.len() as int) =~= values_of(*items));
            match eval_list(items, 0, env, store, fuel) {
                Ok(values) => Ok(LispType::List(values)),
                Err(e) => Err(e),
            }
        },
        _ => Ok(ast.clone()),
    }
}

} // verus!
