//! Values and errors, their models, the language's equality, and the printer.

use crate::env::Environment;
use crate::text::{decimal, digits, escape, integer_text, natural_text, push_escaped};
use vstd::prelude::*;
use vstd::std_specs::cmp::PartialEqSpecImpl;

verus! {

/// The built-in callables. A `LispType::Func` holds one of them.
#[derive(Clone, Copy, Debug, PartialEq, Eq, Structural)]
pub enum Primitive {
    Add,
    Sub,
    Mul,
    Div,
    List,
    IsList,
    IsEmpty,
    Count,
    Eq,
    Lt,
    Le,
    Gt,
    Ge,
    PrStr,
    Str,
    Prn,
    Println,
}

/// A runtime datum: what the reader produces and the evaluator consumes and returns.
#[derive(Debug)]
pub enum LispType {
    Nil,
    True,
    False,
    Integer(i64),
    Symbol(String),
    Str(String),
    Keyword(String),
    List(Vec<LispType>),
    Vector(Vec<LispType>),
    Func(Primitive),
    /// Parameters, body, and the frame that was current when the closure was made.
    Closure(Vec<LispType>, Box<LispType>, Environment),
}

/// The mathematical model of a `LispType`.
pub enum Value {
    Nil,
    True,
    False,
    Integer(int),
    Symbol(Seq<char>),
    Str(Seq<char>),
    Keyword(Seq<char>),
    List(Seq<Value>),
    Vector(Seq<Value>),
    Func(Primitive),
    /// Parameters, body, and the index of the captured frame.
    Closure(Seq<Value>, Box<Value>, int),
}

/// The model of `v`.
pub open spec fn value_of(v: LispType) -> Value
    decreases v,
{
    match v {
        LispType::Nil => Value::Nil,
        LispType::True => Value::True,
        LispType::False => Value::False,
        LispType::Integer(i) => Value::Integer(i as int),
        LispType::Symbol(s) => Value::Symbol(s@),
        LispType::Str(s) => Value::Str(s@),
        LispType::Keyword(s) => Value::Keyword(s@),
        LispType::List(xs) => Value::List(values_of(xs)),
        LispType::Vector(xs) => Value::Vector(values_of(xs)),
        LispType::Func(p) => Value::Func(p),
        LispType::Closure(ps, body, env) => Value::Closure(
            values_of(ps),
            Box::new(value_of(*body)),
            env@,
        ),
    }
}

/// The models of the elements of `xs`, in order.
pub open spec fn values_of(xs: Vec<LispType>) -> Seq<Value>
    decreases xs,
{
    Seq::new(
        xs.len() as nat,
        |i: int|
            if 0 <= i < xs.len() {
                value_of(xs[i])
            } else {
                Value::Nil
            },
    )
}

impl View for LispType {
    type V = Value;

    open spec fn view(&self) -> Value {
        value_of(*self)
    }
}

impl Value {
    /// The elements, where the value is a list or a vector.
    pub open spec fn elements(self) -> Option<Seq<Value>> {
        match self {
            Value::List(xs) => Some(xs),
            Value::Vector(xs) => Some(xs),
            _ => None,
        }
    }

    /// Every closure inside the value captured a frame with an index below `n`.
    pub open spec fn closed_under(self, n: int) -> bool
        decreases self,
    {
        match self {
            Value::List(xs) => forall|i: int| 0 <= i < xs.len() ==> (#[trigger] xs[i]).closed_under(n),
            Value::Vector(xs) => forall|i: int|
                0 <= i < xs.len() ==> (#[trigger] xs[i]).closed_under(n),
            Value::Closure(ps, body, env) => {
                &&& 0 <= env < n
                &&& body.closed_under(n)
                &&& forall|i: int| 0 <= i < ps.len() ==> (#[trigger] ps[i]).closed_under(n)
            },
            _ => true,
        }
    }
}

/// Every element of `xs` is closed under `n`.
pub open spec fn all_closed(xs: Seq<Value>, n: int) -> bool {
    forall|i: int| 0 <= i < xs.len() ==> (#[trigger] xs[i]).closed_under(n)
}

/// Why an evaluation failed.
#[derive(Debug)]
pub enum ErrorKind {
    /// No frame on the chain binds the name.
    UnboundSymbol(String),
    /// A closure was called with too few or too many arguments.
    ArityMismatch,
    /// A parameter list that holds something other than symbols, or a rest marker
    /// that is not followed by exactly one symbol.
    InvalidBindingForm,
    /// An empty list was evaluated.
    EmptyApplication,
    MalformedDef,
    MalformedBindings,
    MalformedIf,
    MalformedFn,
    /// The head of an application evaluated to this value, which is no callable.
    NotCallable(LispType),
    /// A binary primitive was called with this many arguments.
    WrongArgumentCount(usize),
    /// An integer primitive was called with a non-integer; the value is its second argument.
    ExpectedInteger(LispType),
    /// A list primitive was given this value, which is neither a list nor a vector.
    NotAList(LispType),
    /// An integer result outside the 64-bit range, or a division by zero.
    ArithmeticError,
    /// The evaluation ran out of steps.
    StepLimit,
}

/// The mathematical model of an `ErrorKind`.
pub enum Failure {
    UnboundSymbol(Seq<char>),
    ArityMismatch,
    InvalidBindingForm,
    EmptyApplication,
    MalformedDef,
    MalformedBindings,
    MalformedIf,
    MalformedFn,
    NotCallable(Value),
    WrongArgumentCount(int),
    ExpectedInteger(Value),
    NotAList(Value),
    ArithmeticError,
    StepLimit,
}

impl View for ErrorKind {
    type V = Failure;

    open spec fn view(&self) -> Failure {
        match self {
            ErrorKind::UnboundSymbol(name) => Failure::UnboundSymbol(name@),
            ErrorKind::ArityMismatch => Failure::ArityMismatch,
            ErrorKind::InvalidBindingForm => Failure::InvalidBindingForm,
            ErrorKind::EmptyApplication => Failure::EmptyApplication,
            ErrorKind::MalformedDef => Failure::MalformedDef,
            ErrorKind::MalformedBindings => Failure::MalformedBindings,
            ErrorKind::MalformedIf => Failure::MalformedIf,
            ErrorKind::MalformedFn => Failure::MalformedFn,
            ErrorKind::NotCallable(v) => Failure::NotCallable(v@),
            ErrorKind::WrongArgumentCount(n) => Failure::WrongArgumentCount(*n as int),
            ErrorKind::ExpectedInteger(v) => Failure::ExpectedInteger(v@),
            ErrorKind::NotAList(v) => Failure::NotAList(v@),
            ErrorKind::ArithmeticError => Failure::ArithmeticError,
            ErrorKind::StepLimit => Failure::StepLimit,
        }
    }
}

/// An evaluation error.
#[derive(Debug)]
pub struct LispError {
    pub kind: ErrorKind,
}

impl View for LispError {
    type V = Failure;

    open spec fn view(&self) -> Failure {
        self.kind@
    }
}

/// What an evaluation gives: a value, or the reason why there is none.
pub type LispResult = Result<LispType, LispError>;

/// The model of an evaluation's result.
pub open spec fn result_view(r: LispResult) -> Result<Value, Failure> {
    match r {
        Ok(v) => Ok(v@),
        Err(e) => Err(e@),
    }
}

/// An error of the given kind.
pub fn fail<T>(kind: ErrorKind) -> (r: Result<T, LispError>)
    ensures
        r matches Err(e) && e@ == kind@,
{
    Err(LispError { kind })
}

/// The language's own equality: atoms by content, lists and vectors element by element
/// whichever of the two tags each side has, and a callable equal to nothing.
pub open spec fn lisp_eq(a: Value, b: Value) -> bool
    decreases a, 0nat,
{
    match a {
        Value::Nil => b is Nil,
        Value::True => b is True,
        Value::False => b is False,
        Value::Integer(x) => b == Value::Integer(x),
        Value::Symbol(x) => b == Value::Symbol(x),
        Value::Str(x) => b == Value::Str(x),
        Value::Keyword(x) => b == Value::Keyword(x),
        Value::List(xs) => match b.elements() {
            Some(ys) => lisp_eq_seq(xs, ys),
            None => false,
        },
        Value::Vector(xs) => match b.elements() {
            Some(ys) => lisp_eq_seq(xs, ys),
            None => false,
        },
        Value::Func(_) => false,
        Value::Closure(_, _, _) => false,
    }
}

/// Two sequences of the same length whose elements are equal pairwise.
pub open spec fn lisp_eq_seq(xs: Seq<Value>, ys: Seq<Value>) -> bool
    decreases xs, 1nat,
{
    &&& xs.len() == ys.len()
    &&& forall|i: int| 0 <= i < xs.len() ==> lisp_eq(#[trigger] xs[i], ys[i])
}

/// A primitive or a closure equals nothing, itself included.
pub proof fn lemma_callable_equals_nothing(a: Value, b: Value)
    requires
        a is Func || a is Closure || b is Func || b is Closure,
    ensures
        !lisp_eq(a, b),
{
}

/// Whether a list or a vector equals another does not depend on which of the two each is.
pub proof fn lemma_eq_ignores_the_tag(xs: Seq<Value>, ys: Seq<Value>)
    ensures
        lisp_eq(Value::List(xs), Value::Vector(ys)) == lisp_eq_seq(xs, ys),
        lisp_eq(Value::Vector(xs), Value::List(ys)) == lisp_eq_seq(xs, ys),
        lisp_eq(Value::List(xs), Value::List(ys)) == lisp_eq_seq(xs, ys),
        lisp_eq(Value::Vector(xs), Value::Vector(ys)) == lisp_eq_seq(xs, ys),
{
}

/// A list equals the vector of the same elements exactly if it equals itself,
/// which it does unless a callable is among its elements.
pub proof fn lemma_list_equals_its_vector(xs: Seq<Value>)
    ensures
        lisp_eq(Value::List(xs), Value::Vector(xs)) == lisp_eq(Value::List(xs), Value::List(xs)),
{
}

/// Equality does not depend on the order of its two sides.
pub proof fn lemma_eq_symmetric(a: Value, b: Value)
    ensures
        lisp_eq(a, b) == lisp_eq(b, a),
    decreases a,
{
    match (a.elements(), b.elements()) {
        (Some(xs), Some(ys)) => {
            if xs.len() == ys.len() {
                assert forall|i: int| 0 <= i < xs.len() implies lisp_eq(xs[i], ys[i]) == lisp_eq(
                    ys[i],
                    xs[i],
                ) by {
                    lemma_eq_symmetric(xs[i], ys[i]);
                }
                assert(lisp_eq_seq(xs, ys) == lisp_eq_seq(ys, xs));
            }
            lemma_eq_ignores_the_tag(xs, ys);
            lemma_eq_ignores_the_tag(ys, xs);
        },
        _ => {},
    }
}

/// A value closed under `n` is closed under every larger bound.
pub proof fn lemma_closed_under_grows(v: Value, n: int, m: int)
    requires
        v.closed_under(n),
        n <= m,
    ensures
        v.closed_under(m),
    decreases v,
{
    match v {
        Value::List(xs) => {
            assert forall|i: int| 0 <= i < xs.len() implies (#[trigger] xs[i]).closed_under(m) by {
                lemma_closed_under_grows(xs[i], n, m);
            }
        },
        Value::Vector(xs) => {
            assert forall|i: int| 0 <= i < xs.len() implies (#[trigger] xs[i]).closed_under(m) by {
                lemma_closed_under_grows(xs[i], n, m);
            }
        },
        Value::Closure(ps, body, env) => {
            lemma_closed_under_grows(*body, n, m);
            assert forall|i: int| 0 <= i < ps.len() implies (#[trigger] ps[i]).closed_under(m) by {
                lemma_closed_under_grows(ps[i], n, m);
            }
        },
        _ => {},
    }
}

/// Copies of the elements of `xs`.
pub fn clone_values(xs: &Vec<LispType>) -> (out: Vec<LispType>)
    ensures
        values_of(out) == values_of(*xs),
    decreases xs,
{
    let mut out: Vec<LispType> = Vec::new();
    let mut i: usize = 0;
    while i < xs.len()
        invariant
            i <= xs.len(),
            out.len() == i,
            forall|j: int| 0 <= j < i ==> out[j]@ == xs[j]@,
        decreases xs.len() - i,
    {
        out.push(xs[i].clone());
        i += 1;
    }
    assert(values_of(out) =~= values_of(*xs));
    out
}

impl Clone for LispType {
    fn clone(&self) -> (r: Self)
        ensures
            r@ == self@,
        decreases self,
    {
        match self {
            LispType::Nil => LispType::Nil,
            LispType::True => LispType::True,
            LispType::False => LispType::False,
            LispType::Integer(i) => LispType::Integer(*i),
            LispType::Symbol(s) => LispType::Symbol(s.clone()),
            LispType::Str(s) => LispType::Str(s.clone()),
            LispType::Keyword(s) => LispType::Keyword(s.clone()),
            LispType::List(xs) => LispType::List(clone_values(xs)),
            LispType::Vector(xs) => LispType::Vector(clone_values(xs)),
            LispType::Func(p) => LispType::Func(*p),
            LispType::Closure(ps, body, env) => LispType::Closure(
                clone_values(ps),
                Box::new((&**body).clone()),
                *env,
            ),
        }
    }
}

fn elements_equal(xs: &Vec<LispType>, ys: &Vec<LispType>) -> (r: bool)
    ensures
        r == lisp_eq_seq(values_of(*xs), values_of(*ys)),
    decreases xs,
{
    if xs.len() != ys.len() {
        return false;
    }
    let mut i: usize = 0;
    while i < xs.len()
        invariant
            i <= xs.len(),
            xs.len() == ys.len(),
            forall|j: int| 0 <= j < i ==> lisp_eq(#[trigger] values_of(*xs)[j], values_of(*ys)[j]),
        decreases xs.len() - i,
    {
        if !values_equal(&xs[i], &ys[i]) {
            assert(!lisp_eq(values_of(*xs)[i as int], values_of(*ys)[i as int]));
            return false;
        }
        i += 1;
    }
    true
}

/// Whether two values are equal in the language's own sense.
pub fn values_equal(a: &LispType, b: &LispType) -> (r: bool)
    ensures
        r == lisp_eq(a@, b@),
    decreases a,
{
    match a {
        LispType::Nil => matches!(b, LispType::Nil),
        LispType::True => matches!(b, LispType::True),
        LispType::False => matches!(b, LispType::False),
        LispType::Integer(x) => match b {
            LispType::Integer(y) => *x == *y,
            _ => false,
        },
        LispType::Symbol(x) => match b {
            LispType::Symbol(y) => *x == *y,
            _ => false,
        },
        LispType::Str(x) => match b {
            LispType::Str(y) => *x == *y,
            _ => false,
        },
        LispType::Keyword(x) => match b {
            LispType::Keyword(y) => *x == *y,
            _ => false,
        },
        LispType::List(x) => match b {
            LispType::List(y) => elements_equal(x, y),
            LispType::Vector(y) => elements_equal(x, y),
            _ => false,
        },
        LispType::Vector(x) => match b {
            LispType::List(y) => elements_equal(x, y),
            LispType::Vector(y) => elements_equal(x, y),
            _ => false,
        },
        LispType::Func(_) => false,
        LispType::Closure(_, _, _) => false,
    }
}

impl PartialEq for LispType {
    fn eq(&self, other: &LispType) -> (r: bool) {
        values_equal(self, other)
    }
}

impl PartialEqSpecImpl for LispType {
    open spec fn obeys_eq_spec() -> bool {
        true
    }

    open spec fn eq_spec(&self, other: &LispType) -> bool {
        lisp_eq(self@, other@)
    }
}

/// Elements closed under `n` are closed under every larger bound.
pub proof fn lemma_all_closed_grows(xs: Seq<Value>, n: int, m: int)
    requires
        all_closed(xs, n),
        n <= m,
    ensures
        all_closed(xs, m),
{
    assert forall|i: int| 0 <= i < xs.len() implies (#[trigger] xs[i]).closed_under(m) by {
        lemma_closed_under_grows(xs[i], n, m);
    }
}

/// A list or a vector is closed exactly if its elements are; a closure, if its
/// parameters and its body are and the frame it captured is there.
pub proof fn lemma_closed_inside(v: Value, n: int)
    ensures
        v matches Value::List(xs) ==> v.closed_under(n) == all_closed(xs, n),
        v matches Value::Vector(xs) ==> v.closed_under(n) == all_closed(xs, n),
        v matches Value::Closure(ps, body, env) ==> v.closed_under(n) == (0 <= env < n
            && body.closed_under(n) && all_closed(ps, n)),
{
    reveal_with_fuel(Value::closed_under, 2);
}

/// Whether every element of `xs` is closed under `n`.
fn elements_closed(xs: &Vec<LispType>, n: usize) -> (r: bool)
    ensures
        r == all_closed(values_of(*xs), n as int),
    decreases xs,
{
    let mut i: usize = 0;
    while i < xs.len()
        invariant
            i <= xs.len(),
            forall|j: int| 0 <= j < i ==> (#[trigger] values_of(*xs)[j]).closed_under(n as int),
        decreases xs.len() - i,
    {
        assert(values_of(*xs)[i as int] == xs[i as int]@);
        if !xs[i].is_closed_under(n) {
            return false;
        }
        i += 1;
    }
    true
}

impl LispType {
    /// Whether every closure inside the value captured a frame with an index below `n`.
    pub fn is_closed_under(&self, n: usize) -> (r: bool)
        ensures
            r == self@.closed_under(n as int),
        decreases self,
    {
        proof {
            lemma_closed_inside(self@, n as int);
        }
        match self {
            LispType::List(xs) => elements_closed(xs, n),
            LispType::Vector(xs) => elements_closed(xs, n),
            LispType::Closure(ps, body, env) => {
                env.index() < n && (&**body).is_closed_under(n) && elements_closed(ps, n)
            },
            _ => true,
        }
    }
}

/// The text of a value. With `readably`, a string comes out as the literal that
/// reads back as it; without, as its bare content.
pub open spec fn pr_str_spec(v: Value, readably: bool) -> Seq<char>
    decreases v, 0nat,
{
    match v {
        Value::Nil => "nil"@,
        Value::True => "true"@,
        Value::False => "false"@,
        Value::Integer(i) => decimal(i),
        Value::Symbol(s) => s,
        Value::Str(s) => if readably {
            seq!['"'] + escape(s) + seq!['"']
        } else {
            s
        },
        Value::Keyword(s) => s,
        Value::List(xs) => seq!['('] + pr_seq_spec(xs, readably, xs.len()) + seq![')'],
        Value::Vector(xs) => seq!['['] + pr_seq_spec(xs, readably, xs.len()) + seq![']'],
        Value::Func(_) => "#<function ...>"@,
        Value::Closure(_, _, _) => "#<function ...>"@,
    }
}

/// The texts of the first `n` elements of `xs`, with one space between neighbours.
pub open spec fn pr_seq_spec(xs: Seq<Value>, readably: bool, n: nat) -> Seq<char>
    decreases xs, n,
{
    if n == 0 || n > xs.len() {
        Seq::empty()
    } else if n == 1 {
        pr_str_spec(xs[0], readably)
    } else {
        pr_seq_spec(xs, readably, (n - 1) as nat) + seq![' '] + pr_str_spec(xs[n - 1], readably)
    }
}

/// Appends the texts of the elements of `xs` to `buf`, with one space between neighbours.
fn push_elements(buf: &mut String, xs: &Vec<LispType>, print_readably: bool)
    ensures
        final(buf)@ == old(buf)@ + pr_seq_spec(values_of(*xs), print_readably, xs.len() as nat),
    decreases xs,
{
    let ghost items = values_of(*xs);
    let mut i: usize = 0;
    while i < xs.len()
        invariant
            i <= xs.len(),
            items == values_of(*xs),
            buf@ == old(buf)@ + pr_seq_spec(items, print_readably, i as nat),
        decreases xs.len() - i,
    {
        if i != 0 {
            buf.push(' ');
        }
        let text = pr_str(&xs[i], print_readably);
        buf.append(text.as_str());
        assert(items[i as int] == xs[i as int]@);
        i += 1;
        assert(buf@ =~= old(buf)@ + pr_seq_spec(items, print_readably, i as nat));
    }
}

/// The text of `val`.
pub fn pr_str(val: &LispType, print_readably: bool) -> (text: String)
    ensures
        text@ == pr_str_spec(val@, print_readably),
    decreases val,
{
    match val {
        LispType::Nil => "nil".to_owned(),
        LispType::True => "true".to_owned(),
        LispType::False => "false".to_owned(),
        LispType::Integer(i) => integer_text(*i),
        LispType::Symbol(sym) => sym.clone(),
        LispType::Str(s) => if print_readably {
            let mut buf = String::new();
            buf.push('"');
            push_escaped(&mut buf, s.as_str());
            buf.push('"');
            assert(buf@ =~= seq!['"'] + escape(s@) + seq!['"']);
            buf
        } else {
            s.clone()
        },
        LispType::Keyword(s) => s.clone(),
        LispType::List(elems) => {
            let mut buf = String::new();
            buf.push('(');
            push_elements(&mut buf, elems, print_readably);
            buf.push(')');
            assert(buf@ =~= pr_str_spec(val@, print_readably));
            buf
        },
        LispType::Vector(elems) => {
            let mut buf = String::new();
            buf.push('[');
            push_elements(&mut buf, elems, print_readably);
            buf.push(']');
            assert(buf@ =~= pr_str_spec(val@, print_readably));
            buf
        },
        LispType::Func(_) => "#<function ...>".to_owned(),
        LispType::Closure(_, _, _) => "#<function ...>".to_owned(),
    }
}

/// The text that tells a user of a failure.
pub open spec fn message_spec(f: Failure) -> Seq<char> {
    match f {
        Failure::UnboundSymbol(name) => name + " not found"@,
        Failure::ArityMismatch => "closure called with incorrect number of arguments"@,
        Failure::InvalidBindingForm => "closure parameters must be symbols, with one symbol after &"@,
        Failure::EmptyApplication => "tried to evaluate a list with no function"@,
        Failure::MalformedDef => "def! must be called with 2 args, a symbol and a value"@,
        Failure::MalformedBindings => "let* must be called with pairs of a symbol and a value, and an expression"@,
        Failure::MalformedIf => "if must be called with at least two arguments"@,
        Failure::MalformedFn => "fn* must be called with a binding list and an expression"@,
        Failure::NotCallable(v) => pr_str_spec(v, false) + " is not a function, cannot evaluate it"@,
        Failure::WrongArgumentCount(n) => "binary function called with "@ + digits(n as nat)
            + " arguments"@,
        Failure::ExpectedInteger(v) => "illegal argument: "@ + pr_str_spec(v, false)
            + " to function which expects integers"@,
        Failure::NotAList(v) => "argument "@ + pr_str_spec(v, false) + " is not a list"@,
        Failure::ArithmeticError => "integer overflow or division by zero"@,
        Failure::StepLimit => "evaluation ran out of steps"@,
    }
}

impl LispError {
    /// The text that tells a user of this error.
    pub fn message(&self) -> (text: String)
        ensures
            text@ == message_spec(self@),
    {
        match &self.kind {
            ErrorKind::UnboundSymbol(name) => {
                let mut buf = name.clone();
                buf.append(" not found");
                buf
            },
            ErrorKind::ArityMismatch => "closure called with incorrect number of arguments".to_owned(),
            ErrorKind::InvalidBindingForm => {
                "closure parameters must be symbols, with one symbol after &".to_owned()
            },
            ErrorKind::EmptyApplication => "tried to evaluate a list with no function".to_owned(),
            ErrorKind::MalformedDef => "def! must be called with 2 args, a symbol and a value".to_owned(),
            ErrorKind::MalformedBindings => {
                "let* must be called with pairs of a symbol and a value, and an expression".to_owned()
            },
            ErrorKind::MalformedIf => "if must be called with at least two arguments".to_owned(),
            ErrorKind::MalformedFn => "fn* must be called with a binding list and an expression".to_owned(),
            ErrorKind::NotCallable(v) => {
                let mut buf = pr_str(v, false);
                buf.append(" is not a function, cannot evaluate it");
                buf
            },
            ErrorKind::WrongArgumentCount(n) => {
                let mut buf = "binary function called with ".to_owned();
                buf.append(natural_text(*n as u64).as_str());
                buf.append(" arguments");
                buf
            },
            ErrorKind::ExpectedInteger(v) => {
                let mut buf = "illegal argument: ".to_owned();
                buf.append(pr_str(v, false).as_str());
                buf.append(" to function which expects integers");
                buf
            },
            ErrorKind::NotAList(v) => {
                let mut buf = "argument ".to_owned();
                buf.append(pr_str(v, false).as_str());
                buf.append(" is not a list");
                buf
            },
            ErrorKind::ArithmeticError => "integer overflow or division by zero".to_owned(),
            ErrorKind::StepLimit => "evaluation ran out of steps".to_owned(),
        }
    }
}

} // verus!
