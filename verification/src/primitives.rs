//! The built-in callables and the root frame that binds them.

use crate::env::{lemma_extends_steps, Environment, Store, StoreView};
use crate::types::{
    all_closed, fail, lisp_eq, pr_seq_spec, pr_str_spec, result_view, values_equal, values_of,
    ErrorKind, Failure, LispError, LispResult, LispType, Primitive, Value,
};
use vstd::prelude::*;

verus! {

/// The four integer operations.
#[derive(Clone, Copy, Debug, PartialEq, Eq, Structural)]
pub enum IntOp {
    Add,
    Sub,
    Mul,
    Div,
}

/// The four integer comparisons.
#[derive(Clone, Copy, Debug, PartialEq, Eq, Structural)]
pub enum BoolOp {
    Lt,
    Le,
    Gt,
    Ge,
}

/// The quotient rounded towards zero.
pub open spec fn trunc_div(x: int, d: int) -> int {
    if x >= 0 && d > 0 {
        x / d
    } else if x < 0 && d < 0 {
        (-x) / (-d)
    } else if x < 0 {
        -((-x) / d)
    } else {
        -(x / (-d))
    }
}

/// The result of an integer operation: none for a division by zero and for a
/// result that does not fit in 64 bits.
pub open spec fn int_op_spec(op: IntOp, a: int, b: int) -> Option<int> {
    let exact = match op {
        IntOp::Add => Some(a + b),
        IntOp::Sub => Some(a - b),
        IntOp::Mul => Some(a * b),
        IntOp::Div => if b == 0 {
            None
        } else {
            Some(trunc_div(a, b))
        },
    };
    match exact {
        Some(x) => if i64::MIN <= x <= i64::MAX {
            Some(x)
        } else {
            None
        },
        None => None,
    }
}

/// The result of an integer comparison.
pub open spec fn bool_op_spec(op: BoolOp, a: int, b: int) -> bool {
    match op {
        BoolOp::Lt => a < b,
        BoolOp::Le => a <= b,
        BoolOp::Gt => a > b,
        BoolOp::Ge => a >= b,
    }
}

/// `True` or `False`.
pub open spec fn truth(b: bool) -> Value {
    if b {
        Value::True
    } else {
        Value::False
    }
}

/// What both kinds of binary primitive ask of their arguments: two of them, both
/// integers. Where one is no integer, the error carries the second argument.
pub open spec fn two_integers(args: Seq<Value>) -> Result<(int, int), Failure> {
    if args.len() != 2 {
        Err(Failure::WrongArgumentCount(args.len() as int))
    } else {
        match (args[0], args[1]) {
            (Value::Integer(a), Value::Integer(b)) => Ok((a, b)),
            _ => Err(Failure::ExpectedInteger(args[1])),
        }
    }
}

/// What an integer operation returns on `args`.
pub open spec fn binary_int_spec(op: IntOp, args: Seq<Value>) -> Result<Value, Failure> {
    match two_integers(args) {
        Ok((a, b)) => match int_op_spec(op, a, b) {
            Some(x) => Ok(Value::Integer(x)),
            None => Err(Failure::ArithmeticError),
        },
        Err(e) => Err(e),
    }
}

/// What an integer comparison returns on `args`.
pub open spec fn binary_bool_spec(op: BoolOp, args: Seq<Value>) -> Result<Value, Failure> {
    match two_integers(args) {
        Ok((a, b)) => Ok(truth(bool_op_spec(op, a, b))),
        Err(e) => Err(e),
    }
}

/// `=`: whether every argument after the first equals the first.
pub open spec fn eq_spec(args: Seq<Value>) -> Value {
    truth(forall|i: int| 1 <= i < args.len() ==> lisp_eq(#[trigger] args[i], args[0]))
}

/// `list?`: whether every argument is a list.
pub open spec fn is_list_spec(args: Seq<Value>) -> Value {
    truth(forall|i: int| 0 <= i < args.len() ==> #[trigger] args[i] is List)
}

/// `empty?` from argument `i` on: the first argument that is not an empty list or
/// vector decides.
pub open spec fn is_empty_from(args: Seq<Value>, i: int) -> Result<Value, Failure>
    decreases args.len() - i,
{
    if i < 0 || i >= args.len() {
        Ok(Value::True)
    } else {
        match args[i].elements() {
            Some(xs) => if xs.len() == 0 {
                is_empty_from(args, i + 1)
            } else {
                Ok(Value::False)
            },
            None => Err(Failure::NotAList(args[i])),
        }
    }
}

/// `count` from argument `i` on, with `total` counted so far: the lengths of the
/// lists and vectors added up, `nil` counting as empty.
pub open spec fn count_from(args: Seq<Value>, i: int, total: int) -> Result<Value, Failure>
    decreases args.len() - i,
{
    if i < 0 || i >= args.len() {
        Ok(Value::Integer(total))
    } else if args[i] is Nil {
        count_from(args, i + 1, total)
    } else {
        match args[i].elements() {
            Some(xs) => if total + xs.len() <= i64::MAX {
                count_from(args, i + 1, total + xs.len())
            } else {
                Err(Failure::ArithmeticError)
            },
            None => Err(Failure::NotAList(args[i])),
        }
    }
}

/// The texts of the first `n` elements of `xs`, one after the other.
pub open spec fn concat_spec(xs: Seq<Value>, n: nat) -> Seq<char>
    decreases n,
{
    if n == 0 || n > xs.len() {
        Seq::empty()
    } else {
        concat_spec(xs, (n - 1) as nat) + pr_str_spec(xs[n - 1], false)
    }
}

/// What a primitive returns on `args`.
pub open spec fn apply_spec(p: Primitive, args: Seq<Value>) -> Result<Value, Failure> {
    match p {
        Primitive::Add => binary_int_spec(IntOp::Add, args),
        Primitive::Sub => binary_int_spec(IntOp::Sub, args),
        Primitive::Mul => binary_int_spec(IntOp::Mul, args),
        Primitive::Div => binary_int_spec(IntOp::Div, args),
        Primitive::List => Ok(Value::List(args)),
        Primitive::IsList => Ok(is_list_spec(args)),
        Primitive::IsEmpty => is_empty_from(args, 0),
        Primitive::Count => count_from(args, 0, 0),
        Primitive::Eq => Ok(eq_spec(args)),
        Primitive::Lt => binary_bool_spec(BoolOp::Lt, args),
        Primitive::Le => binary_bool_spec(BoolOp::Le, args),
        Primitive::Gt => binary_bool_spec(BoolOp::Gt, args),
        Primitive::Ge => binary_bool_spec(BoolOp::Ge, args),
        Primitive::PrStr => Ok(Value::Str(pr_seq_spec(args, true, args.len()))),
        Primitive::Str => Ok(Value::Str(concat_spec(args, args.len()))),
        Primitive::Prn => Ok(Value::Nil),
        Primitive::Println => Ok(Value::Nil),
    }
}

/// The line that a primitive writes on `args`, if it writes one.
pub open spec fn printed_spec(p: Primitive, args: Seq<Value>) -> Option<Seq<char>> {
    match p {
        Primitive::Prn => Some(pr_seq_spec(args, true, args.len())),
        Primitive::Println => Some(pr_seq_spec(args, false, args.len())),
        _ => None,
    }
}

/// The store after a primitive ran on `args`.
pub open spec fn store_after(p: Primitive, args: Seq<Value>, st: StoreView) -> StoreView {
    match printed_spec(p, args) {
        Some(line) => st.print(line),
        None => st,
    }
}

/// A primitive makes no closure: what it returns on arguments closed under `n` is closed under `n`.
pub proof fn lemma_apply_closed(p: Primitive, args: Seq<Value>, n: int)
    requires
        all_closed(args, n),
    ensures
        apply_spec(p, args) matches Ok(v) ==> v.closed_under(n),
{
    lemma_is_empty_closed(args, 0, n);
    lemma_count_closed(args, 0, 0, n);
}

proof fn lemma_is_empty_closed(args: Seq<Value>, i: int, n: int)
    ensures
        is_empty_from(args, i) matches Ok(v) ==> v.closed_under(n),
    decreases args.len() - i,
{
    if 0 <= i < args.len() {
        lemma_is_empty_closed(args, i + 1, n);
    }
}

proof fn lemma_count_closed(args: Seq<Value>, i: int, total: int, n: int)
    ensures
        count_from(args, i, total) matches Ok(v) ==> v.closed_under(n),
    decreases args.len() - i,
{
    if 0 <= i < args.len() {
        lemma_count_closed(args, i + 1, total, n);
        match args[i].elements() {
            Some(xs) => {
                lemma_count_closed(args, i + 1, total + xs.len(), n);
            },
            None => {},
        }
    }
}

fn int_op(op: IntOp, a: i64, b: i64) -> (r: Option<i64>)
    ensures
        match int_op_spec(op, a as int, b as int) {
            Some(x) => r == Some(x as i64),
            None => r is None,
        },
{
    match op {
        IntOp::Add => a.checked_add(b),
        IntOp::Sub => a.checked_sub(b),
        IntOp::Mul => a.checked_mul(b),
        IntOp::Div => a.checked_div(b),
    }
}

fn bool_op(op: BoolOp, a: i64, b: i64) -> (r: bool)
    ensures
        r == bool_op_spec(op, a as int, b as int),
{
    match op {
        BoolOp::Lt => a < b,
        BoolOp::Le => a <= b,
        BoolOp::Gt => a > b,
        BoolOp::Ge => a >= b,
    }
}

fn truth_value(b: bool) -> (v: LispType)
    ensures
        v@ == truth(b),
{
    if b {
        LispType::True
    } else {
        LispType::False
    }
}

/// The two integers that a binary primitive was called with.
fn integer_pair(args: &Vec<LispType>) -> (r: Result<(i64, i64), LispError>)
    ensures
        match two_integers(values_of(*args)) {
            Ok((a, b)) => r matches Ok((x, y)) && x == a && y == b,
            Err(failure) => r matches Err(e) && e@ == failure,
        },
{
    if args.len() != 2 {
        return fail(ErrorKind::WrongArgumentCount(args.len()));
    }
    assert(values_of(*args)[0] == args[0]@);
    assert(values_of(*args)[1] == args[1]@);
    match &args[0] {
        LispType::Integer(a) => match &args[1] {
            LispType::Integer(b) => Ok((*a, *b)),
            _ => fail(ErrorKind::ExpectedInteger(args[1].clone())),
        },
        _ => fail(ErrorKind::ExpectedInteger(args[1].clone())),
    }
}

/// Applies an integer operation to two integer arguments.
pub fn binary_int_op(op: IntOp, args: Vec<LispType>) -> (r: LispResult)
    ensures
        result_view(r) == binary_int_spec(op, values_of(args)),
{
    match integer_pair(&args) {
        Ok((a, b)) => match int_op(op, a, b) {
            Some(x) => Ok(LispType::Integer(x)),
            None => fail(ErrorKind::ArithmeticError),
        },
        Err(e) => Err(e),
    }
}

/// Applies an integer comparison to two integer arguments.
pub fn binary_bool_op(op: BoolOp, args: Vec<LispType>) -> (r: LispResult)
    ensures
        result_view(r) == binary_bool_spec(op, values_of(args)),
{
    match integer_pair(&args) {
        Ok((a, b)) => Ok(truth_value(bool_op(op, a, b))),
        Err(e) => Err(e),
    }
}

/// `+`: the sum of two integers.
pub fn add(args: Vec<LispType>) -> (r: LispResult)
    ensures
        result_view(r) == apply_spec(Primitive::Add, values_of(args)),
{
    binary_int_op(IntOp::Add, args)
}

/// `-`: the difference of two integers.
pub fn sub(args: Vec<LispType>) -> (r: LispResult)
    ensures
        result_view(r) == apply_spec(Primitive::Sub, values_of(args)),
{
    binary_int_op(IntOp::Sub, args)
}

/// `*`: the product of two integers.
pub fn mul(args: Vec<LispType>) -> (r: LispResult)
    ensures
        result_view(r) == apply_spec(Primitive::Mul, values_of(args)),
{
    binary_int_op(IntOp::Mul, args)
}

/// `/`: the quotient of two integers, rounded towards zero.
pub fn div(args: Vec<LispType>) -> (r: LispResult)
    ensures
        result_view(r) == apply_spec(Primitive::Div, values_of(args)),
{
    binary_int_op(IntOp::Div, args)
}

/// `<` on two integers.
pub fn lt(args: Vec<LispType>) -> (r: LispResult)
    ensures
        result_view(r) == apply_spec(Primitive::Lt, values_of(args)),
{
    binary_bool_op(BoolOp::Lt, args)
}

/// `<=` on two integers.
pub fn le(args: Vec<LispType>) -> (r: LispResult)
    ensures
        result_view(r) == apply_spec(Primitive::Le, values_of(args)),
{
    binary_bool_op(BoolOp::Le, args)
}

/// `>` on two integers.
pub fn gt(args: Vec<LispType>) -> (r: LispResult)
    ensures
        result_view(r) == apply_spec(Primitive::Gt, values_of(args)),
{
    binary_bool_op(BoolOp::Gt, args)
}

/// `>=` on two integers.
pub fn ge(args: Vec<LispType>) -> (r: LispResult)
    ensures
        result_view(r) == apply_spec(Primitive::Ge, values_of(args)),
{
    binary_bool_op(BoolOp::Ge, args)
}

/// `=`: whether every argument after the first equals the first.
pub fn eq(args: Vec<LispType>) -> (r: LispResult)
    ensures
        result_view(r) == apply_spec(Primitive::Eq, values_of(args)),
{
    let ghost items = values_of(args);
    let mut i: usize = 1;
    while i < args.len()
        invariant
            1 <= i,
            items == values_of(args),
            forall|j: int| 1 <= j < i && j < args.len() ==> lisp_eq(#[trigger] items[j], items[0]),
        decreases args.len() - i,
    {
        assert(items[i as int] == args[i as int]@);
        assert(items[0] == args[0]@);
        if !values_equal(&args[i], &args[0]) {
            return Ok(LispType::False);
        }
        i += 1;
    }
    Ok(LispType::True)
}

/// `list`: the list of the arguments.
pub fn mk_list(args: Vec<LispType>) -> (r: LispResult)
    ensures
        result_view(r) == apply_spec(Primitive::List, values_of(args)),
{
    Ok(LispType::List(args))
}

/// `list?`: whether every argument is a list.
pub fn is_list(args: Vec<LispType>) -> (r: LispResult)
    ensures
        result_view(r) == apply_spec(Primitive::IsList, values_of(args)),
{
    let ghost items = values_of(args);
    let mut i: usize = 0;
    while i < args.len()
        invariant
            items == values_of(args),
            forall|j: int| 0 <= j < i && j < args.len() ==> #[trigger] items[j] is List,
        decreases args.len() - i,
    {
        assert(items[i as int] == args[i as int]@);
        match &args[i] {
            LispType::List(_) => {},
            _ => {
                return Ok(LispType::False);
            },
        }
        i += 1;
    }
    Ok(LispType::True)
}

/// `empty?`: whether every argument is an empty list or vector.
pub fn is_empty(args: Vec<LispType>) -> (r: LispResult)
    ensures
        result_view(r) == apply_spec(Primitive::IsEmpty, values_of(args)),
{
    let ghost items = values_of(args);
    let mut i: usize = 0;
    while i < args.len()
        invariant
            i <= args.len(),
            items == values_of(args),
            is_empty_from(items, i as int) == is_empty_from(items, 0),
        decreases args.len() - i,
    {
        assert(items[i as int] == args[i as int]@);
        match &args[i] {
            LispType::List(elems) => {
                assert(items[i as int].elements() == Some(values_of(*elems)));
                if elems.len() != 0 {
                    return Ok(LispType::False);
                }
            },
            LispType::Vector(elems) => {
                assert(items[i as int].elements() == Some(values_of(*elems)));
                if elems.len() != 0 {
                    return Ok(LispType::False);
                }
            },
            _ => {
                return fail(ErrorKind::NotAList(args[i].clone()));
            },
        }
        i += 1;
    }
    Ok(LispType::True)
}

/// `count`: the lengths of the arguments added up.
pub fn count(args: Vec<LispType>) -> (r: LispResult)
    ensures
        result_view(r) == apply_spec(Primitive::Count, values_of(args)),
{
    let ghost items = values_of(args);
    let mut total: i64 = 0;
    let mut i: usize = 0;
    while i < args.len()
        invariant
            i <= args.len(),
            0 <= total,
            items == values_of(args),
            count_from(items, i as int, total as int) == count_from(items, 0, 0),
        decreases args.len() - i,
    {
        assert(items[i as int] == args[i as int]@);
        let n: usize = match &args[i] {
            LispType::Nil => 0,
            LispType::List(elems) => {
                assert(items[i as int].elements() == Some(values_of(*elems)));
                elems.len()
            },
            LispType::Vector(elems) => {
                assert(items[i as int].elements() == Some(values_of(*elems)));
                elems.len()
            },
            _ => {
                return fail(ErrorKind::NotAList(args[i].clone()));
            },
        };
        if n as u64 > (i64::MAX - total) as u64 {
            return fail(ErrorKind::ArithmeticError);
        }
        total = total + n as i64;
        i += 1;
    }
    Ok(LispType::Integer(total))
}

/// The texts of the arguments, with one space between neighbours.
fn joined(args: &Vec<LispType>, print_readably: bool) -> (text: String)
    ensures
        text@ == pr_seq_spec(values_of(*args), print_readably, args.len() as nat),
{
    let ghost items = values_of(*args);
    let mut buf = String::new();
    let mut i: usize = 0;
    while i < args.len()
        invariant
            i <= args.len(),
            items == values_of(*args),
            buf@ == pr_seq_spec(items, print_readably, i as nat),
        decreases args.len() - i,
    {
        if i != 0 {
            buf.push(' ');
        }
        let text = crate::types::pr_str(&args[i], print_readably);
        buf.append(text.as_str());
        assert(items[i as int] == args[i as int]@);
        i += 1;
        assert(buf@ =~= pr_seq_spec(items, print_readably, i as nat));
    }
    buf
}

/// `pr-str`: the texts of the arguments, strings as literals, with one space
/// between neighbours.
pub fn pr_str(args: Vec<LispType>) -> (r: LispResult)
    ensures
        result_view(r) == apply_spec(Primitive::PrStr, values_of(args)),
{
    Ok(LispType::Str(joined(&args, true)))
}

/// `str`: the texts of the arguments, strings by their content, one after the other.
pub fn str(args: Vec<LispType>) -> (r: LispResult)
    ensures
        result_view(r) == apply_spec(Primitive::Str, values_of(args)),
{
    let ghost items = values_of(args);
    let mut buf = String::new();
    let mut i: usize = 0;
    while i < args.len()
        invariant
            i <= args.len(),
            items == values_of(args),
            buf@ == concat_spec(items, i as nat),
        decreases args.len() - i,
    {
        let text = crate::types::pr_str(&args[i], false);
        buf.append(text.as_str());
        assert(items[i as int] == args[i as int]@);
        i += 1;
    }
    Ok(LispType::Str(buf))
}

/// Writes the arguments as one line, strings as literals, and returns `nil`.
pub fn prn(args: Vec<LispType>, store: &mut Store) -> (r: LispResult)
    requires
        old(store).wf(),
    ensures
        final(store).wf(),
        result_view(r) == apply_spec(Primitive::Prn, values_of(args)),
        final(store)@ == store_after(Primitive::Prn, values_of(args), old(store)@),
{
    store.print(joined(&args, true));
    Ok(LispType::Nil)
}

/// Writes the arguments as one line, strings as their content, and returns `nil`.
pub fn println(args: Vec<LispType>, store: &mut Store) -> (r: LispResult)
    requires
        old(store).wf(),
    ensures
        final(store).wf(),
        result_view(r) == apply_spec(Primitive::Println, values_of(args)),
        final(store)@ == store_after(Primitive::Println, values_of(args), old(store)@),
{
    store.print(joined(&args, false));
    Ok(LispType::Nil)
}

/// Calls a primitive on its arguments.
pub fn apply(p: Primitive, args: Vec<LispType>, store: &mut Store) -> (r: LispResult)
    requires
        old(store).wf(),
    ensures
        final(store).wf(),
        result_view(r) == apply_spec(p, values_of(args)),
        final(store)@ == store_after(p, values_of(args), old(store)@),
{
    match p {
        Primitive::Add => self::add(args),
        Primitive::Sub => self::sub(args),
        Primitive::Mul => self::mul(args),
        Primitive::Div => div(args),
        Primitive::List => mk_list(args),
        Primitive::IsList => is_list(args),
        Primitive::IsEmpty => is_empty(args),
        Primitive::Count => count(args),
        Primitive::Eq => eq(args),
        Primitive::Lt => lt(args),
        Primitive::Le => le(args),
        Primitive::Gt => gt(args),
        Primitive::Ge => ge(args),
        Primitive::PrStr => pr_str(args),
        Primitive::Str => str(args),
        Primitive::Prn => prn(args, store),
        Primitive::Println => println(args, store),
    }
}

/// The names of the primitives, each bound to its primitive.
pub open spec fn default_bindings() -> Map<Seq<char>, Value> {
    Map::<Seq<char>, Value>::empty().insert(
        "+"@,
        Value::Func(Primitive::Add),
    ).insert(
        "-"@,
        Value::Func(Primitive::Sub),
    ).insert(
        "*"@,
        Value::Func(Primitive::Mul),
    ).insert(
        "/"@,
        Value::Func(Primitive::Div),
    ).insert(
        "list"@,
        Value::Func(Primitive::List),
    ).insert(
        "list?"@,
        Value::Func(Primitive::IsList),
    ).insert(
        "empty?"@,
        Value::Func(Primitive::IsEmpty),
    ).insert(
        "count"@,
        Value::Func(Primitive::Count),
    ).insert(
        "="@,
        Value::Func(Primitive::Eq),
    ).insert(
        "<"@,
        Value::Func(Primitive::Lt),
    ).insert(
        "<="@,
        Value::Func(Primitive::Le),
    ).insert(
        ">"@,
        Value::Func(Primitive::Gt),
    ).insert(
        ">="@,
        Value::Func(Primitive::Ge),
    ).insert(
        "pr-str"@,
        Value::Func(Primitive::PrStr),
    ).insert(
        "str"@,
        Value::Func(Primitive::Str),
    ).insert(
        "prn"@,
        Value::Func(Primitive::Prn),
    ).insert(
        "println"@,
        Value::Func(Primitive::Println),
    )
}

/// Binds `name` to the primitive `p` in the newest frame, which holds `symbols`.
fn define(
    store: &mut Store,
    env: Environment,
    name: &str,
    p: Primitive,
    Ghost(base): Ghost<StoreView>,
    Ghost(symbols): Ghost<Map<Seq<char>, Value>>,
)
    requires
        old(store).wf(),
        old(store)@ == base.push_frame(symbols, None),
        env@ == base.frames.len(),
    ensures
        final(store).wf(),
        final(store)@ == base.push_frame(symbols.insert(name@, Value::Func(p)), None),
{
    env.set(store, name, LispType::Func(p));
    assert(store@.frames =~= base.push_frame(symbols.insert(name@, Value::Func(p)), None).frames);
}

/// Makes the root frame, in which each primitive is bound to its name, and returns
/// its handle.
pub fn default_environment(store: &mut Store) -> (env: Environment)
    requires
        old(store).wf(),
    ensures
        final(store).wf(),
        env@ == old(store)@.frames.len(),
        final(store)@ == old(store)@.push_frame(default_bindings(), None),
        final(store)@.extends(old(store)@),
{
    let ghost base = store@;
    let ghost mut symbols = Map::<Seq<char>, Value>::empty();
    proof {
        lemma_extends_steps(base);
    }
    let env = Environment::new(store, None);
    define(store, env, "+", Primitive::Add, Ghost(base), Ghost(symbols));
    proof {
        symbols = symbols.insert("+"@, Value::Func(Primitive::Add));
    }
    define(store, env, "-", Primitive::Sub, Ghost(base), Ghost(symbols));
    proof {
        symbols = symbols.insert("-"@, Value::Func(Primitive::Sub));
    }
    define(store, env, "*", Primitive::Mul, Ghost(base), Ghost(symbols));
    proof {
        symbols = symbols.insert("*"@, Value::Func(Primitive::Mul));
    }
    define(store, env, "/", Primitive::Div, Ghost(base), Ghost(symbols));
    proof {
        symbols = symbols.insert("/"@, Value::Func(Primitive::Div));
    }
    define(store, env, "list", Primitive::List, Ghost(base), Ghost(symbols));
    proof {
        symbols = symbols.insert("list"@, Value::Func(Primitive::List));
    }
    define(store, env, "list?", Primitive::IsList, Ghost(base), Ghost(symbols));
    proof {
        symbols = symbols.insert("list?"@, Value::Func(Primitive::IsList));
    }
    define(store, env, "empty?", Primitive::IsEmpty, Ghost(base), Ghost(symbols));
    proof {
        symbols = symbols.insert("empty?"@, Value::Func(Primitive::IsEmpty));
    }
    define(store, env, "count", Primitive::Count, Ghost(base), Ghost(symbols));
    proof {
        symbols = symbols.insert("count"@, Value::Func(Primitive::Count));
    }
    define(store, env, "=", Primitive::Eq, Ghost(base), Ghost(symbols));
    proof {
        symbols = symbols.insert("="@, Value::Func(Primitive::Eq));
    }
    define(store, env, "<", Primitive::Lt, Ghost(base), Ghost(symbols));
    proof {
        symbols = symbols.insert("<"@, Value::Func(Primitive::Lt));
    }
    define(store, env, "<=", Primitive::Le, Ghost(base), Ghost(symbols));
    proof {
        symbols = symbols.insert("<="@, Value::Func(Primitive::Le));
    }
    define(store, env, ">", Primitive::Gt, Ghost(base), Ghost(symbols));
    proof {
        symbols = symbols.insert(">"@, Value::Func(Primitive::Gt));
    }
    define(store, env, ">=", Primitive::Ge, Ghost(base), Ghost(symbols));
    proof {
        symbols = symbols.insert(">="@, Value::Func(Primitive::Ge));
    }
    define(store, env, "pr-str", Primitive::PrStr, Ghost(base), Ghost(symbols));
    proof {
        symbols = symbols.insert("pr-str"@, Value::Func(Primitive::PrStr));
    }
    define(store, env, "str", Primitive::Str, Ghost(base), Ghost(symbols));
    proof {
        symbols = symbols.insert("str"@, Value::Func(Primitive::Str));
    }
    define(store, env, "prn", Primitive::Prn, Ghost(base), Ghost(symbols));
    proof {
        symbols = symbols.insert("prn"@, Value::Func(Primitive::Prn));
    }
    define(store, env, "println", Primitive::Println, Ghost(base), Ghost(symbols));
    proof {
        symbols = symbols.insert("println"@, Value::Func(Primitive::Println));
    }
    env
}

} // verus!
