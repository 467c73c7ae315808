//! Frames and the store that holds them: lookup along the chain of parents,
//! binding in one frame, and the frame of a call.

use crate::text::text_is;
use crate::types::{
    all_closed, fail, lemma_closed_under_grows, values_of, ErrorKind, Failure, LispError,
    LispResult, LispType, Value,
};
use vstd::prelude::*;

verus! {

/// A handle on one frame of a `Store`.
#[derive(Clone, Copy, Debug)]
pub struct Environment {
    id: usize,
}

impl Environment {
    /// The index of the frame.
    pub fn index(&self) -> (i: usize)
        ensures
            i == self@,
    {
        self.id
    }
}

impl View for Environment {
    type V = int;

    closed spec fn view(&self) -> int {
        self.id as int
    }
}

/// The model of an optional parent handle.
pub open spec fn outer_view(outer: Option<Environment>) -> Option<int> {
    match outer {
        Some(env) => Some(env@),
        None => None,
    }
}

/// One name bound in a frame.
struct Binding {
    name: String,
    value: LispType,
}

/// One scope: its own bindings, each name once, and the scope around it.
struct Frame {
    symbols: Vec<Binding>,
    outer: Option<Environment>,
}

/// All the frames that were ever made, each at the index that its handle holds,
/// and the lines that the printing primitives wrote.
pub struct Store {
    frames: Vec<Frame>,
    output: Vec<String>,
}

/// The model of a frame.
pub struct FrameView {
    pub symbols: Map<Seq<char>, Value>,
    pub outer: Option<int>,
}

/// The model of a store.
pub struct StoreView {
    pub frames: Seq<FrameView>,
    pub output: Seq<Seq<char>>,
}

impl FrameView {
    /// The frame at `index` of `n` frames: its parent was made before it, and its
    /// values capture frames that exist.
    pub open spec fn wf(self, index: int, n: int) -> bool {
        &&& self.outer matches Some(o) ==> 0 <= o < index
        &&& forall|name: Seq<char>| #[trigger]
            self.symbols.dom().contains(name) ==> self.symbols[name].closed_under(n)
    }
}

impl StoreView {
    /// The frames form a forest in which each parent stands before its children,
    /// and no value refers to a frame that is not there.
    pub open spec fn wf(self) -> bool {
        forall|i: int|
            0 <= i < self.frames.len() ==> (#[trigger] self.frames[i]).wf(
                i,
                self.frames.len() as int,
            )
    }

    /// Whether `env` is the handle of a frame of this store.
    pub open spec fn has(self, env: int) -> bool {
        0 <= env < self.frames.len()
    }

    /// The value that `name` has seen from frame `env`: the nearest binding on the way out.
    pub open spec fn lookup(self, env: int, name: Seq<char>) -> Option<Value>
        decreases env,
    {
        if 0 <= env < self.frames.len() {
            let frame = self.frames[env];
            if frame.symbols.dom().contains(name) {
                Some(frame.symbols[name])
            } else {
                match frame.outer {
                    Some(o) => if 0 <= o < env {
                        self.lookup(o, name)
                    } else {
                        None
                    },
                    None => None,
                }
            }
        } else {
            None
        }
    }

    /// The store after `name` was bound to `value` in frame `env`.
    pub open spec fn set(self, env: int, name: Seq<char>, value: Value) -> StoreView {
        StoreView {
            frames: self.frames.update(
                env,
                FrameView {
                    symbols: self.frames[env].symbols.insert(name, value),
                    outer: self.frames[env].outer,
                },
            ),
            output: self.output,
        }
    }

    /// The store with one more frame.
    pub open spec fn push_frame(
        self,
        symbols: Map<Seq<char>, Value>,
        outer: Option<int>,
    ) -> StoreView {
        StoreView { frames: self.frames.push(FrameView { symbols, outer }), output: self.output }
    }

    /// The store with one more line of output.
    pub open spec fn print(self, line: Seq<char>) -> StoreView {
        StoreView { frames: self.frames, output: self.output.push(line) }
    }

    /// What may have happened to `before` since: frames were added, names were bound
    /// or bound again, lines were written. No frame left, no name left a frame, and
    /// no frame changed its parent.
    pub open spec fn extends(self, before: StoreView) -> bool {
        &&& before.frames.len() <= self.frames.len()
        &&& forall|i: int|
            0 <= i < before.frames.len() ==> {
                &&& (#[trigger] self.frames[i]).outer == before.frames[i].outer
                &&& before.frames[i].symbols.dom().subset_of(self.frames[i].symbols.dom())
            }
        &&& before.output.len() <= self.output.len()
        &&& self.output.subrange(0, before.output.len() as int) == before.output
    }
}

/// A store extends itself.
pub proof fn lemma_extends_refl(st: StoreView)
    ensures
        st.extends(st),
{
    assert(st.output.subrange(0, st.output.len() as int) =~= st.output);
}

/// What extends an extension of a store extends that store.
pub proof fn lemma_extends_trans(a: StoreView, b: StoreView, c: StoreView)
    requires
        b.extends(a),
        c.extends(b),
    ensures
        c.extends(a),
{
    assert(c.output.subrange(0, a.output.len() as int) =~= b.output.subrange(0, a.output.len() as int));
    assert forall|i: int| 0 <= i < a.frames.len() implies {
        &&& (#[trigger] c.frames[i]).outer == a.frames[i].outer
        &&& a.frames[i].symbols.dom().subset_of(c.frames[i].symbols.dom())
    } by {
        assert(b.frames[i].outer == a.frames[i].outer);
    }
}

/// Binding a name, adding a frame and writing a line each extend the store.
pub proof fn lemma_extends_steps(st: StoreView)
    ensures
        forall|env: int, name: Seq<char>, value: Value|
            st.has(env) ==> (#[trigger] st.set(env, name, value)).extends(st),
        forall|symbols: Map<Seq<char>, Value>, outer: Option<int>|
            (#[trigger] st.push_frame(symbols, outer)).extends(st),
        forall|line: Seq<char>| (#[trigger] st.print(line)).extends(st),
{
    assert(st.output.subrange(0, st.output.len() as int) =~= st.output);
    assert forall|line: Seq<char>| (#[trigger] st.print(line)).extends(st) by {
        assert(st.print(line).output.subrange(0, st.output.len() as int) =~= st.output);
    }
}

/// The bindings that a parameter list and an argument list give rise to, from
/// position `i` on, on top of `acc`. The rest marker `&` binds the symbol after
/// it, which must be the last parameter, to the list of the arguments that are left.
pub open spec fn bind_from(
    params: Seq<Value>,
    args: Seq<Value>,
    i: int,
    acc: Map<Seq<char>, Value>,
) -> Result<Map<Seq<char>, Value>, Failure>
    decreases params.len() - i,
{
    if i < 0 {
        Err(Failure::InvalidBindingForm)
    } else if i >= params.len() {
        if i < args.len() {
            Err(Failure::ArityMismatch)
        } else {
            Ok(acc)
        }
    } else {
        match params[i] {
            Value::Symbol(name) => if name == "&"@ {
                if i + 2 == params.len() && params[i + 1] is Symbol {
                    let rest = if i <= args.len() {
                        args.subrange(i, args.len() as int)
                    } else {
                        Seq::empty()
                    };
                    Ok(acc.insert(params[i + 1]->Symbol_0, Value::List(rest)))
                } else {
                    Err(Failure::InvalidBindingForm)
                }
            } else if i < args.len() {
                bind_from(params, args, i + 1, acc.insert(name, args[i]))
            } else {
                Err(Failure::ArityMismatch)
            },
            _ => Err(Failure::InvalidBindingForm),
        }
    }
}

/// The bindings of a call: `params` bound to `args`.
pub open spec fn bind_spec(
    params: Seq<Value>,
    args: Seq<Value>,
) -> Result<Map<Seq<char>, Value>, Failure> {
    bind_from(params, args, 0, Map::empty())
}

/// All of `params` are symbols other than the rest marker, from position `from` on.
pub open spec fn plain_symbols(params: Seq<Value>, from: int) -> bool {
    forall|j: int|
        from <= j < params.len() ==> (#[trigger] params[j]) is Symbol && params[j]
            != Value::Symbol("&"@)
}

proof fn lemma_bind_from_keeps(
    params: Seq<Value>,
    args: Seq<Value>,
    k: int,
    acc: Map<Seq<char>, Value>,
    name: Seq<char>,
)
    requires
        0 <= k <= params.len(),
        params.len() == args.len(),
        plain_symbols(params, k),
        forall|j: int| k <= j < params.len() ==> params[j] != Value::Symbol(name),
        acc.dom().contains(name),
    ensures
        bind_from(params, args, k, acc) matches Ok(symbols) && symbols.dom().contains(name)
            && symbols[name] == acc[name],
    decreases params.len() - k,
{
    if k < params.len() {
        assert(params[k] is Symbol && params[k] != Value::Symbol("&"@));
        let bound = params[k]->Symbol_0;
        assert(params[k] == Value::Symbol(bound));
        lemma_bind_from_keeps(params, args, k + 1, acc.insert(bound, args[k]), name);
    }
}

proof fn lemma_bind_from_binds(
    params: Seq<Value>,
    args: Seq<Value>,
    k: int,
    acc: Map<Seq<char>, Value>,
    i: int,
)
    requires
        0 <= k <= i < params.len(),
        params.len() == args.len(),
        plain_symbols(params, k),
        forall|j: int| i < j < params.len() ==> params[j] != params[i],
    ensures
        bind_from(params, args, k, acc) matches Ok(symbols) && symbols.dom().contains(
            params[i]->Symbol_0,
        ) && symbols[params[i]->Symbol_0] == args[i],
    decreases i - k,
{
    assert(params[k] is Symbol && params[k] != Value::Symbol("&"@));
    let bound = params[k]->Symbol_0;
    assert(params[k] == Value::Symbol(bound));
    if k == i {
        lemma_bind_from_keeps(params, args, k + 1, acc.insert(bound, args[k]), bound);
    } else {
        lemma_bind_from_binds(params, args, k + 1, acc.insert(bound, args[k]), i);
    }
}

/// Binding as many arguments as there are parameters, all of them symbols other than
/// the rest marker, succeeds, and the frame it makes gives for each parameter the
/// argument at its position; for a parameter that occurs again further on, the later
/// argument wins.
pub proof fn lemma_bind_then_get(
    st: StoreView,
    outer: Option<int>,
    params: Seq<Value>,
    args: Seq<Value>,
    i: int,
)
    requires
        params.len() == args.len(),
        plain_symbols(params, 0),
        0 <= i < params.len(),
        forall|j: int| i < j < params.len() ==> params[j] != params[i],
    ensures
        bind_spec(params, args) matches Ok(symbols) && st.push_frame(symbols, outer).lookup(
            st.frames.len() as int,
            params[i]->Symbol_0,
        ) == Some(args[i]),
{
    lemma_bind_from_binds(params, args, 0, Map::empty(), i);
}

/// A name is found right after it was bound.
pub proof fn lemma_set_then_get(st: StoreView, env: int, name: Seq<char>, value: Value)
    requires
        st.has(env),
    ensures
        st.set(env, name, value).lookup(env, name) == Some(value),
{
}

/// Binding a name changes what no other name stands for, seen from any frame.
pub proof fn lemma_set_keeps_other_names(
    st: StoreView,
    env: int,
    name: Seq<char>,
    value: Value,
    from: int,
    other: Seq<char>,
)
    requires
        st.has(env),
        other != name,
    ensures
        st.set(env, name, value).lookup(from, other) == st.lookup(from, other),
    decreases from,
{
    if 0 <= from < st.frames.len() {
        match st.frames[from].outer {
            Some(o) => {
                if 0 <= o < from {
                    lemma_set_keeps_other_names(st, env, name, value, o, other);
                }
            },
            None => {},
        }
    }
}

/// Binding a name in a frame changes nothing for the frames that were made before
/// it, its ancestors among them: a frame can shadow what is outside it, never rebind it.
pub proof fn lemma_set_is_local(
    st: StoreView,
    env: int,
    name: Seq<char>,
    value: Value,
    from: int,
    other: Seq<char>,
)
    requires
        st.has(env),
        from < env,
    ensures
        st.set(env, name, value).lookup(from, other) == st.lookup(from, other),
    decreases from,
{
    if 0 <= from < st.frames.len() {
        match st.frames[from].outer {
            Some(o) => {
                if 0 <= o < from {
                    lemma_set_is_local(st, env, name, value, o, other);
                }
            },
            None => {},
        }
    }
}

/// A new frame changes nothing for the frames that were there.
pub proof fn lemma_push_frame_keeps_lookups(
    st: StoreView,
    symbols: Map<Seq<char>, Value>,
    outer: Option<int>,
    from: int,
    name: Seq<char>,
)
    requires
        st.has(from),
    ensures
        st.push_frame(symbols, outer).lookup(from, name) == st.lookup(from, name),
    decreases from,
{
    match st.frames[from].outer {
        Some(o) => {
            if 0 <= o < from {
                lemma_push_frame_keeps_lookups(st, symbols, outer, o, name);
            }
        },
        None => {},
    }
}

/// A frame without bindings and without a parent finds no name.
pub proof fn lemma_empty_root_finds_nothing(st: StoreView, name: Seq<char>)
    ensures
        st.push_frame(Map::empty(), None).lookup(st.frames.len() as int, name) is None,
{
}

/// A new frame inside `outer` finds what `outer` finds, as long as it binds nothing itself.
pub proof fn lemma_empty_child_sees_outer(st: StoreView, outer: int, name: Seq<char>)
    requires
        st.has(outer),
    ensures
        st.push_frame(Map::empty(), Some(outer)).lookup(st.frames.len() as int, name) == st.lookup(
            outer,
            name,
        ),
{
    lemma_push_frame_keeps_lookups(st, Map::empty(), Some(outer), outer, name);
}

/// The map that a sequence of bindings stands for.
spec fn bindings_map(s: Seq<Binding>) -> Map<Seq<char>, Value>
    decreases s.len(),
{
    if s.len() == 0 {
        Map::empty()
    } else {
        bindings_map(s.drop_last()).insert(s.last().name@, s.last().value@)
    }
}

/// No name occurs twice.
spec fn names_distinct(s: Seq<Binding>) -> bool {
    forall|i: int, j: int| 0 <= i < j < s.len() ==> s[i].name@ != s[j].name@
}

proof fn lemma_map_absent(s: Seq<Binding>, name: Seq<char>)
    requires
        forall|j: int| 0 <= j < s.len() ==> s[j].name@ != name,
    ensures
        !bindings_map(s).dom().contains(name),
    decreases s.len(),
{
    if s.len() > 0 {
        lemma_map_absent(s.drop_last(), name);
    }
}

proof fn lemma_map_present(s: Seq<Binding>, i: int)
    requires
        names_distinct(s),
        0 <= i < s.len(),
    ensures
        bindings_map(s).dom().contains(s[i].name@),
        bindings_map(s)[s[i].name@] == s[i].value@,
    decreases s.len(),
{
    if i < s.len() - 1 {
        lemma_map_present(s.drop_last(), i);
    }
}

proof fn lemma_map_update(s: Seq<Binding>, i: int, b: Binding)
    requires
        names_distinct(s),
        0 <= i < s.len(),
        s[i].name@ == b.name@,
    ensures
        names_distinct(s.update(i, b)),
        bindings_map(s.update(i, b)) == bindings_map(s).insert(b.name@, b.value@),
    decreases s.len(),
{
    let t = s.update(i, b);
    if i == s.len() - 1 {
        assert(t.drop_last() =~= s.drop_last());
        assert(bindings_map(t) =~= bindings_map(s).insert(b.name@, b.value@));
    } else {
        lemma_map_update(s.drop_last(), i, b);
        assert(t.drop_last() =~= s.drop_last().update(i, b));
        assert(t.last() == s.last());
        assert(s.last().name@ != b.name@);
        assert(bindings_map(t) =~= bindings_map(s).insert(b.name@, b.value@));
    }
}

proof fn lemma_map_push(s: Seq<Binding>, b: Binding)
    ensures
        bindings_map(s.push(b)) == bindings_map(s).insert(b.name@, b.value@),
{
    assert(s.push(b).drop_last() =~= s);
}

impl Frame {
    spec fn view(&self) -> FrameView {
        FrameView { symbols: bindings_map(self.symbols@), outer: outer_view(self.outer) }
    }

    /// Each name is bound once.
    spec fn repr_ok(&self) -> bool {
        names_distinct(self.symbols@)
    }

    fn empty(outer: Option<Environment>) -> (frame: Frame)
        ensures
            frame.repr_ok(),
            frame@ == (FrameView { symbols: Map::empty(), outer: outer_view(outer) }),
    {
        Frame { symbols: Vec::new(), outer }
    }

    /// The position of `name` among the bindings.
    fn find(&self, name: &String) -> (r: Option<usize>)
        ensures
            match r {
                Some(i) => i < self.symbols.len() && self.symbols[i as int].name@ == name@,
                None => forall|j: int| 0 <= j < self.symbols.len() ==> self.symbols[j].name@ != name@,
            },
    {
        let mut i: usize = 0;
        while i < self.symbols.len()
            invariant
                i <= self.symbols.len(),
                forall|j: int| 0 <= j < i ==> self.symbols[j].name@ != name@,
            decreases self.symbols.len() - i,
        {
            if self.symbols[i].name == *name {
                return Some(i);
            }
            i += 1;
        }
        None
    }

    /// Binds `name` to `value`, in place of what it was bound to.
    fn set(&mut self, name: String, value: LispType)
        requires
            old(self).repr_ok(),
        ensures
            final(self).repr_ok(),
            final(self)@.symbols == old(self)@.symbols.insert(name@, value@),
            final(self)@.outer == old(self)@.outer,
    {
        let found = self.find(&name);
        let binding = Binding { name, value };
        match found {
            Some(i) => {
                proof {
                    lemma_map_update(self.symbols@, i as int, binding);
                }
                self.symbols[i] = binding;
            },
            None => {
                proof {
                    lemma_map_push(self.symbols@, binding);
                }
                self.symbols.push(binding);
            },
        }
    }

    /// The value that `name` is bound to in this frame.
    fn get(&self, name: &String) -> (r: Option<LispType>)
        requires
            self.repr_ok(),
        ensures
            match r {
                Some(v) => self@.symbols.dom().contains(name@) && self@.symbols[name@] == v@,
                None => !self@.symbols.dom().contains(name@),
            },
    {
        match self.find(name) {
            Some(i) => {
                proof {
                    lemma_map_present(self.symbols@, i as int);
                }
                Some(self.symbols[i].value.clone())
            },
            None => {
                proof {
                    lemma_map_absent(self.symbols@, name@);
                }
                None
            },
        }
    }
}

impl Store {
    /// The frames' models, in order.
    spec fn frame_views(frames: Seq<Frame>) -> Seq<FrameView> {
        Seq::new(frames.len(), |i: int| frames[i]@)
    }

    /// The frames' models and the lines of output.
    pub closed spec fn view(&self) -> StoreView {
        StoreView { frames: Self::frame_views(self.frames@), output: self.output.deep_view() }
    }

    /// Each frame binds each name once.
    pub closed spec fn repr_ok(&self) -> bool {
        forall|i: int| 0 <= i < self.frames.len() ==> (#[trigger] self.frames[i]).repr_ok()
    }

    /// The store's invariant.
    pub open spec fn wf(&self) -> bool {
        &&& self.repr_ok()
        &&& self@.wf()
    }

    /// A store without frames and without output.
    pub fn new() -> (store: Store)
        ensures
            store.wf(),
            store@.frames.len() == 0,
            store@.output.len() == 0,
    {
        let store = Store { frames: Vec::new(), output: Vec::new() };
        assert(store@.frames =~= Seq::empty());
        assert(store@.output =~= Seq::empty());
        store
    }

    /// The number of frames.
    pub fn len(&self) -> (n: usize)
        ensures
            n == self@.frames.len(),
    {
        self.frames.len()
    }

    /// Whether `env` is the handle of a frame of this store.
    pub fn contains(&self, env: Environment) -> (r: bool)
        ensures
            r == self@.has(env@),
    {
        env.id < self.frames.len()
    }

    /// Whether `value` refers to frames of this store only, so that it can be bound
    /// and evaluated in it.
    pub fn admits(&self, value: &LispType) -> (r: bool)
        ensures
            r == value@.closed_under(self@.frames.len() as int),
    {
        value.is_closed_under(self.frames.len())
    }

    /// Adds a line to the output.
    pub fn print(&mut self, line: String)
        requires
            old(self).wf(),
        ensures
            final(self).wf(),
            final(self)@ == old(self)@.print(line@),
            final(self)@.extends(old(self)@),
    {
        proof {
            lemma_extends_steps(old(self)@);
        }
        self.output.push(line);
        assert(self.output.deep_view() =~= old(self).output.deep_view().push(line@));
        assert(self@.frames == old(self)@.frames);
    }

    /// Hands out the lines that were written since the last call, oldest first.
    pub fn take_output(&mut self) -> (lines: Vec<String>)
        requires
            old(self).wf(),
        ensures
            final(self).wf(),
            lines.deep_view() == old(self)@.output,
            final(self)@ == (StoreView { frames: old(self)@.frames, output: Seq::empty() }),
    {
        let mut lines: Vec<String> = Vec::new();
        std::mem::swap(&mut self.output, &mut lines);
        assert(self.output.deep_view() =~= Seq::empty());
        lines
    }

    fn push_frame(&mut self, frame: Frame) -> (env: Environment)
        requires
            old(self).wf(),
            frame.repr_ok(),
            frame@.wf(old(self)@.frames.len() as int, old(self)@.frames.len() as int),
        ensures
            final(self).wf(),
            env@ == old(self)@.frames.len(),
            final(self)@ == old(self)@.push_frame(frame@.symbols, frame@.outer),
    {
        let id = self.frames.len();
        self.frames.push(frame);
        proof {
            let n = old(self)@.frames.len() as int;
            assert(self@.frames =~= old(self)@.frames.push(frame@));
            assert forall|i: int| 0 <= i < self@.frames.len() implies (#[trigger] self@.frames[i]).wf(
                i,
                self@.frames.len() as int,
            ) by {
                let f = self@.frames[i];
                if i < n {
                    assert(old(self)@.frames[i].wf(i, n));
                }
                assert forall|name: Seq<char>| #[trigger]
                    f.symbols.dom().contains(name) implies f.symbols[name].closed_under(n + 1) by {
                    lemma_closed_under_grows(f.symbols[name], n, n + 1);
                }
            }
        }
        Environment { id }
    }
}

impl Environment {
    /// Makes an empty frame inside `outer`, or a root frame, and returns its handle.
    pub fn new(store: &mut Store, outer: Option<Environment>) -> (env: Environment)
        requires
            old(store).wf(),
            outer matches Some(o) ==> old(store)@.has(o@),
        ensures
            final(store).wf(),
            env@ == old(store)@.frames.len(),
            final(store)@ == old(store)@.push_frame(Map::empty(), outer_view(outer)),
            final(store)@.extends(old(store)@),
    {
        proof {
            lemma_extends_steps(old(store)@);
        }
        store.push_frame(Frame::empty(outer))
    }

    /// Binds `symbol` to `value` in this frame alone, in place of what it was bound to there.
    pub fn set(&self, store: &mut Store, symbol: &str, value: LispType)
        requires
            old(store).wf(),
            old(store)@.has(self@),
            value@.closed_under(old(store)@.frames.len() as int),
        ensures
            final(store).wf(),
            final(store)@ == old(store)@.set(self@, symbol@, value@),
            final(store)@.extends(old(store)@),
    {
        let ghost n = store@.frames.len() as int;
        let ghost before = store@;
        proof {
            lemma_extends_steps(before);
        }
        assert(store.frames[self.id as int].repr_ok());
        assert(before.frames[self.id as int].wf(self.id as int, n));
        store.frames[self.id].set(symbol.to_owned(), value);
        proof {
            let after = store@;
            assert(after.frames =~= before.set(self@, symbol@, value@).frames);
            assert forall|i: int| 0 <= i < store.frames.len() implies (#[trigger] store.frames[i])
                .repr_ok() by {
                if i != self.id {
                    assert(old(store).frames[i].repr_ok());
                }
            }
            assert forall|i: int| 0 <= i < n implies (#[trigger] after.frames[i]).wf(i, n) by {
                assert(before.frames[i].wf(i, n));
            }
        }
    }

    /// Looks `symbol` up in this frame, then in the frames around it, nearest first.
    pub fn get(&self, store: &Store, symbol: &str) -> (r: LispResult)
        requires
            store.wf(),
            store@.has(self@),
        ensures
            match store@.lookup(self@, symbol@) {
                Some(v) => r matches Ok(x) && x@ == v,
                None => r matches Err(e) && e@ == Failure::UnboundSymbol(symbol@),
            },
            r matches Ok(x) ==> x@.closed_under(store@.frames.len() as int),
    {
        let name = symbol.to_owned();
        let mut id: usize = self.id;
        loop
            invariant
                store.wf(),
                id < store.frames.len(),
                name@ == symbol@,
                store@.lookup(id as int, symbol@) == store@.lookup(self@, symbol@),
            decreases id,
        {
            assert(store.frames[id as int].repr_ok());
            assert(store@.frames[id as int].wf(id as int, store@.frames.len() as int));
            match store.frames[id].get(&name) {
                Some(value) => {
                    return Ok(value);
                },
                None => match store.frames[id].outer {
                    Some(outer) => {
                        id = outer.id;
                    },
                    None => {
                        return fail(ErrorKind::UnboundSymbol(name));
                    },
                },
            }
        }
    }

    /// Makes a frame inside `outer` that binds `binds` to `exprs`, one by one. The marker
    /// `&` binds the one symbol after it to the list of the arguments that are left.
    pub fn with_bindings(
        store: &mut Store,
        outer: Option<Environment>,
        binds: Vec<LispType>,
        exprs: Vec<LispType>,
    ) -> (r: Result<Environment, LispError>)
        requires
            old(store).wf(),
            outer matches Some(o) ==> old(store)@.has(o@),
            all_closed(values_of(exprs), old(store)@.frames.len() as int),
        ensures
            final(store).wf(),
            match bind_spec(values_of(binds), values_of(exprs)) {
                Ok(symbols) => {
                    &&& r matches Ok(env)
                    &&& env@ == old(store)@.frames.len()
                    &&& final(store)@ == old(store)@.push_frame(symbols, outer_view(outer))
                },
                Err(failure) => {
                    &&& r matches Err(e)
                    &&& e@ == failure
                    &&& final(store)@ == old(store)@
                },
            },
            final(store)@.extends(old(store)@),
    {
        let ghost params = values_of(binds);
        let ghost args = values_of(exprs);
        let ghost n = store@.frames.len() as int;
        proof {
            lemma_extends_steps(store@);
            lemma_extends_refl(store@);
        }
        let mut frame = Frame::empty(outer);
        let mut i: usize = 0;
        while i < binds.len()
            invariant
                *store == *old(store),
                store.wf(),
                n == store@.frames.len(),
                outer matches Some(o) ==> store@.has(o@),
                forall|symbols: Map<Seq<char>, Value>, o: Option<int>|
                    (#[trigger] store@.push_frame(symbols, o)).extends(store@),
                store@.extends(store@),
                i <= binds.len(),
                i <= exprs.len(),
                params == values_of(binds),
                args == values_of(exprs),
                all_closed(args, n),
                frame.repr_ok(),
                frame@.outer == outer_view(outer),
                forall|name: Seq<char>| #[trigger]
                    frame@.symbols.dom().contains(name) ==> frame@.symbols[name].closed_under(n),
                bind_from(params, args, i as int, frame@.symbols) == bind_spec(params, args),
            decreases binds.len() - i,
        {
            assert(params[i as int] == binds[i as int]@);
            match &binds[i] {
                LispType::Symbol(sym) => {
                    if text_is(sym, "&") {
                        if binds.len() - i == 2 {
                            assert(params[i + 1] == binds[i + 1]@);
                            match &binds[i + 1] {
                                LispType::Symbol(more) => {
                                    let rest = clone_from(&exprs, i);
                                    assert(all_closed(values_of(rest), n));
                                    frame.set(more.clone(), LispType::List(rest));
                                    return Ok(store.push_frame(frame));
                                },
                                _ => {
                                    return fail(ErrorKind::InvalidBindingForm);
                                },
                            }
                        } else {
                            return fail(ErrorKind::InvalidBindingForm);
                        }
                    } else if i < exprs.len() {
                        assert(args[i as int] == exprs[i as int]@);
                        frame.set(sym.clone(), exprs[i].clone());
                        i += 1;
                    } else {
                        return fail(ErrorKind::ArityMismatch);
                    }
                },
                _ => {
                    return fail(ErrorKind::InvalidBindingForm);
                },
            }
        }
        if i < exprs.len() {
            return fail(ErrorKind::ArityMismatch);
        }
        Ok(store.push_frame(frame))
    }
}

/// Copies of the elements of `xs` from position `from` on.
fn clone_from(xs: &Vec<LispType>, from: usize) -> (out: Vec<LispType>)
    requires
        from <= xs.len(),
    ensures
        values_of(out) == values_of(*xs).subrange(from as int, xs.len() as int),
{
    let mut out: Vec<LispType> = Vec::new();
    let mut i: usize = from;
    while i < xs.len()
        invariant
            from <= i <= xs.len(),
            out.len() == i - from,
            forall|j: int| 0 <= j < out.len() ==> out[j]@ == xs[from + j]@,
        decreases xs.len() - i,
    {
        out.push(xs[i].clone());
        i += 1;
    }
    assert(values_of(out) =~= values_of(*xs).subrange(from as int, xs.len() as int));
    out
}

} // verus!
