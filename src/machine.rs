use std::ops::Range;
use vstd::prelude::*;

use crate::term::{lemma_terms_view, names_view, show_term, term_text, terms_view, Term, TermV};

verus! {

/// One instruction of a compiled body or of the evaluation stack.
#[derive(Debug, Clone, Copy, PartialEq, Eq, Structural)]
pub enum Op {
    /// Applies the value below to the value above it.
    App,
    /// A reference to the procedure with this index.
    Def(usize),
    /// A reference to the parameter of the running procedure with this index.
    Arg(usize),
}

pub type Stack = Vec<Op>;

/// A compiled definition: its arity and its body, reversed so that the
/// instruction to run first is the last one.
#[derive(Debug, Clone)]
pub struct Procedure {
    pub arity: usize,
    pub body: Stack,
}

/// The program image together with the evaluation stack and scratch buffers.
#[derive(Debug, Clone)]
pub struct State {
    pub names: Vec<String>,
    pub procs: Vec<Procedure>,
    pub stack: Stack,
    pub args: Stack,
    pub arg_ranges: Vec<Range<usize>>,
}

/// What an instruction adds to the number of values that are available.
pub open spec fn delta(op: Op) -> int {
    match op {
        Op::App => -1,
        _ => 1,
    }
}

/// The balance of a run of instructions: one for each value, minus one for
/// each application.
pub open spec fn bal(s: Seq<Op>) -> int
    decreases s.len(),
{
    if s.len() == 0 {
        0
    } else {
        delta(s[0]) + bal(s.drop_first())
    }
}

/// The largest `q' <= q` at which the balance of `s[q'..]` is at most zero.
pub open spec fn split_from(s: Seq<Op>, q: int) -> Option<int>
    decreases q + 1,
{
    if q < 0 {
        None
    } else if bal(s.subrange(q, s.len() as int)) <= 0 {
        Some(q)
    } else {
        split_from(s, q - 1)
    }
}

/// Where the right-most complete term of `s` starts, less one: the position of
/// the application that joins it to what stands below it.
pub open spec fn split_point(s: Seq<Op>) -> Option<int> {
    split_from(s, s.len() - 1)
}

/// A run that denotes exactly one term: scanned from its right end, the
/// balance stays positive and is one at its left boundary.
pub open spec fn complete(s: Seq<Op>) -> bool {
    &&& bal(s) == 1
    &&& forall|q: int| 0 < q < s.len() ==> bal(#[trigger] s.subrange(q, s.len() as int)) > 0
}

/// Removes `n` arguments from the top of `s`: the rest of the stack, and the
/// arguments in the order in which they were taken.
pub open spec fn take_args(s: Seq<Op>, n: nat) -> Option<(Seq<Op>, Seq<Seq<Op>>)>
    decreases n,
{
    if n == 0 {
        Some((s, Seq::empty()))
    } else {
        match split_point(s) {
            None => None,
            Some(q) => match take_args(s.take(q), (n - 1) as nat) {
                None => None,
                Some((rest, args)) => Some((rest, seq![s.subrange(q + 1, s.len() as int)] + args)),
            },
        }
    }
}

proof fn lemma_bal_front(s: Seq<Op>, q: int)
    requires
        0 <= q < s.len(),
    ensures
        bal(s.subrange(q, s.len() as int)) == delta(s[q]) + bal(s.subrange(q + 1, s.len() as int)),
{
    let t = s.subrange(q, s.len() as int);
    assert(t.drop_first() =~= s.subrange(q + 1, s.len() as int));
}

/// Finds where the right-most complete term of `stack[..end]` starts, less
/// one; `None` when no complete term ends there.
fn get_arg(stack: &Stack, end: usize) -> (r: Option<usize>)
    requires
        end <= stack@.len(),
    ensures
        r matches Some(q) ==> q < end,
        split_point(stack@.take(end as int)) == match r {
            Some(q) => Some(q as int),
            None => None::<int>,
        },
{
    let ghost t = stack@.take(end as int);
    let mut balance: usize = 0;
    let mut q: usize = end;
    while q > 0
        invariant
            q <= end <= stack@.len(),
            t == stack@.take(end as int),
            balance as int == bal(t.subrange(q as int, end as int)),
            balance <= end - q,
            q < end ==> balance > 0,
            split_point(t) == split_from(t, q - 1),
        decreases q,
    {
        q = q - 1;
        proof {
            lemma_bal_front(t, q as int);
        }
        match stack[q] {
            Op::App => {
                if balance <= 1 {
                    return Some(q);
                }
                balance = balance - 1;
            },
            _ => {
                balance = balance + 1;
            },
        }
    }
    None
}


/// Whether an instruction may stand on the evaluation stack of a program with
/// `n` procedures: an application or a reference to one of them.
pub open spec fn op_closed(op: Op, n: nat) -> bool {
    match op {
        Op::App => true,
        Op::Def(i) => i < n,
        Op::Arg(_) => false,
    }
}

/// Whether an instruction may stand in the body of a procedure of the given
/// arity, in a program with `n` procedures.
pub open spec fn op_in_body(op: Op, n: nat, arity: nat) -> bool {
    match op {
        Op::App => true,
        Op::Def(i) => i < n,
        Op::Arg(k) => k < arity,
    }
}

/// A run of instructions that holds no parameter reference and only refers to
/// procedures that exist.
pub open spec fn closed(s: Seq<Op>, n: nat) -> bool {
    forall|i: int| 0 <= i < s.len() ==> op_closed(#[trigger] s[i], n)
}

impl Procedure {
    /// Every reference in the body is in range.
    pub open spec fn wf(&self, n: nat) -> bool {
        forall|i: int| 0 <= i < self.body@.len() ==> op_in_body(#[trigger] self.body@[i], n, self.arity as nat)
    }
}

impl State {
    /// The program image is consistent and the stack satisfies the closure
    /// invariant.
    pub open spec fn wf(&self) -> bool {
        &&& self.names@.len() == self.procs@.len()
        &&& forall|i: int| 0 <= i < self.procs@.len() ==> (#[trigger] self.procs@[i]).wf(self.procs@.len())
        &&& closed(self.stack@, self.procs@.len())
    }
}

/// What a body instruction becomes once the arguments are known.
pub open spec fn piece(op: Op, args: Seq<Seq<Op>>) -> Seq<Op> {
    match op {
        Op::Arg(k) => if k < args.len() {
            args[k as int]
        } else {
            Seq::empty()
        },
        _ => seq![op],
    }
}

/// The body with each parameter reference replaced by a copy of its argument.
pub open spec fn subst(body: Seq<Op>, args: Seq<Seq<Op>>) -> Seq<Op>
    decreases body.len(),
{
    if body.len() == 0 {
        Seq::empty()
    } else {
        subst(body.drop_last(), args) + piece(body.last(), args)
    }
}

/// One reduction step: `Some` of the new stack when the top is a call whose
/// arguments are all on the stack, `None` when no step applies.
pub open spec fn step_spec(procs: Seq<Procedure>, s: Seq<Op>) -> Option<Seq<Op>> {
    if s.len() == 0 {
        None
    } else {
        match s.last() {
            Op::Def(i) => if i < procs.len() {
                match take_args(s.drop_last(), procs[i as int].arity as nat) {
                    Some((rest, args)) => Some(rest + subst(procs[i as int].body@, args)),
                    None => None,
                }
            } else {
                None
            },
            _ => None,
        }
    }
}

/// The stack after a step that made no progress: an exposed instruction
/// other than a call is dropped, anything else stays.
pub open spec fn halted(s: Seq<Op>) -> Seq<Op> {
    if s.len() > 0 && !(s.last() is Def) {
        s.drop_last()
    } else {
        s
    }
}

/// Prefixes already found arguments to the result of taking more.
pub open spec fn prepend(
    found: Seq<Seq<Op>>,
    r: Option<(Seq<Op>, Seq<Seq<Op>>)>,
) -> Option<(Seq<Op>, Seq<Seq<Op>>)> {
    match r {
        None => None,
        Some((rest, args)) => Some((rest, found + args)),
    }
}

proof fn lemma_take_args_closed(s: Seq<Op>, n: nat, np: nat)
    requires
        closed(s, np),
    ensures
        take_args(s, n) matches Some((rest, args)) ==> {
            &&& closed(rest, np)
            &&& args.len() == n
            &&& forall|k: int| 0 <= k < args.len() ==> closed(#[trigger] args[k], np)
        },
    decreases n,
{
    if n > 0 {
        if let Some(q) = split_point(s) {
            lemma_split_from_range(s, s.len() - 1);
            lemma_take_args_closed(s.take(q), (n - 1) as nat, np);
            if let Some((rest, args)) = take_args(s.take(q), (n - 1) as nat) {
                let a = s.subrange(q + 1, s.len() as int);
                let all = seq![a] + args;
                assert forall|k: int| 0 <= k < all.len() implies closed(#[trigger] all[k], np) by {
                    if k > 0 {
                        assert(all[k] == args[k - 1]);
                    }
                }
            }
        }
    }
}

proof fn lemma_split_from_range(s: Seq<Op>, q: int)
    ensures
        split_from(s, q) matches Some(p) ==> 0 <= p <= q,
    decreases q + 1,
{
    if q >= 0 {
        lemma_split_from_range(s, q - 1);
    }
}

/// Appends `src[a..b]` to `dst`.
fn copy_range(dst: &mut Stack, src: &Stack, a: usize, b: usize)
    requires
        a <= b <= src@.len(),
    ensures
        final(dst)@ == old(dst)@ + src@.subrange(a as int, b as int),
{
    let mut i: usize = a;
    while i < b
        invariant
            a <= i <= b <= src@.len(),
            dst@ == old(dst)@ + src@.subrange(a as int, i as int),
        decreases b - i,
    {
        dst.push(src[i]);
        i = i + 1;
        assert(dst@ =~= old(dst)@ + src@.subrange(a as int, i as int));
    }
}


/// Performs one reduction step. `Some(())` when the call on top of the stack
/// was replaced by its body with the arguments substituted; `None` when no
/// step applies, in which case an exposed application is dropped and
/// otherwise nothing changes.
pub fn eval_step(state: &mut State) -> (r: Option<()>)
    requires
        old(state).wf(),
    ensures
        final(state).wf(),
        final(state).names == old(state).names,
        final(state).procs == old(state).procs,
        r is Some <==> step_spec(old(state).procs@, old(state).stack@) is Some,
        r is Some ==> step_spec(old(state).procs@, old(state).stack@) == Some(final(state).stack@),
        r is None ==> final(state).stack@ == halted(old(state).stack@),
        r is None && halted(old(state).stack@) == old(state).stack@ ==> *final(state) == *old(state),
{
    let n = state.stack.len();
    if n == 0 {
        return None;
    }
    let i = match state.stack[n - 1] {
        Op::Def(i) => i,
        _ => {
            state.stack.pop();
            return None;
        },
    };
    assert(op_closed(state.stack@[n - 1], state.procs@.len()));
    let arity = state.procs[i].arity;
    let ghost s0 = state.stack@.drop_last();
    let ghost found: Seq<Seq<Op>> = Seq::empty();
    let mut spans: Vec<(usize, usize)> = Vec::new();
    let mut end: usize = n - 1;
    let mut j: usize = 0;
    proof {
        assert(s0.take(end as int) =~= s0);
        if let Some((rest, args)) = take_args(s0, arity as nat) {
            assert(found + args =~= args);
        }
    }
    while j < arity
        invariant
            *state == *old(state),
            old(state).wf(),
            n == state.stack@.len(),
            n > 0,
            state.stack@.last() == Op::Def(i),
            i < state.procs@.len(),
            arity == state.procs@[i as int].arity,
            s0 == state.stack@.drop_last(),
            j <= arity,
            end < n,
            spans@.len() == j,
            found.len() == j,
            forall|k: int|
                0 <= k < j ==> {
                    &&& (#[trigger] spans@[k]).0 <= spans@[k].1 <= n - 1
                    &&& found[k] == state.stack@.subrange(spans@[k].0 as int, spans@[k].1 as int)
                },
            take_args(s0, arity as nat) == prepend(found, take_args(s0.take(end as int), (arity - j) as nat)),
        decreases arity - j,
    {
        let ghost t = s0.take(end as int);
        assert(state.stack@.take(end as int) =~= t);
        match get_arg(&state.stack, end) {
            None => {
                return None;
            },
            Some(q) => {
                proof {
                    let a = t.subrange(q + 1, end as int);
                    assert(t.take(q as int) =~= s0.take(q as int));
                    assert(a =~= state.stack@.subrange(q + 1, end as int));
                    let inner = take_args(s0.take(q as int), (arity - j - 1) as nat);
                    if let Some((rest, args)) = inner {
                        assert(found + (seq![a] + args) =~= found.push(a) + args);
                    }
                    found = found.push(a);
                }
                spans.push((q + 1, end));
                end = q;
            },
        }
        j = j + 1;
    }
    let ghost rest = s0.take(end as int);
    assert(take_args(rest, 0) == Some((rest, Seq::<Seq<Op>>::empty())));
    assert(found + Seq::<Seq<Op>>::empty() =~= found);
    state.args.clear();
    state.arg_ranges.clear();
    let mut k: usize = 0;
    while k < spans.len()
        invariant
            state.names == old(state).names,
            state.procs == old(state).procs,
            state.stack == old(state).stack,
            n == state.stack@.len(),
            spans@.len() == arity,
            found.len() == arity,
            k <= arity,
            state.arg_ranges@.len() == k,
            forall|m: int|
                0 <= m < arity ==> {
                    &&& (#[trigger] spans@[m]).0 <= spans@[m].1 <= n - 1
                    &&& found[m] == state.stack@.subrange(spans@[m].0 as int, spans@[m].1 as int)
                },
            forall|m: int|
                0 <= m < k ==> {
                    &&& (#[trigger] state.arg_ranges@[m]).start <= state.arg_ranges@[m].end <= state.args@.len()
                    &&& state.args@.subrange(state.arg_ranges@[m].start as int, state.arg_ranges@[m].end as int) == found[m]
                },
        decreases arity - k,
    {
        let (a, b) = spans[k];
        let start = state.args.len();
        let ghost before = state.args@;
        copy_range(&mut state.args, &state.stack, a, b);
        let stop = state.args.len();
        state.arg_ranges.push(start..stop);
        proof {
            assert forall|m: int|
                0 <= m < k + 1 implies {
                    &&& (#[trigger] state.arg_ranges@[m]).start <= state.arg_ranges@[m].end <= state.args@.len()
                    &&& state.args@.subrange(state.arg_ranges@[m].start as int, state.arg_ranges@[m].end as int) == found[m]
                } by {
                let r = state.arg_ranges@[m];
                if m < k {
                    assert(state.args@.subrange(r.start as int, r.end as int) =~= before.subrange(r.start as int, r.end as int));
                } else {
                    assert(state.args@.subrange(r.start as int, r.end as int) =~= state.stack@.subrange(a as int, b as int));
                }
            }
        }
        k = k + 1;
    }
    state.stack.truncate(end);
    assert(state.stack@ =~= rest);
    proof {
        lemma_take_args_closed(s0, arity as nat, state.procs@.len());
    }
    let ghost body = state.procs@[i as int].body@;
    let mut b: usize = 0;
    while b < state.procs[i].body.len()
        invariant
            state.names == old(state).names,
            state.procs == old(state).procs,
            i < state.procs@.len(),
            body == state.procs@[i as int].body@,
            state.procs@[i as int].wf(state.procs@.len()),
            arity == state.procs@[i as int].arity,
            found.len() == arity,
            b <= body.len(),
            state.arg_ranges@.len() == arity,
            forall|m: int|
                0 <= m < arity ==> {
                    &&& (#[trigger] state.arg_ranges@[m]).start <= state.arg_ranges@[m].end <= state.args@.len()
                    &&& state.args@.subrange(state.arg_ranges@[m].start as int, state.arg_ranges@[m].end as int) == found[m]
                },
            forall|m: int| 0 <= m < arity ==> closed(#[trigger] found[m], state.procs@.len()),
            closed(rest, state.procs@.len()),
            state.stack@ == rest + subst(body.take(b as int), found),
            closed(state.stack@, state.procs@.len()),
        decreases body.len() - b,
    {
        let op = state.procs[i].body[b];
        assert(body.take(b + 1).drop_last() =~= body.take(b as int));
        assert(op_in_body(body[b as int], state.procs@.len(), arity as nat));
        let ghost before = state.stack@;
        match op {
            Op::Arg(m) => {
                let lo = state.arg_ranges[m].start;
                let hi = state.arg_ranges[m].end;
                copy_range(&mut state.stack, &state.args, lo, hi);
                assert(state.stack@ =~= before + found[m as int]);
            },
            _ => {
                state.stack.push(op);
                assert(state.stack@ =~= before + seq![op]);
            },
        }
        proof {
            assert forall|x: int| 0 <= x < state.stack@.len() implies op_closed(#[trigger] state.stack@[x], state.procs@.len()) by {
                if x >= before.len() {
                    if let Op::Arg(m) = op {
                        assert(state.stack@[x] == found[m as int][x - before.len()]);
                    }
                }
            }
        }
        b = b + 1;
    }
    assert(body.take(body.len() as int) =~= body);
    Some(())
}


/// The stack after at most `fuel` reduction steps, or after the first step
/// that made no progress.
pub open spec fn run_spec(procs: Seq<Procedure>, s: Seq<Op>, fuel: nat) -> Seq<Op>
    decreases fuel,
{
    if fuel == 0 {
        s
    } else {
        match step_spec(procs, s) {
            None => halted(s),
            Some(t) => run_spec(procs, t, (fuel - 1) as nat),
        }
    }
}

/// The largest number of steps that `eval` takes.
pub const MAX_STEPS: u64 = 0xffff_ffff_ffff_ffff;

/// Reduces until a step makes no progress, or until `MAX_STEPS` steps have
/// been taken.
pub fn eval(state: State) -> (r: State)
    requires
        state.wf(),
    ensures
        r.wf(),
        r.names == state.names,
        r.procs == state.procs,
        r.stack@ == run_spec(state.procs@, state.stack@, MAX_STEPS as nat),
{
    let mut st = state;
    let ghost s0 = st.stack@;
    let ghost procs = st.procs@;
    let mut count: u64 = 0;
    while count < MAX_STEPS
        invariant
            st.wf(),
            st.procs@ == procs,
            procs == state.procs@,
            s0 == state.stack@,
            st.names == state.names,
            st.procs == state.procs,
            run_spec(procs, s0, MAX_STEPS as nat) == run_spec(procs, st.stack@, (MAX_STEPS - count) as nat),
        decreases MAX_STEPS - count,
    {
        let ghost before = st.stack@;
        match eval_step(&mut st) {
            None => {
                assert(run_spec(procs, before, (MAX_STEPS - count) as nat) == halted(before));
                return st;
            },
            Some(()) => {},
        }
        count = count + 1;
    }
    st
}


/// A step that made no progress on a stack whose top is a call, or on an
/// empty stack, changes nothing: taking the step again makes no progress
/// either and leaves the stack as it is.
pub proof fn lemma_normal_form_is_stable(procs: Seq<Procedure>, s: Seq<Op>)
    requires
        step_spec(procs, s) is None,
        s.len() == 0 || s.last() is Def,
    ensures
        halted(s) == s,
        step_spec(procs, halted(s)) is None,
        halted(halted(s)) == halted(s),
{
}

proof fn lemma_split_complete(a: Seq<Op>, q: int)
    requires
        complete(a),
        0 <= q <= a.len(),
    ensures
        split_from(seq![Op::App] + a, q) == Some(0int),
    decreases q,
{
    let s = seq![Op::App] + a;
    let n = s.len() as int;
    if q == 0 {
        lemma_bal_front(s, 0);
        assert(s.subrange(1, n) =~= a);
    } else {
        assert(s.subrange(q, n) =~= a.subrange(q - 1, a.len() as int));
        if q == 1 {
            assert(a.subrange(0, a.len() as int) =~= a);
        }
        lemma_split_complete(a, q - 1);
    }
}

/// Substitution copies: calling a procedure whose body applies its parameter
/// to itself, on a complete argument, leaves two independent copies of the
/// argument applied to each other.
pub proof fn lemma_substitution_copies(procs: Seq<Procedure>, f: usize, a: Seq<Op>)
    requires
        f < procs.len(),
        procs[f as int].arity == 1,
        procs[f as int].body@ == seq![Op::App, Op::Arg(0), Op::Arg(0)],
        complete(a),
    ensures
        step_spec(procs, seq![Op::App] + a + seq![Op::Def(f)]) == Some(seq![Op::App] + a + a),
{
    let s = seq![Op::App] + a + seq![Op::Def(f)];
    let below = seq![Op::App] + a;
    assert(s.drop_last() =~= below);
    lemma_split_complete(a, a.len() as int);
    assert(below.subrange(1, below.len() as int) =~= a);
    let args = seq![a];
    assert(take_args(below.take(0), 0) == Some((below.take(0), Seq::<Seq<Op>>::empty())));
    assert(seq![a] + Seq::<Seq<Op>>::empty() =~= args);
    assert(below.take(0) =~= Seq::<Op>::empty());
    let body = procs[f as int].body@;
    assert(body.drop_last() =~= seq![Op::App, Op::Arg(0)]);
    assert(body.drop_last().drop_last() =~= seq![Op::App]);
    assert(seq![Op::App].drop_last() =~= Seq::<Op>::empty());
    assert(subst(Seq::<Op>::empty(), args) == Seq::<Op>::empty());
    assert(piece(Op::Arg(0), args) == a);
    assert(subst(seq![Op::App], args) =~= seq![Op::App]);
    assert(subst(seq![Op::App, Op::Arg(0)], args) =~= seq![Op::App] + a);
    assert(subst(body, args) =~= seq![Op::App] + a + a);
    assert(Seq::<Op>::empty() + subst(body, args) =~= seq![Op::App] + a + a);
}

/// The name shown for the leaf instruction that refers to index `i`.
pub open spec fn leaf(names: Seq<Seq<char>>, i: usize) -> TermV {
    TermV::Var(names[i as int])
}

/// Reads one term from the front of `f`, which lists instructions in the
/// order they were flattened: a leaf followed by as many sibling terms as
/// can be read. An application instruction, or the end, yields no term; the
/// application is consumed.
pub open spec fn read_term(names: Seq<Seq<char>>, f: Seq<Op>) -> (Option<TermV>, Seq<Op>)
    decreases f.len(), 0int,
{
    if f.len() == 0 {
        (None, f)
    } else {
        let head = match f[0] {
            Op::App => None,
            Op::Def(i) => Some(leaf(names, i)),
            Op::Arg(i) => Some(leaf(names, i)),
        };
        match head {
            None => (None, f.drop_first()),
            Some(l) => {
                let (sibs, rem) = read_rest(names, f.drop_first());
                if sibs.len() == 0 {
                    (Some(l), rem)
                } else {
                    (Some(TermV::App(seq![l] + sibs)), rem)
                }
            },
        }
    }
}

/// Reads terms from the front of `f` until no term can be read.
pub open spec fn read_rest(names: Seq<Seq<char>>, f: Seq<Op>) -> (Seq<TermV>, Seq<Op>)
    decreases f.len(), 1int,
{
    let (t, rem) = read_term(names, f);
    match t {
        None => (Seq::empty(), rem),
        Some(t) => if rem.len() < f.len() {
            let (more, rem2) = read_rest(names, rem);
            (seq![t] + more, rem2)
        } else {
            (seq![t], rem)
        },
    }
}

/// Every reference in `s` names an entry of a table of length `n`.
pub open spec fn indices_below(s: Seq<Op>, n: nat) -> bool {
    forall|i: int|
        0 <= i < s.len() ==> match #[trigger] s[i] {
            Op::App => true,
            Op::Def(k) => k < n,
            Op::Arg(k) => k < n,
        }
}

pub open spec fn opt_view(t: Option<Term>) -> Option<TermV> {
    match t {
        Some(t) => Some(t@),
        None => None,
    }
}

/// The instructions of `s[..p]`, top first.
pub open spec fn top_down(s: Seq<Op>, p: int) -> Seq<Op> {
    s.take(p).reverse()
}

proof fn lemma_top_down(s: Seq<Op>, p: int)
    requires
        0 < p <= s.len(),
    ensures
        top_down(s, p).len() == p,
        top_down(s, p)[0] == s[p - 1],
        top_down(s, p).drop_first() == top_down(s, p - 1),
{
    assert(top_down(s, p).drop_first() =~= top_down(s, p - 1));
}

fn show_op(names: &[String], op: Op) -> (r: Option<Term>)
    requires
        match op {
            Op::App => true,
            Op::Def(i) => i < names@.len(),
            Op::Arg(i) => i < names@.len(),
        },
    ensures
        opt_view(r) == match op {
            Op::App => None,
            Op::Def(i) => Some(leaf(names_view(names@), i)),
            Op::Arg(i) => Some(leaf(names_view(names@), i)),
        },
{
    match op {
        Op::App => None,
        Op::Def(i) => Some(Term::Var(names[i].clone())),
        Op::Arg(i) => Some(Term::Var(names[i].clone())),
    }
}

/// Rebuilds the term whose first instruction is `stack[*pos - 1]`, reading
/// downwards and leaving `*pos` just below what was read.
fn show_stack_impl(names: &[String], stack: &Stack, pos: &mut usize) -> (r: Option<Term>)
    requires
        *old(pos) <= stack@.len(),
        indices_below(stack@, names@.len()),
    ensures
        *final(pos) <= *old(pos),
        r is Some ==> *final(pos) < *old(pos),
        read_term(names_view(names@), top_down(stack@, *old(pos) as int)) == (
            opt_view(r),
            top_down(stack@, *final(pos) as int),
        ),
    decreases *old(pos),
{
    let ghost nv = names_view(names@);
    let ghost p0 = *pos as int;
    if *pos == 0 {
        assert(top_down(stack@, 0) =~= Seq::<Op>::empty());
        return None;
    }
    proof {
        lemma_top_down(stack@, p0);
    }
    *pos = *pos - 1;
    let l = match show_op(names, stack[*pos]) {
        None => {
            return None;
        },
        Some(l) => l,
    };
    let p1 = *pos;
    let mut terms: Vec<Term> = Vec::new();
    terms.push(l);
    assert(terms@ =~= seq![l]);
    assert(terms@.drop_last() =~= Seq::<Term>::empty());
    assert(terms_view(Seq::<Term>::empty()) =~= Seq::<TermV>::empty());
    assert(terms_view(terms@) =~= seq![l@]);
    loop
        invariant_except_break
            read_rest(nv, top_down(stack@, p1 as int)) == (
                terms_view(terms@).drop_first() + read_rest(nv, top_down(stack@, *pos as int)).0,
                read_rest(nv, top_down(stack@, *pos as int)).1,
            ),
        invariant
            *pos <= p1 < p0 <= stack@.len(),
            indices_below(stack@, names@.len()),
            nv == names_view(names@),
            terms@.len() >= 1,
            terms_view(terms@)[0] == l@,
            p0 == *old(pos),
        ensures
            read_rest(nv, top_down(stack@, p1 as int)) == (
                terms_view(terms@).drop_first(),
                top_down(stack@, *pos as int),
            ),
        decreases *pos,
    {
        let ghost before = *pos as int;
        let ghost tv = terms_view(terms@);
        match show_stack_impl(names, stack, pos) {
            None => {
                assert(tv.drop_first() + Seq::<TermV>::empty() =~= tv.drop_first());
                break;
            },
            Some(t) => {
                let ghost old_terms = terms@;
                terms.push(t);
                proof {
                    let f = top_down(stack@, before);
                    let rem = top_down(stack@, *pos as int);
                    assert(rem.len() < f.len());
                    let more = read_rest(nv, rem).0;
                    assert(read_rest(nv, f) == (seq![t@] + more, read_rest(nv, rem).1));
                    assert(terms@.drop_last() =~= old_terms);
                    let tv2 = terms_view(terms@);
                    assert(tv2 == tv.push(t@));
                    assert(tv2.drop_first() =~= tv.drop_first().push(t@));
                    assert(tv.drop_first() + (seq![t@] + more) =~= tv2.drop_first() + more);
                }
            },
        }
    }
    let ghost tv = terms_view(terms@);
    proof {
        lemma_terms_view(terms@);
        assert(tv =~= seq![l@] + tv.drop_first());
    }
    if terms.len() == 1 {
        terms.pop()
    } else {
        Some(Term::App(terms))
    }
}

/// Renders the term that starts at the top of the stack; the empty string
/// when no term starts there.
pub fn show_stack(names: &[String], stack: &Stack) -> (r: String)
    requires
        indices_below(stack@, names@.len()),
    ensures
        r@ == match read_term(names_view(names@), stack@.reverse()).0 {
            Some(t) => term_text(t),
            None => Seq::empty(),
        },
{
    let mut pos = stack.len();
    assert(stack@.take(stack@.len() as int) =~= stack@);
    match show_stack_impl(names, stack, &mut pos) {
        Some(term) => show_term(&term),
        None => String::new(),
    }
}

} // verus!
