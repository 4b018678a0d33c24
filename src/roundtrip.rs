use vstd::prelude::*;

use crate::compile::{flatten, flatten_list, index_of, lemma_index_of_bound};
use crate::machine::{read_rest, read_term, Op};
use crate::term::TermV;

verus! {

/// Every application in the term has at least two parts.
pub open spec fn valid(t: TermV) -> bool
    decreases t,
{
    match t {
        TermV::Var(_) => true,
        TermV::App(ts) => ts.len() >= 2 && valid_list(ts),
    }
}

pub open spec fn valid_list(ts: Seq<TermV>) -> bool
    decreases ts,
{
    if ts.len() == 0 {
        true
    } else {
        valid_list(ts.drop_last()) && valid(ts.last())
    }
}

/// The variable at the head of a term, after its left-nested applications
/// are taken apart.
pub open spec fn head_name(t: TermV) -> Seq<char>
    decreases t,
{
    match t {
        TermV::Var(x) => x,
        TermV::App(ts) => if ts.len() == 0 {
            Seq::empty()
        } else {
            head_name(ts[0])
        },
    }
}

/// The arguments applied to the head of a term, each in canonical form.
pub open spec fn canon_args(t: TermV) -> Seq<TermV>
    decreases t,
{
    match t {
        TermV::Var(_) => Seq::empty(),
        TermV::App(ts) => if ts.len() == 0 {
            Seq::empty()
        } else {
            canon_args(ts[0]) + canon_list(ts.drop_first())
        },
    }
}

pub open spec fn canon_list(ts: Seq<TermV>) -> Seq<TermV>
    decreases ts,
{
    if ts.len() == 0 {
        Seq::empty()
    } else {
        canon_list(ts.drop_last()).push(spine(head_name(ts.last()), canon_args(ts.last())))
    }
}

/// A head variable applied to arguments: the variable alone when there are
/// none.
pub open spec fn spine(h: Seq<char>, args: Seq<TermV>) -> TermV {
    if args.len() == 0 {
        TermV::Var(h)
    } else {
        TermV::App(seq![TermV::Var(h)] + args)
    }
}

/// The canonical form of a term: applications nested to the left are merged
/// into one.
pub open spec fn canon(t: TermV) -> TermV {
    spine(head_name(t), canon_args(t))
}

/// How deep the head of a term is nested.
spec fn head_depth(t: TermV) -> nat
    decreases t,
{
    match t {
        TermV::Var(_) => 0,
        TermV::App(ts) => if ts.len() == 0 {
            0
        } else {
            1 + head_depth(ts[0])
        },
    }
}

spec fn flat(defs: Seq<Seq<char>>, t: TermV) -> Seq<Op> {
    flatten(t, defs, Seq::empty())->Ok_0
}

/// The flattening of further arguments, each followed by an application.
spec fn ext(defs: Seq<Seq<char>>, ts: Seq<TermV>) -> Seq<Op>
    decreases ts.len(),
{
    if ts.len() == 0 {
        Seq::empty()
    } else {
        ext(defs, ts.drop_last()) + flat(defs, ts.last()) + seq![Op::App]
    }
}

spec fn good(defs: Seq<Seq<char>>, t: TermV) -> bool {
    valid(t) && flatten(t, defs, Seq::empty()) is Ok
}

spec fn all_good(defs: Seq<Seq<char>>, ts: Seq<TermV>) -> bool {
    forall|i: int| 0 <= i < ts.len() ==> good(defs, #[trigger] ts[i])
}

spec fn skip_app(r: Seq<Op>) -> Seq<Op> {
    if r.len() == 0 {
        r
    } else {
        r.drop_first()
    }
}

proof fn lemma_list_parts(defs: Seq<Seq<char>>, ts: Seq<TermV>)
    requires
        valid_list(ts),
        flatten_list(ts, defs, Seq::empty()) is Ok,
    ensures
        all_good(defs, ts),
        ts.len() >= 1 ==> flatten_list(ts, defs, Seq::empty())->Ok_0 == flat(defs, ts[0]) + ext(defs, ts.drop_first()),
    decreases ts.len(),
{
    if ts.len() > 0 {
        let init = ts.drop_last();
        lemma_list_parts(defs, init);
        assert forall|i: int| 0 <= i < ts.len() implies good(defs, #[trigger] ts[i]) by {
            if i < ts.len() - 1 {
                assert(ts[i] == init[i]);
            }
        }
        if ts.len() == 1 {
            assert(ts.drop_first() =~= Seq::<TermV>::empty());
            assert(flatten_list(init, defs, Seq::empty())->Ok_0 =~= Seq::<Op>::empty());
            assert(flatten_list(ts, defs, Seq::empty())->Ok_0 =~= flat(defs, ts[0]) + ext(defs, ts.drop_first()));
        } else {
            assert(ts.drop_first().drop_last() =~= init.drop_first());
            assert(init[0] == ts[0]);
            assert(flatten_list(ts, defs, Seq::empty())->Ok_0 =~= flat(defs, ts[0]) + ext(defs, ts.drop_first()));
        }
    }
}

proof fn lemma_ext_concat(defs: Seq<Seq<char>>, a: Seq<TermV>, b: Seq<TermV>)
    ensures
        ext(defs, a + b) == ext(defs, a) + ext(defs, b),
    decreases b.len(),
{
    if b.len() == 0 {
        assert(a + b =~= a);
        assert(ext(defs, a) + ext(defs, b) =~= ext(defs, a));
    } else {
        assert((a + b).drop_last() =~= a + b.drop_last());
        lemma_ext_concat(defs, a, b.drop_last());
        assert(ext(defs, a + b) =~= ext(defs, a) + ext(defs, b));
    }
}

proof fn lemma_canon_list_concat(a: Seq<TermV>, b: Seq<TermV>)
    ensures
        canon_list(a + b) == canon_list(a) + canon_list(b),
    decreases b.len(),
{
    if b.len() == 0 {
        assert(a + b =~= a);
        assert(canon_list(a) + canon_list(b) =~= canon_list(a));
    } else {
        assert((a + b).drop_last() =~= a + b.drop_last());
        lemma_canon_list_concat(a, b.drop_last());
        assert(canon_list(a + b) =~= canon_list(a) + canon_list(b));
    }
}

proof fn lemma_front(defs: Seq<Seq<char>>, ts: Seq<TermV>)
    requires
        ts.len() >= 1,
    ensures
        ext(defs, ts) == flat(defs, ts[0]) + seq![Op::App] + ext(defs, ts.drop_first()),
        canon_list(ts) == seq![canon(ts[0])] + canon_list(ts.drop_first()),
{
    let first = seq![ts[0]];
    assert(first + ts.drop_first() =~= ts);
    lemma_ext_concat(defs, first, ts.drop_first());
    lemma_canon_list_concat(first, ts.drop_first());
    assert(first.drop_last() =~= Seq::<TermV>::empty());
    assert(first.last() == ts[0]);
    assert(ext(defs, Seq::<TermV>::empty()) == Seq::<Op>::empty());
    assert(canon_list(Seq::<TermV>::empty()) == Seq::<TermV>::empty());
    assert(ext(defs, first) =~= flat(defs, ts[0]) + seq![Op::App]);
    assert(canon_list(first) =~= seq![canon(ts[0])]);
}

proof fn lemma_read_term(defs: Seq<Seq<char>>, t: TermV, l: Seq<TermV>, r: Seq<Op>)
    requires
        defs.len() <= usize::MAX,
        good(defs, t),
        all_good(defs, l),
        r.len() == 0 || r[0] == Op::App,
    ensures
        read_term(defs, flat(defs, t) + ext(defs, l) + r) == (
            Some(spine(head_name(t), canon_args(t) + canon_list(l))),
            skip_app(r),
        ),
    decreases (flat(defs, t) + ext(defs, l)).len(), head_depth(t),
{
    match t {
        TermV::Var(x) => {
            lemma_index_of_bound(defs, x);
            let i = index_of(defs, x)->Some_0;
            let f = flat(defs, t) + ext(defs, l) + r;
            assert(f[0] == Op::Def(i as usize));
            assert(f.drop_first() =~= ext(defs, l) + r);
            lemma_read_rest(defs, l, r);
            assert(Seq::<TermV>::empty() + canon_list(l) =~= canon_list(l));
        },
        TermV::App(ts) => {
            lemma_list_parts(defs, ts);
            let rest = ts.drop_first();
            lemma_ext_concat(defs, rest, l);
            lemma_canon_list_concat(rest, l);
            assert(flat(defs, t) + ext(defs, l) + r =~= flat(defs, ts[0]) + ext(defs, rest + l) + r);
            assert forall|i: int| 0 <= i < (rest + l).len() implies good(defs, #[trigger] (rest + l)[i]) by {
                if i < rest.len() {
                    assert((rest + l)[i] == ts[i + 1]);
                } else {
                    assert((rest + l)[i] == l[i - rest.len()]);
                }
            }
            lemma_read_term(defs, ts[0], rest + l, r);
            assert(canon_args(ts[0]) + canon_list(rest + l) =~= canon_args(t) + canon_list(l));
        },
    }
}

proof fn lemma_read_rest(defs: Seq<Seq<char>>, l: Seq<TermV>, r: Seq<Op>)
    requires
        defs.len() <= usize::MAX,
        all_good(defs, l),
        r.len() == 0 || r[0] == Op::App,
    ensures
        read_rest(defs, ext(defs, l) + r) == (canon_list(l), skip_app(r)),
    decreases ext(defs, l).len(), 0nat,
{
    if l.len() == 0 {
        assert(ext(defs, l) + r =~= r);
        assert(canon_list(l) == Seq::<TermV>::empty());
        assert(read_term(defs, r) == (None::<TermV>, skip_app(r)));
        assert(read_rest(defs, r) == (Seq::<TermV>::empty(), skip_app(r)));
    } else {
        lemma_front(defs, l);
        let more = ext(defs, l.drop_first()) + r;
        let tail = seq![Op::App] + more;
        assert(ext(defs, l) + r =~= flat(defs, l[0]) + ext(defs, Seq::empty()) + tail);
        assert(good(defs, l[0]));
        assert(all_good(defs, Seq::<TermV>::empty()));
        lemma_read_term(defs, l[0], Seq::empty(), tail);
        assert(tail.drop_first() =~= more);
        assert(canon_args(l[0]) + canon_list(Seq::<TermV>::empty()) =~= canon_args(l[0]));
        assert forall|i: int| 0 <= i < l.drop_first().len() implies good(defs, #[trigger] l.drop_first()[i]) by {
            assert(l.drop_first()[i] == l[i + 1]);
        }
        lemma_read_rest(defs, l.drop_first(), r);
        let f = ext(defs, l) + r;
        assert(read_term(defs, f) == (Some(canon(l[0])), more));
        assert(more.len() < f.len());
        assert(read_rest(defs, f) == (seq![canon(l[0])] + canon_list(l.drop_first()), skip_app(r)));
    }
}

/// Reconstruction inverts flattening: the stack that the compiler stores for
/// a term without parameters, read back from its top, gives the term in
/// canonical form and nothing is left over.
pub proof fn lemma_round_trip(defs: Seq<Seq<char>>, t: TermV)
    requires
        defs.len() <= usize::MAX,
        valid(t),
        flatten(t, defs, Seq::empty()) is Ok,
    ensures
        ({
            let stack = flatten(t, defs, Seq::empty())->Ok_0.reverse();
            read_term(defs, stack.reverse()) == (Some(canon(t)), Seq::<Op>::empty())
        }),
{
    let f = flatten(t, defs, Seq::empty())->Ok_0;
    assert(f.reverse().reverse() =~= f);
    assert(all_good(defs, Seq::<TermV>::empty()));
    lemma_read_term(defs, t, Seq::empty(), Seq::empty());
    assert(f + ext(defs, Seq::empty()) + Seq::<Op>::empty() =~= f);
    assert(canon_args(t) + canon_list(Seq::<TermV>::empty()) =~= canon_args(t));
}

} // verus!
