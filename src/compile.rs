use vstd::prelude::*;

use crate::machine::{op_in_body, Op, Procedure, Stack, State};
use crate::term::{lemma_terms_view, names_view, term_view, terms_view, Def, Program, Term, TermV};

verus! {

/// Why a program could not be compiled.
#[derive(Debug, Clone, PartialEq, Eq)]
pub enum CompileError {
    /// A variable that names neither a definition nor a parameter.
    UndefinedVariable(String),
    /// A definition name used twice, or a parameter name used twice in one
    /// definition.
    DuplicateName(String),
    /// No definition is named `main`.
    MissingEntryPoint,
}

pub enum CompileErrorV {
    UndefinedVariable(Seq<char>),
    DuplicateName(Seq<char>),
    MissingEntryPoint,
}

impl View for CompileError {
    type V = CompileErrorV;

    open spec fn view(&self) -> CompileErrorV {
        match self {
            CompileError::UndefinedVariable(x) => CompileErrorV::UndefinedVariable(x@),
            CompileError::DuplicateName(x) => CompileErrorV::DuplicateName(x@),
            CompileError::MissingEntryPoint => CompileErrorV::MissingEntryPoint,
        }
    }
}

/// The text that describes an error.
pub open spec fn error_text(e: CompileErrorV) -> Seq<char> {
    match e {
        CompileErrorV::UndefinedVariable(x) => "undefined variable: "@ + x,
        CompileErrorV::DuplicateName(x) => "duplicate name: "@ + x,
        CompileErrorV::MissingEntryPoint => "no main function defined"@,
    }
}

impl CompileError {
    /// Describes the error in words.
    pub fn message(&self) -> (r: String)
        ensures
            r@ == error_text(self@),
    {
        match self {
            CompileError::UndefinedVariable(x) => {
                let mut text = String::from_str("undefined variable: ");
                text.append(x.as_str());
                text
            },
            CompileError::DuplicateName(x) => {
                let mut text = String::from_str("duplicate name: ");
                text.append(x.as_str());
                text
            },
            CompileError::MissingEntryPoint => String::from_str("no main function defined"),
        }
    }
}

/// The first position at which `x` occurs in `s`.
pub open spec fn index_of(s: Seq<Seq<char>>, x: Seq<char>) -> Option<nat>
    decreases s.len(),
{
    if s.len() == 0 {
        None
    } else {
        match index_of(s.drop_last(), x) {
            Some(i) => Some(i),
            None => if s.last() == x {
                Some((s.len() - 1) as nat)
            } else {
                None
            },
        }
    }
}

/// The first name of `s` that occurs earlier in `s`.
pub open spec fn first_dup(s: Seq<Seq<char>>) -> Option<Seq<char>>
    decreases s.len(),
{
    if s.len() == 0 {
        None
    } else {
        match first_dup(s.drop_last()) {
            Some(d) => Some(d),
            None => if index_of(s.drop_last(), s.last()) is Some {
                Some(s.last())
            } else {
                None
            },
        }
    }
}

/// A variable refers to the definition of that name if there is one, else
/// to the parameter of that name.
pub open spec fn resolve(defs: Seq<Seq<char>>, params: Seq<Seq<char>>, x: Seq<char>) -> Option<Op> {
    match index_of(defs, x) {
        Some(i) => Some(Op::Def(i as usize)),
        None => match index_of(params, x) {
            Some(k) => Some(Op::Arg(k as usize)),
            None => None,
        },
    }
}

/// The flattening of a term: the head, then each further part followed by an
/// application. `Err` holds the first variable that does not resolve.
pub open spec fn flatten(t: TermV, defs: Seq<Seq<char>>, params: Seq<Seq<char>>) -> Result<Seq<Op>, Seq<char>>
    decreases t,
{
    match t {
        TermV::Var(x) => match resolve(defs, params, x) {
            Some(op) => Ok(seq![op]),
            None => Err(x),
        },
        TermV::App(ts) => flatten_list(ts, defs, params),
    }
}

/// The flattening of the parts of an application.
pub open spec fn flatten_list(ts: Seq<TermV>, defs: Seq<Seq<char>>, params: Seq<Seq<char>>) -> Result<Seq<Op>, Seq<char>>
    decreases ts,
{
    if ts.len() == 0 {
        Ok(Seq::empty())
    } else {
        match flatten_list(ts.drop_last(), defs, params) {
            Err(e) => Err(e),
            Ok(a) => match flatten(ts.last(), defs, params) {
                Err(e) => Err(e),
                Ok(b) => Ok(
                    if ts.len() == 1 {
                        a + b
                    } else {
                        a + b + seq![Op::App]
                    },
                ),
            },
        }
    }
}


proof fn lemma_index_of_extend(s: Seq<Seq<char>>, x: Seq<char>, k: int, m: int)
    requires
        0 <= k <= m <= s.len(),
        index_of(s.take(k), x) is Some,
    ensures
        index_of(s.take(m), x) == index_of(s.take(k), x),
    decreases m - k,
{
    if m > k {
        lemma_index_of_extend(s, x, k, m - 1);
        assert(s.take(m).drop_last() =~= s.take(m - 1));
    }
}

pub(crate) proof fn lemma_index_of_bound(s: Seq<Seq<char>>, x: Seq<char>)
    ensures
        index_of(s, x) matches Some(i) ==> i < s.len() && s[i as int] == x,
    decreases s.len(),
{
    if s.len() > 0 {
        lemma_index_of_bound(s.drop_last(), x);
    }
}

/// The first position among `names[..limit]` that holds `x`.
fn find_name(names: &Vec<String>, limit: usize, x: &String) -> (r: Option<usize>)
    requires
        limit <= names@.len(),
    ensures
        index_of(names_view(names@).take(limit as int), x@) == match r {
            Some(i) => Some(i as nat),
            None => None::<nat>,
        },
{
    let ghost nv = names_view(names@);
    let mut i: usize = 0;
    assert(nv.take(0) =~= Seq::<Seq<char>>::empty());
    while i < limit
        invariant
            i <= limit <= names@.len(),
            nv == names_view(names@),
            index_of(nv.take(i as int), x@) is None,
        decreases limit - i,
    {
        assert(nv.take(i + 1).drop_last() =~= nv.take(i as int));
        if names[i] == *x {
            proof {
                lemma_index_of_extend(nv, x@, i + 1, limit as int);
            }
            return Some(i);
        }
        i = i + 1;
    }
    None
}

proof fn lemma_flatten_list_err(ts: Seq<TermV>, defs: Seq<Seq<char>>, params: Seq<Seq<char>>, k: int, m: int)
    requires
        0 <= k <= m <= ts.len(),
        flatten_list(ts.take(k), defs, params) is Err,
    ensures
        flatten_list(ts.take(m), defs, params) == flatten_list(ts.take(k), defs, params),
    decreases m - k,
{
    if m > k {
        lemma_flatten_list_err(ts, defs, params, k, m - 1);
        assert(ts.take(m).drop_last() =~= ts.take(m - 1));
    }
}

/// Flattens a term against the definition and parameter names.
fn compile_term(term: &Term, defs: &Vec<String>, params: &Vec<String>) -> (r: Result<Stack, CompileError>)
    ensures
        flatten(term@, names_view(defs@), names_view(params@)) == match r {
            Ok(ops) => Ok::<Seq<Op>, Seq<char>>(ops@),
            Err(CompileError::UndefinedVariable(x)) => Err(x@),
            Err(_) => Err(Seq::empty()),
        },
        r matches Err(e) ==> e is UndefinedVariable,
    decreases term,
{
    match term {
        Term::Var(var) => {
            match find_name(defs, defs.len(), var) {
                Some(i) => {
                    assert(names_view(defs@).take(defs@.len() as int) =~= names_view(defs@));
                    let mut ops: Stack = Vec::new();
                    ops.push(Op::Def(i));
                    assert(ops@ =~= seq![Op::Def(i)]);
                    return Ok(ops);
                },
                None => {},
            }
            assert(names_view(defs@).take(defs@.len() as int) =~= names_view(defs@));
            assert(names_view(params@).take(params@.len() as int) =~= names_view(params@));
            match find_name(params, params.len(), var) {
                Some(k) => {
                    let mut ops: Stack = Vec::new();
                    ops.push(Op::Arg(k));
                    assert(ops@ =~= seq![Op::Arg(k)]);
                    Ok(ops)
                },
                None => Err(CompileError::UndefinedVariable(var.clone())),
            }
        },
        Term::App(terms) => {
            proof {
                lemma_terms_view(terms@);
            }
            let ghost dv = names_view(defs@);
            let ghost pv = names_view(params@);
            let ghost ts = terms_view(terms@);
            let mut out: Stack = Vec::new();
            let mut i: usize = 0;
            assert(ts.take(0) =~= Seq::<TermV>::empty());
            while i < terms.len()
                invariant
                    *term == Term::App(*terms),
                    i <= terms@.len(),
                    dv == names_view(defs@),
                    pv == names_view(params@),
                    ts == terms_view(terms@),
                    ts.len() == terms@.len(),
                    forall|j: int| 0 <= j < terms@.len() ==> #[trigger] ts[j] == term_view(terms@[j]),
                    flatten_list(ts.take(i as int), dv, pv) == Ok::<Seq<Op>, Seq<char>>(out@),
                decreases terms@.len() - i,
            {
                proof {
                    assert(decreases_to!(*term => term->App_0));
                    assert(decreases_to!(*terms => terms@));
                    assert(decreases_to!(terms@ => terms@[i as int]));
                }
                let ghost prefix = ts.take(i + 1);
                assert(prefix.drop_last() =~= ts.take(i as int));
                assert(prefix.last() == ts[i as int]);
                match compile_term(&terms[i], defs, params) {
                    Ok(sub) => {
                        let ghost before = out@;
                        let ghost part = sub@;
                        let mut sub = sub;
                        out.append(&mut sub);
                        if i != 0 {
                            out.push(Op::App);
                        }
                        assert(out@ =~= if i + 1 == 1 {
                            before + part
                        } else {
                            before + part + seq![Op::App]
                        });
                    },
                    Err(e) => {
                        proof {
                            lemma_flatten_list_err(ts, dv, pv, i + 1, ts.len() as int);
                            assert(ts.take(ts.len() as int) =~= ts);
                        }
                        return Err(e);
                    },
                }
                i = i + 1;
            }
            assert(ts.take(ts.len() as int) =~= ts);
            Ok(out)
        },
    }
}


proof fn lemma_flatten_bounds(t: TermV, defs: Seq<Seq<char>>, params: Seq<Seq<char>>)
    requires
        defs.len() <= usize::MAX,
        params.len() <= usize::MAX,
    ensures
        flatten(t, defs, params) matches Ok(f) ==> forall|i: int|
            0 <= i < f.len() ==> op_in_body(#[trigger] f[i], defs.len(), params.len()),
    decreases t,
{
    match t {
        TermV::Var(x) => {
            lemma_index_of_bound(defs, x);
            lemma_index_of_bound(params, x);
        },
        TermV::App(ts) => {
            lemma_flatten_list_bounds(ts, defs, params);
        },
    }
}

proof fn lemma_flatten_list_bounds(ts: Seq<TermV>, defs: Seq<Seq<char>>, params: Seq<Seq<char>>)
    requires
        defs.len() <= usize::MAX,
        params.len() <= usize::MAX,
    ensures
        flatten_list(ts, defs, params) matches Ok(f) ==> forall|i: int|
            0 <= i < f.len() ==> op_in_body(#[trigger] f[i], defs.len(), params.len()),
    decreases ts,
{
    if ts.len() > 0 {
        lemma_flatten_list_bounds(ts.drop_last(), defs, params);
        lemma_flatten_bounds(ts.last(), defs, params);
    }
}

proof fn lemma_first_dup_extend(s: Seq<Seq<char>>, k: int, m: int)
    requires
        0 <= k <= m <= s.len(),
        first_dup(s.take(k)) is Some,
    ensures
        first_dup(s.take(m)) == first_dup(s.take(k)),
    decreases m - k,
{
    if m > k {
        lemma_first_dup_extend(s, k, m - 1);
        assert(s.take(m).drop_last() =~= s.take(m - 1));
    }
}

/// The position of the first name that occurs earlier in `names`.
fn find_dup(names: &Vec<String>) -> (r: Option<usize>)
    ensures
        first_dup(names_view(names@)) == match r {
            Some(j) => Some(names@[j as int]@),
            None => None::<Seq<char>>,
        },
        r matches Some(j) ==> j < names@.len(),
{
    let ghost nv = names_view(names@);
    let mut j: usize = 0;
    assert(nv.take(0) =~= Seq::<Seq<char>>::empty());
    while j < names.len()
        invariant
            j <= names@.len(),
            nv == names_view(names@),
            first_dup(nv.take(j as int)) is None,
        decreases names@.len() - j,
    {
        let ghost prefix = nv.take(j + 1);
        assert(prefix.drop_last() =~= nv.take(j as int));
        assert(prefix.last() == names@[j as int]@);
        assert(nv.take(j as int) == names_view(names@).take(j as int));
        if find_name(names, j, &names[j]).is_some() {
            proof {
                lemma_first_dup_extend(nv, j + 1, nv.len() as int);
                assert(nv.take(nv.len() as int) =~= nv);
            }
            return Some(j);
        }
        j = j + 1;
    }
    assert(nv.take(nv.len() as int) =~= nv);
    None
}

/// Reverses a run of instructions.
fn reversed(ops: &Stack) -> (r: Stack)
    ensures
        r@ == ops@.reverse(),
{
    let mut out: Stack = Vec::new();
    let mut i: usize = ops.len();
    while i > 0
        invariant
            i <= ops@.len(),
            out@ == ops@.subrange(i as int, ops@.len() as int).reverse(),
        decreases i,
    {
        i = i - 1;
        out.push(ops[i]);
        assert(out@ =~= ops@.subrange(i as int, ops@.len() as int).reverse());
    }
    assert(ops@.subrange(0, ops@.len() as int) =~= ops@);
    out
}

/// What a definition compiles to: its flattened body, reversed.
pub open spec fn def_body(d: Def, defs: Seq<Seq<char>>) -> Result<Seq<Op>, CompileErrorV> {
    let ps = names_view(d.params@);
    match first_dup(ps) {
        Some(p) => Err(CompileErrorV::DuplicateName(p)),
        None => match flatten(d.term@, defs, ps) {
            Ok(f) => Ok(f.reverse()),
            Err(x) => Err(CompileErrorV::UndefinedVariable(x)),
        },
    }
}

/// Compiles one definition against the table of definition names.
fn compile_def(def: &Def, defs: &Vec<String>) -> (r: Result<Stack, CompileError>)
    ensures
        def_body(*def, names_view(defs@)) == match r {
            Ok(ops) => Ok::<Seq<Op>, CompileErrorV>(ops@),
            Err(e) => Err(e@),
        },
{
    match find_dup(&def.params) {
        Some(j) => {
            return Err(CompileError::DuplicateName(def.params[j].clone()));
        },
        None => {},
    }
    match compile_term(&def.term, defs, &def.params) {
        Ok(stack) => Ok(reversed(&stack)),
        Err(e) => Err(e),
    }
}


/// The names of the definitions, in order.
pub open spec fn def_names(prog: Seq<Def>) -> Seq<Seq<char>> {
    prog.map_values(|d: Def| d.name@)
}

/// The compiled bodies of the definitions, or the error of the first one that
/// does not compile.
pub open spec fn bodies(prog: Seq<Def>, defs: Seq<Seq<char>>) -> Result<Seq<Seq<Op>>, CompileErrorV>
    decreases prog.len(),
{
    if prog.len() == 0 {
        Ok(Seq::empty())
    } else {
        match bodies(prog.drop_last(), defs) {
            Err(e) => Err(e),
            Ok(bs) => match def_body(prog.last(), defs) {
                Err(e) => Err(e),
                Ok(b) => Ok(bs.push(b)),
            },
        }
    }
}

/// The name of the entry definition.
pub open spec fn entry_name() -> Seq<char> {
    seq!['m', 'a', 'i', 'n']
}

/// What a program compiles to: the procedure bodies and the index of the
/// entry definition. Duplicate definition names are reported first, then the
/// first definition that does not compile, then a missing entry.
pub open spec fn compile_spec(prog: Seq<Def>) -> Result<(Seq<Seq<Op>>, nat), CompileErrorV> {
    let defs = def_names(prog);
    match first_dup(defs) {
        Some(n) => Err(CompileErrorV::DuplicateName(n)),
        None => match bodies(prog, defs) {
            Err(e) => Err(e),
            Ok(bs) => match index_of(defs, entry_name()) {
                None => Err(CompileErrorV::MissingEntryPoint),
                Some(m) => Ok((bs, m)),
            },
        },
    }
}

proof fn lemma_bodies_err(prog: Seq<Def>, defs: Seq<Seq<char>>, k: int, m: int)
    requires
        0 <= k <= m <= prog.len(),
        bodies(prog.take(k), defs) is Err,
    ensures
        bodies(prog.take(m), defs) == bodies(prog.take(k), defs),
    decreases m - k,
{
    if m > k {
        lemma_bodies_err(prog, defs, k, m - 1);
        assert(prog.take(m).drop_last() =~= prog.take(m - 1));
    }
}

/// Compiles a program into its image, with the stack holding a call of the
/// entry definition.
pub fn compile(prog: &Program) -> (r: Result<State, CompileError>)
    ensures
        r is Ok <==> compile_spec(prog@) is Ok,
        r matches Err(e) ==> compile_spec(prog@) == Err::<(Seq<Seq<Op>>, nat), CompileErrorV>(e@),
        r matches Ok(st) ==> {
            &&& compile_spec(prog@) matches Ok((bs, m)) && {
                &&& names_view(st.names@) == def_names(prog@)
                &&& st.procs@.len() == prog@.len()
                &&& forall|i: int|
                    0 <= i < prog@.len() ==> (#[trigger] st.procs@[i]).arity == prog@[i].params@.len()
                        && st.procs@[i].body@ == bs[i]
                &&& st.stack@ == seq![Op::Def(m as usize)]
            }
            &&& st.wf()
            &&& forall|i: int, k: int|
                0 <= i < st.procs@.len() && 0 <= k < st.procs@[i].body@.len() ==> (
                #[trigger] st.procs@[i].body@[k] matches Op::Arg(a) ==> a < st.procs@[i].arity)
            &&& st.args@.len() == 0
            &&& st.arg_ranges@.len() == 0
        },
{
    let ghost dv = def_names(prog@);
    let mut names: Vec<String> = Vec::new();
    let mut i: usize = 0;
    while i < prog.len()
        invariant
            i <= prog@.len(),
            dv == def_names(prog@),
            names_view(names@) == dv.take(i as int),
            names@.len() == i,
        decreases prog@.len() - i,
    {
        let ghost old_names = names@;
        names.push(prog[i].name.clone());
        assert(names@ == old_names.push(prog@[i as int].name));
        assert(names_view(names@).len() == i + 1);
        assert forall|j: int| 0 <= j < i + 1 implies #[trigger] names_view(names@)[j] == dv.take(i + 1)[j] by {
            assert(names_view(names@)[j] == names@[j]@);
            assert(dv[j] == prog@[j].name@);
            if j < i {
                assert(names_view(old_names)[j] == dv.take(i as int)[j]);
            }
        }
        assert(names_view(names@) =~= dv.take(i + 1));
        i = i + 1;
    }
    assert(dv.take(i as int) =~= dv);
    match find_dup(&names) {
        Some(j) => {
            return Err(CompileError::DuplicateName(names[j].clone()));
        },
        None => {},
    }
    let mut procs: Vec<Procedure> = Vec::new();
    let ghost bs: Seq<Seq<Op>> = Seq::empty();
    let mut k: usize = 0;
    assert(prog@.take(0) =~= Seq::<Def>::empty());
    while k < prog.len()
        invariant
            k <= prog@.len(),
            dv == def_names(prog@),
            names_view(names@) == dv,
            first_dup(dv) is None,
            names@.len() == prog@.len(),
            bodies(prog@.take(k as int), dv) == Ok::<Seq<Seq<Op>>, CompileErrorV>(bs),
            procs@.len() == k,
            bs.len() == k,
            forall|x: int|
                0 <= x < k ==> (#[trigger] procs@[x]).arity == prog@[x].params@.len()
                    && procs@[x].body@ == bs[x]
                    && procs@[x].wf(prog@.len()),
        decreases prog@.len() - k,
    {
        let ghost prefix = prog@.take(k + 1);
        assert(prefix.drop_last() =~= prog@.take(k as int));
        assert(prefix.last() == prog@[k as int]);
        let def = &prog[k];
        let _arity = def.params.len();
        match compile_def(def, &names) {
            Ok(body) => {
                proof {
                    let ps = names_view(def.params@);
                    assert(ps.len() == def.params@.len());
                    assert(dv.len() == prog@.len());
                    lemma_flatten_bounds(def.term@, dv, ps);
                    let f = flatten(def.term@, dv, ps)->Ok_0;
                    assert forall|y: int| 0 <= y < body@.len() implies op_in_body(
                        #[trigger] body@[y],
                        prog@.len(),
                        def.params@.len() as nat,
                    ) by {
                        assert(body@[y] == f[f.len() - 1 - y]);
                    }
                    bs = bs.push(body@);
                }
                procs.push(Procedure { arity: def.params.len(), body });
            },
            Err(e) => {
                proof {
                    lemma_bodies_err(prog@, dv, k + 1, prog@.len() as int);
                    assert(prog@.take(prog@.len() as int) =~= prog@);
                }
                return Err(e);
            },
        }
        k = k + 1;
    }
    assert(prog@.take(prog@.len() as int) =~= prog@);
    let entry = String::from_str("main");
    proof {
        reveal_strlit("main");
        assert(entry@ =~= entry_name());
        assert(dv.take(dv.len() as int) =~= dv);
        lemma_index_of_bound(dv, entry_name());
    }
    match find_name(&names, names.len(), &entry) {
        None => Err(CompileError::MissingEntryPoint),
        Some(m) => {
            let mut stack: Stack = Vec::new();
            stack.push(Op::Def(m));
            assert(stack@ =~= seq![Op::Def(m)]);
            Ok(State { names, procs, stack, args: Vec::new(), arg_ranges: Vec::new() })
        },
    }
}


/// A variable that names a definition refers to it, whatever the parameters
/// are called: definitions shadow parameters.
pub proof fn lemma_definitions_shadow_parameters(
    defs: Seq<Seq<char>>,
    params: Seq<Seq<char>>,
    x: Seq<char>,
    i: int,
)
    requires
        0 <= i < defs.len() <= usize::MAX,
        defs[i] == x,
        forall|j: int| 0 <= j < i ==> defs[j] != x,
    ensures
        resolve(defs, params, x) == Some(Op::Def(i as usize)),
        flatten(TermV::Var(x), defs, params) == Ok::<Seq<Op>, Seq<char>>(seq![Op::Def(i as usize)]),
{
    assert(defs.take(i) =~= defs.take(i + 1).drop_last());
    lemma_index_of_absent(defs.take(i), x);
    assert(index_of(defs.take(i + 1), x) == Some(i as nat));
    lemma_index_of_extend(defs, x, i + 1, defs.len() as int);
    assert(defs.take(defs.len() as int) =~= defs);
}

proof fn lemma_index_of_absent(s: Seq<Seq<char>>, x: Seq<char>)
    requires
        forall|j: int| 0 <= j < s.len() ==> s[j] != x,
    ensures
        index_of(s, x) is None,
    decreases s.len(),
{
    if s.len() > 0 {
        lemma_index_of_absent(s.drop_last(), x);
    }
}

} // verus!
