use vstd::prelude::*;

verus! {

/// Command-line options of the evaluator.
#[derive(Debug, Clone)]
pub struct Cli {
    /// Expression or file containing expression.
    pub target: String,
    /// Interpret the target as an expression rather than a file name.
    pub expression: bool,
}

/// A definition `name params = term;`.
#[derive(Debug)]
pub struct Def {
    pub name: String,
    pub params: Vec<String>,
    pub term: Term,
}

/// A term: a variable, or an application of two or more terms.
#[derive(Debug)]
pub enum Term {
    Var(String),
    App(Vec<Term>),
}

pub type Program = Vec<Def>;

/// The views of a table of names.
pub open spec fn names_view(names: Seq<String>) -> Seq<Seq<char>> {
    names.map_values(|n: String| n@)
}

/// The mathematical value of a term.
pub enum TermV {
    Var(Seq<char>),
    App(Seq<TermV>),
}

pub open spec fn term_view(t: Term) -> TermV
    decreases t,
{
    match t {
        Term::Var(x) => TermV::Var(x@),
        Term::App(ts) => TermV::App(terms_view(ts@)),
    }
}

pub open spec fn terms_view(ts: Seq<Term>) -> Seq<TermV>
    decreases ts,
{
    if ts.len() == 0 {
        Seq::empty()
    } else {
        terms_view(ts.drop_last()).push(term_view(ts.last()))
    }
}

impl View for Term {
    type V = TermV;

    open spec fn view(&self) -> TermV {
        term_view(*self)
    }
}

pub proof fn lemma_terms_view(ts: Seq<Term>)
    ensures
        terms_view(ts).len() == ts.len(),
        forall|i: int| 0 <= i < ts.len() ==> #[trigger] terms_view(ts)[i] == term_view(ts[i]),
    decreases ts.len(),
{
    if ts.len() > 0 {
        lemma_terms_view(ts.drop_last());
    }
}

/// The surface text of a term: a variable is its name, an application is its
/// parts separated by spaces, in parentheses.
pub open spec fn term_text(t: TermV) -> Seq<char>
    decreases t,
{
    match t {
        TermV::Var(x) => x,
        TermV::App(ts) => seq!['('] + list_text(ts) + seq![')'],
    }
}

/// Terms separated by single spaces.
pub open spec fn list_text(ts: Seq<TermV>) -> Seq<char>
    decreases ts,
{
    if ts.len() == 0 {
        Seq::empty()
    } else if ts.len() == 1 {
        term_text(ts[0])
    } else {
        list_text(ts.drop_last()) + seq![' '] + term_text(ts.last())
    }
}


/// Renders a term in the surface syntax; every application is parenthesised.
pub fn show_term(term: &Term) -> (r: String)
    ensures
        r@ == term_text(term@),
    decreases term,
{
    match term {
        Term::Var(var) => var.clone(),
        Term::App(terms) => {
            proof {
                reveal_strlit("(");
                reveal_strlit(")");
                reveal_strlit(" ");
                lemma_terms_view(terms@);
            }
            let ghost ts = terms_view(terms@);
            let mut text = String::new();
            text.append("(");
            let mut i: usize = 0;
            while i < terms.len()
                invariant
                    *term == Term::App(*terms),
                    i <= terms@.len(),
                    ts == terms_view(terms@),
                    ts.len() == terms@.len(),
                    text@ == seq!['('] + list_text(ts.take(i as int)),
                decreases terms@.len() - i,
            {
                proof {
                    reveal_strlit(" ");
                    lemma_terms_view(terms@);
                }
                if i > 0 {
                    text.append(" ");
                }
                proof {
                    assert(decreases_to!(*term => term->App_0));
                    assert(decreases_to!(*terms => terms@));
                    assert(decreases_to!(terms@ => terms@[i as int]));
                    assert(decreases_to!(*term => terms@[i as int]));
                }
                let part = show_term(&terms[i]);
                text.append(part.as_str());
                proof {
                    let prefix = ts.take(i + 1);
                    assert(prefix.drop_last() =~= ts.take(i as int));
                    assert(prefix.last() == ts[i as int]);
                    assert(prefix[0] == ts[0]);
                    if i == 0 {
                        assert(ts.take(0) =~= Seq::<TermV>::empty());
                    }
                }
                i = i + 1;
            }
            text.append(")");
            assert(ts.take(i as int) =~= ts);
            text
        },
    }
}


/// Parts separated by `sep`.
pub open spec fn join(parts: Seq<Seq<char>>, sep: Seq<char>) -> Seq<char>
    decreases parts.len(),
{
    if parts.len() == 0 {
        Seq::empty()
    } else if parts.len() == 1 {
        parts[0]
    } else {
        join(parts.drop_last(), sep) + sep + parts.last()
    }
}

/// The surface text of a definition: `name params = term;`.
pub open spec fn def_text(d: Def) -> Seq<char> {
    let ps = names_view(d.params@);
    d.name@ + (if ps.len() == 0 {
        Seq::empty()
    } else {
        seq![' '] + join(ps, seq![' '])
    }) + seq![' ', '=', ' '] + term_text(d.term@) + seq![';']
}

/// The surface text of a program: its definitions, one per line.
pub open spec fn program_text(prog: Seq<Def>) -> Seq<char> {
    join(prog.map_values(|d: Def| def_text(d)), seq!['\n'])
}

fn show_def(def: &Def) -> (r: String)
    ensures
        r@ == def_text(*def),
{
    let ghost ps = names_view(def.params@);
    let mut text = def.name.clone();
    let mut i: usize = 0;
    assert(ps.take(0) =~= Seq::<Seq<char>>::empty());
    while i < def.params.len()
        invariant
            i <= def.params@.len(),
            ps == names_view(def.params@),
            ps.len() == def.params@.len(),
            text@ == def.name@ + (if i == 0 {
                Seq::empty()
            } else {
                seq![' '] + join(ps.take(i as int), seq![' '])
            }),
        decreases def.params@.len() - i,
    {
        proof {
            reveal_strlit(" ");
        }
        text.append(" ");
        text.append(def.params[i].as_str());
        proof {
            let prefix = ps.take(i + 1);
            assert(prefix.drop_last() =~= ps.take(i as int));
            assert(prefix.last() == def.params@[i as int]@);
            if i == 0 {
                assert(prefix[0] == def.params@[0]@);
            }
            assert(text@ =~= def.name@ + (seq![' '] + join(ps.take(i + 1), seq![' '])));
        }
        i = i + 1;
    }
    assert(ps.take(i as int) =~= ps);
    proof {
        reveal_strlit(" = ");
        reveal_strlit(";");
    }
    text.append(" = ");
    let body = show_term(&def.term);
    text.append(body.as_str());
    text.append(";");
    assert(text@ =~= def_text(*def));
    text
}

/// Renders a program, one definition per line.
pub fn show_program(prog: &Program) -> (r: String)
    ensures
        r@ == program_text(prog@),
{
    let ghost parts = prog@.map_values(|d: Def| def_text(d));
    let mut text = String::new();
    let mut i: usize = 0;
    assert(parts.take(0) =~= Seq::<Seq<char>>::empty());
    while i < prog.len()
        invariant
            i <= prog@.len(),
            parts == prog@.map_values(|d: Def| def_text(d)),
            parts.len() == prog@.len(),
            text@ == join(parts.take(i as int), seq!['\n']),
        decreases prog@.len() - i,
    {
        proof {
            reveal_strlit("\n");
        }
        if i > 0 {
            text.append("\n");
        }
        let line = show_def(&prog[i]);
        text.append(line.as_str());
        proof {
            let prefix = parts.take(i + 1);
            assert(prefix.drop_last() =~= parts.take(i as int));
            assert(prefix.last() == parts[i as int]);
            if i == 0 {
                assert(prefix[0] == parts[0]);
            }
            assert(text@ =~= join(parts.take(i + 1), seq!['\n']));
        }
        i = i + 1;
    }
    assert(parts.take(i as int) =~= parts);
    text
}

} // verus!
