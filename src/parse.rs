use vstd::prelude::*;
use vstd::std_specs::iter::IteratorSpec;

use crate::term::{names_view, terms_view, Def, Program, Term, TermV};

verus! {

/// Relies on `String::push`, which appends one character.
pub assume_specification[ String::push ](s: &mut String, ch: char)
    ensures
        final(s)@ == old(s)@.push(ch),
;

fn chars_of(s: &str) -> (r: Vec<char>)
    ensures
        r@ == s@,
{
    broadcast use vstd::string::group_string_axioms;

    let n = s.unicode_len();
    let mut it = s.chars();
    let mut out: Vec<char> = Vec::new();
    while out.len() < n
        invariant
            n == s@.len(),
            out@ + it.remaining() == s@,
        ensures
            out@ == s@,
        decreases n - out@.len(),
    {
        let ghost before = it.remaining();
        match it.next() {
            Some(c) => {
                out.push(c);
                assert(out@ + it.remaining() =~= s@);
            },
            None => {
                assert(out@ =~= s@);
                break;
            },
        }
    }
    out
}


/// Whitespace between tokens.
pub open spec fn is_space(c: char) -> bool {
    c == ' ' || c == '\t' || c == '\r' || c == '\n'
}

/// A character of an identifier: an ASCII letter or digit.
pub open spec fn is_ident_char(c: char) -> bool {
    ('a' <= c && c <= 'z') || ('A' <= c && c <= 'Z') || ('0' <= c && c <= '9')
}

/// Whether `s[i]` and `s[i + 1]` are `a` and `b`.
pub open spec fn pair_at(s: Seq<char>, i: int, a: char, b: char) -> bool {
    0 <= i && i + 1 < s.len() && s[i] == a && s[i + 1] == b
}

/// The position of the first line break at or after `i`, or the end.
pub open spec fn line_end(s: Seq<char>, i: int) -> int
    decreases s.len() - i,
{
    if i >= s.len() {
        s.len() as int
    } else if s[i] == '\n' {
        i
    } else {
        line_end(s, i + 1)
    }
}

/// The position of the first `*/` at or after `i`.
pub open spec fn close_at(s: Seq<char>, i: int) -> Option<int>
    decreases s.len() - i,
{
    if i + 1 >= s.len() {
        None
    } else if s[i] == '*' && s[i + 1] == '/' {
        Some(i)
    } else {
        close_at(s, i + 1)
    }
}

/// The position after the whitespace, line comments (`--` to the end of the
/// line) and block comments (`/*` to the next `*/`) that start at `i`.
pub open spec fn junk(s: Seq<char>, i: int) -> int
    decreases s.len() - i,
{
    if i < 0 || i >= s.len() {
        i
    } else if is_space(s[i]) {
        junk(s, i + 1)
    } else if pair_at(s, i, '-', '-') {
        let e = line_end(s, i + 2);
        if i < e <= s.len() {
            junk(s, e)
        } else {
            i
        }
    } else if pair_at(s, i, '/', '*') {
        match close_at(s, i + 2) {
            Some(j) => if i < j + 2 <= s.len() {
                junk(s, j + 2)
            } else {
                i
            },
            None => i,
        }
    } else {
        i
    }
}

/// The end of the run of identifier characters that starts at `i`.
pub open spec fn ident_end(s: Seq<char>, i: int) -> int
    decreases s.len() - i,
{
    if 0 <= i < s.len() && is_ident_char(s[i]) {
        ident_end(s, i + 1)
    } else {
        i
    }
}

/// An atom at `i`: a parenthesised term or a variable, and the position
/// after it.
pub open spec fn atom(s: Seq<char>, i: int) -> Option<(TermV, int)>
    decreases s.len() - i, 0int,
{
    if i < 0 || i >= s.len() {
        None
    } else if s[i] == '(' {
        let a = junk(s, i + 1);
        if i < a <= s.len() {
            match term(s, a) {
                None => None,
                Some((t, b)) => {
                    let c = junk(s, b);
                    if 0 <= c < s.len() && s[c] == ')' {
                        Some((t, c + 1))
                    } else {
                        None
                    }
                },
            }
        } else {
            None
        }
    } else {
        let e = ident_end(s, i);
        if e > i {
            Some((TermV::Var(s.subrange(i, e)), e))
        } else {
            None
        }
    }
}

/// The atoms at `i`, each followed by junk, and the position after them.
pub open spec fn atoms(s: Seq<char>, i: int) -> (Seq<TermV>, int)
    decreases s.len() - i, 1int,
{
    if i < 0 || i > s.len() {
        (Seq::empty(), i)
    } else {
        match atom(s, i) {
            None => (Seq::empty(), i),
            Some((t, j)) => {
                let k = junk(s, j);
                if i < k <= s.len() {
                    let (more, p) = atoms(s, k);
                    (seq![t] + more, p)
                } else {
                    (seq![t], k)
                }
            },
        }
    }
}

/// A term at `i`: two or more atoms form an application, else a single atom.
pub open spec fn term(s: Seq<char>, i: int) -> Option<(TermV, int)>
    decreases s.len() - i, 2int,
{
    if i < 0 || i > s.len() {
        None
    } else {
        let (ts, p) = atoms(s, i);
        if ts.len() >= 2 {
            Some((TermV::App(ts), p))
        } else {
            atom(s, i)
        }
    }
}

/// The identifiers at `i`, each followed by junk, and the position after them.
pub open spec fn idents(s: Seq<char>, i: int) -> (Seq<Seq<char>>, int)
    decreases s.len() - i,
{
    let e = ident_end(s, i);
    if 0 <= i < e <= s.len() {
        let k = junk(s, e);
        if e <= k <= s.len() {
            let (more, p) = idents(s, k);
            (seq![s.subrange(i, e)] + more, p)
        } else {
            (seq![s.subrange(i, e)], k)
        }
    } else {
        (Seq::empty(), i)
    }
}

/// The value of a definition.
pub struct DefV {
    pub name: Seq<char>,
    pub params: Seq<Seq<char>>,
    pub term: TermV,
}

pub open spec fn def_view(d: Def) -> DefV {
    DefV { name: d.name@, params: names_view(d.params@), term: d.term@ }
}

/// A definition `name params = term;` at `i`, and the position after it.
pub open spec fn definition(s: Seq<char>, i: int) -> Option<(DefV, int)> {
    let e = ident_end(s, i);
    if !(0 <= i < e <= s.len()) {
        None
    } else {
        let a = junk(s, e);
        let (ps, b) = idents(s, a);
        let c = junk(s, b);
        if 0 <= c < s.len() && s[c] == '=' {
            let d = junk(s, c + 1);
            match term(s, d) {
                None => None,
                Some((t, f)) => {
                    let g = junk(s, f);
                    if 0 <= g < s.len() && s[g] == ';' {
                        Some((DefV { name: s.subrange(i, e), params: ps, term: t }, g + 1))
                    } else {
                        None
                    }
                },
            }
        } else {
            None
        }
    }
}

/// The definitions at `i`, each followed by junk, and the position after them.
pub open spec fn definitions(s: Seq<char>, i: int) -> (Seq<DefV>, int)
    decreases s.len() - i,
{
    if i < 0 || i > s.len() {
        (Seq::empty(), i)
    } else {
        match definition(s, i) {
            None => (Seq::empty(), i),
            Some((d, j)) => {
                let k = junk(s, j);
                if i < k <= s.len() {
                    let (more, p) = definitions(s, k);
                    (seq![d] + more, p)
                } else {
                    (seq![d], k)
                }
            },
        }
    }
}

/// The definitions of a program text, when the whole text is junk and
/// definitions.
pub open spec fn program(s: Seq<char>) -> Option<Seq<DefV>> {
    let (ds, p) = definitions(s, junk(s, 0));
    if p == s.len() {
        Some(ds)
    } else {
        None
    }
}


fn find_line_end(s: &Vec<char>, i: usize) -> (r: usize)
    requires
        i <= s@.len(),
    ensures
        r as int == line_end(s@, i as int),
{
    let mut p = i;
    while p < s.len() && s[p] != '\n'
        invariant
            i <= p <= s@.len(),
            line_end(s@, i as int) == line_end(s@, p as int),
        decreases s@.len() - p,
    {
        p = p + 1;
    }
    p
}

fn find_close(s: &Vec<char>, i: usize) -> (r: Option<usize>)
    requires
        i <= s@.len(),
    ensures
        close_at(s@, i as int) == match r {
            Some(j) => Some(j as int),
            None => None::<int>,
        },
        r matches Some(j) ==> j + 1 < s@.len(),
{
    let mut p = i;
    while s.len() > 1 && p < s.len() - 1
        invariant
            i <= p <= s@.len(),
            close_at(s@, i as int) == close_at(s@, p as int),
        decreases s@.len() - p,
    {
        if s[p] == '*' && s[p + 1] == '/' {
            return Some(p);
        }
        p = p + 1;
    }
    None
}

fn skip_junk(s: &Vec<char>, i: usize) -> (r: usize)
    requires
        i <= s@.len(),
    ensures
        r as int == junk(s@, i as int),
        i <= r <= s@.len(),
{
    let mut p = i;
    loop
        invariant
            i <= p <= s@.len(),
            junk(s@, i as int) == junk(s@, p as int),
        decreases s@.len() - p,
    {
        if p >= s.len() {
            return p;
        }
        let c = s[p];
        if c == ' ' || c == '\t' || c == '\r' || c == '\n' {
            p = p + 1;
        } else if c == '-' && p + 1 < s.len() && s[p + 1] == '-' {
            let e = find_line_end(s, p + 2);
            if p < e && e <= s.len() {
                p = e;
            } else {
                return p;
            }
        } else if c == '/' && p + 1 < s.len() && s[p + 1] == '*' {
            match find_close(s, p + 2) {
                Some(j) => {
                    if p < j + 2 && j + 2 <= s.len() {
                        p = j + 2;
                    } else {
                        return p;
                    }
                },
                None => {
                    return p;
                },
            }
        } else {
            return p;
        }
    }
}

fn find_ident_end(s: &Vec<char>, i: usize) -> (r: usize)
    requires
        i <= s@.len(),
    ensures
        r as int == ident_end(s@, i as int),
        i <= r <= s@.len(),
{
    let mut p = i;
    while p < s.len() && (('a' <= s[p] && s[p] <= 'z') || ('A' <= s[p] && s[p] <= 'Z') || ('0' <= s[p] && s[p] <= '9'))
        invariant
            i <= p <= s@.len(),
            ident_end(s@, i as int) == ident_end(s@, p as int),
        decreases s@.len() - p,
    {
        p = p + 1;
    }
    p
}

/// The characters `s[i..e]` as a string.
fn make_string(s: &Vec<char>, i: usize, e: usize) -> (r: String)
    requires
        i <= e <= s@.len(),
    ensures
        r@ == s@.subrange(i as int, e as int),
{
    let mut text = String::new();
    let mut p = i;
    while p < e
        invariant
            i <= p <= e <= s@.len(),
            text@ == s@.subrange(i as int, p as int),
        decreases e - p,
    {
        text.push(s[p]);
        p = p + 1;
        assert(text@ =~= s@.subrange(i as int, p as int));
    }
    text
}

fn parse_atom(s: &Vec<char>, i: usize) -> (r: Option<(Term, usize)>)
    requires
        i <= s@.len(),
    ensures
        atom(s@, i as int) == match r {
            Some((t, j)) => Some((t@, j as int)),
            None => None::<(TermV, int)>,
        },
        r matches Some((_, j)) ==> j <= s@.len(),
    decreases s@.len() - i, 0int,
{
    if i >= s.len() {
        return None;
    }
    if s[i] == '(' {
        let a = skip_junk(s, i + 1);
        if !(i < a && a <= s.len()) {
            return None;
        }
        match parse_term(s, a) {
            None => None,
            Some((t, b)) => {
                let c = skip_junk(s, b);
                if c < s.len() && s[c] == ')' {
                    Some((t, c + 1))
                } else {
                    None
                }
            },
        }
    } else {
        let e = find_ident_end(s, i);
        if e > i {
            Some((Term::Var(make_string(s, i, e)), e))
        } else {
            None
        }
    }
}

fn parse_atoms(s: &Vec<char>, i: usize) -> (r: (Vec<Term>, usize))
    requires
        i <= s@.len(),
    ensures
        atoms(s@, i as int) == (terms_view(r.0@), r.1 as int),
        r.1 <= s@.len(),
    decreases s@.len() - i, 1int,
{
    let mut out: Vec<Term> = Vec::new();
    let mut k = i;
    assert(terms_view(out@) =~= Seq::<TermV>::empty());
    loop
        invariant
            i <= k <= s@.len(),
            atoms(s@, i as int) == (terms_view(out@) + atoms(s@, k as int).0, atoms(s@, k as int).1),
        decreases s@.len() - k,
    {
        let ghost acc = terms_view(out@);
        let ghost old_out = out@;
        match parse_atom(s, k) {
            None => {
                assert(acc + Seq::<TermV>::empty() =~= acc);
                return (out, k);
            },
            Some((t, j)) => {
                let k2 = skip_junk(s, j);
                let ghost tv = t@;
                out.push(t);
                assert(out@.drop_last() =~= old_out);
                assert(terms_view(out@) == acc.push(tv));
                if k < k2 && k2 <= s.len() {
                    let ghost rest = atoms(s@, k2 as int);
                    assert(acc + (seq![tv] + rest.0) =~= acc.push(tv) + rest.0);
                    k = k2;
                } else {
                    assert(acc + seq![tv] =~= acc.push(tv));
                    return (out, k2);
                }
            },
        }
    }
}

fn parse_term(s: &Vec<char>, i: usize) -> (r: Option<(Term, usize)>)
    requires
        i <= s@.len(),
    ensures
        term(s@, i as int) == match r {
            Some((t, j)) => Some((t@, j as int)),
            None => None::<(TermV, int)>,
        },
        r matches Some((_, j)) ==> j <= s@.len(),
    decreases s@.len() - i, 2int,
{
    let (terms, p) = parse_atoms(s, i);
    if terms.len() >= 2 {
        proof {
            crate::term::lemma_terms_view(terms@);
        }
        Some((Term::App(terms), p))
    } else {
        proof {
            crate::term::lemma_terms_view(terms@);
        }
        parse_atom(s, i)
    }
}


fn parse_idents(s: &Vec<char>, i: usize) -> (r: (Vec<String>, usize))
    requires
        i <= s@.len(),
    ensures
        idents(s@, i as int) == (names_view(r.0@), r.1 as int),
        r.1 <= s@.len(),
{
    let mut out: Vec<String> = Vec::new();
    let mut k = i;
    assert(names_view(out@) =~= Seq::<Seq<char>>::empty());
    loop
        invariant
            k <= s@.len(),
            idents(s@, i as int) == (names_view(out@) + idents(s@, k as int).0, idents(s@, k as int).1),
        decreases s@.len() - k,
    {
        let ghost acc = names_view(out@);
        let e = find_ident_end(s, k);
        if !(k < e) {
            assert(acc + Seq::<Seq<char>>::empty() =~= acc);
            return (out, k);
        }
        let name = make_string(s, k, e);
        let ghost nv = name@;
        out.push(name);
        assert(names_view(out@) =~= acc.push(nv));
        let k2 = skip_junk(s, e);
        let ghost rest = idents(s@, k2 as int);
        assert(acc + (seq![nv] + rest.0) =~= acc.push(nv) + rest.0);
        k = k2;
    }
}

fn parse_def(s: &Vec<char>, i: usize) -> (r: Option<(Def, usize)>)
    requires
        i <= s@.len(),
    ensures
        definition(s@, i as int) == match r {
            Some((d, j)) => Some((def_view(d), j as int)),
            None => None::<(DefV, int)>,
        },
        r matches Some((_, j)) ==> j <= s@.len(),
{
    let e = find_ident_end(s, i);
    if !(i < e) {
        return None;
    }
    let a = skip_junk(s, e);
    let (params, b) = parse_idents(s, a);
    let c = skip_junk(s, b);
    if !(c < s.len() && s[c] == '=') {
        return None;
    }
    let d = skip_junk(s, c + 1);
    match parse_term(s, d) {
        None => None,
        Some((term, f)) => {
            let g = skip_junk(s, f);
            if g < s.len() && s[g] == ';' {
                let name = make_string(s, i, e);
                Some((Def { name, params, term }, g + 1))
            } else {
                None
            }
        },
    }
}

/// The views of the definitions of a program.
pub open spec fn program_view(prog: Seq<Def>) -> Seq<DefV> {
    prog.map_values(|d: Def| def_view(d))
}

fn parse_defs(s: &Vec<char>, i: usize) -> (r: (Program, usize))
    requires
        i <= s@.len(),
    ensures
        definitions(s@, i as int) == (program_view(r.0@), r.1 as int),
        r.1 <= s@.len(),
{
    let mut out: Program = Vec::new();
    let mut k = i;
    assert(program_view(out@) =~= Seq::<DefV>::empty());
    loop
        invariant
            i <= k <= s@.len(),
            definitions(s@, i as int) == (program_view(out@) + definitions(s@, k as int).0, definitions(s@, k as int).1),
        decreases s@.len() - k,
    {
        let ghost acc = program_view(out@);
        match parse_def(s, k) {
            None => {
                assert(acc + Seq::<DefV>::empty() =~= acc);
                return (out, k);
            },
            Some((d, j)) => {
                let k2 = skip_junk(s, j);
                let ghost dv = def_view(d);
                out.push(d);
                assert(program_view(out@) =~= acc.push(dv));
                if k < k2 && k2 <= s.len() {
                    let ghost rest = definitions(s@, k2 as int);
                    assert(acc + (seq![dv] + rest.0) =~= acc.push(dv) + rest.0);
                    k = k2;
                } else {
                    assert(acc + seq![dv] =~= acc.push(dv));
                    return (out, k2);
                }
            },
        }
    }
}

/// The message of a text that is not a program: the input from where the
/// definitions stop.
pub open spec fn parse_error_text(s: Seq<char>) -> Seq<char> {
    let p = definitions(s, junk(s, 0)).1;
    "Parsing Error: unexpected input: "@ + s.subrange(p, s.len() as int)
}

/// Parses a program: junk, then definitions each followed by junk, to the
/// end of the text.
pub fn parse_program(input: &str) -> (r: Result<Program, String>)
    ensures
        r is Ok <==> program(input@) is Some,
        r matches Ok(prog) ==> program(input@) == Some(program_view(prog@)),
        r matches Err(e) ==> e@ == parse_error_text(input@),
{
    let s = chars_of(input);
    let a = skip_junk(&s, 0);
    let (prog, p) = parse_defs(&s, a);
    if p == s.len() {
        Ok(prog)
    } else {
        let mut text = String::from_str("Parsing Error: unexpected input: ");
        let rest = make_string(&s, p, s.len());
        text.append(rest.as_str());
        Err(text)
    }
}

} // verus!
