use vstd::prelude::*;
use vstd::string::*;
use crate::text::{push_char, same_name};

verus! {

/// A name of a variable or a binder.
pub type Name = String;

/// A lambda-calculus term.
#[derive(Debug)]
pub enum Term {
    Var(Name),
    Abstraction(Name, Box<Term>),
    Application(Box<Term>, Box<Term>),
}

/// An entry of a program: a named definition, or a term to normalise.
#[derive(Debug)]
pub enum TermOrDef {
    Definition(Name, Term),
    Term(Term),
}

/// A program: its entries in order.
#[derive(Debug)]
pub struct Program(pub Vec<TermOrDef>);

/// The mathematical model of a term: names are sequences of characters.
pub enum STerm {
    Var(Seq<char>),
    Abs(Seq<char>, Box<STerm>),
    App(Box<STerm>, Box<STerm>),
}

impl View for Term {
    type V = STerm;

    open spec fn view(&self) -> STerm
        decreases self,
    {
        match self {
            Term::Var(n) => STerm::Var(n@),
            Term::Abstraction(p, b) => STerm::Abs(p@, Box::new((**b).view())),
            Term::Application(l, r) => STerm::App(Box::new((**l).view()), Box::new((**r).view())),
        }
    }
}

/// A term in de Bruijn form: a bound variable is the number of binders between it and
/// its own binder, so that alpha-equivalent terms have the same form.
pub enum DTerm {
    Free(Seq<char>),
    Bound(nat),
    Lam(Box<DTerm>),
    App(Box<DTerm>, Box<DTerm>),
}

/// The position of the innermost binder named `x` in the scope `c` (innermost last).
pub open spec fn find(c: Seq<Seq<char>>, x: Seq<char>) -> Option<int>
    decreases c.len(),
{
    if c.len() == 0 {
        None
    } else if c.last() == x {
        Some(c.len() - 1)
    } else {
        find(c.drop_last(), x)
    }
}

/// The de Bruijn form of `t` under the binders `c` (innermost last).
pub open spec fn to_db(t: STerm, c: Seq<Seq<char>>) -> DTerm
    decreases t,
{
    match t {
        STerm::Var(x) => match find(c, x) {
            Some(j) => DTerm::Bound((c.len() - 1 - j) as nat),
            None => DTerm::Free(x),
        },
        STerm::Abs(p, b) => DTerm::Lam(Box::new(to_db(*b, c.push(p)))),
        STerm::App(l, r) => DTerm::App(Box::new(to_db(*l, c)), Box::new(to_db(*r, c))),
    }
}

/// `t` and `u` differ only in the names of their bound variables.
pub open spec fn alpha_eq(t: STerm, u: STerm) -> bool {
    to_db(t, Seq::empty()) == to_db(u, Seq::empty())
}

/// `x` occurs free in `t`.
pub open spec fn free_in(t: STerm, x: Seq<char>) -> bool
    decreases t,
{
    match t {
        STerm::Var(n) => n == x,
        STerm::Abs(p, b) => p != x && free_in(*b, x),
        STerm::App(l, r) => free_in(*l, x) || free_in(*r, x),
    }
}

/// `x` occurs in `t`, as a variable or as a binder.
pub open spec fn used_in(t: STerm, x: Seq<char>) -> bool
    decreases t,
{
    match t {
        STerm::Var(n) => n == x,
        STerm::Abs(p, b) => p == x || used_in(*b, x),
        STerm::App(l, r) => used_in(*l, x) || used_in(*r, x),
    }
}

/// The number of abstractions in `t`.
pub open spec fn binders(t: STerm) -> nat
    decreases t,
{
    match t {
        STerm::Var(_) => 0,
        STerm::Abs(_, b) => 1 + binders(*b),
        STerm::App(l, r) => binders(*l) + binders(*r),
    }
}

/// The number of abstractions in a de Bruijn term.
pub open spec fn db_binders(d: DTerm) -> nat
    decreases d,
{
    match d {
        DTerm::Lam(b) => 1 + db_binders(*b),
        DTerm::App(l, r) => db_binders(*l) + db_binders(*r),
        _ => 0,
    }
}

/// `x` is at most the largest value of a `u64`.
pub open spec fn sat(x: int) -> int {
    if x > u64::MAX {
        u64::MAX as int
    } else {
        x
    }
}

/// The number of abstractions in `t`, held at the largest value of a `u64`.
pub open spec fn count(t: STerm) -> int {
    sat(binders(t) as int)
}

/// The de Bruijn form keeps the number of abstractions.
pub proof fn lemma_db_binders(t: STerm, c: Seq<Seq<char>>)
    ensures
        db_binders(to_db(t, c)) == binders(t),
    decreases t,
{
    match t {
        STerm::Var(_) => {},
        STerm::Abs(p, b) => lemma_db_binders(*b, c.push(p)),
        STerm::App(l, r) => {
            lemma_db_binders(*l, c);
            lemma_db_binders(*r, c);
        },
    }
}

/// Adding a binder to a scope: the new name is found first.
pub proof fn lemma_find_push(c: Seq<Seq<char>>, a: Seq<char>, x: Seq<char>)
    ensures
        find(c.push(a), x) == if a == x {
            Some(c.len() as int)
        } else {
            find(c, x)
        },
{
    assert(c.push(a).drop_last() =~= c);
}

/// Whether `var` occurs free in `term`.
pub fn is_free(term: &Term, var: &str) -> (r: bool)
    ensures
        r == free_in(term@, var@),
    decreases term,
{
    match term {
        Term::Var(n) => same_name(n.as_str(), var),
        Term::Abstraction(p, b) => !same_name(p.as_str(), var) && is_free(b, var),
        Term::Application(l, r) => is_free(l, var) || is_free(r, var),
    }
}

/// Whether `var` occurs in `term`, as a variable or as a binder.
pub fn is_used(term: &Term, var: &str) -> (r: bool)
    ensures
        r == used_in(term@, var@),
    decreases term,
{
    match term {
        Term::Var(n) => same_name(n.as_str(), var),
        Term::Abstraction(p, b) => same_name(p.as_str(), var) || is_used(b, var),
        Term::Application(l, r) => is_used(l, var) || is_used(r, var),
    }
}

/// The number of abstractions in `term`, held at `u64::MAX`.
pub fn count_max_binders(term: &Term) -> (r: u64)
    ensures
        r == count(term@),
    decreases term,
{
    match term {
        Term::Var(_) => 0,
        Term::Abstraction(_, b) => count_max_binders(b).saturating_add(1),
        Term::Application(l, r) => count_max_binders(l).saturating_add(count_max_binders(r)),
    }
}

/// Whether two terms are equal in shape and names.
pub fn term_eq(a: &Term, b: &Term) -> (r: bool)
    ensures
        r == (a@ == b@),
    decreases a,
{
    match (a, b) {
        (Term::Var(x), Term::Var(y)) => same_name(x.as_str(), y.as_str()),
        (Term::Abstraction(p, b1), Term::Abstraction(q, b2)) => same_name(p.as_str(), q.as_str())
            && term_eq(b1, b2),
        (Term::Application(l1, r1), Term::Application(l2, r2)) => term_eq(l1, l2) && term_eq(r1, r2),
        _ => false,
    }
}

impl Clone for Term {
    fn clone(&self) -> Term {
        self.copy()
    }
}

impl Clone for TermOrDef {
    fn clone(&self) -> TermOrDef {
        match self {
            TermOrDef::Definition(n, t) => TermOrDef::Definition(n.clone(), t.copy()),
            TermOrDef::Term(t) => TermOrDef::Term(t.copy()),
        }
    }
}

impl PartialEq for Term {
    fn eq(&self, other: &Term) -> (r: bool) {
        term_eq(self, other)
    }
}

impl vstd::std_specs::cmp::PartialEqSpecImpl for Term {
    open spec fn obeys_eq_spec() -> bool {
        true
    }

    open spec fn eq_spec(&self, other: &Term) -> bool {
        self@ == other@
    }
}

impl PartialEq for TermOrDef {
    fn eq(&self, other: &TermOrDef) -> (r: bool) {
        match (self, other) {
            (TermOrDef::Definition(n1, t1), TermOrDef::Definition(n2, t2)) => same_name(n1.as_str(), n2.as_str())
                && term_eq(t1, t2),
            (TermOrDef::Term(t1), TermOrDef::Term(t2)) => term_eq(t1, t2),
            _ => false,
        }
    }
}

impl vstd::std_specs::cmp::PartialEqSpecImpl for TermOrDef {
    open spec fn obeys_eq_spec() -> bool {
        true
    }

    open spec fn eq_spec(&self, other: &TermOrDef) -> bool {
        match (self, other) {
            (TermOrDef::Definition(n1, t1), TermOrDef::Definition(n2, t2)) => n1@ == n2@ && t1@ == t2@,
            (TermOrDef::Term(t1), TermOrDef::Term(t2)) => t1@ == t2@,
            _ => false,
        }
    }
}

/// The text of a term: a variable is its name, an abstraction `(λp.body)`, an
/// application `(left right)`.
pub open spec fn show(t: STerm) -> Seq<char>
    decreases t,
{
    match t {
        STerm::Var(n) => n,
        STerm::Abs(p, b) => seq!['(', 'λ'] + p + seq!['.'] + show(*b) + seq![')'],
        STerm::App(l, r) => seq!['('] + show(*l) + seq![' '] + show(*r) + seq![')'],
    }
}

/// Appends the text of `t` to `out`.
fn write_term(t: &Term, out: &mut String)
    ensures
        final(out)@ == old(out)@ + show(t@),
    decreases t,
{
    let ghost o = out@;
    match t {
        Term::Var(n) => {
            out.append(n.as_str());
        },
        Term::Abstraction(p, b) => {
            push_char(out, '(');
            push_char(out, 'λ');
            out.append(p.as_str());
            push_char(out, '.');
            write_term(b, out);
            push_char(out, ')');
            assert(out@ =~= o + show(t@));
        },
        Term::Application(l, r) => {
            push_char(out, '(');
            write_term(l, out);
            push_char(out, ' ');
            write_term(r, out);
            push_char(out, ')');
            assert(out@ =~= o + show(t@));
        },
    }
}

impl TermOrDef {
    /// The text of the entry: `name := term` for a definition, the term's text otherwise.
    pub fn to_string(&self) -> (r: String)
        ensures
            r@ == entry_text(*self),
    {
        let mut out = String::new();
        match self {
            TermOrDef::Definition(n, t) => {
                out.append(n.as_str());
                push_char(&mut out, ' ');
                push_char(&mut out, ':');
                push_char(&mut out, '=');
                push_char(&mut out, ' ');
                write_term(t, &mut out);
            },
            TermOrDef::Term(t) => {
                write_term(t, &mut out);
            },
        }
        assert(out@ =~= (match self {
            TermOrDef::Definition(n, t) => n@ + seq![' ', ':', '=', ' '] + show(t@),
            TermOrDef::Term(t) => show(t@),
        }));
        out
    }
}

/// The text of an entry.
pub open spec fn entry_text(e: TermOrDef) -> Seq<char> {
    match e {
        TermOrDef::Definition(n, t) => n@ + seq![' ', ':', '=', ' '] + show(t@),
        TermOrDef::Term(t) => show(t@),
    }
}

/// The text of a sequence of entries: each entry's text and a line break.
pub open spec fn entries_text(es: Seq<TermOrDef>) -> Seq<char>
    decreases es.len(),
{
    if es.len() == 0 {
        Seq::empty()
    } else {
        entries_text(es.drop_last()) + entry_text(es.last()) + seq!['\n']
    }
}

impl Program {
    /// The text of the program: each entry on a line of its own.
    pub fn to_string(&self) -> (r: String)
        ensures
            r@ == entries_text(self.0@),
    {
        let mut out = String::new();
        let mut i: usize = 0;
        while i < self.0.len()
            invariant
                i <= self.0@.len(),
                out@ == entries_text(self.0@.subrange(0, i as int)),
            decreases self.0@.len() - i,
        {
            let line = self.0[i].to_string();
            out.append(line.as_str());
            push_char(&mut out, '\n');
            assert(self.0@.subrange(0, i + 1).drop_last() =~= self.0@.subrange(0, i as int));
            i += 1;
        }
        assert(self.0@.subrange(0, self.0@.len() as int) =~= self.0@);
        out
    }
}

impl Term {
    /// The text of the term.
    pub fn to_string(&self) -> (r: String)
        ensures
            r@ == show(self@),
    {
        let mut out = String::new();
        write_term(self, &mut out);
        assert(out@ =~= show(self@));
        out
    }

    /// A copy of the term.
    pub fn copy(&self) -> (r: Term)
        ensures
            r@ == self@,
        decreases self,
    {
        match self {
            Term::Var(n) => Term::Var(n.clone()),
            Term::Abstraction(p, b) => Term::Abstraction(p.clone(), Box::new(b.copy())),
            Term::Application(l, r) => Term::Application(Box::new(l.copy()), Box::new(r.copy())),
        }
    }
}

} // verus!
