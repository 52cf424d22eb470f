use vstd::prelude::*;
use crate::term::{Program, STerm, Term, TermOrDef};
use vstd::string::*;
use crate::text::push_char;

verus! {

/// A character that may stand in an identifier.
pub open spec fn is_ident_char(c: char) -> bool {
    c == '_' || ('a' <= c && c <= 'z') || ('A' <= c && c <= 'Z') || ('0' <= c && c <= '9')
}

/// A space or a tab.
pub open spec fn is_space(c: char) -> bool {
    c == ' ' || c == '\t'
}

/// A space, a tab, or a line break.
pub open spec fn is_multispace(c: char) -> bool {
    is_space(c) || c == '\r' || c == '\n'
}

/// `s[i]` exists and is `c`.
pub open spec fn at(s: Seq<char>, i: int, c: char) -> bool {
    0 <= i < s.len() && s[i] == c
}

/// The position after the spaces and tabs that start at `i`.
pub open spec fn skip_sp(s: Seq<char>, i: int) -> int
    decreases s.len() - i,
{
    if 0 <= i < s.len() && is_space(s[i]) {
        skip_sp(s, i + 1)
    } else {
        i
    }
}

/// The position after the white space, line breaks included, that starts at `i`.
pub open spec fn skip_ms(s: Seq<char>, i: int) -> int
    decreases s.len() - i,
{
    if 0 <= i < s.len() && is_multispace(s[i]) {
        skip_ms(s, i + 1)
    } else {
        i
    }
}

/// The position after the identifier characters that start at `i`.
pub open spec fn ident_end(s: Seq<char>, i: int) -> int
    decreases s.len() - i,
{
    if 0 <= i < s.len() && is_ident_char(s[i]) {
        ident_end(s, i + 1)
    } else {
        i
    }
}

/// An identifier at `i`: the longest run of identifier characters, at least one.
pub open spec fn ident_spec(s: Seq<char>, i: int) -> Option<(int, Seq<char>)> {
    if 0 <= i < s.len() && is_ident_char(s[i]) {
        Some((ident_end(s, i), s.subrange(i, ident_end(s, i))))
    } else {
        None
    }
}

/// A term in parentheses at `i`, spaces around each parenthesis allowed.
pub open spec fn paren_spec(s: Seq<char>, i: int) -> Option<(int, STerm)>
    decreases s.len() - i, 1int,
    via paren_decreases
{
    if i < 0 || i > s.len() {
        None
    } else {
        let a = skip_sp(s, i);
        let b = skip_sp(s, a + 1);
        if !at(s, a, '(') {
            None
        } else {
            match raw_spec(s, b) {
                Some((c, t)) => {
                    let d = skip_sp(s, c);
                    if at(s, d, ')') {
                        Some((skip_sp(s, d + 1), t))
                    } else {
                        None
                    }
                },
                None => None,
            }
        }
    }
}

/// An abstraction at `i`: `\` or `λ`, a parameter, `.` and a body, with spaces between.
pub open spec fn abs_spec(s: Seq<char>, i: int) -> Option<(int, STerm)>
    decreases s.len() - i, 1int,
    via abs_decreases
{
    if i < 0 || i > s.len() {
        None
    } else {
        let a = skip_sp(s, i);
        if !(at(s, a, '\\') || at(s, a, 'λ')) {
            None
        } else {
            match ident_spec(s, skip_sp(s, a + 1)) {
                Some((b, p)) => {
                    let c = skip_sp(s, b);
                    let d = skip_sp(s, c + 1);
                    if !at(s, c, '.') {
                        None
                    } else {
                        match raw_spec(s, d) {
                            Some((e, body)) => Some((e, STerm::Abs(p, Box::new(body)))),
                            None => None,
                        }
                    }
                },
                None => None,
            }
        }
    }
}

/// One operand at `i`: a variable, a term in parentheses, or an abstraction, tried in
/// that order.
pub open spec fn atom_spec(s: Seq<char>, i: int) -> Option<(int, STerm)>
    decreases s.len() - i, 2int,
{
    if i < 0 || i > s.len() {
        None
    } else {
        match ident_spec(s, i) {
            Some((j, n)) => Some((j, STerm::Var(n))),
            None => match paren_spec(s, i) {
                Some(r) => Some(r),
                None => abs_spec(s, i),
            },
        }
    }
}

/// Further operands from `i` on, each applied to what came before (`acc`), spaces and
/// tabs between them; the run ends where no operand follows.
pub open spec fn rest_spec(s: Seq<char>, i: int, acc: STerm) -> (int, STerm)
    decreases s.len() - i, 4int,
    via rest_decreases
{
    if i < 0 || i > s.len() {
        (i, acc)
    } else {
        match atom_spec(s, skip_sp(s, i)) {
            Some((j, t)) => {
                let k = skip_sp(s, j);
                if k <= i || k > s.len() {
                    (i, acc)
                } else {
                    rest_spec(s, k, STerm::App(Box::new(acc), Box::new(t)))
                }
            },
            None => (i, acc),
        }
    }
}

/// A term at `i`: one operand, then applications to further operands, to the left.
pub open spec fn raw_spec(s: Seq<char>, i: int) -> Option<(int, STerm)>
    decreases s.len() - i, 3int,
{
    if i < 0 || i > s.len() {
        None
    } else {
        match atom_spec(s, i) {
            Some((j, t)) => if j <= i || j > s.len() {
                None
            } else {
                Some(rest_spec(s, j, t))
            },
            None => None,
        }
    }
}

/// The model of a program entry.
pub enum SEntry {
    Def(Seq<char>, STerm),
    Term(STerm),
}

/// The model of an entry.
pub open spec fn entry_view(e: TermOrDef) -> SEntry {
    match e {
        TermOrDef::Definition(n, t) => SEntry::Def(n@, t@),
        TermOrDef::Term(t) => SEntry::Term(t@),
    }
}

/// The models of a sequence of entries.
pub open spec fn entries_view(es: Seq<TermOrDef>) -> Seq<SEntry> {
    es.map_values(|e: TermOrDef| entry_view(e))
}

/// A definition at `i`: a name, `:=`, and a term, with spaces between.
pub open spec fn defn_spec(s: Seq<char>, i: int) -> Option<(int, SEntry)> {
    match ident_spec(s, i) {
        Some((a, n)) => {
            let b = skip_sp(s, a);
            if at(s, b, ':') && at(s, b + 1, '=') {
                match raw_spec(s, skip_sp(s, b + 2)) {
                    Some((d, t)) => Some((d, SEntry::Def(n, t))),
                    None => None,
                }
            } else {
                None
            }
        },
        None => None,
    }
}

/// A term entry at `i`.
pub open spec fn term_entry_spec(s: Seq<char>, i: int) -> Option<(int, SEntry)> {
    match raw_spec(s, i) {
        Some((j, t)) => Some((j, SEntry::Term(t))),
        None => None,
    }
}

/// An entry at `i`: a definition if one stands there, else a term.
pub open spec fn entry_spec(s: Seq<char>, i: int) -> Option<(int, SEntry)> {
    match defn_spec(s, i) {
        Some(r) => Some(r),
        None => term_entry_spec(s, i),
    }
}

/// Further entries from `i` on, each after a line break with spaces around it, added
/// to `acc`; the list ends where no line break and entry follow.
pub open spec fn list_rest_spec(s: Seq<char>, i: int, acc: Seq<SEntry>) -> (int, Seq<SEntry>)
    decreases s.len() - i,
{
    if i < 0 || i > s.len() {
        (i, acc)
    } else {
        let a = skip_sp(s, i);
        if !at(s, a, '\n') {
            (i, acc)
        } else {
            match entry_spec(s, skip_sp(s, a + 1)) {
                Some((c, e)) => if c <= i || c > s.len() {
                    (i, acc)
                } else {
                    list_rest_spec(s, c, acc.push(e))
                },
                None => (i, acc),
            }
        }
    }
}

/// The entries of a program at `i`: white space, one entry or more separated by line
/// breaks, and white space.
pub open spec fn expressions_spec(s: Seq<char>, i: int) -> Option<(int, Seq<SEntry>)> {
    match entry_spec(s, skip_ms(s, i)) {
        Some((b, e)) => {
            let (c, es) = list_rest_spec(s, b, seq![e]);
            Some((skip_ms(s, c), es))
        },
        None => None,
    }
}

/// The entries of a program that is the whole text `s`.
pub open spec fn program_spec(s: Seq<char>) -> Option<Seq<SEntry>> {
    match expressions_spec(s, 0) {
        Some((j, es)) => if j == s.len() {
            Some(es)
        } else {
            None
        },
        None => None,
    }
}

/// Skipping stays within the text and never moves back.
pub proof fn lemma_skip(s: Seq<char>, i: int)
    requires
        0 <= i <= s.len(),
    ensures
        i <= skip_sp(s, i) <= s.len(),
        i <= skip_ms(s, i) <= s.len(),
        i <= ident_end(s, i) <= s.len(),
    decreases s.len() - i,
{
    if i < s.len() {
        lemma_skip(s, i + 1);
    }
}

#[via_fn]
proof fn paren_decreases(s: Seq<char>, i: int) {
    if 0 <= i <= s.len() {
        lemma_skip(s, i);
        let a = skip_sp(s, i);
        if at(s, a, '(') {
            lemma_skip(s, a + 1);
        }
    }
}

#[via_fn]
proof fn abs_decreases(s: Seq<char>, i: int) {
    if 0 <= i <= s.len() {
        lemma_skip(s, i);
        let a = skip_sp(s, i);
        if at(s, a, '\\') || at(s, a, 'λ') {
            lemma_skip(s, a + 1);
            let x = skip_sp(s, a + 1);
            if let Some((b, p)) = ident_spec(s, x) {
                lemma_skip(s, x);
                lemma_skip(s, b);
                let c = skip_sp(s, b);
                if at(s, c, '.') {
                    lemma_skip(s, c + 1);
                }
            }
        }
    }
}

#[via_fn]
proof fn rest_decreases(s: Seq<char>, i: int, acc: STerm) {
    if 0 <= i <= s.len() {
        lemma_skip(s, i);
    }
}

/// The position after the spaces and tabs that start at `i`.
fn skip_space(s: &Vec<char>, i: usize) -> (r: usize)
    requires
        i <= s@.len(),
    ensures
        r == skip_sp(s@, i as int),
        i <= r <= s@.len(),
{
    let mut k = i;
    while k < s.len() && (s[k] == ' ' || s[k] == '\t')
        invariant
            i <= k <= s@.len(),
            skip_sp(s@, i as int) == skip_sp(s@, k as int),
        decreases s@.len() - k,
    {
        k += 1;
    }
    k
}

/// The position after the white space, line breaks included, that starts at `i`.
fn skip_multispace(s: &Vec<char>, i: usize) -> (r: usize)
    requires
        i <= s@.len(),
    ensures
        r == skip_ms(s@, i as int),
        i <= r <= s@.len(),
{
    let mut k = i;
    while k < s.len() && (s[k] == ' ' || s[k] == '\t' || s[k] == '\r' || s[k] == '\n')
        invariant
            i <= k <= s@.len(),
            skip_ms(s@, i as int) == skip_ms(s@, k as int),
        decreases s@.len() - k,
    {
        k += 1;
    }
    k
}

fn is_ident_char_exec(c: char) -> (r: bool)
    ensures
        r == is_ident_char(c),
{
    c == '_' || ('a' <= c && c <= 'z') || ('A' <= c && c <= 'Z') || ('0' <= c && c <= '9')
}

/// An identifier at `i`: the longest run of identifier characters, at least one.
fn parse_ident(s: &Vec<char>, i: usize) -> (r: Option<(usize, String)>)
    requires
        i <= s@.len(),
    ensures
        r matches Some((j, _)) ==> j <= s@.len(),
        match r {
            Some((j, n)) => ident_spec(s@, i as int) == Some((j as int, n@)),
            None => ident_spec(s@, i as int) is None,
        },
{
    if i >= s.len() || !is_ident_char_exec(s[i]) {
        return None;
    }
    let mut k = i;
    let mut name = String::new();
    while k < s.len() && is_ident_char_exec(s[k])
        invariant
            i <= k <= s@.len(),
            ident_end(s@, i as int) == ident_end(s@, k as int),
            name@ =~= s@.subrange(i as int, k as int),
        decreases s@.len() - k,
    {
        push_char(&mut name, s[k]);
        k += 1;
    }
    Some((k, name))
}

/// A variable at `i`.
pub fn parse_var(s: &Vec<char>, i: usize) -> (r: Option<(usize, Term)>)
    requires
        i <= s@.len(),
    ensures
        r matches Some((j, _)) ==> j <= s@.len(),
        match r {
            Some((j, t)) => ident_spec(s@, i as int) matches Some((k, n)) && j == k && t@ == STerm::Var(n),
            None => ident_spec(s@, i as int) is None,
        },
{
    match parse_ident(s, i) {
        Some((j, n)) => Some((j, Term::Var(n))),
        None => None,
    }
}

/// A term in parentheses at `i`, spaces around each parenthesis allowed.
pub fn parse_paren_term(s: &Vec<char>, i: usize) -> (r: Option<(usize, Term)>)
    requires
        i <= s@.len(),
    ensures
        r matches Some((j, _)) ==> j <= s@.len(),
        match r {
            Some((j, t)) => paren_spec(s@, i as int) == Some((j as int, t@)),
            None => paren_spec(s@, i as int) is None,
        },
    decreases s@.len() - i, 1int,
{
    let a = skip_space(s, i);
    if !(a < s.len() && s[a] == '(') {
        return None;
    }
    let b = skip_space(s, a + 1);
    match parse_raw_term(s, b) {
        Some((c, t)) => {
            let d = skip_space(s, c);
            if d < s.len() && s[d] == ')' {
                Some((skip_space(s, d + 1), t))
            } else {
                None
            }
        },
        None => None,
    }
}

/// An abstraction at `i`: `\` or `λ`, a parameter, `.` and a body, with spaces between.
pub fn parse_abstraction(s: &Vec<char>, i: usize) -> (r: Option<(usize, Term)>)
    requires
        i <= s@.len(),
    ensures
        r matches Some((j, _)) ==> j <= s@.len(),
        match r {
            Some((j, t)) => abs_spec(s@, i as int) == Some((j as int, t@)),
            None => abs_spec(s@, i as int) is None,
        },
    decreases s@.len() - i, 1int,
{
    let a = skip_space(s, i);
    if !(a < s.len() && (s[a] == '\\' || s[a] == 'λ')) {
        return None;
    }
    let x = skip_space(s, a + 1);
    match parse_ident(s, x) {
        Some((b, p)) => {
            proof {
                lemma_skip(s@, x as int);
            }
            let c = skip_space(s, b);
            if !(c < s.len() && s[c] == '.') {
                return None;
            }
            let d = skip_space(s, c + 1);
            match parse_raw_term(s, d) {
                Some((e, body)) => Some((e, Term::Abstraction(p, Box::new(body)))),
                None => None,
            }
        },
        None => None,
    }
}

/// One operand at `i`: a variable, a term in parentheses, or an abstraction.
fn parse_atom(s: &Vec<char>, i: usize) -> (r: Option<(usize, Term)>)
    requires
        i <= s@.len(),
    ensures
        r matches Some((j, _)) ==> j <= s@.len(),
        match r {
            Some((j, t)) => atom_spec(s@, i as int) == Some((j as int, t@)),
            None => atom_spec(s@, i as int) is None,
        },
    decreases s@.len() - i, 2int,
{
    match parse_var(s, i) {
        Some(r) => Some(r),
        None => match parse_paren_term(s, i) {
            Some(r) => Some(r),
            None => parse_abstraction(s, i),
        },
    }
}

/// Further operands from `i` on, each applied to what came before.
fn parse_rest(s: &Vec<char>, i: usize, acc: Term) -> (r: (usize, Term))
    requires
        i <= s@.len(),
    ensures
        r.0 <= s@.len(),
        (r.0 as int, r.1@) == rest_spec(s@, i as int, acc@),
    decreases s@.len() - i, 4int,
{
    let x = skip_space(s, i);
    match parse_atom(s, x) {
        Some((j, t)) => {
            if j > s.len() {
                return (i, acc);
            }
            let k = skip_space(s, j);
            if k <= i {
                (i, acc)
            } else {
                parse_rest(s, k, Term::Application(Box::new(acc), Box::new(t)))
            }
        },
        None => (i, acc),
    }
}

/// A term at `i`: one operand, then applications to further operands, to the left.
pub fn parse_raw_term(s: &Vec<char>, i: usize) -> (r: Option<(usize, Term)>)
    requires
        i <= s@.len(),
    ensures
        r matches Some((j, _)) ==> j <= s@.len(),
        match r {
            Some((j, t)) => raw_spec(s@, i as int) == Some((j as int, t@)),
            None => raw_spec(s@, i as int) is None,
        },
    decreases s@.len() - i, 3int,
{
    match parse_atom(s, i) {
        Some((j, t)) => {
            if j <= i || j > s.len() {
                None
            } else {
                let (k, u) = parse_rest(s, j, t);
                Some((k, u))
            }
        },
        None => None,
    }
}

/// A term entry at `i`.
pub fn parse_term(s: &Vec<char>, i: usize) -> (r: Option<(usize, TermOrDef)>)
    requires
        i <= s@.len(),
    ensures
        r matches Some((j, _)) ==> j <= s@.len(),
        match r {
            Some((j, e)) => term_entry_spec(s@, i as int) == Some((j as int, entry_view(e))),
            None => term_entry_spec(s@, i as int) is None,
        },
{
    match parse_raw_term(s, i) {
        Some((j, t)) => Some((j, TermOrDef::Term(t))),
        None => None,
    }
}

/// A definition at `i`: a name, `:=`, and a term, with spaces between.
pub fn parse_defn(s: &Vec<char>, i: usize) -> (r: Option<(usize, TermOrDef)>)
    requires
        i <= s@.len(),
    ensures
        r matches Some((j, _)) ==> j <= s@.len(),
        match r {
            Some((j, e)) => defn_spec(s@, i as int) == Some((j as int, entry_view(e))),
            None => defn_spec(s@, i as int) is None,
        },
{
    match parse_ident(s, i) {
        Some((a, n)) => {
            let b = skip_space(s, a);
            if b < s.len() && s[b] == ':' && b + 1 < s.len() && s[b + 1] == '=' {
                let c = skip_space(s, b + 2);
                match parse_raw_term(s, c) {
                    Some((d, t)) => Some((d, TermOrDef::Definition(n, t))),
                    None => None,
                }
            } else {
                None
            }
        },
        None => None,
    }
}

/// An entry at `i`: a definition if one stands there, else a term.
fn parse_entry(s: &Vec<char>, i: usize) -> (r: Option<(usize, TermOrDef)>)
    requires
        i <= s@.len(),
    ensures
        r matches Some((j, _)) ==> j <= s@.len(),
        match r {
            Some((j, e)) => entry_spec(s@, i as int) == Some((j as int, entry_view(e))),
            None => entry_spec(s@, i as int) is None,
        },
{
    match parse_defn(s, i) {
        Some(r) => Some(r),
        None => parse_term(s, i),
    }
}

/// The entries of a program at `i`: white space, one entry or more separated by line
/// breaks, and white space.
pub fn parse_expressions(s: &Vec<char>, i: usize) -> (r: Option<(usize, Program)>)
    requires
        i <= s@.len(),
    ensures
        match r {
            Some((j, p)) => expressions_spec(s@, i as int) == Some((j as int, entries_view(p.0@))),
            None => expressions_spec(s@, i as int) is None,
        },
{
    let a = skip_multispace(s, i);
    match parse_entry(s, a) {
        Some((b, e)) => {
            let mut entries: Vec<TermOrDef> = Vec::new();
            entries.push(e);
            let mut k = b;
            assert(entries_view(entries@) =~= seq![entry_view(e)]);
            while k < s.len()
                invariant_except_break
                    k <= s@.len(),
                    list_rest_spec(s@, b as int, seq![entry_view(e)]) == list_rest_spec(s@, k as int, entries_view(entries@)),
                ensures
                    k <= s@.len(),
                    list_rest_spec(s@, b as int, seq![entry_view(e)]) == (k as int, entries_view(entries@)),
                decreases s@.len() - k,
            {
                let x = skip_space(s, k);
                if !(x < s.len() && s[x] == '\n') {
                    break;
                }
                let y = skip_space(s, x + 1);
                match parse_entry(s, y) {
                    Some((c, e2)) => {
                        if c <= k {
                            break;
                        }
                        let ghost before = entries_view(entries@);
                        entries.push(e2);
                        assert(entries_view(entries@) =~= before.push(entry_view(e2)));
                        k = c;
                    },
                    None => {
                        break;
                    },
                }
            }
            let end = skip_multispace(s, k);
            Some((end, Program(entries)))
        },
        None => None,
    }
}

/// The characters of `text`.
fn chars_of(text: &str) -> (r: Vec<char>)
    ensures
        r@ == text@,
{
    let n = text.unicode_len();
    let mut v: Vec<char> = Vec::new();
    let mut i: usize = 0;
    while i < n
        invariant
            i <= n,
            n == text@.len(),
            v@ =~= text@.subrange(0, i as int),
        decreases n - i,
    {
        v.push(text.get_char(i));
        i += 1;
    }
    v
}

/// The program that is the whole of `text`, or `None` where `text` is not one.
pub fn parse_terms(text: &str) -> (r: Option<Program>)
    ensures
        match r {
            Some(p) => program_spec(text@) == Some(entries_view(p.0@)),
            None => program_spec(text@) is None,
        },
{
    let s = chars_of(text);
    match parse_expressions(&s, 0) {
        Some((j, p)) => {
            if j == s.len() {
                Some(p)
            } else {
                None
            }
        },
        None => None,
    }
}

} // verus!
