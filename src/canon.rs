use vstd::prelude::*;
use crate::subst::{db_has_free, lemma_free_used, lemma_used_len, longest};
use crate::term::{
    alpha_eq, binders, count, count_max_binders, find, free_in, lemma_db_binders, lemma_find_push, sat, to_db,
    STerm, Term,
};
use crate::text::{push_char, same_name};

verus! {

/// The decimal digit for `d < 10`.
pub open spec fn digit_char(d: nat) -> char {
    (48 + d) as u8 as char
}

/// A decimal digit.
pub open spec fn is_digit(c: char) -> bool {
    '0' <= c && c <= '9'
}

/// The decimal numeral of `n`.
pub open spec fn dec(n: nat) -> Seq<char>
    decreases n,
{
    if n < 10 {
        seq![digit_char(n)]
    } else {
        dec(n / 10).push(digit_char(n % 10))
    }
}

/// `m` underscores.
pub open spec fn underscores(m: nat) -> Seq<char> {
    Seq::new(m, |_j: int| '_')
}

/// The canonical name for index `k` with a prefix of `m` underscores.
pub open spec fn index_name(m: nat, k: nat) -> Seq<char> {
    underscores(m) + dec(k)
}

/// `x` has the shape of a canonical name with a prefix of `m` underscores: `m`
/// underscores, then a digit.
pub open spec fn clash(x: Seq<char>, m: nat) -> bool {
    x.len() > m && (forall|j: int| 0 <= j < m ==> x[j] == '_') && is_digit(x[m as int])
}

/// The free variables of `t`.
pub open spec fn free_set(t: STerm) -> Set<Seq<char>> {
    Set::new(|x: Seq<char>| free_in(t, x))
}

/// No name in `fv` has the shape of a canonical name with a prefix of `m` underscores.
pub open spec fn avoids(fv: Set<Seq<char>>, m: nat) -> bool {
    forall|x: Seq<char>| #[trigger] fv.contains(x) ==> !clash(x, m)
}

/// `m` is the least length from `base` on that a prefix may have to avoid `fv`.
pub open spec fn least_prefix(fv: Set<Seq<char>>, base: nat, m: nat) -> bool {
    m >= base && avoids(fv, m) && forall|m2: nat| base <= m2 < m ==> !#[trigger] avoids(fv, m2)
}

/// The length of the prefix of underscores that canonical names take in a term whose
/// free variables are `fv`: the least from `base` on with which no free variable looks
/// like a canonical name.
pub open spec fn prefix_len(fv: Set<Seq<char>>, base: nat) -> nat {
    choose|m: nat| least_prefix(fv, base, m)
}

/// The shortest prefix that canonical names may take: one underscore in comparison form,
/// none in display form.
pub open spec fn base_len(display: bool) -> nat {
    if display {
        0
    } else {
        1
    }
}

/// The name that canonicalisation gives a binder whose abstraction is `t`, at starting
/// index `i`, with a prefix of `m` underscores: in comparison form the index plus the
/// abstractions in `t`, unique within the term; in display form the number of
/// abstractions in `t` alone.
pub open spec fn binder_name(t: STerm, i: int, display: bool, m: nat) -> Seq<char> {
    if display {
        index_name(m, count(t) as nat)
    } else {
        index_name(m, sat(i + count(t)) as nat)
    }
}

/// Canonicalisation of `t` at starting index `i`, where the binders in scope have the
/// names in the term `co` and the new names `cn` (innermost last). A variable bound in scope
/// takes its binder's new name; a free variable stays as it is. In an application the
/// right side starts at `i` and the left side after the right side's abstractions.
pub open spec fn canon_in(t: STerm, co: Seq<Seq<char>>, cn: Seq<Seq<char>>, i: int, display: bool, m: nat) -> STerm
    decreases t,
{
    match t {
        STerm::Var(x) => match find(co, x) {
            Some(j) => STerm::Var(cn[j]),
            None => STerm::Var(x),
        },
        STerm::Abs(p, b) => {
            let n = binder_name(t, i, display, m);
            STerm::Abs(n, Box::new(canon_in(*b, co.push(p), cn.push(n), i, display, m)))
        },
        STerm::App(l, r) => STerm::App(
            Box::new(canon_in(*l, co, cn, sat(i + count(*r)), display, m)),
            Box::new(canon_in(*r, co, cn, i, display, m)),
        ),
    }
}

/// The canonical form of `t` at starting index `i`: binder names with the prefix that
/// keeps them apart from every free variable of `t`.
pub open spec fn canon(t: STerm, i: int, display: bool) -> STerm {
    canon_in(t, Seq::empty(), Seq::empty(), i, display, prefix_len(free_set(t), base_len(display)))
}

/// Where some length from `base` to `m0` avoids `fv`, a least one exists.
proof fn lemma_least_exists(fv: Set<Seq<char>>, base: nat, m0: nat)
    requires
        base <= m0,
        avoids(fv, m0),
    ensures
        exists|m: nat| least_prefix(fv, base, m),
    decreases m0 - base,
{
    if exists|m2: nat| base <= m2 < m0 && #[trigger] avoids(fv, m2) {
        let m2 = choose|m2: nat| base <= m2 < m0 && #[trigger] avoids(fv, m2);
        lemma_least_exists(fv, base, m2);
    } else {
        assert(least_prefix(fv, base, m0));
    }
}

proof fn lemma_least_unique(fv: Set<Seq<char>>, base: nat, a: nat, b: nat)
    requires
        least_prefix(fv, base, a),
        least_prefix(fv, base, b),
    ensures
        a == b,
{
    if a < b {
        assert(!avoids(fv, a));
    } else if b < a {
        assert(!avoids(fv, b));
    }
}

/// The prefix length of a term is the least one that avoids its free variables.
proof fn lemma_prefix_len(t: STerm, base: nat)
    ensures
        least_prefix(free_set(t), base, prefix_len(free_set(t), base)),
{
    let fv = free_set(t);
    let m0 = base + longest(t);
    assert forall|x: Seq<char>| #[trigger] fv.contains(x) implies !clash(x, m0) by {
        lemma_free_used(t, x);
        lemma_used_len(t, x);
    }
    lemma_least_exists(fv, base, m0);
}

proof fn lemma_dec_first(n: nat)
    ensures
        dec(n).len() >= 1,
        is_digit(dec(n)[0]),
    decreases n,
{
    if n >= 10 {
        lemma_dec_first(n / 10);
        assert(dec(n)[0] == dec(n / 10)[0]);
    } else {
        assert(dec(n) == seq![digit_char(n)]);
        assert(((48 + n) as u8 as char) as u32 == 48 + n);
    }
}

/// A canonical name has the shape that its prefix length avoids.
proof fn lemma_index_name_clash(m: nat, k: nat)
    ensures
        clash(index_name(m, k), m),
{
    lemma_dec_first(k);
    let x = index_name(m, k);
    assert(x[m as int] == dec(k)[0]);
    assert forall|j: int| 0 <= j < m implies x[j] == '_' by {
        assert(x[j] == underscores(m)[j]);
    }
}

/// Where two terms have the same de Bruijn form under scopes of one length, their
/// canonical forms under one set of new names are equal.
proof fn lemma_canon_db(
    t: STerm,
    u: STerm,
    co1: Seq<Seq<char>>,
    co2: Seq<Seq<char>>,
    cn: Seq<Seq<char>>,
    i: int,
    display: bool,
    m: nat,
)
    requires
        co1.len() == cn.len(),
        co2.len() == cn.len(),
        to_db(t, co1) == to_db(u, co2),
    ensures
        canon_in(t, co1, cn, i, display, m) == canon_in(u, co2, cn, i, display, m),
    decreases t,
{
    lemma_find_range(co1, t);
    match t {
        STerm::Var(x) => {
            match u {
                STerm::Var(y) => {
                    lemma_find_some(co1, x);
                    lemma_find_some(co2, y);
                },
                STerm::Abs(_, _) => {},
                STerm::App(_, _) => {},
            }
        },
        STerm::Abs(p, b) => {
            match u {
                STerm::Abs(q, b2) => {
                    lemma_db_binders(t, co1);
                    lemma_db_binders(u, co2);
                    lemma_canon_db(*b, *b2, co1.push(p), co2.push(q), cn.push(binder_name(t, i, display, m)), i, display, m);
                },
                STerm::Var(y) => {
                    lemma_find_some(co2, y);
                },
                STerm::App(_, _) => {},
            }
        },
        STerm::App(l, r) => {
            match u {
                STerm::App(l2, r2) => {
                    lemma_db_binders(*r, co1);
                    lemma_db_binders(*r2, co2);
                    lemma_canon_db(*l, *l2, co1, co2, cn, sat(i + count(*r)), display, m);
                    lemma_canon_db(*r, *r2, co1, co2, cn, i, display, m);
                },
                STerm::Var(y) => {
                    lemma_find_some(co2, y);
                },
                STerm::Abs(_, _) => {},
            }
        },
    }
}

/// What `find` returns is a position in the scope that holds the name.
proof fn lemma_find_some(c: Seq<Seq<char>>, x: Seq<char>)
    ensures
        find(c, x) matches Some(j) ==> 0 <= j < c.len() && c[j] == x,
    decreases c.len(),
{
    if c.len() > 0 && c.last() != x {
        lemma_find_some(c.drop_last(), x);
    }
}

/// A variable form of `lemma_find_some`, for the term at hand.
proof fn lemma_find_range(c: Seq<Seq<char>>, t: STerm)
    ensures
        t matches STerm::Var(x) ==> (find(c, x) matches Some(j) ==> 0 <= j < c.len() && c[j] == x),
{
    if let STerm::Var(x) = t {
        lemma_find_some(c, x);
    }
}

/// The de Bruijn form has a free `x` exactly where `x` is free in the term and not bound
/// by the scope.
proof fn lemma_free_db(t: STerm, c: Seq<Seq<char>>, x: Seq<char>)
    ensures
        db_has_free(to_db(t, c), x) <==> free_in(t, x) && find(c, x) is None,
    decreases t,
{
    match t {
        STerm::Var(y) => {
            lemma_find_some(c, y);
        },
        STerm::Abs(p, b) => {
            lemma_find_push(c, p, x);
            lemma_free_db(*b, c.push(p), x);
        },
        STerm::App(l, r) => {
            lemma_free_db(*l, c, x);
            lemma_free_db(*r, c, x);
        },
    }
}

/// Alpha-equivalent terms have the same free variables.
pub proof fn lemma_alpha_free(t: STerm, u: STerm)
    requires
        alpha_eq(t, u),
    ensures
        free_set(t) == free_set(u),
{
    assert forall|x: Seq<char>| free_in(t, x) <==> free_in(u, x) by {
        lemma_free_db(t, Seq::empty(), x);
        lemma_free_db(u, Seq::empty(), x);
    }
    assert(free_set(t) =~= free_set(u));
}

/// Alpha-equivalent terms have the same canonical form, in comparison form and in
/// display form alike.
pub proof fn lemma_alpha_invariance(t: STerm, u: STerm, i: int, display: bool)
    requires
        alpha_eq(t, u),
    ensures
        canon(t, i, display) == canon(u, i, display),
{
    lemma_alpha_free(t, u);
    let m = prefix_len(free_set(t), base_len(display));
    lemma_canon_db(t, u, Seq::empty(), Seq::empty(), Seq::empty(), i, display, m);
}

/// Canonicalisation keeps the number of abstractions.
proof fn lemma_canon_binders(t: STerm, co: Seq<Seq<char>>, cn: Seq<Seq<char>>, i: int, display: bool, m: nat)
    ensures
        binders(canon_in(t, co, cn, i, display, m)) == binders(t),
    decreases t,
{
    match t {
        STerm::Var(_) => {},
        STerm::Abs(p, b) => lemma_canon_binders(*b, co.push(p), cn.push(binder_name(t, i, display, m)), i, display, m),
        STerm::App(l, r) => {
            lemma_canon_binders(*l, co, cn, sat(i + count(*r)), display, m);
            lemma_canon_binders(*r, co, cn, i, display, m);
        },
    }
}

/// A canonical form has as many abstractions as the term.
pub proof fn lemma_canon_binders_top(t: STerm, i: int, display: bool)
    ensures
        binders(canon(t, i, display)) == binders(t),
{
    lemma_canon_binders(t, Seq::empty(), Seq::empty(), i, display, prefix_len(free_set(t), base_len(display)));
}

/// Canonicalising a canonical term, with the new names in scope standing for
/// themselves, gives the term back.
proof fn lemma_canon_again(t: STerm, co: Seq<Seq<char>>, cn: Seq<Seq<char>>, i: int, display: bool, m: nat)
    requires
        co.len() == cn.len(),
    ensures
        canon_in(canon_in(t, co, cn, i, display, m), cn, cn, i, display, m) == canon_in(t, co, cn, i, display, m),
    decreases t,
{
    match t {
        STerm::Var(x) => {
            lemma_find_some(co, x);
            let c = canon_in(t, co, cn, i, display, m);
            if let STerm::Var(y) = c {
                lemma_find_some(cn, y);
            }
        },
        STerm::Abs(p, b) => {
            let n = binder_name(t, i, display, m);
            lemma_canon_binders(t, co, cn, i, display, m);
            lemma_canon_again(*b, co.push(p), cn.push(n), i, display, m);
        },
        STerm::App(l, r) => {
            lemma_canon_binders(*r, co, cn, i, display, m);
            lemma_canon_again(*l, co, cn, sat(i + count(*r)), display, m);
            lemma_canon_again(*r, co, cn, i, display, m);
        },
    }
}

proof fn lemma_digit_char(a: nat, b: nat)
    requires
        a < 10,
        b < 10,
        digit_char(a) == digit_char(b),
    ensures
        a == b,
{
    assert((48 + a) as u8 as char == (48 + b) as u8 as char);
    assert(((48 + a) as u8 as char) as u32 == (48 + a));
    assert(((48 + b) as u8 as char) as u32 == (48 + b));
}

proof fn lemma_dec_len(n: nat)
    ensures
        dec(n).len() >= 1,
        n >= 10 ==> dec(n).len() >= 2,
    decreases n,
{
    if n >= 10 {
        lemma_dec_len(n / 10);
    }
}

/// Distinct numbers have distinct numerals.
proof fn lemma_dec_injective(a: nat, b: nat)
    requires
        dec(a) == dec(b),
    ensures
        a == b,
    decreases a,
{
    lemma_dec_len(a);
    lemma_dec_len(b);
    if a < 10 && b < 10 {
        assert(dec(a) == seq![digit_char(a)]);
        assert(dec(b) == seq![digit_char(b)]);
        assert(seq![digit_char(a)][0] == digit_char(a));
        assert(seq![digit_char(b)][0] == digit_char(b));
        lemma_digit_char(a, b);
    } else if a >= 10 && b >= 10 {
        let da = dec(a);
        let db = dec(b);
        assert(da.drop_last() == dec(a / 10));
        assert(db.drop_last() == dec(b / 10));
        assert(da.last() == digit_char(a % 10));
        assert(db.last() == digit_char(b % 10));
        lemma_digit_char(a % 10, b % 10);
        lemma_dec_injective(a / 10, b / 10);
        assert(a == 10 * (a / 10) + a % 10);
        assert(b == 10 * (b / 10) + b % 10);
    } else {
        assert(dec(a).len() != dec(b).len());
    }
}

proof fn lemma_index_name_injective(m: nat, a: nat, b: nat)
    requires
        index_name(m, a) == index_name(m, b),
    ensures
        a == b,
{
    assert(index_name(m, a).subrange(m as int, index_name(m, a).len() as int) =~= dec(a));
    assert(index_name(m, b).subrange(m as int, index_name(m, b).len() as int) =~= dec(b));
    lemma_dec_injective(a, b);
}

/// `find` gives the last position that holds the name.
proof fn lemma_find_last(c: Seq<Seq<char>>, j: int, x: Seq<char>)
    requires
        0 <= j < c.len(),
        c[j] == x,
        forall|k: int| j < k < c.len() ==> c[k] != x,
    ensures
        find(c, x) == Some(j),
    decreases c.len(),
{
    if j < c.len() - 1 {
        let d = c.drop_last();
        assert forall|k: int| j < k < d.len() implies d[k] != x by {
            assert(d[k] == c[k]);
        }
        lemma_find_last(d, j, x);
    }
}

/// The indices that canonical names take inside `t` are at most this.
pub open spec fn top_index(t: STerm, i: int, display: bool) -> int {
    if display {
        binders(t) as int
    } else {
        i + binders(t)
    }
}

/// Where the names in scope are canonical names of decreasing indices, all above the
/// indices used inside `t`, and no free variable of `t` has the shape of a canonical
/// name, the canonical form under those names has the de Bruijn form of `t`.
proof fn lemma_canon_sound(
    t: STerm,
    co: Seq<Seq<char>>,
    cn: Seq<Seq<char>>,
    ks: Seq<nat>,
    i: nat,
    display: bool,
    m: nat,
)
    requires
        co.len() == cn.len(),
        cn.len() == ks.len(),
        forall|j: int| 0 <= j < cn.len() ==> cn[j] == index_name(m, #[trigger] ks[j]),
        forall|a: int, b: int| 0 <= a < b < ks.len() ==> ks[a] > ks[b],
        forall|j: int| 0 <= j < ks.len() ==> #[trigger] ks[j] > top_index(t, i as int, display),
        i + binders(t) <= u64::MAX,
        forall|x: Seq<char>| #[trigger] free_in(t, x) && find(co, x) is None ==> !clash(x, m),
    ensures
        to_db(canon_in(t, co, cn, i as int, display, m), cn) == to_db(t, co),
    decreases t,
{
    match t {
        STerm::Var(x) => {
            lemma_find_some(co, x);
            match find(co, x) {
                Some(j) => {
                    assert forall|k: int| j < k < cn.len() implies cn[k] != cn[j] by {
                        if cn[k] == cn[j] {
                            lemma_index_name_injective(m, ks[k], ks[j]);
                        }
                    }
                    lemma_find_last(cn, j, cn[j]);
                },
                None => {
                    assert(free_in(t, x));
                    lemma_find_some(cn, x);
                    if let Some(j) = find(cn, x) {
                        lemma_index_name_clash(m, ks[j]);
                    }
                },
            }
        },
        STerm::Abs(p, b) => {
            let k: nat = top_index(t, i as int, display) as nat;
            let n = binder_name(t, i as int, display, m);
            assert(n == index_name(m, k));
            let ks2 = ks.push(k);
            let cn2 = cn.push(n);
            assert forall|j: int| 0 <= j < cn2.len() implies cn2[j] == index_name(m, #[trigger] ks2[j]) by {
                if j < cn.len() {
                    assert(cn2[j] == cn[j] && ks2[j] == ks[j]);
                }
            }
            assert forall|x: Seq<char>| #[trigger] free_in(*b, x) && find(co.push(p), x) is None implies !clash(x, m) by {
                lemma_find_push(co, p, x);
                assert(free_in(t, x));
            }
            lemma_canon_sound(*b, co.push(p), cn2, ks2, i, display, m);
        },
        STerm::App(l, r) => {
            assert forall|x: Seq<char>| #[trigger] free_in(*l, x) && find(co, x) is None implies !clash(x, m) by {
                assert(free_in(t, x));
            }
            assert forall|x: Seq<char>| #[trigger] free_in(*r, x) && find(co, x) is None implies !clash(x, m) by {
                assert(free_in(t, x));
            }
            lemma_canon_sound(*l, co, cn, ks, i + binders(*r), display, m);
            lemma_canon_sound(*r, co, cn, ks, i, display, m);
        },
    }
}

/// The canonical form of a term, in either form, is alpha-equivalent to it: binder
/// names never capture a free variable. The indices must fit in a `u64`.
pub proof fn lemma_canon_alpha(t: STerm, i: nat, display: bool)
    requires
        i + binders(t) <= u64::MAX,
    ensures
        alpha_eq(canon(t, i as int, display), t),
{
    let m = prefix_len(free_set(t), base_len(display));
    lemma_prefix_len(t, base_len(display));
    assert forall|x: Seq<char>| #[trigger] free_in(t, x) && find(Seq::<Seq<char>>::empty(), x) is None implies !clash(x, m) by {
        assert(free_set(t).contains(x));
    }
    lemma_canon_sound(t, Seq::empty(), Seq::empty(), Seq::empty(), i, display, m);
}

/// Two terms are alpha-equivalent exactly when their canonical forms are equal, in either
/// form, where the indices fit in a `u64`.
pub proof fn lemma_canon_represents(t: STerm, u: STerm, i: nat, display: bool)
    requires
        i + binders(t) <= u64::MAX,
        i + binders(u) <= u64::MAX,
    ensures
        alpha_eq(t, u) <==> canon(t, i as int, display) == canon(u, i as int, display),
{
    lemma_canon_alpha(t, i, display);
    lemma_canon_alpha(u, i, display);
    if alpha_eq(t, u) {
        lemma_alpha_invariance(t, u, i as int, display);
    }
}

/// Canonicalising a term that is already in canonical form (of the same kind and
/// starting index) returns it unchanged. The indices must fit in a `u64`.
pub proof fn lemma_canon_idempotent(t: STerm, i: nat, display: bool)
    requires
        i + binders(t) <= u64::MAX,
    ensures
        canon(canon(t, i as int, display), i as int, display) == canon(t, i as int, display),
{
    let m = prefix_len(free_set(t), base_len(display));
    lemma_canon_alpha(t, i, display);
    lemma_alpha_free(canon(t, i as int, display), t);
    lemma_canon_again(t, Seq::empty(), Seq::empty(), i as int, display, m);
}

/// The names that a sequence of strings holds.
pub open spec fn names(v: Seq<String>) -> Seq<Seq<char>> {
    v.map_values(|s: String| s@)
}

/// Appends the decimal numeral of `n` to `s`.
fn push_decimal(s: &mut String, n: u64)
    ensures
        final(s)@ == old(s)@ + dec(n as nat),
    decreases n,
{
    if n >= 10 {
        push_decimal(s, n / 10);
    }
    let d: u8 = (n % 10) as u8;
    push_char(s, (48 + d) as char);
    proof {
        assert(old(s)@ + dec(n as nat) =~= final(s)@) by {
            if n >= 10 {
                assert(dec(n as nat) == dec((n / 10) as nat).push(digit_char((n % 10) as nat)));
            }
        }
    }
}

/// Appends `m` underscores to `s`.
fn push_underscores(s: &mut String, m: usize)
    ensures
        final(s)@ == old(s)@ + underscores(m as nat),
{
    let mut k: usize = 0;
    while k < m
        invariant
            k <= m,
            s@ =~= old(s)@ + underscores(k as nat),
        decreases m - k,
    {
        push_char(s, '_');
        k += 1;
    }
}

/// The canonical name of the binder whose abstraction is `t`.
fn make_binder_name(t: &Term, i: u64, display: bool, m: usize) -> (r: String)
    ensures
        r@ == binder_name(t@, i as int, display, m as nat),
{
    let c = count_max_binders(t);
    let mut s = String::new();
    push_underscores(&mut s, m);
    if display {
        push_decimal(&mut s, c);
    } else {
        push_decimal(&mut s, i.saturating_add(c));
    }
    s
}

/// Whether `x` has the shape of a canonical name with a prefix of `m` underscores.
fn clashes_with(x: &str, m: usize) -> (r: bool)
    ensures
        r == clash(x@, m as nat),
        r ==> m < x@.len() && m < usize::MAX,
{
    let n = x.unicode_len();
    if n <= m {
        return false;
    }
    let mut j: usize = 0;
    while j < m
        invariant
            j <= m < n,
            n == x@.len(),
            forall|k: int| 0 <= k < j ==> x@[k] == '_',
        decreases m - j,
    {
        if x.get_char(j) != '_' {
            return false;
        }
        j += 1;
    }
    let c = x.get_char(m);
    '0' <= c && c <= '9'
}

/// Whether a variable of `t` that the scope `sc` does not bind has the shape of a
/// canonical name with a prefix of `m` underscores.
fn has_clash(t: &Term, sc: &mut Vec<String>, m: usize) -> (r: bool)
    ensures
        final(sc)@ == old(sc)@,
        r == exists|x: Seq<char>| #[trigger] free_in(t@, x) && find(names(old(sc)@), x) is None && clash(x, m as nat),
        r ==> m < usize::MAX,
    decreases t,
{
    match t {
        Term::Var(x) => {
            let bound = find_name(sc, x.as_str()).is_some();
            let r = !bound && clashes_with(x.as_str(), m);
            proof {
                if r {
                    assert(free_in(t@, x@));
                }
            }
            r
        },
        Term::Abstraction(p, b) => {
            let ghost sc0 = names(sc@);
            sc.push(p.clone());
            proof {
                assert(names(sc@) =~= sc0.push(p@));
            }
            let r = has_clash(b, sc, m);
            sc.pop();
            proof {
                assert(sc@ =~= old(sc)@);
                if r {
                    let x = choose|x: Seq<char>| #[trigger] free_in(b@, x) && find(sc0.push(p@), x) is None && clash(x, m as nat);
                    lemma_find_push(sc0, p@, x);
                    assert(free_in(t@, x));
                } else {
                    assert forall|x: Seq<char>| #[trigger] free_in(t@, x) && find(sc0, x) is None implies !clash(x, m as nat) by {
                        lemma_find_push(sc0, p@, x);
                        assert(free_in(b@, x));
                    }
                }
            }
            r
        },
        Term::Application(l, r) => {
            let a = has_clash(l, sc, m);
            let b = has_clash(r, sc, m);
            proof {
                if a {
                    let x = choose|x: Seq<char>| #[trigger] free_in(l@, x) && find(names(sc@), x) is None && clash(x, m as nat);
                    assert(free_in(t@, x));
                } else if b {
                    let x = choose|x: Seq<char>| #[trigger] free_in(r@, x) && find(names(sc@), x) is None && clash(x, m as nat);
                    assert(free_in(t@, x));
                } else {
                    assert forall|x: Seq<char>| #[trigger] free_in(t@, x) && find(names(sc@), x) is None implies !clash(x, m as nat) by {
                        assert(free_in(l@, x) || free_in(r@, x));
                    }
                }
            }
            a || b
        },
    }
}

/// The length of the prefix of underscores that canonical names take in `t`.
fn canon_prefix(t: &Term, display: bool) -> (r: usize)
    ensures
        r as nat == prefix_len(free_set(t@), base_len(display)),
{
    let ghost fv = free_set(t@);
    let ghost base = base_len(display);
    let ghost bound = base + longest(t@);
    let mut sc: Vec<String> = Vec::new();
    proof {
        assert(names(sc@) =~= Seq::<Seq<char>>::empty());
    }
    let mut m: usize = if display { 0 } else { 1 };
    loop
        invariant
            base == base_len(display),
            base <= m,
            sc@ == Seq::<String>::empty(),
            names(sc@) == Seq::<Seq<char>>::empty(),
            fv == free_set(t@),
            bound == base + longest(t@),
            forall|m2: nat| base <= m2 < m ==> !#[trigger] avoids(fv, m2),
        decreases bound - m,
    {
        let c = has_clash(t, &mut sc, m);
        if !c {
            proof {
                assert forall|x: Seq<char>| #[trigger] fv.contains(x) implies !clash(x, m as nat) by {
                    assert(free_in(t@, x));
                }
                assert(avoids(fv, m as nat));
                assert(least_prefix(fv, base, m as nat));
                lemma_prefix_len(t@, base);
                lemma_least_unique(fv, base, m as nat, prefix_len(fv, base));
            }
            return m;
        }
        proof {
            let x = choose|x: Seq<char>| #[trigger] free_in(t@, x) && find(Seq::<Seq<char>>::empty(), x) is None && clash(x, m as nat);
            assert(fv.contains(x));
            assert(!avoids(fv, m as nat));
            lemma_free_used(t@, x);
            lemma_used_len(t@, x);
        }
        m += 1;
    }
}

/// The position of the innermost name `x` in `c`, searching from the end.
fn find_name(c: &Vec<String>, x: &str) -> (r: Option<usize>)
    ensures
        r matches Some(j) ==> j < c@.len(),
        find(names(c@), x@) == (match r {
            Some(j) => Some(j as int),
            None => None::<int>,
        }),
{
    let mut k: usize = c.len();
    assert(names(c@).subrange(0, k as int) =~= names(c@));
    while k > 0
        invariant
            k <= c@.len(),
            find(names(c@), x@) == find(names(c@).subrange(0, k as int), x@),
        decreases k,
    {
        let ghost sub = names(c@).subrange(0, k as int);
        assert(sub.drop_last() =~= names(c@).subrange(0, k - 1));
        if same_name(c[k - 1].as_str(), x) {
            return Some(k - 1);
        }
        k -= 1;
    }
    assert(names(c@).subrange(0, 0) =~= Seq::<Seq<char>>::empty());
    None
}

/// Canonicalisation with the binders in scope held in `co` and `cn`.
fn canon_rec(t: &Term, co: &mut Vec<String>, cn: &mut Vec<String>, i: u64, display: bool, m: usize) -> (r: Term)
    requires
        old(co)@.len() == old(cn)@.len(),
    ensures
        final(co)@ == old(co)@,
        final(cn)@ == old(cn)@,
        r@ == canon_in(t@, names(old(co)@), names(old(cn)@), i as int, display, m as nat),
    decreases t,
{
    match t {
        Term::Var(x) => {
            match find_name(co, x.as_str()) {
                Some(j) => Term::Var(cn[j].clone()),
                None => Term::Var(x.clone()),
            }
        },
        Term::Abstraction(p, b) => {
            let n = make_binder_name(t, i, display, m);
            co.push(p.clone());
            cn.push(n.clone());
            proof {
                assert(names(co@) =~= names(old(co)@).push(p@));
                assert(names(cn@) =~= names(old(cn)@).push(n@));
            }
            let body = canon_rec(b, co, cn, i, display, m);
            co.pop();
            cn.pop();
            proof {
                assert(co@ =~= old(co)@);
                assert(cn@ =~= old(cn)@);
            }
            Term::Abstraction(n, Box::new(body))
        },
        Term::Application(l, r) => {
            let ri = i.saturating_add(count_max_binders(r));
            let l2 = canon_rec(l, co, cn, ri, display, m);
            let r2 = canon_rec(r, co, cn, i, display, m);
            Term::Application(Box::new(l2), Box::new(r2))
        },
    }
}

/// Canonicalisation of `term` in the given form.
fn canonical(term: &Term, initial: u64, display: bool) -> (r: Term)
    ensures
        r@ == canon(term@, initial as int, display),
{
    let m = canon_prefix(term, display);
    let mut co: Vec<String> = Vec::new();
    let mut cn: Vec<String> = Vec::new();
    proof {
        assert(names(co@) =~= Seq::<Seq<char>>::empty());
        assert(names(cn@) =~= Seq::<Seq<char>>::empty());
    }
    canon_rec(term, &mut co, &mut cn, initial, display, m)
}

/// The comparison form of `term`: each binder gets a name derived from its position,
/// unique within the term, starting at index `initial`, behind a prefix of underscores
/// that keeps it apart from the free variables.
pub fn debruijn(term: &Term, initial: u64) -> (r: Term)
    ensures
        r@ == canon(term@, initial as int, false),
{
    canonical(term, initial, false)
}

/// The display form of `term`: each binder is named by the number of abstractions in the
/// subterm that it heads, behind a prefix of underscores (mostly none) that keeps it
/// apart from the free variables.
pub fn debruijn_aesthetic(term: &Term, initial: u64) -> (r: Term)
    ensures
        r@ == canon(term@, initial as int, true),
{
    canonical(term, initial, true)
}

} // verus!
