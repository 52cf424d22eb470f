use vstd::prelude::*;
use crate::name_gen::{all_letters, lemma_succ_rank, rank, succ, NameGen};
use crate::term::{find, free_in, lemma_find_push, is_free, is_used, to_db, used_in, DTerm, STerm, Term};
use crate::text::same_name;

verus! {

/// The number of nodes of `t`.
pub open spec fn size(t: STerm) -> nat
    decreases t,
{
    match t {
        STerm::Var(_) => 1,
        STerm::Abs(_, b) => 1 + size(*b),
        STerm::App(l, r) => 1 + size(*l) + size(*r),
    }
}

/// Alpha-renaming: every occurrence of `x` bound by the binder at hand becomes `n`; the
/// renaming stops at an abstraction that binds `x` again.
pub open spec fn rewrite_spec(t: STerm, x: Seq<char>, n: Seq<char>) -> STerm
    decreases t,
{
    match t {
        STerm::Var(y) => if y == x {
            STerm::Var(n)
        } else {
            t
        },
        STerm::Abs(p, b) => if p == x {
            t
        } else {
            STerm::Abs(p, Box::new(rewrite_spec(*b, x, n)))
        },
        STerm::App(l, r) => STerm::App(
            Box::new(rewrite_spec(*l, x, n)),
            Box::new(rewrite_spec(*r, x, n)),
        ),
    }
}

/// `27` to the power `n`.
pub open spec fn pow27(n: nat) -> int
    decreases n,
{
    if n == 0 {
        1
    } else {
        27 * pow27((n - 1) as nat)
    }
}

/// The length of the longest name in `t`.
pub open spec fn longest(t: STerm) -> nat
    decreases t,
{
    match t {
        STerm::Var(y) => y.len(),
        STerm::Abs(p, b) => if p.len() >= longest(*b) {
            p.len()
        } else {
            longest(*b)
        },
        STerm::App(l, r) => if longest(*l) >= longest(*r) {
            longest(*l)
        } else {
            longest(*r)
        },
    }
}

/// A name `g` cannot rename a binder of `b` while `s` is substituted for `v`: it occurs
/// in `s` or in `b`, or it is `v`.
pub open spec fn clashes(g: Seq<char>, v: Seq<char>, s: STerm, b: STerm) -> bool {
    used_in(s, g) || used_in(b, g) || g == v
}

/// A bound above the rank of every name that clashes.
pub open spec fn clash_bound(v: Seq<char>, s: STerm, b: STerm) -> int {
    pow27(v.len() + longest(s) + longest(b))
}

/// The first name from `g` on, in the generator's order, that does not clash, trying at
/// most `fuel` names after `g`.
pub open spec fn fresh_from(g: Seq<char>, v: Seq<char>, s: STerm, b: STerm, fuel: nat) -> Seq<char>
    decreases fuel,
{
    if fuel == 0 || !clashes(g, v, s, b) {
        g
    } else {
        fresh_from(succ(g), v, s, b, (fuel - 1) as nat)
    }
}

/// The fresh name that the generator in state `g` gives for renaming a binder of `b`
/// while `s` is substituted for `v`: the first name after `g` that does not clash.
pub open spec fn fresh(g: Seq<char>, v: Seq<char>, s: STerm, b: STerm) -> Seq<char> {
    let g1 = succ(g);
    fresh_from(g1, v, s, b, if rank(g1) < clash_bound(v, s, b) {
        (clash_bound(v, s, b) - rank(g1)) as nat
    } else {
        0
    })
}

/// Capture-avoiding substitution of `s` for the free occurrences of `v` in `t`, with
/// the generator in state `g`; the result and the generator's state after it. A binder
/// that would capture a free variable of `s` is first renamed to a fresh name.
pub open spec fn replace_spec(t: STerm, v: Seq<char>, s: STerm, g: Seq<char>) -> (STerm, Seq<char>)
    decreases size(t),
    via replace_spec_decreases
{
    match t {
        STerm::Var(x) => if x == v {
            (s, g)
        } else {
            (t, g)
        },
        STerm::Abs(p, b) => if p == v {
            (t, g)
        } else if !free_in(s, p) {
            let (b2, g2) = replace_spec(*b, v, s, g);
            (STerm::Abs(p, Box::new(b2)), g2)
        } else {
            let n = fresh(g, v, s, *b);
            let (b2, g2) = replace_spec(rewrite_spec(*b, p, n), v, s, n);
            (STerm::Abs(n, Box::new(b2)), g2)
        },
        STerm::App(l, r) => {
            let (l2, g2) = replace_spec(*l, v, s, g);
            let (r2, g3) = replace_spec(*r, v, s, g2);
            (STerm::App(Box::new(l2), Box::new(r2)), g3)
        },
    }
}

#[via_fn]
proof fn replace_spec_decreases(t: STerm, v: Seq<char>, s: STerm, g: Seq<char>) {
    if let STerm::Abs(p, b) = t {
        lemma_rewrite_size(*b, p, fresh(g, v, s, *b));
    }
}

/// Renaming keeps the size of a term.
pub proof fn lemma_rewrite_size(t: STerm, x: Seq<char>, n: Seq<char>)
    ensures
        size(rewrite_spec(t, x, n)) == size(t),
    decreases t,
{
    match t {
        STerm::Var(_) => {},
        STerm::Abs(_, b) => lemma_rewrite_size(*b, x, n),
        STerm::App(l, r) => {
            lemma_rewrite_size(*l, x, n);
            lemma_rewrite_size(*r, x, n);
        },
    }
}

/// A name of letters has a rank below `27` to the power of its length.
proof fn lemma_rank_bound(s: Seq<char>)
    requires
        all_letters(s),
    ensures
        0 <= rank(s) < pow27(s.len()),
    decreases s.len(),
{
    if s.len() > 0 {
        let d = s.drop_last();
        assert(all_letters(d)) by {
            assert(forall|i: int| 0 <= i < d.len() ==> d[i] == s[i]);
        }
        lemma_rank_bound(d);
        assert(crate::name_gen::is_letter(s[s.len() - 1]));
    }
}

proof fn lemma_pow27_mono(a: nat, b: nat)
    requires
        a <= b,
    ensures
        1 <= pow27(a) <= pow27(b),
    decreases b,
{
    if b > a {
        lemma_pow27_mono(a, (b - 1) as nat);
    } else if a > 0 {
        lemma_pow27_mono((a - 1) as nat, (a - 1) as nat);
    }
}

pub proof fn lemma_used_len(t: STerm, x: Seq<char>)
    requires
        used_in(t, x),
    ensures
        x.len() <= longest(t),
    decreases t,
{
    match t {
        STerm::Var(_) => {},
        STerm::Abs(p, b) => if p != x {
            lemma_used_len(*b, x);
        },
        STerm::App(l, r) => if used_in(*l, x) {
            lemma_used_len(*l, x);
        } else {
            lemma_used_len(*r, x);
        },
    }
}

/// A name that clashes ranks below the bound.
proof fn lemma_clash_rank(g: Seq<char>, v: Seq<char>, s: STerm, b: STerm)
    requires
        all_letters(g),
        clashes(g, v, s, b),
    ensures
        rank(g) < clash_bound(v, s, b),
{
    if used_in(s, g) {
        lemma_used_len(s, g);
    } else if used_in(b, g) {
        lemma_used_len(b, g);
    }
    lemma_rank_bound(g);
    lemma_pow27_mono(g.len(), v.len() + longest(s) + longest(b));
}

proof fn lemma_fresh_from(g: Seq<char>, v: Seq<char>, s: STerm, b: STerm, fuel: nat)
    requires
        all_letters(g),
        fuel >= clash_bound(v, s, b) - rank(g),
    ensures
        !clashes(fresh_from(g, v, s, b, fuel), v, s, b),
        all_letters(fresh_from(g, v, s, b, fuel)),
    decreases fuel,
{
    if clashes(g, v, s, b) {
        lemma_clash_rank(g, v, s, b);
        lemma_succ_rank(g);
        lemma_fresh_from(succ(g), v, s, b, (fuel - 1) as nat);
    }
}

/// The fresh name does not clash, and is a name of letters.
pub proof fn lemma_fresh(g: Seq<char>, v: Seq<char>, s: STerm, b: STerm)
    requires
        all_letters(g),
    ensures
        !clashes(fresh(g, v, s, b), v, s, b),
        all_letters(fresh(g, v, s, b)),
{
    lemma_succ_rank(g);
    let g1 = succ(g);
    let fuel: nat = if rank(g1) < clash_bound(v, s, b) {
        (clash_bound(v, s, b) - rank(g1)) as nat
    } else {
        0
    };
    lemma_fresh_from(g1, v, s, b, fuel);
}

/// Renames every occurrence of `var` bound by the binder at hand to `new_var`, stopping
/// at an abstraction that binds `var` again.
pub fn rewrite(term: &Term, var: &str, new_var: &str) -> (r: Term)
    ensures
        r@ == rewrite_spec(term@, var@, new_var@),
    decreases term,
{
    match term {
        Term::Var(name) => {
            if same_name(name.as_str(), var) {
                Term::Var(new_var.to_string())
            } else {
                term.copy()
            }
        },
        Term::Abstraction(param, body) => {
            if same_name(param.as_str(), var) {
                term.copy()
            } else {
                Term::Abstraction(param.clone(), Box::new(rewrite(body, var, new_var)))
            }
        },
        Term::Application(l, r) => Term::Application(
            Box::new(rewrite(l, var, new_var)),
            Box::new(rewrite(r, var, new_var)),
        ),
    }
}

/// Draws names from `ng` until one occurs neither in `s` nor in `b` and is not `v`.
/// Fails, with the generator's error and its state unchanged, where the generator's
/// state is not a name of letters.
fn fresh_name(ng: &mut NameGen, v: &str, s: &Term, b: &Term) -> (r: Result<String, String>)
    ensures
        r.is_ok() == old(ng).wf(),
        r matches Ok(n) ==> n@ == fresh(old(ng).curr_ident@, v@, s@, b@) && final(ng).curr_ident@ == n@
            && final(ng).wf(),
        r.is_err() ==> final(ng).curr_ident@ == old(ng).curr_ident@,
{
    let ghost g0 = ng.curr_ident@;
    let ghost bound = clash_bound(v@, s@, b@);
    let mut n = match ng.next() {
        Ok(n) => n,
        Err(e) => {
            return Err(e);
        },
    };
    proof {
        lemma_succ_rank(g0);
    }
    let ghost fuel0: nat = if rank(n@) < bound {
        (bound - rank(n@)) as nat
    } else {
        0
    };
    while is_used(s, n.as_str()) || is_used(b, n.as_str()) || same_name(n.as_str(), v)
        invariant
            ng.wf(),
            ng.curr_ident@ == n@,
            bound == clash_bound(v@, s@, b@),
            fresh(g0, v@, s@, b@) == fresh_from(n@, v@, s@, b@, if rank(n@) < bound {
                (bound - rank(n@)) as nat
            } else {
                0
            }),
        decreases bound - rank(n@),
    {
        proof {
            lemma_clash_rank(n@, v@, s@, b@);
        }
        let ghost old_n = n@;
        n = ng.next().unwrap();
        assert(rank(n@) == rank(old_n) + 1);
    }
    Ok(n)
}

/// Substituting `s` for `v` in `t` comes to a binder that must be renamed, so that a
/// fresh name is drawn.
pub open spec fn needs_fresh(t: STerm, v: Seq<char>, s: STerm) -> bool
    decreases t,
{
    match t {
        STerm::Var(_) => false,
        STerm::Abs(p, b) => if p == v {
            false
        } else if !free_in(s, p) {
            needs_fresh(*b, v, s)
        } else {
            true
        },
        STerm::App(l, r) => needs_fresh(*l, v, s) || needs_fresh(*r, v, s),
    }
}

/// Replaces every free occurrence of `var` in `term` by `substitution`, renaming, with
/// names drawn from `ng`, each binder of `term` that would capture a free variable of
/// `substitution`. Fails with the generator's error exactly where a fresh name is
/// needed and the generator's state is not a name of letters.
pub fn replace(term: &Term, var: &str, substitution: &Term, ng: &mut NameGen) -> (r: Result<Term, String>)
    ensures
        r.is_err() == (!old(ng).wf() && needs_fresh(term@, var@, substitution@)),
        r matches Ok(x) ==> (x@, final(ng).curr_ident@) == replace_spec(
            term@,
            var@,
            substitution@,
            old(ng).curr_ident@,
        ),
        old(ng).wf() ==> final(ng).wf(),
        !old(ng).wf() ==> final(ng).curr_ident@ == old(ng).curr_ident@,
    decreases size(term@),
{
    match term {
        Term::Var(name) => {
            if same_name(name.as_str(), var) {
                Ok(substitution.copy())
            } else {
                Ok(term.copy())
            }
        },
        Term::Abstraction(param, body) => {
            if same_name(param.as_str(), var) {
                Ok(term.copy())
            } else if !is_free(substitution, param.as_str()) {
                match replace(body, var, substitution, ng) {
                    Ok(b2) => Ok(Term::Abstraction(param.clone(), Box::new(b2))),
                    Err(e) => Err(e),
                }
            } else {
                let n = match fresh_name(ng, var, substitution, body) {
                    Ok(n) => n,
                    Err(e) => {
                        return Err(e);
                    },
                };
                let renamed = rewrite(body, param.as_str(), n.as_str());
                proof {
                    lemma_rewrite_size(body@, param@, n@);
                }
                match replace(&renamed, var, substitution, ng) {
                    Ok(b2) => Ok(Term::Abstraction(n, Box::new(b2))),
                    Err(e) => Err(e),
                }
            }
        },
        Term::Application(l, r) => {
            let l2 = match replace(l, var, substitution, ng) {
                Ok(x) => x,
                Err(e) => {
                    return Err(e);
                },
            };
            match replace(r, var, substitution, ng) {
                Ok(r2) => Ok(Term::Application(Box::new(l2), Box::new(r2))),
                Err(e) => Err(e),
            }
        },
    }
}

/// `x` occurs as a free variable in the de Bruijn term `d`.
pub open spec fn db_has_free(d: DTerm, x: Seq<char>) -> bool
    decreases d,
{
    match d {
        DTerm::Free(y) => y == x,
        DTerm::Bound(_) => false,
        DTerm::Lam(b) => db_has_free(*b, x),
        DTerm::App(l, r) => db_has_free(*l, x) || db_has_free(*r, x),
    }
}

/// Substitution of the closed-scope de Bruijn term `s` for the free variable `x` in `d`:
/// binders never capture, since a bound variable counts binders and a free one is named.
pub open spec fn db_subst(d: DTerm, x: Seq<char>, s: DTerm) -> DTerm
    decreases d,
{
    match d {
        DTerm::Free(y) => if y == x {
            s
        } else {
            d
        },
        DTerm::Bound(_) => d,
        DTerm::Lam(b) => DTerm::Lam(Box::new(db_subst(*b, x, s))),
        DTerm::App(l, r) => DTerm::App(Box::new(db_subst(*l, x, s)), Box::new(db_subst(*r, x, s))),
    }
}

/// No name in scope `c` is free in `s`.
pub open spec fn scope_avoids(c: Seq<Seq<char>>, s: STerm) -> bool {
    forall|x: Seq<char>| #[trigger] free_in(s, x) ==> find(c, x) is None
}

proof fn lemma_find_concat(outer: Seq<Seq<char>>, inner: Seq<Seq<char>>, x: Seq<char>)
    ensures
        find(outer + inner, x) == match find(inner, x) {
            Some(j) => Some(outer.len() + j),
            None => find(outer, x),
        },
    decreases inner.len(),
{
    if inner.len() == 0 {
        assert(outer + inner =~= outer);
    } else {
        assert((outer + inner).drop_last() =~= outer + inner.drop_last());
        lemma_find_concat(outer, inner.drop_last(), x);
    }
}

/// A term whose free variables the outer scope does not name has the same de Bruijn
/// form with or without that scope.
proof fn lemma_db_outer(s: STerm, outer: Seq<Seq<char>>, inner: Seq<Seq<char>>)
    requires
        forall|x: Seq<char>| #[trigger] free_in(s, x) && find(inner, x) is None ==> find(outer, x) is None,
    ensures
        to_db(s, outer + inner) == to_db(s, inner),
    decreases s,
{
    match s {
        STerm::Var(x) => {
            assert(free_in(s, x));
            lemma_find_concat(outer, inner, x);
        },
        STerm::Abs(p, b) => {
            assert((outer + inner).push(p) =~= outer + inner.push(p));
            assert forall|x: Seq<char>| #[trigger] free_in(*b, x) && find(inner.push(p), x) is None implies find(outer, x) is None by {
                lemma_find_push(inner, p, x);
                assert(free_in(s, x));
            }
            lemma_db_outer(*b, outer, inner.push(p));
        },
        STerm::App(l, r) => {
            assert forall|x: Seq<char>| #[trigger] free_in(*l, x) && find(inner, x) is None implies find(outer, x) is None by {
                assert(free_in(s, x));
            }
            assert forall|x: Seq<char>| #[trigger] free_in(*r, x) && find(inner, x) is None implies find(outer, x) is None by {
                assert(free_in(s, x));
            }
            lemma_db_outer(*l, outer, inner);
            lemma_db_outer(*r, outer, inner);
        },
    }
}

/// Under a scope that binds `x`, the de Bruijn form has no free `x`.
proof fn lemma_db_bound(t: STerm, c: Seq<Seq<char>>, x: Seq<char>)
    requires
        find(c, x) is Some,
    ensures
        !db_has_free(to_db(t, c), x),
    decreases t,
{
    match t {
        STerm::Var(y) => {},
        STerm::Abs(p, b) => {
            lemma_find_push(c, p, x);
            lemma_db_bound(*b, c.push(p), x);
        },
        STerm::App(l, r) => {
            lemma_db_bound(*l, c, x);
            lemma_db_bound(*r, c, x);
        },
    }
}

proof fn lemma_db_subst_absent(d: DTerm, x: Seq<char>, s: DTerm)
    requires
        !db_has_free(d, x),
    ensures
        db_subst(d, x, s) == d,
    decreases d,
{
    match d {
        DTerm::Lam(b) => lemma_db_subst_absent(*b, x, s),
        DTerm::App(l, r) => {
            lemma_db_subst_absent(*l, x, s);
            lemma_db_subst_absent(*r, x, s);
        },
        _ => {},
    }
}

pub proof fn lemma_free_used(t: STerm, x: Seq<char>)
    ensures
        free_in(t, x) ==> used_in(t, x),
    decreases t,
{
    match t {
        STerm::Var(_) => {},
        STerm::Abs(_, b) => lemma_free_used(*b, x),
        STerm::App(l, r) => {
            lemma_free_used(*l, x);
            lemma_free_used(*r, x);
        },
    }
}

/// Two scopes that differ in one name, which is not free in `t` where it would be
/// reached, give `t` the same de Bruijn form.
proof fn lemma_db_swap(t: STerm, c: Seq<Seq<char>>, a1: Seq<char>, a2: Seq<char>, inner: Seq<Seq<char>>)
    requires
        forall|x: Seq<char>| #[trigger] free_in(t, x) && find(inner, x) is None ==> x != a1 && x != a2,
    ensures
        to_db(t, c.push(a1) + inner) == to_db(t, c.push(a2) + inner),
    decreases t,
{
    match t {
        STerm::Var(x) => {
            assert(free_in(t, x));
            lemma_find_concat(c.push(a1), inner, x);
            lemma_find_concat(c.push(a2), inner, x);
            lemma_find_push(c, a1, x);
            lemma_find_push(c, a2, x);
        },
        STerm::Abs(p, b) => {
            assert((c.push(a1) + inner).push(p) =~= c.push(a1) + inner.push(p));
            assert((c.push(a2) + inner).push(p) =~= c.push(a2) + inner.push(p));
            assert forall|x: Seq<char>| #[trigger] free_in(*b, x) && find(inner.push(p), x) is None implies x != a1 && x != a2 by {
                lemma_find_push(inner, p, x);
                assert(free_in(t, x));
            }
            lemma_db_swap(*b, c, a1, a2, inner.push(p));
        },
        STerm::App(l, r) => {
            assert forall|x: Seq<char>| #[trigger] free_in(*l, x) && find(inner, x) is None implies x != a1 && x != a2 by {
                assert(free_in(t, x));
            }
            assert forall|x: Seq<char>| #[trigger] free_in(*r, x) && find(inner, x) is None implies x != a1 && x != a2 by {
                assert(free_in(t, x));
            }
            lemma_db_swap(*l, c, a1, a2, inner);
            lemma_db_swap(*r, c, a1, a2, inner);
        },
    }
}

/// Renaming a binder's variable `p` to a name `n` that the body does not use keeps the
/// de Bruijn form.
proof fn lemma_db_rewrite(b: STerm, c: Seq<Seq<char>>, p: Seq<char>, n: Seq<char>, inner: Seq<Seq<char>>)
    requires
        !used_in(b, n),
        find(inner, p) is None,
        find(inner, n) is None,
    ensures
        to_db(rewrite_spec(b, p, n), c.push(n) + inner) == to_db(b, c.push(p) + inner),
    decreases b,
{
    match b {
        STerm::Var(x) => {
            lemma_find_concat(c.push(n), inner, n);
            lemma_find_concat(c.push(p), inner, p);
            lemma_find_concat(c.push(n), inner, x);
            lemma_find_concat(c.push(p), inner, x);
            lemma_find_push(c, n, n);
            lemma_find_push(c, p, p);
            lemma_find_push(c, n, x);
            lemma_find_push(c, p, x);
        },
        STerm::Abs(q, b2) => {
            assert((c.push(n) + inner).push(q) =~= c.push(n) + inner.push(q));
            assert((c.push(p) + inner).push(q) =~= c.push(p) + inner.push(q));
            if q == p {
                assert forall|x: Seq<char>| #[trigger] free_in(*b2, x) && find(inner.push(q), x) is None implies x != n && x != p by {
                    lemma_find_push(inner, q, x);
                    lemma_free_used(*b2, x);
                }
                lemma_db_swap(*b2, c, n, p, inner.push(q));
            } else {
                lemma_find_push(inner, q, p);
                lemma_find_push(inner, q, n);
                lemma_db_rewrite(*b2, c, p, n, inner.push(q));
            }
        },
        STerm::App(l, r) => {
            lemma_db_rewrite(*l, c, p, n, inner);
            lemma_db_rewrite(*r, c, p, n, inner);
        },
    }
}

/// The generator stays a name of letters through a substitution.
pub proof fn lemma_replace_letters(t: STerm, v: Seq<char>, s: STerm, g: Seq<char>)
    requires
        all_letters(g),
    ensures
        all_letters(replace_spec(t, v, s, g).1),
    decreases size(t),
{
    match t {
        STerm::Var(_) => {},
        STerm::Abs(p, b) => {
            if p != v {
                if !free_in(s, p) {
                    lemma_replace_letters(*b, v, s, g);
                } else {
                    let n = fresh(g, v, s, *b);
                    lemma_fresh(g, v, s, *b);
                    lemma_rewrite_size(*b, p, n);
                    lemma_replace_letters(rewrite_spec(*b, p, n), v, s, n);
                }
            }
        },
        STerm::App(l, r) => {
            lemma_replace_letters(*l, v, s, g);
            lemma_replace_letters(*r, v, s, replace_spec(*l, v, s, g).1);
        },
    }
}

proof fn lemma_replace_db(t: STerm, v: Seq<char>, s: STerm, g: Seq<char>, c: Seq<Seq<char>>)
    requires
        all_letters(g),
        find(c, v) is None,
        scope_avoids(c, s),
    ensures
        to_db(replace_spec(t, v, s, g).0, c) == db_subst(to_db(t, c), v, to_db(s, Seq::empty())),
    decreases size(t),
{
    let e = Seq::<Seq<char>>::empty();
    match t {
        STerm::Var(x) => {
            assert(c + e =~= c);
            lemma_db_outer(s, c, e);
        },
        STerm::Abs(p, b) => {
            if p == v {
                lemma_find_push(c, p, v);
                lemma_db_bound(*b, c.push(p), v);
                lemma_db_subst_absent(to_db(*b, c.push(p)), v, to_db(s, e));
            } else if !free_in(s, p) {
                lemma_find_push(c, p, v);
                assert forall|x: Seq<char>| #[trigger] free_in(s, x) implies find(c.push(p), x) is None by {
                    lemma_find_push(c, p, x);
                }
                lemma_replace_db(*b, v, s, g, c.push(p));
            } else {
                let n = fresh(g, v, s, *b);
                lemma_fresh(g, v, s, *b);
                lemma_rewrite_size(*b, p, n);
                lemma_find_push(c, n, v);
                assert forall|x: Seq<char>| #[trigger] free_in(s, x) implies find(c.push(n), x) is None by {
                    lemma_find_push(c, n, x);
                    lemma_free_used(s, x);
                }
                lemma_replace_db(rewrite_spec(*b, p, n), v, s, n, c.push(n));
                assert(c.push(n) + e =~= c.push(n));
                assert(c.push(p) + e =~= c.push(p));
                lemma_db_rewrite(*b, c, p, n, e);
            }
        },
        STerm::App(l, r) => {
            lemma_replace_db(*l, v, s, g, c);
            lemma_replace_letters(*l, v, s, g);
            lemma_replace_db(*r, v, s, replace_spec(*l, v, s, g).1, c);
        },
    }
}

/// Substitution is free of capture: the result has the de Bruijn form of the term with
/// the de Bruijn form of `s` put in place of each free `v`, so that every free variable
/// of each copy of `s` stays free, and the result is the intended substitution up to the
/// names of bound variables.
pub proof fn lemma_capture_free(t: STerm, v: Seq<char>, s: STerm, g: Seq<char>)
    requires
        all_letters(g),
    ensures
        to_db(replace_spec(t, v, s, g).0, Seq::empty()) == db_subst(
            to_db(t, Seq::empty()),
            v,
            to_db(s, Seq::empty()),
        ),
{
    lemma_replace_db(t, v, s, g, Seq::empty());
}

} // verus!
