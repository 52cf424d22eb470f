use vstd::prelude::*;
use crate::canon::{
    canon, debruijn, debruijn_aesthetic, lemma_alpha_invariance, lemma_canon_alpha, lemma_canon_idempotent,
};
use crate::term::binders;
use crate::name_gen::NameGen;
use crate::subst::{replace, replace_spec};
use crate::term::{term_eq, Program, STerm, Term, TermOrDef};
use crate::text::same_name;

verus! {

/// The bound on the recursion depth of one pass of the reduction engine.
pub const MAX_DEPTH: u64 = 1000;

/// The bound on the number of reduction passes for one term.
pub const MAX_PASSES: u64 = 100;

/// The bound on the number of passes that expand definitions in one term.
pub const MAX_EXPANSIONS: u64 = 100;

/// The definitions in force: names and their right-hand sides, latest last.
pub open spec fn env_view(env: Seq<(String, Term)>) -> Seq<(Seq<char>, STerm)> {
    env.map_values(|e: (String, Term)| (e.0@, e.1@))
}

/// The right-hand side of the latest definition of `x` in `env`.
pub open spec fn env_find(env: Seq<(Seq<char>, STerm)>, x: Seq<char>) -> Option<STerm>
    decreases env.len(),
{
    if env.len() == 0 {
        None
    } else if env.last().0 == x {
        Some(env.last().1)
    } else {
        env_find(env.drop_last(), x)
    }
}

/// One expansion pass: every variable named by a definition becomes that definition's
/// right-hand side.
pub open spec fn lookups(t: STerm, env: Seq<(Seq<char>, STerm)>) -> STerm
    decreases t,
{
    match t {
        STerm::Var(x) => match env_find(env, x) {
            Some(u) => u,
            None => t,
        },
        STerm::Abs(p, b) => STerm::Abs(p, Box::new(lookups(*b, env))),
        STerm::App(l, r) => STerm::App(Box::new(lookups(*l, env)), Box::new(lookups(*r, env))),
    }
}

/// Expansion passes until one changes nothing, at most `fuel` more after the first.
pub open spec fn expand_spec(t: STerm, env: Seq<(Seq<char>, STerm)>, fuel: nat) -> STerm
    decreases fuel,
{
    let u = lookups(t, env);
    if u == t || fuel == 0 {
        u
    } else {
        expand_spec(u, env, (fuel - 1) as nat)
    }
}

/// One pass of the reduction engine, leftmost-outermost first, at recursion depth
/// `depth`, with the name generator in state `g`; the result and the generator's state.
/// A redex is contracted and its result reduced further; in another application both
/// sides are reduced, and if the left side has become an abstraction the new redex is
/// contracted too; under a binder the body is reduced. At depth `MAX_DEPTH` the term is
/// returned as it stands.
pub open spec fn reduce_spec(t: STerm, g: Seq<char>, depth: nat) -> (STerm, Seq<char>)
    decreases MAX_DEPTH - depth,
{
    if depth >= MAX_DEPTH {
        (t, g)
    } else {
        match t {
            STerm::Var(_) => (t, g),
            STerm::Abs(p, b) => {
                let (b2, g2) = reduce_spec(*b, g, depth + 1);
                (STerm::Abs(p, Box::new(b2)), g2)
            },
            STerm::App(l, r) => match *l {
                STerm::Abs(p, b) => {
                    let (x, g2) = replace_spec(*b, p, *r, g);
                    reduce_spec(x, g2, depth + 1)
                },
                _ => {
                    let (l2, g2) = reduce_spec(*l, g, depth + 1);
                    let (r2, g3) = reduce_spec(*r, g2, depth + 1);
                    match l2 {
                        STerm::Abs(p, b) => {
                            let (x, g4) = replace_spec(*b, p, r2, g3);
                            reduce_spec(x, g4, depth + 1)
                        },
                        _ => (STerm::App(Box::new(l2), Box::new(r2)), g3),
                    }
                },
            },
        }
    }
}

/// The starting state of the name generator.
pub open spec fn seed() -> Seq<char> {
    seq!['a']
}

/// One full pass of the engine with a newly started generator, in comparison form.
pub open spec fn pass_spec(t: STerm) -> STerm {
    canon(reduce_spec(t, seed(), 0).0, 0, false)
}

/// Passes from `c` until one leaves the term unchanged, at most `fuel` of them; the
/// final comparison form and whether a pass left it unchanged.
pub open spec fn normalize_spec(c: STerm, fuel: nat) -> (STerm, bool)
    decreases fuel,
{
    if fuel == 0 {
        (c, false)
    } else {
        let n = pass_spec(c);
        if n == c {
            (c, true)
        } else {
            normalize_spec(n, (fuel - 1) as nat)
        }
    }
}

/// `t` holds no redex: it is in normal form.
pub open spec fn is_normal(t: STerm) -> bool
    decreases t,
{
    match t {
        STerm::Var(_) => true,
        STerm::Abs(_, b) => is_normal(*b),
        STerm::App(l, r) => !(*l is Abs) && is_normal(*l) && is_normal(*r),
    }
}

/// The outcome of normalising a top-level term under definitions `env`: the final
/// comparison form, and whether it is a normal form reached within the caps, with
/// definition expansion at a fixpoint.
pub open spec fn outcome_spec(t: STerm, env: Seq<(Seq<char>, STerm)>) -> (STerm, bool) {
    let e = expand_spec(t, env, MAX_EXPANSIONS as nat);
    let (c, stopped) = normalize_spec(canon(e, 0, false), MAX_PASSES as nat);
    (c, stopped && is_normal(c) && lookups(e, env) == e)
}

/// Whether `term` holds no redex.
pub fn is_normal_form(term: &Term) -> (r: bool)
    ensures
        r == is_normal(term@),
    decreases term,
{
    match term {
        Term::Var(_) => true,
        Term::Abstraction(_, b) => is_normal_form(b),
        Term::Application(l, r) => match &**l {
            Term::Abstraction(_, _) => false,
            _ => {
                assert(!(l@ is Abs));
                is_normal_form(l) && is_normal_form(r)
            },
        },
    }
}

/// Where normalisation reports convergence, one more pass of the engine on its result,
/// in comparison form, gives that result back.
pub proof fn lemma_fixpoint(c: STerm, fuel: nat)
    ensures
        normalize_spec(c, fuel).1 ==> pass_spec(normalize_spec(c, fuel).0) == normalize_spec(c, fuel).0,
    decreases fuel,
{
    if fuel > 0 && pass_spec(c) != c {
        lemma_fixpoint(pass_spec(c), (fuel - 1) as nat);
    }
}

/// Each result of the passes is a comparison form.
proof fn lemma_normalize_canonical(c: STerm, fuel: nat)
    requires
        exists|x: STerm| c == #[trigger] canon(x, 0, false),
    ensures
        exists|x: STerm| normalize_spec(c, fuel).0 == #[trigger] canon(x, 0, false),
    decreases fuel,
{
    if fuel > 0 && pass_spec(c) != c {
        let x = reduce_spec(c, seed(), 0).0;
        assert(pass_spec(c) == canon(x, 0, false));
        lemma_normalize_canonical(pass_spec(c), (fuel - 1) as nat);
    }
}

proof fn lemma_lookups_empty(t: STerm)
    ensures
        lookups(t, Seq::empty()) == t,
    decreases t,
{
    match t {
        STerm::Var(_) => {},
        STerm::Abs(_, b) => lemma_lookups_empty(*b),
        STerm::App(l, r) => {
            lemma_lookups_empty(*l);
            lemma_lookups_empty(*r);
        },
    }
}

/// Normalising again, with no definitions, the display form of a converged result gives
/// the same comparison form, again converged, and the same display form. The indices
/// must fit in a `u64`.
pub proof fn lemma_rerun(t: STerm, env: Seq<(Seq<char>, STerm)>)
    requires
        outcome_spec(t, env).1,
        binders(outcome_spec(t, env).0) <= u64::MAX,
    ensures
        outcome_spec(canon(outcome_spec(t, env).0, 0, true), Seq::empty()) == (outcome_spec(t, env).0, true),
{
    let e = expand_spec(t, env, MAX_EXPANSIONS as nat);
    let c0 = canon(e, 0, false);
    let c = outcome_spec(t, env).0;
    let d = canon(c, 0, true);
    lemma_normalize_canonical(c0, MAX_PASSES as nat);
    let x = choose|x: STerm| c == #[trigger] canon(x, 0, false);
    crate::canon::lemma_canon_binders_top(x, 0, false);
    lemma_canon_idempotent(x, 0, false);
    lemma_canon_alpha(c, 0, true);
    lemma_alpha_invariance(d, c, 0, false);
    lemma_lookups_empty(d);
    lemma_fixpoint(c0, MAX_PASSES as nat);
    assert(expand_spec(d, Seq::empty(), MAX_EXPANSIONS as nat) == d);
    assert(canon(d, 0, false) == c);
}

/// The right-hand side of the latest definition of `name` in `env`.
fn find_definition<'a>(env: &'a Vec<(String, Term)>, name: &str) -> (r: Option<&'a Term>)
    ensures
        match r {
            Some(t) => env_find(env_view(env@), name@) == Some(t@),
            None => env_find(env_view(env@), name@) is None,
        },
{
    let mut k: usize = env.len();
    assert(env_view(env@).subrange(0, k as int) =~= env_view(env@));
    while k > 0
        invariant
            k <= env@.len(),
            env_find(env_view(env@), name@) == env_find(env_view(env@).subrange(0, k as int), name@),
        decreases k,
    {
        let ghost sub = env_view(env@).subrange(0, k as int);
        assert(sub.drop_last() =~= env_view(env@).subrange(0, k - 1));
        if same_name(env[k - 1].0.as_str(), name) {
            return Some(&env[k - 1].1);
        }
        k -= 1;
    }
    assert(env_view(env@).subrange(0, 0) =~= Seq::<(Seq<char>, STerm)>::empty());
    None
}

/// Replaces every variable that a definition names by the definition's right-hand side.
pub fn perform_lookups(term: &Term, env: &Vec<(String, Term)>) -> (r: Term)
    ensures
        r@ == lookups(term@, env_view(env@)),
    decreases term,
{
    match term {
        Term::Var(name) => match find_definition(env, name.as_str()) {
            Some(t) => t.copy(),
            None => term.copy(),
        },
        Term::Abstraction(param, body) => Term::Abstraction(param.clone(), Box::new(perform_lookups(body, env))),
        Term::Application(l, r) => Term::Application(
            Box::new(perform_lookups(l, env)),
            Box::new(perform_lookups(r, env)),
        ),
    }
}

/// Expands definitions in `term` until a pass changes nothing, or `MAX_EXPANSIONS`
/// passes after the first have been made.
pub fn expand(term: &Term, env: &Vec<(String, Term)>) -> (r: Term)
    ensures
        r@ == expand_spec(term@, env_view(env@), MAX_EXPANSIONS as nat),
{
    let mut prev = term.copy();
    let mut cur = perform_lookups(&prev, env);
    let mut fuel: u64 = MAX_EXPANSIONS;
    while !term_eq(&cur, &prev) && fuel > 0
        invariant
            cur@ == lookups(prev@, env_view(env@)),
            expand_spec(term@, env_view(env@), MAX_EXPANSIONS as nat) == expand_spec(prev@, env_view(env@), fuel as nat),
        decreases fuel,
    {
        prev = cur;
        cur = perform_lookups(&prev, env);
        fuel -= 1;
    }
    cur
}

/// One pass of the reduction engine at recursion depth `depth`, drawing fresh names
/// from `ng`. Succeeds where the generator's state is a name of letters; a failure of the
/// generator is passed on as it comes.
pub fn reduce_term(term: &Term, ng: &mut NameGen, depth: u64) -> (r: Result<Term, String>)
    ensures
        r matches Ok(x) ==> (x@, final(ng).curr_ident@) == reduce_spec(term@, old(ng).curr_ident@, depth as nat),
        old(ng).wf() ==> r.is_ok() && final(ng).wf(),
        r.is_err() ==> !old(ng).wf(),
        !old(ng).wf() ==> final(ng).curr_ident@ == old(ng).curr_ident@,
    decreases MAX_DEPTH - depth,
{
    if depth >= MAX_DEPTH {
        return Ok(term.copy());
    }
    match term {
        Term::Var(_) => Ok(term.copy()),
        Term::Abstraction(param, body) => {
            let b2 = reduce_term(body, ng, depth + 1)?;
            Ok(Term::Abstraction(param.clone(), Box::new(b2)))
        },
        Term::Application(l, r) => match &**l {
            Term::Abstraction(param, body) => {
                let x = replace(body, param.as_str(), r, ng)?;
                reduce_term(&x, ng, depth + 1)
            },
            _ => {
                assert(!(l@ is Abs));
                let l2 = reduce_term(l, ng, depth + 1)?;
                let r2 = reduce_term(r, ng, depth + 1)?;
                match l2 {
                    Term::Abstraction(param, body) => {
                        let x = replace(&body, param.as_str(), &r2, ng)?;
                        reduce_term(&x, ng, depth + 1)
                    },
                    _ => Ok(Term::Application(Box::new(l2), Box::new(r2))),
                }
            },
        },
    }
}

/// One full pass of the engine on `term`, with a newly started name generator, in
/// comparison form.
pub fn reduce_pass(term: &Term) -> (r: Term)
    ensures
        r@ == pass_spec(term@),
{
    let mut ng = NameGen::new();
    let reduced = reduce_term(term, &mut ng, 0).unwrap();
    debruijn(&reduced, 0)
}

/// The result of normalising one top-level term.
#[derive(Debug)]
pub struct Normalized {
    /// The final term in comparison form.
    pub comparison: Term,
    /// The final term in display form.
    pub display: Term,
    /// Whether definition expansion reached a fixpoint, a pass left the term unchanged
    /// within `MAX_PASSES` passes, and the term holds no redex; where it is false the
    /// result is the term as a cap left it, not a normal form.
    pub converged: bool,
}

/// Normalises `term` under the definitions `env`: expands definitions, canonicalises,
/// and runs reduction passes until one leaves the comparison form unchanged or
/// `MAX_PASSES` passes have been run. The result counts as converged only where
/// expansion reached a fixpoint and the passes stopped on an unchanged term that holds
/// no redex.
pub fn normalize(term: &Term, env: &Vec<(String, Term)>) -> (r: Normalized)
    ensures
        r.comparison@ == outcome_spec(term@, env_view(env@)).0,
        r.converged == outcome_spec(term@, env_view(env@)).1,
        r.converged ==> is_normal(r.comparison@) && pass_spec(r.comparison@) == r.comparison@,
        r.converged ==> lookups(expand_spec(term@, env_view(env@), MAX_EXPANSIONS as nat), env_view(env@))
            == expand_spec(term@, env_view(env@), MAX_EXPANSIONS as nat),
        r.display@ == canon(r.comparison@, 0, true),
{
    let ghost c0 = canon(expand_spec(term@, env_view(env@), MAX_EXPANSIONS as nat), 0, false);
    proof {
        lemma_fixpoint(c0, MAX_PASSES as nat);
    }
    let expanded = expand(term, env);
    let mut cur = debruijn(&expanded, 0);
    let mut fuel: u64 = MAX_PASSES;
    let mut converged = false;
    while fuel > 0
        invariant_except_break
            !converged,
            normalize_spec(c0, MAX_PASSES as nat) == normalize_spec(cur@, fuel as nat),
        ensures
            normalize_spec(c0, MAX_PASSES as nat) == (cur@, converged),
        decreases fuel,
    {
        let next = reduce_pass(&cur);
        if term_eq(&next, &cur) {
            converged = true;
            break;
        }
        cur = next;
        fuel -= 1;
    }
    let settled = term_eq(&perform_lookups(&expanded, env), &expanded);
    let converged = converged && is_normal_form(&cur) && settled;
    let display = debruijn_aesthetic(&cur, 0);
    Normalized { comparison: cur, display, converged }
}

/// The definitions that the entries `es` make, in order.
pub open spec fn defs_spec(es: Seq<TermOrDef>) -> Seq<(Seq<char>, STerm)>
    decreases es.len(),
{
    if es.len() == 0 {
        Seq::empty()
    } else {
        match es.last() {
            TermOrDef::Definition(n, t) => defs_spec(es.drop_last()).push((n@, t@)),
            TermOrDef::Term(_) => defs_spec(es.drop_last()),
        }
    }
}

/// The display forms of the results of the term entries of `es`, in order, each
/// normalised under the definitions before it.
pub open spec fn results_spec(es: Seq<TermOrDef>) -> Seq<STerm>
    decreases es.len(),
{
    if es.len() == 0 {
        Seq::empty()
    } else {
        match es.last() {
            TermOrDef::Definition(_, _) => results_spec(es.drop_last()),
            TermOrDef::Term(t) => results_spec(es.drop_last()).push(
                canon(outcome_spec(t@, defs_spec(es.drop_last())).0, 0, true),
            ),
        }
    }
}

/// Normalises each term entry of `program` under the definitions before it, and returns
/// the results in display form, in order; definitions give no entry of the result.
pub fn reduce(program: &Program) -> (r: Program)
    ensures
        r.0@.len() == results_spec(program.0@).len(),
        forall|i: int| 0 <= i < r.0@.len() ==> (#[trigger] r.0@[i] matches TermOrDef::Term(t) && t@ == results_spec(program.0@)[i]),
{
    let entries = &program.0;
    let mut env: Vec<(String, Term)> = Vec::new();
    let mut out: Vec<TermOrDef> = Vec::new();
    let mut i: usize = 0;
    while i < entries.len()
        invariant
            i <= entries@.len(),
            env_view(env@) == defs_spec(entries@.subrange(0, i as int)),
            out@.len() == results_spec(entries@.subrange(0, i as int)).len(),
            forall|k: int| 0 <= k < out@.len() ==> (#[trigger] out@[k] matches TermOrDef::Term(t) && t@ == results_spec(entries@.subrange(0, i as int))[k]),
        decreases entries@.len() - i,
    {
        let ghost pre = entries@.subrange(0, i as int);
        assert(entries@.subrange(0, i + 1).drop_last() =~= pre);
        match &entries[i] {
            TermOrDef::Definition(name, t) => {
                let ghost env0 = env@;
                env.push((name.clone(), t.copy()));
                assert(env_view(env@) =~= env_view(env0).push((name@, t@)));
            },
            TermOrDef::Term(t) => {
                let n = normalize(t, &env);
                out.push(TermOrDef::Term(n.display));
            },
        }
        i += 1;
    }
    assert(entries@.subrange(0, entries@.len() as int) =~= entries@);
    Program(out)
}

} // verus!
