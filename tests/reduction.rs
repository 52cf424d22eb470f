use lambda_norm::canon::{debruijn, debruijn_aesthetic};
use lambda_norm::machine::{expand, normalize, perform_lookups, reduce, reduce_pass, reduce_term};
use lambda_norm::name_gen::NameGen;
use lambda_norm::subst::{replace, rewrite};
use lambda_norm::term::{count_max_binders, is_free, is_used, Program, Term, TermOrDef};

fn v(n: &str) -> Term {
    Term::Var(n.to_string())
}

fn lam(p: &str, b: Term) -> Term {
    Term::Abstraction(p.to_string(), Box::new(b))
}

fn app(l: Term, r: Term) -> Term {
    Term::Application(Box::new(l), Box::new(r))
}

fn omega() -> Term {
    let w = lam("x", app(v("x"), v("x")));
    app(w.copy(), w)
}

fn gen(s: &str) -> NameGen {
    NameGen { curr_ident: s.to_string() }
}

#[test]
fn identity_applied_reduces_to_argument() {
    let t = app(lam("x", v("x")), v("y"));
    let n = normalize(&t, &Vec::new());
    assert!(n.converged);
    assert_eq!(n.display, v("y"));
    assert_eq!(n.comparison, v("y"));
}

#[test]
fn definition_is_expanded_at_use() {
    let p = Program(vec![
        TermOrDef::Definition("id".to_string(), lam("x", v("x"))),
        TermOrDef::Term(app(v("id"), v("z"))),
    ]);
    let r = reduce(&p);
    assert_eq!(r.0.len(), 1);
    assert_eq!(r.0[0], TermOrDef::Term(v("z")));
}

#[test]
fn church_true_selects_first_argument() {
    let t = app(app(lam("x", lam("y", v("x"))), v("a")), v("b"));
    let n = normalize(&t, &Vec::new());
    assert!(n.converged);
    assert_eq!(n.display, v("a"));
}

#[test]
fn substitution_renames_capturing_binder() {
    let t = lam("y", v("x"));
    let mut ng = NameGen::new();
    let r = replace(&t, "x", &v("y"), &mut ng).unwrap();
    match r {
        Term::Abstraction(p, b) => {
            assert_ne!(p, "y");
            assert_eq!(*b, v("y"));
        }
        _ => panic!("expected an abstraction"),
    }
}

#[test]
fn substitution_stops_at_shadowing_binder() {
    let t = app(v("x"), lam("x", v("x")));
    let mut ng = NameGen::new();
    let r = replace(&t, "x", &v("q"), &mut ng).unwrap();
    assert_eq!(r, app(v("q"), lam("x", v("x"))));
}

#[test]
fn substitution_may_mention_the_variable() {
    let t = app(v("x"), v("x"));
    let mut ng = NameGen::new();
    let r = replace(&t, "x", &app(v("x"), v("x")), &mut ng).unwrap();
    assert_eq!(r, app(app(v("x"), v("x")), app(v("x"), v("x"))));
}

#[test]
fn self_application_is_capped_not_converged() {
    let n = normalize(&omega(), &Vec::new());
    assert!(!n.converged);
}

#[test]
fn ignored_divergent_argument_is_discarded() {
    let t = app(app(lam("x", lam("y", v("x"))), v("a")), omega());
    let n = normalize(&t, &Vec::new());
    assert!(n.converged);
    assert_eq!(n.display, v("a"));
}

#[test]
fn alpha_equivalent_terms_have_equal_comparison_forms() {
    let t = lam("x", lam("y", app(v("x"), app(v("y"), v("f")))));
    let u = lam("a", lam("b", app(v("a"), app(v("b"), v("f")))));
    assert_eq!(debruijn(&t, 0), debruijn(&u, 0));
    assert_eq!(debruijn_aesthetic(&t, 0), debruijn_aesthetic(&u, 0));
    let w = lam("a", lam("b", app(v("b"), app(v("a"), v("f")))));
    assert_ne!(debruijn(&t, 0), debruijn(&w, 0));
}

#[test]
fn comparison_form_names() {
    let t = lam("x", lam("y", v("x")));
    assert_eq!(debruijn(&t, 0), lam("_2", lam("_1", v("_2"))));
    assert_eq!(debruijn(&t, 5), lam("_7", lam("_6", v("_7"))));
    let u = app(lam("x", v("x")), lam("y", v("y")));
    assert_eq!(debruijn(&u, 0), app(lam("_2", v("_2")), lam("_1", v("_1"))));
}

#[test]
fn display_form_names() {
    let t = lam("x", lam("y", v("x")));
    assert_eq!(debruijn_aesthetic(&t, 0), lam("2", lam("1", v("2"))));
    let u = app(lam("x", v("x")), lam("y", v("y")));
    assert_eq!(debruijn_aesthetic(&u, 0), app(lam("1", v("1")), lam("1", v("1"))));
}

#[test]
fn canonical_form_leaves_free_variables() {
    let t = lam("x", app(v("x"), v("free")));
    assert_eq!(debruijn(&t, 0), lam("_1", app(v("_1"), v("free"))));
}

#[test]
fn canonicalisation_is_idempotent() {
    let t = app(lam("x", lam("y", app(v("y"), v("x")))), lam("z", v("w")));
    let c = debruijn(&t, 0);
    assert_eq!(debruijn(&c, 0), c);
    let d = debruijn_aesthetic(&t, 0);
    assert_eq!(debruijn_aesthetic(&d, 0), d);
}

#[test]
fn converged_result_is_a_fixpoint_of_a_pass() {
    let t = app(lam("f", lam("x", app(v("f"), v("x")))), lam("y", v("y")));
    let n = normalize(&t, &Vec::new());
    assert!(n.converged);
    assert_eq!(reduce_pass(&n.comparison), n.comparison);
    assert_eq!(n.display, lam("1", v("1")));
}

#[test]
fn names_count_up_with_carry() {
    let mut g = NameGen::new();
    assert_eq!(g.next().unwrap(), "b");
    let mut g = gen("z");
    assert_eq!(g.next().unwrap(), "aa");
    let mut g = gen("az");
    assert_eq!(g.next().unwrap(), "ba");
    let mut g = gen("zz");
    assert_eq!(g.next().unwrap(), "aaa");
    assert_eq!(g.curr_ident, "aaa");
    assert_eq!(g.next().unwrap(), "aab");
}

#[test]
fn names_never_repeat() {
    let mut g = NameGen::new();
    let mut seen = vec![g.curr_ident.clone()];
    for _ in 0..800 {
        let n = g.next().unwrap();
        assert!(!seen.contains(&n));
        seen.push(n);
    }
}

#[test]
fn misconfigured_generator_fails() {
    let mut g = gen("aB");
    assert!(g.next().is_err());
    assert_eq!(g.curr_ident, "aB");
}

#[test]
fn free_and_used_variables() {
    let t = lam("x", app(v("x"), v("y")));
    assert!(!is_free(&t, "x"));
    assert!(is_free(&t, "y"));
    assert!(is_used(&t, "x"));
    assert!(!is_used(&t, "z"));
    assert!(is_free(&app(v("a"), v("b")), "b"));
}

#[test]
fn binder_count() {
    let t = app(lam("x", lam("y", v("x"))), lam("z", v("z")));
    assert_eq!(count_max_binders(&t), 3);
    assert_eq!(count_max_binders(&v("x")), 0);
}

#[test]
fn rewrite_respects_shadowing() {
    let t = app(v("x"), lam("x", v("x")));
    assert_eq!(rewrite(&t, "x", "k"), app(v("k"), lam("x", v("x"))));
}

#[test]
fn lookups_and_expansion_chain() {
    let env = vec![
        ("a".to_string(), lam("x", v("x"))),
        ("b".to_string(), v("a")),
    ];
    let t = app(v("b"), v("c"));
    assert_eq!(perform_lookups(&t, &env), app(v("a"), v("c")));
    assert_eq!(expand(&t, &env), app(lam("x", v("x")), v("c")));
}

#[test]
fn later_definition_wins() {
    let p = Program(vec![
        TermOrDef::Definition("k".to_string(), v("one")),
        TermOrDef::Term(v("k")),
        TermOrDef::Definition("k".to_string(), v("two")),
        TermOrDef::Term(v("k")),
    ]);
    let r = reduce(&p);
    assert_eq!(r.0, vec![TermOrDef::Term(v("one")), TermOrDef::Term(v("two"))]);
}

#[test]
fn reduction_under_binder() {
    let t = lam("z", app(lam("x", v("x")), v("z")));
    let mut ng = NameGen::new();
    assert_eq!(reduce_term(&t, &mut ng, 0).unwrap(), lam("z", v("z")));
}

#[test]
fn reduction_stops_at_depth_cap() {
    let t = app(lam("x", v("x")), v("y"));
    let mut ng = NameGen::new();
    assert_eq!(reduce_term(&t, &mut ng, 1000).unwrap(), t);
}

#[test]
fn reduction_re_examines_new_head() {
    let t = app(app(lam("f", v("f")), lam("x", v("x"))), v("q"));
    let mut ng = NameGen::new();
    assert_eq!(reduce_term(&t, &mut ng, 0).unwrap(), v("q"));
}

#[test]
fn texts() {
    let t = app(lam("x", v("x")), v("y"));
    assert_eq!(t.to_string(), "((λx.x) y)");
    let d = TermOrDef::Definition("id".to_string(), lam("x", v("x")));
    assert_eq!(d.to_string(), "id := (λx.x)");
    let p = Program(vec![d, TermOrDef::Term(v("z"))]);
    assert_eq!(p.to_string(), "id := (λx.x)\nz\n");
}

#[test]
fn free_variable_shaped_like_a_binder_name_is_not_captured() {
    let t = app(lam("x", v("_1")), v("a"));
    let n = normalize(&t, &Vec::new());
    assert!(n.converged);
    assert_eq!(n.comparison, v("_1"));
    assert_eq!(n.display, v("_1"));
    let k = lam("x", v("_1"));
    assert_eq!(debruijn(&k, 0), lam("__1", v("_1")));
    assert_ne!(debruijn(&k, 0), debruijn(&lam("x", v("x")), 0));
}

#[test]
fn display_form_avoids_numeral_free_variables() {
    let t = lam("x", v("1"));
    assert_eq!(debruijn_aesthetic(&t, 0), lam("_1", v("1")));
    assert_ne!(debruijn_aesthetic(&t, 0), debruijn_aesthetic(&lam("x", v("x")), 0));
    let u = lam("x", app(v("x"), v("_7")));
    assert_eq!(debruijn_aesthetic(&u, 0), lam("1", app(v("1"), v("_7"))));
}

#[test]
fn generator_failure_is_passed_on() {
    let t = lam("y", v("x"));
    let mut ng = gen("A");
    assert!(replace(&t, "x", &v("y"), &mut ng).is_err());
    assert_eq!(ng.curr_ident, "A");
    let mut ng = gen("A");
    assert_eq!(replace(&t, "x", &v("z"), &mut ng).unwrap(), lam("y", v("z")));
    let mut ng = gen("A");
    let redex = app(lam("x", lam("y", v("x"))), v("y"));
    assert!(reduce_term(&redex, &mut ng, 0).is_err());
    let mut ng = gen("A");
    let plain = app(lam("x", v("x")), v("y"));
    assert_eq!(reduce_term(&plain, &mut ng, 0).unwrap(), v("y"));
    assert!(!gen("A").is_valid());
    assert!(NameGen::new().is_valid());
}

#[test]
fn capped_expansion_is_not_converged() {
    let env = vec![("f".to_string(), lam("x", app(v("f"), v("x"))))];
    let n = normalize(&v("f"), &env);
    assert!(!n.converged);
}

#[test]
fn clone_keeps_the_term() {
    let t = lam("x", app(v("x"), v("y")));
    assert_eq!(t.clone(), t);
}

#[test]
fn rerunning_on_converged_output_changes_nothing() {
    let p = Program(vec![
        TermOrDef::Definition("k".to_string(), lam("x", lam("y", v("x")))),
        TermOrDef::Term(app(v("k"), v("a"))),
        TermOrDef::Term(app(lam("f", lam("x", app(v("f"), v("x")))), lam("y", v("y")))),
    ]);
    let r = reduce(&p);
    let again = reduce(&Program(r.0.clone()));
    assert_eq!(again.0, r.0);
}
