use lambda_norm::machine::reduce;
use lambda_norm::parser::{
    parse_abstraction, parse_defn, parse_expressions, parse_paren_term, parse_raw_term, parse_term,
    parse_terms, parse_var,
};
use lambda_norm::term::{Term, TermOrDef};

fn v(n: &str) -> Term {
    Term::Var(n.to_string())
}

fn lam(p: &str, b: Term) -> Term {
    Term::Abstraction(p.to_string(), Box::new(b))
}

fn app(l: Term, r: Term) -> Term {
    Term::Application(Box::new(l), Box::new(r))
}

fn chars(s: &str) -> Vec<char> {
    s.chars().collect()
}

#[test]
fn parses_variable() {
    let s = chars("abc_1 rest");
    assert_eq!(parse_var(&s, 0), Some((5, v("abc_1"))));
    assert_eq!(parse_var(&chars("(x)"), 0), None);
}

#[test]
fn parses_parenthesised_term() {
    let s = chars(" ( x y ) z");
    assert_eq!(parse_paren_term(&s, 0), Some((9, app(v("x"), v("y")))));
    assert_eq!(parse_paren_term(&chars("(x"), 0), None);
}

#[test]
fn parses_abstraction_both_spellings() {
    assert_eq!(parse_abstraction(&chars("\\x.x"), 0), Some((4, lam("x", v("x")))));
    assert_eq!(parse_abstraction(&chars("λ x . x y"), 0), Some((9, lam("x", app(v("x"), v("y"))))));
    assert_eq!(parse_abstraction(&chars("\\.x"), 0), None);
}

#[test]
fn application_associates_to_the_left() {
    let s = chars("a b c");
    assert_eq!(parse_raw_term(&s, 0), Some((5, app(app(v("a"), v("b")), v("c")))));
}

#[test]
fn abstraction_body_extends_right() {
    let s = chars("(\\x.\\y.x) a b");
    assert_eq!(
        parse_raw_term(&s, 0),
        Some((13, app(app(lam("x", lam("y", v("x"))), v("a")), v("b"))))
    );
}

#[test]
fn parses_definition_and_term_entries() {
    assert_eq!(
        parse_defn(&chars("id := \\x.x"), 0),
        Some((10, TermOrDef::Definition("id".to_string(), lam("x", v("x")))))
    );
    assert_eq!(parse_defn(&chars("id z"), 0), None);
    assert_eq!(parse_term(&chars("id z"), 0), Some((4, TermOrDef::Term(app(v("id"), v("z"))))));
}

#[test]
fn parses_program_lines() {
    let p = parse_terms("\n id := \\x.x\n(id z)\n").unwrap();
    assert_eq!(
        p.0,
        vec![
            TermOrDef::Definition("id".to_string(), lam("x", v("x"))),
            TermOrDef::Term(app(v("id"), v("z"))),
        ]
    );
    let s = chars("a\nb");
    assert_eq!(parse_expressions(&s, 0).map(|(j, p)| (j, p.0.len())), Some((3, 2)));
}

#[test]
fn rejects_text_that_is_not_a_program() {
    assert!(parse_terms("(x").is_none());
    assert!(parse_terms("").is_none());
    assert!(parse_terms("a\n\nb").is_none());
    assert!(parse_terms("x )").is_none());
}

#[test]
fn parsed_program_reduces() {
    let p = parse_terms("id := \\x.x\ntrue := \\x.\\y.x\n(id z)\ntrue a b\n((\\x.x) y)").unwrap();
    let r = reduce(&p);
    assert_eq!(r.0, vec![TermOrDef::Term(v("z")), TermOrDef::Term(v("a")), TermOrDef::Term(v("y"))]);
    assert_eq!(r.to_string(), "z\na\ny\n");
}
