use camerata::cli::{in_scope, init_selections, parse_out_domains, OutDomainError};
use camerata::principle::{Decision, Enforcement, Layer, Principle, Tag};

fn p(id: &str, domain: &str, default: bool) -> Principle {
    Principle {
        id: id.to_string(),
        title: "t".to_string(),
        tag: Tag::Stack,
        domain: domain.to_string(),
        layer: Layer::Language,
        enforcement: Enforcement::Prose,
        default,
        decision: Decision { question: "q".to_string(), default: None, why: "w".to_string() },
        options: vec![],
        qualifies: None,
        emits: vec![],
    }
}

#[test]
fn out_domains_fan_out_repeated_domains() {
    let args = vec!["rust=../a".to_string(), "sql=../db".to_string(), "rust=../b=c".to_string()];
    let ov = match parse_out_domains(&args) {
        Ok(ov) => ov,
        Err(_) => panic!("valid arguments"),
    };
    assert_eq!(
        ov,
        vec![
            ("rust".to_string(), vec!["../a".to_string(), "../b=c".to_string()]),
            ("sql".to_string(), vec!["../db".to_string()]),
        ]
    );
}

#[test]
fn out_domains_reject_malformed_arguments() {
    for bad in ["rust", "=path", "rust=", ""] {
        let args = vec!["ok=dir".to_string(), bad.to_string(), "also=bad=".to_string()];
        match parse_out_domains(&args) {
            Ok(_) => panic!("expected an error for {bad:?}"),
            Err(e) => {
                let OutDomainError::Invalid(entry) = &e;
                assert_eq!(entry, bad);
                assert_eq!(e.message(), format!("invalid --out-domain `{bad}` (expected DOMAIN=PATH)"));
            }
        }
    }
}

#[test]
fn scope_follows_default_domains_and_stacks() {
    let stacks = vec!["rust".to_string()];
    assert!(in_scope(&p("A-X-1", "*", true), &[]));
    assert!(in_scope(&p("A-X-1", "agentic", true), &[]));
    assert!(!in_scope(&p("A-X-1", "howto", true), &stacks));
    assert!(in_scope(&p("A-X-1", "rust:seaorm", true), &stacks));
    assert!(in_scope(&p("A-X-1", "rust", true), &stacks));
    assert!(!in_scope(&p("A-X-1", "sql", true), &stacks));
    assert!(in_scope(&p("A-X-1", "sql", true), &["sql".to_string()]));
}

#[test]
fn init_selects_default_rules_in_scope() {
    let lib = vec![p("U-X-1", "*", true), p("R-X-1", "rust", true), p("R-X-2", "rust", false), p("S-X-1", "sql", true)];
    let stacks = vec!["rust".to_string()];
    let ids = |v: Vec<camerata::emit::Selection>| v.iter().map(|s| s.principle.id.clone()).collect::<Vec<_>>();
    assert_eq!(ids(init_selections(&lib, &stacks, false, false)), vec!["U-X-1", "R-X-1"]);
    assert_eq!(ids(init_selections(&lib, &stacks, true, false)), vec!["U-X-1", "R-X-1", "R-X-2"]);
    assert_eq!(ids(init_selections(&lib, &stacks, false, true)), vec!["R-X-1"]);
    assert!(init_selections(&lib, &stacks, false, false).iter().all(|s| s.chosen.is_none()));
}
