use camerata::lint::{check_principle, duplicate_id_findings, is_valid_id_format, no_default_note};
use camerata::principle::{Decision, Enforcement, Layer, Opt, Principle, Tag};

fn opt(id: &str, label: &str, directive: &str, why: &str) -> Opt {
    Opt { id: id.to_string(), label: label.to_string(), directive: directive.to_string(), why: why.to_string() }
}

/// A valid rule with options "primary" and "alt".
fn valid_rule(id: &str) -> Principle {
    Principle {
        id: id.to_string(),
        title: "a clean rule".to_string(),
        tag: Tag::Universal,
        domain: "*".to_string(),
        layer: Layer::Universal,
        enforcement: Enforcement::Prose,
        default: true,
        decision: Decision {
            question: "how is the thing done?".to_string(),
            default: Some("primary".to_string()),
            why: "the reason this decision matters".to_string(),
        },
        options: vec![
            opt("primary", "the canonical option", "the directive body", "the canonical option is correct here"),
            opt("alt", "the loosened option", "the loosened variant", "looser; defensible only in narrow contexts"),
        ],
        qualifies: None,
        emits: vec![],
    }
}

/// A rule with a single option "a" defaulted.
fn single(id: &str, title: &str) -> Principle {
    let mut p = valid_rule(id);
    p.title = title.to_string();
    p.decision.question = "q".to_string();
    p.decision.default = Some("a".to_string());
    p.decision.why = "w".to_string();
    p.options = vec![opt("a", "a", "do a", "w")];
    p
}

fn kinds(p: &Principle) -> Vec<&'static str> {
    check_principle(p).findings.iter().map(|f| f.kind).collect()
}

#[test]
fn id_format_accepts_canonical_examples() {
    for ok in ["RUST-DOMAIN-4", "UI-CONSENT-GATED-1", "CAMERATA-USER-GUIDE-1", "ORCH-AUTOCALLS-LEDGER-1", "AXUM-SERVER-1", "ARCH-IAC-1"] {
        assert!(is_valid_id_format(ok), "expected to accept {ok}");
    }
}

#[test]
fn id_format_rejects_bad_shapes() {
    for bad in ["", "rust-domain-4", "RUST_DOMAIN_4", "RUST-DOMAIN", "RUST-4", "RUST-DOMAIN-", "-RUST-DOMAIN-1", "RUST--DOMAIN-1", "RUST-DOMAIN-1a"] {
        assert!(!is_valid_id_format(bad), "expected to reject {bad:?}");
    }
}

#[test]
fn id_format_requires_at_least_three_segments() {
    assert!(!is_valid_id_format("RUST-4"));
    assert!(is_valid_id_format("RUST-DOMAIN-4"));
}

#[test]
fn id_format_violation_emitted_when_id_is_lowercase() {
    let p = valid_rule("rust-domain-4");
    let report = check_principle(&p);
    assert!(report.findings.iter().any(|f| f.kind == "id-format"));
    assert_eq!(
        report.findings[0].message,
        "id `rust-domain-4` must match AREA-TOPIC-NUMBER (at least three uppercase segments, trailing number); e.g. RUST-DOMAIN-4 or UI-CONSENT-GATED-1"
    );
}

#[test]
fn empty_options_list_is_flagged() {
    let mut p = single("TEST-NOOPT-1", "no options");
    p.decision.default = None;
    p.options = vec![];
    let k = kinds(&p);
    assert!(k.contains(&"options-empty"), "expected options-empty; got {k:?}");
}

#[test]
fn dangling_default_is_flagged() {
    let mut p = single("TEST-DANGLE-1", "dangling default");
    p.decision.default = Some("nonexistent".to_string());
    let report = check_principle(&p);
    let k: Vec<&str> = report.findings.iter().map(|f| f.kind).collect();
    assert!(k.contains(&"default-dangling"), "expected default-dangling; got {k:?}");
    assert_eq!(report.findings[0].message, "decision.default `nonexistent` does not match any [[option]] id in this rule");
}

#[test]
fn duplicate_option_id_within_rule_is_flagged() {
    let mut p = single("TEST-DUPOPT-1", "dup option id");
    p.options.push(opt("a", "a again", "do a differently", "w"));
    let k = kinds(&p);
    assert!(k.contains(&"option-id-duplicate"), "expected option-id-duplicate; got {k:?}");
}

#[test]
fn empty_option_directive_is_flagged() {
    let mut p = single("TEST-EMPTYDIR-1", "empty directive");
    p.options[0].directive = "   ".to_string();
    let report = check_principle(&p);
    assert!(report.findings.iter().any(|f| f.kind == "option-empty-field"));
    assert_eq!(report.findings[0].message, "option[0] (`a`) has an empty directive");
}

#[test]
fn blank_option_id_is_flagged_not_treated_as_duplicate() {
    let mut p = single("TEST-BLANKID-1", "blank ids");
    p.options = vec![opt(" ", "x", "do x", "w"), opt(" ", "y", "do y", "w")];
    p.decision.default = None;
    let report = check_principle(&p);
    let msgs: Vec<&str> = report.findings.iter().map(|f| f.message.as_str()).collect();
    assert_eq!(msgs, vec!["option[0] has an empty id", "option[1] has an empty id"]);
}

#[test]
fn no_default_rule_is_collected_not_flagged() {
    let mut p = valid_rule("TEST-NODEF-1");
    p.title = "open decision".to_string();
    p.decision.default = None;
    let report = check_principle(&p);
    assert!(report.findings.is_empty(), "no-default rule should not violate");
    assert!(report.no_default);
    assert_eq!(no_default_note(vec!["TEST-NODEF-1".to_string()]), Some("note: 1 no-default (route-to-human) rule(s): TEST-NODEF-1".to_string()));
}

#[test]
fn no_default_note_sorts_ids() {
    let note = no_default_note(vec!["B-X-1".to_string(), "A-X-1".to_string(), "A-X-1".to_string()]);
    assert_eq!(note, Some("note: 3 no-default (route-to-human) rule(s): A-X-1, A-X-1, B-X-1".to_string()));
    assert_eq!(no_default_note(vec![]), None);
}

#[test]
fn mechanical_rule_without_qualifies_is_flagged() {
    let mut p = single("TEST-MECH-NOQUAL-1", "a mechanical rule missing its conformance test");
    p.enforcement = Enforcement::Mechanical;
    let k = kinds(&p);
    assert!(k.contains(&"qualifies-required-on-mechanical"), "expected qualifies-required-on-mechanical; got {k:?}");
    p.qualifies = Some("  ".to_string());
    assert!(kinds(&p).contains(&"qualifies-required-on-mechanical"));
}

#[test]
fn mechanical_rule_with_qualifies_passes() {
    let mut p = single("TEST-MECH-QUAL-1", "a mechanical rule with its conformance test");
    p.enforcement = Enforcement::Mechanical;
    p.qualifies = Some("a clippy lint fails the build if the forbidden pattern appears".to_string());
    let k = kinds(&p);
    assert!(!k.contains(&"qualifies-required-on-mechanical"), "mechanical rule with qualifies should not flag; got {k:?}");
}

#[test]
fn structured_rule_without_qualifies_is_fine() {
    let mut p = valid_rule("TEST-STRUCT-NOQUAL-1");
    p.enforcement = Enforcement::Structured;
    let k = kinds(&p);
    assert!(!k.contains(&"qualifies-required-on-mechanical"), "structured rule must not require qualifies; got {k:?}");
}

#[test]
fn backtick_in_directive_is_flagged() {
    let mut p = single("TEST-BACKTICK-1", "ok title");
    p.options[0].directive = "body with a `backtick` inside".to_string();
    let report = check_principle(&p);
    assert!(report.findings.iter().any(|f| f.kind == "backtick-in-content"));
    assert_eq!(report.findings[0].message, "option[0].directive contains backtick(s); canonical-rule content uses plain prose");
}

#[test]
fn backtick_in_title_is_flagged() {
    let mut p = valid_rule("TEST-BACKTICK-2");
    p.title = "bad `title` with backticks".to_string();
    let report = check_principle(&p);
    assert!(report.findings.iter().any(|f| f.kind == "backtick-in-content"));
    assert_eq!(report.findings[0].message, "`title` contains backtick(s); canonical-rule content uses plain prose");
}

#[test]
fn backtick_in_decision_why_is_flagged() {
    let mut p = valid_rule("TEST-BACKTICK-3");
    p.decision.why = "reason with a `backtick`".to_string();
    let k = kinds(&p);
    assert!(k.contains(&"backtick-in-content"), "expected backtick-in-content for decision.why; got {k:?}");
}

#[test]
fn clean_rule_produces_no_violations() {
    let k = kinds(&valid_rule("TEST-CLEAN-1"));
    assert!(k.is_empty(), "clean rule produced violations: {k:?}");
}

#[test]
fn findings_come_in_check_order() {
    let mut p = valid_rule("bad");
    p.enforcement = Enforcement::Mechanical;
    p.title = "`t`".to_string();
    p.options[1].label = "".to_string();
    let k = kinds(&p);
    assert_eq!(k, vec!["id-format", "option-empty-field", "qualifies-required-on-mechanical", "backtick-in-content"]);
}

#[test]
fn duplicate_id_across_files_is_flagged_by_run() {
    let seen = vec![
        ("TEST-DUP-1".to_string(), "one.toml".to_string()),
        ("TEST-OTHER-1".to_string(), "other.toml".to_string()),
        ("TEST-DUP-1".to_string(), "two.toml".to_string()),
    ];
    let findings = duplicate_id_findings(&seen);
    assert!(findings.len() >= 2, "expected at least 2 duplicate-id violations; got {}", findings.len());
    assert_eq!(findings.len(), 2);
    assert_eq!(findings[0].file, "one.toml");
    assert_eq!(findings[1].file, "two.toml");
    assert_eq!(findings[0].kind, "duplicate-id");
    assert_eq!(findings[0].message, "id `TEST-DUP-1` appears in 2 files: one.toml, two.toml");
}

#[test]
fn backtick_in_default_and_option_id_is_reported() {
    let mut p = single("TEST-LINT-1", "plain title");
    p.options[0].id = "`a`".to_string();
    p.decision.default = Some("`a`".to_string());
    let report = check_principle(&p);
    let msgs: Vec<&str> = report
        .findings
        .iter()
        .filter(|f| f.kind == "backtick-in-content")
        .map(|f| f.message.as_str())
        .collect();
    assert_eq!(
        msgs,
        vec![
            "`decision.default` contains backtick(s); canonical-rule content uses plain prose",
            "option[0].id contains backtick(s); canonical-rule content uses plain prose",
        ]
    );
}
