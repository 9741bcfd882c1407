use camerata::emit::CustomRule;
use camerata::principle::{Decision, Enforcement, Layer, Principle, Tag};
use camerata::workspace::{
    apply_pending_nav, generation_overrides, generation_selections, generation_summary,
    parse_markdown_lite, snapshot_profile, Block, PaneState, PendingNav,
};

fn texts(b: &Block) -> String {
    match b {
        Block::H1(s) => format!("H1:{s}"),
        Block::H2(s) => format!("H2:{s}"),
        Block::Para(s) => format!("P:{s}"),
        Block::List(v) => format!("L:{}", v.join("|")),
    }
}

fn pane() -> PaneState {
    PaneState {
        custom_name: "n".to_string(),
        custom_body: "b".to_string(),
        editing_custom_idx: Some(3),
        editing_custom_domain: Some("d".to_string()),
        renamed_domain_name: "old".to_string(),
        adding_custom: Some("x".to_string()),
        adding_domain: true,
        new_domain_name: "nd".to_string(),
        detail: Some(1),
        custom_form_dirty: true,
    }
}

fn p(id: &str) -> Principle {
    Principle {
        id: id.to_string(),
        title: "t".to_string(),
        tag: Tag::Universal,
        domain: "*".to_string(),
        layer: Layer::Universal,
        enforcement: Enforcement::Prose,
        default: true,
        decision: Decision { question: "q".to_string(), default: None, why: "w".to_string() },
        options: vec![],
        qualifies: None,
        emits: vec![],
    }
}

#[test]
fn markdown_lite_blocks() {
    let text = "# Guide\n\nIntro line\n- one\n  - two  \n\n## Part\n- three\nclosing";
    let blocks: Vec<String> = parse_markdown_lite(text).iter().map(texts).collect();
    assert_eq!(blocks, vec!["H1:Guide", "P:Intro line", "L:one|two", "H2:Part", "L:three", "P:closing"]);
    assert!(parse_markdown_lite("").is_empty());
    let trailing: Vec<String> = parse_markdown_lite("- a\n- b\n").iter().map(texts).collect();
    assert_eq!(trailing, vec!["L:a|b"]);
}

#[test]
fn pending_nav_opens_custom_rule() {
    let rules = vec![CustomRule { name: "rule".to_string(), body: "body".to_string(), domain: "*".to_string() }];
    let mut s = pane();
    apply_pending_nav(&mut s, Some(PendingNav::OpenCustomRule(0)), &rules);
    assert_eq!(s.custom_name, "rule");
    assert_eq!(s.custom_body, "body");
    assert_eq!(s.editing_custom_idx, Some(0));
    assert_eq!(s.detail, None);
    assert!(!s.adding_domain && !s.custom_form_dirty);
    assert_eq!(s.renamed_domain_name, "old");
    let mut s = pane();
    apply_pending_nav(&mut s, Some(PendingNav::OpenCustomRule(5)), &rules);
    assert_eq!(s.custom_name, "");
    assert_eq!(s.editing_custom_idx, None);
}

#[test]
fn pending_nav_other_targets() {
    let mut s = pane();
    apply_pending_nav(&mut s, None, &[]);
    assert_eq!(s.custom_name, "n");
    assert_eq!(s.detail, Some(1));
    apply_pending_nav(&mut s, Some(PendingNav::OpenCanonical(7)), &[]);
    assert_eq!(s.detail, Some(7));
    assert_eq!(s.adding_custom, None);
    apply_pending_nav(&mut s, Some(PendingNav::AddCustomRule("rust".to_string())), &[]);
    assert_eq!(s.adding_custom, Some("rust".to_string()));
    assert_eq!(s.detail, None);
    apply_pending_nav(&mut s, Some(PendingNav::AddCustomDomain), &[]);
    assert!(s.adding_domain);
    assert_eq!(s.new_domain_name, "");
    apply_pending_nav(&mut s, Some(PendingNav::RenameCustomDomain("mine".to_string())), &[]);
    assert_eq!(s.renamed_domain_name, "mine");
    assert_eq!(s.editing_custom_domain, Some("mine".to_string()));
    assert!(!s.adding_domain);
}

#[test]
fn generation_uses_checked_principles_and_known_repos() {
    let lib = vec![p("A-X-1"), p("B-X-1"), p("C-X-1")];
    let sels = generation_selections(&lib, &[true, false, true], &[Some("opt".to_string())]);
    assert_eq!(sels.len(), 2);
    assert_eq!(sels[0].principle.id, "A-X-1");
    assert_eq!(sels[0].chosen, Some("opt".to_string()));
    assert_eq!(sels[1].principle.id, "C-X-1");
    assert_eq!(sels[1].chosen, None);
    let repos = vec!["r1".to_string()];
    let routing = vec![
        ("rust".to_string(), vec!["r1".to_string(), "gone".to_string()]),
        ("sql".to_string(), vec!["gone".to_string()]),
    ];
    assert_eq!(generation_overrides(&repos, &routing), vec![("rust".to_string(), vec!["r1".to_string()])]);
    assert_eq!(
        generation_summary(&[("a".to_string(), 2), ("b".to_string(), 10)]),
        "Generated into a (2 rules); b (10 rules)"
    );
}

#[test]
fn snapshot_records_ids_not_content() {
    let lib = vec![p("A-X-1"), p("B-X-1")];
    let prof = snapshot_profile(
        &lib,
        &[false, true],
        &["*".to_string()],
        &[Some("alt".to_string()), None],
        &[vec![], vec!["mine".to_string()]],
        &[],
        &["custom".to_string()],
        "./out",
        &["r".to_string()],
        &[("rust".to_string(), vec!["r".to_string()])],
    );
    assert_eq!(prof.version, 2);
    assert_eq!(prof.selected_ids, vec!["B-X-1".to_string()]);
    assert_eq!(prof.chosen, vec![("A-X-1".to_string(), "alt".to_string())]);
    assert_eq!(prof.custom_alternatives, vec![("B-X-1".to_string(), vec!["mine".to_string()])]);
    assert_eq!(prof.out_dir, "./out");
    assert_eq!(prof.domain_repos, vec![("rust".to_string(), vec!["r".to_string()])]);
}
