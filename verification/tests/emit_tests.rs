use camerata::emit::{
    content_hash, default_principle_hash, default_target, outdated, parse_lock, principle_hash,
    render, render_lock, route, scaffold, scaffold_routed, target_filename, CustomRule, Drift,
    ScaffoldPlan, Selection, skipped_ids,
};
use camerata::principle::{Decision, Emit, Enforcement, Layer, Opt, Principle, Tag};
use std::collections::hash_map::DefaultHasher;
use std::hash::{Hash, Hasher};

/// A principle whose default option "primary" carries `directive`, plus a
/// non-default option "alt".
fn principle(id: &str, title: &str, domain: &str, layer: Layer, enforcement: Enforcement, directive: &str) -> Principle {
    Principle {
        id: id.to_string(),
        title: title.to_string(),
        tag: Tag::Universal,
        domain: domain.to_string(),
        layer,
        enforcement,
        default: true,
        decision: Decision {
            question: "the decision question this rule models".to_string(),
            default: Some("primary".to_string()),
            why: "the architect-only reasoning that must not appear in emitted output".to_string(),
        },
        options: vec![
            Opt {
                id: "primary".to_string(),
                label: "the canonical option".to_string(),
                directive: directive.to_string(),
                why: "the architect-only per-option reasoning that must not appear in emit".to_string(),
            },
            Opt {
                id: "alt".to_string(),
                label: "the loosened option".to_string(),
                directive: "the loosened variant that is the alternative directive".to_string(),
                why: "looser; defensible only in narrow contexts".to_string(),
            },
        ],
        qualifies: None,
        emits: vec![],
    }
}

/// An open decision with options "a" and "b" and no default.
fn open_decision(id: &str) -> Principle {
    let mut p = principle(id, "open decision", "*", Layer::Universal, Enforcement::Prose, "do a");
    p.decision.question = "which posture?".to_string();
    p.decision.why = "no universal answer".to_string();
    p.decision.default = None;
    p.options[0].id = "a".to_string();
    p.options[0].label = "a".to_string();
    p.options[0].directive = "do a".to_string();
    p.options[0].why = "defensible when X".to_string();
    p.options[1].id = "b".to_string();
    p.options[1].label = "b".to_string();
    p.options[1].directive = "do b".to_string();
    p.options[1].why = "defensible when Y".to_string();
    p
}

fn file<'a>(plan: &'a ScaffoldPlan, name: &str) -> Option<&'a str> {
    plan.files.iter().find(|f| f.filename == name).map(|f| f.contents.as_str())
}

#[test]
fn target_filename_maps_aicodingrules_to_agents_md() {
    assert_eq!(target_filename("aicodingrules"), "AGENTS.md");
}

#[test]
fn target_filename_passes_other_targets_through() {
    assert_eq!(target_filename("CONVENTIONS.md"), "CONVENTIONS.md");
    assert_eq!(target_filename("CUSTOM_FILE.md"), "CUSTOM_FILE.md");
}

#[test]
fn default_target_routes_prose_to_agents_via_interchange_id() {
    let p = principle("TEST-PROSE-1", "prose rule", "*", Layer::Universal, Enforcement::Prose, "a prose directive");
    assert_eq!(default_target(&p), "aicodingrules");
}

#[test]
fn default_target_routes_structured_and_mechanical_to_conventions_md() {
    for enforcement in [Enforcement::Structured, Enforcement::Mechanical] {
        let p = principle("TEST-X-1", "rule", "*", Layer::Universal, enforcement, "a rule");
        assert_eq!(default_target(&p), "CONVENTIONS.md");
    }
}

#[test]
fn render_emits_id_and_title_header() {
    let p = principle("TEST-RENDER-1", "the rule title", "*", Layer::Universal, Enforcement::Prose, "the directive");
    let out = render(&Selection::new(&p), None).expect("default option renders");
    assert!(
        out.starts_with("### TEST-RENDER-1 — the rule title\n"),
        "header missing or malformed; got:\n{out}",
    );
}

#[test]
fn render_uses_default_option_directive_when_nothing_chosen() {
    let p = principle("TEST-DEFAULT-1", "t", "*", Layer::Universal, Enforcement::Prose, "the default option directive");
    let out = render(&Selection::new(&p), None).expect("renders");
    assert!(out.contains("the default option directive"));
}

#[test]
fn render_substitutes_chosen_option_directive_for_default() {
    let p = principle("TEST-CHOICE-1", "t", "*", Layer::Universal, Enforcement::Prose, "the default option directive");
    let out = render(
        &Selection { principle: &p, chosen: Some("alt".to_string()), custom_directive: None },
        None,
    )
    .expect("renders");
    assert!(out.contains("the loosened variant that is the alternative directive"));
    assert!(
        !out.contains("the default option directive"),
        "default directive leaked when an alternative was chosen; got:\n{out}",
    );
}

#[test]
fn render_uses_custom_directive_verbatim() {
    let p = principle("TEST-CUSTOM-1", "t", "*", Layer::Universal, Enforcement::Prose, "the default option directive");
    let out = render(
        &Selection {
            principle: &p,
            chosen: Some("my-own".to_string()),
            custom_directive: Some("the architect's own directive".to_string()),
        },
        None,
    )
    .expect("renders");
    assert!(out.contains("the architect's own directive"));
}

#[test]
fn render_returns_none_for_unresolved_no_default_rule() {
    let p = open_decision("TEST-NODEF-1");
    assert!(render(&Selection::new(&p), None).is_none());
    let resolved = render(
        &Selection { principle: &p, chosen: Some("a".to_string()), custom_directive: None },
        None,
    )
    .expect("renders once resolved");
    assert!(resolved.contains("do a"));
}

#[test]
fn render_omits_architect_only_fields() {
    let p = principle("TEST-OMIT-1", "t", "*", Layer::Universal, Enforcement::Prose, "the directive");
    let out = render(&Selection::new(&p), None).expect("renders");
    assert!(!out.contains("architect-only reasoning"), "decision why leaked");
    assert!(!out.contains("per-option reasoning"), "option why leaked");
    assert!(!out.contains("loosened variant"), "non-adopted option leaked");
    assert!(!out.contains("decision question"), "question leaked");
}

#[test]
fn render_byte_identical_to_legacy_default_emit_shape() {
    let p = principle(
        "ARCH-CURSOR-PAGINATION-1",
        "List endpoints paginate by cursor, not by offset",
        "api-layer",
        Layer::Universal,
        Enforcement::Structured,
        "Any list endpoint that can grow uses opaque cursor tokens.",
    );
    let out = render(&Selection::new(&p), None).expect("renders");
    let expected = "### ARCH-CURSOR-PAGINATION-1 — List endpoints paginate by cursor, not by offset\nAny list endpoint that can grow uses opaque cursor tokens.\n\n";
    assert_eq!(out, expected);
}

#[test]
fn render_appends_scope_line_when_provided() {
    let p = principle("TEST-SCOPE-1", "t", "*", Layer::Universal, Enforcement::Prose, "directive");
    let out = render(&Selection::new(&p), Some("**/*.rs")).expect("renders");
    assert!(out.contains("_Applies to:_ `**/*.rs`"));
}

#[test]
fn render_with_scope_has_exact_shape() {
    let p = principle("A-B-1", "t", "*", Layer::Universal, Enforcement::Prose, "d");
    let out = render(&Selection::new(&p), Some("*.md")).expect("renders");
    assert_eq!(out, "### A-B-1 — t\nd\n\n_Applies to:_ `*.md`\n\n");
}

#[test]
fn render_returns_none_when_chosen_id_names_no_option() {
    let p = principle("A-B-1", "t", "*", Layer::Universal, Enforcement::Prose, "d");
    let sel = Selection { principle: &p, chosen: Some("missing".to_string()), custom_directive: None };
    assert!(render(&sel, None).is_none());
    assert_eq!(sel.resolve_directive(), None);
}

#[test]
fn content_hash_matches_std_str_hash() {
    for s in ["", "abc", "### CUSTOM-x\nbody\n\n", "ÈªëÈ£é"] {
        let mut h = DefaultHasher::new();
        s.hash(&mut h);
        assert_eq!(content_hash(s), format!("{:016x}", h.finish()));
    }
    assert_ne!(content_hash("a"), content_hash("b"));
    assert_eq!(content_hash("abc").len(), 16);
}

#[test]
fn principle_hash_covers_id_title_option_and_directive() {
    let p = principle("HASH-RULE-1", "the title", "*", Layer::Universal, Enforcement::Prose, "the directive");
    let mut h = DefaultHasher::new();
    "HASH-RULE-1".hash(&mut h);
    "the title".hash(&mut h);
    "primary".hash(&mut h);
    "the directive".hash(&mut h);
    let expected = format!("{:016x}", h.finish());
    assert_eq!(default_principle_hash(&p), expected);
    assert_eq!(principle_hash(&Selection::new(&p)), expected);
    let alt = Selection { principle: &p, chosen: Some("alt".to_string()), custom_directive: None };
    assert_ne!(principle_hash(&alt), expected);
}

#[test]
fn principle_hash_of_open_decision_uses_custom_id_and_no_directive() {
    let p = open_decision("OPEN-RULE-1");
    let mut h = DefaultHasher::new();
    "OPEN-RULE-1".hash(&mut h);
    "open decision".hash(&mut h);
    "custom".hash(&mut h);
    assert_eq!(default_principle_hash(&p), format!("{:016x}", h.finish()));
}

#[test]
fn parse_lock_extracts_id_hash_pairs() {
    let lock = "# header\n\n[[installed]]\nid = \"A-B-1\"\nhash = \"deadbeef\"\n\n[[installed]]\nid = \"C-D-2\"\nhash = \"cafef00d\"\n";
    let pairs = parse_lock(lock);
    assert_eq!(
        pairs,
        vec![
            ("A-B-1".to_string(), "deadbeef".to_string()),
            ("C-D-2".to_string(), "cafef00d".to_string()),
        ]
    );
}

#[test]
fn parse_lock_ignores_hash_without_id_and_trims() {
    let lock = "hash = \"orphan\"\r\n  id =   \"\"X-Y-1\"\"  \r\nother\nhash = \"h1\"";
    assert_eq!(parse_lock(lock), vec![("X-Y-1".to_string(), "h1".to_string())]);
    assert!(parse_lock("").is_empty());
}

#[test]
fn render_lock_reads_back() {
    let installed = vec![
        ("A-B-1".to_string(), "0123456789abcdef".to_string()),
        ("CUSTOM-my rule".to_string(), "fedcba9876543210".to_string()),
    ];
    let text = render_lock(&installed);
    assert!(text.starts_with("# camerata.lock — generated."));
    assert!(text.contains("[[installed]]\nid = \"A-B-1\"\nhash = \"0123456789abcdef\"\n\n"));
    assert_eq!(parse_lock(&text), installed);
}

#[test]
fn outdated_reports_changed_and_removed() {
    let current = principle("KEEP-RULE-1", "t", "*", Layer::Universal, Enforcement::Prose, "the current directive");
    let installed = vec![
        ("KEEP-RULE-1".to_string(), "0000staleHASH000".to_string()),
        ("GONE-RULE-1".to_string(), "whatever".to_string()),
        ("CUSTOM-mine".to_string(), "x".to_string()),
    ];
    let drift = outdated(&installed, std::slice::from_ref(&current));
    assert!(drift.contains(&Drift::Changed("KEEP-RULE-1".to_string())));
    assert!(drift.contains(&Drift::Removed("GONE-RULE-1".to_string())));
    assert_eq!(drift.len(), 2, "custom rule must be skipped");
}

#[test]
fn outdated_is_empty_when_hashes_match() {
    let p = principle("MATCH-RULE-1", "t", "*", Layer::Universal, Enforcement::Prose, "body");
    let installed = vec![("MATCH-RULE-1".to_string(), default_principle_hash(&p))];
    assert!(outdated(&installed, std::slice::from_ref(&p)).is_empty());
}

#[test]
fn outdated_compares_against_the_last_principle_with_an_id() {
    let first = principle("DUP-RULE-1", "t", "*", Layer::Universal, Enforcement::Prose, "first");
    let second = principle("DUP-RULE-1", "t", "*", Layer::Universal, Enforcement::Prose, "second");
    let lib = vec![first, second];
    let installed_first = vec![("DUP-RULE-1".to_string(), default_principle_hash(&lib[0]))];
    let installed_second = vec![("DUP-RULE-1".to_string(), default_principle_hash(&lib[1]))];
    assert_eq!(outdated(&installed_first, &lib), vec![Drift::Changed("DUP-RULE-1".to_string())]);
    assert!(outdated(&installed_second, &lib).is_empty());
}

#[test]
fn scaffold_partitions_prose_to_agents_md_and_structured_to_conventions_md() {
    let prose = principle("TEST-PROSE-1", "prose rule", "*", Layer::Universal, Enforcement::Prose, "prose directive body");
    let structured = principle("TEST-STRUCT-1", "structured rule", "*", Layer::Universal, Enforcement::Structured, "structured directive body");
    let selections = vec![Selection::new(&prose), Selection::new(&structured)];
    let plan = scaffold(&selections, &[]);
    assert_eq!(plan.outcome().installed, 2);
    let agents = file(&plan, "AGENTS.md").expect("AGENTS.md planned");
    let conv = file(&plan, "CONVENTIONS.md").expect("CONVENTIONS.md planned");
    assert!(agents.contains("TEST-PROSE-1"), "prose rule landed in AGENTS.md");
    assert!(!agents.contains("TEST-STRUCT-1"), "structured rule must NOT land in AGENTS.md");
    assert!(conv.contains("TEST-STRUCT-1"), "structured rule landed in CONVENTIONS.md");
    assert!(!conv.contains("TEST-PROSE-1"), "prose rule must NOT land in CONVENTIONS.md");
}

#[test]
fn scaffold_skips_unresolved_no_default_rule() {
    let mut nodef = open_decision("TEST-NODEF-2");
    nodef.domain = "*".to_string();
    let resolved = principle("TEST-DEF-2", "t", "*", Layer::Universal, Enforcement::Prose, "resolved directive body");
    let plan = scaffold(&[Selection::new(&nodef), Selection::new(&resolved)], &[]);
    assert_eq!(plan.outcome().installed, 1);
    let agents = file(&plan, "AGENTS.md").expect("AGENTS.md");
    assert!(agents.contains("TEST-DEF-2"));
    assert!(!agents.contains("TEST-NODEF-2"));
}

#[test]
fn scaffold_orders_selections_by_layer_ascending_then_id() {
    let universal = principle("AAA-UNIV-1", "universal", "*", Layer::Universal, Enforcement::Prose, "universal body");
    let language = principle("AAA-LANG-1", "language", "rust", Layer::Language, Enforcement::Prose, "language body");
    let framework = principle("AAA-FRAME-1", "framework", "rust:dioxus", Layer::Framework, Enforcement::Prose, "framework body");
    let selections = vec![Selection::new(&framework), Selection::new(&universal), Selection::new(&language)];
    let plan = scaffold(&selections, &[]);
    let agents = file(&plan, "AGENTS.md").expect("AGENTS.md");
    let univ_pos = agents.find("AAA-UNIV-1").expect("universal present");
    let lang_pos = agents.find("AAA-LANG-1").expect("language present");
    let frame_pos = agents.find("AAA-FRAME-1").expect("framework present");
    assert!(univ_pos < lang_pos, "universal must precede language");
    assert!(lang_pos < frame_pos, "language must precede framework");
}

#[test]
fn scaffold_orders_same_layer_by_id() {
    let b = principle("BBB-RULE-1", "b", "*", Layer::Universal, Enforcement::Prose, "b body");
    let a = principle("AAA-RULE-1", "a", "*", Layer::Universal, Enforcement::Prose, "a body");
    let plan = scaffold(&[Selection::new(&b), Selection::new(&a)], &[]);
    let ids: Vec<&str> = plan.installed.iter().map(|(id, _)| id.as_str()).collect();
    assert_eq!(ids, vec!["AAA-RULE-1", "BBB-RULE-1"]);
}

#[test]
fn scaffold_writes_lockfile_with_each_installed_id() {
    let p = principle("TEST-LOCK-1", "t", "*", Layer::Universal, Enforcement::Prose, "body");
    let plan = scaffold(&[Selection::new(&p)], &[]);
    assert!(plan.lock.contains("[[installed]]"));
    assert!(plan.lock.contains("id = \"TEST-LOCK-1\""));
    assert!(plan.lock.contains("hash = "));
    assert_eq!(parse_lock(&plan.lock), vec![("TEST-LOCK-1".to_string(), default_principle_hash(&p))]);
}

#[test]
fn scaffold_emits_custom_rule_into_agents_md_under_custom_heading() {
    let custom = CustomRule { name: "my-rule".to_string(), body: "do the thing".to_string(), domain: "rust".to_string() };
    let plan = scaffold(&[], &[custom]);
    let agents = file(&plan, "AGENTS.md").expect("AGENTS.md");
    assert!(agents.contains("### CUSTOM-my-rule"));
    assert!(agents.contains("domain: rust"));
    assert!(agents.contains("do the thing"));
    assert!(agents.ends_with("### CUSTOM-my-rule _(custom · domain: rust)_\ndo the thing\n\n"));
    assert_eq!(plan.installed[0].0, "CUSTOM-my-rule");
    assert_eq!(plan.installed[0].1, content_hash("### CUSTOM-my-rule _(custom · domain: rust)_\ndo the thing\n\n"));
}

#[test]
fn scaffold_skips_empty_custom_rules() {
    let blank = CustomRule { name: "   ".to_string(), body: "\n".to_string(), domain: "*".to_string() };
    let plan = scaffold(&[], &[blank]);
    assert!(file(&plan, "AGENTS.md").is_none());
    assert!(plan.files.is_empty());
    assert!(plan.installed.is_empty());
}

#[test]
fn scaffold_headers_count_principles_per_file() {
    let a = principle("A-RULE-1", "a", "*", Layer::Universal, Enforcement::Prose, "a body");
    let mut b = principle("B-RULE-1", "b", "*", Layer::Universal, Enforcement::Prose, "b body");
    b.emits = vec![
        Emit { target: "aicodingrules".to_string(), scope: Some("**/*.rs".to_string()) },
        Emit { target: "RULES.txt".to_string(), scope: None },
    ];
    let plan = scaffold(&[Selection::new(&a), Selection::new(&b)], &[]);
    let names: Vec<&str> = plan.files.iter().map(|f| f.filename.as_str()).collect();
    assert_eq!(names, vec!["AGENTS.md", "RULES.txt"]);
    let agents = file(&plan, "AGENTS.md").unwrap();
    assert!(agents.starts_with("<!-- Generated by camerata. 2 principle(s). Edit principle sources, not this file. -->\n\n# AGENTS.md\n"));
    assert!(agents.contains("_Applies to:_ `**/*.rs`"));
    let other = file(&plan, "RULES.txt").unwrap();
    assert_eq!(other, "<!-- Generated by camerata. 1 principle(s). Edit principle sources, not this file. -->\n\n### B-RULE-1 — b\nb body\n\n");
    let outcome = plan.outcome();
    assert_eq!(outcome.files, vec![("AGENTS.md".to_string(), 2), ("RULES.txt".to_string(), 1)]);
    assert_eq!(outcome.installed, 2);
}

#[test]
fn scaffold_routed_sends_each_domain_to_its_override() {
    let univ = principle("ROUTE-UNIV-1", "universal", "*", Layer::Universal, Enforcement::Prose, "universal body");
    let rust = principle("ROUTE-RUST-1", "rust", "rust", Layer::Language, Enforcement::Prose, "rust body");
    let selections = vec![Selection::new(&univ), Selection::new(&rust)];
    let overrides = vec![("rust".to_string(), vec!["rust-repo".to_string()])];
    let results = scaffold_routed("default", &overrides, &selections, &[]);
    let targets: Vec<&str> = results.iter().map(|(t, _)| t.as_str()).collect();
    assert_eq!(targets, vec!["default", "rust-repo"]);
    let default_agents = file(&results[0].1, "AGENTS.md").expect("default AGENTS.md");
    let rust_agents = file(&results[1].1, "AGENTS.md").expect("rust AGENTS.md");
    assert!(default_agents.contains("ROUTE-UNIV-1"));
    assert!(!default_agents.contains("ROUTE-RUST-1"), "rust rule must NOT land in default repo");
    assert!(rust_agents.contains("ROUTE-RUST-1"));
    assert!(!rust_agents.contains("ROUTE-UNIV-1"), "universal rule must NOT land in rust repo (no override mapped *)");
}

#[test]
fn route_fans_a_domain_out_and_falls_back_on_empty_mapping() {
    let rust = principle("R-RULE-1", "r", "rust", Layer::Language, Enforcement::Prose, "r");
    let sql = principle("S-RULE-1", "s", "sql", Layer::Universal, Enforcement::Prose, "s");
    let selections = vec![Selection::new(&rust), Selection::new(&sql)];
    let overrides = vec![
        ("rust".to_string(), vec!["b".to_string(), "a".to_string()]),
        ("sql".to_string(), vec![]),
    ];
    let custom = vec![CustomRule { name: "n".to_string(), body: "b".to_string(), domain: String::new() }];
    let routes = route("out", &overrides, &selections, &custom);
    let targets: Vec<&str> = routes.iter().map(|r| r.target.as_str()).collect();
    assert_eq!(targets, vec!["a", "b", "out"]);
    assert_eq!(routes[0].selections.len(), 1);
    assert_eq!(routes[0].selections[0].principle.id, "R-RULE-1");
    assert_eq!(routes[2].selections[0].principle.id, "S-RULE-1");
    assert_eq!(routes[2].custom.len(), 1);
    assert!(routes[0].custom.is_empty());
}

#[test]
fn render_mechanical_rule_carries_conformance_line() {
    let mut p = principle("A-B-1", "t", "*", Layer::Universal, Enforcement::Mechanical, "d");
    p.qualifies = Some("  cargo clippy -- -D warnings \n".to_string());
    let out = render(&Selection::new(&p), Some("*.rs")).expect("renders");
    assert_eq!(out, "### A-B-1 — t\nd\n\n_Conformance:_ cargo clippy -- -D warnings\n\n_Applies to:_ `*.rs`\n\n");
}

#[test]
fn render_prose_rule_never_emits_qualifies() {
    let mut p = principle("A-B-1", "t", "*", Layer::Universal, Enforcement::Prose, "d");
    p.qualifies = Some("a check".to_string());
    let out = render(&Selection::new(&p), None).expect("renders");
    assert_eq!(out, "### A-B-1 — t\nd\n\n");
}

#[test]
fn skipped_ids_lists_open_decisions_in_order() {
    let a = open_decision("OPEN-A-1");
    let b = principle("B-B-1", "t", "*", Layer::Universal, Enforcement::Prose, "d");
    let c = open_decision("OPEN-C-1");
    let chosen = Selection { principle: &c, chosen: Some("a".to_string()), custom_directive: None };
    let sels = vec![Selection::new(&a), Selection::new(&b), Selection::new(&c), chosen];
    assert_eq!(skipped_ids(&sels), vec!["OPEN-A-1".to_string(), "OPEN-C-1".to_string()]);
}

#[test]
fn scaffold_routed_groups_spellings_of_one_directory() {
    let univ = principle("ROUTE-UNIV-1", "universal", "*", Layer::Universal, Enforcement::Prose, "universal body");
    let rust = principle("ROUTE-RUST-1", "rust", "rust", Layer::Language, Enforcement::Prose, "rust body");
    let selections = vec![Selection::new(&univ), Selection::new(&rust)];
    let overrides = vec![("rust".to_string(), vec!["x/".to_string()])];
    let results = scaffold_routed("x", &overrides, &selections, &[]);
    assert_eq!(results.len(), 1);
    assert_eq!(results[0].0, "x");
    assert_eq!(results[0].1.installed.len(), 2);
}

#[test]
fn route_orders_directories_as_std_paths_do() {
    let dirs = ["a-b", "a/b", "./c", "/z", "a//b/", "..", "b"];
    let p = principle("R-RULE-1", "r", "rust", Layer::Language, Enforcement::Prose, "r");
    let selections = vec![Selection::new(&p)];
    let overrides = vec![("rust".to_string(), dirs.iter().map(|d| d.to_string()).collect::<Vec<_>>())];
    let routes = route("out", &overrides, &selections, &[]);
    let got: Vec<std::path::PathBuf> = routes.iter().map(|r| std::path::PathBuf::from(&r.target)).collect();
    let mut want: Vec<std::path::PathBuf> = dirs.iter().map(std::path::PathBuf::from).collect();
    want.sort();
    want.dedup();
    assert_eq!(got, want);
    assert_eq!(routes.iter().map(|r| r.target.as_str()).collect::<Vec<_>>(), vec!["/z", "./c", "..", "a/b", "a-b", "b"]);
}

#[test]
fn parse_lock_reads_entries_after_any_comment_header() {
    let lock = "# my own header\n\n   \n# another comment\n[[installed]]\nid = \"A-B-1\"\nhash = \"00ff\"\n\n[[installed]]\nid = \"C-D-1\"\nhash = \"1234\"\n\n";
    assert_eq!(
        parse_lock(lock),
        vec![("A-B-1".to_string(), "00ff".to_string()), ("C-D-1".to_string(), "1234".to_string())]
    );
}

#[test]
fn scaffold_then_outdated_reports_no_drift() {
    let a = principle("A-RULE-1", "a", "*", Layer::Universal, Enforcement::Prose, "a body");
    let b = principle("B-RULE-1", "b", "*", Layer::Universal, Enforcement::Structured, "b body");
    let library = vec![a.clone(), b.clone()];
    let selections = vec![Selection::new(&library[0]), Selection::new(&library[1])];
    let custom = vec![CustomRule { name: "mine".to_string(), body: "my rule".to_string(), domain: String::new() }];
    let plan = scaffold(&selections, &custom);
    assert!(outdated(&parse_lock(&plan.lock), &library).is_empty());
}

#[test]
fn parse_lock_reads_entries_after_an_unterminated_comment_line() {
    let lock = "# header\n# last comment without newline[[installed]]\nid = \"A-B-1\"\nhash = \"00ff\"\n\n";
    assert_eq!(parse_lock(lock), vec![("A-B-1".to_string(), "00ff".to_string())]);
    let blank_tail = "# header\n   [[installed]]\nid = \"A-B-1\"\nhash = \"00ff\"\n\n";
    assert_eq!(parse_lock(blank_tail), vec![("A-B-1".to_string(), "00ff".to_string())]);
}

#[test]
fn scaffold_then_outdated_ignores_custom_names_ending_in_quotes() {
    let a = principle("A-RULE-1", "a", "*", Layer::Universal, Enforcement::Prose, "a body");
    let library = vec![a];
    let selections = vec![Selection::new(&library[0])];
    let custom = vec![CustomRule { name: "\"quoted\"".to_string(), body: "my rule".to_string(), domain: String::new() }];
    let plan = scaffold(&selections, &custom);
    let read = parse_lock(&plan.lock);
    assert_eq!(read.len(), 2);
    assert!(read.iter().any(|(id, _)| id.starts_with("CUSTOM-")));
    assert!(outdated(&read, &library).is_empty());
}
