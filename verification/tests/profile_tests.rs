use camerata::emit::CustomRule;
use camerata::principle::{Decision, Enforcement, Layer, Opt, Principle, Tag};
use camerata::profile::{Profile, PROFILE_VERSION};

fn sample_profile() -> Profile {
    Profile {
        version: PROFILE_VERSION,
        selected_ids: vec!["UNIV-RULE-1".to_string(), "RUST-DOMAIN-4".to_string()],
        selected_domains: vec!["*".to_string(), "rust".to_string()],
        chosen: vec![("CHOICE-RULE-1".to_string(), "the alternative text".to_string())],
        custom_alternatives: Vec::new(),
        custom_rules: Vec::<CustomRule>::new(),
        custom_domains: Vec::new(),
        out_dir: "./out".to_string(),
        repos: vec!["/repos/default".to_string()],
        domain_repos: vec![("rust".to_string(), vec!["/repos/rust-repo".to_string()])],
    }
}

fn library_for_migration() -> Vec<Principle> {
    vec![Principle {
        id: "CHOICE-RULE-1".to_string(),
        title: "t".to_string(),
        tag: Tag::Universal,
        domain: "*".to_string(),
        layer: Layer::Universal,
        enforcement: Enforcement::Prose,
        default: true,
        decision: Decision { question: "q".to_string(), default: Some("primary".to_string()), why: "w".to_string() },
        options: vec![
            Opt { id: "primary".to_string(), label: "primary".to_string(), directive: "the primary directive".to_string(), why: "w".to_string() },
            Opt { id: "alt".to_string(), label: "alt".to_string(), directive: "the alternative text".to_string(), why: "w".to_string() },
        ],
        qualifies: None,
        emits: vec![],
    }]
}

fn chosen_value<'a>(p: &'a Profile, id: &str) -> Option<&'a str> {
    p.chosen.iter().find(|(k, _)| k == id).map(|(_, v)| v.as_str())
}

#[test]
fn missing_ids_returns_ids_absent_from_library() {
    let p = sample_profile();
    let library = ["UNIV-RULE-1", "OTHER-RULE-1"];
    let missing = p.missing_ids(&library);
    assert_eq!(missing, vec!["RUST-DOMAIN-4".to_string()]);
}

#[test]
fn missing_ids_returns_empty_when_library_covers_all() {
    let p = sample_profile();
    let library = ["UNIV-RULE-1", "RUST-DOMAIN-4"];
    let missing = p.missing_ids(&library);
    assert!(missing.is_empty());
}

#[test]
fn missing_ids_returns_all_when_library_is_empty() {
    let p = sample_profile();
    let missing = p.missing_ids(&[]);
    assert_eq!(missing.len(), 2);
    assert!(missing.contains(&"UNIV-RULE-1".to_string()));
    assert!(missing.contains(&"RUST-DOMAIN-4".to_string()));
}

#[test]
fn migrate_chosen_text_to_option_id() {
    let mut p = sample_profile();
    p.version = 1;
    let unresolved = p.migrate_chosen_to_option_ids(&library_for_migration());
    assert!(unresolved.is_empty(), "exact directive text should resolve");
    assert_eq!(chosen_value(&p, "CHOICE-RULE-1"), Some("alt"), "legacy alternative text migrates to the option id");
    assert_eq!(p.version, PROFILE_VERSION);
}

#[test]
fn migrate_leaves_already_migrated_option_id_untouched() {
    let mut p = sample_profile();
    p.chosen = vec![("CHOICE-RULE-1".to_string(), "primary".to_string())];
    let unresolved = p.migrate_chosen_to_option_ids(&library_for_migration());
    assert!(unresolved.is_empty());
    assert_eq!(chosen_value(&p, "CHOICE-RULE-1"), Some("primary"));
}

#[test]
fn migrate_reports_unresolvable_text() {
    let mut p = sample_profile();
    p.chosen = vec![("CHOICE-RULE-1".to_string(), "text that matches no option".to_string())];
    let unresolved = p.migrate_chosen_to_option_ids(&library_for_migration());
    assert_eq!(unresolved, vec!["CHOICE-RULE-1".to_string()]);
    assert_eq!(chosen_value(&p, "CHOICE-RULE-1"), Some("text that matches no option"));
}

#[test]
fn migrate_matches_trimmed_directive_text_and_keeps_missing_rules() {
    let mut p = sample_profile();
    p.chosen = vec![
        ("CHOICE-RULE-1".to_string(), "  the primary directive \n".to_string()),
        ("GONE-RULE-1".to_string(), "kept".to_string()),
    ];
    let unresolved = p.migrate_chosen_to_option_ids(&library_for_migration());
    assert_eq!(chosen_value(&p, "CHOICE-RULE-1"), Some("primary"));
    assert_eq!(chosen_value(&p, "GONE-RULE-1"), Some("kept"));
    assert_eq!(unresolved, vec!["GONE-RULE-1".to_string()]);
}

#[test]
fn migrate_twice_changes_nothing_more() {
    let mut p = sample_profile();
    p.chosen.push(("OTHER-RULE-1".to_string(), "x".to_string()));
    let lib = library_for_migration();
    let first = p.migrate_chosen_to_option_ids(&lib);
    let after_first = p.chosen.clone();
    let second = p.migrate_chosen_to_option_ids(&lib);
    assert_eq!(p.chosen, after_first);
    assert_eq!(first, second);
}
