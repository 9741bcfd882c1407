use camerata::emit::CustomRule;
use camerata::principle::{Decision, Enforcement, Layer, Opt, Principle, Tag};
use camerata::profile::Profile;
use camerata::session::{bulk_select, display_order, initial_selection, restore_workspace, toggle_domain, Bulk};

fn rule(id: &str, domain: &str, layer: Layer, default: bool) -> Principle {
    Principle {
        id: id.to_string(),
        title: "t".to_string(),
        tag: if domain == "*" { Tag::Universal } else { Tag::Stack },
        domain: domain.to_string(),
        layer,
        enforcement: Enforcement::Prose,
        default,
        decision: Decision { question: "q".to_string(), default: Some("a".to_string()), why: "w".to_string() },
        options: vec![Opt { id: "a".to_string(), label: "a".to_string(), directive: "do a".to_string(), why: "w".to_string() }],
        qualifies: None,
        emits: vec![],
    }
}

#[test]
fn initial_selection_checks_default_rules_of_default_domains() {
    let ps = vec![
        rule("U-A-1", "*", Layer::Universal, true),
        rule("U-B-1", "*", Layer::Universal, false),
        rule("AG-A-1", "agentic", Layer::Universal, true),
        rule("R-A-1", "rust", Layer::Language, true),
    ];
    assert_eq!(initial_selection(&ps), vec![true, false, true, false]);
}

#[test]
fn display_order_buckets_then_stack_layer_domain_id() {
    let ps = vec![
        rule("R-SEA-1", "rust:seaorm", Layer::Library, true),
        rule("JS-A-1", "js", Layer::Language, true),
        rule("SQL-A-1", "sql", Layer::Universal, true),
        rule("R-B-1", "rust", Layer::Language, true),
        rule("U-B-1", "*", Layer::Universal, true),
        rule("R-A-1", "rust", Layer::Language, true),
        rule("U-A-1", "*", Layer::Universal, true),
        rule("AG-A-1", "agentic", Layer::Universal, true),
        rule("R-DX-1", "rust:dioxus", Layer::Framework, true),
    ];
    let ord = display_order(&ps);
    let ids: Vec<&str> = ord.iter().map(|&i| ps[i].id.as_str()).collect();
    assert_eq!(ids, vec!["U-A-1", "U-B-1", "AG-A-1", "SQL-A-1", "JS-A-1", "R-A-1", "R-B-1", "R-SEA-1", "R-DX-1"]);
}

#[test]
fn display_order_keeps_library_order_for_equal_keys() {
    let ps = vec![rule("X-A-1", "*", Layer::Universal, true), rule("X-A-1", "*", Layer::Universal, false)];
    assert_eq!(display_order(&ps), vec![0, 1]);
}

#[test]
fn toggling_a_domain_cascades_to_its_rules() {
    let ps = vec![
        rule("R-A-1", "rust", Layer::Language, true),
        rule("R-B-1", "rust", Layer::Language, false),
        rule("U-A-1", "*", Layer::Universal, true),
    ];
    let mut domains = vec!["*".to_string()];
    let mut selected = vec![false, true, true];
    toggle_domain(&ps, &mut domains, &mut selected, "rust");
    assert_eq!(domains, vec!["*".to_string(), "rust".to_string()]);
    assert_eq!(selected, vec![true, false, true]);
    toggle_domain(&ps, &mut domains, &mut selected, "rust");
    assert_eq!(domains, vec!["*".to_string()]);
    assert_eq!(selected, vec![false, false, true]);
}

#[test]
fn bulk_actions_touch_one_domain() {
    let ps = vec![
        rule("R-A-1", "rust", Layer::Language, true),
        rule("R-B-1", "rust", Layer::Language, false),
        rule("U-A-1", "*", Layer::Universal, false),
    ];
    let mut selected = vec![false, false, true];
    bulk_select(&ps, &mut selected, "rust", Bulk::All);
    assert_eq!(selected, vec![true, true, true]);
    bulk_select(&ps, &mut selected, "rust", Bulk::Defaults);
    assert_eq!(selected, vec![true, false, true]);
    bulk_select(&ps, &mut selected, "rust", Bulk::Clear);
    assert_eq!(selected, vec![false, false, true]);
}

#[test]
fn restore_legacy_profile_falls_back_to_default_domains() {
    let ps = vec![rule("U-A-1", "*", Layer::Universal, true), rule("R-A-1", "rust", Layer::Language, true)];
    let mut prof = Profile::default();
    prof.selected_ids = vec!["R-A-1".to_string(), "GONE-1".to_string()];
    prof.chosen = vec![("R-A-1".to_string(), "old".to_string()), ("R-A-1".to_string(), "a".to_string())];
    prof.custom_alternatives = vec![("U-A-1".to_string(), vec!["my own".to_string()])];
    prof.custom_domains = vec!["infra".to_string()];
    prof.custom_rules = vec![CustomRule { name: "n".to_string(), body: "b".to_string(), domain: "infra".to_string() }];
    let r = restore_workspace(&ps, &prof);
    assert_eq!(r.selected, vec![false, true]);
    assert_eq!(r.chosen, vec![None, Some("a".to_string())]);
    assert_eq!(r.custom_alts, vec![vec!["my own".to_string()], vec![]]);
    assert_eq!(r.selected_domains, vec!["*".to_string(), "agentic".to_string(), "infra".to_string()]);
    assert_eq!(r.missing, vec!["GONE-1".to_string()]);
}

#[test]
fn restore_uses_saved_domains_when_present() {
    let ps = vec![rule("U-A-1", "*", Layer::Universal, true)];
    let mut prof = Profile::default();
    prof.selected_domains = vec!["rust".to_string(), "rust".to_string()];
    prof.custom_domains = vec!["rust".to_string()];
    let r = restore_workspace(&ps, &prof);
    assert_eq!(r.selected_domains, vec!["rust".to_string()]);
    assert_eq!(r.selected, vec![false]);
}
