use camerata::custom::{
    add_custom_domain, add_custom_option, add_custom_rule, add_repo, delete_custom_domain, delete_custom_rule,
    domain_delete_message, remove_repo, rename_custom_domain, rule_delete_message, save_custom_rule, toggle_route,
    trimmed, CustomState,
};
use camerata::emit::CustomRule;

fn rule(name: &str, domain: &str) -> CustomRule {
    CustomRule { name: name.to_string(), body: format!("{name} body"), domain: domain.to_string() }
}

fn s(v: &[&str]) -> Vec<String> {
    v.iter().map(|x| x.to_string()).collect()
}

fn state() -> CustomState {
    CustomState {
        custom_rules: vec![rule("a", "infra"), rule("b", "*"), rule("c", "infra")],
        custom_domains: s(&["infra", "ops"]),
        selected_domains: s(&["*", "infra"]),
        expanded: s(&["*", "infra", "ops"]),
        domain_repos: vec![("infra".to_string(), s(&["repo-a"])), ("ops".to_string(), s(&["repo-b"]))],
        editing_rule: Some(2),
        custom_name: "c".to_string(),
        custom_body: "c body".to_string(),
    }
}

#[test]
fn deleting_a_custom_domain_cascades() {
    let mut ws = state();
    delete_custom_domain(&mut ws, "infra");
    assert_eq!(ws.custom_rules.iter().map(|r| r.name.as_str()).collect::<Vec<_>>(), vec!["b"]);
    assert_eq!(ws.custom_domains, s(&["ops"]));
    assert_eq!(ws.selected_domains, s(&["*"]));
    assert_eq!(ws.expanded, s(&["*", "ops"]));
    assert_eq!(ws.editing_rule, None);
    assert_eq!(ws.custom_name, "");
    assert_eq!(ws.domain_repos.len(), 2);
}

#[test]
fn delete_prompts_count_the_rules_that_go() {
    let ws = state();
    assert_eq!(
        domain_delete_message(&ws.custom_rules, "infra"),
        (
            "Delete custom domain \"infra\"?".to_string(),
            "Deleting this domain will also delete 2 custom rules scoped to it. This cannot be undone.".to_string()
        )
    );
    assert_eq!(
        domain_delete_message(&ws.custom_rules, "*").1,
        "Deleting this domain will also delete 1 custom rule scoped to it. This cannot be undone."
    );
    assert_eq!(domain_delete_message(&ws.custom_rules, "ops").1, "This domain has no custom rules. This cannot be undone.");
    assert_eq!(
        rule_delete_message(&ws.custom_rules, 1),
        ("Delete custom rule \"b\"?".to_string(), "This cannot be undone.".to_string())
    );
    assert_eq!(rule_delete_message(&ws.custom_rules, 9).0, "Delete custom rule \"(unnamed)\"?");
}

#[test]
fn renaming_a_custom_domain_moves_everything() {
    let mut ws = state();
    rename_custom_domain(&mut ws, "infra", "  platform ");
    assert_eq!(ws.custom_domains, s(&["platform", "ops"]));
    assert_eq!(ws.custom_rules[0].domain, "platform");
    assert_eq!(ws.custom_rules[1].domain, "*");
    assert_eq!(ws.selected_domains, s(&["*", "platform"]));
    assert_eq!(ws.expanded, s(&["*", "ops", "platform"]));
    assert_eq!(ws.domain_repos, vec![("ops".to_string(), s(&["repo-b"])), ("platform".to_string(), s(&["repo-a"]))]);
    assert_eq!(ws.editing_rule, Some(2));
}

#[test]
fn renaming_to_blank_or_same_name_changes_nothing() {
    let mut ws = state();
    rename_custom_domain(&mut ws, "infra", "   ");
    rename_custom_domain(&mut ws, "infra", " infra ");
    assert_eq!(ws.custom_domains, s(&["infra", "ops"]));
    assert_eq!(ws.custom_rules[0].domain, "infra");
}

#[test]
fn adding_a_custom_domain_activates_and_expands_it() {
    let mut ws = state();
    add_custom_domain(&mut ws, " data ");
    assert_eq!(ws.custom_domains, s(&["infra", "ops", "data"]));
    assert_eq!(ws.selected_domains, s(&["*", "infra", "data"]));
    assert_eq!(ws.expanded, s(&["*", "infra", "ops", "data"]));
    add_custom_domain(&mut ws, "ops");
    assert_eq!(ws.custom_domains, s(&["infra", "ops", "data"]));
    assert_eq!(ws.selected_domains, s(&["*", "infra", "data", "ops"]));
    add_custom_domain(&mut ws, "  ");
    assert_eq!(ws.custom_domains.len(), 3);
}

#[test]
fn custom_rules_are_added_saved_and_deleted() {
    let mut rules: Vec<CustomRule> = Vec::new();
    add_custom_rule(&mut rules, None, " ".to_string(), "".to_string());
    assert!(rules.is_empty());
    add_custom_rule(&mut rules, None, "n".to_string(), "".to_string());
    add_custom_rule(&mut rules, Some("infra"), "m".to_string(), "body".to_string());
    assert_eq!(rules[0].domain, "*");
    assert_eq!(rules[1].domain, "infra");
    save_custom_rule(&mut rules, 1, "m2".to_string(), "body2".to_string());
    assert_eq!((rules[1].name.as_str(), rules[1].body.as_str(), rules[1].domain.as_str()), ("m2", "body2", "infra"));
    save_custom_rule(&mut rules, 7, "x".to_string(), "y".to_string());
    assert_eq!(rules.len(), 2);
    let mut ws = state();
    delete_custom_rule(&mut ws, 0);
    assert_eq!(ws.custom_rules.iter().map(|r| r.name.as_str()).collect::<Vec<_>>(), vec!["b", "c"]);
    assert_eq!(ws.editing_rule, None);
    delete_custom_rule(&mut ws, 5);
    assert_eq!(ws.custom_rules.len(), 2);
}

#[test]
fn a_custom_option_is_added_and_chosen() {
    let mut alts = vec![vec![], vec!["x".to_string()]];
    let mut chosen = vec![None, None];
    add_custom_option(&mut alts, &mut chosen, 1, "mine".to_string());
    assert_eq!(alts[1], s(&["x", "mine"]));
    assert_eq!(chosen[1], Some("mine".to_string()));
    add_custom_option(&mut alts, &mut chosen, 0, "  ".to_string());
    assert!(alts[0].is_empty());
    assert_eq!(chosen[0], None);
}

#[test]
fn repos_and_routes() {
    let mut repos = Vec::new();
    add_repo(&mut repos, " ../a ");
    add_repo(&mut repos, "../a");
    add_repo(&mut repos, "../b");
    add_repo(&mut repos, " ");
    assert_eq!(repos, s(&["../a", "../b"]));
    remove_repo(&mut repos, 0);
    remove_repo(&mut repos, 4);
    assert_eq!(repos, s(&["../b"]));
    let mut routes: Vec<(String, Vec<String>)> = Vec::new();
    toggle_route(&mut routes, "rust", "../b");
    toggle_route(&mut routes, "rust", "../c");
    assert_eq!(routes, vec![("rust".to_string(), s(&["../b", "../c"]))]);
    toggle_route(&mut routes, "rust", "../b");
    assert_eq!(routes, vec![("rust".to_string(), s(&["../c"]))]);
    assert_eq!(trimmed("  x "), "x");
}
