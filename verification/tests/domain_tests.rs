use camerata::{capabilities, domain_label, is_capability, is_default_selected_domain, is_meta_domain};

#[test]
fn default_selected_domains_are_universal_and_agentic() {
    assert!(is_default_selected_domain("*"));
    assert!(is_default_selected_domain("agentic"));
    assert!(!is_default_selected_domain("rust"));
    assert!(!is_default_selected_domain(""));
}

#[test]
fn capabilities_are_recognized() {
    assert_eq!(capabilities(), vec!["sql", "permissions", "iac", "api-layer", "agentic", "ci-cd", "concurrency"]);
    for c in capabilities() {
        assert!(is_capability(c));
    }
    assert!(!is_capability("rust"));
    assert!(!is_capability("*"));
}

#[test]
fn meta_domains_are_howto_and_contributing() {
    assert!(is_meta_domain("howto"));
    assert!(is_meta_domain("contributing"));
    assert!(!is_meta_domain("agentic"));
}

#[test]
fn domain_labels() {
    assert_eq!(domain_label("*"), "Universal");
    assert_eq!(domain_label("howto"), "Camerata · how to use");
    assert_eq!(domain_label("contributing"), "Camerata · how to contribute a canonical rule");
    assert_eq!(domain_label("sql"), "Capability · sql");
    assert_eq!(domain_label("rust:seaorm"), "Stack · rust:seaorm");
}
