use camerata::principle::{default_domain, layer_position, tag_glyph, Decision, Enforcement, Layer, Opt, Principle, Tag};

fn minimal() -> Principle {
    Principle {
        id: "TEST-MINIMAL-1".to_string(),
        title: "Minimal rule for round-trip".to_string(),
        tag: Tag::Universal,
        domain: default_domain(),
        layer: Layer::Universal,
        enforcement: Enforcement::Prose,
        default: true,
        decision: Decision {
            question: "How is the thing done?".to_string(),
            default: Some("the-way".to_string()),
            why: "the architect-only reasoning for the decision".to_string(),
        },
        options: vec![
            Opt {
                id: "the-way".to_string(),
                label: "the canonical way".to_string(),
                directive: "A short directive.".to_string(),
                why: "the canonical way is correct here".to_string(),
            },
            Opt {
                id: "the-other-way".to_string(),
                label: "the loosened way".to_string(),
                directive: "the loosened version of this rule".to_string(),
                why: "looser; defensible only in narrow contexts".to_string(),
            },
        ],
        qualifies: None,
        emits: vec![],
    }
}

#[test]
fn domain_defaults_to_universal_star_when_absent() {
    let p = minimal();
    assert_eq!(p.domain, "*");
    assert_eq!(default_domain(), "*");
}

#[test]
fn default_option_resolves_the_flagged_option() {
    let p = minimal();
    assert!(!p.has_no_default());
    let def = p.default_option().expect("default option present");
    assert_eq!(def.id, "the-way");
    assert_eq!(def.directive, "A short directive.");
}

#[test]
fn no_default_decision_is_route_to_human() {
    let mut p = minimal();
    p.decision.default = None;
    assert!(p.has_no_default());
    assert!(p.default_option().is_none());
    assert_eq!(p.options.len(), 2);
}

#[test]
fn dangling_default_resolves_to_no_option() {
    let mut p = minimal();
    p.decision.default = Some("missing".to_string());
    assert!(!p.has_no_default());
    assert!(p.default_option().is_none());
}

#[test]
fn option_finds_the_first_option_with_an_id() {
    let mut p = minimal();
    p.options.push(Opt { id: "the-way".to_string(), label: "dup".to_string(), directive: "second".to_string(), why: "w".to_string() });
    assert_eq!(p.option("the-way").unwrap().directive, "A short directive.");
    assert_eq!(p.option("the-other-way").unwrap().label, "the loosened way");
    assert!(p.option("nope").is_none());
}

#[test]
fn layer_orders_universal_before_specialized() {
    assert!(Layer::Universal < Layer::Language);
    assert!(Layer::Language < Layer::Library);
    assert!(Layer::Library < Layer::Framework);
    assert!(layer_position(Layer::Universal) < layer_position(Layer::Language));
    assert!(layer_position(Layer::Library) < layer_position(Layer::Framework));
}

#[test]
fn stack_base_returns_none_for_universal() {
    let p = minimal();
    assert_eq!(p.stack_base(), None);
}

#[test]
fn stack_base_strips_colon_suffix() {
    let mut p = minimal();
    p.domain = "rust".to_string();
    assert_eq!(p.stack_base(), Some("rust"));
    p.domain = "rust:seaorm".to_string();
    assert_eq!(p.stack_base(), Some("rust"));
    p.domain = "rust:dioxus".to_string();
    assert_eq!(p.stack_base(), Some("rust"));
    p.domain = "ts:next:app".to_string();
    assert_eq!(p.stack_base(), Some("ts"));
    p.domain = String::new();
    assert_eq!(p.stack_base(), Some(""));
}

#[test]
fn tag_glyph_marks_each_tag() {
    assert_eq!(tag_glyph(Tag::Universal), "[U]");
    assert_eq!(tag_glyph(Tag::Stack), "[S]");
}
