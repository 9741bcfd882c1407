use camerata::principle::{Decision, Enforcement, Layer, Principle, Tag};
use camerata::registry::{available_stacks, load_all};

fn p(id: &str, domain: &str, title: &str) -> Principle {
    Principle {
        id: id.to_string(),
        title: title.to_string(),
        tag: Tag::Stack,
        domain: domain.to_string(),
        layer: Layer::Language,
        enforcement: Enforcement::Prose,
        default: false,
        decision: Decision { question: "q".to_string(), default: None, why: "w".to_string() },
        options: vec![],
        qualifies: None,
        emits: vec![],
    }
}

#[test]
fn load_all_sorts_by_id_keeping_ties_in_order() {
    let lib = vec![p("C-X-1", "*", "c"), p("A-X-1", "*", "a1"), p("B-X-1", "*", "b"), p("A-X-1", "*", "a2")];
    let sorted = load_all(lib);
    let seen: Vec<(&str, &str)> = sorted.iter().map(|q| (q.id.as_str(), q.title.as_str())).collect();
    assert_eq!(seen, vec![("A-X-1", "a1"), ("A-X-1", "a2"), ("B-X-1", "b"), ("C-X-1", "c")]);
    assert!(load_all(vec![]).is_empty());
}

#[test]
fn available_stacks_are_distinct_sorted_bases() {
    let lib = vec![p("A-X-1", "rust:seaorm", "a"), p("B-X-1", "*", "b"), p("C-X-1", "ts:next", "c"), p("D-X-1", "rust", "d"), p("E-X-1", "sql", "e")];
    assert_eq!(available_stacks(&lib), vec!["rust".to_string(), "sql".to_string(), "ts".to_string()]);
}
