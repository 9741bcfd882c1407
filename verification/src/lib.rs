//! camerata core: curated AI-orchestration principles, their selection and
//! resolution, the rules files and lockfile generated from them, and the
//! checks the principle library is held to.

use vstd::prelude::*;
use crate::text::str_equal;

pub mod cli;
pub mod custom;
pub mod emit;
pub mod laws;
pub mod lint;
pub mod path;
pub mod principle;
pub mod profile;
pub mod registry;
pub mod session;
pub mod text;
pub mod workspace;

verus! {

/// Capability domains: cross-cutting traits a project opts into, orthogonal
/// to language or stack.
pub open spec fn capability_domains() -> Seq<Seq<char>> {
    seq!["sql"@, "permissions"@, "iac"@, "api-layer"@, "agentic"@, "ci-cd"@, "concurrency"@]
}

/// Domains pre-selected by default: Universal ("*") and Agentic.
pub open spec fn default_selected_domains() -> Seq<Seq<char>> {
    seq!["*"@, "agentic"@]
}

/// The meta-documentation domains, about camerata itself.
pub open spec fn meta_domains() -> Seq<Seq<char>> {
    seq!["howto"@, "contributing"@]
}

/// The capability domain names, in their curated order.
pub fn capabilities() -> (r: Vec<&'static str>)
    ensures
        r@.map_values(|s: &str| s@) == capability_domains(),
{
    let r = vec!["sql", "permissions", "iac", "api-layer", "agentic", "ci-cd", "concurrency"];
    assert(r@.map_values(|s: &str| s@) =~= capability_domains());
    r
}

/// True if `domain` is in the default-selected set (Universal or Agentic).
pub fn is_default_selected_domain(domain: &str) -> (r: bool)
    ensures
        r == default_selected_domains().contains(domain@),
{
    let r = str_equal(domain, "*") || str_equal(domain, "agentic");
    proof {
        let s = default_selected_domains();
        if s.contains(domain@) {
            let k = choose|k: int| 0 <= k < s.len() && s[k] == domain@;
            assert(k == 0 || k == 1);
        }
        if r {
            assert(s[0] == "*"@ && s[1] == "agentic"@);
        }
    }
    r
}

/// Whether a domain names a capability (rather than a stack or "*").
pub fn is_capability(domain: &str) -> (r: bool)
    ensures
        r == capability_domains().contains(domain@),
{
    let names = capabilities();
    let mut i: usize = 0;
    while i < names.len()
        invariant
            i <= names@.len(),
            names@.map_values(|s: &str| s@) == capability_domains(),
            forall|k: int| 0 <= k < i ==> capability_domains()[k] != domain@,
        decreases names@.len() - i,
    {
        assert(names@.map_values(|s: &str| s@)[i as int] == names@[i as int]@);
        if str_equal(names[i], domain) {
            assert(capability_domains()[i as int] == domain@);
            return true;
        }
        i = i + 1;
    }
    false
}

/// True for the meta-documentation domains (`howto`, `contributing`), whose
/// principles document camerata itself rather than installable conventions.
pub fn is_meta_domain(domain: &str) -> (r: bool)
    ensures
        r == meta_domains().contains(domain@),
{
    let r = str_equal(domain, "howto") || str_equal(domain, "contributing");
    proof {
        let s = meta_domains();
        if s.contains(domain@) {
            let k = choose|k: int| 0 <= k < s.len() && s[k] == domain@;
            assert(k == 0 || k == 1);
        }
        if r {
            assert(s[0] == "howto"@ && s[1] == "contributing"@);
        }
    }
    r
}

/// The human label of a domain.
pub open spec fn label_of(domain: Seq<char>) -> Seq<char> {
    if domain == "*"@ {
        "Universal"@
    } else if domain == "howto"@ {
        "Camerata \u{b7} how to use"@
    } else if domain == "contributing"@ {
        "Camerata \u{b7} how to contribute a canonical rule"@
    } else if capability_domains().contains(domain) {
        "Capability \u{b7} "@ + domain
    } else {
        "Stack \u{b7} "@ + domain
    }
}

/// Human label for a domain, shared by the CLI and GUI.
pub fn domain_label(domain: &str) -> (r: String)
    ensures
        r@ == label_of(domain@),
{
    if str_equal(domain, "*") {
        String::from_str("Universal")
    } else if str_equal(domain, "howto") {
        String::from_str("Camerata \u{b7} how to use")
    } else if str_equal(domain, "contributing") {
        String::from_str("Camerata \u{b7} how to contribute a canonical rule")
    } else if is_capability(domain) {
        let mut s = String::from_str("Capability \u{b7} ");
        s.append(domain);
        s
    } else {
        let mut s = String::from_str("Stack \u{b7} ");
        s.append(domain);
        s
    }
}

} // verus!
