//! The principle schema: one architectural decision with a uniform list of
//! options. `decision.default` names the adopted option; when it is absent the
//! decision is open (route-to-human) and the rule cannot emit until resolved.

use vstd::prelude::*;
use crate::text::{chars_of, first_index, range_first_index, str_equal};

verus! {

/// Whether a rule auto-adopts (universal) or is gated by a stack or
/// capability domain (stack).
#[derive(Debug, Clone, Copy, PartialEq, Eq, Structural)]
pub enum Tag {
    Universal,
    Stack,
}

/// Precedence layer; declaration order is the precedence order
/// (Universal < Language < Library < Framework). Most specific wins.
#[derive(Debug, Clone, Copy, PartialEq, Eq, Structural, PartialOrd, Ord)]
pub enum Layer {
    Universal,
    Language,
    Library,
    Framework,
}

/// How strongly a principle is enforced once emitted, weakest to strongest.
#[derive(Debug, Clone, Copy, PartialEq, Eq, Structural)]
pub enum Enforcement {
    Prose,
    Structured,
    Mechanical,
}

/// One artifact a principle emits and where it lands.
#[derive(Debug, Clone)]
pub struct Emit {
    /// "aicodingrules" (the interchange identifier) or a literal filename.
    pub target: String,
    /// Optional glob the rule applies to, e.g. "**/*.rs".
    pub scope: Option<String>,
}

/// The decision a principle models. Architect-facing; never emitted.
#[derive(Debug, Clone)]
pub struct Decision {
    pub question: String,
    /// The option id adopted by default; `None` is an open decision.
    pub default: Option<String>,
    pub why: String,
}

/// One defensible position on a principle's decision. Only `directive` is
/// consumer-facing.
#[derive(Debug, Clone)]
pub struct Opt {
    pub id: String,
    pub label: String,
    pub directive: String,
    pub why: String,
}

/// One principle definition.
#[derive(Debug, Clone)]
pub struct Principle {
    pub id: String,
    pub title: String,
    pub tag: Tag,
    /// "*" is universal; otherwise a stack path such as "rust" or "rust:seaorm".
    pub domain: String,
    pub layer: Layer,
    pub enforcement: Enforcement,
    /// Whether the rule auto-checks when its domain is selected.
    pub default: bool,
    pub decision: Decision,
    pub options: Vec<Opt>,
    /// Conformance test; required on mechanical rules by the linter.
    pub qualifies: Option<String>,
    pub emits: Vec<Emit>,
}

/// The position of a layer in precedence order.
pub open spec fn layer_rank(l: Layer) -> nat {
    match l {
        Layer::Universal => 0,
        Layer::Language => 1,
        Layer::Library => 2,
        Layer::Framework => 3,
    }
}

/// Executable precedence position of a layer.
pub fn layer_position(l: Layer) -> (r: u8)
    ensures
        r == layer_rank(l),
{
    match l {
        Layer::Universal => 0,
        Layer::Language => 1,
        Layer::Library => 2,
        Layer::Framework => 3,
    }
}

/// The short marker a listing shows before a rule of this tag.
pub fn tag_glyph(t: Tag) -> (r: &'static str)
    ensures
        t is Universal ==> r@ == "[U]"@,
        t is Stack ==> r@ == "[S]"@,
{
    match t {
        Tag::Universal => "[U]",
        Tag::Stack => "[S]",
    }
}

/// The domain a principle gets when its definition names none: universal.
pub fn default_domain() -> (d: String)
    ensures
        d@ == "*"@,
{
    String::from_str("*")
}

/// Index of the first option whose id is `id`.
pub open spec fn find_option(opts: Seq<Opt>, id: Seq<char>) -> Option<int>
    decreases opts.len(),
{
    if opts.len() == 0 {
        None
    } else if opts[0].id@ == id {
        Some(0)
    } else {
        match find_option(opts.drop_first(), id) {
            Some(i) => Some(i + 1),
            None => None,
        }
    }
}

/// The stack a domain belongs to: `None` for "*", else the part before the
/// first ':' (the whole domain when it has none).
pub open spec fn stack_base_of(domain: Seq<char>) -> Option<Seq<char>> {
    if domain == "*"@ {
        None
    } else {
        Some(domain.take(first_index(domain, ':') as int))
    }
}

/// Index of the option that `decision.default` names, if any.
pub open spec fn default_option_index(p: Principle) -> Option<int> {
    match p.decision.default {
        Some(d) => find_option(p.options@, d@),
        None => None,
    }
}

pub proof fn lemma_find_option(opts: Seq<Opt>, id: Seq<char>)
    ensures
        match find_option(opts, id) {
            Some(i) => 0 <= i < opts.len() && opts[i].id@ == id
                && forall|k: int| 0 <= k < i ==> opts[k].id@ != id,
            None => forall|k: int| 0 <= k < opts.len() ==> opts[k].id@ != id,
        },
    decreases opts.len(),
{
    if opts.len() > 0 && opts[0].id@ != id {
        lemma_find_option(opts.drop_first(), id);
        match find_option(opts.drop_first(), id) {
            Some(i) => {
                assert forall|k: int| 0 <= k < i + 1 implies opts[k].id@ != id by {
                    if k > 0 {
                        assert(opts[k] == opts.drop_first()[k - 1]);
                    }
                }
            }
            None => {
                assert forall|k: int| 0 <= k < opts.len() implies opts[k].id@ != id by {
                    if k > 0 {
                        assert(opts[k] == opts.drop_first()[k - 1]);
                    }
                }
            }
        }
    }
}

/// Index of the first option with id `id`, found by a scan.
pub fn option_index(opts: &Vec<Opt>, id: &str) -> (r: Option<usize>)
    ensures
        r is None <==> find_option(opts@, id@) is None,
        r matches Some(k) ==> find_option(opts@, id@) == Some(k as int),
{
    let mut i: usize = 0;
    while i < opts.len()
        invariant
            i <= opts@.len(),
            forall|k: int| 0 <= k < i ==> opts@[k].id@ != id@,
        decreases opts@.len() - i,
    {
        if str_equal(opts[i].id.as_str(), id) {
            proof {
                lemma_find_option_is(opts@, id@, i as int);
            }
            return Some(i);
        }
        i = i + 1;
    }
    proof {
        lemma_find_option(opts@, id@);
        match find_option(opts@, id@) {
            Some(j) => {
                assert(opts@[j].id@ == id@);
            }
            None => {}
        }
    }
    None
}

pub proof fn lemma_find_option_is(opts: Seq<Opt>, id: Seq<char>, i: int)
    requires
        0 <= i < opts.len(),
        opts[i].id@ == id,
        forall|k: int| 0 <= k < i ==> opts[k].id@ != id,
    ensures
        find_option(opts, id) == Some(i),
    decreases i,
{
    if i > 0 {
        let t = opts.drop_first();
        assert forall|k: int| 0 <= k < i - 1 implies t[k].id@ != id by {
            assert(t[k] == opts[k + 1]);
        }
        assert(t[i - 1] == opts[i]);
        assert(opts[0].id@ != id);
        lemma_find_option_is(t, id, i - 1);
    }
}

impl Principle {
    /// The stack this principle belongs to, e.g. "rust" for domain
    /// "rust:seaorm"; `None` for universal principles.
    pub fn stack_base(&self) -> (r: Option<&str>)
        ensures
            match stack_base_of(self.domain@) {
                Some(b) => r is Some && r->0@ == b,
                None => r is None,
            },
    {
        let d = self.domain.as_str();
        if str_equal(d, "*") {
            return None;
        }
        let v = chars_of(d);
        let n = range_first_index(&v, 0, v.len(), ':');
        proof {
            assert(v@.subrange(0, v@.len() as int) =~= v@);
        }
        let base = d.substring_char(0, n);
        assert(base@ =~= d@.take(n as int));
        Some(base)
    }

    /// True when the decision has no default option: the architect must
    /// resolve it, and the rule does not emit until then.
    pub fn has_no_default(&self) -> (r: bool)
        ensures
            r == self.decision.default.is_none(),
    {
        self.decision.default.is_none()
    }

    /// The option flagged as the default, if `decision.default` is present and
    /// names an option.
    pub fn default_option(&self) -> (r: Option<&Opt>)
        ensures
            match default_option_index(*self) {
                Some(i) => r is Some && *(r->0) == self.options@[i],
                None => r is None,
            },
    {
        match &self.decision.default {
            Some(id) => self.option(id.as_str()),
            None => None,
        }
    }

    /// The first option whose id is `id`.
    pub fn option(&self, id: &str) -> (r: Option<&Opt>)
        ensures
            match find_option(self.options@, id@) {
                Some(i) => r is Some && *(r->0) == self.options@[i],
                None => r is None,
            },
    {
        proof {
            lemma_find_option(self.options@, id@);
        }
        match option_index(&self.options, id) {
            Some(i) => {
                Some(&self.options[i])
            },
            None => None,
        }
    }
}

} // verus!
