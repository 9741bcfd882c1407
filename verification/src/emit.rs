//! Turns selected principles into rules-file contents plus a lockfile that
//! records exactly what was installed, and reads lockfiles back to report
//! upstream drift.

use vstd::prelude::*;
use std::collections::hash_map::DefaultHasher;
use std::hash::Hasher;
use crate::principle::{
    default_option_index, find_option, layer_position, layer_rank, Enforcement, Principle,
};
use crate::path::{holds_path, insert_path, path_precedes, path_sorted, paths_equal, same_path};
use crate::text::{
    chars_of, chars_precede, decimal, has_prefix, hex_fixed, lines, precedes, push_char,
    push_decimal, push_hex_fixed, push_range, range_has_prefix, split_nl, str_equal,
    string_of_range, strip_range, trim, trim_quotes, holds, strictly_sorted, insert_sorted_unique,
};

verus! {

/// Context block that opens a generated AGENTS.md.
pub const AGENTS_CONTEXT: &'static str = "# AGENTS.md\n\nThis file is the authoritative source of architectural and behavioral commitments the AI agent applies when writing or modifying code in this project. Each block below states a single directive the agent follows at code-author time.\n\nThese are prose-enforcement rules. The agent reads and respects them by judgment, not by lint or compiler check. They were adopted from the camerata principle library by the project's architect. The rules represent committed choices, not suggestions.\n\nThe companion file CONVENTIONS.md holds this project's structured and mechanical conventions, organized by citable rule ID. The agent reads both files when starting work and cites the rule IDs from CONVENTIONS.md when referencing them in commits or PR descriptions.\n\nDo not edit this file by hand. To change the rules, edit the project's principle selection and regenerate via camerata.\n\n---\n\n";

/// Context block that opens a generated CONVENTIONS.md.
pub const CONVENTIONS_CONTEXT: &'static str = "# CONVENTIONS.md\n\nThis file is the authoritative source of structured and mechanical conventions this project follows. Each block below states a rule with a stable citable ID that maintainers and the AI agent reference in commits, PR descriptions, and code reviews.\n\nThese conventions were adopted from the camerata principle library by the project's architect. The rules represent committed choices, not suggestions. Structured rules are verified by code review and citation; mechanical rules can be enforced by lint, type-system, or CI checks.\n\nThe companion file AGENTS.md holds this project's prose-enforcement directives, the behavioral guidance the agent applies by judgment. The agent reads both files when starting work.\n\nWhen applying a rule, cite its ID in the commit body or PR description (for example, per RUST-DOMAIN-6).\n\nDo not edit this file by hand. To change the rules, edit the project's principle selection and regenerate via camerata.\n\n---\n\n";

/// First lines of every lockfile.
pub const LOCK_HEADER: &'static str = "# camerata.lock \u{2014} generated. Records installed principles + content hashes.\n# Do not edit by hand; used to detect upstream updates (`camerata outdated`).\n\n";

/// A principle the user chose. `chosen` is `None` to take the rule's default
/// option, or the id of a specific option. `custom_directive` carries the text
/// of an option the architect authored, which wins over both.
pub struct Selection<'a> {
    pub principle: &'a Principle,
    pub chosen: Option<String>,
    pub custom_directive: Option<String>,
}

/// A free-text rule the user wrote, attached to a domain ("*" or a stack).
#[derive(Clone, Debug, Default)]
pub struct CustomRule {
    pub name: String,
    pub body: String,
    pub domain: String,
}

/// What a scaffold installs: each file with its principle count, and the
/// number of installed entries.
pub struct Outcome {
    pub files: Vec<(String, usize)>,
    pub installed: usize,
}

/// One difference between an installed lockfile and the current library.
#[derive(Debug, PartialEq, Eq)]
pub enum Drift {
    /// The rule's adopted hash changed upstream.
    Changed(String),
    /// The rule is installed but no longer exists in the library.
    Removed(String),
}

/// The mathematical value of a `Drift`.
pub enum DriftView {
    Changed(Seq<char>),
    Removed(Seq<char>),
}

impl View for Drift {
    type V = DriftView;

    open spec fn view(&self) -> DriftView {
        match self {
            Drift::Changed(id) => DriftView::Changed(id@),
            Drift::Removed(id) => DriftView::Removed(id@),
        }
    }
}

/// The directive a selection resolves to: the custom directive if any, else
/// the chosen option's directive, else the default option's directive.
pub open spec fn resolved_directive(p: Principle, chosen: Option<String>, custom: Option<String>) -> Option<Seq<char>> {
    match custom {
        Some(t) => Some(t@),
        None => match chosen {
            Some(id) => match find_option(p.options@, id@) {
                Some(i) => Some(p.options@[i].directive@),
                None => None,
            },
            None => match default_option_index(p) {
                Some(i) => Some(p.options@[i].directive@),
                None => None,
            },
        },
    }
}

impl<'a> Selection<'a> {
    pub open spec fn spec_directive(&self) -> Option<Seq<char>> {
        resolved_directive(*self.principle, self.chosen, self.custom_directive)
    }

    /// A selection that takes the rule's default option.
    pub fn new(principle: &'a Principle) -> (s: Self)
        ensures
            s.principle == principle,
            s.chosen is None,
            s.custom_directive is None,
    {
        Selection { principle, chosen: None, custom_directive: None }
    }

    /// The directive text to emit, or `None` when the rule has no default and
    /// nothing was chosen, or the chosen id names no option.
    pub fn resolve_directive(&self) -> (r: Option<&str>)
        ensures
            match self.spec_directive() {
                Some(t) => r is Some && r->0@ == t,
                None => r is None,
            },
    {
        if let Some(text) = &self.custom_directive {
            return Some(text.as_str());
        }
        match &self.chosen {
            Some(id) => match self.principle.option(id.as_str()) {
                Some(o) => Some(o.directive.as_str()),
                None => None,
            },
            None => match self.principle.default_option() {
                Some(o) => Some(o.directive.as_str()),
                None => None,
            },
        }
    }
}

/// The ids of the selections that resolve to no directive, in order: open
/// decisions taken as-is, or a chosen id that names no option.
pub open spec fn skipped_of(sels: Seq<Selection>) -> Seq<Seq<char>>
    decreases sels.len(),
{
    if sels.len() == 0 {
        Seq::empty()
    } else {
        skipped_of(sels.drop_last()) + if sels.last().spec_directive() is None {
            seq![sels.last().principle.id@]
        } else {
            Seq::<Seq<char>>::empty()
        }
    }
}

/// The ids of the selections that a scaffold leaves out because they resolve
/// to no directive, in input order, so they can be reported.
pub fn skipped_ids(sels: &[Selection]) -> (r: Vec<String>)
    ensures
        r@.map_values(|s: String| s@) == skipped_of(sels@),
{
    let mut out: Vec<String> = Vec::new();
    let mut i: usize = 0;
    while i < sels.len()
        invariant
            i <= sels@.len(),
            out@.map_values(|s: String| s@) == skipped_of(sels@.take(i as int)),
        decreases sels@.len() - i,
    {
        let ghost before = out@;
        proof {
            assert(sels@.take(i + 1).drop_last() =~= sels@.take(i as int));
            assert(sels@.take(i + 1).last() == sels@[i as int]);
        }
        if sels[i].resolve_directive().is_none() {
            out.push(sels[i].principle.id.clone());
            assert(out@.map_values(|s: String| s@) =~= before.map_values(|s: String| s@).push(sels@[i as int].principle.id@));
        } else {
            assert(out@.map_values(|s: String| s@) =~= skipped_of(sels@.take(i + 1)));
        }
        i = i + 1;
    }
    assert(sels@.take(sels@.len() as int) =~= sels@);
    out
}

/// The file an emit target lands in: the interchange id "aicodingrules" is
/// AGENTS.md; any other target is a literal filename.
pub open spec fn filename_for(target: Seq<char>) -> Seq<char> {
    if target == "aicodingrules"@ {
        "AGENTS.md"@
    } else {
        target
    }
}

/// Map an emit target to the filename it lands in.
pub fn target_filename(target: &str) -> (r: &str)
    ensures
        r@ == filename_for(target@),
{
    if str_equal(target, "aicodingrules") {
        "AGENTS.md"
    } else {
        target
    }
}

/// Where a principle lands when it declares no emits: prose rules go to the
/// interchange target, structured and mechanical rules to CONVENTIONS.md.
pub open spec fn default_target_of(e: Enforcement) -> Seq<char> {
    match e {
        Enforcement::Prose => "aicodingrules"@,
        _ => "CONVENTIONS.md"@,
    }
}

/// Where a principle lands when it declares no explicit emits.
pub fn default_target(p: &Principle) -> (r: &'static str)
    ensures
        r@ == default_target_of(p.enforcement),
{
    match p.enforcement {
        Enforcement::Prose => "aicodingrules",
        Enforcement::Structured | Enforcement::Mechanical => "CONVENTIONS.md",
    }
}

/// A mechanical rule's conformance test, as the labelled line its block
/// carries; other rules, and a blank test, carry none.
pub open spec fn conformance_line(p: Principle) -> Seq<char> {
    match p.qualifies {
        Some(q) => if p.enforcement == Enforcement::Mechanical && trim(q@).len() > 0 {
            "\n_Conformance:_ "@ + trim(q@) + "\n"@
        } else {
            Seq::<char>::empty()
        },
        None => Seq::<char>::empty(),
    }
}

/// Append a principle's conformance line, if it has one.
fn push_conformance(s: &mut String, p: &Principle)
    ensures
        final(s)@ == old(s)@ + conformance_line(*p),
{
    if let Some(q) = &p.qualifies {
        if p.enforcement == Enforcement::Mechanical {
            let v = chars_of(q.as_str());
            let (a, b) = strip_range(&v, 0, v.len(), false);
            assert(v@.subrange(0, v@.len() as int) =~= v@);
            if a < b {
                s.append("\n_Conformance:_ ");
                push_range(s, &v, a, b);
                s.append("\n");
            }
        }
    }
    assert(s@ =~= old(s)@ + conformance_line(*p));
}

/// The markdown block for a principle with directive `body`, optionally
/// scoped to a glob.
pub open spec fn rule_block(p: Principle, body: Seq<char>, scope: Option<Seq<char>>) -> Seq<char> {
    "### "@ + p.id@ + " \u{2014} "@ + p.title@ + "\n"@ + body + "\n"@
        + conformance_line(p)
        + match scope {
            Some(sc) => "\n_Applies to:_ `"@ + sc + "`\n"@,
            None => Seq::<char>::empty(),
        } + "\n"@
}

/// The block for a principle whose directive is already resolved.
pub fn render_body(p: &Principle, body: &str, scope: Option<&str>) -> (s: String)
    ensures
        s@ == rule_block(*p, body@, match scope { Some(sc) => Some(sc@), None => None }),
{
    let mut s = String::new();
    s.append("### ");
    s.append(p.id.as_str());
    s.append(" \u{2014} ");
    s.append(p.title.as_str());
    s.append("\n");
    s.append(body);
    s.append("\n");
    push_conformance(&mut s, p);
    let ghost mid = s@;
    if let Some(sc) = scope {
        s.append("\n_Applies to:_ `");
        s.append(sc);
        s.append("`\n");
    }
    s.append("\n");
    assert(s@ =~= rule_block(*p, body@, match scope { Some(sc) => Some(sc@), None => None }));
    s
}

/// Render one selection as a markdown rule block: the id and title, then the
/// single resolved directive, then a mechanical rule's conformance line. `None` when the rule has no resolved directive
/// (an open decision does not emit). Labels, rationale, the question and
/// non-adopted options are never part of the block.
pub fn render(sel: &Selection, scope: Option<&str>) -> (r: Option<String>)
    ensures
        match sel.spec_directive() {
            Some(body) => r is Some && r->0@ == rule_block(*sel.principle, body,
                match scope { Some(sc) => Some(sc@), None => None }),
            None => r is None,
        },
{
    match sel.resolve_directive() {
        Some(body) => Some(render_body(sel.principle, body, scope)),
        None => None,
    }
}

/// The bytes a `str` feeds a hasher: its UTF-8 bytes, then the 0xff terminator.
pub open spec fn str_writes(s: Seq<char>) -> Seq<Seq<u8>> {
    seq![vstd::utf8::encode_utf8(s), seq![0xffu8]]
}

/// `format!("{:016x}", hasher.finish())` over the given writes.
pub open spec fn hash_text(writes: Seq<Seq<u8>>) -> Seq<char> {
    hex_fixed(<DefaultHasher as vstd::std_specs::hash::DefaultHasherAdditionalSpecFns>::spec_finish(writes) as nat, 16)
}

/// Feed a string to a hasher as `str::hash` does.
fn hash_str(h: &mut DefaultHasher, s: &str)
    ensures
        final(h)@ == old(h)@ + str_writes(s@),
{
    h.write(s.as_bytes());
    let ff: Vec<u8> = vec![0xffu8];
    assert(ff@ =~= seq![0xffu8]);
    h.write(ff.as_slice());
    assert(h@ =~= old(h)@ + str_writes(s@));
}

/// The lower-case, zero-padded hexadecimal text of a hasher's result.
fn finish_hex(h: &DefaultHasher) -> (s: String)
    ensures
        s@ == hash_text(h@),
{
    let v = h.finish();
    let mut s = String::new();
    push_hex_fixed(&mut s, v, 16);
    assert(s@ =~= hash_text(h@));
    s
}

/// A stable hash of a string, as lowercase hex, for the lockfile.
pub fn content_hash(s: &str) -> (r: String)
    ensures
        r@ == hash_text(str_writes(s@)),
{
    let mut h = DefaultHasher::new();
    hash_str(&mut h, s);
    assert(h@ =~= str_writes(s@));
    finish_hex(&h)
}

/// The option id a selection's hash records: the chosen id, else the
/// decision's default id, else "custom".
pub open spec fn hashed_option_id(p: Principle, chosen: Option<String>) -> Seq<char> {
    match chosen {
        Some(c) => c@,
        None => match p.decision.default {
            Some(d) => d@,
            None => "custom"@,
        },
    }
}

/// What a principle's adopted hash covers: id, title, resolved option id, and
/// the resolved directive when there is one.
pub open spec fn principle_writes(sel: Selection) -> Seq<Seq<u8>> {
    str_writes(sel.principle.id@) + str_writes(sel.principle.title@)
        + str_writes(hashed_option_id(*sel.principle, sel.chosen))
        + match sel.spec_directive() {
            Some(d) => str_writes(d),
            None => Seq::<Seq<u8>>::empty(),
        }
}

/// A stable content hash of a principle's meaning as adopted, for the lockfile.
pub fn principle_hash(sel: &Selection) -> (r: String)
    ensures
        r@ == hash_text(principle_writes(*sel)),
{
    let p = sel.principle;
    let mut h = DefaultHasher::new();
    hash_str(&mut h, p.id.as_str());
    hash_str(&mut h, p.title.as_str());
    match &sel.chosen {
        Some(c) => hash_str(&mut h, c.as_str()),
        None => match &p.decision.default {
            Some(d) => hash_str(&mut h, d.as_str()),
            None => hash_str(&mut h, "custom"),
        },
    }
    if let Some(directive) = sel.resolve_directive() {
        hash_str(&mut h, directive);
    }
    assert(h@ =~= principle_writes(*sel));
    finish_hex(&h)
}

/// The hash of a principle adopted at its default option.
pub open spec fn default_hash_text(p: Principle) -> Seq<char> {
    hash_text(principle_writes(Selection { principle: &p, chosen: None, custom_directive: None }))
}

/// The lockfile hash for a principle adopted at its default option, which is
/// what `outdated` compares against.
pub fn default_principle_hash(p: &Principle) -> (r: String)
    ensures
        r@ == default_hash_text(*p),
{
    principle_hash(&Selection::new(p))
}


/// One step of reading a lockfile: an `id = ` line remembers an id, a
/// `hash = ` line pairs the remembered id (if any) with its hash.
pub open spec fn lock_step(
    state: (Option<Seq<char>>, Seq<(Seq<char>, Seq<char>)>),
    raw_line: Seq<char>,
) -> (Option<Seq<char>>, Seq<(Seq<char>, Seq<char>)>) {
    let line = trim(raw_line);
    if has_prefix(line, "id = "@) {
        (Some(trim_quotes(trim(line.skip("id = "@.len() as int)))), state.1)
    } else if has_prefix(line, "hash = "@) {
        match state.0 {
            Some(id) => (None, state.1.push((id, trim_quotes(trim(line.skip("hash = "@.len() as int)))))),
            None => (None, state.1),
        }
    } else {
        state
    }
}

/// Reading state after the given lines.
pub open spec fn lock_scan(ls: Seq<Seq<char>>) -> (Option<Seq<char>>, Seq<(Seq<char>, Seq<char>)>)
    decreases ls.len(),
{
    if ls.len() == 0 {
        (None, Seq::empty())
    } else {
        lock_step(lock_scan(ls.drop_last()), ls.last())
    }
}

/// The `(id, hash)` pairs a lockfile text records.
pub open spec fn parsed_lock(text: Seq<char>) -> Seq<(Seq<char>, Seq<char>)> {
    lock_scan(lines(text)).1
}

/// The view of a list of string pairs.
pub open spec fn pairs_view(v: Seq<(String, String)>) -> Seq<(Seq<char>, Seq<char>)> {
    v.map_values(|p: (String, String)| (p.0@, p.1@))
}

/// Apply one lockfile line, `v[from..to]`, to the reading state.
fn lock_line(
    v: &Vec<char>,
    from: usize,
    to: usize,
    cur: Option<String>,
    out: &mut Vec<(String, String)>,
    id_prefix: &Vec<char>,
    hash_prefix: &Vec<char>,
) -> (next: Option<String>)
    requires
        from <= to <= v@.len(),
        id_prefix@ == "id = "@,
        hash_prefix@ == "hash = "@,
    ensures
        ({
            let st = lock_step(
                (match cur { Some(c) => Some(c@), None => None }, pairs_view(old(out)@)),
                v@.subrange(from as int, to as int),
            );
            &&& st.0 == match next { Some(c) => Some(c@), None => None::<Seq<char>> }
            &&& st.1 == pairs_view(final(out)@)
        }),
{
    let ghost raw = v@.subrange(from as int, to as int);
    let (a, b) = strip_range(v, from, to, false);
    let ghost line = v@.subrange(a as int, b as int);
    assert(line == trim(raw));
    if range_has_prefix(v, a, b, id_prefix) {
        let (c, d) = strip_range(v, a + id_prefix.len(), b, false);
        let (e, f) = strip_range(v, c, d, true);
        assert(v@.subrange((a + id_prefix.len()) as int, b as int) =~= line.skip("id = "@.len() as int));
        let id = string_of_range(v, e, f);
        Some(id)
    } else if range_has_prefix(v, a, b, hash_prefix) {
        let (c, d) = strip_range(v, a + hash_prefix.len(), b, false);
        let (e, f) = strip_range(v, c, d, true);
        assert(v@.subrange((a + hash_prefix.len()) as int, b as int) =~= line.skip("hash = "@.len() as int));
        match cur {
            Some(id) => {
                let h = string_of_range(v, e, f);
                let ghost before = out@;
                out.push((id, h));
                assert(pairs_view(out@) =~= pairs_view(before).push((id@, h@)));
                None
            },
            None => None,
        }
    } else {
        cur
    }
}

/// Parse the `[[installed]]` id/hash pairs out of a `camerata.lock` body.
/// An `id = ` line sets the current id; a following `hash = ` line records
/// the pair. Values are trimmed and stripped of surrounding double quotes.
pub fn parse_lock(text: &str) -> (r: Vec<(String, String)>)
    ensures
        pairs_view(r@) == parsed_lock(text@),
{
    let v = chars_of(text);
    let id_prefix = chars_of("id = ");
    let hash_prefix = chars_of("hash = ");
    let mut out: Vec<(String, String)> = Vec::new();
    let mut cur: Option<String> = None;
    let mut start: usize = 0;
    let mut i: usize = 0;
    let ghost mut done: Seq<Seq<char>> = Seq::empty();
    assert(v@.take(0) =~= Seq::<char>::empty());
    assert(split_nl(v@.take(0)) =~= seq![Seq::<char>::empty()]);
    while i < v.len()
        invariant
            id_prefix@ == "id = "@,
            hash_prefix@ == "hash = "@,
            start <= i <= v@.len(),
            split_nl(v@.take(i as int)) == done.push(v@.subrange(start as int, i as int)),
            lock_scan(done) == (match cur { Some(c) => Some(c@), None => None::<Seq<char>> }, pairs_view(out@)),
        decreases v@.len() - i,
    {
        let ghost prev = v@.take(i as int);
        assert(v@.take(i + 1).drop_last() =~= prev);
        if v[i] == '\n' {
            cur = lock_line(&v, start, i, cur, &mut out, &id_prefix, &hash_prefix);
            proof {
                let seg = v@.subrange(start as int, i as int);
                assert(done.push(seg).drop_last() =~= done);
                assert(lock_scan(done.push(seg)) == lock_step(lock_scan(done), seg));
                done = done.push(seg);
                assert(v@.subrange((i + 1) as int, (i + 1) as int) =~= Seq::<char>::empty());
            }
            start = i + 1;
        } else {
            proof {
                assert(v@.subrange(start as int, i + 1) =~= v@.subrange(start as int, i as int).push(v@[i as int]));
                let r = split_nl(prev);
                assert(r.update(r.len() - 1, r.last().push(v@[i as int])) =~= done.push(v@.subrange(start as int, i + 1)));
            }
        }
        i = i + 1;
    }
    assert(v@.take(v@.len() as int) =~= v@);
    if start < v.len() {
        let _ = lock_line(&v, start, v.len(), cur, &mut out, &id_prefix, &hash_prefix);
        proof {
            let seg = v@.subrange(start as int, v@.len() as int);
            assert(done.push(seg).drop_last() =~= done);
            assert(lines(v@) == done.push(seg));
        }
    } else {
        proof {
            assert(done.push(v@.subrange(start as int, i as int)).drop_last() =~= done);
            assert(lines(v@) == done);
        }
    }
    out
}

/// Index of the last library principle with id `id` (a map keyed by id keeps
/// the last one).
pub open spec fn lookup_last(lib: Seq<Principle>, id: Seq<char>) -> Option<int>
    decreases lib.len(),
{
    if lib.len() == 0 {
        None
    } else if lib.last().id@ == id {
        Some(lib.len() - 1)
    } else {
        lookup_last(lib.drop_last(), id)
    }
}

/// The drift reported for installed entries against a library.
pub open spec fn drift_list(inst: Seq<(Seq<char>, Seq<char>)>, lib: Seq<Principle>) -> Seq<DriftView>
    decreases inst.len(),
{
    if inst.len() == 0 {
        Seq::empty()
    } else {
        let prev = drift_list(inst.drop_last(), lib);
        let id = inst.last().0;
        let h = inst.last().1;
        if has_prefix(id, "CUSTOM-"@) {
            prev
        } else {
            match lookup_last(lib, id) {
                None => prev.push(DriftView::Removed(id)),
                Some(k) => if default_hash_text(lib[k]) != h {
                    prev.push(DriftView::Changed(id))
                } else {
                    prev
                },
            }
        }
    }
}

pub proof fn lemma_lookup_last(lib: Seq<Principle>, id: Seq<char>)
    ensures
        match lookup_last(lib, id) {
            Some(k) => 0 <= k < lib.len() && lib[k].id@ == id
                && forall|j: int| k < j < lib.len() ==> lib[j].id@ != id,
            None => forall|j: int| 0 <= j < lib.len() ==> lib[j].id@ != id,
        },
    decreases lib.len(),
{
    if lib.len() > 0 && lib.last().id@ != id {
        let t = lib.drop_last();
        lemma_lookup_last(t, id);
        assert forall|j: int| 0 <= j < t.len() implies lib[j] == #[trigger] t[j] by {}
        match lookup_last(t, id) {
            Some(k) => {
                assert forall|j: int| k < j < lib.len() implies lib[j].id@ != id by {
                    if j < t.len() {
                        assert(lib[j] == t[j]);
                    }
                }
            }
            None => {
                assert forall|j: int| 0 <= j < lib.len() implies lib[j].id@ != id by {
                    if j < t.len() {
                        assert(lib[j] == t[j]);
                    }
                }
            }
        }
    }
}

/// Index of the last principle with id `id`, found by a backward scan.
fn find_last(lib: &[Principle], id: &str) -> (r: Option<usize>)
    ensures
        r is None <==> lookup_last(lib@, id@) is None,
        r matches Some(k) ==> lookup_last(lib@, id@) == Some(k as int),
{
    let mut i = lib.len();
    assert(lib@.take(i as int) =~= lib@);
    while i > 0
        invariant
            i <= lib@.len(),
            lookup_last(lib@, id@) == lookup_last(lib@.take(i as int), id@),
        decreases i,
    {
        assert(lib@.take(i as int).drop_last() =~= lib@.take(i - 1));
        if str_equal(lib[i - 1].id.as_str(), id) {
            return Some(i - 1);
        }
        i = i - 1;
    }
    None
}

/// Compare a parsed lockfile with the current library and report drift: one
/// entry per installed rule whose adopted hash changed or that no longer
/// exists. Unchanged rules and library rules absent from the lock are
/// omitted; user-owned `CUSTOM-` entries are skipped.
pub fn outdated(installed: &[(String, String)], library: &[Principle]) -> (r: Vec<Drift>)
    ensures
        r@.map_values(|d: Drift| d@) == drift_list(pairs_view(installed@), library@),
{
    let custom = chars_of("CUSTOM-");
    let mut drift: Vec<Drift> = Vec::new();
    let mut i: usize = 0;
    while i < installed.len()
        invariant
            custom@ == "CUSTOM-"@,
            i <= installed@.len(),
            drift@.map_values(|d: Drift| d@) == drift_list(pairs_view(installed@.take(i as int)), library@),
        decreases installed@.len() - i,
    {
        let ghost before = drift@;
        let id = &installed[i].0;
        let locked = &installed[i].1;
        let idv = chars_of(id.as_str());
        assert(pairs_view(installed@.take(i + 1)).drop_last() =~= pairs_view(installed@.take(i as int)));
        assert(pairs_view(installed@.take(i + 1)).last() == (id@, locked@));
        assert(idv@.subrange(0, idv@.len() as int) =~= idv@);
        if !range_has_prefix(&idv, 0, idv.len(), &custom) {
            proof {
                lemma_lookup_last(library@, id@);
            }
            match find_last(library, id.as_str()) {
                None => {
                    drift.push(Drift::Removed(id.clone()));
                    assert(drift@.map_values(|d: Drift| d@) =~= before.map_values(|d: Drift| d@).push(DriftView::Removed(id@)));
                },
                Some(k) => {
                    let h = default_principle_hash(&library[k]);
                    if !(h == *locked) {
                        drift.push(Drift::Changed(id.clone()));
                        assert(drift@.map_values(|d: Drift| d@) =~= before.map_values(|d: Drift| d@).push(DriftView::Changed(id@)));
                    }
                },
            }
        }
        i = i + 1;
    }
    assert(installed@.take(installed@.len() as int) =~= installed@);
    drift
}

/// The header line plus the role description that opens a generated file.
pub open spec fn header_text(filename: Seq<char>, count: nat) -> Seq<char> {
    "<!-- Generated by camerata. "@ + decimal(count) + " principle(s). Edit principle sources, not this file. -->\n\n"@
        + if filename == "AGENTS.md"@ {
            AGENTS_CONTEXT@
        } else if filename == "CONVENTIONS.md"@ {
            CONVENTIONS_CONTEXT@
        } else {
            Seq::<char>::empty()
        }
}

/// Build the self-describing header for a generated file: a generated-by
/// line with the principle count, then (for AGENTS.md and CONVENTIONS.md)
/// a description of the file's role. Other files get only the first line.
pub fn file_header(filename: &str, count: usize) -> (r: String)
    ensures
        r@ == header_text(filename@, count as nat),
{
    let mut s = String::new();
    s.append("<!-- Generated by camerata. ");
    push_decimal(&mut s, count as u64);
    s.append(" principle(s). Edit principle sources, not this file. -->\n\n");
    if str_equal(filename, "AGENTS.md") {
        s.append(AGENTS_CONTEXT);
    } else if str_equal(filename, "CONVENTIONS.md") {
        s.append(CONVENTIONS_CONTEXT);
    }
    assert(s@ =~= header_text(filename@, count as nat));
    s
}

/// The lockfile entry for one installed `(id, hash)`.
pub open spec fn lock_entry(id: Seq<char>, h: Seq<char>) -> Seq<char> {
    "[[installed]]\nid = \""@ + id + "\"\nhash = \""@ + h + "\"\n\n"@
}

/// The entries of a lockfile, in order.
pub open spec fn lock_entries(inst: Seq<(Seq<char>, Seq<char>)>) -> Seq<char>
    decreases inst.len(),
{
    if inst.len() == 0 {
        Seq::empty()
    } else {
        lock_entries(inst.drop_last()) + lock_entry(inst.last().0, inst.last().1)
    }
}

/// The whole text of a lockfile recording `inst`.
pub open spec fn lock_text(inst: Seq<(Seq<char>, Seq<char>)>) -> Seq<char> {
    LOCK_HEADER@ + lock_entries(inst)
}

/// Write the lockfile body for the installed `(id, hash)` pairs.
pub fn render_lock(installed: &Vec<(String, String)>) -> (r: String)
    ensures
        r@ == lock_text(pairs_view(installed@)),
{
    let mut s = String::new();
    s.append(LOCK_HEADER);
    let mut i: usize = 0;
    while i < installed.len()
        invariant
            i <= installed@.len(),
            s@ == LOCK_HEADER@ + lock_entries(pairs_view(installed@.take(i as int))),
        decreases installed@.len() - i,
    {
        s.append("[[installed]]\nid = \"");
        s.append(installed[i].0.as_str());
        s.append("\"\nhash = \"");
        s.append(installed[i].1.as_str());
        s.append("\"\n\n");
        proof {
            let pv = pairs_view(installed@.take(i + 1));
            assert(pv.drop_last() =~= pairs_view(installed@.take(i as int)));
            assert(pv.last() == (installed@[i as int].0@, installed@[i as int].1@));
        }
        assert(s@ =~= LOCK_HEADER@ + lock_entries(pairs_view(installed@.take(i + 1))));
        i = i + 1;
    }
    assert(installed@.take(installed@.len() as int) =~= installed@);
    s
}

// ---------------------------------------------------------------- scaffold

/// `a` is emitted strictly before `b`: a lower layer, or the same layer and a
/// smaller id.
pub open spec fn emits_before(a: Principle, b: Principle) -> bool {
    ||| layer_rank(a.layer) < layer_rank(b.layer)
    ||| (layer_rank(a.layer) == layer_rank(b.layer) && precedes(a.id@, b.id@))
}

/// `a` and `b` share layer and id, so their input order decides.
pub open spec fn same_place(a: Principle, b: Principle) -> bool {
    layer_rank(a.layer) == layer_rank(b.layer) && a.id@ == b.id@
}

/// Selection `i` is emitted before selection `j` (a stable order).
pub open spec fn ordered_before(sels: Seq<Selection>, i: int, j: int) -> bool {
    ||| emits_before(*sels[i].principle, *sels[j].principle)
    ||| (same_place(*sels[i].principle, *sels[j].principle) && i < j)
}

/// `ord` lists every selection index once, in precedence order (layer
/// ascending, then id), ties kept in input order.
pub open spec fn is_emission_order(sels: Seq<Selection>, ord: Seq<usize>) -> bool {
    &&& ord.len() == sels.len()
    &&& forall|i: int| 0 <= i < ord.len() ==> #[trigger] ord[i] < sels.len()
    &&& forall|i: int, j: int| 0 <= i < j < ord.len() ==> ordered_before(sels, #[trigger] ord[i] as int, #[trigger] ord[j] as int)
}

pub proof fn lemma_ordered_before_transitive(sels: Seq<Selection>, a: int, b: int, c: int)
    requires
        ordered_before(sels, a, b),
        ordered_before(sels, b, c),
    ensures
        ordered_before(sels, a, c),
{
    let pa = *sels[a].principle;
    let pb = *sels[b].principle;
    let pc = *sels[c].principle;
    if layer_rank(pa.layer) == layer_rank(pb.layer) && layer_rank(pb.layer) == layer_rank(pc.layer) {
        if precedes(pa.id@, pb.id@) && precedes(pb.id@, pc.id@) {
            crate::text::lemma_precedes_transitive(pa.id@, pb.id@, pc.id@);
        }
    }
}

/// Precedence comparison of two principles.
fn emits_before_exec(a: &Principle, b: &Principle) -> (r: bool)
    ensures
        r == emits_before(*a, *b),
{
    let ra = layer_position(a.layer);
    let rb = layer_position(b.layer);
    if ra < rb {
        true
    } else if ra > rb {
        false
    } else {
        crate::text::text_precedes(a.id.as_str(), b.id.as_str())
    }
}

/// The order selections are emitted in: layer ascending (universal, language,
/// library, framework), then id, ties in input order. A stable insertion sort.
pub fn emission_order(sels: &[Selection]) -> (ord: Vec<usize>)
    ensures
        is_emission_order(sels@, ord@),
{
    let mut ord: Vec<usize> = Vec::new();
    let mut k: usize = 0;
    while k < sels.len()
        invariant
            k <= sels@.len(),
            ord@.len() == k,
            forall|i: int| 0 <= i < ord@.len() ==> #[trigger] ord@[i] < k,
            forall|i: int, j: int| 0 <= i < j < ord@.len() ==> ordered_before(sels@, #[trigger] ord@[i] as int, #[trigger] ord@[j] as int),
        decreases sels@.len() - k,
    {
        let mut p = ord.len();
        while p > 0 && emits_before_exec(sels[k].principle, sels[ord[p - 1]].principle)
            invariant
                k < sels@.len(),
                p <= ord@.len(),
                forall|i: int| 0 <= i < ord@.len() ==> #[trigger] ord@[i] < k,
                forall|q: int| p <= q < ord@.len() ==> emits_before(*sels@[k as int].principle, *sels@[#[trigger] ord@[q] as int].principle),
            decreases p,
        {
            p = p - 1;
        }
        let ghost old_ord = ord@;
        proof {
            if p > 0 {
                let b = old_ord[p - 1] as int;
                let pk = *sels@[k as int].principle;
                let pb = *sels@[b].principle;
                crate::text::lemma_precedes_total(pk.id@, pb.id@);
                assert(ordered_before(sels@, b, k as int));
                assert forall|q: int| 0 <= q < p - 1 implies ordered_before(sels@, #[trigger] old_ord[q] as int, k as int) by {
                    lemma_ordered_before_transitive(sels@, old_ord[q] as int, b, k as int);
                }
            }
        }
        ord.insert(p, k);
        proof {
            assert forall|i: int, j: int| 0 <= i < j < ord@.len() implies ordered_before(sels@, #[trigger] ord@[i] as int, #[trigger] ord@[j] as int) by {
                if i < p && j < p {
                    assert(ord@[i] == old_ord[i] && ord@[j] == old_ord[j]);
                } else if i < p && j == p {
                    if i == p - 1 {
                    } else {
                        assert(ord@[i] == old_ord[i]);
                    }
                } else if i < p && j > p {
                    assert(ord@[i] == old_ord[i] && ord@[j] == old_ord[j - 1]);
                } else if i == p {
                    assert(ord@[j] == old_ord[j - 1]);
                    assert(emits_before(*sels@[k as int].principle, *sels@[old_ord[j - 1] as int].principle));
                } else {
                    assert(ord@[i] == old_ord[i - 1] && ord@[j] == old_ord[j - 1]);
                }
            }
        }
        k = k + 1;
    }
    ord
}

pub open spec fn opt_view(o: Option<String>) -> Option<Seq<char>> {
    match o {
        Some(s) => Some(s@),
        None => None,
    }
}

/// The `(target, scope)` an emit declares.
pub open spec fn emit_target(e: crate::principle::Emit) -> (Seq<char>, Option<Seq<char>>) {
    (e.target@, opt_view(e.scope))
}

/// The `(filename, block)` entry of principle `p` with directive `body` for
/// target `t`.
pub open spec fn target_entry(p: Principle, body: Seq<char>, t: (Seq<char>, Option<Seq<char>>)) -> (Seq<char>, Seq<char>) {
    (filename_for(t.0), rule_block(p, body, t.1))
}

/// One entry per declared emit, in order.
pub open spec fn emit_entries(p: Principle, body: Seq<char>, emits: Seq<crate::principle::Emit>) -> Seq<(Seq<char>, Seq<char>)>
    decreases emits.len(),
{
    if emits.len() == 0 {
        Seq::empty()
    } else {
        emit_entries(p, body, emits.drop_last()).push(target_entry(p, body, emit_target(emits.last())))
    }
}

/// The entries of a principle with directive `body`: one per declared emit,
/// or a single one at the enforcement default when it declares none.
pub open spec fn principle_entries(p: Principle, body: Seq<char>) -> Seq<(Seq<char>, Seq<char>)> {
    if p.emits.len() == 0 {
        seq![target_entry(p, body, (default_target_of(p.enforcement), None))]
    } else {
        emit_entries(p, body, p.emits@)
    }
}

/// The `(filename, block)` entries one selection contributes.
pub open spec fn selection_entries(sel: Selection) -> Seq<(Seq<char>, Seq<char>)> {
    match sel.spec_directive() {
        None => Seq::empty(),
        Some(body) => principle_entries(*sel.principle, body),
    }
}

/// Entries of the selections taken in the order `ord`.
pub open spec fn ordered_entries(sels: Seq<Selection>, ord: Seq<usize>) -> Seq<(Seq<char>, Seq<char>)>
    decreases ord.len(),
{
    if ord.len() == 0 {
        Seq::empty()
    } else {
        ordered_entries(sels, ord.drop_last()) + selection_entries(sels[ord.last() as int])
    }
}

/// Lockfile entries of the selections taken in the order `ord`: those that
/// resolve, with their adopted hash.
pub open spec fn ordered_installed(sels: Seq<Selection>, ord: Seq<usize>) -> Seq<(Seq<char>, Seq<char>)>
    decreases ord.len(),
{
    if ord.len() == 0 {
        Seq::empty()
    } else {
        let prev = ordered_installed(sels, ord.drop_last());
        let sel = sels[ord.last() as int];
        if sel.spec_directive() is Some {
            prev.push((sel.principle.id@, hash_text(principle_writes(sel))))
        } else {
            prev
        }
    }
}

/// A custom rule's domain, with an empty domain read as universal.
pub open spec fn custom_domain(d: Seq<char>) -> Seq<char> {
    if d.len() == 0 {
        "*"@
    } else {
        d
    }
}

/// A custom rule with blank name and blank body is skipped.
pub open spec fn custom_skipped(c: CustomRule) -> bool {
    trim(c.name@).len() == 0 && trim(c.body@).len() == 0
}

/// The block a custom rule emits into AGENTS.md.
pub open spec fn custom_block(c: CustomRule) -> Seq<char> {
    "### CUSTOM-"@ + trim(c.name@) + " _(custom \u{b7} domain: "@ + custom_domain(c.domain@) + ")_\n"@
        + trim(c.body@) + "\n\n"@
}

pub open spec fn custom_entries(cs: Seq<CustomRule>) -> Seq<(Seq<char>, Seq<char>)>
    decreases cs.len(),
{
    if cs.len() == 0 {
        Seq::empty()
    } else if custom_skipped(cs.last()) {
        custom_entries(cs.drop_last())
    } else {
        custom_entries(cs.drop_last()).push(("AGENTS.md"@, custom_block(cs.last())))
    }
}

pub open spec fn custom_installed(cs: Seq<CustomRule>) -> Seq<(Seq<char>, Seq<char>)>
    decreases cs.len(),
{
    if cs.len() == 0 {
        Seq::empty()
    } else if custom_skipped(cs.last()) {
        custom_installed(cs.drop_last())
    } else {
        custom_installed(cs.drop_last()).push(
            ("CUSTOM-"@ + trim(cs.last().name@), hash_text(str_writes(custom_block(cs.last())))),
        )
    }
}

/// The concatenated blocks of the entries that land in file `f`.
pub open spec fn blocks_for(entries: Seq<(Seq<char>, Seq<char>)>, f: Seq<char>) -> Seq<char>
    decreases entries.len(),
{
    if entries.len() == 0 {
        Seq::empty()
    } else if entries.last().0 == f {
        blocks_for(entries.drop_last(), f) + entries.last().1
    } else {
        blocks_for(entries.drop_last(), f)
    }
}

/// The number of entries that land in file `f`.
pub open spec fn count_for(entries: Seq<(Seq<char>, Seq<char>)>, f: Seq<char>) -> nat
    decreases entries.len(),
{
    if entries.len() == 0 {
        0
    } else if entries.last().0 == f {
        count_for(entries.drop_last(), f) + 1
    } else {
        count_for(entries.drop_last(), f)
    }
}

pub proof fn lemma_count_for_bound(entries: Seq<(Seq<char>, Seq<char>)>, f: Seq<char>)
    ensures
        count_for(entries, f) <= entries.len(),
    decreases entries.len(),
{
    if entries.len() > 0 {
        lemma_count_for_bound(entries.drop_last(), f);
    }
}

/// One generated rules file.
pub struct PlannedFile {
    pub filename: String,
    pub contents: String,
    pub count: usize,
}

/// Everything a scaffold writes: the rules files (by filename order), the
/// installed `(id, hash)` entries, and the lockfile text.
pub struct ScaffoldPlan {
    pub files: Vec<PlannedFile>,
    pub installed: Vec<(String, String)>,
    pub lock: String,
}

/// Each file holds, after its header, exactly the blocks routed to it, and
/// every file that receives a block is present, in filename order.
pub open spec fn files_match(files: Seq<PlannedFile>, entries: Seq<(Seq<char>, Seq<char>)>) -> bool {
    &&& forall|i: int, j: int| 0 <= i < j < files.len() ==> precedes(#[trigger] files[i].filename@, #[trigger] files[j].filename@)
    &&& forall|i: int| 0 <= i < files.len() ==> {
        let f = #[trigger] files[i].filename@;
        &&& files[i].count == count_for(entries, f)
        &&& count_for(entries, f) > 0
        &&& files[i].contents@ == header_text(f, count_for(entries, f)) + blocks_for(entries, f)
    }
    &&& forall|f: Seq<char>| #[trigger] count_for(entries, f) > 0 ==> exists|i: int| 0 <= i < files.len() && files[i].filename@ == f
}

/// The plan for selections emitted in order `ord` plus custom rules.
pub open spec fn plan_matches(plan: ScaffoldPlan, sels: Seq<Selection>, ord: Seq<usize>, cs: Seq<CustomRule>) -> bool {
    let entries = ordered_entries(sels, ord) + custom_entries(cs);
    let inst = ordered_installed(sels, ord) + custom_installed(cs);
    &&& files_match(plan.files@, entries)
    &&& pairs_view(plan.installed@) == inst
    &&& plan.lock@ == lock_text(inst)
}

/// Grouped blocks: `(filename, blocks, count)` sorted by filename.
pub open spec fn groups_match(g: Seq<(String, String, usize)>, entries: Seq<(Seq<char>, Seq<char>)>) -> bool {
    &&& forall|i: int, j: int| 0 <= i < j < g.len() ==> precedes(#[trigger] g[i].0@, #[trigger] g[j].0@)
    &&& forall|i: int| 0 <= i < g.len() ==> {
        &&& (#[trigger] g[i]).2 == count_for(entries, g[i].0@)
        &&& count_for(entries, g[i].0@) > 0
        &&& g[i].1@ == blocks_for(entries, g[i].0@)
    }
    &&& forall|f: Seq<char>| #[trigger] count_for(entries, f) > 0 ==> exists|i: int| 0 <= i < g.len() && g[i].0@ == f
}

pub proof fn lemma_blocks_for_unused(entries: Seq<(Seq<char>, Seq<char>)>, f: Seq<char>)
    requires
        count_for(entries, f) == 0,
    ensures
        blocks_for(entries, f) == Seq::<char>::empty(),
    decreases entries.len(),
{
    if entries.len() > 0 {
        lemma_blocks_for_unused(entries.drop_last(), f);
    }
}

/// Add one `(name, block)` entry to the grouped blocks.
fn add_block(g: &mut Vec<(String, String, usize)>, name: &str, block: &str, Ghost(entries): Ghost<Seq<(Seq<char>, Seq<char>)>>)
    requires
        groups_match(old(g)@, entries),
        count_for(entries, name@) < usize::MAX,
    ensures
        groups_match(final(g)@, entries.push((name@, block@))),
{
    let ghost e2 = entries.push((name@, block@));
    assert(e2.drop_last() =~= entries);
    assert(e2.last() == (name@, block@));
    let ghost old_g = g@;
    let mut p: usize = 0;
    while p < g.len() && crate::text::text_precedes(g[p].0.as_str(), name)
        invariant
            p <= g@.len(),
            g@ == old_g,
            forall|q: int| 0 <= q < p ==> precedes(#[trigger] g@[q].0@, name@),
        decreases g@.len() - p,
    {
        p = p + 1;
    }
    if p < g.len() && str_equal(g[p].0.as_str(), name) {
        let mut nb = g[p].1.clone();
        nb.append(block);
        let c = g[p].2 + 1;
        let nm = g[p].0.clone();
        g.set(p, (nm, nb, c));
        proof {
            assert forall|i: int| 0 <= i < g@.len() && i != p implies (#[trigger] g@[i]).0@ != name@ by {
                assert(g@[i] == old_g[i]);
                if i < p {
                    assert(precedes(old_g[i].0@, old_g[p as int].0@));
                    crate::text::lemma_precedes_irreflexive(name@);
                } else {
                    assert(precedes(old_g[p as int].0@, old_g[i].0@));
                    crate::text::lemma_precedes_irreflexive(name@);
                }
            }
            assert forall|i: int, j: int| 0 <= i < j < g@.len() implies precedes(#[trigger] g@[i].0@, #[trigger] g@[j].0@) by {
                assert(g@[i].0@ == old_g[i].0@);
                assert(g@[j].0@ == old_g[j].0@);
            }
            assert forall|i: int| 0 <= i < g@.len() implies {
                &&& (#[trigger] g@[i]).2 == count_for(e2, g@[i].0@)
                &&& count_for(e2, g@[i].0@) > 0
                &&& g@[i].1@ == blocks_for(e2, g@[i].0@)
            } by {
                if i != p {
                    assert(g@[i] == old_g[i]);
                }
            }
            assert forall|f: Seq<char>| #[trigger] count_for(e2, f) > 0 implies exists|i: int| 0 <= i < g@.len() && g@[i].0@ == f by {
                if f == name@ {
                    assert(g@[p as int].0@ == f);
                } else {
                    assert(count_for(entries, f) > 0);
                    let i = choose|i: int| 0 <= i < old_g.len() && old_g[i].0@ == f;
                    assert(g@[i].0@ == f);
                }
            }
        }
    } else {
        proof {
            crate::text::lemma_precedes_irreflexive(name@);
            if count_for(entries, name@) > 0 {
                let i = choose|i: int| 0 <= i < old_g.len() && old_g[i].0@ == name@;
                if i < p {
                    assert(precedes(old_g[i].0@, name@));
                } else {
                    let gp = old_g[p as int].0@;
                    crate::text::lemma_precedes_total(gp, name@);
                    if i > p {
                        assert(precedes(gp, old_g[i].0@));
                        crate::text::lemma_precedes_asymmetric(gp, name@);
                    }
                }
            }
            lemma_blocks_for_unused(entries, name@);
        }
        g.insert(p, (String::from_str(name), String::from_str(block), 1));
        proof {
            assert(count_for(e2, name@) == 1);
            assert(blocks_for(e2, name@) =~= block@);
            if p < old_g.len() {
                let gp = old_g[p as int].0@;
                crate::text::lemma_precedes_total(gp, name@);
                assert(precedes(name@, gp));
                assert forall|j: int| p < j < old_g.len() implies precedes(name@, #[trigger] old_g[j].0@) by {
                    crate::text::lemma_precedes_transitive(name@, gp, old_g[j].0@);
                }
            }
            assert forall|i: int, j: int| 0 <= i < j < g@.len() implies precedes(#[trigger] g@[i].0@, #[trigger] g@[j].0@) by {
                if i < p && j < p {
                    assert(g@[i] == old_g[i] && g@[j] == old_g[j]);
                } else if i < p && j == p {
                    assert(g@[i] == old_g[i]);
                } else if i < p {
                    assert(g@[i] == old_g[i] && g@[j] == old_g[j - 1]);
                    crate::text::lemma_precedes_transitive(old_g[i].0@, name@, old_g[j - 1].0@);
                } else if i == p {
                    assert(g@[j] == old_g[j - 1]);
                } else {
                    assert(g@[i] == old_g[i - 1] && g@[j] == old_g[j - 1]);
                }
            }
            assert forall|i: int| 0 <= i < g@.len() implies {
                &&& (#[trigger] g@[i]).2 == count_for(e2, g@[i].0@)
                &&& count_for(e2, g@[i].0@) > 0
                &&& g@[i].1@ == blocks_for(e2, g@[i].0@)
            } by {
                if i < p {
                    assert(g@[i] == old_g[i]);
                    assert(precedes(old_g[i].0@, name@));
                } else if i > p {
                    assert(g@[i] == old_g[i - 1]);
                    assert(precedes(name@, old_g[i - 1].0@));
                    crate::text::lemma_precedes_irreflexive(name@);
                }
            }
            assert forall|f: Seq<char>| #[trigger] count_for(e2, f) > 0 implies exists|i: int| 0 <= i < g@.len() && g@[i].0@ == f by {
                if f == name@ {
                    assert(g@[p as int].0@ == f);
                } else {
                    assert(count_for(entries, f) > 0);
                    let i = choose|i: int| 0 <= i < old_g.len() && old_g[i].0@ == f;
                    if i < p {
                        assert(g@[i].0@ == f);
                    } else {
                        assert(g@[i + 1].0@ == f);
                    }
                }
            }
        }
    }
}

/// Group entries by filename, in filename order.
fn group_entries(entries: &Vec<(String, String)>) -> (g: Vec<(String, String, usize)>)
    ensures
        groups_match(g@, pairs_view(entries@)),
{
    let mut g: Vec<(String, String, usize)> = Vec::new();
    let mut i: usize = 0;
    while i < entries.len()
        invariant
            i <= entries@.len(),
            groups_match(g@, pairs_view(entries@.take(i as int))),
        decreases entries@.len() - i,
    {
        proof {
            lemma_count_for_bound(pairs_view(entries@.take(i as int)), entries@[i as int].0@);
            assert(pairs_view(entries@.take(i + 1)) =~= pairs_view(entries@.take(i as int)).push((entries@[i as int].0@, entries@[i as int].1@)));
        }
        add_block(&mut g, entries[i].0.as_str(), entries[i].1.as_str(), Ghost(pairs_view(entries@.take(i as int))));
        i = i + 1;
    }
    assert(entries@.take(entries@.len() as int) =~= entries@);
    g
}

/// The `(filename, block)` entries of one resolved selection.
fn push_selection_entries(p: &Principle, body: &str, entries: &mut Vec<(String, String)>)
    ensures
        pairs_view(final(entries)@) == pairs_view(old(entries)@) + principle_entries(*p, body@),
{
    let ghost start = pairs_view(entries@);
    if p.emits.len() == 0 {
        let fname = String::from_str(target_filename(default_target(p)));
        let block = render_body(p, body, None);
        entries.push((fname, block));
        assert(pairs_view(entries@) =~= start + principle_entries(*p, body@));
    } else {
        let mut j: usize = 0;
        while j < p.emits.len()
            invariant
                j <= p.emits@.len(),
                p.emits@.len() > 0,
                pairs_view(entries@) == start + emit_entries(*p, body@, p.emits@.take(j as int)),
            decreases p.emits@.len() - j,
        {
            let e = &p.emits[j];
            let scope: Option<&str> = match &e.scope {
                Some(sc) => Some(sc.as_str()),
                None => None,
            };
            let block = render_body(p, body, scope);
            let fname = String::from_str(target_filename(e.target.as_str()));
            let ghost before = pairs_view(entries@);
            assert((match scope { Some(sc) => Some(sc@), None => None::<Seq<char>> }) == opt_view(e.scope));
            entries.push((fname, block));
            proof {
                assert(p.emits@.take(j + 1).drop_last() =~= p.emits@.take(j as int));
                assert(p.emits@.take(j + 1).last() == p.emits@[j as int]);
                assert(pairs_view(entries@) =~= before.push(target_entry(*p, body@, emit_target(p.emits@[j as int]))));
            }
            j = j + 1;
        }
        assert(p.emits@.take(p.emits@.len() as int) =~= p.emits@);
    }
}

/// Plan a scaffold: the rules files, installed entries and lockfile that the
/// selected principles and custom rules produce.
///
/// Selections are emitted in precedence order (layer ascending, then id,
/// ties in input order), so general rules precede the specific ones that
/// refine them. A selection without a resolved directive is skipped and not
/// installed. Each resolved selection lands in every target it declares, or,
/// declaring none, in AGENTS.md (prose) or CONVENTIONS.md (structured and
/// mechanical). Custom rules with a non-blank name or body follow in
/// AGENTS.md under a `CUSTOM-` heading. Each file opens with its header and
/// principle count; the lockfile lists every installed `(id, hash)`.
pub fn scaffold(selections: &[Selection], custom: &[CustomRule]) -> (plan: ScaffoldPlan)
    ensures
        exists|ord: Seq<usize>| is_emission_order(selections@, ord) && plan_matches(plan, selections@, ord, custom@),
{
    let ord = emission_order(selections);
    let mut entries: Vec<(String, String)> = Vec::new();
    let mut installed: Vec<(String, String)> = Vec::new();
    let mut t: usize = 0;
    while t < ord.len()
        invariant
            is_emission_order(selections@, ord@),
            t <= ord@.len(),
            pairs_view(entries@) == ordered_entries(selections@, ord@.take(t as int)),
            pairs_view(installed@) == ordered_installed(selections@, ord@.take(t as int)),
        decreases ord@.len() - t,
    {
        let sel = &selections[ord[t]];
        proof {
            assert(ord@.take(t + 1).drop_last() =~= ord@.take(t as int));
            assert(ord@.take(t + 1).last() == ord@[t as int]);
        }
        match sel.resolve_directive() {
            Some(body) => {
                push_selection_entries(sel.principle, body, &mut entries);
                let ghost before = pairs_view(installed@);
                installed.push((sel.principle.id.clone(), principle_hash(sel)));
                assert(pairs_view(installed@) =~= before.push((sel.principle.id@, hash_text(principle_writes(*sel)))));
            },
            None => {
                assert(ordered_entries(selections@, ord@.take(t + 1)) =~= ordered_entries(selections@, ord@.take(t as int)));
            },
        }
        t = t + 1;
    }
    assert(ord@.take(ord@.len() as int) =~= ord@);
    let ghost sel_entries = pairs_view(entries@);
    let ghost sel_installed = pairs_view(installed@);
    let mut c: usize = 0;
    while c < custom.len()
        invariant
            c <= custom@.len(),
            pairs_view(entries@) == sel_entries + custom_entries(custom@.take(c as int)),
            pairs_view(installed@) == sel_installed + custom_installed(custom@.take(c as int)),
        decreases custom@.len() - c,
    {
        let rule = &custom[c];
        proof {
            assert(custom@.take(c + 1).drop_last() =~= custom@.take(c as int));
            assert(custom@.take(c + 1).last() == custom@[c as int]);
        }
        let nv = chars_of(rule.name.as_str());
        let bv = chars_of(rule.body.as_str());
        let (na, nb) = strip_range(&nv, 0, nv.len(), false);
        let (ba, bb) = strip_range(&bv, 0, bv.len(), false);
        proof {
            assert(nv@.subrange(0, nv@.len() as int) =~= nv@);
            assert(bv@.subrange(0, bv@.len() as int) =~= bv@);
        }
        if !(na == nb && ba == bb) {
            let mut block = String::new();
            block.append("### CUSTOM-");
            push_range(&mut block, &nv, na, nb);
            block.append(" _(custom \u{b7} domain: ");
            if rule.domain.as_str().is_empty() {
                block.append("*");
            } else {
                block.append(rule.domain.as_str());
            }
            block.append(")_\n");
            push_range(&mut block, &bv, ba, bb);
            block.append("\n\n");
            assert(block@ =~= custom_block(*rule));
            let mut id = String::new();
            id.append("CUSTOM-");
            push_range(&mut id, &nv, na, nb);
            let h = content_hash(block.as_str());
            let ghost e0 = pairs_view(entries@);
            let ghost i0 = pairs_view(installed@);
            entries.push((String::from_str("AGENTS.md"), block));
            installed.push((id, h));
            assert(pairs_view(entries@) =~= e0.push(("AGENTS.md"@, custom_block(*rule))));
            assert(pairs_view(installed@) =~= i0.push(("CUSTOM-"@ + trim(rule.name@), hash_text(str_writes(custom_block(*rule))))));
        }
        c = c + 1;
    }
    assert(custom@.take(custom@.len() as int) =~= custom@);
    let groups = group_entries(&entries);
    let mut files: Vec<PlannedFile> = Vec::new();
    let mut k: usize = 0;
    while k < groups.len()
        invariant
            k <= groups@.len(),
            groups_match(groups@, pairs_view(entries@)),
            files@.len() == k,
            forall|i: int| 0 <= i < k ==> {
                &&& (#[trigger] files@[i]).filename@ == groups@[i].0@
                &&& files@[i].count == groups@[i].2
                &&& files@[i].contents@ == header_text(groups@[i].0@, groups@[i].2 as nat) + groups@[i].1@
            },
        decreases groups@.len() - k,
    {
        let mut contents = file_header(groups[k].0.as_str(), groups[k].2);
        contents.append(groups[k].1.as_str());
        files.push(PlannedFile { filename: groups[k].0.clone(), contents, count: groups[k].2 });
        k = k + 1;
    }
    let lock = render_lock(&installed);
    let plan = ScaffoldPlan { files, installed, lock };
    proof {
        let entries_all = pairs_view(entries@);
        assert forall|i: int, j: int| 0 <= i < j < plan.files@.len() implies precedes(#[trigger] plan.files@[i].filename@, #[trigger] plan.files@[j].filename@) by {
            assert(precedes(groups@[i].0@, groups@[j].0@));
        }
        assert forall|f: Seq<char>| #[trigger] count_for(entries_all, f) > 0 implies exists|i: int| 0 <= i < plan.files@.len() && plan.files@[i].filename@ == f by {
            let i = choose|i: int| 0 <= i < groups@.len() && groups@[i].0@ == f;
            assert(plan.files@[i].filename@ == f);
        }
        assert(plan_matches(plan, selections@, ord@, custom@));
    }
    plan
}

impl ScaffoldPlan {
    /// The summary of a scaffold: each file with its count, and the number
    /// of installed entries.
    pub fn outcome(&self) -> (o: Outcome)
        ensures
            o.installed == self.installed@.len(),
            o.files@.len() == self.files@.len(),
            forall|i: int| 0 <= i < o.files@.len() ==> {
                &&& (#[trigger] o.files@[i]).0@ == self.files@[i].filename@
                &&& o.files@[i].1 == self.files@[i].count
            },
    {
        let mut files: Vec<(String, usize)> = Vec::new();
        let mut i: usize = 0;
        while i < self.files.len()
            invariant
                i <= self.files@.len(),
                files@.len() == i,
                forall|k: int| 0 <= k < i ==> {
                    &&& (#[trigger] files@[k]).0@ == self.files@[k].filename@
                    &&& files@[k].1 == self.files@[k].count
                },
            decreases self.files@.len() - i,
        {
            files.push((self.files[i].filename.clone(), self.files[i].count));
            i = i + 1;
        }
        Outcome { files, installed: self.installed.len() }
    }
}

// ---------------------------------------------------------------- routing

/// The selections and custom rules routed to one output directory.
pub struct Route<'a> {
    pub target: String,
    pub selections: Vec<Selection<'a>>,
    pub custom: Vec<CustomRule>,
}

pub open spec fn strings_view(v: Seq<String>) -> Seq<Seq<char>> {
    v.map_values(|s: String| s@)
}

/// The directories the first override entry for `domain` maps it to.
pub open spec fn override_for(ov: Seq<(String, Vec<String>)>, domain: Seq<char>) -> Option<Seq<Seq<char>>>
    decreases ov.len(),
{
    if ov.len() == 0 {
        None
    } else if ov[0].0@ == domain {
        Some(strings_view(ov[0].1@))
    } else {
        override_for(ov.drop_first(), domain)
    }
}

/// Where a domain's rules go: its mapped directories, or the default output
/// when it has no mapping or an empty one.
pub open spec fn targets_for(default_out: Seq<char>, ov: Seq<(String, Vec<String>)>, domain: Seq<char>) -> Seq<Seq<char>> {
    match override_for(ov, domain) {
        Some(v) => if v.len() > 0 { v } else { seq![default_out] },
        None => seq![default_out],
    }
}

/// How many entries of `s` name the path `t`.
pub open spec fn occurrences(s: Seq<Seq<char>>, t: Seq<char>) -> nat
    decreases s.len(),
{
    if s.len() == 0 {
        0
    } else if same_path(s.last(), t) {
        occurrences(s.drop_last(), t) + 1
    } else {
        occurrences(s.drop_last(), t)
    }
}

pub open spec fn repeat_selection<'a>(x: Selection<'a>, n: nat) -> Seq<Selection<'a>>
    decreases n,
{
    if n == 0 {
        Seq::empty()
    } else {
        repeat_selection(x, (n - 1) as nat).push(x)
    }
}

pub open spec fn repeat_custom(x: CustomRule, n: nat) -> Seq<CustomRule>
    decreases n,
{
    if n == 0 {
        Seq::empty()
    } else {
        repeat_custom(x, (n - 1) as nat).push(x)
    }
}

/// The selections routed to directory `t`, once per time `t` is among the
/// directories of the selection's domain, in input order.
pub open spec fn routed_selections<'a>(sels: Seq<Selection<'a>>, d: Seq<char>, ov: Seq<(String, Vec<String>)>, t: Seq<char>) -> Seq<Selection<'a>>
    decreases sels.len(),
{
    if sels.len() == 0 {
        Seq::empty()
    } else {
        routed_selections(sels.drop_last(), d, ov, t)
            + repeat_selection(sels.last(), occurrences(targets_for(d, ov, sels.last().principle.domain@), t))
    }
}

/// The custom rules routed to directory `t` (an empty domain counts as "*").
pub open spec fn routed_customs(cs: Seq<CustomRule>, d: Seq<char>, ov: Seq<(String, Vec<String>)>, t: Seq<char>) -> Seq<CustomRule>
    decreases cs.len(),
{
    if cs.len() == 0 {
        Seq::empty()
    } else {
        routed_customs(cs.drop_last(), d, ov, t)
            + repeat_custom(cs.last(), occurrences(targets_for(d, ov, custom_domain(cs.last().domain@)), t))
    }
}

/// The directories of each selection's domain, in order, as spelled.
pub open spec fn sel_targets(sels: Seq<Selection>, d: Seq<char>, ov: Seq<(String, Vec<String>)>) -> Seq<Seq<char>>
    decreases sels.len(),
{
    if sels.len() == 0 {
        Seq::empty()
    } else {
        sel_targets(sels.drop_last(), d, ov) + targets_for(d, ov, sels.last().principle.domain@)
    }
}

/// The directories of each custom rule's domain, in order, as spelled.
pub open spec fn custom_targets(cs: Seq<CustomRule>, d: Seq<char>, ov: Seq<(String, Vec<String>)>) -> Seq<Seq<char>>
    decreases cs.len(),
{
    if cs.len() == 0 {
        Seq::empty()
    } else {
        custom_targets(cs.drop_last(), d, ov) + targets_for(d, ov, custom_domain(cs.last().domain@))
    }
}

/// Every directory met while routing, selections first, as spelled.
pub open spec fn all_targets(sels: Seq<Selection>, cs: Seq<CustomRule>, d: Seq<char>, ov: Seq<(String, Vec<String>)>) -> Seq<Seq<char>> {
    sel_targets(sels, d, ov) + custom_targets(cs, d, ov)
}

/// Some entry of `flat` names the path `y`.
pub open spec fn spelled_in(flat: Seq<Seq<char>>, y: Seq<char>) -> bool {
    exists|k: int| 0 <= k < flat.len() && same_path(flat[k], y)
}

/// `t` occurs in `flat`, and no earlier entry names its path: it is the
/// spelling met first.
#[verifier::opaque]
pub open spec fn first_spelling(flat: Seq<Seq<char>>, t: Seq<char>) -> bool {
    exists|k: int| 0 <= k < flat.len() && flat[k] == t
        && forall|j: int| 0 <= j < k ==> !same_path(#[trigger] flat[j], t)
}

proof fn lemma_spelling_step(old_dirs: Seq<String>, new_dirs: Seq<String>, flat: Seq<Seq<char>>, x: Seq<char>)
    requires
        forall|q: int| 0 <= q < old_dirs.len() ==> first_spelling(flat, #[trigger] old_dirs[q]@),
        forall|y: Seq<char>| #[trigger] holds_path(old_dirs, y) <==> spelled_in(flat, y),
        forall|y: Seq<char>| #[trigger] holds_path(new_dirs, y) <==> (holds_path(old_dirs, y) || same_path(y, x)),
        forall|i: int| 0 <= i < new_dirs.len() ==>
            (exists|j: int| 0 <= j < old_dirs.len() && #[trigger] new_dirs[i] == old_dirs[j]) || new_dirs[i]@ == x,
        holds_path(old_dirs, x) ==> new_dirs == old_dirs,
    ensures
        forall|q: int| 0 <= q < new_dirs.len() ==> first_spelling(flat.push(x), #[trigger] new_dirs[q]@),
        forall|y: Seq<char>| #[trigger] holds_path(new_dirs, y) <==> spelled_in(flat.push(x), y),
{
    reveal(first_spelling);
    let f2 = flat.push(x);
    assert forall|y: Seq<char>| #[trigger] holds_path(new_dirs, y) <==> spelled_in(f2, y) by {
        if spelled_in(f2, y) {
            let k = choose|k: int| 0 <= k < f2.len() && same_path(f2[k], y);
            if k < flat.len() {
                assert(f2[k] == flat[k]);
                assert(spelled_in(flat, y));
                assert(holds_path(old_dirs, y));
            } else {
                assert(same_path(y, x));
            }
        }
        if holds_path(new_dirs, y) {
            if holds_path(old_dirs, y) {
                assert(spelled_in(flat, y));
                let k = choose|k: int| 0 <= k < flat.len() && same_path(flat[k], y);
                assert(f2[k] == flat[k]);
            } else {
                assert(same_path(y, x));
                assert(f2[flat.len() as int] == x);
            }
        }
    }
    assert forall|q: int| 0 <= q < new_dirs.len() implies first_spelling(f2, #[trigger] new_dirs[q]@) by {
        if exists|j: int| 0 <= j < old_dirs.len() && new_dirs[q] == old_dirs[j] {
            let j = choose|j: int| 0 <= j < old_dirs.len() && new_dirs[q] == old_dirs[j];
            let t = old_dirs[j]@;
            assert(first_spelling(flat, t));
            let k = choose|k: int| 0 <= k < flat.len() && flat[k] == t
                && forall|z: int| 0 <= z < k ==> !same_path(#[trigger] flat[z], t);
            assert(f2[k] == flat[k]);
            assert forall|z: int| 0 <= z < k implies !same_path(#[trigger] f2[z], t) by {
                assert(f2[z] == flat[z]);
            }
        } else {
            assert(new_dirs[q]@ == x);
            if holds_path(old_dirs, x) {
                assert(new_dirs[q] == old_dirs[q]);
            }
            assert(!spelled_in(flat, x));
            let k = flat.len() as int;
            assert(f2[k] == x);
            assert forall|z: int| 0 <= z < k implies !same_path(#[trigger] f2[z], x) by {
                assert(f2[z] == flat[z]);
                if same_path(flat[z], x) {
                    assert(spelled_in(flat, x));
                }
            }
        }
    }
}

/// Directory `t` receives at least one selection or custom rule.
pub open spec fn is_route_target(sels: Seq<Selection>, cs: Seq<CustomRule>, d: Seq<char>, ov: Seq<(String, Vec<String>)>, t: Seq<char>) -> bool {
    routed_selections(sels, d, ov, t).len() > 0 || routed_customs(cs, d, ov, t).len() > 0
}

pub proof fn lemma_repeat_selection_len<'a>(x: Selection<'a>, n: nat)
    ensures
        repeat_selection(x, n).len() == n,
    decreases n,
{
    if n > 0 {
        lemma_repeat_selection_len(x, (n - 1) as nat);
    }
}

pub proof fn lemma_repeat_custom_len(x: CustomRule, n: nat)
    ensures
        repeat_custom(x, n).len() == n,
    decreases n,
{
    if n > 0 {
        lemma_repeat_custom_len(x, (n - 1) as nat);
    }
}

/// A copy of an optional string.
pub fn clone_opt(o: &Option<String>) -> (r: Option<String>)
    ensures
        r == *o,
{
    match o {
        Some(x) => Some(x.clone()),
        None => None,
    }
}

/// A copy of a selection (same principle, same choices).
pub fn copy_selection<'a>(s: &Selection<'a>) -> (r: Selection<'a>)
    ensures
        r == *s,
{
    Selection { principle: s.principle, chosen: clone_opt(&s.chosen), custom_directive: clone_opt(&s.custom_directive) }
}

/// A copy of a custom rule.
pub fn copy_custom(c: &CustomRule) -> (r: CustomRule)
    ensures
        r == *c,
{
    CustomRule { name: c.name.clone(), body: c.body.clone(), domain: c.domain.clone() }
}

/// The output directories for a domain.
pub fn targets_of_domain(default_out: &str, overrides: &[(String, Vec<String>)], domain: &str) -> (r: Vec<String>)
    ensures
        strings_view(r@) == targets_for(default_out@, overrides@, domain@),
{
    let mut i: usize = 0;
    assert(overrides@.skip(0) =~= overrides@);
    while i < overrides.len()
        invariant
            i <= overrides@.len(),
            override_for(overrides@, domain@) == override_for(overrides@.skip(i as int), domain@),
        decreases overrides@.len() - i,
    {
        assert(overrides@.skip(i as int).drop_first() =~= overrides@.skip(i + 1));
        assert(overrides@.skip(i as int)[0] == overrides@[i as int]);
        if str_equal(overrides[i].0.as_str(), domain) {
            let dirs = &overrides[i].1;
            if dirs.len() > 0 {
                let mut out: Vec<String> = Vec::new();
                let mut k: usize = 0;
                while k < dirs.len()
                    invariant
                        k <= dirs@.len(),
                        strings_view(out@) == strings_view(dirs@.take(k as int)),
                    decreases dirs@.len() - k,
                {
                    let ghost before = out@;
                    out.push(dirs[k].clone());
                    assert(dirs@.take(k + 1) =~= dirs@.take(k as int).push(dirs@[k as int]));
                    assert(out@ =~= before.push(dirs@[k as int]));
                    assert(strings_view(out@) =~= strings_view(before).push(dirs@[k as int]@));
                    assert(strings_view(out@) =~= strings_view(dirs@.take(k + 1)));
                    k = k + 1;
                }
                assert(dirs@.take(dirs@.len() as int) =~= dirs@);
                return out;
            } else {
                let mut out: Vec<String> = Vec::new();
                out.push(String::from_str(default_out));
                assert(strings_view(out@) =~= seq![default_out@]);
                return out;
            }
        }
        i = i + 1;
    }
    assert(overrides@.skip(overrides@.len() as int) =~= Seq::<(String, Vec<String>)>::empty());
    let mut out: Vec<String> = Vec::new();
    out.push(String::from_str(default_out));
    assert(strings_view(out@) =~= seq![default_out@]);
    out
}

/// Group selections and custom rules by output directory: each domain goes
/// to every directory it is mapped to, an unmapped domain (or one mapped to
/// no directory) to `default_out`. Directories are compared as paths, so
/// `x` and `x/` are one directory, listed once under the spelling that was
/// met first, in path order.
pub fn route<'a>(default_out: &str, overrides: &[(String, Vec<String>)], selections: &[Selection<'a>], custom: &[CustomRule]) -> (r: Vec<Route<'a>>)
    ensures
        forall|i: int, j: int| 0 <= i < j < r@.len() ==> path_precedes(#[trigger] r@[i].target@, #[trigger] r@[j].target@),
        forall|i: int| 0 <= i < r@.len() ==> {
            let t = (#[trigger] r@[i]).target@;
            &&& r@[i].selections@ == routed_selections(selections@, default_out@, overrides@, t)
            &&& r@[i].custom@ == routed_customs(custom@, default_out@, overrides@, t)
            &&& is_route_target(selections@, custom@, default_out@, overrides@, t)
            &&& first_spelling(all_targets(selections@, custom@, default_out@, overrides@), t)
        },
        forall|t: Seq<char>| #[trigger] is_route_target(selections@, custom@, default_out@, overrides@, t)
            ==> exists|i: int| 0 <= i < r@.len() && same_path(r@[i].target@, t),
{
    let ghost d = default_out@;
    let ghost ov = overrides@;
    let ghost sv = selections@;
    let ghost cv = custom@;
    // The distinct directories, in order.
    let mut dirs: Vec<String> = Vec::new();
    let ghost mut flat: Seq<Seq<char>> = Seq::empty();
    assert(sel_targets(sv.take(0), d, ov) =~= Seq::<Seq<char>>::empty());
    let mut i: usize = 0;
    while i < selections.len()
        invariant
            i <= sv.len(),
            d == default_out@, ov == overrides@, sv == selections@, cv == custom@,
            path_sorted(dirs@),
            flat == sel_targets(sv.take(i as int), d, ov),
            forall|q: int| 0 <= q < dirs@.len() ==> first_spelling(flat, #[trigger] dirs@[q]@),
            forall|y: Seq<char>| #[trigger] holds_path(dirs@, y) <==> spelled_in(flat, y),
            forall|y: Seq<char>| #[trigger] holds_path(dirs@, y) <==> routed_selections(sv.take(i as int), d, ov, y).len() > 0,
        decreases sv.len() - i,
    {
        let tg = targets_of_domain(default_out, overrides, selections[i].principle.domain.as_str());
        let ghost tgv = strings_view(tg@);
        assert(flat + tgv.take(0) =~= flat);
        let mut m: usize = 0;
        while m < tg.len()
            invariant
                i < sv.len(),
                m <= tg@.len(),
                d == default_out@, ov == overrides@, sv == selections@,
                tgv == strings_view(tg@),
                tgv == targets_for(d, ov, sv[i as int].principle.domain@),
                path_sorted(dirs@),
            flat == sel_targets(sv.take(i as int), d, ov) + tgv.take(m as int),
            forall|q: int| 0 <= q < dirs@.len() ==> first_spelling(flat, #[trigger] dirs@[q]@),
            forall|y: Seq<char>| #[trigger] holds_path(dirs@, y) <==> spelled_in(flat, y),
                forall|y: Seq<char>| #[trigger] holds_path(dirs@, y) <==> (routed_selections(sv.take(i as int), d, ov, y).len() > 0
                    || occurrences(tgv.take(m as int), y) > 0),
            decreases tg@.len() - m,
        {
            let ghost old_dirs = dirs@;
            let ghost old_flat = flat;
            insert_path(&mut dirs, tg[m].as_str());
            proof {
                assert(tgv.take(m + 1).drop_last() =~= tgv.take(m as int));
                assert(tgv.take(m + 1).last() == tg@[m as int]@);
                assert(tgv[m as int] == tg@[m as int]@);
                lemma_spelling_step(old_dirs, dirs@, old_flat, tg@[m as int]@);
                flat = old_flat.push(tg@[m as int]@);
                assert(tgv.take(m + 1) =~= tgv.take(m as int).push(tgv[m as int]));
                assert(flat =~= sel_targets(sv.take(i as int), d, ov) + tgv.take(m + 1));
            }
            m = m + 1;
        }
        proof {
            assert(tgv.take(tg@.len() as int) =~= tgv);
            assert(sv.take(i + 1).drop_last() =~= sv.take(i as int));
            assert(sv.take(i + 1).last() == sv[i as int]);
            assert(flat =~= sel_targets(sv.take(i + 1), d, ov));
            assert forall|y: Seq<char>| #[trigger] holds_path(dirs@, y) <==> routed_selections(sv.take(i + 1), d, ov, y).len() > 0 by {
                lemma_repeat_selection_len(sv[i as int], occurrences(tgv, y));
            }
        }
        i = i + 1;
    }
    assert(sv.take(sv.len() as int) =~= sv);
    assert(cv.take(0) =~= Seq::<CustomRule>::empty());
    assert(sel_targets(sv, d, ov) + custom_targets(cv.take(0), d, ov) =~= flat);
    let mut c: usize = 0;
    while c < custom.len()
        invariant
            c <= cv.len(),
            d == default_out@, ov == overrides@, sv == selections@, cv == custom@,
            path_sorted(dirs@),
            flat == sel_targets(sv, d, ov) + custom_targets(cv.take(c as int), d, ov),
            forall|q: int| 0 <= q < dirs@.len() ==> first_spelling(flat, #[trigger] dirs@[q]@),
            forall|y: Seq<char>| #[trigger] holds_path(dirs@, y) <==> spelled_in(flat, y),
            forall|y: Seq<char>| #[trigger] holds_path(dirs@, y) <==> (routed_selections(sv, d, ov, y).len() > 0
                || routed_customs(cv.take(c as int), d, ov, y).len() > 0),
        decreases cv.len() - c,
    {
        let dom: &str = if custom[c].domain.as_str().is_empty() { "*" } else { custom[c].domain.as_str() };
        assert(dom@ == custom_domain(cv[c as int].domain@));
        let tg = targets_of_domain(default_out, overrides, dom);
        let ghost tgv = strings_view(tg@);
        assert(flat + tgv.take(0) =~= flat);
        let mut m: usize = 0;
        while m < tg.len()
            invariant
                c < cv.len(),
                m <= tg@.len(),
                d == default_out@, ov == overrides@, sv == selections@, cv == custom@,
                tgv == strings_view(tg@),
                tgv == targets_for(d, ov, custom_domain(cv[c as int].domain@)),
                path_sorted(dirs@),
            flat == sel_targets(sv, d, ov) + custom_targets(cv.take(c as int), d, ov) + tgv.take(m as int),
            forall|q: int| 0 <= q < dirs@.len() ==> first_spelling(flat, #[trigger] dirs@[q]@),
            forall|y: Seq<char>| #[trigger] holds_path(dirs@, y) <==> spelled_in(flat, y),
                forall|y: Seq<char>| #[trigger] holds_path(dirs@, y) <==> (routed_selections(sv, d, ov, y).len() > 0
                    || routed_customs(cv.take(c as int), d, ov, y).len() > 0
                    || occurrences(tgv.take(m as int), y) > 0),
            decreases tg@.len() - m,
        {
            let ghost old_dirs = dirs@;
            let ghost old_flat = flat;
            insert_path(&mut dirs, tg[m].as_str());
            proof {
                assert(tgv.take(m + 1).drop_last() =~= tgv.take(m as int));
                assert(tgv.take(m + 1).last() == tg@[m as int]@);
                assert(tgv[m as int] == tg@[m as int]@);
                lemma_spelling_step(old_dirs, dirs@, old_flat, tg@[m as int]@);
                flat = old_flat.push(tg@[m as int]@);
                assert(tgv.take(m + 1) =~= tgv.take(m as int).push(tgv[m as int]));
                assert(flat =~= (sel_targets(sv, d, ov) + custom_targets(cv.take(c as int), d, ov)) + tgv.take(m + 1));
            }
            m = m + 1;
        }
        proof {
            assert(tgv.take(tg@.len() as int) =~= tgv);
            assert(cv.take(c + 1).drop_last() =~= cv.take(c as int));
            assert(cv.take(c + 1).last() == cv[c as int]);
            assert(custom_targets(cv.take(c + 1), d, ov) == custom_targets(cv.take(c as int), d, ov) + tgv);
            assert(flat =~= sel_targets(sv, d, ov) + custom_targets(cv.take(c + 1), d, ov));
            assert forall|y: Seq<char>| #[trigger] holds_path(dirs@, y) <==> (routed_selections(sv, d, ov, y).len() > 0
                || routed_customs(cv.take(c + 1), d, ov, y).len() > 0) by {
                lemma_repeat_custom_len(cv[c as int], occurrences(tgv, y));
            }
        }
        c = c + 1;
    }
    assert(cv.take(cv.len() as int) =~= cv);
    assert(flat == all_targets(sv, cv, d, ov));
    // Fill each directory's bucket.
    let mut routes: Vec<Route<'a>> = Vec::new();
    let mut k: usize = 0;
    while k < dirs.len()
        invariant
            k <= dirs@.len(),
            d == default_out@, ov == overrides@, sv == selections@, cv == custom@,
            path_sorted(dirs@),
            flat == all_targets(sv, cv, d, ov),
            forall|q: int| 0 <= q < dirs@.len() ==> first_spelling(flat, #[trigger] dirs@[q]@),
            forall|y: Seq<char>| #[trigger] holds_path(dirs@, y) <==> is_route_target(sv, cv, d, ov, y),
            routes@.len() == k,
            forall|q: int| 0 <= q < k ==> {
                let t = (#[trigger] routes@[q]).target@;
                &&& t == dirs@[q]@
                &&& routes@[q].selections@ == routed_selections(sv, d, ov, t)
                &&& routes@[q].custom@ == routed_customs(cv, d, ov, t)
            },
        decreases dirs@.len() - k,
    {
        let t = dirs[k].as_str();
        let mut bucket: Vec<Selection<'a>> = Vec::new();
        let mut a: usize = 0;
        while a < selections.len()
            invariant
                a <= sv.len(),
                d == default_out@, ov == overrides@, sv == selections@,
                bucket@ == routed_selections(sv.take(a as int), d, ov, t@),
            decreases sv.len() - a,
        {
            let tg = targets_of_domain(default_out, overrides, selections[a].principle.domain.as_str());
            let ghost tgv = strings_view(tg@);
            let ghost base = bucket@;
            let mut m: usize = 0;
            while m < tg.len()
                invariant
                    a < sv.len(),
                    m <= tg@.len(),
                    sv == selections@,
                    tgv == strings_view(tg@),
                    bucket@ == base + repeat_selection(sv[a as int], occurrences(tgv.take(m as int), t@)),
                decreases tg@.len() - m,
            {
                proof {
                    assert(tgv.take(m + 1).drop_last() =~= tgv.take(m as int));
                    assert(tgv.take(m + 1).last() == tg@[m as int]@);
                }
                if paths_equal(tg[m].as_str(), t) {
                    bucket.push(copy_selection(&selections[a]));
                    assert(bucket@ =~= base + repeat_selection(sv[a as int], occurrences(tgv.take(m + 1), t@)));
                } else {
                }
                m = m + 1;
            }
            proof {
                assert(tgv.take(tg@.len() as int) =~= tgv);
                assert(sv.take(a + 1).drop_last() =~= sv.take(a as int));
            }
            a = a + 1;
        }
        let mut cbucket: Vec<CustomRule> = Vec::new();
        let mut b: usize = 0;
        while b < custom.len()
            invariant
                b <= cv.len(),
                d == default_out@, ov == overrides@, cv == custom@,
                cbucket@ == routed_customs(cv.take(b as int), d, ov, t@),
            decreases cv.len() - b,
        {
            let dom: &str = if custom[b].domain.as_str().is_empty() { "*" } else { custom[b].domain.as_str() };
            let tg = targets_of_domain(default_out, overrides, dom);
            let ghost tgv = strings_view(tg@);
            let ghost base = cbucket@;
            let mut m: usize = 0;
            while m < tg.len()
                invariant
                    b < cv.len(),
                    m <= tg@.len(),
                    cv == custom@,
                    tgv == strings_view(tg@),
                    cbucket@ == base + repeat_custom(cv[b as int], occurrences(tgv.take(m as int), t@)),
                decreases tg@.len() - m,
            {
                proof {
                    assert(tgv.take(m + 1).drop_last() =~= tgv.take(m as int));
                    assert(tgv.take(m + 1).last() == tg@[m as int]@);
                }
                if paths_equal(tg[m].as_str(), t) {
                    cbucket.push(copy_custom(&custom[b]));
                    assert(cbucket@ =~= base + repeat_custom(cv[b as int], occurrences(tgv.take(m + 1), t@)));
                }
                m = m + 1;
            }
            proof {
                assert(tgv.take(tg@.len() as int) =~= tgv);
                assert(cv.take(b + 1).drop_last() =~= cv.take(b as int));
            }
            b = b + 1;
        }
        assert(sv.take(sv.len() as int) =~= sv);
        assert(cv.take(cv.len() as int) =~= cv);
        routes.push(Route { target: dirs[k].clone(), selections: bucket, custom: cbucket });
        k = k + 1;
    }
    proof {
        assert forall|q: int| 0 <= q < routes@.len() implies is_route_target(sv, cv, d, ov, #[trigger] routes@[q].target@)
            && first_spelling(all_targets(sv, cv, d, ov), routes@[q].target@) by {
            assert(holds_path(dirs@, dirs@[q]@));
            assert(first_spelling(flat, dirs@[q]@));
        }
        assert forall|t: Seq<char>| #[trigger] is_route_target(sv, cv, d, ov, t) implies exists|q: int| 0 <= q < routes@.len() && same_path(routes@[q].target@, t) by {
            assert(holds_path(dirs@, t));
            let q = choose|q: int| 0 <= q < dirs@.len() && same_path(dirs@[q]@, t);
            assert(same_path(routes@[q].target@, t));
        }
        assert forall|q: int, j: int| 0 <= q < j < routes@.len() implies path_precedes(#[trigger] routes@[q].target@, #[trigger] routes@[j].target@) by {
            assert(path_precedes(dirs@[q]@, dirs@[j]@));
        }
    }
    routes
}

/// Route selections and custom rules to their output directories, then plan
/// the scaffold of each directory. Directories are compared as paths and
/// listed once, in path order; each plan is the scaffold of exactly what was
/// routed there.
pub fn scaffold_routed(default_out: &str, overrides: &[(String, Vec<String>)], selections: &[Selection], custom: &[CustomRule]) -> (r: Vec<(String, ScaffoldPlan)>)
    ensures
        forall|i: int, j: int| 0 <= i < j < r@.len() ==> path_precedes(#[trigger] r@[i].0@, #[trigger] r@[j].0@),
        forall|i: int| 0 <= i < r@.len() ==> {
            let t = (#[trigger] r@[i]).0@;
            &&& is_route_target(selections@, custom@, default_out@, overrides@, t)
            &&& first_spelling(all_targets(selections@, custom@, default_out@, overrides@), t)
            &&& exists|ord: Seq<usize>| is_emission_order(routed_selections(selections@, default_out@, overrides@, t), ord)
                && plan_matches(r@[i].1, routed_selections(selections@, default_out@, overrides@, t), ord,
                    routed_customs(custom@, default_out@, overrides@, t))
        },
        forall|t: Seq<char>| #[trigger] is_route_target(selections@, custom@, default_out@, overrides@, t)
            ==> exists|i: int| 0 <= i < r@.len() && same_path(r@[i].0@, t),
{
    let routes = route(default_out, overrides, selections, custom);
    let mut out: Vec<(String, ScaffoldPlan)> = Vec::new();
    let mut k: usize = 0;
    while k < routes.len()
        invariant
            k <= routes@.len(),
            out@.len() == k,
            forall|q: int| 0 <= q < k ==> {
                let t = (#[trigger] out@[q]).0@;
                &&& t == routes@[q].target@
                &&& exists|ord: Seq<usize>| is_emission_order(routes@[q].selections@, ord)
                    && plan_matches(out@[q].1, routes@[q].selections@, ord, routes@[q].custom@)
            },
        decreases routes@.len() - k,
    {
        let plan = scaffold(routes[k].selections.as_slice(), routes[k].custom.as_slice());
        out.push((routes[k].target.clone(), plan));
        k = k + 1;
    }
    proof {
        assert forall|t: Seq<char>| #[trigger] is_route_target(selections@, custom@, default_out@, overrides@, t)
            implies exists|i: int| 0 <= i < out@.len() && same_path(out@[i].0@, t) by {
            let q = choose|q: int| 0 <= q < routes@.len() && same_path(routes@[q].target@, t);
            assert(same_path(out@[q].0@, t));
        }
        assert forall|i: int| 0 <= i < out@.len() implies {
            let t = (#[trigger] out@[i]).0@;
            &&& is_route_target(selections@, custom@, default_out@, overrides@, t)
            &&& first_spelling(all_targets(selections@, custom@, default_out@, overrides@), t)
            &&& exists|ord: Seq<usize>| is_emission_order(routed_selections(selections@, default_out@, overrides@, t), ord)
                && plan_matches(out@[i].1, routed_selections(selections@, default_out@, overrides@, t), ord,
                    routed_customs(custom@, default_out@, overrides@, t))
        } by {
            let rt = routes@[i];
            assert(first_spelling(all_targets(selections@, custom@, default_out@, overrides@), rt.target@));
            assert(rt.selections@ == routed_selections(selections@, default_out@, overrides@, rt.target@));
            assert(rt.custom@ == routed_customs(custom@, default_out@, overrides@, rt.target@));
            assert(out@[i].0@ == rt.target@);
            let ord = choose|ord: Seq<usize>| is_emission_order(rt.selections@, ord)
                && plan_matches(out@[i].1, rt.selections@, ord, rt.custom@);
            assert(is_emission_order(rt.selections@, ord));
        }
        assert forall|i: int, j: int| 0 <= i < j < out@.len() implies path_precedes(#[trigger] out@[i].0@, #[trigger] out@[j].0@) by {
            assert(path_precedes(routes@[i].target@, routes@[j].target@));
        }
    }
    out
}

/// A resolved selection as exported to JSON: the full principle plus the
/// chosen option id and any custom directive.
pub struct SelectionRecord<'a> {
    pub principle: &'a Principle,
    pub chosen: Option<String>,
    pub custom_directive: Option<String>,
}

/// The export records of a list of selections, one per selection, in order.
pub fn selection_records<'a>(selections: &[Selection<'a>]) -> (r: Vec<SelectionRecord<'a>>)
    ensures
        r@.len() == selections@.len(),
        forall|i: int| 0 <= i < r@.len() ==> {
            &&& (#[trigger] r@[i]).principle == selections@[i].principle
            &&& r@[i].chosen == selections@[i].chosen
            &&& r@[i].custom_directive == selections@[i].custom_directive
        },
{
    let mut out: Vec<SelectionRecord<'a>> = Vec::new();
    let mut i: usize = 0;
    while i < selections.len()
        invariant
            i <= selections@.len(),
            out@.len() == i,
            forall|k: int| 0 <= k < i ==> {
                &&& (#[trigger] out@[k]).principle == selections@[k].principle
                &&& out@[k].chosen == selections@[k].chosen
                &&& out@[k].custom_directive == selections@[k].custom_directive
            },
        decreases selections@.len() - i,
    {
        let s = &selections[i];
        out.push(SelectionRecord {
            principle: s.principle,
            chosen: clone_opt(&s.chosen),
            custom_directive: clone_opt(&s.custom_directive),
        });
        i = i + 1;
    }
    out
}

} // verus!
