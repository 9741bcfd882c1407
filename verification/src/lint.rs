//! The schema and content checks every principle in the library is held to
//! before it is accepted: id format, option completeness and uniqueness, a
//! default that names a real option, a conformance test on mechanical rules,
//! and plain prose without backticks.

use vstd::prelude::*;
use crate::principle::{find_option, Enforcement, Opt, Principle};
use crate::text::{
    chars_of, decimal, first_index, precedes, push_decimal, range_first_index, split_on,
    str_equal, strip_range, text_precedes, trim,
};

verus! {

/// An id character: an ASCII uppercase letter or digit.
pub open spec fn id_char_ok(c: char) -> bool {
    ('A' <= c && c <= 'Z') || ('0' <= c && c <= '9')
}

pub open spec fn is_digit(c: char) -> bool {
    '0' <= c && c <= '9'
}

/// A non-empty segment of id characters.
pub open spec fn segment_ok(s: Seq<char>) -> bool {
    s.len() > 0 && forall|j: int| 0 <= j < s.len() ==> id_char_ok(#[trigger] s[j])
}

pub open spec fn all_digits(s: Seq<char>) -> bool {
    forall|j: int| 0 <= j < s.len() ==> is_digit(#[trigger] s[j])
}

/// The canonical id format AREA-TOPIC-NUMBER: split on '-', at least three
/// segments, every segment non-empty uppercase letters or digits, the last
/// one all digits.
pub open spec fn valid_id(id: Seq<char>) -> bool {
    let segs = split_on(id, '-');
    &&& segs.len() >= 3
    &&& forall|i: int| 0 <= i < segs.len() ==> segment_ok(#[trigger] segs[i])
    &&& all_digits(segs.last())
}

/// Validate the canonical id format, e.g. `RUST-DOMAIN-4` or
/// `UI-CONSENT-GATED-1`. Two-segment ids such as `RUST-4` are rejected.
pub fn is_valid_id_format(id: &str) -> (r: bool)
    ensures
        r == valid_id(id@),
{
    let v = chars_of(id);
    let mut i: usize = 0;
    let mut start: usize = 0;
    let mut count: usize = 0;
    let mut done_ok = true;
    let mut cur_ok = true;
    let mut cur_digits = true;
    let ghost mut done: Seq<Seq<char>> = Seq::empty();
    assert(v@.take(0) =~= Seq::<char>::empty());
    while i < v.len()
        invariant
            start <= i <= v@.len(),
            split_on(v@.take(i as int), '-') == done.push(v@.subrange(start as int, i as int)),
            count == done.len(),
            count <= i,
            done_ok == forall|k: int| 0 <= k < done.len() ==> segment_ok(#[trigger] done[k]),
            cur_ok == forall|j: int| start <= j < i ==> id_char_ok(#[trigger] v@[j]),
            cur_digits == forall|j: int| start <= j < i ==> is_digit(#[trigger] v@[j]),
        decreases v@.len() - i,
    {
        let c = v[i];
        let ghost prev = v@.take(i as int);
        assert(v@.take(i + 1).drop_last() =~= prev);
        if c == '-' {
            proof {
                let seg = v@.subrange(start as int, i as int);
                assert(segment_ok(seg) == (i > start && cur_ok)) by {
                    if i > start && cur_ok {
                        assert forall|j: int| 0 <= j < seg.len() implies id_char_ok(#[trigger] seg[j]) by {
                            assert(seg[j] == v@[start + j]);
                        }
                    }
                    if segment_ok(seg) {
                        assert forall|j: int| start <= j < i implies id_char_ok(#[trigger] v@[j]) by {
                            assert(seg[j - start] == v@[j]);
                        }
                    }
                }
                let nd = done.push(seg);
                assert(done_ok && segment_ok(seg) ==> forall|k: int| 0 <= k < nd.len() ==> segment_ok(#[trigger] nd[k]));
                assert((forall|k: int| 0 <= k < nd.len() ==> segment_ok(#[trigger] nd[k])) ==> done_ok && segment_ok(seg)) by {
                    if forall|k: int| 0 <= k < nd.len() ==> segment_ok(#[trigger] nd[k]) {
                        assert(nd[nd.len() - 1] == seg);
                        assert forall|k: int| 0 <= k < done.len() implies segment_ok(#[trigger] done[k]) by {
                            assert(nd[k] == done[k]);
                        }
                    }
                }
                done = nd;
                assert(v@.subrange((i + 1) as int, (i + 1) as int) =~= Seq::<char>::empty());
            }
            done_ok = done_ok && i > start && cur_ok;
            count = count + 1;
            start = i + 1;
            cur_ok = true;
            cur_digits = true;
        } else {
            proof {
                assert(v@.subrange(start as int, i + 1) =~= v@.subrange(start as int, i as int).push(c));
                let r = split_on(prev, '-');
                assert(r.update(r.len() - 1, r.last().push(c)) =~= done.push(v@.subrange(start as int, i + 1)));
            }
            cur_ok = cur_ok && (('A' <= c && c <= 'Z') || ('0' <= c && c <= '9'));
            cur_digits = cur_digits && ('0' <= c && c <= '9');
        }
        i = i + 1;
    }
    assert(v@.take(v@.len() as int) =~= v@);
    let r = count >= 2 && done_ok && i > start && cur_ok && cur_digits;
    proof {
        let seg = v@.subrange(start as int, i as int);
        let segs = split_on(v@, '-');
        assert(segs == done.push(seg));
        assert(segs.last() == seg);
        if r {
            assert forall|k: int| 0 <= k < segs.len() implies segment_ok(#[trigger] segs[k]) by {
                if k < done.len() {
                    assert(segs[k] == done[k]);
                } else {
                    assert forall|j: int| 0 <= j < seg.len() implies id_char_ok(#[trigger] seg[j]) by {
                        assert(seg[j] == v@[start + j]);
                    }
                }
            }
            assert forall|j: int| 0 <= j < seg.len() implies is_digit(#[trigger] seg[j]) by {
                assert(seg[j] == v@[start + j]);
            }
        }
        if valid_id(v@) {
            assert forall|k: int| 0 <= k < done.len() implies segment_ok(#[trigger] done[k]) by {
                assert(segs[k] == done[k]);
            }
            assert(segment_ok(segs[segs.len() - 1]));
            assert forall|j: int| start <= j < i implies id_char_ok(#[trigger] v@[j]) && is_digit(v@[j]) by {
                assert(seg[j - start] == v@[j]);
            }
        }
    }
    r
}

/// One problem found in a principle: the rule id, the kind of violation,
/// and a message.
pub struct Finding {
    pub id: String,
    pub kind: &'static str,
    pub message: String,
}

pub open spec fn finding_view(f: Finding) -> (Seq<char>, Seq<char>, Seq<char>) {
    (f.id@, f.kind@, f.message@)
}

pub open spec fn findings_view(v: Seq<Finding>) -> Seq<(Seq<char>, Seq<char>, Seq<char>)> {
    v.map_values(|f: Finding| finding_view(f))
}

/// What checking one principle yields: its findings, and whether it is an
/// open (no-default) decision, which is reported but not a violation.
pub struct LintReport {
    pub findings: Vec<Finding>,
    pub no_default: bool,
}

/// The tail of the id-format message.
pub const ID_FORMAT_HINT: &'static str = "` must match AREA-TOPIC-NUMBER (at least three uppercase segments, trailing number); e.g. RUST-DOMAIN-4 or UI-CONSENT-GATED-1";

pub const OPTIONS_EMPTY_MESSAGE: &'static str = "every canonical rule MUST list at least one [[option]]; the schema invites disagreement on the merits";

pub const QUALIFIES_MESSAGE: &'static str = "a mechanical rule MUST declare a `qualifies` conformance test (the deterministic check that proves adherence); add prose describing the check or a runnable command";

pub const BACKTICK_TAIL: &'static str = " contains backtick(s); canonical-rule content uses plain prose";

pub open spec fn has_backtick(s: Seq<char>) -> bool {
    first_index(s, '`') < s.len()
}

/// The option at `i` repeats the id of an earlier option with a non-blank id.
pub open spec fn seen_before(opts: Seq<Opt>, i: int) -> bool {
    exists|k: int| 0 <= k < i && trim(opts[k].id@).len() > 0 && opts[k].id@ == opts[i].id@
}

pub open spec fn empty_field_finding(pid: Seq<char>, i: nat, oid: Seq<char>, field: Seq<char>, content: Seq<char>) -> Seq<(Seq<char>, Seq<char>, Seq<char>)> {
    if trim(content).len() == 0 {
        seq![(pid, "option-empty-field"@, "option["@ + decimal(i) + "] (`"@ + oid + "`) has an empty "@ + field)]
    } else {
        Seq::empty()
    }
}

/// Findings for the option at `i`: a blank or repeated id, then each blank
/// label, directive and why.
pub open spec fn option_findings(pid: Seq<char>, opts: Seq<Opt>, i: int) -> Seq<(Seq<char>, Seq<char>, Seq<char>)> {
    let o = opts[i];
    (if trim(o.id@).len() == 0 {
        seq![(pid, "option-empty-field"@, "option["@ + decimal(i as nat) + "] has an empty id"@)]
    } else if seen_before(opts, i) {
        seq![(pid, "option-id-duplicate"@, "option id `"@ + o.id@ + "` appears more than once in this rule"@)]
    } else {
        Seq::empty()
    })
        + empty_field_finding(pid, i as nat, o.id@, "label"@, o.label@)
        + empty_field_finding(pid, i as nat, o.id@, "directive"@, o.directive@)
        + empty_field_finding(pid, i as nat, o.id@, "why"@, o.why@)
}

pub open spec fn options_findings(pid: Seq<char>, opts: Seq<Opt>, n: int) -> Seq<(Seq<char>, Seq<char>, Seq<char>)>
    decreases n,
{
    if n <= 0 {
        Seq::empty()
    } else {
        options_findings(pid, opts, n - 1) + option_findings(pid, opts, n - 1)
    }
}

pub open spec fn backtick_finding(pid: Seq<char>, what: Seq<char>, content: Seq<char>) -> Seq<(Seq<char>, Seq<char>, Seq<char>)> {
    if has_backtick(content) {
        seq![(pid, "backtick-in-content"@, what + BACKTICK_TAIL@)]
    } else {
        Seq::empty()
    }
}

/// A backtick in the decision's default option id, when it names one.
pub open spec fn default_backticks(pid: Seq<char>, d: Option<String>) -> Seq<(Seq<char>, Seq<char>, Seq<char>)> {
    match d {
        Some(x) => backtick_finding(pid, "`decision.default`"@, x@),
        None => Seq::empty(),
    }
}

pub open spec fn option_backticks(pid: Seq<char>, opts: Seq<Opt>, n: int) -> Seq<(Seq<char>, Seq<char>, Seq<char>)>
    decreases n,
{
    if n <= 0 {
        Seq::empty()
    } else {
        let i = n - 1;
        let o = opts[i];
        let at = "option["@ + decimal(i as nat) + "]."@;
        option_backticks(pid, opts, n - 1)
            + backtick_finding(pid, at + "id"@, o.id@)
            + backtick_finding(pid, at + "label"@, o.label@)
            + backtick_finding(pid, at + "directive"@, o.directive@)
            + backtick_finding(pid, at + "why"@, o.why@)
    }
}

/// Every finding for a principle, in the order the checks run.
pub open spec fn principle_findings(p: Principle) -> Seq<(Seq<char>, Seq<char>, Seq<char>)> {
    let pid = p.id@;
    let opts = p.options@;
    (if !valid_id(pid) { seq![(pid, "id-format"@, "id `"@ + pid + ID_FORMAT_HINT@)] } else { Seq::empty() })
        + (if opts.len() == 0 { seq![(pid, "options-empty"@, OPTIONS_EMPTY_MESSAGE@)] } else { Seq::empty() })
        + options_findings(pid, opts, opts.len() as int)
        + (if p.enforcement == Enforcement::Mechanical && match p.qualifies {
            Some(q) => trim(q@).len() == 0,
            None => true,
        } {
            seq![(pid, "qualifies-required-on-mechanical"@, QUALIFIES_MESSAGE@)]
        } else {
            Seq::empty()
        })
        + (match p.decision.default {
            Some(d) => if find_option(opts, d@) is None {
                seq![(pid, "default-dangling"@, "decision.default `"@ + d@ + "` does not match any [[option]] id in this rule"@)]
            } else {
                Seq::empty()
            },
            None => Seq::empty(),
        })
        + backtick_finding(pid, "`title`"@, p.title@)
        + backtick_finding(pid, "`decision.question`"@, p.decision.question@)
        + default_backticks(pid, p.decision.default)
        + backtick_finding(pid, "`decision.why`"@, p.decision.why@)
        + option_backticks(pid, opts, opts.len() as int)
}

fn is_blank(s: &str) -> (r: bool)
    ensures
        r == (trim(s@).len() == 0),
{
    let v = chars_of(s);
    let (a, b) = strip_range(&v, 0, v.len(), false);
    assert(v@.subrange(0, v@.len() as int) =~= v@);
    a == b
}

fn contains_backtick(s: &str) -> (r: bool)
    ensures
        r == has_backtick(s@),
{
    let v = chars_of(s);
    let k = range_first_index(&v, 0, v.len(), '`');
    assert(v@.subrange(0, v@.len() as int) =~= v@);
    k < v.len()
}

fn push_finding(out: &mut Vec<Finding>, pid: &str, kind: &'static str, message: String)
    ensures
        findings_view(final(out)@) == findings_view(old(out)@).push((pid@, kind@, message@)),
{
    let f = Finding { id: String::from_str(pid), kind, message };
    out.push(f);
    assert(findings_view(out@) =~= findings_view(old(out)@).push((pid@, kind@, message@)));
}

fn push_empty_field(out: &mut Vec<Finding>, pid: &str, i: usize, oid: &str, field: &'static str, content: &str)
    ensures
        findings_view(final(out)@) == findings_view(old(out)@) + empty_field_finding(pid@, i as nat, oid@, field@, content@),
{
    if is_blank(content) {
        let mut m = String::from_str("option[");
        push_decimal(&mut m, i as u64);
        m.append("] (`");
        m.append(oid);
        m.append("`) has an empty ");
        m.append(field);
        assert(m@ =~= "option["@ + decimal(i as nat) + "] (`"@ + oid@ + "`) has an empty "@ + field@);
        push_finding(out, pid, "option-empty-field", m);
    }
    assert(findings_view(out@) =~= findings_view(old(out)@) + empty_field_finding(pid@, i as nat, oid@, field@, content@));
}

fn push_backtick(out: &mut Vec<Finding>, pid: &str, what: String, content: &str)
    ensures
        findings_view(final(out)@) == findings_view(old(out)@) + backtick_finding(pid@, what@, content@),
{
    if contains_backtick(content) {
        let mut m = what;
        m.append(BACKTICK_TAIL);
        push_finding(out, pid, "backtick-in-content", m);
    }
    assert(findings_view(out@) =~= findings_view(old(out)@) + backtick_finding(pid@, what@, content@));
}

/// Whether an earlier option (before `i`) with a non-blank id has the same id.
fn seen_earlier(opts: &Vec<Opt>, i: usize) -> (r: bool)
    requires
        i < opts@.len(),
    ensures
        r == seen_before(opts@, i as int),
{
    let mut k: usize = 0;
    while k < i
        invariant
            i < opts@.len(),
            k <= i,
            forall|m: int| 0 <= m < k ==> !(trim(opts@[m].id@).len() > 0 && opts@[m].id@ == opts@[i as int].id@),
        decreases i - k,
    {
        if !is_blank(opts[k].id.as_str()) && str_equal(opts[k].id.as_str(), opts[i].id.as_str()) {
            return true;
        }
        k = k + 1;
    }
    false
}

fn check_id_and_options(p: &Principle, out: &mut Vec<Finding>)
    ensures
        findings_view(final(out)@) == findings_view(old(out)@)
            + (if !valid_id(p.id@) { seq![(p.id@, "id-format"@, "id `"@ + p.id@ + ID_FORMAT_HINT@)] } else { Seq::empty() })
            + (if p.options@.len() == 0 { seq![(p.id@, "options-empty"@, OPTIONS_EMPTY_MESSAGE@)] } else { Seq::empty() }),
{
    let pid = p.id.as_str();
    let ghost start = findings_view(out@);
    if !is_valid_id_format(pid) {
        let mut m = String::from_str("id `");
        m.append(pid);
        m.append(ID_FORMAT_HINT);
        push_finding(out, pid, "id-format", m);
    }
    let ghost mid = findings_view(out@);
    if p.options.len() == 0 {
        push_finding(out, pid, "options-empty", String::from_str(OPTIONS_EMPTY_MESSAGE));
    }
    assert(findings_view(out@) =~= start
        + (if !valid_id(p.id@) { seq![(p.id@, "id-format"@, "id `"@ + p.id@ + ID_FORMAT_HINT@)] } else { Seq::empty() })
        + (if p.options@.len() == 0 { seq![(p.id@, "options-empty"@, OPTIONS_EMPTY_MESSAGE@)] } else { Seq::empty() }));
}

fn check_one_option(p: &Principle, i: usize, out: &mut Vec<Finding>)
    requires
        i < p.options@.len(),
    ensures
        findings_view(final(out)@) == findings_view(old(out)@) + option_findings(p.id@, p.options@, i as int),
{
    let pid = p.id.as_str();
    let o = &p.options[i];
    let ghost start = findings_view(out@);
    if is_blank(o.id.as_str()) {
        let mut m = String::from_str("option[");
        push_decimal(&mut m, i as u64);
        m.append("] has an empty id");
        push_finding(out, pid, "option-empty-field", m);
    } else if seen_earlier(&p.options, i) {
        let mut m = String::from_str("option id `");
        m.append(o.id.as_str());
        m.append("` appears more than once in this rule");
        push_finding(out, pid, "option-id-duplicate", m);
    }
    let ghost first = findings_view(out@);
    push_empty_field(out, pid, i, o.id.as_str(), "label", o.label.as_str());
    push_empty_field(out, pid, i, o.id.as_str(), "directive", o.directive.as_str());
    push_empty_field(out, pid, i, o.id.as_str(), "why", o.why.as_str());
    assert(findings_view(out@) =~= start + option_findings(p.id@, p.options@, i as int));
}

fn check_options(p: &Principle, out: &mut Vec<Finding>)
    ensures
        findings_view(final(out)@) == findings_view(old(out)@) + options_findings(p.id@, p.options@, p.options@.len() as int),
{
    let ghost head = findings_view(out@);
    let mut i: usize = 0;
    while i < p.options.len()
        invariant
            i <= p.options@.len(),
            findings_view(out@) == head + options_findings(p.id@, p.options@, i as int),
        decreases p.options@.len() - i,
    {
        let ghost before = findings_view(out@);
        check_one_option(p, i, out);
        assert(findings_view(out@) =~= head + options_findings(p.id@, p.options@, i + 1));
        i = i + 1;
    }
}

fn check_qualifies_and_default(p: &Principle, out: &mut Vec<Finding>)
    ensures
        findings_view(final(out)@) == findings_view(old(out)@)
            + (if p.enforcement == Enforcement::Mechanical && match p.qualifies {
                Some(q) => trim(q@).len() == 0,
                None => true,
            } {
                seq![(p.id@, "qualifies-required-on-mechanical"@, QUALIFIES_MESSAGE@)]
            } else {
                Seq::empty()
            })
            + (match p.decision.default {
                Some(d) => if find_option(p.options@, d@) is None {
                    seq![(p.id@, "default-dangling"@, "decision.default `"@ + d@ + "` does not match any [[option]] id in this rule"@)]
                } else {
                    Seq::empty()
                },
                None => Seq::empty(),
            }),
{
    let pid = p.id.as_str();
    let ghost start = findings_view(out@);
    if p.enforcement == Enforcement::Mechanical {
        let missing = match &p.qualifies {
            Some(q) => is_blank(q.as_str()),
            None => true,
        };
        if missing {
            push_finding(out, pid, "qualifies-required-on-mechanical", String::from_str(QUALIFIES_MESSAGE));
        }
    }
    let ghost mid = findings_view(out@);
    match &p.decision.default {
        Some(def) => {
            if p.option(def.as_str()).is_none() {
                let mut m = String::from_str("decision.default `");
                m.append(def.as_str());
                m.append("` does not match any [[option]] id in this rule");
                push_finding(out, pid, "default-dangling", m);
            }
        },
        None => {},
    }
    assert(findings_view(out@) =~= findings_view(old(out)@)
        + (if p.enforcement == Enforcement::Mechanical && match p.qualifies {
            Some(q) => trim(q@).len() == 0,
            None => true,
        } {
            seq![(p.id@, "qualifies-required-on-mechanical"@, QUALIFIES_MESSAGE@)]
        } else {
            Seq::empty()
        })
        + (match p.decision.default {
            Some(d) => if find_option(p.options@, d@) is None {
                seq![(p.id@, "default-dangling"@, "decision.default `"@ + d@ + "` does not match any [[option]] id in this rule"@)]
            } else {
                Seq::empty()
            },
            None => Seq::empty(),
        }));
}

fn check_one_option_backticks(p: &Principle, j: usize, out: &mut Vec<Finding>)
    requires
        j < p.options@.len(),
    ensures
        findings_view(final(out)@) == findings_view(old(out)@)
            + backtick_finding(p.id@, "option["@ + decimal(j as nat) + "]."@ + "id"@, p.options@[j as int].id@)
            + backtick_finding(p.id@, "option["@ + decimal(j as nat) + "]."@ + "label"@, p.options@[j as int].label@)
            + backtick_finding(p.id@, "option["@ + decimal(j as nat) + "]."@ + "directive"@, p.options@[j as int].directive@)
            + backtick_finding(p.id@, "option["@ + decimal(j as nat) + "]."@ + "why"@, p.options@[j as int].why@),
{
    let pid = p.id.as_str();
    let o = &p.options[j];
    let ghost start = findings_view(out@);
    let mut at = String::from_str("option[");
    push_decimal(&mut at, j as u64);
    at.append("].");
    let ghost atv = at@;
    assert(atv =~= "option["@ + decimal(j as nat) + "]."@);
    let mut w0 = at.clone();
    w0.append("id");
    push_backtick(out, pid, w0, o.id.as_str());
    let mut w1 = at.clone();
    w1.append("label");
    push_backtick(out, pid, w1, o.label.as_str());
    let mut w2 = at.clone();
    w2.append("directive");
    push_backtick(out, pid, w2, o.directive.as_str());
    let mut w3 = at;
    w3.append("why");
    push_backtick(out, pid, w3, o.why.as_str());
    assert(findings_view(out@) =~= start
        + backtick_finding(p.id@, atv + "id"@, o.id@)
        + backtick_finding(p.id@, atv + "label"@, o.label@)
        + backtick_finding(p.id@, atv + "directive"@, o.directive@)
        + backtick_finding(p.id@, atv + "why"@, o.why@));
}

fn check_backticks(p: &Principle, out: &mut Vec<Finding>)
    ensures
        findings_view(final(out)@) == findings_view(old(out)@)
            + backtick_finding(p.id@, "`title`"@, p.title@)
            + backtick_finding(p.id@, "`decision.question`"@, p.decision.question@)
            + default_backticks(p.id@, p.decision.default)
            + backtick_finding(p.id@, "`decision.why`"@, p.decision.why@)
            + option_backticks(p.id@, p.options@, p.options@.len() as int),
{
    let pid = p.id.as_str();
    let ghost start = findings_view(out@);
    push_backtick(out, pid, String::from_str("`title`"), p.title.as_str());
    push_backtick(out, pid, String::from_str("`decision.question`"), p.decision.question.as_str());
    let ghost before_default = findings_view(out@);
    if let Some(d) = &p.decision.default {
        push_backtick(out, pid, String::from_str("`decision.default`"), d.as_str());
    }
    assert(findings_view(out@) =~= before_default + default_backticks(p.id@, p.decision.default));
    push_backtick(out, pid, String::from_str("`decision.why`"), p.decision.why.as_str());
    let ghost mid = findings_view(out@);
    let mut j: usize = 0;
    while j < p.options.len()
        invariant
            j <= p.options@.len(),
            findings_view(out@) == mid + option_backticks(p.id@, p.options@, j as int),
        decreases p.options@.len() - j,
    {
        check_one_option_backticks(p, j, out);
        assert(findings_view(out@) =~= mid + option_backticks(p.id@, p.options@, j + 1));
        j = j + 1;
    }
    assert(findings_view(out@) =~= start
        + backtick_finding(p.id@, "`title`"@, p.title@)
        + backtick_finding(p.id@, "`decision.question`"@, p.decision.question@)
        + default_backticks(p.id@, p.decision.default)
        + backtick_finding(p.id@, "`decision.why`"@, p.decision.why@)
        + option_backticks(p.id@, p.options@, p.options@.len() as int));
}

/// Check one principle's schema content. Findings come in this order: id
/// format, an empty option list, per option a blank or repeated id and each
/// blank label/directive/why, a missing conformance test on a mechanical
/// rule, a default naming no option, then backticks in the title, the
/// decision's question, default and why, and each option's id, label,
/// directive and why.
pub fn check_principle(p: &Principle) -> (r: LintReport)
    ensures
        findings_view(r.findings@) == principle_findings(*p),
        r.no_default == p.decision.default.is_none(),
{
    let mut out: Vec<Finding> = Vec::new();
    check_id_and_options(p, &mut out);
    check_options(p, &mut out);
    check_qualifies_and_default(p, &mut out);
    check_backticks(p, &mut out);
    assert(findings_view(out@) =~= principle_findings(*p));
    LintReport { findings: out, no_default: p.decision.default.is_none() }
}

// ---------------------------------------------------------------- library-wide

/// A finding tied to the file it came from.
pub struct FileFinding {
    pub file: String,
    pub id: String,
    pub kind: &'static str,
    pub message: String,
}

pub open spec fn file_finding_view(f: FileFinding) -> (Seq<char>, Seq<char>, Seq<char>, Seq<char>) {
    (f.file@, f.id@, f.kind@, f.message@)
}

/// The files, in order, whose principle has id `id`; `seen` lists
/// `(id, file)` per parsed file.
pub open spec fn files_with(seen: Seq<(String, String)>, id: Seq<char>) -> Seq<Seq<char>>
    decreases seen.len(),
{
    if seen.len() == 0 {
        Seq::empty()
    } else if seen.last().0@ == id {
        files_with(seen.drop_last(), id).push(seen.last().1@)
    } else {
        files_with(seen.drop_last(), id)
    }
}

/// The items joined with `sep` between them.
pub open spec fn join(items: Seq<Seq<char>>, sep: Seq<char>) -> Seq<char>
    decreases items.len(),
{
    if items.len() == 0 {
        Seq::empty()
    } else if items.len() == 1 {
        items[0]
    } else {
        join(items.drop_last(), sep) + sep + items.last()
    }
}

pub open spec fn duplicate_message(id: Seq<char>, files: Seq<Seq<char>>) -> Seq<char> {
    "id `"@ + id + "` appears in "@ + decimal(files.len()) + " files: "@ + join(files, ", "@)
}

/// One duplicate-id finding per file whose id appears in more than one file.
pub open spec fn duplicate_findings(seen: Seq<(String, String)>, n: int) -> Seq<(Seq<char>, Seq<char>, Seq<char>, Seq<char>)>
    decreases n,
{
    if n <= 0 {
        Seq::empty()
    } else {
        let e = seen[n - 1];
        let files = files_with(seen, e.0@);
        if files.len() > 1 {
            duplicate_findings(seen, n - 1).push((e.1@, e.0@, "duplicate-id"@, duplicate_message(e.0@, files)))
        } else {
            duplicate_findings(seen, n - 1)
        }
    }
}

pub proof fn lemma_files_with_len(seen: Seq<(String, String)>, id: Seq<char>)
    ensures
        files_with(seen, id).len() <= seen.len(),
    decreases seen.len(),
{
    if seen.len() > 0 {
        lemma_files_with_len(seen.drop_last(), id);
    }
}

fn files_with_id(seen: &[(String, String)], id: &str) -> (r: Vec<String>)
    ensures
        r@.map_values(|s: String| s@) == files_with(seen@, id@),
{
    let mut out: Vec<String> = Vec::new();
    let mut i: usize = 0;
    while i < seen.len()
        invariant
            i <= seen@.len(),
            out@.map_values(|s: String| s@) == files_with(seen@.take(i as int), id@),
        decreases seen@.len() - i,
    {
        assert(seen@.take(i + 1).drop_last() =~= seen@.take(i as int));
        assert(seen@.take(i + 1).last() == seen@[i as int]);
        if str_equal(seen[i].0.as_str(), id) {
            let ghost before = out@;
            out.push(seen[i].1.clone());
            assert(out@.map_values(|s: String| s@) =~= before.map_values(|s: String| s@).push(seen@[i as int].1@));
        }
        i = i + 1;
    }
    assert(seen@.take(seen@.len() as int) =~= seen@);
    out
}

/// The items joined with ", ".
pub fn join_comma(items: &Vec<String>) -> (r: String)
    ensures
        r@ == join(items@.map_values(|s: String| s@), ", "@),
{
    let ghost iv = items@.map_values(|s: String| s@);
    let mut out = String::new();
    let mut i: usize = 0;
    while i < items.len()
        invariant
            i <= items@.len(),
            iv == items@.map_values(|s: String| s@),
            out@ == join(iv.take(i as int), ", "@),
        decreases items@.len() - i,
    {
        if i > 0 {
            out.append(", ");
        }
        out.append(items[i].as_str());
        proof {
            let t = iv.take(i + 1);
            assert(t.drop_last() =~= iv.take(i as int));
            assert(t.last() == items@[i as int]@);
            if i == 0 {
                assert(iv.take(0) =~= Seq::<Seq<char>>::empty());
                assert(out@ =~= t[0]);
            }
        }
        i = i + 1;
    }
    assert(iv.take(items@.len() as int) =~= iv);
    out
}

/// Cross-file check: one `duplicate-id` finding per file whose principle id
/// also appears in another file. `seen` lists `(id, file)` per parsed file;
/// findings follow that order.
pub fn duplicate_id_findings(seen: &[(String, String)]) -> (r: Vec<FileFinding>)
    ensures
        r@.map_values(|f: FileFinding| file_finding_view(f)) == duplicate_findings(seen@, seen@.len() as int),
{
    let mut out: Vec<FileFinding> = Vec::new();
    let mut i: usize = 0;
    while i < seen.len()
        invariant
            i <= seen@.len(),
            out@.map_values(|f: FileFinding| file_finding_view(f)) == duplicate_findings(seen@, i as int),
        decreases seen@.len() - i,
    {
        let id = seen[i].0.as_str();
        let files = files_with_id(seen, id);
        proof {
            lemma_files_with_len(seen@, id@);
        }
        if files.len() > 1 {
            let mut m = String::from_str("id `");
            m.append(id);
            m.append("` appears in ");
            push_decimal(&mut m, files.len() as u64);
            m.append(" files: ");
            let joined = join_comma(&files);
            m.append(joined.as_str());
            let ghost before = out@;
            out.push(FileFinding { file: seen[i].1.clone(), id: String::from_str(id), kind: "duplicate-id", message: m });
            assert(out@.map_values(|f: FileFinding| file_finding_view(f)) =~= before.map_values(|f: FileFinding| file_finding_view(f)).push(
                (seen@[i as int].1@, id@, "duplicate-id"@, duplicate_message(id@, files_with(seen@, id@)))));
        }
        i = i + 1;
    }
    out
}

/// `out` holds the texts of `v` in non-decreasing order, through the
/// rearrangement `perm`.
pub open spec fn sorted_texts(v: Seq<String>, out: Seq<String>, perm: Seq<int>) -> bool {
    &&& perm.len() == v.len()
    &&& out.len() == v.len()
    &&& forall|i: int| 0 <= i < perm.len() ==> 0 <= #[trigger] perm[i] < v.len() && out[i] == v[perm[i]]
    &&& forall|i: int, j: int| 0 <= i < j < perm.len() ==> #[trigger] perm[i] != #[trigger] perm[j]
    &&& forall|i: int, j: int| 0 <= i < j < out.len() ==> !precedes(#[trigger] out[j]@, #[trigger] out[i]@)
}

/// Sort texts in lexicographic order.
pub fn sort_texts(v: Vec<String>) -> (r: Vec<String>)
    ensures
        exists|perm: Seq<int>| sorted_texts(v@, r@, perm),
{
    let ghost vs = v@;
    let n = v.len();
    let mut w = v;
    let ghost mut perm: Seq<int> = Seq::new(n as nat, |i: int| i);
    let mut k: usize = 0;
    while k < n
        invariant
            k <= n,
            n == vs.len(),
            w@.len() == n,
            perm.len() == n,
            forall|i: int| 0 <= i < n ==> 0 <= #[trigger] perm[i] < n && w@[i] == vs[perm[i]],
            forall|i: int| k <= i < n ==> #[trigger] perm[i] == i,
            forall|i: int| 0 <= i < k ==> #[trigger] perm[i] < k,
            forall|i: int, j: int| 0 <= i < j < k ==> #[trigger] perm[i] != #[trigger] perm[j],
            forall|i: int, j: int| 0 <= i < j < k ==> !precedes(#[trigger] w@[j]@, #[trigger] w@[i]@),
        decreases n - k,
    {
        assert(perm[k as int] == k);
        let x = w.remove(k);
        let ghost rest = w@;
        assert(x == vs[k as int]);
        let mut p = k;
        while p > 0 && text_precedes(x.as_str(), w[p - 1].as_str())
            invariant
                p <= k < n,
                w@ == rest,
                rest.len() == n - 1,
                forall|q: int| p <= q < k ==> precedes(x@, #[trigger] rest[q]@),
            decreases p,
        {
            p = p - 1;
        }
        let ghost old_perm = perm;
        proof {
            if p > 0 {
                crate::text::lemma_precedes_total(x@, rest[p - 1]@);
                assert forall|q: int| 0 <= q < p - 1 implies !precedes(x@, #[trigger] rest[q]@) by {
                    if precedes(x@, rest[q]@) {
                        crate::text::lemma_precedes_total(rest[q]@, rest[p - 1]@);
                        if precedes(rest[q]@, rest[p - 1]@) {
                            crate::text::lemma_precedes_transitive(x@, rest[q]@, rest[p - 1]@);
                        }
                        crate::text::lemma_precedes_asymmetric(x@, rest[p - 1]@);
                    }
                }
            }
            assert forall|q: int| p <= q < k implies !precedes(#[trigger] rest[q]@, x@) by {
                crate::text::lemma_precedes_asymmetric(x@, rest[q]@);
            }
            perm = old_perm.take(k as int).insert(p as int, k as int) + old_perm.skip(k + 1);
        }
        w.insert(p, x);
        proof {
            assert forall|i: int| 0 <= i < n implies 0 <= #[trigger] perm[i] < n && w@[i] == vs[perm[i]] by {
                if i < p {
                    assert(perm[i] == old_perm[i]);
                } else if i == p {
                } else if i <= k {
                    assert(perm[i] == old_perm[i - 1]);
                } else {
                    assert(perm[i] == old_perm[i]);
                }
            }
            assert forall|i: int| k + 1 <= i < n implies #[trigger] perm[i] == i by {
                assert(perm[i] == old_perm[i]);
            }
            assert forall|i: int| 0 <= i < k + 1 implies #[trigger] perm[i] < k + 1 by {
                if i < p {
                    assert(perm[i] == old_perm[i]);
                } else if i > p {
                    assert(perm[i] == old_perm[i - 1]);
                }
            }
            assert forall|i: int, j: int| 0 <= i < j < k + 1 implies #[trigger] perm[i] != #[trigger] perm[j] by {
                if i < p && j < p {
                    assert(perm[i] == old_perm[i] && perm[j] == old_perm[j]);
                } else if i < p && j == p {
                    assert(perm[i] == old_perm[i]);
                } else if i < p {
                    assert(perm[i] == old_perm[i] && perm[j] == old_perm[j - 1]);
                } else if i == p {
                    assert(perm[j] == old_perm[j - 1]);
                } else {
                    assert(perm[i] == old_perm[i - 1] && perm[j] == old_perm[j - 1]);
                }
            }
            assert forall|i: int, j: int| 0 <= i < j < k + 1 implies !precedes(#[trigger] w@[j]@, #[trigger] w@[i]@) by {
                if i < p && j < p {
                    assert(w@[i] == rest[i] && w@[j] == rest[j]);
                } else if i < p && j == p {
                    assert(w@[i] == rest[i]);
                } else if i < p {
                    assert(w@[i] == rest[i] && w@[j] == rest[j - 1]);
                    if precedes(rest[j - 1]@, rest[i]@) {
                    }
                } else if i == p {
                    assert(w@[j] == rest[j - 1]);
                } else {
                    assert(w@[i] == rest[i - 1] && w@[j] == rest[j - 1]);
                }
            }
        }
        k = k + 1;
    }
    assert(sorted_texts(vs, w@, perm));
    w
}

/// The note listing open (no-default) rules, sorted: `None` when there are
/// none.
pub fn no_default_note(ids: Vec<String>) -> (r: Option<String>)
    ensures
        ids@.len() == 0 ==> r is None,
        ids@.len() > 0 ==> r is Some && exists|sorted: Seq<String>, perm: Seq<int>| sorted_texts(ids@, sorted, perm)
            && r->0@ == "note: "@ + decimal(ids@.len()) + " no-default (route-to-human) rule(s): "@
                + join(sorted.map_values(|s: String| s@), ", "@),
{
    if ids.len() == 0 {
        return None;
    }
    let n = ids.len();
    let ghost orig = ids@;
    let sorted = sort_texts(ids);
    let mut m = String::from_str("note: ");
    push_decimal(&mut m, n as u64);
    m.append(" no-default (route-to-human) rule(s): ");
    let joined = join_comma(&sorted);
    m.append(joined.as_str());
    Some(m)
}

} // verus!
