//! The user's own content in the workspace: custom rules and the custom
//! domains that hold them, authored options, target repositories and the
//! domain-to-repository routing, with the delete confirmations they ask for.

use vstd::prelude::*;
use crate::cli::{overrides_view, OverridesView};
use crate::emit::{copy_custom, CustomRule};
use crate::profile::{key_index, lemma_key_index, lemma_key_index_first, put, put_texts, texts};
use crate::session::{contains_text, copy_texts, lemma_push_contains, without};
use crate::text::{chars_of, decimal, push_decimal, str_equal, string_of_range, strip_range, trim};

verus! {

// ---------------------------------------------------------------- spec

/// `x` added to the set `s` (kept as a list): appended unless already there.
pub open spec fn set_add(s: Seq<Seq<char>>, x: Seq<char>) -> Seq<Seq<char>> {
    if s.contains(x) {
        s
    } else {
        s.push(x)
    }
}

/// Every `from` in `s` replaced by `to`.
pub open spec fn rename_all(s: Seq<Seq<char>>, from: Seq<char>, to: Seq<char>) -> Seq<Seq<char>> {
    s.map_values(|d: Seq<char>| if d == from { to } else { d })
}

/// A set member renamed: if `from` is in the set it leaves and `to` joins.
pub open spec fn set_rename(s: Seq<Seq<char>>, from: Seq<char>, to: Seq<char>) -> Seq<Seq<char>> {
    if s.contains(from) {
        set_add(without(s, from), to)
    } else {
        s
    }
}

/// The custom rules outside domain `d`, in order.
pub open spec fn rules_outside(rules: Seq<CustomRule>, d: Seq<char>) -> Seq<CustomRule>
    decreases rules.len(),
{
    if rules.len() == 0 {
        Seq::empty()
    } else if rules.last().domain@ == d {
        rules_outside(rules.drop_last(), d)
    } else {
        rules_outside(rules.drop_last(), d).push(rules.last())
    }
}

/// How many custom rules sit in domain `d`.
pub open spec fn rules_in(rules: Seq<CustomRule>, d: Seq<char>) -> nat
    decreases rules.len(),
{
    if rules.len() == 0 {
        0
    } else if rules.last().domain@ == d {
        rules_in(rules.drop_last(), d) + 1
    } else {
        rules_in(rules.drop_last(), d)
    }
}

/// A routing map with domain `from` moved to `to`: the entry leaves, and
/// its repositories are put under `to`.
pub open spec fn rename_route(ov: OverridesView, from: Seq<char>, to: Seq<char>) -> OverridesView {
    match key_index(ov, from) {
        Some(i) => put(ov.remove(i), to, ov[i].1),
        None => ov,
    }
}

/// The repositories domain `d` is routed to (none when it has no entry).
pub open spec fn routes_of(ov: OverridesView, d: Seq<char>) -> Seq<Seq<char>> {
    match key_index(ov, d) {
        Some(i) => ov[i].1,
        None => Seq::empty(),
    }
}

/// A routing map with `repo` toggled for domain `d`.
pub open spec fn toggle_route_spec(ov: OverridesView, d: Seq<char>, repo: Seq<char>) -> OverridesView {
    let cur = routes_of(ov, d);
    put(ov, d, if cur.contains(repo) { without(cur, repo) } else { cur.push(repo) })
}

/// The confirmation a custom domain's deletion asks for: header and body.
pub open spec fn domain_delete_prompt(rules: Seq<CustomRule>, name: Seq<char>) -> (Seq<char>, Seq<char>) {
    let n = rules_in(rules, name);
    ("Delete custom domain \""@ + name + "\"?"@,
        if n == 0 {
            "This domain has no custom rules. This cannot be undone."@
        } else if n == 1 {
            "Deleting this domain will also delete 1 custom rule scoped to it. This cannot be undone."@
        } else {
            "Deleting this domain will also delete "@ + decimal(n) + " custom rules scoped to it. This cannot be undone."@
        })
}

/// The confirmation a custom rule's deletion asks for: header and body.
pub open spec fn rule_delete_prompt(rules: Seq<CustomRule>, idx: int) -> (Seq<char>, Seq<char>) {
    ("Delete custom rule \""@ + (if 0 <= idx < rules.len() { rules[idx].name@ } else { "(unnamed)"@ }) + "\"?"@,
        "This cannot be undone."@)
}

// ---------------------------------------------------------------- state

/// The custom content of the workspace and the custom-rule edit form.
pub struct CustomState {
    pub custom_rules: Vec<CustomRule>,
    pub custom_domains: Vec<String>,
    /// Active domains, as a set.
    pub selected_domains: Vec<String>,
    /// Expanded domain groups, as a set.
    pub expanded: Vec<String>,
    /// Domain to the repositories it is routed to.
    pub domain_repos: Vec<(String, Vec<String>)>,
    /// The custom rule the edit form is open on, if any.
    pub editing_rule: Option<usize>,
    pub custom_name: String,
    pub custom_body: String,
}

/// The edit form after a deletion: an open edit is dropped, since the index
/// it holds may now be stale.
pub open spec fn form_cleared(old: CustomState, new: CustomState) -> bool {
    if old.editing_rule is Some {
        new.editing_rule is None && new.custom_name@ == Seq::<char>::empty() && new.custom_body@ == Seq::<char>::empty()
    } else {
        new.editing_rule == old.editing_rule && new.custom_name == old.custom_name && new.custom_body == old.custom_body
    }
}

// ---------------------------------------------------------------- helpers

/// `s` with surrounding whitespace removed.
pub fn trimmed(s: &str) -> (r: String)
    ensures
        r@ == trim(s@),
{
    let v = chars_of(s);
    let (a, b) = strip_range(&v, 0, v.len(), false);
    assert(v@.subrange(0, v@.len() as int) =~= v@);
    string_of_range(&v, a, b)
}

fn blank(s: &str) -> (r: bool)
    ensures
        r == (trim(s@).len() == 0),
{
    let v = chars_of(s);
    let (a, b) = strip_range(&v, 0, v.len(), false);
    assert(v@.subrange(0, v@.len() as int) =~= v@);
    a == b
}

fn remove_all(v: &mut Vec<String>, x: &str)
    ensures
        texts(final(v)@) == without(texts(old(v)@), x@),
{
    let mut kept: Vec<String> = Vec::new();
    let mut i: usize = 0;
    while i < v.len()
        invariant
            i <= v@.len(),
            v@ == old(v)@,
            texts(kept@) == without(texts(v@.take(i as int)), x@),
        decreases v@.len() - i,
    {
        let ghost t = texts(v@.take(i as int));
        assert(texts(v@.take(i + 1)) =~= t.push(v@[i as int]@));
        assert(t.push(v@[i as int]@).drop_last() =~= t);
        if !str_equal(v[i].as_str(), x) {
            let ghost b = kept@;
            kept.push(v[i].clone());
            assert(texts(kept@) =~= texts(b).push(v@[i as int]@));
        }
        i = i + 1;
    }
    assert(v@.take(v@.len() as int) =~= v@);
    *v = kept;
}

fn add_text(v: &mut Vec<String>, x: &str)
    ensures
        texts(final(v)@) == set_add(texts(old(v)@), x@),
{
    if !contains_text(v, x) {
        let ghost b = texts(v@);
        v.push(String::from_str(x));
        assert(texts(v@) =~= b.push(x@));
    }
}

fn rename_texts(v: &mut Vec<String>, from: &str, to: &str)
    ensures
        texts(final(v)@) == rename_all(texts(old(v)@), from@, to@),
{
    let mut i: usize = 0;
    while i < v.len()
        invariant
            i <= v@.len(),
            v@.len() == old(v)@.len(),
            forall|k: int| 0 <= k < i ==> #[trigger] v@[k]@ == if old(v)@[k]@ == from@ { to@ } else { old(v)@[k]@ },
            forall|k: int| i <= k < v@.len() ==> #[trigger] v@[k] == old(v)@[k],
        decreases v@.len() - i,
    {
        if str_equal(v[i].as_str(), from) {
            v.set(i, String::from_str(to));
        }
        i = i + 1;
    }
    assert(texts(v@) =~= rename_all(texts(old(v)@), from@, to@));
}

fn rename_in_set(v: &mut Vec<String>, from: &str, to: &str)
    ensures
        texts(final(v)@) == set_rename(texts(old(v)@), from@, to@),
{
    if contains_text(v, from) {
        remove_all(v, from);
        add_text(v, to);
    }
}

/// Position of key `k` in a routing list, as `key_index` finds it.
fn route_index(m: &Vec<(String, Vec<String>)>, k: &str) -> (r: Option<usize>)
    ensures
        match key_index(overrides_view(m@), k@) {
            Some(i) => (r matches Some(x) && x as int == i) && 0 <= i < m@.len() && overrides_view(m@)[i].0 == k@,
            None => r is None,
        },
{
    proof {
        lemma_key_index(overrides_view(m@), k@);
    }
    let mut i: usize = 0;
    while i < m.len()
        invariant
            i <= m@.len(),
            forall|j: int| 0 <= j < i ==> #[trigger] m@[j].0@ != k@,
        decreases m@.len() - i,
    {
        if str_equal(m[i].0.as_str(), k) {
            proof {
                assert forall|j: int| 0 <= j < i implies #[trigger] overrides_view(m@)[j].0 != k@ by {
                    assert(overrides_view(m@)[j].0 == m@[j].0@);
                }
                lemma_key_index_first(overrides_view(m@), k@, i as int);
            }
            return Some(i);
        }
        i = i + 1;
    }
    proof {
        if key_index(overrides_view(m@), k@) is Some {
            let j = key_index(overrides_view(m@), k@)->0;
            assert(overrides_view(m@)[j].0 == m@[j].0@);
        }
    }
    None
}

fn rename_rules(rules: &mut Vec<CustomRule>, from: &str, to: &str)
    ensures
        final(rules)@.len() == old(rules)@.len(),
        forall|i: int| 0 <= i < old(rules)@.len() ==> {
            &&& (#[trigger] final(rules)@[i]).name == old(rules)@[i].name
            &&& final(rules)@[i].body == old(rules)@[i].body
            &&& final(rules)@[i].domain@ == if old(rules)@[i].domain@ == from@ { to@ } else { old(rules)@[i].domain@ }
        },
{
    let mut i: usize = 0;
    while i < rules.len()
        invariant
            i <= rules@.len(),
            rules@.len() == old(rules)@.len(),
            forall|k: int| 0 <= k < i ==> {
                &&& (#[trigger] rules@[k]).name == old(rules)@[k].name
                &&& rules@[k].body == old(rules)@[k].body
                &&& rules@[k].domain@ == if old(rules)@[k].domain@ == from@ { to@ } else { old(rules)@[k].domain@ }
            },
            forall|k: int| i <= k < rules@.len() ==> #[trigger] rules@[k] == old(rules)@[k],
        decreases rules@.len() - i,
    {
        if str_equal(rules[i].domain.as_str(), from) {
            let c = CustomRule { name: rules[i].name.clone(), body: rules[i].body.clone(), domain: String::from_str(to) };
            rules.set(i, c);
        }
        i = i + 1;
    }
}

// ---------------------------------------------------------------- custom rules

/// Delete the custom rule at `idx` (nothing happens past the end), and drop
/// an open edit.
pub fn delete_custom_rule(ws: &mut CustomState, idx: usize)
    ensures
        final(ws).custom_rules@ == if idx < old(ws).custom_rules@.len() {
            old(ws).custom_rules@.remove(idx as int)
        } else {
            old(ws).custom_rules@
        },
        form_cleared(*old(ws), *final(ws)),
        final(ws).custom_domains == old(ws).custom_domains,
        final(ws).selected_domains == old(ws).selected_domains,
        final(ws).expanded == old(ws).expanded,
        final(ws).domain_repos == old(ws).domain_repos,
{
    if idx < ws.custom_rules.len() {
        ws.custom_rules.remove(idx);
    }
    if ws.editing_rule.is_some() {
        ws.editing_rule = None;
        ws.custom_name = String::new();
        ws.custom_body = String::new();
    }
}

/// Add a custom rule to a domain ("*" when none is given), unless both its
/// name and body are blank.
pub fn add_custom_rule(rules: &mut Vec<CustomRule>, domain: Option<&str>, name: String, body: String)
    ensures
        trim(name@).len() == 0 && trim(body@).len() == 0 ==> final(rules)@ == old(rules)@,
        !(trim(name@).len() == 0 && trim(body@).len() == 0) ==> {
            &&& final(rules)@.len() == old(rules)@.len() + 1
            &&& final(rules)@.drop_last() == old(rules)@
            &&& final(rules)@.last().name == name
            &&& final(rules)@.last().body == body
            &&& final(rules)@.last().domain@ == match domain {
                Some(d) => d@,
                None => "*"@,
            }
        },
{
    if blank(name.as_str()) && blank(body.as_str()) {
        return;
    }
    let d = match domain {
        Some(d) => String::from_str(d),
        None => String::from_str("*"),
    };
    rules.push(CustomRule { name, body, domain: d });
    assert(rules@.drop_last() =~= old(rules)@);
}

/// Save the edit form onto the custom rule at `idx`: its name and body
/// change, its domain stays. Nothing happens past the end.
pub fn save_custom_rule(rules: &mut Vec<CustomRule>, idx: usize, name: String, body: String)
    ensures
        final(rules)@.len() == old(rules)@.len(),
        forall|i: int| 0 <= i < old(rules)@.len() ==> #[trigger] final(rules)@[i] == if i == idx {
            CustomRule { name, body, domain: old(rules)@[i].domain }
        } else {
            old(rules)@[i]
        },
{
    if idx < rules.len() {
        let domain = rules[idx].domain.clone();
        rules.set(idx, CustomRule { name, body, domain });
    }
}

/// The confirmation shown before deleting the custom rule at `idx`.
pub fn rule_delete_message(rules: &Vec<CustomRule>, idx: usize) -> (r: (String, String))
    ensures
        (r.0@, r.1@) == rule_delete_prompt(rules@, idx as int),
{
    let mut h = String::from_str("Delete custom rule \"");
    if idx < rules.len() {
        h.append(rules[idx].name.as_str());
    } else {
        h.append("(unnamed)");
    }
    h.append("\"?");
    let b = String::from_str("This cannot be undone.");
    (h, b)
}

// ---------------------------------------------------------------- custom domains

/// Add a custom domain: its trimmed name, unless blank, joins the custom
/// domains (once) and becomes active and expanded.
pub fn add_custom_domain(ws: &mut CustomState, name: &str)
    ensures
        trim(name@).len() == 0 ==> *final(ws) == *old(ws),
        trim(name@).len() > 0 ==> {
            &&& texts(final(ws).custom_domains@) == set_add(texts(old(ws).custom_domains@), trim(name@))
            &&& texts(final(ws).selected_domains@) == set_add(texts(old(ws).selected_domains@), trim(name@))
            &&& texts(final(ws).expanded@) == set_add(texts(old(ws).expanded@), trim(name@))
            &&& final(ws).custom_rules == old(ws).custom_rules
            &&& final(ws).domain_repos == old(ws).domain_repos
            &&& final(ws).editing_rule == old(ws).editing_rule
            &&& final(ws).custom_name == old(ws).custom_name
            &&& final(ws).custom_body == old(ws).custom_body
        },
{
    if blank(name) {
        return;
    }
    let n = trimmed(name);
    add_text(&mut ws.custom_domains, n.as_str());
    add_text(&mut ws.selected_domains, n.as_str());
    add_text(&mut ws.expanded, n.as_str());
}

/// Delete a custom domain with every custom rule in it: the name leaves the
/// custom domains and the active and expanded sets, and an open edit is
/// dropped.
pub fn delete_custom_domain(ws: &mut CustomState, name: &str)
    ensures
        final(ws).custom_rules@ == rules_outside(old(ws).custom_rules@, name@),
        texts(final(ws).custom_domains@) == without(texts(old(ws).custom_domains@), name@),
        texts(final(ws).selected_domains@) == without(texts(old(ws).selected_domains@), name@),
        texts(final(ws).expanded@) == without(texts(old(ws).expanded@), name@),
        final(ws).domain_repos == old(ws).domain_repos,
        form_cleared(*old(ws), *final(ws)),
{
    let mut kept: Vec<CustomRule> = Vec::new();
    let mut i: usize = 0;
    while i < ws.custom_rules.len()
        invariant
            i <= ws.custom_rules@.len(),
            ws.custom_rules@ == old(ws).custom_rules@,
            kept@ == rules_outside(ws.custom_rules@.take(i as int), name@),
        decreases ws.custom_rules@.len() - i,
    {
        let ghost t = ws.custom_rules@.take(i as int);
        assert(ws.custom_rules@.take(i + 1).drop_last() =~= t);
        assert(ws.custom_rules@.take(i + 1).last() == ws.custom_rules@[i as int]);
        if !str_equal(ws.custom_rules[i].domain.as_str(), name) {
            kept.push(copy_custom(&ws.custom_rules[i]));
        }
        i = i + 1;
    }
    assert(ws.custom_rules@.take(ws.custom_rules@.len() as int) =~= ws.custom_rules@);
    ws.custom_rules = kept;
    remove_all(&mut ws.custom_domains, name);
    remove_all(&mut ws.selected_domains, name);
    remove_all(&mut ws.expanded, name);
    if ws.editing_rule.is_some() {
        ws.editing_rule = None;
        ws.custom_name = String::new();
        ws.custom_body = String::new();
    }
}

/// Rename a custom domain to the trimmed `to`, when that is not blank and
/// differs from `from`: the domain list and the custom rules' domains are
/// rewritten, active and expanded membership moves, and so does the
/// domain's routing. Otherwise nothing changes.
pub fn rename_custom_domain(ws: &mut CustomState, from: &str, to: &str)
    ensures
        (trim(to@).len() == 0 || trim(to@) == from@) ==> *final(ws) == *old(ws),
        !(trim(to@).len() == 0 || trim(to@) == from@) ==> {
            let n = trim(to@);
            &&& texts(final(ws).custom_domains@) == rename_all(texts(old(ws).custom_domains@), from@, n)
            &&& final(ws).custom_rules@.len() == old(ws).custom_rules@.len()
            &&& forall|i: int| 0 <= i < old(ws).custom_rules@.len() ==> {
                &&& (#[trigger] final(ws).custom_rules@[i]).name == old(ws).custom_rules@[i].name
                &&& final(ws).custom_rules@[i].body == old(ws).custom_rules@[i].body
                &&& final(ws).custom_rules@[i].domain@ == if old(ws).custom_rules@[i].domain@ == from@ { n } else { old(ws).custom_rules@[i].domain@ }
            }
            &&& texts(final(ws).selected_domains@) == set_rename(texts(old(ws).selected_domains@), from@, n)
            &&& texts(final(ws).expanded@) == set_rename(texts(old(ws).expanded@), from@, n)
            &&& overrides_view(final(ws).domain_repos@) == rename_route(overrides_view(old(ws).domain_repos@), from@, n)
            &&& final(ws).editing_rule == old(ws).editing_rule
            &&& final(ws).custom_name == old(ws).custom_name
            &&& final(ws).custom_body == old(ws).custom_body
        },
{
    if blank(to) {
        return;
    }
    let n = trimmed(to);
    if str_equal(n.as_str(), from) {
        return;
    }
    rename_texts(&mut ws.custom_domains, from, n.as_str());
    rename_rules(&mut ws.custom_rules, from, n.as_str());
    rename_in_set(&mut ws.selected_domains, from, n.as_str());
    rename_in_set(&mut ws.expanded, from, n.as_str());
    let ghost ov = overrides_view(ws.domain_repos@);
    match route_index(&ws.domain_repos, from) {
        Some(i) => {
            assert(key_index(ov, from@) == Some(i as int));
            let entry = ws.domain_repos.remove(i);
            assert(overrides_view(ws.domain_repos@) =~= ov.remove(i as int));
            assert(texts(entry.1@) =~= ov[i as int].1);
            put_texts(&mut ws.domain_repos, n.clone(), entry.1);
            assert(overrides_view(ws.domain_repos@) == rename_route(ov, from@, n@));
        },
        None => {
            assert(overrides_view(ws.domain_repos@) == rename_route(ov, from@, n@));
        },
    }
}

/// The confirmation shown before deleting a custom domain, counting the
/// custom rules that go with it.
pub fn domain_delete_message(rules: &Vec<CustomRule>, name: &str) -> (r: (String, String))
    ensures
        (r.0@, r.1@) == domain_delete_prompt(rules@, name@),
{
    let mut count: u64 = 0;
    let mut i: usize = 0;
    while i < rules.len()
        invariant
            i <= rules@.len(),
            count == rules_in(rules@.take(i as int), name@),
            count <= i,
        decreases rules@.len() - i,
    {
        assert(rules@.take(i + 1).drop_last() =~= rules@.take(i as int));
        assert(rules@.take(i + 1).last() == rules@[i as int]);
        if str_equal(rules[i].domain.as_str(), name) {
            count = count + 1;
        }
        i = i + 1;
    }
    assert(rules@.take(rules@.len() as int) =~= rules@);
    let mut h = String::from_str("Delete custom domain \"");
    h.append(name);
    h.append("\"?");
    let b = if count == 0 {
        String::from_str("This domain has no custom rules. This cannot be undone.")
    } else if count == 1 {
        String::from_str("Deleting this domain will also delete 1 custom rule scoped to it. This cannot be undone.")
    } else {
        let mut b = String::from_str("Deleting this domain will also delete ");
        push_decimal(&mut b, count);
        b.append(" custom rules scoped to it. This cannot be undone.");
        b
    };
    (h, b)
}

// ---------------------------------------------------------------- options

/// Add the user's own option to the principle at `i` and choose it, unless
/// the text is blank.
pub fn add_custom_option(alts: &mut Vec<Vec<String>>, chosen: &mut Vec<Option<String>>, i: usize, text: String)
    requires
        i < old(alts)@.len(),
        i < old(chosen)@.len(),
    ensures
        trim(text@).len() == 0 ==> final(alts)@ == old(alts)@ && final(chosen)@ == old(chosen)@,
        trim(text@).len() > 0 ==> {
            &&& final(alts)@.len() == old(alts)@.len()
            &&& forall|k: int| 0 <= k < old(alts)@.len() ==> (#[trigger] final(alts)@[k])@
                == if k == i { old(alts)@[k]@.push(text) } else { old(alts)@[k]@ }
            &&& final(chosen)@ == old(chosen)@.update(i as int, Some(text))
        },
{
    if blank(text.as_str()) {
        return;
    }
    let mut row = copy_texts(&alts[i]);
    row.push(text.clone());
    alts.set(i, row);
    chosen.set(i, Some(text));
}

// ---------------------------------------------------------------- repositories

/// Add a target repository: its trimmed path, unless blank, joins the list
/// once.
pub fn add_repo(repos: &mut Vec<String>, r: &str)
    ensures
        trim(r@).len() == 0 ==> final(repos)@ == old(repos)@,
        trim(r@).len() > 0 ==> texts(final(repos)@) == set_add(texts(old(repos)@), trim(r@)),
{
    if blank(r) {
        return;
    }
    let t = trimmed(r);
    add_text(repos, t.as_str());
}

/// Remove the repository at `idx` (nothing happens past the end).
pub fn remove_repo(repos: &mut Vec<String>, idx: usize)
    ensures
        final(repos)@ == if idx < old(repos)@.len() { old(repos)@.remove(idx as int) } else { old(repos)@ },
{
    if idx < repos.len() {
        repos.remove(idx);
    }
}

/// Toggle whether domain `domain` is routed to `repo`; a domain without an
/// entry gets one.
pub fn toggle_route(domain_repos: &mut Vec<(String, Vec<String>)>, domain: &str, repo: &str)
    ensures
        overrides_view(final(domain_repos)@) == toggle_route_spec(overrides_view(old(domain_repos)@), domain@, repo@),
{
    let ghost ov = overrides_view(domain_repos@);
    let mut cur: Vec<String> = match route_index(domain_repos, domain) {
        Some(i) => {
            let c = copy_texts(&domain_repos[i].1);
            assert(key_index(ov, domain@) == Some(i as int));
            assert(ov[i as int].1 == overrides_view(domain_repos@)[i as int].1);
            assert(texts(c@) =~= ov[i as int].1);
            assert(texts(c@) == routes_of(ov, domain@));
            c
        },
        None => {
            let c: Vec<String> = Vec::new();
            assert(texts(c@) =~= Seq::<Seq<char>>::empty());
            assert(texts(c@) == routes_of(ov, domain@));
            c
        },
    };
    assert(texts(cur@) == routes_of(ov, domain@));
    if contains_text(&cur, repo) {
        remove_all(&mut cur, repo);
    } else {
        let ghost b = texts(cur@);
        cur.push(String::from_str(repo));
        assert(texts(cur@) =~= b.push(repo@));
    }
    put_texts(domain_repos, String::from_str(domain), cur);
}

} // verus!
