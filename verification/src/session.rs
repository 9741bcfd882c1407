//! The selection state of the desktop front end: the order rules are listed
//! in, which rules start checked, the per-domain toggles, and restoring the
//! whole selection from a saved profile.

use vstd::prelude::*;
use crate::{capability_domains, default_selected_domains, is_capability, is_default_selected_domain};
use crate::principle::{layer_position, layer_rank, stack_base_of, Principle};
use crate::profile::{pairs_of, texts, Profile};
use crate::text::{
    lemma_precedes_irreflexive, lemma_precedes_total, lemma_precedes_transitive, precedes, str_equal,
    text_precedes,
};

verus! {

// ---------------------------------------------------------------- initial selection

/// The rules checked when the workspace opens: those whose domain is
/// pre-selected and whose `default` flag is set.
pub fn initial_selection(ps: &[Principle]) -> (r: Vec<bool>)
    ensures
        r@.len() == ps@.len(),
        forall|i: int| 0 <= i < ps@.len() ==>
            #[trigger] r@[i] == (default_selected_domains().contains(ps@[i].domain@) && ps@[i].default),
{
    let mut out: Vec<bool> = Vec::new();
    let mut i: usize = 0;
    while i < ps.len()
        invariant
            i <= ps@.len(),
            out@.len() == i,
            forall|k: int| 0 <= k < i ==>
                #[trigger] out@[k] == (default_selected_domains().contains(ps@[k].domain@) && ps@[k].default),
        decreases ps@.len() - i,
    {
        let on = is_default_selected_domain(ps[i].domain.as_str()) && ps[i].default;
        out.push(on);
        i = i + 1;
    }
    out
}

// ---------------------------------------------------------------- display order

/// The listing bucket of a domain: universal first, then capabilities, then
/// stacks.
pub open spec fn display_bucket(domain: Seq<char>) -> nat {
    if domain == "*"@ {
        0
    } else if capability_domains().contains(domain) {
        1
    } else {
        2
    }
}

/// What a rule is listed by: its bucket; within the stack bucket its stack,
/// then its layer; then its domain and id.
pub open spec fn display_key(p: Principle) -> (nat, Seq<char>, nat, Seq<char>, Seq<char>) {
    if display_bucket(p.domain@) == 2 {
        (2, match stack_base_of(p.domain@) {
            Some(b) => b,
            None => p.domain@,
        }, layer_rank(p.layer), p.domain@, p.id@)
    } else {
        (display_bucket(p.domain@), Seq::<char>::empty(), 0, p.domain@, p.id@)
    }
}

/// Strict lexicographic order of display keys.
pub open spec fn key_before(a: (nat, Seq<char>, nat, Seq<char>, Seq<char>), b: (nat, Seq<char>, nat, Seq<char>, Seq<char>)) -> bool {
    ||| a.0 < b.0
    ||| a.0 == b.0 && precedes(a.1, b.1)
    ||| a.0 == b.0 && a.1 == b.1 && a.2 < b.2
    ||| a.0 == b.0 && a.1 == b.1 && a.2 == b.2 && precedes(a.3, b.3)
    ||| a.0 == b.0 && a.1 == b.1 && a.2 == b.2 && a.3 == b.3 && precedes(a.4, b.4)
}

/// `ord` lists every rule once, sorted by display key, rules with equal keys
/// in library order (a stable sort).
pub open spec fn is_display_order(ps: Seq<Principle>, ord: Seq<usize>) -> bool {
    &&& ord.len() == ps.len()
    &&& forall|i: int| 0 <= i < ord.len() ==> #[trigger] ord[i] < ps.len()
    &&& forall|i: int, j: int| 0 <= i < j < ord.len() ==> #[trigger] ord[i] != #[trigger] ord[j]
    &&& forall|i: int, j: int| 0 <= i < j < ord.len() ==>
        !key_before(display_key(ps[#[trigger] ord[j] as int]), display_key(ps[#[trigger] ord[i] as int]))
    &&& forall|i: int, j: int| 0 <= i < j < ord.len()
        && display_key(ps[#[trigger] ord[i] as int]) == display_key(ps[#[trigger] ord[j] as int]) ==> ord[i] < ord[j]
}

pub proof fn lemma_key_order(
    a: (nat, Seq<char>, nat, Seq<char>, Seq<char>),
    b: (nat, Seq<char>, nat, Seq<char>, Seq<char>),
    c: (nat, Seq<char>, nat, Seq<char>, Seq<char>),
)
    ensures
        !key_before(a, a),
        key_before(a, b) || key_before(b, a) || a == b,
        key_before(a, b) && key_before(b, c) ==> key_before(a, c),
{
    lemma_precedes_irreflexive(a.1);
    lemma_precedes_irreflexive(a.3);
    lemma_precedes_irreflexive(a.4);
    lemma_precedes_total(a.1, b.1);
    lemma_precedes_total(a.3, b.3);
    lemma_precedes_total(a.4, b.4);
    if precedes(a.1, b.1) && precedes(b.1, c.1) {
        lemma_precedes_transitive(a.1, b.1, c.1);
    }
    if precedes(a.3, b.3) && precedes(b.3, c.3) {
        lemma_precedes_transitive(a.3, b.3, c.3);
    }
    if precedes(a.4, b.4) && precedes(b.4, c.4) {
        lemma_precedes_transitive(a.4, b.4, c.4);
    }
}

/// Not-after is transitive.
pub proof fn lemma_key_not_after(
    a: (nat, Seq<char>, nat, Seq<char>, Seq<char>),
    b: (nat, Seq<char>, nat, Seq<char>, Seq<char>),
    c: (nat, Seq<char>, nat, Seq<char>, Seq<char>),
)
    requires
        !key_before(b, a),
        !key_before(c, b),
    ensures
        !key_before(c, a),
{
    lemma_key_order(a, b, c);
    lemma_key_order(b, c, a);
    lemma_key_order(c, a, b);
    lemma_key_order(a, c, a);
    lemma_key_order(c, a, c);
}

/// The display key of a rule, with its text parts borrowed.
fn key_of(p: &Principle) -> (k: (u8, &str, u8, &str, &str))
    ensures
        (k.0 as nat, k.1@, k.2 as nat, k.3@, k.4@) == display_key(*p),
{
    let d = p.domain.as_str();
    proof {
        reveal_strlit("");
    }
    if str_equal(d, "*") {
        (0, "", 0, d, p.id.as_str())
    } else if is_capability(d) {
        (1, "", 0, d, p.id.as_str())
    } else {
        let base = match p.stack_base() {
            Some(b) => b,
            None => d,
        };
        (2, base, layer_position(p.layer), d, p.id.as_str())
    }
}

fn key_lt(a: &(u8, &str, u8, &str, &str), b: &(u8, &str, u8, &str, &str)) -> (r: bool)
    ensures
        r == key_before((a.0 as nat, a.1@, a.2 as nat, a.3@, a.4@), (b.0 as nat, b.1@, b.2 as nat, b.3@, b.4@)),
{
    proof {
        lemma_precedes_irreflexive(a.1@);
        lemma_precedes_irreflexive(a.3@);
    }
    if a.0 != b.0 {
        return a.0 < b.0;
    }
    if !str_equal(a.1, b.1) {
        return text_precedes(a.1, b.1);
    }
    if a.2 != b.2 {
        return a.2 < b.2;
    }
    if !str_equal(a.3, b.3) {
        return text_precedes(a.3, b.3);
    }
    text_precedes(a.4, b.4)
}

/// The order rules are listed in: universal rules, then capability rules,
/// then stack rules clustered by stack (each stack's language layer above
/// its libraries and frameworks); within that by domain, then id. Rules
/// with the same key keep their library order.
pub fn display_order(ps: &[Principle]) -> (ord: Vec<usize>)
    ensures
        is_display_order(ps@, ord@),
{
    let mut keys: Vec<(u8, &str, u8, &str, &str)> = Vec::new();
    let mut i: usize = 0;
    while i < ps.len()
        invariant
            i <= ps@.len(),
            keys@.len() == i,
            forall|k: int| 0 <= k < i ==> {
                let e = #[trigger] keys@[k];
                (e.0 as nat, e.1@, e.2 as nat, e.3@, e.4@) == display_key(ps@[k])
            },
        decreases ps@.len() - i,
    {
        keys.push(key_of(&ps[i]));
        i = i + 1;
    }
    let mut ord: Vec<usize> = Vec::new();
    let mut k: usize = 0;
    while k < ps.len()
        invariant
            k <= ps@.len(),
            keys@.len() == ps@.len(),
            forall|q: int| 0 <= q < ps@.len() ==> {
                let e = #[trigger] keys@[q];
                (e.0 as nat, e.1@, e.2 as nat, e.3@, e.4@) == display_key(ps@[q])
            },
            ord@.len() == k,
            forall|i: int| 0 <= i < ord@.len() ==> #[trigger] ord@[i] < k,
            forall|i: int, j: int| 0 <= i < j < ord@.len() ==> #[trigger] ord@[i] != #[trigger] ord@[j],
            forall|i: int, j: int| 0 <= i < j < ord@.len() ==>
                !key_before(display_key(ps@[#[trigger] ord@[j] as int]), display_key(ps@[#[trigger] ord@[i] as int])),
            forall|i: int, j: int| 0 <= i < j < ord@.len()
                && display_key(ps@[#[trigger] ord@[i] as int]) == display_key(ps@[#[trigger] ord@[j] as int]) ==> ord@[i] < ord@[j],
        decreases ps@.len() - k,
    {
        let ghost kk = display_key(ps@[k as int]);
        let mut p: usize = ord.len();
        while p > 0 && key_lt(&keys[k], &keys[ord[p - 1]])
            invariant
                p <= ord@.len(),
                k < ps@.len(),
                keys@.len() == ps@.len(),
                forall|i: int| 0 <= i < ord@.len() ==> #[trigger] ord@[i] < k,
                forall|q: int| 0 <= q < ps@.len() ==> {
                    let e = #[trigger] keys@[q];
                    (e.0 as nat, e.1@, e.2 as nat, e.3@, e.4@) == display_key(ps@[q])
                },
                kk == display_key(ps@[k as int]),
                forall|q: int| p <= q < ord@.len() ==> key_before(kk, display_key(ps@[#[trigger] ord@[q] as int])),
            decreases p,
        {
            p = p - 1;
        }
        let ghost old_ord = ord@;
        proof {
            if p > 0 {
                assert(!key_before(kk, display_key(ps@[old_ord[p - 1] as int])));
            }
        }
        ord.insert(p, k);
        proof {
            assert forall|i: int| 0 <= i < ord@.len() implies #[trigger] ord@[i] < k + 1 by {
                if i < p { assert(ord@[i] == old_ord[i]); } else if i > p { assert(ord@[i] == old_ord[i - 1]); }
            }
            assert forall|i: int, j: int| 0 <= i < j < ord@.len() implies #[trigger] ord@[i] != #[trigger] ord@[j] by {
                if i < p { assert(ord@[i] == old_ord[i]); } else if i > p { assert(ord@[i] == old_ord[i - 1]); }
                if j < p { assert(ord@[j] == old_ord[j]); } else if j > p { assert(ord@[j] == old_ord[j - 1]); }
            }
            assert forall|i: int, j: int| 0 <= i < j < ord@.len() implies
                !key_before(display_key(ps@[#[trigger] ord@[j] as int]), display_key(ps@[#[trigger] ord@[i] as int]))
                && (display_key(ps@[ord@[i] as int]) == display_key(ps@[ord@[j] as int]) ==> ord@[i] < ord@[j]) by {
                if j < p {
                    assert(ord@[i] == old_ord[i] && ord@[j] == old_ord[j]);
                } else if j == p {
                    assert(ord@[i] == old_ord[i]);
                    let ki = display_key(ps@[old_ord[i] as int]);
                    let kp = display_key(ps@[old_ord[p - 1] as int]);
                    if i < p - 1 {
                        assert(!key_before(kp, ki));
                        lemma_key_not_after(ki, kp, kk);
                    }
                } else if i < p {
                    assert(ord@[i] == old_ord[i] && ord@[j] == old_ord[j - 1]);
                    if i < j - 1 {
                    } else {
                    }
                } else if i == p {
                    assert(ord@[j] == old_ord[j - 1]);
                    let kj = display_key(ps@[old_ord[j - 1] as int]);
                    assert(key_before(kk, kj));
                    lemma_key_order(kk, kj, kk);
                } else {
                    assert(ord@[i] == old_ord[i - 1] && ord@[j] == old_ord[j - 1]);
                }
            }
        }
        k = k + 1;
    }
    ord
}

// ---------------------------------------------------------------- domain toggles

pub proof fn lemma_push_contains(t: Seq<Seq<char>>, x: Seq<char>, d: Seq<char>)
    ensures
        t.push(x).contains(d) <==> (t.contains(d) || d == x),
{
    if d == x {
        assert(t.push(x)[t.len() as int] == d);
    }
    if t.push(x).contains(d) && d != x {
        let q = choose|q: int| 0 <= q < t.len() + 1 && t.push(x)[q] == d;
        assert(t[q] == d);
    }
    if t.contains(d) {
        let q = choose|q: int| 0 <= q < t.len() && t[q] == d;
        assert(t.push(x)[q] == d);
    }
}

/// The texts of `v` with every `d` removed.
pub open spec fn without(v: Seq<Seq<char>>, d: Seq<char>) -> Seq<Seq<char>>
    decreases v.len(),
{
    if v.len() == 0 {
        Seq::empty()
    } else if v.last() == d {
        without(v.drop_last(), d)
    } else {
        without(v.drop_last(), d).push(v.last())
    }
}

/// Toggle a domain on or off, cascading to its rules: turning it on checks
/// exactly its default rules; turning it off unchecks all of them. Rules of
/// other domains keep their state.
pub fn toggle_domain(ps: &[Principle], selected_domains: &mut Vec<String>, selected: &mut Vec<bool>, domain: &str)
    requires
        old(selected)@.len() == ps@.len(),
    ensures
        final(selected)@.len() == ps@.len(),
        texts(old(selected_domains)@).contains(domain@) ==> {
            &&& texts(final(selected_domains)@) == without(texts(old(selected_domains)@), domain@)
            &&& forall|i: int| 0 <= i < ps@.len() ==> #[trigger] final(selected)@[i]
                == if ps@[i].domain@ == domain@ { false } else { old(selected)@[i] }
        },
        !texts(old(selected_domains)@).contains(domain@) ==> {
            &&& texts(final(selected_domains)@) == texts(old(selected_domains)@).push(domain@)
            &&& forall|i: int| 0 <= i < ps@.len() ==> #[trigger] final(selected)@[i]
                == if ps@[i].domain@ == domain@ { ps@[i].default } else { old(selected)@[i] }
        },
{
    let ghost old_d = texts(selected_domains@);
    let mut present = false;
    let mut kept: Vec<String> = Vec::new();
    let mut i: usize = 0;
    while i < selected_domains.len()
        invariant
            i <= selected_domains@.len(),
            texts(selected_domains@) == old_d,
            present == texts(selected_domains@.take(i as int)).contains(domain@),
            texts(kept@) == without(texts(selected_domains@.take(i as int)), domain@),
        decreases selected_domains@.len() - i,
    {
        let ghost t = texts(selected_domains@.take(i as int));
        assert(texts(selected_domains@.take(i + 1)) =~= t.push(selected_domains@[i as int]@));
        proof {
            lemma_push_contains(t, selected_domains@[i as int]@, domain@);
            assert(t.push(selected_domains@[i as int]@).drop_last() =~= t);
        }
        if str_equal(selected_domains[i].as_str(), domain) {
            present = true;
        } else {
            let ghost b = kept@;
            kept.push(selected_domains[i].clone());
            assert(texts(kept@) =~= texts(b).push(selected_domains@[i as int]@));
        }
        i = i + 1;
    }
    assert(selected_domains@.take(selected_domains@.len() as int) =~= selected_domains@);
    let ghost old_sel = selected@;
    let mut j: usize = 0;
    while j < ps.len()
        invariant
            j <= ps@.len(),
            selected@.len() == ps@.len(),
            forall|q: int| j <= q < ps@.len() ==> #[trigger] selected@[q] == old_sel[q],
            forall|q: int| 0 <= q < j ==> #[trigger] selected@[q]
                == if ps@[q].domain@ == domain@ { if present { false } else { ps@[q].default } } else { old_sel[q] },
        decreases ps@.len() - j,
    {
        if str_equal(ps[j].domain.as_str(), domain) {
            let v = if present { false } else { ps[j].default };
            selected.set(j, v);
        }
        j = j + 1;
    }
    if present {
        *selected_domains = kept;
    } else {
        let ghost b = selected_domains@;
        selected_domains.push(String::from_str(domain));
        assert(texts(selected_domains@) =~= texts(b).push(domain@));
    }
}

/// The per-domain bulk actions on rule checkboxes.
pub enum Bulk {
    /// Check exactly the rules with the `default` flag.
    Defaults,
    /// Check every rule.
    All,
    /// Uncheck every rule.
    Clear,
}

/// Apply a bulk action to the rules of one domain; other rules are untouched.
pub fn bulk_select(ps: &[Principle], selected: &mut Vec<bool>, domain: &str, action: Bulk)
    requires
        old(selected)@.len() == ps@.len(),
    ensures
        final(selected)@.len() == ps@.len(),
        forall|i: int| 0 <= i < ps@.len() ==> #[trigger] final(selected)@[i] == if ps@[i].domain@ == domain@ {
            match action {
                Bulk::Defaults => ps@[i].default,
                Bulk::All => true,
                Bulk::Clear => false,
            }
        } else {
            old(selected)@[i]
        },
{
    let ghost old_sel = selected@;
    let mut j: usize = 0;
    while j < ps.len()
        invariant
            j <= ps@.len(),
            selected@.len() == ps@.len(),
            forall|q: int| j <= q < ps@.len() ==> #[trigger] selected@[q] == old_sel[q],
            forall|q: int| 0 <= q < j ==> #[trigger] selected@[q] == if ps@[q].domain@ == domain@ {
                match action {
                    Bulk::Defaults => ps@[q].default,
                    Bulk::All => true,
                    Bulk::Clear => false,
                }
            } else {
                old_sel[q]
            },
        decreases ps@.len() - j,
    {
        if str_equal(ps[j].domain.as_str(), domain) {
            let v = match action {
                Bulk::Defaults => ps[j].default,
                Bulk::All => true,
                Bulk::Clear => false,
            };
            selected.set(j, v);
        }
        j = j + 1;
    }
}

// ---------------------------------------------------------------- restore

/// No later rule shares the id of the rule at `i` (an id maps to the last
/// rule that carries it).
pub open spec fn is_last_with_id(lib: Seq<Principle>, i: int) -> bool {
    forall|j: int| i < j < lib.len() ==> #[trigger] lib[j].id@ != lib[i].id@
}

/// The value the last entry for `key` holds, if any (a map keeps the last).
pub open spec fn last_value<V>(pairs: Seq<(Seq<char>, V)>, key: Seq<char>) -> Option<V>
    decreases pairs.len(),
{
    if pairs.len() == 0 {
        None
    } else if pairs.last().0 == key {
        Some(pairs.last().1)
    } else {
        last_value(pairs.drop_last(), key)
    }
}

pub open spec fn alternatives_view(v: Seq<(String, Vec<String>)>) -> Seq<(Seq<char>, Seq<Seq<char>>)> {
    v.map_values(|e: (String, Vec<String>)| (e.0@, texts(e.1@)))
}

/// The selected ids no rule of the library carries, in order.
pub open spec fn missing_in(ids: Seq<String>, lib: Seq<Principle>) -> Seq<Seq<char>>
    decreases ids.len(),
{
    if ids.len() == 0 {
        Seq::empty()
    } else if exists|k: int| 0 <= k < lib.len() && lib[k].id@ == ids.last()@ {
        missing_in(ids.drop_last(), lib)
    } else {
        missing_in(ids.drop_last(), lib).push(ids.last()@)
    }
}

/// The domains a restored workspace starts with: those saved, or the default
/// set for a profile saved before domains were recorded, plus the custom
/// domains.
pub open spec fn restored_domain(prof: Profile, d: Seq<char>) -> bool {
    ||| (if prof.selected_domains@.len() == 0 {
        default_selected_domains().contains(d)
    } else {
        texts(prof.selected_domains@).contains(d)
    })
    ||| texts(prof.custom_domains@).contains(d)
}

/// The per-rule state a profile restores, parallel to the library.
pub struct RestoredWorkspace {
    pub selected: Vec<bool>,
    pub chosen: Vec<Option<String>>,
    pub custom_alts: Vec<Vec<String>>,
    /// The active domains, each once.
    pub selected_domains: Vec<String>,
    /// Selected ids the library no longer has, for the soft warning.
    pub missing: Vec<String>,
}

pub(crate) fn contains_text(v: &Vec<String>, x: &str) -> (r: bool)
    ensures
        r == texts(v@).contains(x@),
{
    let mut i: usize = 0;
    while i < v.len()
        invariant
            i <= v@.len(),
            forall|k: int| 0 <= k < i ==> v@[k]@ != x@,
        decreases v@.len() - i,
    {
        if str_equal(v[i].as_str(), x) {
            assert(texts(v@)[i as int] == x@);
            return true;
        }
        i = i + 1;
    }
    proof {
        if texts(v@).contains(x@) {
            let k = choose|k: int| 0 <= k < texts(v@).len() && texts(v@)[k] == x@;
            assert(v@[k]@ == x@);
        }
    }
    false
}

fn add_unique(v: &mut Vec<String>, x: &str)
    requires
        texts(old(v)@).no_duplicates(),
    ensures
        texts(final(v)@).no_duplicates(),
        forall|y: Seq<char>| #[trigger] texts(final(v)@).contains(y) <==> (texts(old(v)@).contains(y) || y == x@),
{
    if !contains_text(v, x) {
        let ghost b = texts(v@);
        v.push(String::from_str(x));
        assert(texts(v@) =~= b.push(x@));
        proof {
            assert forall|y: Seq<char>| #[trigger] texts(v@).contains(y) <==> (b.contains(y) || y == x@) by {
                lemma_push_contains(b, x@, y);
            }
        }
    }
}

fn is_last(lib: &[Principle], i: usize) -> (r: bool)
    requires
        i < lib@.len(),
    ensures
        r == is_last_with_id(lib@, i as int),
{
    let n = lib.len();
    let mut j: usize = i + 1;
    while j < n
        invariant
            i < j <= lib@.len(),
            n == lib@.len(),
            forall|q: int| i < q < j ==> #[trigger] lib@[q].id@ != lib@[i as int].id@,
        decreases lib@.len() - j,
    {
        if str_equal(lib[j].id.as_str(), lib[i].id.as_str()) {
            return false;
        }
        j = j + 1;
    }
    true
}

fn last_chosen(pairs: &Vec<(String, String)>, key: &str) -> (r: Option<String>)
    ensures
        match last_value(pairs_of(pairs@), key@) {
            Some(v) => r is Some && r->0@ == v,
            None => r is None,
        },
{
    let mut j: usize = pairs.len();
    assert(pairs_of(pairs@).take(j as int) =~= pairs_of(pairs@));
    while j > 0
        invariant
            j <= pairs@.len(),
            last_value(pairs_of(pairs@), key@) == last_value(pairs_of(pairs@).take(j as int), key@),
        decreases j,
    {
        j = j - 1;
        let ghost t = pairs_of(pairs@).take(j + 1);
        assert(t.drop_last() =~= pairs_of(pairs@).take(j as int));
        assert(t.last() == (pairs@[j as int].0@, pairs@[j as int].1@));
        if str_equal(pairs[j].0.as_str(), key) {
            return Some(pairs[j].1.clone());
        }
    }
    None
}

pub(crate) fn copy_texts(v: &Vec<String>) -> (r: Vec<String>)
    ensures
        r@ == v@,
{
    let mut out: Vec<String> = Vec::new();
    let mut i: usize = 0;
    while i < v.len()
        invariant
            i <= v@.len(),
            out@ == v@.take(i as int),
        decreases v@.len() - i,
    {
        out.push(v[i].clone());
        assert(out@ =~= v@.take(i + 1));
        i = i + 1;
    }
    assert(v@.take(v@.len() as int) =~= v@);
    out
}

fn last_alternatives(pairs: &Vec<(String, Vec<String>)>, key: &str) -> (r: Option<Vec<String>>)
    ensures
        match last_value(alternatives_view(pairs@), key@) {
            Some(v) => r is Some && texts(r->0@) == v,
            None => r is None,
        },
{
    let mut j: usize = pairs.len();
    assert(alternatives_view(pairs@).take(j as int) =~= alternatives_view(pairs@));
    while j > 0
        invariant
            j <= pairs@.len(),
            last_value(alternatives_view(pairs@), key@) == last_value(alternatives_view(pairs@).take(j as int), key@),
        decreases j,
    {
        j = j - 1;
        let ghost t = alternatives_view(pairs@).take(j + 1);
        assert(t.drop_last() =~= alternatives_view(pairs@).take(j as int));
        assert(t.last() == (pairs@[j as int].0@, texts(pairs@[j as int].1@)));
        if str_equal(pairs[j].0.as_str(), key) {
            return Some(copy_texts(&pairs[j].1));
        }
    }
    None
}

/// Restore the selection state a profile records against the current
/// library. A rule id maps to the last rule carrying it: that rule is checked
/// when the profile selected its id, and takes the profile's chosen option
/// and authored options for it. The active domains are those saved (the
/// default set for a profile that saved none) plus the custom domains.
/// Selected ids the library lacks are returned for the soft warning.
pub fn restore_workspace(library: &[Principle], prof: &Profile) -> (r: RestoredWorkspace)
    ensures
        r.selected@.len() == library@.len(),
        r.chosen@.len() == library@.len(),
        r.custom_alts@.len() == library@.len(),
        forall|i: int| 0 <= i < library@.len() ==> #[trigger] r.selected@[i]
            == (is_last_with_id(library@, i) && texts(prof.selected_ids@).contains(library@[i].id@)),
        forall|i: int| 0 <= i < library@.len() ==> {
            let c = #[trigger] r.chosen@[i];
            if is_last_with_id(library@, i) {
                match last_value(pairs_of(prof.chosen@), library@[i].id@) {
                    Some(v) => c is Some && c->0@ == v,
                    None => c is None,
                }
            } else {
                c is None
            }
        },
        forall|i: int| 0 <= i < library@.len() ==> {
            let a = texts((#[trigger] r.custom_alts@[i])@);
            if is_last_with_id(library@, i) {
                match last_value(alternatives_view(prof.custom_alternatives@), library@[i].id@) {
                    Some(v) => a == v,
                    None => a.len() == 0,
                }
            } else {
                a.len() == 0
            }
        },
        texts(r.selected_domains@).no_duplicates(),
        forall|d: Seq<char>| #[trigger] texts(r.selected_domains@).contains(d) <==> restored_domain(*prof, d),
        texts(r.missing@) == missing_in(prof.selected_ids@, library@),
{
    let mut selected: Vec<bool> = Vec::new();
    let mut chosen: Vec<Option<String>> = Vec::new();
    let mut alts: Vec<Vec<String>> = Vec::new();
    let mut i: usize = 0;
    while i < library.len()
        invariant
            i <= library@.len(),
            selected@.len() == i,
            chosen@.len() == i,
            alts@.len() == i,
            forall|k: int| 0 <= k < i ==> #[trigger] selected@[k]
                == (is_last_with_id(library@, k) && texts(prof.selected_ids@).contains(library@[k].id@)),
            forall|k: int| 0 <= k < i ==> {
                let c = #[trigger] chosen@[k];
                if is_last_with_id(library@, k) {
                    match last_value(pairs_of(prof.chosen@), library@[k].id@) {
                        Some(v) => c is Some && c->0@ == v,
                        None => c is None,
                    }
                } else {
                    c is None
                }
            },
            forall|k: int| 0 <= k < i ==> {
                let a = texts((#[trigger] alts@[k])@);
                if is_last_with_id(library@, k) {
                    match last_value(alternatives_view(prof.custom_alternatives@), library@[k].id@) {
                        Some(v) => a == v,
                        None => a.len() == 0,
                    }
                } else {
                    a.len() == 0
                }
            },
        decreases library@.len() - i,
    {
        let id = library[i].id.as_str();
        if is_last(library, i) {
            selected.push(contains_text(&prof.selected_ids, id));
            chosen.push(last_chosen(&prof.chosen, id));
            let a = match last_alternatives(&prof.custom_alternatives, id) {
                Some(v) => v,
                None => {
                    let e: Vec<String> = Vec::new();
                    assert(texts(e@) =~= Seq::<Seq<char>>::empty());
                    e
                },
            };
            alts.push(a);
        } else {
            selected.push(false);
            chosen.push(None);
            let empty: Vec<String> = Vec::new();
            assert(texts(empty@) =~= Seq::<Seq<char>>::empty());
            alts.push(empty);
        }
        i = i + 1;
    }
    // Active domains.
    let mut domains: Vec<String> = Vec::new();
    assert(texts(domains@) =~= Seq::<Seq<char>>::empty());
    if prof.selected_domains.len() == 0 {
        add_unique(&mut domains, "*");
        add_unique(&mut domains, "agentic");
        proof {
            assert forall|d: Seq<char>| #[trigger] texts(domains@).contains(d) <==> default_selected_domains().contains(d) by {
                let s = default_selected_domains();
                if s.contains(d) {
                    let k = choose|k: int| 0 <= k < s.len() && s[k] == d;
                    assert(k == 0 || k == 1);
                }
                if d == "*"@ { assert(s[0] == d); }
                if d == "agentic"@ { assert(s[1] == d); }
            }
        }
    } else {
        let mut k: usize = 0;
        while k < prof.selected_domains.len()
            invariant
                k <= prof.selected_domains@.len(),
                texts(domains@).no_duplicates(),
                forall|d: Seq<char>| #[trigger] texts(domains@).contains(d)
                    <==> texts(prof.selected_domains@.take(k as int)).contains(d),
            decreases prof.selected_domains@.len() - k,
        {
            add_unique(&mut domains, prof.selected_domains[k].as_str());
            proof {
                let t = texts(prof.selected_domains@.take(k as int));
                let x = prof.selected_domains@[k as int]@;
                assert(texts(prof.selected_domains@.take(k + 1)) =~= t.push(x));
                assert forall|d: Seq<char>| #[trigger] t.push(x).contains(d) <==> (t.contains(d) || d == x) by {
                    if d == x { assert(t.push(x)[t.len() as int] == d); }
                    if t.push(x).contains(d) && d != x {
                        let q = choose|q: int| 0 <= q < t.len() + 1 && t.push(x)[q] == d;
                        assert(t[q] == d);
                    }
                    if t.contains(d) {
                        let q = choose|q: int| 0 <= q < t.len() && t[q] == d;
                        assert(t.push(x)[q] == d);
                    }
                }
            }
            k = k + 1;
        }
        assert(prof.selected_domains@.take(prof.selected_domains@.len() as int) =~= prof.selected_domains@);
    }
    let ghost base_domains = texts(domains@);
    let mut c: usize = 0;
    while c < prof.custom_domains.len()
        invariant
            c <= prof.custom_domains@.len(),
            texts(domains@).no_duplicates(),
            forall|d: Seq<char>| #[trigger] texts(domains@).contains(d)
                <==> (base_domains.contains(d) || texts(prof.custom_domains@.take(c as int)).contains(d)),
        decreases prof.custom_domains@.len() - c,
    {
        add_unique(&mut domains, prof.custom_domains[c].as_str());
        proof {
            let t = texts(prof.custom_domains@.take(c as int));
            let x = prof.custom_domains@[c as int]@;
            assert(texts(prof.custom_domains@.take(c + 1)) =~= t.push(x));
            assert forall|d: Seq<char>| #[trigger] t.push(x).contains(d) <==> (t.contains(d) || d == x) by {
                if d == x { assert(t.push(x)[t.len() as int] == d); }
                if t.push(x).contains(d) && d != x {
                    let q = choose|q: int| 0 <= q < t.len() + 1 && t.push(x)[q] == d;
                    assert(t[q] == d);
                }
                if t.contains(d) {
                    let q = choose|q: int| 0 <= q < t.len() && t[q] == d;
                    assert(t.push(x)[q] == d);
                }
            }
        }
        c = c + 1;
    }
    assert(prof.custom_domains@.take(prof.custom_domains@.len() as int) =~= prof.custom_domains@);
    // Missing ids.
    let mut missing: Vec<String> = Vec::new();
    let mut m: usize = 0;
    while m < prof.selected_ids.len()
        invariant
            m <= prof.selected_ids@.len(),
            texts(missing@) == missing_in(prof.selected_ids@.take(m as int), library@),
        decreases prof.selected_ids@.len() - m,
    {
        let id = prof.selected_ids[m].as_str();
        let mut found = false;
        let mut q: usize = 0;
        while q < library.len()
            invariant
                q <= library@.len(),
                found == exists|z: int| 0 <= z < q && library@[z].id@ == id@,
            decreases library@.len() - q,
        {
            if str_equal(library[q].id.as_str(), id) {
                found = true;
            }
            q = q + 1;
        }
        proof {
            assert(prof.selected_ids@.take(m + 1).drop_last() =~= prof.selected_ids@.take(m as int));
            assert(prof.selected_ids@.take(m + 1).last() == prof.selected_ids@[m as int]);
        }
        if !found {
            let ghost b = texts(missing@);
            missing.push(prof.selected_ids[m].clone());
            assert(texts(missing@) =~= b.push(id@));
        }
        m = m + 1;
    }
    assert(prof.selected_ids@.take(prof.selected_ids@.len() as int) =~= prof.selected_ids@);
    RestoredWorkspace { selected, chosen, custom_alts: alts, selected_domains: domains, missing }
}

} // verus!
