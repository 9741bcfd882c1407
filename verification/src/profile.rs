//! A user's saved selection state. A profile records which canonical rules
//! were picked (by id) plus any content the user authored (rules, domains,
//! options), so updates to a canonical rule's text flow through on load.

use vstd::prelude::*;
use crate::emit::{lookup_last, CustomRule};
use crate::principle::{find_option, Opt, Principle};
use crate::text::{chars_of, str_equal, strip_range, trim};

verus! {

/// Profile schema version: 2 maps a rule id to the chosen option id (version
/// 1 mapped it to the full alternative text).
pub const PROFILE_VERSION: u32 = 2;

/// A saved selection. Maps are kept as lists of `(key, value)` pairs, one per
/// key.
#[derive(Clone, Debug, Default)]
pub struct Profile {
    pub version: u32,
    pub selected_ids: Vec<String>,
    /// Domains active at save time; empty in profiles saved before the field
    /// existed.
    pub selected_domains: Vec<String>,
    /// Rule id to chosen option id.
    pub chosen: Vec<(String, String)>,
    /// Rule id to the options the user authored for it.
    pub custom_alternatives: Vec<(String, Vec<String>)>,
    pub custom_rules: Vec<CustomRule>,
    pub custom_domains: Vec<String>,
    pub out_dir: String,
    pub repos: Vec<String>,
    /// Domain to the repositories it is routed to.
    pub domain_repos: Vec<(String, Vec<String>)>,
}

/// The selected ids absent from the library, in order.
pub open spec fn missing_from(ids: Seq<String>, lib: Seq<&str>) -> Seq<Seq<char>>
    decreases ids.len(),
{
    if ids.len() == 0 {
        Seq::empty()
    } else {
        let prev = missing_from(ids.drop_last(), lib);
        if exists|k: int| 0 <= k < lib.len() && lib[k]@ == ids.last()@ {
            prev
        } else {
            prev.push(ids.last()@)
        }
    }
}

/// Index of the first option whose directive is `text`.
pub open spec fn find_directive(opts: Seq<Opt>, text: Seq<char>) -> Option<int>
    decreases opts.len(),
{
    if opts.len() == 0 {
        None
    } else if opts[0].directive@ == text {
        Some(0)
    } else {
        match find_directive(opts.drop_first(), text) {
            Some(i) => Some(i + 1),
            None => None,
        }
    }
}

/// Index of the first option whose trimmed directive is the trimmed `text`.
pub open spec fn find_trimmed_directive(opts: Seq<Opt>, text: Seq<char>) -> Option<int>
    decreases opts.len(),
{
    if opts.len() == 0 {
        None
    } else if trim(opts[0].directive@) == trim(text) {
        Some(0)
    } else {
        match find_trimmed_directive(opts.drop_first(), text) {
            Some(i) => Some(i + 1),
            None => None,
        }
    }
}

/// The upgraded value of one `chosen` entry and whether it resolved: an
/// option id stays; directive text (exact, then trimmed) becomes the matching
/// option's id; anything else, or a rule missing from the library, is kept
/// and reported.
pub open spec fn migrated(lib: Seq<Principle>, rule_id: Seq<char>, value: Seq<char>) -> (Seq<char>, bool) {
    match lookup_last(lib, rule_id) {
        None => (value, false),
        Some(k) => {
            let opts = lib[k].options@;
            if find_option(opts, value) is Some {
                (value, true)
            } else {
                match find_directive(opts, value) {
                    Some(i) => (opts[i].id@, true),
                    None => match find_trimmed_directive(opts, value) {
                        Some(i) => (opts[i].id@, true),
                        None => (value, false),
                    },
                }
            }
        },
    }
}

/// The upgraded `chosen` list.
pub open spec fn migrated_chosen(chosen: Seq<(String, String)>, lib: Seq<Principle>) -> Seq<(Seq<char>, Seq<char>)>
    decreases chosen.len(),
{
    if chosen.len() == 0 {
        Seq::empty()
    } else {
        migrated_chosen(chosen.drop_last(), lib).push(
            (chosen.last().0@, migrated(lib, chosen.last().0@, chosen.last().1@).0),
        )
    }
}

/// The rule ids whose value could not be resolved, in order.
pub open spec fn unresolved_ids(chosen: Seq<(String, String)>, lib: Seq<Principle>) -> Seq<Seq<char>>
    decreases chosen.len(),
{
    if chosen.len() == 0 {
        Seq::empty()
    } else {
        let prev = unresolved_ids(chosen.drop_last(), lib);
        if migrated(lib, chosen.last().0@, chosen.last().1@).1 {
            prev
        } else {
            prev.push(chosen.last().0@)
        }
    }
}

/// No key occurs twice: the list is a map.
pub open spec fn keys_unique<V>(pairs: Seq<(Seq<char>, V)>) -> bool {
    forall|i: int, j: int| 0 <= i < j < pairs.len() ==> #[trigger] pairs[i].0 != #[trigger] pairs[j].0
}

/// The first position of key `k`.
pub open spec fn key_index<V>(pairs: Seq<(Seq<char>, V)>, k: Seq<char>) -> Option<int>
    decreases pairs.len(),
{
    if pairs.len() == 0 {
        None
    } else if pairs[0].0 == k {
        Some(0)
    } else {
        match key_index(pairs.drop_first(), k) {
            Some(i) => Some(i + 1),
            None => None,
        }
    }
}

/// Map insertion: replace the value of key `k`, or append the entry.
pub open spec fn put<V>(pairs: Seq<(Seq<char>, V)>, k: Seq<char>, v: V) -> Seq<(Seq<char>, V)> {
    match key_index(pairs, k) {
        Some(i) => pairs.update(i, (k, v)),
        None => pairs.push((k, v)),
    }
}

pub proof fn lemma_key_index<V>(pairs: Seq<(Seq<char>, V)>, k: Seq<char>)
    ensures
        match key_index(pairs, k) {
            Some(i) => 0 <= i < pairs.len() && pairs[i].0 == k,
            None => forall|j: int| 0 <= j < pairs.len() ==> #[trigger] pairs[j].0 != k,
        },
    decreases pairs.len(),
{
    if pairs.len() > 0 && pairs[0].0 != k {
        lemma_key_index(pairs.drop_first(), k);
        if key_index(pairs.drop_first(), k) is None {
            assert forall|j: int| 0 <= j < pairs.len() implies #[trigger] pairs[j].0 != k by {
                if j > 0 {
                    assert(pairs[j] == pairs.drop_first()[j - 1]);
                }
            }
        }
    }
}

/// Insertion keeps a map a map.
pub proof fn lemma_put_unique<V>(pairs: Seq<(Seq<char>, V)>, k: Seq<char>, v: V)
    requires
        keys_unique(pairs),
    ensures
        keys_unique(put(pairs, k, v)),
{
    lemma_key_index(pairs, k);
    let r = put(pairs, k, v);
    assert forall|i: int, j: int| 0 <= i < j < r.len() implies #[trigger] r[i].0 != #[trigger] r[j].0 by {
        match key_index(pairs, k) {
            Some(x) => {
                assert(r[i].0 == pairs[i].0 || i == x);
                assert(r[j].0 == pairs[j].0 || j == x);
                assert(r[x].0 == pairs[x].0);
            },
            None => {
                if j == pairs.len() {
                    assert(r[i] == pairs[i]);
                } else {
                    assert(r[i] == pairs[i] && r[j] == pairs[j]);
                }
            },
        }
    }
}

/// Inserting a key a map does not hold appends it.
pub proof fn lemma_put_new<V>(pairs: Seq<(Seq<char>, V)>, k: Seq<char>, v: V)
    requires
        forall|j: int| 0 <= j < pairs.len() ==> #[trigger] pairs[j].0 != k,
    ensures
        put(pairs, k, v) == pairs.push((k, v)),
    decreases pairs.len(),
{
    lemma_key_index(pairs, k);
    if key_index(pairs, k) is Some {
        let i = key_index(pairs, k)->0;
        assert(pairs[i].0 == k);
    }
}

/// Insert or replace `(k, v)` in a list of text pairs.
pub fn put_pair(map: &mut Vec<(String, String)>, k: String, v: String)
    ensures
        pairs_of(final(map)@) == put(pairs_of(old(map)@), k@, v@),
{
    proof {
        lemma_key_index(pairs_of(map@), k@);
    }
    let mut i: usize = 0;
    while i < map.len()
        invariant
            i <= map@.len(),
            map@ == old(map)@,
            forall|j: int| 0 <= j < i ==> #[trigger] map@[j].0@ != k@,
        decreases map@.len() - i,
    {
        if str_equal(map[i].0.as_str(), k.as_str()) {
            proof {
                assert forall|j: int| 0 <= j < i implies #[trigger] pairs_of(map@)[j].0 != k@ by {
                    assert(pairs_of(map@)[j].0 == map@[j].0@);
                }
                lemma_key_index_first(pairs_of(map@), k@, i as int);
            }
            let ghost b = pairs_of(map@);
            map.set(i, (k, v));
            assert(pairs_of(map@) =~= b.update(i as int, (k@, v@)));
            return;
        }
        i = i + 1;
    }
    proof {
        assert forall|j: int| 0 <= j < map@.len() implies #[trigger] pairs_of(map@)[j].0 != k@ by {
            assert(pairs_of(map@)[j].0 == map@[j].0@);
        }
        lemma_put_new(pairs_of(map@), k@, v@);
    }
    let ghost b = pairs_of(map@);
    map.push((k, v));
    assert(pairs_of(map@) =~= b.push((k@, v@)));
}

/// Insert or replace `(k, v)` in a list of text-to-texts pairs.
pub fn put_texts(map: &mut Vec<(String, Vec<String>)>, k: String, v: Vec<String>)
    ensures
        crate::cli::overrides_view(final(map)@) == put(crate::cli::overrides_view(old(map)@), k@, texts(v@)),
{
    proof {
        lemma_key_index(crate::cli::overrides_view(map@), k@);
    }
    let mut i: usize = 0;
    while i < map.len()
        invariant
            i <= map@.len(),
            map@ == old(map)@,
            forall|j: int| 0 <= j < i ==> #[trigger] map@[j].0@ != k@,
        decreases map@.len() - i,
    {
        if str_equal(map[i].0.as_str(), k.as_str()) {
            proof {
                assert forall|j: int| 0 <= j < i implies #[trigger] crate::cli::overrides_view(map@)[j].0 != k@ by {
                    assert(crate::cli::overrides_view(map@)[j].0 == map@[j].0@);
                }
                lemma_key_index_first(crate::cli::overrides_view(map@), k@, i as int);
            }
            let ghost b = crate::cli::overrides_view(map@);
            map.set(i, (k, v));
            assert(crate::cli::overrides_view(map@) =~= b.update(i as int, (k@, texts(v@))));
            return;
        }
        i = i + 1;
    }
    proof {
        assert forall|j: int| 0 <= j < map@.len() implies #[trigger] crate::cli::overrides_view(map@)[j].0 != k@ by {
            assert(crate::cli::overrides_view(map@)[j].0 == map@[j].0@);
        }
        lemma_put_new(crate::cli::overrides_view(map@), k@, texts(v@));
    }
    let ghost b = crate::cli::overrides_view(map@);
    map.push((k, v));
    assert(crate::cli::overrides_view(map@) =~= b.push((k@, texts(v@))));
}

/// `key_index` finds the first position of a key.
pub proof fn lemma_key_index_first<V>(pairs: Seq<(Seq<char>, V)>, k: Seq<char>, i: int)
    requires
        0 <= i < pairs.len(),
        pairs[i].0 == k,
        forall|j: int| 0 <= j < i ==> #[trigger] pairs[j].0 != k,
    ensures
        key_index(pairs, k) == Some(i),
    decreases i,
{
    if i > 0 {
        let t = pairs.drop_first();
        assert forall|j: int| 0 <= j < i - 1 implies #[trigger] t[j].0 != k by {
            assert(t[j] == pairs[j + 1]);
        }
        assert(t[i - 1] == pairs[i]);
        lemma_key_index_first(t, k, i - 1);
    }
}

pub open spec fn pairs_of(v: Seq<(String, String)>) -> Seq<(Seq<char>, Seq<char>)> {
    v.map_values(|p: (String, String)| (p.0@, p.1@))
}

pub open spec fn texts(v: Seq<String>) -> Seq<Seq<char>> {
    v.map_values(|s: String| s@)
}

pub proof fn lemma_find_directive_bound(opts: Seq<Opt>, text: Seq<char>)
    ensures
        find_directive(opts, text) matches Some(i) ==> 0 <= i < opts.len(),
        find_trimmed_directive(opts, text) matches Some(i) ==> 0 <= i < opts.len(),
    decreases opts.len(),
{
    if opts.len() > 0 {
        lemma_find_directive_bound(opts.drop_first(), text);
    }
}

fn directive_index(opts: &Vec<Opt>, text: &str) -> (r: Option<usize>)
    ensures
        r is None <==> find_directive(opts@, text@) is None,
        r matches Some(k) ==> find_directive(opts@, text@) == Some(k as int),
{
    let mut i: usize = 0;
    assert(opts@.skip(0) =~= opts@);
    while i < opts.len()
        invariant
            i <= opts@.len(),
            find_directive(opts@, text@) == match find_directive(opts@.skip(i as int), text@) {
                Some(j) => Some(j + i),
                None => None,
            },
        decreases opts@.len() - i,
    {
        assert(opts@.skip(i as int).drop_first() =~= opts@.skip(i + 1));
        assert(opts@.skip(i as int)[0] == opts@[i as int]);
        if str_equal(opts[i].directive.as_str(), text) {
            return Some(i);
        }
        i = i + 1;
    }
    None
}

fn trimmed_bounds(s: &str) -> (r: (Vec<char>, usize, usize))
    ensures
        r.1 <= r.2 <= r.0@.len(),
        r.0@.subrange(r.1 as int, r.2 as int) == trim(s@),
{
    let v = chars_of(s);
    let (a, b) = strip_range(&v, 0, v.len(), false);
    assert(v@.subrange(0, v@.len() as int) =~= v@);
    (v, a, b)
}

fn same_range(a: &Vec<char>, af: usize, at: usize, b: &Vec<char>, bf: usize, bt: usize) -> (r: bool)
    requires
        af <= at <= a@.len(),
        bf <= bt <= b@.len(),
    ensures
        r == (a@.subrange(af as int, at as int) == b@.subrange(bf as int, bt as int)),
{
    if at - af != bt - bf {
        assert(a@.subrange(af as int, at as int).len() != b@.subrange(bf as int, bt as int).len());
        return false;
    }
    let mut k: usize = 0;
    while k < at - af
        invariant
            af <= at <= a@.len(),
            bf <= bt <= b@.len(),
            at - af == bt - bf,
            k <= at - af,
            a@.subrange(af as int, af + k) == b@.subrange(bf as int, bf + k),
        decreases at - af - k,
    {
        if a[af + k] != b[bf + k] {
            assert(a@.subrange(af as int, at as int)[k as int] != b@.subrange(bf as int, bt as int)[k as int]);
            return false;
        }
        assert(a@.subrange(af as int, af + k + 1) =~= a@.subrange(af as int, af + k).push(a@[af + k]));
        assert(b@.subrange(bf as int, bf + k + 1) =~= b@.subrange(bf as int, bf + k).push(b@[bf + k]));
        k = k + 1;
    }
    assert(a@.subrange(af as int, at as int) =~= b@.subrange(bf as int, bt as int));
    true
}

fn trimmed_directive_index(opts: &Vec<Opt>, text: &str) -> (r: Option<usize>)
    ensures
        r is None <==> find_trimmed_directive(opts@, text@) is None,
        r matches Some(k) ==> find_trimmed_directive(opts@, text@) == Some(k as int),
{
    let (tv, ta, tb) = trimmed_bounds(text);
    let mut i: usize = 0;
    assert(opts@.skip(0) =~= opts@);
    while i < opts.len()
        invariant
            i <= opts@.len(),
            ta <= tb <= tv@.len(),
            tv@.subrange(ta as int, tb as int) == trim(text@),
            find_trimmed_directive(opts@, text@) == match find_trimmed_directive(opts@.skip(i as int), text@) {
                Some(j) => Some(j + i),
                None => None,
            },
        decreases opts@.len() - i,
    {
        assert(opts@.skip(i as int).drop_first() =~= opts@.skip(i + 1));
        assert(opts@.skip(i as int)[0] == opts@[i as int]);
        let (dv, da, db) = trimmed_bounds(opts[i].directive.as_str());
        if same_range(&dv, da, db, &tv, ta, tb) {
            return Some(i);
        }
        i = i + 1;
    }
    None
}

/// The library principle with id `id` (the last one, as a map keyed by id
/// keeps it).
fn lookup_principle<'a>(lib: &'a [Principle], id: &str) -> (r: Option<&'a Principle>)
    ensures
        match lookup_last(lib@, id@) {
            Some(k) => r is Some && *(r->0) == lib@[k],
            None => r is None,
        },
{
    proof {
        crate::emit::lemma_lookup_last(lib@, id@);
    }
    let mut i = lib.len();
    assert(lib@.take(i as int) =~= lib@);
    while i > 0
        invariant
            i <= lib@.len(),
            lookup_last(lib@, id@) == lookup_last(lib@.take(i as int), id@),
        decreases i,
    {
        assert(lib@.take(i as int).drop_last() =~= lib@.take(i - 1));
        if str_equal(lib[i - 1].id.as_str(), id) {
            return Some(&lib[i - 1]);
        }
        i = i - 1;
    }
    None
}

/// Upgrade one `chosen` value; returns the new value and whether it resolved.
fn migrate_value(lib: &[Principle], rule_id: &str, value: &String) -> (r: (String, bool))
    ensures
        (r.0@, r.1) == migrated(lib@, rule_id@, value@),
{
    match lookup_principle(lib, rule_id) {
        None => (value.clone(), false),
        Some(p) => {
            proof {
                lemma_find_directive_bound(p.options@, value@);
            }
            if p.option(value.as_str()).is_some() {
                (value.clone(), true)
            } else {
                match directive_index(&p.options, value.as_str()) {
                    Some(i) => (p.options[i].id.clone(), true),
                    None => match trimmed_directive_index(&p.options, value.as_str()) {
                        Some(i) => (p.options[i].id.clone(), true),
                        None => (value.clone(), false),
                    },
                }
            }
        },
    }
}

/// Migration keeps every key in place.
pub proof fn lemma_migrated_keys(chosen: Seq<(String, String)>, lib: Seq<Principle>)
    ensures
        migrated_chosen(chosen, lib).len() == chosen.len(),
        forall|i: int| 0 <= i < chosen.len() ==> #[trigger] migrated_chosen(chosen, lib)[i].0 == chosen[i].0@,
    decreases chosen.len(),
{
    if chosen.len() > 0 {
        lemma_migrated_keys(chosen.drop_last(), lib);
        assert forall|i: int| 0 <= i < chosen.len() implies #[trigger] migrated_chosen(chosen, lib)[i].0 == chosen[i].0@ by {
            if i < chosen.len() - 1 {
                assert(chosen.drop_last()[i] == chosen[i]);
            }
        }
    }
}

impl Profile {
    /// Each of the profile's maps holds every key once.
    pub open spec fn well_formed(&self) -> bool {
        &&& keys_unique(pairs_of(self.chosen@))
        &&& keys_unique(crate::cli::overrides_view(self.custom_alternatives@))
        &&& keys_unique(crate::cli::overrides_view(self.domain_repos@))
    }

    /// The selected ids that no longer exist in the library, in order: a soft
    /// warning when a profile meets a library that renamed or removed rules.
    pub fn missing_ids(&self, library_ids: &[&str]) -> (r: Vec<String>)
        ensures
            texts(r@) == missing_from(self.selected_ids@, library_ids@),
    {
        let mut out: Vec<String> = Vec::new();
        let mut i: usize = 0;
        while i < self.selected_ids.len()
            invariant
                i <= self.selected_ids@.len(),
                texts(out@) == missing_from(self.selected_ids@.take(i as int), library_ids@),
            decreases self.selected_ids@.len() - i,
        {
            let id = &self.selected_ids[i];
            let mut found = false;
            let mut k: usize = 0;
            while k < library_ids.len()
                invariant
                    k <= library_ids@.len(),
                    found == exists|m: int| 0 <= m < k && library_ids@[m]@ == id@,
                decreases library_ids@.len() - k,
            {
                if str_equal(library_ids[k], id.as_str()) {
                    found = true;
                }
                k = k + 1;
            }
            proof {
                assert(self.selected_ids@.take(i + 1).drop_last() =~= self.selected_ids@.take(i as int));
                assert(self.selected_ids@.take(i + 1).last() == *id);
            }
            if !found {
                let ghost before = out@;
                out.push(id.clone());
                assert(texts(out@) =~= texts(before).push(id@));
            }
            i = i + 1;
        }
        assert(self.selected_ids@.take(self.selected_ids@.len() as int) =~= self.selected_ids@);
        out
    }

    /// Best-effort upgrade of a version-1 `chosen` list (rule id to full
    /// alternative text) to rule id to option id, against the current library.
    /// A value that is already an option id stays; a value equal to an
    /// option's directive (exactly, else after trimming) becomes that
    /// option's id; anything else stays as it was, so no selection is
    /// dropped. Sets the version to 2 and returns the rule ids that could
    /// not be resolved.
    pub fn migrate_chosen_to_option_ids(&mut self, library: &[Principle]) -> (r: Vec<String>)
        ensures
            pairs_of(final(self).chosen@) == migrated_chosen(old(self).chosen@, library@),
            texts(r@) == unresolved_ids(old(self).chosen@, library@),
            final(self).version == PROFILE_VERSION,
            old(self).well_formed() ==> final(self).well_formed(),
            final(self).selected_ids == old(self).selected_ids,
            final(self).selected_domains == old(self).selected_domains,
            final(self).custom_alternatives == old(self).custom_alternatives,
            final(self).custom_rules == old(self).custom_rules,
            final(self).custom_domains == old(self).custom_domains,
            final(self).out_dir == old(self).out_dir,
            final(self).repos == old(self).repos,
            final(self).domain_repos == old(self).domain_repos,
    {
        let mut upgraded: Vec<(String, String)> = Vec::new();
        let mut unresolved: Vec<String> = Vec::new();
        let mut i: usize = 0;
        while i < self.chosen.len()
            invariant
                i <= self.chosen@.len(),
                self.chosen@ == old(self).chosen@,
                pairs_of(upgraded@) == migrated_chosen(self.chosen@.take(i as int), library@),
                texts(unresolved@) == unresolved_ids(self.chosen@.take(i as int), library@),
            decreases self.chosen@.len() - i,
        {
            let rule_id = &self.chosen[i].0;
            let (value, resolved) = migrate_value(library, rule_id.as_str(), &self.chosen[i].1);
            proof {
                assert(self.chosen@.take(i + 1).drop_last() =~= self.chosen@.take(i as int));
                assert(self.chosen@.take(i + 1).last() == self.chosen@[i as int]);
            }
            let ghost up0 = upgraded@;
            let ghost un0 = unresolved@;
            upgraded.push((rule_id.clone(), value));
            assert(pairs_of(upgraded@) =~= pairs_of(up0).push((rule_id@, migrated(library@, rule_id@, self.chosen@[i as int].1@).0)));
            if !resolved {
                unresolved.push(rule_id.clone());
                assert(texts(unresolved@) =~= texts(un0).push(rule_id@));
            }
            i = i + 1;
        }
        assert(self.chosen@.take(self.chosen@.len() as int) =~= self.chosen@);
        proof {
            lemma_migrated_keys(self.chosen@, library@);
            if keys_unique(pairs_of(self.chosen@)) {
                let m = pairs_of(upgraded@);
                assert forall|i: int, j: int| 0 <= i < j < m.len() implies #[trigger] m[i].0 != #[trigger] m[j].0 by {
                    assert(pairs_of(self.chosen@)[i].0 != pairs_of(self.chosen@)[j].0);
                }
            }
        }
        self.chosen = upgraded;
        self.version = PROFILE_VERSION;
        unresolved
    }
}

} // verus!
