//! The decisions behind `camerata init`: per-domain output routing from
//! `DOMAIN=PATH` arguments, which principles are in scope for the chosen
//! stacks, and which of them are selected.

use vstd::prelude::*;
use crate::emit::Selection;
use crate::principle::{stack_base_of, Principle};
use crate::text::{chars_of, first_index, range_first_index, str_equal, string_of_range};
use crate::{default_selected_domains, is_default_selected_domain, is_meta_domain, meta_domains};

verus! {

/// An `--out-domain` argument that is not `DOMAIN=PATH` with both parts
/// non-empty.
pub enum OutDomainError {
    Invalid(String),
}

impl OutDomainError {
    /// The message shown for the error.
    pub fn message(&self) -> (r: String)
        ensures
            match self {
                OutDomainError::Invalid(e) => r@ == "invalid --out-domain `"@ + e@ + "` (expected DOMAIN=PATH)"@,
            },
    {
        match self {
            OutDomainError::Invalid(e) => {
                let mut m = String::from_str("invalid --out-domain `");
                m.append(e.as_str());
                m.append("` (expected DOMAIN=PATH)");
                m
            },
        }
    }
}

/// `DOMAIN=PATH` split at the first '=', when both parts are non-empty.
pub open spec fn split_entry(e: Seq<char>) -> Option<(Seq<char>, Seq<char>)> {
    let i = first_index(e, '=');
    if i < e.len() && i > 0 && i + 1 < e.len() {
        Some((e.take(i as int), e.skip((i + 1) as int)))
    } else {
        None
    }
}

pub type OverridesView = Seq<(Seq<char>, Seq<Seq<char>>)>;

pub open spec fn overrides_view(v: Seq<(String, Vec<String>)>) -> OverridesView {
    v.map_values(|e: (String, Vec<String>)| (e.0@, e.1@.map_values(|s: String| s@)))
}

/// Position of domain `d` among the overrides.
pub open spec fn override_index(ov: OverridesView, d: Seq<char>) -> Option<int>
    decreases ov.len(),
{
    if ov.len() == 0 {
        None
    } else if ov.last().0 == d {
        Some(ov.len() - 1)
    } else {
        override_index(ov.drop_last(), d)
    }
}

/// Add directory `p` to domain `d`, creating the domain's entry if needed.
pub open spec fn add_override(ov: OverridesView, d: Seq<char>, p: Seq<char>) -> OverridesView {
    match override_index(ov, d) {
        Some(k) => ov.update(k, (d, ov[k].1.push(p))),
        None => ov.push((d, seq![p])),
    }
}

/// The overrides the arguments describe, or the first malformed argument.
/// Repeating a domain fans it out to several directories.
pub open spec fn overrides_of(entries: Seq<String>) -> Result<OverridesView, Seq<char>>
    decreases entries.len(),
{
    if entries.len() == 0 {
        Ok(Seq::empty())
    } else {
        match overrides_of(entries.drop_last()) {
            Err(e) => Err(e),
            Ok(ov) => match split_entry(entries.last()@) {
                Some(dp) => Ok(add_override(ov, dp.0, dp.1)),
                None => Err(entries.last()@),
            },
        }
    }
}

pub proof fn lemma_override_index(ov: OverridesView, d: Seq<char>)
    ensures
        override_index(ov, d) matches Some(k) ==> 0 <= k < ov.len() && ov[k].0 == d,
        override_index(ov, d) is None ==> forall|k: int| 0 <= k < ov.len() ==> ov[k].0 != d,
    decreases ov.len(),
{
    if ov.len() > 0 && ov.last().0 != d {
        lemma_override_index(ov.drop_last(), d);
        assert forall|k: int| 0 <= k < ov.len() - 1 implies ov[k] == ov.drop_last()[k] by {}
    }
}

fn find_override(ov: &Vec<(String, Vec<String>)>, d: &str) -> (r: Option<usize>)
    ensures
        r is None <==> override_index(overrides_view(ov@), d@) is None,
        r matches Some(k) ==> override_index(overrides_view(ov@), d@) == Some(k as int),
{
    let mut i = ov.len();
    assert(overrides_view(ov@).take(i as int) =~= overrides_view(ov@));
    while i > 0
        invariant
            i <= ov@.len(),
            override_index(overrides_view(ov@), d@) == override_index(overrides_view(ov@).take(i as int), d@),
        decreases i,
    {
        assert(overrides_view(ov@).take(i as int).drop_last() =~= overrides_view(ov@).take(i - 1));
        if str_equal(ov[i - 1].0.as_str(), d) {
            return Some(i - 1);
        }
        i = i - 1;
    }
    None
}

/// Parse `--out-domain DOMAIN=PATH` arguments into per-domain directory
/// lists (domains in first-seen order). The first argument without a
/// non-empty domain and path around its first '=' is an error.
pub fn parse_out_domains(entries: &[String]) -> (r: Result<Vec<(String, Vec<String>)>, OutDomainError>)
    ensures
        match overrides_of(entries@) {
            Ok(ov) => r is Ok && overrides_view(r->Ok_0@) == ov,
            Err(e) => r matches Err(OutDomainError::Invalid(x)) && x@ == e,
        },
{
    let mut ov: Vec<(String, Vec<String>)> = Vec::new();
    let mut i: usize = 0;
    assert(entries@.take(0) =~= Seq::<String>::empty());
    assert(overrides_view(ov@) =~= Seq::<(Seq<char>, Seq<Seq<char>>)>::empty());
    while i < entries.len()
        invariant
            i <= entries@.len(),
            overrides_of(entries@.take(i as int)) == Ok::<OverridesView, Seq<char>>(overrides_view(ov@)),
        decreases entries@.len() - i,
    {
        proof {
            assert(entries@.take(i + 1).drop_last() =~= entries@.take(i as int));
            assert(entries@.take(i + 1).last() == entries@[i as int]);
        }
        let e = &entries[i];
        let v = chars_of(e.as_str());
        let k = range_first_index(&v, 0, v.len(), '=');
        assert(v@.subrange(0, v@.len() as int) =~= v@);
        if !(k < v.len() && k > 0 && k + 1 < v.len()) {
            proof {
                lemma_overrides_err_sticks(entries@, i as int + 1, entries@[i as int]@);
            }
            return Err(OutDomainError::Invalid(e.clone()));
        }
        let d = string_of_range(&v, 0, k);
        let p = string_of_range(&v, k + 1, v.len());
        assert(d@ =~= v@.take(k as int));
        assert(p@ =~= v@.skip(k + 1));
        let ghost before = overrides_view(ov@);
        let ghost old_ov = ov@;
        assert(split_entry(e@) == Some((v@.take(k as int), v@.skip(k + 1))));
        match find_override(&ov, d.as_str()) {
            Some(j) => {
                proof {
                    lemma_override_index(before, d@);
                }
                let (dk, mut dirs) = ov.remove(j);
                let ghost old_dirs = dirs@;
                dirs.push(p);
                ov.insert(j, (dk, dirs));
                proof {
                    assert(ov@ =~= old_ov.update(j as int, (dk, dirs)));
                    assert(dk@ == d@);
                    assert(dirs@.map_values(|s: String| s@) =~= old_dirs.map_values(|s: String| s@).push(p@));
                    assert(overrides_view(ov@) =~= add_override(before, d@, v@.skip(k + 1)));
                }
            },
            None => {
                let dirs = vec![p];
                assert(dirs@.map_values(|s: String| s@) =~= seq![v@.skip(k + 1)]);
                ov.push((d, dirs));
                proof {
                    lemma_override_index(before, d@);
                    assert(overrides_view(ov@) =~= add_override(before, v@.take(k as int), v@.skip(k + 1)));
                }
            },
        }
        i = i + 1;
    }
    assert(entries@.take(entries@.len() as int) =~= entries@);
    Ok(ov)
}

/// Once an argument is malformed, the whole parse reports the first one.
proof fn lemma_overrides_err_sticks(entries: Seq<String>, n: int, e: Seq<char>)
    requires
        1 <= n <= entries.len(),
        overrides_of(entries.take(n - 1)) is Ok,
        split_entry(entries[n - 1]@) is None,
        e == entries[n - 1]@,
    ensures
        overrides_of(entries) == Err::<OverridesView, Seq<char>>(e),
    decreases entries.len() - n,
{
    assert(entries.take(n).drop_last() =~= entries.take(n - 1));
    if n == entries.len() {
        assert(entries.take(n) =~= entries);
    } else {
        lemma_overrides_err_prefix(entries, n, e);
    }
}

proof fn lemma_overrides_err_prefix(entries: Seq<String>, n: int, e: Seq<char>)
    requires
        1 <= n <= entries.len(),
        overrides_of(entries.take(n)) == Err::<OverridesView, Seq<char>>(e),
    ensures
        overrides_of(entries) == Err::<OverridesView, Seq<char>>(e),
    decreases entries.len() - n,
{
    if n < entries.len() {
        assert(entries.take(n + 1).drop_last() =~= entries.take(n));
        lemma_overrides_err_prefix(entries, n + 1, e);
    } else {
        assert(entries.take(n) =~= entries);
    }
}

/// Whether a principle is in scope for the given domains: never for the
/// meta-documentation domains, always for the default-selected ones, and
/// otherwise when a listed domain equals its domain or its stack base.
pub open spec fn in_scope_spec(p: Principle, user_domains: Seq<String>) -> bool {
    if meta_domains().contains(p.domain@) {
        false
    } else if default_selected_domains().contains(p.domain@) {
        true
    } else {
        let base = match stack_base_of(p.domain@) {
            Some(b) => b,
            None => p.domain@,
        };
        exists|k: int| 0 <= k < user_domains.len() && (user_domains[k]@ == p.domain@ || user_domains[k]@ == base)
    }
}

/// A principle is in scope when its domain is default-selected (Universal or
/// Agentic) or the user listed it (exactly, or by stack base for nested
/// domains like `rust:seaorm`). Meta-documentation is never in scope.
pub fn in_scope(p: &Principle, user_domains: &[String]) -> (r: bool)
    ensures
        r == in_scope_spec(*p, user_domains@),
{
    let d = p.domain.as_str();
    if is_meta_domain(d) {
        return false;
    }
    if is_default_selected_domain(d) {
        return true;
    }
    let base: &str = match p.stack_base() {
        Some(b) => b,
        None => d,
    };
    assert(base@ == match stack_base_of(p.domain@) { Some(b) => b, None => p.domain@ });
    let mut k: usize = 0;
    while k < user_domains.len()
        invariant
            k <= user_domains@.len(),
            d@ == p.domain@,
            !meta_domains().contains(p.domain@),
            !default_selected_domains().contains(p.domain@),
            base@ == match stack_base_of(p.domain@) { Some(b) => b, None => p.domain@ },
            forall|m: int| 0 <= m < k ==> !(user_domains@[m]@ == p.domain@ || user_domains@[m]@ == base@),
        decreases user_domains@.len() - k,
    {
        let u = &user_domains[k];
        assert(u@ == user_domains@[k as int]@);
        if str_equal(u.as_str(), d) || str_equal(u.as_str(), base) {
            return true;
        }
        k = k + 1;
    }
    false
}

/// Whether `camerata init` selects a principle: in scope, marked default
/// (or `--all`), and not universal under `--minimal`.
pub open spec fn init_keeps(p: Principle, stacks: Seq<String>, include_all: bool, minimal: bool) -> bool {
    &&& in_scope_spec(p, stacks)
    &&& (p.default || include_all)
    &&& !(minimal && p.domain@ == "*"@)
}

/// The principles `camerata init` selects, in library order.
pub open spec fn init_kept(ps: Seq<Principle>, stacks: Seq<String>, include_all: bool, minimal: bool) -> Seq<Principle>
    decreases ps.len(),
{
    if ps.len() == 0 {
        Seq::empty()
    } else if init_keeps(ps.last(), stacks, include_all, minimal) {
        init_kept(ps.drop_last(), stacks, include_all, minimal).push(ps.last())
    } else {
        init_kept(ps.drop_last(), stacks, include_all, minimal)
    }
}

/// The selections of `camerata init`, each at its default option.
pub fn init_selections<'a>(principles: &'a [Principle], stacks: &[String], include_all: bool, minimal: bool) -> (r: Vec<Selection<'a>>)
    ensures
        r@.len() == init_kept(principles@, stacks@, include_all, minimal).len(),
        forall|i: int| 0 <= i < r@.len() ==> {
            &&& *(#[trigger] r@[i]).principle == init_kept(principles@, stacks@, include_all, minimal)[i]
            &&& r@[i].chosen is None
            &&& r@[i].custom_directive is None
        },
{
    let mut out: Vec<Selection<'a>> = Vec::new();
    let mut i: usize = 0;
    while i < principles.len()
        invariant
            i <= principles@.len(),
            out@.len() == init_kept(principles@.take(i as int), stacks@, include_all, minimal).len(),
            forall|k: int| 0 <= k < out@.len() ==> {
                &&& *(#[trigger] out@[k]).principle == init_kept(principles@.take(i as int), stacks@, include_all, minimal)[k]
                &&& out@[k].chosen is None
                &&& out@[k].custom_directive is None
            },
        decreases principles@.len() - i,
    {
        let p = &principles[i];
        proof {
            assert(principles@.take(i + 1).drop_last() =~= principles@.take(i as int));
            assert(principles@.take(i + 1).last() == principles@[i as int]);
        }
        if in_scope(p, stacks) && (p.default || include_all) && !(minimal && str_equal(p.domain.as_str(), "*")) {
            out.push(Selection::new(p));
        }
        i = i + 1;
    }
    assert(principles@.take(principles@.len() as int) =~= principles@);
    out
}

} // verus!
