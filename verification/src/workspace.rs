//! The curation workspace behind the desktop front end: the markdown-lite
//! reader for guide text, the right-pane navigation state machine, and the
//! selections, routing and profile snapshot taken from the user's choices.

use vstd::prelude::*;
use crate::cli::overrides_view;
use crate::emit::{clone_opt, copy_custom, CustomRule, Selection};
use crate::principle::Principle;
use crate::profile::{keys_unique, lemma_put_new, lemma_put_unique, put, put_pair, put_texts, texts, Profile, PROFILE_VERSION};
use crate::cli::OverridesView;
use crate::text::{
    chars_of, has_prefix, lines, push_decimal, range_has_prefix, split_nl, str_equal,
    string_of_range, strip_range, trim, decimal,
};

verus! {

/// A block of guide text.
pub enum Block {
    H1(String),
    H2(String),
    Para(String),
    List(Vec<String>),
}

/// The mathematical value of a block.
pub enum BlockView {
    H1(Seq<char>),
    H2(Seq<char>),
    Para(Seq<char>),
    List(Seq<Seq<char>>),
}

pub open spec fn texts_view(v: Seq<String>) -> Seq<Seq<char>> {
    v.map_values(|s: String| s@)
}

impl View for Block {
    type V = BlockView;

    open spec fn view(&self) -> BlockView {
        match self {
            Block::H1(s) => BlockView::H1(s@),
            Block::H2(s) => BlockView::H2(s@),
            Block::Para(s) => BlockView::Para(s@),
            Block::List(v) => BlockView::List(texts_view(v@)),
        }
    }
}

pub open spec fn blocks_view(v: Seq<Block>) -> Seq<BlockView> {
    v.map_values(|b: Block| b@)
}

/// Close an open list: it becomes a block when it has items.
pub open spec fn flush(blocks: Seq<BlockView>, list: Seq<Seq<char>>) -> Seq<BlockView> {
    if list.len() > 0 {
        blocks.push(BlockView::List(list))
    } else {
        blocks
    }
}

/// One line of markdown-lite: a blank line closes a list; `- ` adds a list
/// item; otherwise the list closes and the line is a `## ` heading, a `# `
/// heading or a paragraph. Lines are trimmed first.
pub open spec fn md_step(state: (Seq<BlockView>, Seq<Seq<char>>), raw: Seq<char>) -> (Seq<BlockView>, Seq<Seq<char>>) {
    let t = trim(raw);
    if t.len() == 0 {
        (flush(state.0, state.1), Seq::empty())
    } else if has_prefix(t, "- "@) {
        (state.0, state.1.push(t.skip(2)))
    } else {
        let b = flush(state.0, state.1);
        if has_prefix(t, "## "@) {
            (b.push(BlockView::H2(t.skip(3))), Seq::empty())
        } else if has_prefix(t, "# "@) {
            (b.push(BlockView::H1(t.skip(2))), Seq::empty())
        } else {
            (b.push(BlockView::Para(t)), Seq::empty())
        }
    }
}

pub open spec fn md_scan(ls: Seq<Seq<char>>) -> (Seq<BlockView>, Seq<Seq<char>>)
    decreases ls.len(),
{
    if ls.len() == 0 {
        (Seq::empty(), Seq::empty())
    } else {
        md_step(md_scan(ls.drop_last()), ls.last())
    }
}

/// The blocks of a markdown-lite text.
pub open spec fn md_blocks(text: Seq<char>) -> Seq<BlockView> {
    let st = md_scan(lines(text));
    flush(st.0, st.1)
}

fn flush_exec(blocks: &mut Vec<Block>, list: Vec<String>)
    ensures
        blocks_view(final(blocks)@) == flush(blocks_view(old(blocks)@), texts_view(list@)),
{
    if list.len() > 0 {
        let ghost lv = texts_view(list@);
        blocks.push(Block::List(list));
        assert(blocks_view(blocks@) =~= blocks_view(old(blocks)@).push(BlockView::List(lv)));
    }
}

fn md_line(v: &Vec<char>, from: usize, to: usize, blocks: &mut Vec<Block>, list: Vec<String>) -> (next: Vec<String>)
    requires
        from <= to <= v@.len(),
    ensures
        md_step((blocks_view(old(blocks)@), texts_view(list@)), v@.subrange(from as int, to as int))
            == (blocks_view(final(blocks)@), texts_view(next@)),
{
    let (a, b) = strip_range(v, from, to, false);
    let ghost t = v@.subrange(a as int, b as int);
    let item = chars_of("- ");
    let h2 = chars_of("## ");
    let h1 = chars_of("# ");
    assert("- "@.len() == 2) by { reveal_strlit("- "); }
    assert("## "@.len() == 3) by { reveal_strlit("## "); }
    assert("# "@.len() == 2) by { reveal_strlit("# "); }
    if a == b {
        flush_exec(blocks, list);
        let e: Vec<String> = Vec::new();
        assert(texts_view(e@) =~= Seq::<Seq<char>>::empty());
        return e;
    }
    if range_has_prefix(v, a, b, &item) {
        let mut list = list;
        let ghost l0 = texts_view(list@);
        list.push(string_of_range(v, a + 2, b));
        assert(v@.subrange(a + 2, b as int) =~= t.skip(2));
        assert(texts_view(list@) =~= l0.push(t.skip(2)));
        return list;
    }
    flush_exec(blocks, list);
    let ghost b0 = blocks_view(blocks@);
    if range_has_prefix(v, a, b, &h2) {
        blocks.push(Block::H2(string_of_range(v, a + 3, b)));
        assert(v@.subrange(a + 3, b as int) =~= t.skip(3));
    } else if range_has_prefix(v, a, b, &h1) {
        blocks.push(Block::H1(string_of_range(v, a + 2, b)));
        assert(v@.subrange(a + 2, b as int) =~= t.skip(2));
    } else {
        blocks.push(Block::Para(string_of_range(v, a, b)));
    }
    assert(blocks_view(blocks@) =~= b0.push(blocks@.last()@));
    let e: Vec<String> = Vec::new();
    assert(texts_view(e@) =~= Seq::<Seq<char>>::empty());
    e
}

/// Markdown-lite: `# ` lines are top headings, `## ` lines subheadings,
/// consecutive `- ` lines one list, blank lines separators, and anything
/// else a paragraph. Lines are trimmed.
pub fn parse_markdown_lite(text: &str) -> (r: Vec<Block>)
    ensures
        blocks_view(r@) == md_blocks(text@),
{
    let v = chars_of(text);
    let mut blocks: Vec<Block> = Vec::new();
    let mut list: Vec<String> = Vec::new();
    let mut start: usize = 0;
    let mut i: usize = 0;
    let ghost mut done: Seq<Seq<char>> = Seq::empty();
    assert(v@.take(0) =~= Seq::<char>::empty());
    assert(split_nl(v@.take(0)) =~= seq![Seq::<char>::empty()]);
    assert(blocks_view(blocks@) =~= Seq::<BlockView>::empty());
    assert(texts_view(list@) =~= Seq::<Seq<char>>::empty());
    while i < v.len()
        invariant
            start <= i <= v@.len(),
            split_nl(v@.take(i as int)) == done.push(v@.subrange(start as int, i as int)),
            md_scan(done) == (blocks_view(blocks@), texts_view(list@)),
        decreases v@.len() - i,
    {
        let ghost prev = v@.take(i as int);
        assert(v@.take(i + 1).drop_last() =~= prev);
        if v[i] == '\n' {
            list = md_line(&v, start, i, &mut blocks, list);
            proof {
                let seg = v@.subrange(start as int, i as int);
                assert(done.push(seg).drop_last() =~= done);
                assert(md_scan(done.push(seg)) == md_step(md_scan(done), seg));
                done = done.push(seg);
                assert(v@.subrange((i + 1) as int, (i + 1) as int) =~= Seq::<char>::empty());
            }
            start = i + 1;
        } else {
            proof {
                assert(v@.subrange(start as int, i + 1) =~= v@.subrange(start as int, i as int).push(v@[i as int]));
                let r = split_nl(prev);
                assert(r.update(r.len() - 1, r.last().push(v@[i as int])) =~= done.push(v@.subrange(start as int, i + 1)));
            }
        }
        i = i + 1;
    }
    assert(v@.take(v@.len() as int) =~= v@);
    if start < v.len() {
        list = md_line(&v, start, v.len(), &mut blocks, list);
        proof {
            let seg = v@.subrange(start as int, v@.len() as int);
            assert(done.push(seg).drop_last() =~= done);
            assert(lines(v@) == done.push(seg));
        }
    } else {
        proof {
            assert(done.push(v@.subrange(start as int, i as int)).drop_last() =~= done);
            assert(lines(v@) == done);
        }
    }
    flush_exec(&mut blocks, list);
    blocks
}

// ---------------------------------------------------------------- navigation

/// What the right pane is showing or editing.
pub struct PaneState {
    pub custom_name: String,
    pub custom_body: String,
    pub editing_custom_idx: Option<usize>,
    pub editing_custom_domain: Option<String>,
    pub renamed_domain_name: String,
    pub adding_custom: Option<String>,
    pub adding_domain: bool,
    pub new_domain_name: String,
    pub detail: Option<usize>,
    pub custom_form_dirty: bool,
}

/// A navigation requested while a custom-rule form was being edited.
pub enum PendingNav {
    /// View or edit the custom rule at this index.
    OpenCustomRule(usize),
    /// Show the canonical principle at this index.
    OpenCanonical(usize),
    /// Open the add-custom-rule form for this domain.
    AddCustomRule(String),
    /// Open the add-custom-domain form.
    AddCustomDomain,
    /// Open the rename form for this custom domain.
    RenameCustomDomain(String),
}

/// Resolve a deferred navigation once the user has answered the
/// save-or-discard prompt: clear every right-pane mode, then open the
/// requested target. Nothing changes when there is no pending navigation; a
/// custom-rule index out of range leaves the pane cleared.
pub fn apply_pending_nav(state: &mut PaneState, nav: Option<PendingNav>, custom_rules: &[CustomRule])
    ensures
        nav is None ==> *final(state) == *old(state),
        nav is Some ==> {
            let n = nav->0;
            &&& final(state).custom_form_dirty == false
            &&& final(state).adding_domain == (n is AddCustomDomain)
            &&& final(state).detail == (match n { PendingNav::OpenCanonical(i) => Some(i), _ => None })
            &&& final(state).adding_custom == (match n { PendingNav::AddCustomRule(d) => Some(d), _ => None })
            &&& final(state).editing_custom_domain == (match n { PendingNav::RenameCustomDomain(d) => Some(d), _ => None })
            &&& final(state).renamed_domain_name == (match n { PendingNav::RenameCustomDomain(d) => d, _ => old(state).renamed_domain_name })
            &&& (n is AddCustomDomain ==> final(state).new_domain_name@ == Seq::<char>::empty())
            &&& (!(n is AddCustomDomain) ==> final(state).new_domain_name == old(state).new_domain_name)
            &&& match n {
                PendingNav::OpenCustomRule(idx) => if idx < custom_rules@.len() {
                    &&& final(state).custom_name == custom_rules@[idx as int].name
                    &&& final(state).custom_body == custom_rules@[idx as int].body
                    &&& final(state).editing_custom_idx == Some(idx)
                } else {
                    &&& final(state).custom_name@ == Seq::<char>::empty()
                    &&& final(state).custom_body@ == Seq::<char>::empty()
                    &&& final(state).editing_custom_idx is None
                },
                _ => {
                    &&& final(state).custom_name@ == Seq::<char>::empty()
                    &&& final(state).custom_body@ == Seq::<char>::empty()
                    &&& final(state).editing_custom_idx is None
                },
            }
        },
{
    let nav = match nav {
        Some(n) => n,
        None => return,
    };
    state.custom_name = String::new();
    state.custom_body = String::new();
    state.custom_form_dirty = false;
    state.editing_custom_idx = None;
    state.editing_custom_domain = None;
    state.adding_custom = None;
    state.adding_domain = false;
    state.detail = None;
    match nav {
        PendingNav::OpenCustomRule(idx) => {
            if idx < custom_rules.len() {
                state.custom_name = custom_rules[idx].name.clone();
                state.custom_body = custom_rules[idx].body.clone();
                state.editing_custom_idx = Some(idx);
            }
        },
        PendingNav::OpenCanonical(i) => {
            state.detail = Some(i);
        },
        PendingNav::AddCustomRule(d) => {
            state.adding_custom = Some(d);
        },
        PendingNav::AddCustomDomain => {
            state.adding_domain = true;
            state.new_domain_name = String::new();
        },
        PendingNav::RenameCustomDomain(d) => {
            state.renamed_domain_name = d.clone();
            state.editing_custom_domain = Some(d);
        },
    }
}

// ---------------------------------------------------------------- generate

/// The selections for generation: each checked principle, at the option
/// chosen for it (its default when none).
pub open spec fn checked_selections<'a>(ps: Seq<&'a Principle>, selected: Seq<bool>, chosen: Seq<Option<String>>, n: int) -> Seq<Selection<'a>>
    decreases n,
{
    if n <= 0 {
        Seq::empty()
    } else {
        let prev = checked_selections(ps, selected, chosen, n - 1);
        let i = n - 1;
        if i < selected.len() && selected[i] {
            prev.push(Selection {
                principle: ps[i],
                chosen: if i < chosen.len() { chosen[i] } else { None },
                custom_directive: None,
            })
        } else {
            prev
        }
    }
}

/// The selections to generate from the workspace state: principles whose
/// `selected` flag is set (a missing flag counts as unset), each with the
/// option id recorded in `chosen` (none when missing).
pub fn generation_selections<'a>(principles: &'a [Principle], selected: &[bool], chosen: &[Option<String>]) -> (r: Vec<Selection<'a>>)
    ensures
        r@ == checked_selections(principles@.map_values(|p: Principle| &p), selected@, chosen@, principles@.len() as int),
{
    let ghost refs = principles@.map_values(|p: Principle| &p);
    let mut out: Vec<Selection<'a>> = Vec::new();
    let mut i: usize = 0;
    while i < principles.len()
        invariant
            i <= principles@.len(),
            refs == principles@.map_values(|p: Principle| &p),
            out@ == checked_selections(refs, selected@, chosen@, i as int),
        decreases principles@.len() - i,
    {
        if i < selected.len() && selected[i] {
            let c: Option<String> = if i < chosen.len() { clone_opt(&chosen[i]) } else { None };
            out.push(Selection { principle: &principles[i], chosen: c, custom_directive: None });
        }
        i = i + 1;
    }
    out
}

/// Membership of a path among the known repositories.
pub open spec fn is_repo(repos: Seq<String>, p: Seq<char>) -> bool {
    exists|k: int| 0 <= k < repos.len() && repos[k]@ == p
}

/// A domain's repositories restricted to the known ones, in order.
pub open spec fn known_repos(paths: Seq<String>, repos: Seq<String>) -> Seq<Seq<char>>
    decreases paths.len(),
{
    if paths.len() == 0 {
        Seq::empty()
    } else if is_repo(repos, paths.last()@) {
        known_repos(paths.drop_last(), repos).push(paths.last()@)
    } else {
        known_repos(paths.drop_last(), repos)
    }
}

/// Per-domain routing for generation: each domain keeps only repositories
/// that are still in the repository list, and domains left with none are
/// dropped (so they fall back to the default output).
pub open spec fn routing_of(domain_repos: Seq<(String, Vec<String>)>, repos: Seq<String>) -> Seq<(Seq<char>, Seq<Seq<char>>)>
    decreases domain_repos.len(),
{
    if domain_repos.len() == 0 {
        Seq::empty()
    } else {
        let prev = routing_of(domain_repos.drop_last(), repos);
        let e = domain_repos.last();
        let kept = known_repos(e.1@, repos);
        if kept.len() > 0 {
            prev.push((e.0@, kept))
        } else {
            prev
        }
    }
}

fn is_known_repo(repos: &[String], p: &str) -> (r: bool)
    ensures
        r == is_repo(repos@, p@),
{
    let mut k: usize = 0;
    while k < repos.len()
        invariant
            k <= repos@.len(),
            forall|m: int| 0 <= m < k ==> repos@[m]@ != p@,
        decreases repos@.len() - k,
    {
        if str_equal(repos[k].as_str(), p) {
            return true;
        }
        k = k + 1;
    }
    false
}

/// The per-domain output overrides used when generating from the workspace.
pub fn generation_overrides(repos: &[String], domain_repos: &[(String, Vec<String>)]) -> (r: Vec<(String, Vec<String>)>)
    ensures
        overrides_view(r@) == routing_of(domain_repos@, repos@),
{
    let mut out: Vec<(String, Vec<String>)> = Vec::new();
    let mut i: usize = 0;
    while i < domain_repos.len()
        invariant
            i <= domain_repos@.len(),
            overrides_view(out@) == routing_of(domain_repos@.take(i as int), repos@),
        decreases domain_repos@.len() - i,
    {
        let paths = &domain_repos[i].1;
        let mut kept: Vec<String> = Vec::new();
        let mut k: usize = 0;
        while k < paths.len()
            invariant
                k <= paths@.len(),
                texts_view(kept@) == known_repos(paths@.take(k as int), repos@),
            decreases paths@.len() - k,
        {
            assert(paths@.take(k + 1).drop_last() =~= paths@.take(k as int));
            assert(paths@.take(k + 1).last() == paths@[k as int]);
            if is_known_repo(repos, paths[k].as_str()) {
                let ghost before = texts_view(kept@);
                kept.push(paths[k].clone());
                assert(texts_view(kept@) =~= before.push(paths@[k as int]@));
            }
            k = k + 1;
        }
        assert(paths@.take(paths@.len() as int) =~= paths@);
        assert(domain_repos@.take(i + 1).drop_last() =~= domain_repos@.take(i as int));
        assert(domain_repos@.take(i + 1).last() == domain_repos@[i as int]);
        if kept.len() > 0 {
            let ghost before = overrides_view(out@);
            let ghost kv = texts_view(kept@);
            out.push((domain_repos[i].0.clone(), kept));
            assert(overrides_view(out@) =~= before.push((domain_repos@[i as int].0@, kv)));
        }
        i = i + 1;
    }
    assert(domain_repos@.take(domain_repos@.len() as int) =~= domain_repos@);
    out
}

/// The status line after generating: each target with its rule count.
pub open spec fn summary_parts(results: Seq<(String, usize)>) -> Seq<char>
    decreases results.len(),
{
    if results.len() == 0 {
        Seq::empty()
    } else {
        let e = results.last();
        let item = e.0@ + " ("@ + decimal(e.1 as nat) + " rules)"@;
        if results.len() == 1 {
            item
        } else {
            summary_parts(results.drop_last()) + "; "@ + item
        }
    }
}

/// "Generated into <dir> (<n> rules); ..." for the generated targets.
pub fn generation_summary(results: &[(String, usize)]) -> (r: String)
    ensures
        r@ == "Generated into "@ + summary_parts(results@),
{
    let mut s = String::from_str("Generated into ");
    let mut i: usize = 0;
    while i < results.len()
        invariant
            i <= results@.len(),
            s@ == "Generated into "@ + summary_parts(results@.take(i as int)),
        decreases results@.len() - i,
    {
        if i > 0 {
            s.append("; ");
        }
        s.append(results[i].0.as_str());
        s.append(" (");
        push_decimal(&mut s, results[i].1 as u64);
        s.append(" rules)");
        proof {
            let t = results@.take(i + 1);
            assert(t.drop_last() =~= results@.take(i as int));
            assert(t.last() == results@[i as int]);
            if i == 0 {
                assert(results@.take(0) =~= Seq::<(String, usize)>::empty());
            }
        }
        assert(s@ =~= "Generated into "@ + summary_parts(results@.take(i + 1)));
        i = i + 1;
    }
    assert(results@.take(results@.len() as int) =~= results@);
    s
}

// ---------------------------------------------------------------- snapshot

pub open spec fn selected_ids_of(ps: Seq<Principle>, selected: Seq<bool>, n: int) -> Seq<Seq<char>>
    decreases n,
{
    if n <= 0 {
        Seq::empty()
    } else {
        let i = n - 1;
        let prev = selected_ids_of(ps, selected, n - 1);
        if i < selected.len() && selected[i] { prev.push(ps[i].id@) } else { prev }
    }
}

pub open spec fn chosen_of(ps: Seq<Principle>, chosen: Seq<Option<String>>, n: int) -> Seq<(Seq<char>, Seq<char>)>
    decreases n,
{
    if n <= 0 {
        Seq::empty()
    } else {
        let i = n - 1;
        let prev = chosen_of(ps, chosen, n - 1);
        if i < chosen.len() && chosen[i] is Some { put(prev, ps[i].id@, chosen[i]->0@) } else { prev }
    }
}

pub open spec fn alternatives_of(ps: Seq<Principle>, alts: Seq<Vec<String>>, n: int) -> Seq<(Seq<char>, Seq<Seq<char>>)>
    decreases n,
{
    if n <= 0 {
        Seq::empty()
    } else {
        let i = n - 1;
        let prev = alternatives_of(ps, alts, n - 1);
        if i < alts.len() && alts[i]@.len() > 0 { put(prev, ps[i].id@, texts_view(alts[i]@)) } else { prev }
    }
}

/// The routing map built from a list of entries: a later entry for a domain
/// replaces an earlier one.
pub open spec fn routing_map(v: Seq<(String, Vec<String>)>) -> OverridesView
    decreases v.len(),
{
    if v.len() == 0 {
        Seq::empty()
    } else {
        put(routing_map(v.drop_last()), v.last().0@, texts_view(v.last().1@))
    }
}

/// Built from entries that are already a map, the routing map is those
/// entries.
pub proof fn lemma_routing_of_map(v: Seq<(String, Vec<String>)>)
    requires
        keys_unique(overrides_view(v)),
    ensures
        routing_map(v) == overrides_view(v),
    decreases v.len(),
{
    if v.len() > 0 {
        let t = v.drop_last();
        assert(overrides_view(t) =~= overrides_view(v).drop_last());
        lemma_routing_of_map(t);
        let k = v.last().0@;
        assert forall|j: int| 0 <= j < routing_map(t).len() implies #[trigger] routing_map(t)[j].0 != k by {
            assert(overrides_view(v)[j].0 != overrides_view(v)[v.len() - 1].0);
        }
        lemma_put_new(routing_map(t), k, texts_view(v.last().1@));
        assert(overrides_view(v) =~= overrides_view(t).push((k, texts_view(v.last().1@))));
    }
}

fn copy_texts(v: &[String]) -> (r: Vec<String>)
    ensures
        r@ == v@,
{
    let mut out: Vec<String> = Vec::new();
    let mut i: usize = 0;
    while i < v.len()
        invariant
            i <= v@.len(),
            out@ == v@.take(i as int),
        decreases v@.len() - i,
    {
        out.push(v[i].clone());
        assert(out@ =~= v@.take(i + 1));
        i = i + 1;
    }
    assert(v@.take(v@.len() as int) =~= v@);
    out
}

/// Build a profile from the workspace state: checked principle ids, chosen
/// option ids and user-authored options keyed by principle id, and the
/// custom content and routing as they stand.
pub fn snapshot_profile(
    principles: &[Principle],
    selected: &[bool],
    selected_domains: &[String],
    chosen: &[Option<String>],
    custom_alts: &[Vec<String>],
    custom_rules: &[CustomRule],
    custom_domains: &[String],
    out_dir: &str,
    repos: &[String],
    domain_repos: &[(String, Vec<String>)],
) -> (r: Profile)
    ensures
        r.version == PROFILE_VERSION,
        texts_view(r.selected_ids@) == selected_ids_of(principles@, selected@, principles@.len() as int),
        r.selected_domains@ == selected_domains@,
        crate::profile::pairs_of(r.chosen@) == chosen_of(principles@, chosen@, principles@.len() as int),
        overrides_view(r.custom_alternatives@) == alternatives_of(principles@, custom_alts@, principles@.len() as int),
        r.custom_rules@ == custom_rules@,
        r.custom_domains@ == custom_domains@,
        r.out_dir@ == out_dir@,
        r.repos@ == repos@,
        overrides_view(r.domain_repos@) == routing_map(domain_repos@),
        keys_unique(overrides_view(domain_repos@)) ==> overrides_view(r.domain_repos@) == overrides_view(domain_repos@),
        r.well_formed(),
{
    let mut ids: Vec<String> = Vec::new();
    let mut chosen_map: Vec<(String, String)> = Vec::new();
    let mut alts_map: Vec<(String, Vec<String>)> = Vec::new();
    let mut i: usize = 0;
    while i < principles.len()
        invariant
            i <= principles@.len(),
            texts_view(ids@) == selected_ids_of(principles@, selected@, i as int),
            crate::profile::pairs_of(chosen_map@) == chosen_of(principles@, chosen@, i as int),
            overrides_view(alts_map@) == alternatives_of(principles@, custom_alts@, i as int),
            keys_unique(crate::profile::pairs_of(chosen_map@)),
            keys_unique(overrides_view(alts_map@)),
        decreases principles@.len() - i,
    {
        let p = &principles[i];
        if i < selected.len() && selected[i] {
            let ghost b = texts_view(ids@);
            ids.push(p.id.clone());
            assert(texts_view(ids@) =~= b.push(p.id@));
        }
        if i < chosen.len() {
            if let Some(v) = &chosen[i] {
                proof {
                    lemma_put_unique(crate::profile::pairs_of(chosen_map@), p.id@, v@);
                }
                put_pair(&mut chosen_map, p.id.clone(), v.clone());
            }
        }
        if i < custom_alts.len() && custom_alts[i].len() > 0 {
            let copied = copy_texts(custom_alts[i].as_slice());
            assert(texts(copied@) =~= texts_view(custom_alts@[i as int]@));
            proof {
                lemma_put_unique(overrides_view(alts_map@), p.id@, texts(copied@));
            }
            put_texts(&mut alts_map, p.id.clone(), copied);
        }
        i = i + 1;
    }
    let mut rules: Vec<CustomRule> = Vec::new();
    let mut k: usize = 0;
    while k < custom_rules.len()
        invariant
            k <= custom_rules@.len(),
            rules@ == custom_rules@.take(k as int),
        decreases custom_rules@.len() - k,
    {
        rules.push(copy_custom(&custom_rules[k]));
        assert(rules@ =~= custom_rules@.take(k + 1));
        k = k + 1;
    }
    assert(custom_rules@.take(custom_rules@.len() as int) =~= custom_rules@);
    let mut routing: Vec<(String, Vec<String>)> = Vec::new();
    let mut j: usize = 0;
    while j < domain_repos.len()
        invariant
            j <= domain_repos@.len(),
            overrides_view(routing@) == routing_map(domain_repos@.take(j as int)),
            keys_unique(overrides_view(routing@)),
        decreases domain_repos@.len() - j,
    {
        let copied = copy_texts(domain_repos[j].1.as_slice());
        assert(texts(copied@) =~= texts_view(domain_repos@[j as int].1@));
        proof {
            lemma_put_unique(overrides_view(routing@), domain_repos@[j as int].0@, texts(copied@));
            assert(domain_repos@.take(j + 1).drop_last() =~= domain_repos@.take(j as int));
        }
        put_texts(&mut routing, domain_repos[j].0.clone(), copied);
        j = j + 1;
    }
    proof {
        if keys_unique(overrides_view(domain_repos@)) {
            lemma_routing_of_map(domain_repos@);
        }
    }
    assert(domain_repos@.take(domain_repos@.len() as int) =~= domain_repos@);
    Profile {
        version: PROFILE_VERSION,
        selected_ids: ids,
        selected_domains: copy_texts(selected_domains),
        chosen: chosen_map,
        custom_alternatives: alts_map,
        custom_rules: rules,
        custom_domains: copy_texts(custom_domains),
        out_dir: String::from_str(out_dir),
        repos: copy_texts(repos),
        domain_repos: routing,
    }
}

} // verus!
