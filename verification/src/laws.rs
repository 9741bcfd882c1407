//! Properties that hold across the library's operations.

use vstd::prelude::*;
use crate::emit::{
    custom_block, custom_installed, custom_skipped, ordered_installed, principle_writes, str_writes,
    default_hash_text, default_target_of, drift_list, filename_for, hash_text, is_emission_order,
    lock_entries, lock_entry, lock_scan, lock_step, lock_text, lookup_last, lemma_lookup_last,
    pairs_view, parsed_lock, plan_matches, resolved_directive, CustomRule, DriftView, ScaffoldPlan,
    Selection, LOCK_HEADER,
};
use crate::principle::{
    default_option_index, find_option, layer_rank, lemma_find_option, Enforcement, Principle,
};
use crate::profile::{migrated, migrated_chosen, pairs_of, unresolved_ids};
use crate::text::{digit_char, hex_fixed};
use crate::text::{
    has_prefix, is_ws, lead_count, lines, split_nl, split_on, strip_both, trail_count, trim,
    trim_quotes, lemma_split_on_nonempty,
};

verus! {

/// `split_nl` of a text that ends in a newline, followed by more text.
proof fn lemma_split_concat(a: Seq<char>, b: Seq<char>)
    requires
        a.len() > 0,
        a.last() == '\n',
    ensures
        split_nl(a + b) == split_nl(a).drop_last() + split_nl(b),
    decreases b.len(),
{
    lemma_split_on_nonempty(a, '\n');
    if b.len() == 0 {
        assert(a + b =~= a);
        assert(a.drop_last() + seq!['\n'] =~= a);
        assert(split_nl(a).last() =~= Seq::<char>::empty()) by {
            assert(a.drop_last() =~= (a + b).drop_last());
        }
        assert(split_nl(a).drop_last() + split_nl(b) =~= split_nl(a));
    } else {
        let b1 = b.drop_last();
        let c = b.last();
        lemma_split_concat(a, b1);
        lemma_split_on_nonempty(b1, '\n');
        assert((a + b).drop_last() =~= a + b1);
        assert((a + b).last() == c);
        let x = split_nl(a).drop_last();
        let y = split_nl(b1);
        if c == '\n' {
            assert((x + y).push(Seq::<char>::empty()) =~= x + y.push(Seq::<char>::empty()));
        } else {
            let xy = x + y;
            assert(xy.update(xy.len() - 1, xy.last().push(c)) =~= x + y.update(y.len() - 1, y.last().push(c)));
        }
    }
}

/// A text without newlines is a single piece.
proof fn lemma_split_no_newline(s: Seq<char>)
    requires
        forall|i: int| 0 <= i < s.len() ==> s[i] != '\n',
    ensures
        split_nl(s) == seq![s],
    decreases s.len(),
{
    if s.len() > 0 {
        let t = s.drop_last();
        assert forall|i: int| 0 <= i < t.len() implies t[i] != '\n' by {
            assert(t[i] == s[i]);
        }
        lemma_split_no_newline(t);
        assert(t.push(s.last()) =~= s);
        assert(seq![t].update(0, t.push(s.last())) =~= seq![s]);
    } else {
        assert(s =~= Seq::<char>::empty());
    }
}

/// A line without newlines followed by a newline splits into the line and
/// an empty piece.
proof fn lemma_split_line(s: Seq<char>)
    requires
        forall|i: int| 0 <= i < s.len() ==> s[i] != '\n',
    ensures
        split_nl(s + seq!['\n']) == seq![s, Seq::<char>::empty()],
{
    lemma_split_no_newline(s);
    let t = s + seq!['\n'];
    assert(t.drop_last() =~= s);
    assert(seq![s].push(Seq::<char>::empty()) =~= seq![s, Seq::<char>::empty()]);
}

/// Reading state after the lines `ls`, starting from `st`.
pub open spec fn lock_scan_from(
    st: (Option<Seq<char>>, Seq<(Seq<char>, Seq<char>)>),
    ls: Seq<Seq<char>>,
) -> (Option<Seq<char>>, Seq<(Seq<char>, Seq<char>)>)
    decreases ls.len(),
{
    if ls.len() == 0 {
        st
    } else {
        lock_step(lock_scan_from(st, ls.drop_last()), ls.last())
    }
}

proof fn lemma_scan_from_empty(ls: Seq<Seq<char>>)
    ensures
        lock_scan(ls) == lock_scan_from((None, Seq::empty()), ls),
    decreases ls.len(),
{
    if ls.len() > 0 {
        lemma_scan_from_empty(ls.drop_last());
    }
}

proof fn lemma_scan_concat(
    st: (Option<Seq<char>>, Seq<(Seq<char>, Seq<char>)>),
    a: Seq<Seq<char>>,
    b: Seq<Seq<char>>,
)
    ensures
        lock_scan_from(st, a + b) == lock_scan_from(lock_scan_from(st, a), b),
    decreases b.len(),
{
    if b.len() == 0 {
        assert(a + b =~= a);
    } else {
        assert((a + b).drop_last() =~= a + b.drop_last());
        assert((a + b).last() == b.last());
        lemma_scan_concat(st, a, b.drop_last());
    }
}

/// A string whose first and last characters are not whitespace is its own
/// trim.
proof fn lemma_trim_fixed(s: Seq<char>)
    requires
        s.len() > 0,
        !is_ws(s[0]),
        !is_ws(s.last()),
    ensures
        trim(s) == s,
{
    assert(lead_count(s, false) == 0);
    assert(s.skip(0) =~= s);
    assert(trail_count(s, false) == 0);
    assert(s.take(s.len() as int) =~= s);
}

/// A text on one line.
pub open spec fn no_newline(x: Seq<char>) -> bool {
    forall|i: int| 0 <= i < x.len() ==> x[i] != '\n'
}

/// What a lockfile reader makes of a value written between double quotes:
/// the quotes at both ends stripped.
pub open spec fn read_value(x: Seq<char>) -> Seq<char> {
    trim_quotes(seq!['"'] + x + seq!['"'])
}

/// What a lockfile reader makes of each written entry.
pub open spec fn read_entries(inst: Seq<(Seq<char>, Seq<char>)>) -> Seq<(Seq<char>, Seq<char>)> {
    inst.map_values(|e: (Seq<char>, Seq<char>)| (read_value(e.0), read_value(e.1)))
}

pub open spec fn all_no_newline(inst: Seq<(Seq<char>, Seq<char>)>) -> bool {
    forall|i: int| 0 <= i < inst.len() ==> no_newline(#[trigger] inst[i].0) && no_newline(inst[i].1)
}

/// A value that a lockfile line carries unchanged: no newline, and no
/// double quote at either end.
pub open spec fn lock_safe(x: Seq<char>) -> bool {
    &&& forall|i: int| 0 <= i < x.len() ==> x[i] != '\n'
    &&& (x.len() > 0 ==> x[0] != '"' && x.last() != '"')
}

proof fn lemma_unquote(x: Seq<char>)
    requires
        lock_safe(x),
    ensures
        trim_quotes(seq!['"'] + x + seq!['"']) == x,
{
    let s = seq!['"'] + x + seq!['"'];
    if x.len() == 0 {
        assert(s =~= seq!['"', '"']);
        assert(lead_count(s, true) == 1 + lead_count(s.drop_first(), true));
        assert(s.drop_first() =~= seq!['"']);
        assert(lead_count(seq!['"'], true) == 1 + lead_count(seq!['"'].drop_first(), true));
        assert(lead_count(seq!['"'].drop_first(), true) == 0);
        assert(s.skip(2) =~= Seq::<char>::empty());
        assert(trail_count(Seq::<char>::empty(), true) == 0);
        assert(Seq::<char>::empty().take(0) =~= x);
    } else {
        assert(s[0] == '"');
        assert(s.drop_first()[0] == x[0]);
        assert(lead_count(s.drop_first(), true) == 0);
        assert(lead_count(s, true) == 1);
        let t = s.skip(1);
        assert(t =~= x + seq!['"']);
        assert(t.last() == '"');
        assert(t.drop_last() =~= x);
        assert(trail_count(x, true) == 0);
        assert(trail_count(t, true) == 1);
        assert(t.take(t.len() - 1) =~= x);
    }
}

pub open spec fn id_line(x: Seq<char>) -> Seq<char> {
    "id = \""@ + x + "\""@
}

pub open spec fn hash_line(h: Seq<char>) -> Seq<char> {
    "hash = \""@ + h + "\""@
}

/// The lines of one lockfile entry.
proof fn lemma_entry_lines(x: Seq<char>, h: Seq<char>)
    requires
        no_newline(x),
        no_newline(h),
    ensures
        split_nl(lock_entry(x, h)) == seq!["[[installed]]"@, id_line(x), hash_line(h), Seq::<char>::empty(), Seq::<char>::empty()],
{
    reveal_strlit("[[installed]]\nid = \"");
    reveal_strlit("\"\nhash = \"");
    reveal_strlit("\"\n\n");
    reveal_strlit("[[installed]]");
    reveal_strlit("id = \"");
    reveal_strlit("\"");
    reveal_strlit("hash = \"");
    let l1 = "[[installed]]"@;
    let l2 = id_line(x);
    let l3 = hash_line(h);
    let a1 = l1 + seq!['\n'];
    let a2 = l2 + seq!['\n'];
    let a3 = l3 + seq!['\n'];
    let a4 = seq!['\n'];
    assert(lock_entry(x, h) =~= a1 + (a2 + (a3 + a4)));
    assert forall|i: int| 0 <= i < l1.len() implies l1[i] != '\n' by {}
    assert forall|i: int| 0 <= i < l2.len() implies l2[i] != '\n' by {
        if 6 <= i < 6 + x.len() {
            assert(l2[i] == x[i - 6]);
        }
    }
    assert forall|i: int| 0 <= i < l3.len() implies l3[i] != '\n' by {
        if 8 <= i < 8 + h.len() {
            assert(l3[i] == h[i - 8]);
        }
    }
    lemma_split_line(l1);
    lemma_split_line(l2);
    lemma_split_line(l3);
    lemma_split_line(Seq::<char>::empty());
    assert(Seq::<char>::empty() + seq!['\n'] =~= a4);
    lemma_split_concat(a3, a4);
    lemma_split_concat(a2, a3 + a4);
    assert((a2 + (a3 + a4)).last() == '\n');
    lemma_split_concat(a1, a2 + (a3 + a4));
    assert(split_nl(a1 + (a2 + (a3 + a4))) =~= seq![l1, l2, l3, Seq::<char>::empty(), Seq::<char>::empty()]);
}

/// Reading one entry's lines adds its pair.
proof fn lemma_entry_scan(
    st: (Option<Seq<char>>, Seq<(Seq<char>, Seq<char>)>),
    x: Seq<char>,
    h: Seq<char>,
)
    requires
        no_newline(x),
        no_newline(h),
    ensures
        st.0 is None ==> lock_scan_from(st, seq!["[[installed]]"@, id_line(x), hash_line(h), Seq::<char>::empty()])
            == (None::<Seq<char>>, st.1.push((read_value(x), read_value(h)))),
{
    reveal_strlit("[[installed]]");
    reveal_strlit("id = \"");
    reveal_strlit("\"");
    reveal_strlit("hash = \"");
    reveal_strlit("id = ");
    reveal_strlit("hash = ");
    let l1 = "[[installed]]"@;
    let l2 = id_line(x);
    let l3 = hash_line(h);
    let e = Seq::<char>::empty();
    let ls = seq![l1, l2, l3, e];
    // line 1: no prefix matches
    lemma_trim_fixed(l1);
    assert(!has_prefix(l1, "id = "@)) by { assert(l1.take(5)[0] != "id = "@[0]); }
    assert(!has_prefix(l1, "hash = "@)) by { assert(l1.take(7)[0] != "hash = "@[0]); }
    // line 2: an id line
    lemma_trim_fixed(l2);
    assert(has_prefix(l2, "id = "@)) by { assert(l2.take(5) =~= "id = "@); }
    let rest2 = l2.skip(5);
    assert(rest2 =~= seq!['"'] + x + seq!['"']);
    lemma_trim_fixed(rest2);
    // line 3: a hash line, not an id line
    lemma_trim_fixed(l3);
    assert(!has_prefix(l3, "id = "@)) by { assert(l3.take(5)[0] != "id = "@[0]); }
    assert(has_prefix(l3, "hash = "@)) by { assert(l3.take(7) =~= "hash = "@); }
    let rest3 = l3.skip(7);
    assert(rest3 =~= seq!['"'] + h + seq!['"']);
    lemma_trim_fixed(rest3);
    // line 4: blank
    assert(lead_count(e, false) == 0);
    assert(e.skip(0) =~= e);
    assert(trim(e) =~= e);
    assert(ls.drop_last() =~= seq![l1, l2, l3]);
    assert(seq![l1, l2, l3].drop_last() =~= seq![l1, l2]);
    assert(seq![l1, l2].drop_last() =~= seq![l1]);
    assert(seq![l1].drop_last() =~= Seq::<Seq<char>>::empty());
    if st.0 is None {
        let s1 = lock_step(st, l1);
        assert(s1 == st);
        let s2 = lock_step(s1, l2);
        assert(s2 == (Some(read_value(x)), st.1));
        let s3 = lock_step(s2, l3);
        assert(s3 == (None::<Seq<char>>, st.1.push((read_value(x), read_value(h)))));
        let s4 = lock_step(s3, e);
        assert(s4 == s3);
        assert(lock_scan_from(st, Seq::<Seq<char>>::empty()) == st);
        assert(seq![l1].last() == l1);
        assert(lock_scan_from(st, seq![l1]) == lock_step(lock_scan_from(st, seq![l1].drop_last()), l1));
        assert(lock_scan_from(st, seq![l1]) == s1);
        assert(seq![l1, l2].last() == l2);
        assert(seq![l1, l2, l3].last() == l3);
        assert(lock_scan_from(st, seq![l1, l2]) == s2);
        assert(lock_scan_from(st, seq![l1, l2, l3]) == s3);
    }
}

/// The lines of the lockfile header.
pub open spec fn header_lines() -> Seq<Seq<char>> {
    seq![
        "# camerata.lock \u{2014} generated. Records installed principles + content hashes."@,
        "# Do not edit by hand; used to detect upstream updates (`camerata outdated`)."@,
        Seq::<char>::empty(),
    ]
}

/// The lines of a lockfile's entries.
pub open spec fn entry_lines(inst: Seq<(Seq<char>, Seq<char>)>) -> Seq<Seq<char>>
    decreases inst.len(),
{
    if inst.len() == 0 {
        Seq::empty()
    } else {
        entry_lines(inst.drop_last()) + seq!["[[installed]]"@, id_line(inst.last().0), hash_line(inst.last().1), Seq::<char>::empty()]
    }
}

/// Reading the lockfile header leaves the reading state unchanged.
proof fn lemma_header_scan()
    ensures
        split_nl(LOCK_HEADER@) == header_lines().push(Seq::<char>::empty()),
        LOCK_HEADER@.len() > 0,
        LOCK_HEADER@.last() == '\n',
        lock_scan(header_lines()) == (None::<Seq<char>>, Seq::<(Seq<char>, Seq<char>)>::empty()),
{
    reveal_strlit("# camerata.lock \u{2014} generated. Records installed principles + content hashes.\n# Do not edit by hand; used to detect upstream updates (`camerata outdated`).\n\n");
    reveal_strlit("# camerata.lock \u{2014} generated. Records installed principles + content hashes.");
    reveal_strlit("# Do not edit by hand; used to detect upstream updates (`camerata outdated`).");
    reveal_strlit("id = ");
    reveal_strlit("hash = ");
    let h1 = "# camerata.lock \u{2014} generated. Records installed principles + content hashes."@;
    let h2 = "# Do not edit by hand; used to detect upstream updates (`camerata outdated`)."@;
    let e = Seq::<char>::empty();
    assert(LOCK_HEADER@ =~= (h1 + seq!['\n']) + ((h2 + seq!['\n']) + (e + seq!['\n'])));
    assert forall|i: int| 0 <= i < h1.len() implies h1[i] != '\n' by {}
    assert forall|i: int| 0 <= i < h2.len() implies h2[i] != '\n' by {}
    lemma_split_line(h1);
    lemma_split_line(h2);
    lemma_split_line(e);
    lemma_split_concat(h2 + seq!['\n'], e + seq!['\n']);
    lemma_split_concat(h1 + seq!['\n'], (h2 + seq!['\n']) + (e + seq!['\n']));
    assert(split_nl(LOCK_HEADER@) =~= seq![h1, h2, e, e]);
    lemma_trim_fixed(h1);
    lemma_trim_fixed(h2);
    assert(!has_prefix(h1, "id = "@)) by { assert(h1.take(5)[0] != "id = "@[0]); }
    assert(!has_prefix(h1, "hash = "@)) by { assert(h1.take(7)[0] != "hash = "@[0]); }
    assert(!has_prefix(h2, "id = "@)) by { assert(h2.take(5)[0] != "id = "@[0]); }
    assert(!has_prefix(h2, "hash = "@)) by { assert(h2.take(7)[0] != "hash = "@[0]); }
    assert(lead_count(e, false) == 0);
    assert(e.skip(0) =~= e);
    assert(trim(e) =~= e);
    let ls = seq![h1, h2, e];
    assert(seq![h1, h2, e, e].drop_last() =~= ls);
    assert(ls.drop_last() =~= seq![h1, h2]);
    assert(seq![h1, h2].drop_last() =~= seq![h1]);
    assert(seq![h1].drop_last() =~= Seq::<Seq<char>>::empty());
    let st0 = (None::<Seq<char>>, Seq::<(Seq<char>, Seq<char>)>::empty());
    assert(lock_scan(Seq::<Seq<char>>::empty()) == st0);
    assert(lock_step(st0, h1) == st0);
    assert(lock_scan(seq![h1]) == st0);
    assert(lock_step(st0, h2) == st0);
    assert(lock_scan(seq![h1, h2]) == st0);
    assert(lock_step(st0, e) == st0);
    assert(header_lines() =~= ls);
    assert(seq![h1, h2, e, e] =~= ls.push(e));
}

pub open spec fn all_lock_safe(inst: Seq<(Seq<char>, Seq<char>)>) -> bool {
    forall|i: int| 0 <= i < inst.len() ==> lock_safe(#[trigger] inst[i].0) && lock_safe(inst[i].1)
}

proof fn lemma_lock_text_split(inst: Seq<(Seq<char>, Seq<char>)>)
    requires
        all_no_newline(inst),
    ensures
        split_nl(lock_text(inst)) == header_lines() + entry_lines(inst) + seq![Seq::<char>::empty()],
        lock_text(inst).len() > 0,
        lock_text(inst).last() == '\n',
    decreases inst.len(),
{
    lemma_header_scan();
    if inst.len() == 0 {
        assert(lock_text(inst) =~= LOCK_HEADER@);
        assert(header_lines() + entry_lines(inst) + seq![Seq::<char>::empty()] =~= header_lines().push(Seq::<char>::empty()));
    } else {
        let pre = inst.drop_last();
        assert forall|i: int| 0 <= i < pre.len() implies no_newline(#[trigger] pre[i].0) && no_newline(pre[i].1) by {
            assert(pre[i] == inst[i]);
        }
        lemma_lock_text_split(pre);
        let x = inst.last().0;
        let h = inst.last().1;
        assert(no_newline(x) && no_newline(h)) by {
            assert(inst.last() == inst[inst.len() - 1]);
        }
        lemma_entry_lines(x, h);
        assert(lock_text(inst) =~= lock_text(pre) + lock_entry(x, h));
        lemma_split_concat(lock_text(pre), lock_entry(x, h));
        let e = Seq::<char>::empty();
        assert((header_lines() + entry_lines(pre) + seq![e]).drop_last() =~= header_lines() + entry_lines(pre));
        assert(header_lines() + entry_lines(pre) + seq!["[[installed]]"@, id_line(x), hash_line(h), e, e]
            =~= header_lines() + entry_lines(inst) + seq![e]);
        reveal_strlit("\"\n\n");
        assert(lock_entry(x, h).last() == '\n');
        assert(lock_text(inst).last() == lock_entry(x, h).last());
    }
}

proof fn lemma_entries_scan(inst: Seq<(Seq<char>, Seq<char>)>)
    requires
        all_no_newline(inst),
    ensures
        lock_scan_from((None::<Seq<char>>, Seq::<(Seq<char>, Seq<char>)>::empty()), entry_lines(inst)) == (None::<Seq<char>>, read_entries(inst)),
    decreases inst.len(),
{
    let st0 = (None::<Seq<char>>, Seq::<(Seq<char>, Seq<char>)>::empty());
    if inst.len() == 0 {
        assert(read_entries(inst) =~= Seq::<(Seq<char>, Seq<char>)>::empty());
    } else {
        let pre = inst.drop_last();
        assert forall|i: int| 0 <= i < pre.len() implies no_newline(#[trigger] pre[i].0) && no_newline(pre[i].1) by {
            assert(pre[i] == inst[i]);
        }
        lemma_entries_scan(pre);
        let x = inst.last().0;
        let h = inst.last().1;
        assert(no_newline(x) && no_newline(h)) by {
            assert(inst.last() == inst[inst.len() - 1]);
        }
        let four = seq!["[[installed]]"@, id_line(x), hash_line(h), Seq::<char>::empty()];
        lemma_scan_concat(st0, entry_lines(pre), four);
        lemma_entry_scan((None::<Seq<char>>, read_entries(pre)), x, h);
        assert(read_entries(pre).push((read_value(x), read_value(h))) =~= read_entries(inst));
    }
}

/// Values without a newline or a quote at either end read back unchanged.
proof fn lemma_read_entries_safe(inst: Seq<(Seq<char>, Seq<char>)>)
    requires
        all_lock_safe(inst),
    ensures
        all_no_newline(inst),
        read_entries(inst) == inst,
{
    assert forall|i: int| 0 <= i < inst.len() implies no_newline(#[trigger] inst[i].0) && no_newline(inst[i].1) by {
        let x = inst[i].0;
        assert(lock_safe(x) && lock_safe(inst[i].1));
        assert forall|k: int| 0 <= k < x.len() implies x[k] != '\n' by {}
    }
    assert forall|i: int| 0 <= i < inst.len() implies #[trigger] read_entries(inst)[i] == inst[i] by {
        let x = inst[i].0;
        assert(lock_safe(x) && lock_safe(inst[i].1));
        lemma_unquote(inst[i].0);
        lemma_unquote(inst[i].1);
    }
    assert(read_entries(inst) =~= inst);
}

/// Reading back a lockfile gives what a reader makes of each entry written,
/// in order, whatever the values hold besides newlines.
proof fn lemma_lock_reads_back(inst: Seq<(Seq<char>, Seq<char>)>)
    requires
        all_no_newline(inst),
    ensures
        parsed_lock(lock_text(inst)) == read_entries(inst),
{
    lemma_lock_text_split(inst);
    lemma_header_scan();
    let e = Seq::<char>::empty();
    let all = header_lines() + entry_lines(inst);
    assert((all + seq![e]).last() == e);
    assert((all + seq![e]).drop_last() =~= all);
    assert(lines(lock_text(inst)) == all);
    let st0 = (None::<Seq<char>>, Seq::<(Seq<char>, Seq<char>)>::empty());
    lemma_scan_from_empty(all);
    lemma_scan_concat(st0, header_lines(), entry_lines(inst));
    lemma_scan_from_empty(header_lines());
    lemma_entries_scan(inst);
}

/// Reading back a lockfile gives exactly the `(id, hash)` entries it was
/// written from, in order, for ids and hashes that fit on one line and do
/// not begin or end with a double quote.
pub proof fn law_lockfile_round_trip(inst: Seq<(Seq<char>, Seq<char>)>)
    requires
        all_lock_safe(inst),
    ensures
        parsed_lock(lock_text(inst)) == inst,
{
    lemma_read_entries_safe(inst);
    lemma_lock_reads_back(inst);
}

proof fn lemma_hex_safe(n: nat, w: nat)
    ensures
        lock_safe(hex_fixed(n, w)),
        forall|i: int| 0 <= i < hex_fixed(n, w).len() ==> {
            let c = #[trigger] hex_fixed(n, w)[i];
            ('0' <= c && c <= '9') || ('a' <= c && c <= 'f')
        },
    decreases w,
{
    if w > 0 {
        lemma_hex_safe(n / 16, (w - 1) as nat);
        let prev = hex_fixed(n / 16, (w - 1) as nat);
        let d = digit_char(n % 16);
        assert(('0' <= d && d <= '9') || ('a' <= d && d <= 'f'));
        let s = hex_fixed(n, w);
        assert(s == prev.push(d));
        assert forall|i: int| 0 <= i < s.len() implies {
            let c = #[trigger] s[i];
            ('0' <= c && c <= '9') || ('a' <= c && c <= 'f')
        } by {
            if i < prev.len() {
                assert(s[i] == prev[i]);
            }
        }
    }
}

/// The lockfile a scaffold plans reads back as exactly the entries it
/// installed, whenever the installed ids fit on one line and do not begin or
/// end with a double quote (the hashes always do).
pub proof fn law_scaffold_lock_reads_back(plan: ScaffoldPlan, sels: Seq<Selection>, ord: Seq<usize>, cs: Seq<CustomRule>)
    requires
        plan_matches(plan, sels, ord, cs),
        forall|i: int| 0 <= i < plan.installed@.len() ==> lock_safe(#[trigger] plan.installed@[i].0@),
        forall|i: int| 0 <= i < plan.installed@.len() ==> lock_safe(#[trigger] plan.installed@[i].1@),
    ensures
        parsed_lock(plan.lock@) == pairs_view(plan.installed@),
{
    let inst = pairs_view(plan.installed@);
    assert forall|i: int| 0 <= i < inst.len() implies lock_safe(#[trigger] inst[i].0) && lock_safe(inst[i].1) by {
        assert(inst[i] == (plan.installed@[i].0@, plan.installed@[i].1@));
    }
    law_lockfile_round_trip(inst);
}

/// Every lockfile hash is sixteen lower-case hexadecimal digits, so it
/// survives the lockfile round trip.
pub proof fn law_hash_text_is_hex(writes: Seq<Seq<u8>>)
    ensures
        hash_text(writes).len() == 16,
        lock_safe(hash_text(writes)),
        forall|i: int| 0 <= i < 16 ==> {
            let c = #[trigger] hash_text(writes)[i];
            ('0' <= c && c <= '9') || ('a' <= c && c <= 'f')
        },
{
    let n = <std::collections::hash_map::DefaultHasher as vstd::std_specs::hash::DefaultHasherAdditionalSpecFns>::spec_finish(writes) as nat;
    lemma_hex_safe(n, 16);
    lemma_hex_len(n, 16);
}

proof fn lemma_hex_len(n: nat, w: nat)
    ensures
        hex_fixed(n, w).len() == w,
    decreases w,
{
    if w > 0 {
        lemma_hex_len(n / 16, (w - 1) as nat);
    }
}

/// An entry is current when it is user-owned (`CUSTOM-`) or its id is in the
/// library with that hash at the default option.
pub open spec fn entry_current(lib: Seq<Principle>, e: (Seq<char>, Seq<char>)) -> bool {
    has_prefix(e.0, "CUSTOM-"@) || (lookup_last(lib, e.0) matches Some(k) && e.1 == default_hash_text(lib[k]))
}

/// A lockfile whose entries are all current reports no drift.
pub proof fn law_current_lock_reports_no_drift(inst: Seq<(Seq<char>, Seq<char>)>, lib: Seq<Principle>)
    requires
        forall|i: int| 0 <= i < inst.len() ==> entry_current(lib, #[trigger] inst[i]),
    ensures
        drift_list(inst, lib) == Seq::<DriftView>::empty(),
    decreases inst.len(),
{
    if inst.len() > 0 {
        let pre = inst.drop_last();
        assert forall|i: int| 0 <= i < pre.len() implies entry_current(lib, #[trigger] pre[i]) by {
            assert(pre[i] == inst[i]);
        }
        law_current_lock_reports_no_drift(pre, lib);
        assert(entry_current(lib, inst[inst.len() - 1]));
    }
}

/// The lockfile entries of a library installed at its default options.
pub open spec fn default_entries(lib: Seq<Principle>) -> Seq<(Seq<char>, Seq<char>)> {
    lib.map_values(|p: Principle| (p.id@, default_hash_text(p)))
}

/// A library installed at its defaults is up to date with itself: checking
/// its lockfile entries against the same library (ids unique) reports no
/// drift.
pub proof fn law_default_install_is_current(lib: Seq<Principle>)
    requires
        forall|i: int, j: int| 0 <= i < j < lib.len() ==> #[trigger] lib[i].id@ != #[trigger] lib[j].id@,
    ensures
        drift_list(default_entries(lib), lib) == Seq::<DriftView>::empty(),
{
    let inst = default_entries(lib);
    assert forall|i: int| 0 <= i < inst.len() implies entry_current(lib, #[trigger] inst[i]) by {
        let id = lib[i].id@;
        lemma_lookup_last(lib, id);
        match lookup_last(lib, id) {
            Some(k) => {
                if k != i {
                    if k < i {
                        assert(lib[k].id@ != lib[i].id@);
                    }
                }
                assert(k == i);
            }
            None => {
                assert(lib[i].id@ != id);
            }
        }
    }
    law_current_lock_reports_no_drift(inst, lib);
}

/// Migrating a profile's choices is idempotent: a second migration leaves
/// every value as the first one made it and reports the same unresolved ids.
pub proof fn law_migration_is_idempotent(chosen: Seq<(String, String)>, migrated_once: Seq<(String, String)>, lib: Seq<Principle>)
    requires
        pairs_of(migrated_once) == migrated_chosen(chosen, lib),
    ensures
        migrated_chosen(migrated_once, lib) == pairs_of(migrated_once),
        unresolved_ids(migrated_once, lib) == unresolved_ids(chosen, lib),
    decreases chosen.len(),
{
    lemma_migrated_len(chosen, lib);
    assert(migrated_once.len() == chosen.len()) by {
        assert(pairs_of(migrated_once).len() == migrated_once.len());
    }
    if chosen.len() > 0 {
        let c0 = chosen.drop_last();
        let m0 = migrated_once.drop_last();
        assert(pairs_of(m0) =~= pairs_of(migrated_once).drop_last());
        assert(migrated_chosen(chosen, lib).drop_last() =~= migrated_chosen(c0, lib));
        law_migration_is_idempotent(c0, m0, lib);
        let last = chosen.last();
        let ml = migrated_once.last();
        assert(pairs_of(migrated_once).last() == (ml.0@, ml.1@));
        assert(ml.0@ == last.0@);
        assert(ml.1@ == migrated(lib, last.0@, last.1@).0);
        lemma_migrated_stable(lib, last.0@, last.1@);
        assert(pairs_of(migrated_once) =~= pairs_of(m0).push((ml.0@, ml.1@)));
    } else {
        assert(pairs_of(migrated_once) =~= Seq::<(Seq<char>, Seq<char>)>::empty());
    }
}

proof fn lemma_migrated_len(chosen: Seq<(String, String)>, lib: Seq<Principle>)
    ensures
        migrated_chosen(chosen, lib).len() == chosen.len(),
    decreases chosen.len(),
{
    if chosen.len() > 0 {
        lemma_migrated_len(chosen.drop_last(), lib);
    }
}

proof fn lemma_migrated_stable(lib: Seq<Principle>, id: Seq<char>, v: Seq<char>)
    ensures
        migrated(lib, id, migrated(lib, id, v).0) == migrated(lib, id, v),
{
    crate::emit::lemma_lookup_last(lib, id);
    match lookup_last(lib, id) {
        None => {}
        Some(k) => {
            let opts = lib[k].options@;
            lemma_find_option(opts, v);
            if find_option(opts, v) is None {
                crate::profile::lemma_find_directive_bound(opts, v);
                match crate::profile::find_directive(opts, v) {
                    Some(i) => {
                        lemma_find_option(opts, opts[i].id@);
                    }
                    None => match crate::profile::find_trimmed_directive(opts, v) {
                        Some(i) => {
                            lemma_find_option(opts, opts[i].id@);
                        }
                        None => {}
                    },
                }
            }
        }
    }
}

/// A rule that declares no emits lands by enforcement: prose in AGENTS.md,
/// structured and mechanical rules in CONVENTIONS.md.
pub proof fn law_default_files_by_enforcement(e: Enforcement)
    ensures
        filename_for(default_target_of(e)) == (if e == Enforcement::Prose { "AGENTS.md"@ } else { "CONVENTIONS.md"@ }),
{
    reveal_strlit("aicodingrules");
    reveal_strlit("CONVENTIONS.md");
    if e != Enforcement::Prose {
        assert("CONVENTIONS.md"@[0] != "aicodingrules"@[0]);
    }
}

/// An open decision (no default) taken as-is has nothing to emit; choosing
/// one of its options resolves it to that option's directive.
pub proof fn law_open_decision_emits_only_when_chosen(p: Principle, choice: String)
    requires
        p.decision.default is None,
    ensures
        default_option_index(p) is None,
        resolved_directive(p, None, None) is None,
        find_option(p.options@, choice@) matches Some(i)
            ==> resolved_directive(p, Some(choice), None) == Some(p.options@[i].directive@),
{
}

/// Emission order never places a more specific layer before a more general
/// one.
pub proof fn law_emission_respects_layers(sels: Seq<Selection>, ord: Seq<usize>, i: int, j: int)
    requires
        is_emission_order(sels, ord),
        0 <= i < j < ord.len(),
    ensures
        layer_rank(sels[ord[i] as int].principle.layer) <= layer_rank(sels[ord[j] as int].principle.layer),
{
    assert(crate::emit::ordered_before(sels, ord[i] as int, ord[j] as int));
}


/// Every entry a scaffold installs for its selections, taken at their
/// defaults from a library that holds those very principles, is current.
proof fn lemma_ordered_installed_current(sels: Seq<Selection>, ord: Seq<usize>, lib: Seq<Principle>)
    requires
        forall|i: int| 0 <= i < ord.len() ==> #[trigger] ord[i] < sels.len(),
        forall|k: int| 0 <= k < sels.len() ==> (#[trigger] sels[k]).chosen is None && sels[k].custom_directive is None,
        forall|k: int| 0 <= k < sels.len() ==> (lookup_last(lib, (#[trigger] sels[k]).principle.id@) matches Some(j)
            && lib[j] == *sels[k].principle),
    ensures
        forall|i: int| 0 <= i < ordered_installed(sels, ord).len() ==> entry_current(lib, #[trigger] ordered_installed(sels, ord)[i]),
        forall|i: int| 0 <= i < ordered_installed(sels, ord).len() ==> lock_safe(#[trigger] ordered_installed(sels, ord)[i].1),
    decreases ord.len(),
{
    if ord.len() > 0 {
        let pre = ord.drop_last();
        assert forall|i: int| 0 <= i < pre.len() implies #[trigger] pre[i] < sels.len() by {
            assert(pre[i] == ord[i]);
        }
        lemma_ordered_installed_current(sels, pre, lib);
        let k = ord.last() as int;
        assert(ord.last() == ord[ord.len() - 1]);
        let sel = sels[k];
        let prev = ordered_installed(sels, pre);
        if sel.spec_directive() is Some {
            let j = lookup_last(lib, sel.principle.id@)->0;
            let d = Selection { principle: &lib[j], chosen: None, custom_directive: None };
            assert(d == sel);
            law_hash_text_is_hex(principle_writes(sel));
            let e = (sel.principle.id@, hash_text(principle_writes(sel)));
            assert(entry_current(lib, e));
            let r = ordered_installed(sels, ord);
            assert(r == prev.push(e));
            assert forall|i: int| 0 <= i < r.len() implies entry_current(lib, #[trigger] r[i]) && lock_safe(r[i].1) by {
                if i < prev.len() {
                    assert(r[i] == prev[i]);
                }
            }
        }
    }
}

/// Every entry a scaffold installs for its custom rules is current, and its
/// hash is lockfile-safe.
proof fn lemma_custom_installed_current(cs: Seq<CustomRule>, lib: Seq<Principle>)
    ensures
        forall|i: int| 0 <= i < custom_installed(cs).len() ==> entry_current(lib, #[trigger] custom_installed(cs)[i]),
        forall|i: int| 0 <= i < custom_installed(cs).len() ==> lock_safe(#[trigger] custom_installed(cs)[i].1),
    decreases cs.len(),
{
    if cs.len() > 0 {
        lemma_custom_installed_current(cs.drop_last(), lib);
        if !custom_skipped(cs.last()) {
            reveal_strlit("CUSTOM-");
            let prev = custom_installed(cs.drop_last());
            let id = "CUSTOM-"@ + trim(cs.last().name@);
            assert(id.take(7) =~= "CUSTOM-"@);
            law_hash_text_is_hex(str_writes(custom_block(cs.last())));
            let e = (id, hash_text(str_writes(custom_block(cs.last()))));
            assert(entry_current(lib, e));
            let r = custom_installed(cs);
            assert(r == prev.push(e));
            assert forall|i: int| 0 <= i < r.len() implies entry_current(lib, #[trigger] r[i]) && lock_safe(r[i].1) by {
                if i < prev.len() {
                    assert(r[i] == prev[i]);
                }
            }
        } else {
            assert(custom_installed(cs) == custom_installed(cs.drop_last()));
        }
    }
}

proof fn lemma_trail_le(s: Seq<char>, j: int, q: bool)
    requires
        0 <= j < s.len(),
        !crate::text::strip_pred(s[j], q),
    ensures
        trail_count(s, q) <= s.len() - 1 - j,
    decreases s.len(),
{
    if crate::text::strip_pred(s.last(), q) {
        assert(j < s.len() - 1);
        assert(s.drop_last()[j] == s[j]);
        lemma_trail_le(s.drop_last(), j, q);
    }
}

/// A custom rule's id still reads back as a custom rule's id, whatever
/// quotes its name ends in.
proof fn lemma_read_value_prefix(x: Seq<char>)
    requires
        has_prefix(x, "CUSTOM-"@),
    ensures
        has_prefix(read_value(x), "CUSTOM-"@),
{
    reveal_strlit("CUSTOM-");
    let s = seq!['"'] + x + seq!['"'];
    assert(x.take(7)[0] == 'C');
    assert(s[0] == '"');
    assert(s.drop_first()[0] == x[0]);
    assert(lead_count(s.drop_first(), true) == 0);
    assert(lead_count(s, true) == 1);
    let t = s.skip(1);
    assert(t =~= x + seq!['"']);
    assert(x.take(7)[6] == '-');
    assert(t[6] == x[6]);
    lemma_trail_le(t, 6, true);
    let r = t.take(t.len() - trail_count(t, true));
    assert(read_value(x) == r);
    assert(r.take(7) =~= x.take(7));
}

/// Scaffolding rules at their defaults and then checking the lockfile it
/// wrote against the same library reports no drift, whenever the installed
/// ids fit on one line and every id but a custom rule's does not begin or
/// end with a double quote.
pub proof fn law_scaffold_then_no_drift(plan: ScaffoldPlan, sels: Seq<Selection>, ord: Seq<usize>, cs: Seq<CustomRule>, lib: Seq<Principle>)
    requires
        is_emission_order(sels, ord),
        plan_matches(plan, sels, ord, cs),
        forall|k: int| 0 <= k < sels.len() ==> (#[trigger] sels[k]).chosen is None && sels[k].custom_directive is None,
        forall|k: int| 0 <= k < sels.len() ==> (lookup_last(lib, (#[trigger] sels[k]).principle.id@) matches Some(j)
            && lib[j] == *sels[k].principle),
        forall|i: int| 0 <= i < plan.installed@.len() ==> no_newline(#[trigger] plan.installed@[i].0@)
            && (lock_safe(plan.installed@[i].0@) || has_prefix(plan.installed@[i].0@, "CUSTOM-"@)),
    ensures
        drift_list(parsed_lock(plan.lock@), lib) == Seq::<DriftView>::empty(),
{
    lemma_ordered_installed_current(sels, ord, lib);
    lemma_custom_installed_current(cs, lib);
    let a = ordered_installed(sels, ord);
    let b = custom_installed(cs);
    let inst = a + b;
    assert(inst == pairs_view(plan.installed@));
    assert forall|i: int| 0 <= i < inst.len() implies entry_current(lib, #[trigger] inst[i]) && lock_safe(inst[i].1) by {
        if i < a.len() {
            assert(inst[i] == a[i]);
        } else {
            assert(inst[i] == b[i - a.len()]);
        }
    }
    assert forall|i: int| 0 <= i < inst.len() implies no_newline(#[trigger] inst[i].0) && no_newline(inst[i].1) by {
        assert(inst[i] == (plan.installed@[i].0@, plan.installed@[i].1@));
        assert(lock_safe(inst[i].1));
        let h = inst[i].1;
        assert forall|k: int| 0 <= k < h.len() implies h[k] != '\n' by {}
    }
    lemma_lock_reads_back(inst);
    let parsed = read_entries(inst);
    assert forall|i: int| 0 <= i < parsed.len() implies entry_current(lib, #[trigger] parsed[i]) by {
        let e = inst[i];
        assert(e == (plan.installed@[i].0@, plan.installed@[i].1@));
        assert(entry_current(lib, e) && lock_safe(e.1));
        lemma_unquote(e.1);
        assert(parsed[i] == (read_value(e.0), read_value(e.1)));
        if lock_safe(e.0) {
            lemma_unquote(e.0);
            assert(parsed[i] == e);
        } else {
            lemma_read_value_prefix(e.0);
        }
    }
    law_current_lock_reports_no_drift(parsed, lib);
}

proof fn lemma_trim_no_newline(x: Seq<char>)
    requires
        no_newline(x),
    ensures
        no_newline(trim(x)),
{
    crate::text::lemma_lead_count_bound(x, false);
    let u = x.skip(lead_count(x, false) as int);
    crate::text::lemma_trail_count_bound(u, false);
    let t = trim(x);
    assert(t == u.take(u.len() - trail_count(u, false)));
    assert forall|j: int| 0 <= j < t.len() implies t[j] != '\n' by {
        assert(t[j] == u[j]);
        assert(u[j] == x[j + lead_count(x, false)]);
    }
}

/// The ids a scaffold installs are the selected rules' ids and, for custom
/// rules, `CUSTOM-` and the trimmed name.
proof fn lemma_installed_ids(sels: Seq<Selection>, ord: Seq<usize>, cs: Seq<CustomRule>)
    requires
        forall|i: int| 0 <= i < ord.len() ==> #[trigger] ord[i] < sels.len(),
        forall|k: int| 0 <= k < sels.len() ==> lock_safe((#[trigger] sels[k]).principle.id@),
        forall|k: int| 0 <= k < cs.len() ==> no_newline((#[trigger] cs[k]).name@),
    ensures
        forall|i: int| 0 <= i < ordered_installed(sels, ord).len() ==> lock_safe(#[trigger] ordered_installed(sels, ord)[i].0),
        forall|i: int| 0 <= i < custom_installed(cs).len() ==> no_newline(#[trigger] custom_installed(cs)[i].0)
            && has_prefix(custom_installed(cs)[i].0, "CUSTOM-"@),
    decreases ord.len() + cs.len(),
{
    if ord.len() > 0 {
        let pre = ord.drop_last();
        assert forall|i: int| 0 <= i < pre.len() implies #[trigger] pre[i] < sels.len() by {
            assert(pre[i] == ord[i]);
        }
        lemma_installed_ids(sels, pre, Seq::empty());
        lemma_installed_ids(sels, Seq::empty(), cs);
        let k = ord.last() as int;
        assert(ord.last() == ord[ord.len() - 1]);
        let prev = ordered_installed(sels, pre);
        let r = ordered_installed(sels, ord);
        assert(lock_safe(sels[k].principle.id@));
        assert forall|i: int| 0 <= i < r.len() implies lock_safe(#[trigger] r[i].0) by {
            if i < prev.len() {
                assert(r[i] == prev[i]);
            }
        }
    } else if cs.len() > 0 {
        let pre = cs.drop_last();
        assert forall|k: int| 0 <= k < pre.len() implies no_newline((#[trigger] pre[k]).name@) by {
            assert(pre[k] == cs[k]);
        }
        lemma_installed_ids(sels, ord, pre);
        let prev = custom_installed(pre);
        let r = custom_installed(cs);
        if custom_skipped(cs.last()) {
            assert(r == prev);
        } else {
            reveal_strlit("CUSTOM-");
            assert(cs.last() == cs[cs.len() - 1]);
            let nm = trim(cs.last().name@);
            lemma_trim_no_newline(cs.last().name@);
            let id = "CUSTOM-"@ + nm;
            assert(id.take(7) =~= "CUSTOM-"@);
            assert forall|j: int| 0 <= j < id.len() implies id[j] != '\n' by {
                if j >= 7 {
                    assert(id[j] == nm[j - 7]);
                }
            }
            assert forall|i: int| 0 <= i < r.len() implies no_newline(#[trigger] r[i].0) && has_prefix(r[i].0, "CUSTOM-"@) by {
                if i < prev.len() {
                    assert(r[i] == prev[i]);
                }
            }
        }
    }
}

/// Scaffolding rules at their defaults, from a library with distinct ids
/// that holds those very principles, and then checking the lockfile it wrote
/// against that library reports no drift, whenever the rules' ids fit on one
/// line and do not begin or end with a double quote, and the custom rules'
/// names fit on one line.
pub proof fn law_default_scaffold_reports_no_drift(plan: ScaffoldPlan, sels: Seq<Selection>, ord: Seq<usize>, cs: Seq<CustomRule>, lib: Seq<Principle>)
    requires
        is_emission_order(sels, ord),
        plan_matches(plan, sels, ord, cs),
        forall|k: int| 0 <= k < sels.len() ==> (#[trigger] sels[k]).chosen is None && sels[k].custom_directive is None,
        forall|i: int, j: int| 0 <= i < j < lib.len() ==> #[trigger] lib[i].id@ != #[trigger] lib[j].id@,
        forall|k: int| 0 <= k < sels.len() ==> exists|j: int| 0 <= j < lib.len() && lib[j] == *(#[trigger] sels[k]).principle,
        forall|k: int| 0 <= k < sels.len() ==> lock_safe((#[trigger] sels[k]).principle.id@),
        forall|k: int| 0 <= k < cs.len() ==> no_newline((#[trigger] cs[k]).name@),
    ensures
        drift_list(parsed_lock(plan.lock@), lib) == Seq::<DriftView>::empty(),
{
    assert forall|k: int| 0 <= k < sels.len() implies (lookup_last(lib, (#[trigger] sels[k]).principle.id@) matches Some(j)
        && lib[j] == *sels[k].principle) by {
        let j = choose|j: int| 0 <= j < lib.len() && lib[j] == *sels[k].principle;
        let id = sels[k].principle.id@;
        lemma_lookup_last(lib, id);
        let m = lookup_last(lib, id)->0;
        if m != j {
            if m < j {
                assert(lib[m].id@ != lib[j].id@);
            } else {
                assert(lib[j].id@ != lib[m].id@);
            }
        }
    }
    lemma_installed_ids(sels, ord, cs);
    let a = ordered_installed(sels, ord);
    let b = custom_installed(cs);
    let inst = a + b;
    assert(inst == pairs_view(plan.installed@));
    assert forall|i: int| 0 <= i < plan.installed@.len() implies no_newline(#[trigger] plan.installed@[i].0@)
        && (lock_safe(plan.installed@[i].0@) || has_prefix(plan.installed@[i].0@, "CUSTOM-"@)) by {
        assert(inst[i] == (plan.installed@[i].0@, plan.installed@[i].1@));
        if i < a.len() {
            assert(inst[i] == a[i]);
            assert(lock_safe(a[i].0));
            let x = a[i].0;
            assert forall|q: int| 0 <= q < x.len() implies x[q] != '\n' by {}
        } else {
            let j = i - a.len();
            assert(inst[i] == b[j]);
            assert(no_newline(b[j].0) && has_prefix(b[j].0, "CUSTOM-"@));
        }
    }
    law_scaffold_then_no_drift(plan, sels, ord, cs, lib);
}

/// A lockfile comment line: no newline, and blank (whitespace only) or
/// starting with `#`.
pub open spec fn comment_line(l: Seq<char>) -> bool {
    &&& no_newline(l)
    &&& ((forall|i: int| 0 <= i < l.len() ==> is_ws(#[trigger] l[i])) || (l.len() > 0 && l[0] == '#'))
}

/// The text of a block of lines, each ended by a newline.
pub open spec fn comment_block(hl: Seq<Seq<char>>) -> Seq<char>
    decreases hl.len(),
{
    if hl.len() == 0 {
        Seq::empty()
    } else {
        comment_block(hl.drop_last()) + hl.last() + seq!['\n']
    }
}

proof fn lemma_comment_block_split(hl: Seq<Seq<char>>)
    requires
        forall|i: int| 0 <= i < hl.len() ==> comment_line(#[trigger] hl[i]),
    ensures
        split_nl(comment_block(hl)) == hl.push(Seq::<char>::empty()),
        hl.len() > 0 ==> comment_block(hl).len() > 0 && comment_block(hl).last() == '\n',
    decreases hl.len(),
{
    let e = Seq::<char>::empty();
    if hl.len() == 0 {
        assert(split_nl(e) == seq![e]);
        assert(hl.push(e) =~= seq![e]);
    } else {
        let pre = hl.drop_last();
        assert forall|i: int| 0 <= i < pre.len() implies comment_line(#[trigger] pre[i]) by {
            assert(pre[i] == hl[i]);
        }
        lemma_comment_block_split(pre);
        let l = hl.last();
        assert(comment_line(hl[hl.len() - 1]));
        let ln = l + seq!['\n'];
        lemma_split_line(l);
        if pre.len() == 0 {
            assert(comment_block(pre) =~= e);
            assert(comment_block(hl) =~= ln);
            assert(hl =~= seq![l]);
            assert(hl.push(e) =~= seq![l, e]);
        } else {
            let b = comment_block(pre);
            assert(comment_block(hl) =~= b + ln);
            lemma_split_concat(b, ln);
            assert(pre.push(e).drop_last() =~= pre);
            assert(pre + seq![l, e] =~= hl.push(e));
        }
    }
}

proof fn lemma_comment_step(st: (Option<Seq<char>>, Seq<(Seq<char>, Seq<char>)>), l: Seq<char>)
    requires
        comment_line(l),
    ensures
        lock_step(st, l) == st,
{
    reveal_strlit("id = ");
    reveal_strlit("hash = ");
    let t = trim(l);
    if l.len() > 0 && l[0] == '#' {
        assert(lead_count(l, false) == 0);
        assert(l.skip(0) =~= l);
        let u = l.skip(lead_count(l, false) as int);
        assert(u == l);
        crate::text::lemma_trail_count_bound(u, false);
        assert(t == u.take(u.len() - trail_count(u, false)));
        if t.len() > 0 {
            assert(t[0] == u[0]);
            assert(t[0] == '#');
            if t.len() >= 5 {
                assert(t.take(5)[0] != "id = "@[0]);
            }
            if t.len() >= 7 {
                assert(t.take(7)[0] != "hash = "@[0]);
            }
        }
    } else {
        crate::text::lemma_lead_count_is(l, false, l.len() as int);
        assert(l.skip(l.len() as int) =~= Seq::<char>::empty());
        assert(t.len() == 0);
    }
}

/// A comment line run into the first entry's `[[installed]]` line is still
/// a line the reader passes over.
proof fn lemma_merged_step(st: (Option<Seq<char>>, Seq<(Seq<char>, Seq<char>)>), tail: Seq<char>)
    requires
        comment_line(tail),
    ensures
        lock_step(st, tail + "[[installed]]"@) == st,
{
    reveal_strlit("[[installed]]");
    reveal_strlit("id = ");
    reveal_strlit("hash = ");
    let m = tail + "[[installed]]"@;
    if tail.len() > 0 && tail[0] == '#' {
        assert(m[0] == '#');
        assert forall|i: int| 0 <= i < m.len() implies m[i] != '\n' by {
            if i < tail.len() {
                assert(m[i] == tail[i]);
            }
        }
        lemma_comment_step(st, m);
    } else {
        let n = tail.len() as int;
        assert forall|k: int| 0 <= k < n implies crate::text::strip_pred(#[trigger] m[k], false) by {
            assert(m[k] == tail[k]);
        }
        assert(m[n] == '[');
        crate::text::lemma_lead_count_is(m, false, n);
        let u = m.skip(n);
        assert(u =~= "[[installed]]"@);
        assert(trail_count(u, false) == 0);
        let t = trim(m);
        assert(t =~= u);
        assert(t.take(5)[0] != "id = "@[0]);
        assert(t.take(7)[0] != "hash = "@[0]);
    }
}

proof fn lemma_comment_scan(st: (Option<Seq<char>>, Seq<(Seq<char>, Seq<char>)>), hl: Seq<Seq<char>>)
    requires
        forall|i: int| 0 <= i < hl.len() ==> comment_line(#[trigger] hl[i]),
    ensures
        lock_scan_from(st, hl) == st,
    decreases hl.len(),
{
    if hl.len() > 0 {
        let pre = hl.drop_last();
        assert forall|i: int| 0 <= i < pre.len() implies comment_line(#[trigger] pre[i]) by {
            assert(pre[i] == hl[i]);
        }
        lemma_comment_scan(st, pre);
        assert(comment_line(hl[hl.len() - 1]));
        lemma_comment_step(st, hl.last());
    }
}

/// `split_nl` of any concatenation: the last piece of `a` runs into the
/// first piece of `b`.
proof fn lemma_split_concat_any(a: Seq<char>, b: Seq<char>)
    ensures
        split_nl(a + b) == split_nl(a).drop_last() + seq![split_nl(a).last() + split_nl(b)[0]] + split_nl(b).drop_first(),
    decreases b.len(),
{
    lemma_split_on_nonempty(a, '\n');
    let sa = split_nl(a);
    if b.len() == 0 {
        assert(a + b =~= a);
        assert(split_nl(b) == seq![Seq::<char>::empty()]);
        assert(sa.last() + Seq::<char>::empty() =~= sa.last());
        assert(seq![Seq::<char>::empty()].drop_first() =~= Seq::<Seq<char>>::empty());
        assert(sa.drop_last() + seq![sa.last()] =~= sa);
    } else {
        let b1 = b.drop_last();
        let c = b.last();
        lemma_split_concat_any(a, b1);
        lemma_split_on_nonempty(b1, '\n');
        assert((a + b).drop_last() =~= a + b1);
        assert((a + b).last() == c);
        let y = split_nl(b1);
        let x = sa.drop_last();
        let prev = x + seq![sa.last() + y[0]] + y.drop_first();
        if c == '\n' {
            assert(split_nl(b) == y.push(Seq::<char>::empty()));
            assert(y.push(Seq::<char>::empty())[0] == y[0]);
            assert(prev.push(Seq::<char>::empty()) =~= x + seq![sa.last() + y[0]] + y.push(Seq::<char>::empty()).drop_first());
        } else {
            let y2 = y.update(y.len() - 1, y.last().push(c));
            assert(split_nl(b) == y2);
            if y.len() == 1 {
                assert(y2[0] == y[0].push(c));
                assert(y.drop_first() =~= Seq::<Seq<char>>::empty());
                assert(y2.drop_first() =~= Seq::<Seq<char>>::empty());
                assert((sa.last() + y[0]).push(c) =~= sa.last() + y2[0]);
                assert(prev.update(prev.len() - 1, prev.last().push(c)) =~= x + seq![sa.last() + y2[0]] + y2.drop_first());
            } else {
                assert(y2[0] == y[0]);
                assert(prev.update(prev.len() - 1, prev.last().push(c)) =~= x + seq![sa.last() + y2[0]] + y2.drop_first());
            }
        }
    }
}

/// The first line of a nonempty entry list is `[[installed]]`.
proof fn lemma_entry_lines_first(inst: Seq<(Seq<char>, Seq<char>)>)
    requires
        inst.len() > 0,
    ensures
        entry_lines(inst).len() > 0,
        entry_lines(inst)[0] == "[[installed]]"@,
    decreases inst.len(),
{
    let pre = inst.drop_last();
    let four = seq!["[[installed]]"@, id_line(inst.last().0), hash_line(inst.last().1), Seq::<char>::empty()];
    assert(entry_lines(inst) == entry_lines(pre) + four);
    if pre.len() > 0 {
        lemma_entry_lines_first(pre);
    } else {
        assert(entry_lines(pre) =~= Seq::<Seq<char>>::empty());
    }
}

proof fn lemma_entries_split(p: Seq<char>, pl: Seq<Seq<char>>, inst: Seq<(Seq<char>, Seq<char>)>)
    requires
        split_nl(p) == pl.push(Seq::<char>::empty()),
        p.len() == 0 || p.last() == '\n',
        all_no_newline(inst),
    ensures
        split_nl(p + lock_entries(inst)) == pl + entry_lines(inst) + seq![Seq::<char>::empty()],
        (p + lock_entries(inst)).len() == 0 || (p + lock_entries(inst)).last() == '\n',
    decreases inst.len(),
{
    let e = Seq::<char>::empty();
    if inst.len() == 0 {
        assert(p + lock_entries(inst) =~= p);
        assert(pl + entry_lines(inst) + seq![e] =~= pl.push(e));
    } else {
        let pre = inst.drop_last();
        assert forall|i: int| 0 <= i < pre.len() implies no_newline(#[trigger] pre[i].0) && no_newline(pre[i].1) by {
            assert(pre[i] == inst[i]);
        }
        lemma_entries_split(p, pl, pre);
        let x = inst.last().0;
        let h = inst.last().1;
        assert(no_newline(x) && no_newline(h)) by {
            assert(inst.last() == inst[inst.len() - 1]);
        }
        lemma_entry_lines(x, h);
        let a = p + lock_entries(pre);
        assert(p + lock_entries(inst) =~= a + lock_entry(x, h));
        let four = seq!["[[installed]]"@, id_line(x), hash_line(h), e];
        assert(entry_lines(inst) == entry_lines(pre) + four);
        if a.len() == 0 {
            assert(a + lock_entry(x, h) =~= lock_entry(x, h));
            assert(split_nl(a) == seq![e]);
            assert((pl + entry_lines(pre) + seq![e]).len() == 1);
            assert(pl + entry_lines(pre) =~= Seq::<Seq<char>>::empty());
            assert(pl + entry_lines(inst) + seq![e] =~= four + seq![e]);
            assert(four + seq![e] =~= seq!["[[installed]]"@, id_line(x), hash_line(h), e, e]);
        } else {
            lemma_split_concat(a, lock_entry(x, h));
            assert((pl + entry_lines(pre) + seq![e]).drop_last() =~= pl + entry_lines(pre));
            assert(pl + entry_lines(pre) + seq!["[[installed]]"@, id_line(x), hash_line(h), e, e]
                =~= pl + entry_lines(inst) + seq![e]);
        }
        reveal_strlit("\"\n\n");
        assert(lock_entry(x, h).last() == '\n');
        assert((a + lock_entry(x, h)).last() == lock_entry(x, h).last());
    }
}

/// Reading back a lockfile whose entries follow any header of comment and
/// blank lines (the last of which need not end in a newline) gives exactly
/// the `(id, hash)` entries, in order, for ids and hashes that fit on one
/// line and do not begin or end with a double quote.
pub proof fn law_lockfile_round_trip_after_comments(hl: Seq<Seq<char>>, tail: Seq<char>, inst: Seq<(Seq<char>, Seq<char>)>)
    requires
        forall|i: int| 0 <= i < hl.len() ==> comment_line(#[trigger] hl[i]),
        comment_line(tail),
        all_lock_safe(inst),
    ensures
        parsed_lock(comment_block(hl) + tail + lock_entries(inst)) == inst,
{
    let e = Seq::<char>::empty();
    let st0 = (None::<Seq<char>>, Seq::<(Seq<char>, Seq<char>)>::empty());
    lemma_read_entries_safe(inst);
    lemma_comment_block_split(hl);
    let cb = comment_block(hl);
    let p = cb + tail;
    lemma_split_no_newline(tail);
    lemma_split_concat_any(cb, tail);
    assert(hl.push(e).drop_last() =~= hl);
    assert(e + tail =~= tail);
    assert(seq![tail].drop_first() =~= Seq::<Seq<char>>::empty());
    assert(split_nl(p) =~= hl.push(tail));
    let text = p + lock_entries(inst);
    assert(comment_block(hl) + tail + lock_entries(inst) == text);
    let hlt = hl.push(tail);
    assert forall|i: int| 0 <= i < hlt.len() implies comment_line(#[trigger] hlt[i]) by {
        if i < hl.len() {
            assert(hlt[i] == hl[i]);
        }
    }
    if inst.len() == 0 {
        assert(text =~= p);
        lemma_comment_scan(st0, hl);
        lemma_comment_scan(st0, hlt);
        lemma_scan_from_empty(hl);
        lemma_scan_from_empty(hlt);
        assert(hlt.drop_last() =~= hl);
        assert(inst =~= Seq::<(Seq<char>, Seq<char>)>::empty());
    } else {
        let en = lock_entries(inst);
        lemma_entries_split(e, Seq::<Seq<char>>::empty(), inst);
        assert(e + en =~= en);
        assert(Seq::<Seq<char>>::empty().push(e) =~= seq![e]);
        let el = entry_lines(inst);
        assert(split_nl(en) =~= el + seq![e]);
        lemma_entry_lines_first(inst);
        lemma_split_concat_any(p, en);
        let merged = tail + "[[installed]]"@;
        let rest = el.drop_first();
        assert((el + seq![e])[0] == el[0]);
        assert((el + seq![e]).drop_first() =~= rest + seq![e]);
        let all = hl + seq![merged] + rest;
        assert(split_nl(text) =~= all + seq![e]);
        assert((all + seq![e]).drop_last() =~= all);
        assert(lines(text) == all);
        lemma_scan_from_empty(all);
        lemma_scan_concat(st0, hl + seq![merged], rest);
        lemma_scan_concat(st0, hl, seq![merged]);
        lemma_comment_scan(st0, hl);
        assert(seq![merged].drop_last() =~= Seq::<Seq<char>>::empty());
        lemma_merged_step(st0, tail);
        assert(seq![merged].last() == merged);
        assert(lock_scan_from(st0, Seq::<Seq<char>>::empty()) == st0);
        assert(lock_scan_from(st0, seq![merged]) == lock_step(lock_scan_from(st0, seq![merged].drop_last()), merged));
        assert(lock_scan_from(st0, seq![merged]) == st0);
        // The entries alone read the same with or without their first line.
        let first = seq![el[0]];
        assert(el =~= first + rest);
        lemma_scan_concat(st0, first, rest);
        assert(first.drop_last() =~= Seq::<Seq<char>>::empty());
        assert(e + "[[installed]]"@ =~= "[[installed]]"@);
        assert forall|i: int| 0 <= i < e.len() implies is_ws(#[trigger] e[i]) by {}
        lemma_merged_step(st0, e);
        assert(first.last() == el[0]);
        assert(el[0] == e + "[[installed]]"@);
        assert(lock_scan_from(st0, first) == lock_step(lock_scan_from(st0, first.drop_last()), el[0]));
        assert(lock_scan_from(st0, first) == st0);
        lemma_entries_scan(inst);
    }
}


// ---------------------------------------------------------------- selection scope

/// A rule whose domain the user lists by name is in scope, unless it is
/// meta-documentation; so is one whose stack the user lists. A meta rule is
/// never in scope, and a default-selected one always is.
pub proof fn law_listed_domain_is_in_scope(p: Principle, ds: Seq<String>, k: int)
    requires
        0 <= k < ds.len(),
    ensures
        ds[k]@ == p.domain@ && !crate::meta_domains().contains(p.domain@)
            ==> crate::cli::in_scope_spec(p, ds),
        (crate::principle::stack_base_of(p.domain@) matches Some(b) && ds[k]@ == b)
            && !crate::meta_domains().contains(p.domain@)
            ==> crate::cli::in_scope_spec(p, ds),
        crate::meta_domains().contains(p.domain@) ==> !crate::cli::in_scope_spec(p, ds),
        crate::default_selected_domains().contains(p.domain@) && !crate::meta_domains().contains(p.domain@)
            ==> crate::cli::in_scope_spec(p, ds),
{
}

// ---------------------------------------------------------------- lint

proof fn lemma_concat_contains<A>(a: Seq<A>, b: Seq<A>, x: A)
    ensures
        a.contains(x) ==> (a + b).contains(x),
        b.contains(x) ==> (a + b).contains(x),
{
    if a.contains(x) {
        let j = choose|j: int| 0 <= j < a.len() && a[j] == x;
        assert((a + b)[j] == x);
    }
    if b.contains(x) {
        let j = choose|j: int| 0 <= j < b.len() && b[j] == x;
        assert((a + b)[a.len() + j] == x);
    }
}

proof fn lemma_options_findings_contains(pid: Seq<char>, opts: Seq<crate::principle::Opt>, n: int, i: int, x: (Seq<char>, Seq<char>, Seq<char>))
    requires
        0 <= i < n,
        crate::lint::option_findings(pid, opts, i).contains(x),
    ensures
        crate::lint::options_findings(pid, opts, n).contains(x),
    decreases n,
{
    let prev = crate::lint::options_findings(pid, opts, n - 1);
    let last = crate::lint::option_findings(pid, opts, n - 1);
    assert(crate::lint::options_findings(pid, opts, n) == prev + last);
    if i < n - 1 {
        lemma_options_findings_contains(pid, opts, n - 1, i, x);
    }
    lemma_concat_contains(prev, last, x);
}

/// The finding a blank option field gets.
pub open spec fn blank_field_finding(p: Principle, i: int, field: Seq<char>) -> (Seq<char>, Seq<char>, Seq<char>) {
    (p.id@, "option-empty-field"@, "option["@ + crate::text::decimal(i as nat) + "] (`"@ + p.options@[i].id@ + "`) has an empty "@ + field)
}

/// A finding of one option is a finding of the principle.
proof fn lemma_option_finding_reaches(p: Principle, i: int, x: (Seq<char>, Seq<char>, Seq<char>))
    requires
        0 <= i < p.options@.len(),
        crate::lint::option_findings(p.id@, p.options@, i).contains(x),
    ensures
        crate::lint::principle_findings(p).contains(x),
{
    let pid = p.id@;
    let opts = p.options@;
    let n = opts.len() as int;
    let first = (if !crate::lint::valid_id(pid) { seq![(pid, "id-format"@, "id `"@ + pid + crate::lint::ID_FORMAT_HINT@)] } else { Seq::empty() })
        + (if opts.len() == 0 { seq![(pid, "options-empty"@, crate::lint::OPTIONS_EMPTY_MESSAGE@)] } else { Seq::empty() });
    let all_opts = crate::lint::options_findings(pid, opts, n);
    let pf = crate::lint::principle_findings(p);
    let rest = pf.skip((first + all_opts).len() as int);
    assert(pf =~= (first + all_opts) + rest);
    lemma_options_findings_contains(pid, opts, n, i, x);
    lemma_concat_contains(first, all_opts, x);
    lemma_concat_contains(first + all_opts, rest, x);
}

/// Every option whose label, directive or why is blank (after trimming) is
/// reported as an `option-empty-field` finding naming the option and field.
pub proof fn law_blank_option_fields_are_reported(p: Principle, i: int)
    requires
        0 <= i < p.options@.len(),
    ensures
        trim(p.options@[i].label@).len() == 0 ==> crate::lint::principle_findings(p).contains(blank_field_finding(p, i, "label"@)),
        trim(p.options@[i].directive@).len() == 0 ==> crate::lint::principle_findings(p).contains(blank_field_finding(p, i, "directive"@)),
        trim(p.options@[i].why@).len() == 0 ==> crate::lint::principle_findings(p).contains(blank_field_finding(p, i, "why"@)),
{
    let pid = p.id@;
    let opts = p.options@;
    let o = opts[i];
    let head = if trim(o.id@).len() == 0 {
        seq![(pid, "option-empty-field"@, "option["@ + crate::text::decimal(i as nat) + "] has an empty id"@)]
    } else if crate::lint::seen_before(opts, i) {
        seq![(pid, "option-id-duplicate"@, "option id `"@ + o.id@ + "` appears more than once in this rule"@)]
    } else {
        Seq::empty()
    };
    let el = crate::lint::empty_field_finding(pid, i as nat, o.id@, "label"@, o.label@);
    let ed = crate::lint::empty_field_finding(pid, i as nat, o.id@, "directive"@, o.directive@);
    let ew = crate::lint::empty_field_finding(pid, i as nat, o.id@, "why"@, o.why@);
    let of = crate::lint::option_findings(pid, opts, i);
    assert(of == head + el + ed + ew);
    if trim(o.label@).len() == 0 {
        let x = blank_field_finding(p, i, "label"@);
        assert(el[0] == x);
        lemma_concat_contains(head, el, x);
        lemma_concat_contains(head + el, ed, x);
        lemma_concat_contains(head + el + ed, ew, x);
        lemma_option_finding_reaches(p, i, x);
    }
    if trim(o.directive@).len() == 0 {
        let x = blank_field_finding(p, i, "directive"@);
        assert(ed[0] == x);
        lemma_concat_contains(head + el, ed, x);
        lemma_concat_contains(head + el + ed, ew, x);
        lemma_option_finding_reaches(p, i, x);
    }
    if trim(o.why@).len() == 0 {
        let x = blank_field_finding(p, i, "why"@);
        assert(ew[0] == x);
        lemma_concat_contains(head + el + ed, ew, x);
        lemma_option_finding_reaches(p, i, x);
    }
}

// ---------------------------------------------------------------- file headers

/// The generated-by line that opens every generated file.
pub open spec fn generated_line(count: nat) -> Seq<char> {
    "<!-- Generated by camerata. "@ + crate::text::decimal(count) + " principle(s). Edit principle sources, not this file. -->\n\n"@
}

/// CONVENTIONS.md opens with the generated-by line and then its role
/// description; AGENTS.md likewise with its own; any other file with the
/// generated-by line alone.
pub proof fn law_file_headers(filename: Seq<char>, count: nat)
    ensures
        crate::emit::header_text("CONVENTIONS.md"@, count) == generated_line(count) + crate::emit::CONVENTIONS_CONTEXT@,
        crate::emit::header_text("AGENTS.md"@, count) == generated_line(count) + crate::emit::AGENTS_CONTEXT@,
        filename != "AGENTS.md"@ && filename != "CONVENTIONS.md"@ ==> crate::emit::header_text(filename, count) == generated_line(count),
        crate::emit::CONVENTIONS_CONTEXT@.len() > 0,
        crate::emit::AGENTS_CONTEXT@.len() > 0,
{
    reveal_strlit("CONVENTIONS.md");
    reveal_strlit("AGENTS.md");
    reveal_strlit("# CONVENTIONS.md\n\nThis file is the authoritative source of structured and mechanical conventions this project follows. Each block below states a rule with a stable citable ID that maintainers and the AI agent reference in commits, PR descriptions, and code reviews.\n\nThese conventions were adopted from the camerata principle library by the project's architect. The rules represent committed choices, not suggestions. Structured rules are verified by code review and citation; mechanical rules can be enforced by lint, type-system, or CI checks.\n\nThe companion file AGENTS.md holds this project's prose-enforcement directives, the behavioral guidance the agent applies by judgment. The agent reads both files when starting work.\n\nWhen applying a rule, cite its ID in the commit body or PR description (for example, per RUST-DOMAIN-6).\n\nDo not edit this file by hand. To change the rules, edit the project's principle selection and regenerate via camerata.\n\n---\n\n");
    assert("CONVENTIONS.md"@[0] != "AGENTS.md"@[0]);
    assert("CONVENTIONS.md"@ != "AGENTS.md"@);
    assert(crate::emit::header_text(filename, count) == generated_line(count) + Seq::<char>::empty()
        ==> crate::emit::header_text(filename, count) == generated_line(count)) by {
        assert(generated_line(count) + Seq::<char>::empty() =~= generated_line(count));
    }
    reveal_strlit("# AGENTS.md\n\nThis file is the authoritative source of architectural and behavioral commitments the AI agent applies when writing or modifying code in this project. Each block below states a single directive the agent follows at code-author time.\n\nThese are prose-enforcement rules. The agent reads and respects them by judgment, not by lint or compiler check. They were adopted from the camerata principle library by the project's architect. The rules represent committed choices, not suggestions.\n\nThe companion file CONVENTIONS.md holds this project's structured and mechanical conventions, organized by citable rule ID. The agent reads both files when starting work and cites the rule IDs from CONVENTIONS.md when referencing them in commits or PR descriptions.\n\nDo not edit this file by hand. To change the rules, edit the project's principle selection and regenerate via camerata.\n\n---\n\n");
}

// ---------------------------------------------------------------- guide reader

/// A heading or paragraph line closes the open list: after it, no list is
/// open; the blocks read so far stay in front; the open list (when it has
/// items) becomes the next block; and the line's own block comes last.
/// So a heading after a list item always lands after the list holding it.
pub proof fn law_heading_closes_list(ls: Seq<Seq<char>>, l: Seq<char>)
    requires
        trim(l).len() > 0,
        !has_prefix(trim(l), "- "@),
    ensures ({
        let before = crate::workspace::md_scan(ls);
        let after = crate::workspace::md_scan(ls.push(l));
        let k = before.0.len();
        &&& after.1.len() == 0
        &&& after.0.len() == k + (if before.1.len() > 0 { 2int } else { 1int })
        &&& after.0.take(k as int) == before.0
        &&& before.1.len() > 0 ==> after.0[k as int] == crate::workspace::BlockView::List(before.1)
        &&& has_prefix(trim(l), "## "@) ==> after.0.last() == crate::workspace::BlockView::H2(trim(l).skip(3))
    }),
{
    assert(ls.push(l).drop_last() =~= ls);
    let before = crate::workspace::md_scan(ls);
    let after = crate::workspace::md_scan(ls.push(l));
    let b = crate::workspace::flush(before.0, before.1);
    assert(b.take(before.0.len() as int) =~= before.0);
    if before.1.len() > 0 {
        assert(b[before.0.len() as int] == crate::workspace::BlockView::List(before.1));
    }
    let k = before.0.len();
    assert(after.0.take(k as int) =~= b.take(k as int));
}

/// A list item followed by a heading: the list holding the item is the
/// block just before the heading, and no list stays open.
pub proof fn law_list_then_heading(ls: Seq<Seq<char>>, item: Seq<char>, h: Seq<char>)
    requires
        has_prefix(trim(item), "- "@),
        has_prefix(trim(h), "## "@),
    ensures ({
        let after = crate::workspace::md_scan(ls.push(item).push(h));
        &&& after.1.len() == 0
        &&& after.0.len() >= 2
        &&& after.0.last() == crate::workspace::BlockView::H2(trim(h).skip(3))
        &&& after.0[after.0.len() - 2] matches crate::workspace::BlockView::List(items)
            && items.len() > 0 && items.last() == trim(item).skip(2)
    }),
{
    reveal_strlit("- ");
    reveal_strlit("## ");
    assert(trim(h).take(3)[0] == '#');
    assert(trim(h).len() > 0);
    assert(!has_prefix(trim(h), "- "@)) by {
        assert(trim(h).take(2)[0] == trim(h)[0]);
        assert(trim(h).take(3)[0] == trim(h)[0]);
    }
    assert(trim(item).take(2)[0] == '-');
    assert(trim(item).len() > 0);
    let ls1 = ls.push(item);
    assert(ls1.drop_last() =~= ls);
    let mid = crate::workspace::md_scan(ls1);
    assert(mid.1.len() > 0);
    assert(mid.1.last() == trim(item).skip(2));
    law_heading_closes_list(ls1, h);
}

} // verus!
