//! Output directories compared as paths, component by component, the way
//! `std::path::Path` compares and orders them on Unix: repeated and trailing
//! separators and interior `.` segments do not count, so `x`, `x/` and `x/.`
//! name one directory.

use vstd::prelude::*;
use crate::text::{chars_of, chars_precede, precedes, split_on, lemma_precedes_irreflexive,
    lemma_precedes_total, lemma_precedes_transitive, lemma_precedes_after_common};

verus! {

// ---------------------------------------------------------------- spec

/// The component a segment between separators contributes, as a rank and a
/// text: 0 the root, 1 a leading `.` of a relative path, 2 `..`, 3 a normal
/// name (with its text). Empty segments and other `.` segments add nothing.
pub open spec fn segment_part(seg: Seq<char>, first_of_relative: bool) -> Seq<(nat, Seq<char>)> {
    if seg.len() == 0 {
        Seq::empty()
    } else if seg == seq!['.'] {
        if first_of_relative { seq![(1nat, Seq::<char>::empty())] } else { Seq::empty() }
    } else if seg == seq!['.', '.'] {
        seq![(2nat, Seq::<char>::empty())]
    } else {
        seq![(3nat, seg)]
    }
}

/// The components of a list of segments; only the first segment of a relative
/// path can be a current-directory component.
pub open spec fn parts_of_segments(segs: Seq<Seq<char>>, relative: bool) -> Seq<(nat, Seq<char>)>
    decreases segs.len(),
{
    if segs.len() == 0 {
        Seq::empty()
    } else {
        parts_of_segments(segs.drop_last(), relative) + segment_part(segs.last(), relative && segs.len() == 1)
    }
}

/// Whether a path starts at the root.
pub open spec fn rooted(s: Seq<char>) -> bool {
    s.len() > 0 && s[0] == '/'
}

/// The components of a path, as `Path::components` yields them.
pub open spec fn path_components(s: Seq<char>) -> Seq<(nat, Seq<char>)> {
    (if rooted(s) { seq![(0nat, Seq::<char>::empty())] } else { Seq::empty() })
        + parts_of_segments(split_on(s, '/'), !rooted(s))
}

/// Two spellings name the same path.
pub open spec fn same_path(a: Seq<char>, b: Seq<char>) -> bool {
    path_components(a) == path_components(b)
}

/// Component order: by rank, then normal names by code point (the order of
/// their UTF-8 bytes).
pub open spec fn part_precedes(a: (nat, Seq<char>), b: (nat, Seq<char>)) -> bool {
    a.0 < b.0 || (a.0 == b.0 && precedes(a.1, b.1))
}

/// Lexicographic order of component lists.
pub open spec fn parts_precede(a: Seq<(nat, Seq<char>)>, b: Seq<(nat, Seq<char>)>) -> bool
    decreases a.len(),
{
    if a.len() == 0 {
        b.len() > 0
    } else if b.len() == 0 {
        false
    } else if a[0] != b[0] {
        part_precedes(a[0], b[0])
    } else {
        parts_precede(a.drop_first(), b.drop_first())
    }
}

/// Path order: `a` sorts strictly before `b` as a `Path`.
pub open spec fn path_precedes(a: Seq<char>, b: Seq<char>) -> bool {
    parts_precede(path_components(a), path_components(b))
}

pub open spec fn parts_view(v: Seq<(u8, Vec<char>)>) -> Seq<(nat, Seq<char>)> {
    v.map_values(|p: (u8, Vec<char>)| (p.0 as nat, p.1@))
}

// ---------------------------------------------------------------- lemmas

pub proof fn lemma_part_order(a: (nat, Seq<char>), b: (nat, Seq<char>), c: (nat, Seq<char>))
    ensures
        !part_precedes(a, a),
        part_precedes(a, b) || part_precedes(b, a) || a == b,
        part_precedes(a, b) && part_precedes(b, c) ==> part_precedes(a, c),
{
    lemma_precedes_irreflexive(a.1);
    lemma_precedes_total(a.1, b.1);
    if part_precedes(a, b) && part_precedes(b, c) && a.0 == b.0 && b.0 == c.0 {
        lemma_precedes_transitive(a.1, b.1, c.1);
    }
}

pub proof fn lemma_parts_irreflexive(a: Seq<(nat, Seq<char>)>)
    ensures
        !parts_precede(a, a),
    decreases a.len(),
{
    if a.len() > 0 {
        lemma_parts_irreflexive(a.drop_first());
    }
}

pub proof fn lemma_parts_total(a: Seq<(nat, Seq<char>)>, b: Seq<(nat, Seq<char>)>)
    ensures
        parts_precede(a, b) || parts_precede(b, a) || a == b,
    decreases a.len(),
{
    if a.len() > 0 && b.len() > 0 {
        if a[0] == b[0] {
            lemma_parts_total(a.drop_first(), b.drop_first());
            if a.drop_first() == b.drop_first() {
                assert(a =~= seq![a[0]] + a.drop_first());
                assert(b =~= seq![b[0]] + b.drop_first());
            }
        } else {
            lemma_part_order(a[0], b[0], b[0]);
        }
    } else if a.len() == 0 && b.len() == 0 {
        assert(a =~= b);
    }
}

pub proof fn lemma_parts_transitive(a: Seq<(nat, Seq<char>)>, b: Seq<(nat, Seq<char>)>, c: Seq<(nat, Seq<char>)>)
    requires
        parts_precede(a, b),
        parts_precede(b, c),
    ensures
        parts_precede(a, c),
    decreases a.len(),
{
    if a.len() > 0 && b.len() > 0 && c.len() > 0 {
        lemma_part_order(a[0], b[0], c[0]);
        lemma_part_order(a[0], c[0], b[0]);
        lemma_part_order(b[0], a[0], c[0]);
        if a[0] == b[0] && b[0] == c[0] {
            lemma_parts_transitive(a.drop_first(), b.drop_first(), c.drop_first());
        }
    }
}

pub proof fn lemma_parts_after_common(a: Seq<(nat, Seq<char>)>, b: Seq<(nat, Seq<char>)>, k: int)
    requires
        0 <= k <= a.len(),
        k <= b.len(),
        a.take(k) == b.take(k),
    ensures
        parts_precede(a, b) == parts_precede(a.skip(k), b.skip(k)),
    decreases k,
{
    if k > 0 {
        assert(a[0] == a.take(k)[0]);
        assert(b[0] == b.take(k)[0]);
        assert(a.drop_first().take(k - 1) =~= a.take(k).drop_first());
        assert(b.drop_first().take(k - 1) =~= b.take(k).drop_first());
        lemma_parts_after_common(a.drop_first(), b.drop_first(), k - 1);
        assert(a.drop_first().skip(k - 1) =~= a.skip(k));
        assert(b.drop_first().skip(k - 1) =~= b.skip(k));
    } else {
        assert(a.skip(0) =~= a);
        assert(b.skip(0) =~= b);
    }
}

/// Path order is a strict total order on paths (up to `same_path`).
pub proof fn lemma_path_order(a: Seq<char>, b: Seq<char>, c: Seq<char>)
    ensures
        !path_precedes(a, a),
        path_precedes(a, b) || path_precedes(b, a) || same_path(a, b),
        path_precedes(a, b) && path_precedes(b, c) ==> path_precedes(a, c),
        same_path(a, b) ==> !path_precedes(a, b),
        same_path(a, b) && path_precedes(b, c) ==> path_precedes(a, c),
        path_precedes(a, b) && same_path(b, c) ==> path_precedes(a, c),
{
    lemma_parts_irreflexive(path_components(a));
    lemma_parts_total(path_components(a), path_components(b));
    if path_precedes(a, b) && path_precedes(b, c) {
        lemma_parts_transitive(path_components(a), path_components(b), path_components(c));
    }
}

// ---------------------------------------------------------------- exec

fn chars_equal(a: &Vec<char>, b: &Vec<char>) -> (r: bool)
    ensures
        r == (a@ == b@),
{
    if a.len() != b.len() {
        return false;
    }
    let mut k: usize = 0;
    while k < a.len()
        invariant
            a@.len() == b@.len(),
            k <= a@.len(),
            forall|j: int| 0 <= j < k ==> a@[j] == b@[j],
        decreases a@.len() - k,
    {
        if a[k] != b[k] {
            return false;
        }
        k = k + 1;
    }
    assert(a@ =~= b@);
    true
}

fn part_equal(a: &(u8, Vec<char>), b: &(u8, Vec<char>)) -> (r: bool)
    ensures
        r == ((a.0 as nat, a.1@) == (b.0 as nat, b.1@)),
{
    a.0 == b.0 && chars_equal(&a.1, &b.1)
}

/// Append the component of segment `v[from..to]`.
fn push_segment(out: &mut Vec<(u8, Vec<char>)>, v: &Vec<char>, from: usize, to: usize, first_of_relative: bool)
    requires
        from <= to <= v@.len(),
    ensures
        parts_view(final(out)@) == parts_view(old(out)@) + segment_part(v@.subrange(from as int, to as int), first_of_relative),
{
    let ghost seg = v@.subrange(from as int, to as int);
    let ghost before = parts_view(out@);
    let n = to - from;
    if n == 0 {
        assert(parts_view(out@) =~= before + segment_part(seg, first_of_relative));
        return;
    }
    let dot = n == 1 && v[from] == '.';
    let dotdot = n == 2 && v[from] == '.' && v[from + 1] == '.';
    proof {
        assert(dot == (seg == seq!['.'])) by {
            if n == 1 && v@[from as int] == '.' {
                assert(seg =~= seq!['.']);
            }
            if seg == seq!['.'] {
                assert(seg.len() == n);
                assert(seg[0] == v@[from as int]);
            }
        }
        assert(dotdot == (seg == seq!['.', '.'])) by {
            if n == 2 && v@[from as int] == '.' && v@[from + 1] == '.' {
                assert(seg =~= seq!['.', '.']);
            }
            if seg == seq!['.', '.'] {
                assert(seg.len() == n);
                assert(seg[0] == v@[from as int]);
                assert(seg[1] == v@[from + 1]);
            }
        }
    }
    if dot {
        if first_of_relative {
            out.push((1u8, Vec::new()));
        }
    } else if dotdot {
        out.push((2u8, Vec::new()));
    } else {
        let mut text: Vec<char> = Vec::new();
        let mut k = from;
        while k < to
            invariant
                from <= k <= to <= v@.len(),
                text@ == v@.subrange(from as int, k as int),
            decreases to - k,
        {
            text.push(v[k]);
            assert(v@.subrange(from as int, k + 1) =~= v@.subrange(from as int, k as int).push(v@[k as int]));
            k = k + 1;
        }
        out.push((3u8, text));
    }
    assert(parts_view(out@) =~= before + segment_part(seg, first_of_relative));
}

/// The components of a path.
pub fn path_parts(s: &str) -> (r: Vec<(u8, Vec<char>)>)
    ensures
        parts_view(r@) == path_components(s@),
{
    let v = chars_of(s);
    let is_rooted = v.len() > 0 && v[0] == '/';
    assert(is_rooted == rooted(s@));
    let mut out: Vec<(u8, Vec<char>)> = Vec::new();
    if is_rooted {
        out.push((0u8, Vec::new()));
    }
    let ghost head = parts_view(out@);
    assert(head =~= if rooted(s@) { seq![(0nat, Seq::<char>::empty())] } else { Seq::<(nat, Seq<char>)>::empty() });
    let mut start: usize = 0;
    let mut i: usize = 0;
    let ghost mut done: Seq<Seq<char>> = Seq::empty();
    assert(v@.take(0) =~= Seq::<char>::empty());
    assert(split_on(v@.take(0), '/') =~= seq![Seq::<char>::empty()]);
    assert(parts_of_segments(done, !is_rooted) =~= Seq::<(nat, Seq<char>)>::empty());
    while i < v.len()
        invariant
            v@ == s@,
            is_rooted == rooted(s@),
            start <= i <= v@.len(),
            (start == 0) == (done.len() == 0),
            split_on(v@.take(i as int), '/') == done.push(v@.subrange(start as int, i as int)),
            parts_view(out@) == head + parts_of_segments(done, !is_rooted),
        decreases v@.len() - i,
    {
        let ghost prev = v@.take(i as int);
        assert(v@.take(i + 1).drop_last() =~= prev);
        if v[i] == '/' {
            push_segment(&mut out, &v, start, i, !is_rooted && start == 0);
            proof {
                let seg = v@.subrange(start as int, i as int);
                assert(done.push(seg).drop_last() =~= done);
                assert(parts_of_segments(done.push(seg), !is_rooted)
                    == parts_of_segments(done, !is_rooted) + segment_part(seg, !is_rooted && done.len() + 1 == 1));
                done = done.push(seg);
                assert(v@.subrange((i + 1) as int, (i + 1) as int) =~= Seq::<char>::empty());
            }
            start = i + 1;
        } else {
            proof {
                assert(v@.subrange(start as int, i + 1) =~= v@.subrange(start as int, i as int).push(v@[i as int]));
                let r = split_on(prev, '/');
                assert(r.update(r.len() - 1, r.last().push(v@[i as int])) =~= done.push(v@.subrange(start as int, i + 1)));
            }
        }
        i = i + 1;
    }
    assert(v@.take(v@.len() as int) =~= v@);
    push_segment(&mut out, &v, start, v.len(), !is_rooted && start == 0);
    proof {
        let seg = v@.subrange(start as int, v@.len() as int);
        assert(done.push(seg).drop_last() =~= done);
        assert(parts_of_segments(done.push(seg), !is_rooted)
            == parts_of_segments(done, !is_rooted) + segment_part(seg, !is_rooted && done.len() + 1 == 1));
        assert(parts_view(out@) =~= head + parts_of_segments(split_on(s@, '/'), !rooted(s@)));
    }
    out
}

fn parts_equal(a: &Vec<(u8, Vec<char>)>, b: &Vec<(u8, Vec<char>)>) -> (r: bool)
    ensures
        r == (parts_view(a@) == parts_view(b@)),
{
    if a.len() != b.len() {
        proof {
            assert(parts_view(a@).len() != parts_view(b@).len());
        }
        return false;
    }
    let mut k: usize = 0;
    while k < a.len()
        invariant
            a@.len() == b@.len(),
            k <= a@.len(),
            forall|j: int| 0 <= j < k ==> parts_view(a@)[j] == parts_view(b@)[j],
        decreases a@.len() - k,
    {
        if !part_equal(&a[k], &b[k]) {
            proof {
                assert(parts_view(a@)[k as int] != parts_view(b@)[k as int]);
            }
            return false;
        }
        k = k + 1;
    }
    assert(parts_view(a@) =~= parts_view(b@));
    true
}

fn parts_before(a: &Vec<(u8, Vec<char>)>, b: &Vec<(u8, Vec<char>)>) -> (r: bool)
    ensures
        r == parts_precede(parts_view(a@), parts_view(b@)),
{
    let ghost av = parts_view(a@);
    let ghost bv = parts_view(b@);
    let mut k: usize = 0;
    while k < a.len() && k < b.len() && part_equal(&a[k], &b[k])
        invariant
            av == parts_view(a@),
            bv == parts_view(b@),
            k <= a@.len(),
            k <= b@.len(),
            av.take(k as int) == bv.take(k as int),
        decreases a@.len() - k,
    {
        proof {
            assert(av.take(k + 1) =~= av.take(k as int).push(av[k as int]));
            assert(bv.take(k + 1) =~= bv.take(k as int).push(bv[k as int]));
        }
        k = k + 1;
    }
    proof {
        lemma_parts_after_common(av, bv, k as int);
    }
    if k == a.len() {
        k < b.len()
    } else if k == b.len() {
        false
    } else {
        proof {
            assert(av.skip(k as int)[0] == av[k as int]);
            assert(bv.skip(k as int)[0] == bv[k as int]);
        }
        let pa = &a[k];
        let pb = &b[k];
        pa.0 < pb.0 || (pa.0 == pb.0 && chars_precede(&pa.1, &pb.1))
    }
}

/// Whether two spellings name the same path.
pub fn paths_equal(a: &str, b: &str) -> (r: bool)
    ensures
        r == same_path(a@, b@),
{
    let pa = path_parts(a);
    let pb = path_parts(b);
    parts_equal(&pa, &pb)
}

/// Whether path `a` sorts strictly before path `b`.
pub fn path_before(a: &str, b: &str) -> (r: bool)
    ensures
        r == path_precedes(a@, b@),
{
    let pa = path_parts(a);
    let pb = path_parts(b);
    parts_before(&pa, &pb)
}

/// Some entry of `v` names the path `x`.
pub open spec fn holds_path(v: Seq<String>, x: Seq<char>) -> bool {
    exists|i: int| 0 <= i < v.len() && same_path(v[i]@, x)
}

/// Strictly increasing in path order (so no two entries name one path).
pub open spec fn path_sorted(v: Seq<String>) -> bool {
    forall|i: int, j: int| 0 <= i < j < v.len() ==> path_precedes(#[trigger] v[i]@, #[trigger] v[j]@)
}

/// Insert `x` into a path-sorted list unless an entry already names its
/// path; an entry already there keeps its spelling.
pub fn insert_path(v: &mut Vec<String>, x: &str)
    requires
        path_sorted(old(v)@),
    ensures
        path_sorted(final(v)@),
        forall|y: Seq<char>| #[trigger] holds_path(final(v)@, y) <==> (holds_path(old(v)@, y) || same_path(y, x@)),
        forall|i: int| 0 <= i < final(v)@.len() ==>
            (exists|j: int| 0 <= j < old(v)@.len() && #[trigger] final(v)@[i] == old(v)@[j]) || final(v)@[i]@ == x@,
        holds_path(old(v)@, x@) ==> final(v)@ == old(v)@,
{
    let ghost old_v = v@;
    let mut p: usize = 0;
    while p < v.len() && path_before(v[p].as_str(), x)
        invariant
            p <= v@.len(),
            v@ == old_v,
            forall|q: int| 0 <= q < p ==> path_precedes(#[trigger] v@[q]@, x@),
        decreases v@.len() - p,
    {
        p = p + 1;
    }
    if p < v.len() && paths_equal(v[p].as_str(), x) {
        proof {
            assert forall|y: Seq<char>| #[trigger] holds_path(v@, y) <==> (holds_path(old_v, y) || same_path(y, x@)) by {
                if same_path(y, x@) {
                    assert(same_path(v@[p as int]@, y));
                }
            }
            assert forall|i: int| 0 <= i < v@.len() implies
                (exists|j: int| 0 <= j < old_v.len() && #[trigger] v@[i] == old_v[j]) || v@[i]@ == x@ by {
                assert(v@[i] == old_v[i]);
            }
        }
        return;
    }
    proof {
        if p < old_v.len() {
            let vp = old_v[p as int]@;
            lemma_path_order(vp, x@, vp);
            assert forall|j: int| p < j < old_v.len() implies path_precedes(x@, #[trigger] old_v[j]@) by {
                lemma_path_order(x@, vp, old_v[j]@);
            }
        }
        assert(!holds_path(old_v, x@)) by {
            if holds_path(old_v, x@) {
                let q = choose|q: int| 0 <= q < old_v.len() && same_path(old_v[q]@, x@);
                lemma_path_order(old_v[q]@, x@, x@);
                lemma_path_order(x@, old_v[q]@, x@);
                if q == p {
                    lemma_path_order(x@, x@, x@);
                }
            }
        }
    }
    v.insert(p, String::from_str(x));
    proof {
        assert forall|i: int, j: int| 0 <= i < j < v@.len() implies path_precedes(#[trigger] v@[i]@, #[trigger] v@[j]@) by {
            if i < p && j < p {
                assert(v@[i] == old_v[i] && v@[j] == old_v[j]);
            } else if i < p && j == p {
                assert(v@[i] == old_v[i]);
            } else if i < p {
                assert(v@[i] == old_v[i] && v@[j] == old_v[j - 1]);
                lemma_path_order(old_v[i]@, x@, old_v[j - 1]@);
            } else if i == p {
                assert(v@[j] == old_v[j - 1]);
            } else {
                assert(v@[i] == old_v[i - 1] && v@[j] == old_v[j - 1]);
            }
        }
        assert forall|y: Seq<char>| #[trigger] holds_path(v@, y) <==> (holds_path(old_v, y) || same_path(y, x@)) by {
            if holds_path(old_v, y) {
                let i = choose|i: int| 0 <= i < old_v.len() && same_path(old_v[i]@, y);
                if i < p {
                    assert(v@[i] == old_v[i]);
                } else {
                    assert(v@[i + 1] == old_v[i]);
                }
            }
            if same_path(y, x@) {
                assert(same_path(v@[p as int]@, y));
            }
            if holds_path(v@, y) {
                let i = choose|i: int| 0 <= i < v@.len() && same_path(v@[i]@, y);
                if i < p {
                    assert(v@[i] == old_v[i]);
                } else if i > p {
                    assert(v@[i] == old_v[i - 1]);
                }
            }
        }
        assert forall|i: int| 0 <= i < v@.len() implies
            (exists|j: int| 0 <= j < old_v.len() && #[trigger] v@[i] == old_v[j]) || v@[i]@ == x@ by {
            if i < p {
                assert(v@[i] == old_v[i]);
            } else if i > p {
                assert(v@[i] == old_v[i - 1]);
            }
        }
    }
}

} // verus!
