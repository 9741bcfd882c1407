//! Character-level text helpers shared by the parsers and renderers.
//!
//! Text is modelled by its view, a `Seq<char>`. The scanners here work on a
//! `Vec<char>` copy of a string and report index ranges, so callers can state
//! their results as subranges of the input text.

use vstd::prelude::*;

verus! {

/// The Unicode `White_Space` property, which is what `char::is_whitespace`
/// and `str::trim` use.
pub open spec fn is_ws(c: char) -> bool {
    ||| ('\u{9}' <= c && c <= '\u{d}')
    ||| c == ' '
    ||| c == '\u{85}'
    ||| c == '\u{a0}'
    ||| c == '\u{1680}'
    ||| ('\u{2000}' <= c && c <= '\u{200a}')
    ||| c == '\u{2028}'
    ||| c == '\u{2029}'
    ||| c == '\u{202f}'
    ||| c == '\u{205f}'
    ||| c == '\u{3000}'
}

/// The characters that a strip removes: whitespace, or the double quote.
pub open spec fn strip_pred(c: char, quote: bool) -> bool {
    if quote {
        c == '"'
    } else {
        is_ws(c)
    }
}

/// Number of leading characters removed by a strip.
pub open spec fn lead_count(s: Seq<char>, quote: bool) -> nat
    decreases s.len(),
{
    if s.len() > 0 && strip_pred(s[0], quote) {
        1 + lead_count(s.drop_first(), quote)
    } else {
        0
    }
}

/// Number of trailing characters removed by a strip.
pub open spec fn trail_count(s: Seq<char>, quote: bool) -> nat
    decreases s.len(),
{
    if s.len() > 0 && strip_pred(s.last(), quote) {
        1 + trail_count(s.drop_last(), quote)
    } else {
        0
    }
}

/// Remove the stripped characters from both ends.
pub open spec fn strip_both(s: Seq<char>, quote: bool) -> Seq<char> {
    let t = s.skip(lead_count(s, quote) as int);
    t.take(t.len() - trail_count(t, quote))
}

/// `str::trim`.
pub open spec fn trim(s: Seq<char>) -> Seq<char> {
    strip_both(s, false)
}

/// `str::trim_matches('"')`.
pub open spec fn trim_quotes(s: Seq<char>) -> Seq<char> {
    strip_both(s, true)
}

/// `str::starts_with`.
pub open spec fn has_prefix(s: Seq<char>, p: Seq<char>) -> bool {
    p.len() <= s.len() && s.take(p.len() as int) == p
}

/// Index of the first occurrence of `c`, or the length when there is none.
pub open spec fn first_index(s: Seq<char>, c: char) -> nat
    decreases s.len(),
{
    if s.len() == 0 {
        0
    } else if s[0] == c {
        0
    } else {
        1 + first_index(s.drop_first(), c)
    }
}

/// The pieces of `s` between occurrences of `sep` (`str::split(sep)`).
pub open spec fn split_on(s: Seq<char>, sep: char) -> Seq<Seq<char>>
    decreases s.len(),
{
    if s.len() == 0 {
        seq![Seq::<char>::empty()]
    } else {
        let r = split_on(s.drop_last(), sep);
        if s.last() == sep {
            r.push(Seq::<char>::empty())
        } else {
            r.update(r.len() - 1, r.last().push(s.last()))
        }
    }
}

/// The pieces of `s` between newline characters.
pub open spec fn split_nl(s: Seq<char>) -> Seq<Seq<char>> {
    split_on(s, '\n')
}

/// The lines of `s`: its newline-separated pieces, without the empty piece
/// that follows a final newline. A carriage return before a newline stays in
/// its line; every caller trims its lines, and trimming removes it.
pub open spec fn lines(s: Seq<char>) -> Seq<Seq<char>> {
    let r = split_nl(s);
    if r.last().len() == 0 {
        r.drop_last()
    } else {
        r
    }
}

/// Strict lexicographic order by code point, the order of `str` and `String`.
pub open spec fn precedes(a: Seq<char>, b: Seq<char>) -> bool
    decreases a.len(),
{
    if a.len() == 0 {
        b.len() > 0
    } else if b.len() == 0 {
        false
    } else if a[0] != b[0] {
        a[0] < b[0]
    } else {
        precedes(a.drop_first(), b.drop_first())
    }
}

/// Decimal digits of `n`, as `format!("{}", n)` writes them.
pub open spec fn decimal(n: nat) -> Seq<char>
    decreases n,
{
    if n < 10 {
        seq![digit_char(n)]
    } else {
        decimal(n / 10).push(digit_char(n % 10))
    }
}

/// The lower-case hexadecimal digit for `d < 16`.
pub open spec fn digit_char(d: nat) -> char {
    if d == 0 { '0' }
    else if d == 1 { '1' }
    else if d == 2 { '2' }
    else if d == 3 { '3' }
    else if d == 4 { '4' }
    else if d == 5 { '5' }
    else if d == 6 { '6' }
    else if d == 7 { '7' }
    else if d == 8 { '8' }
    else if d == 9 { '9' }
    else if d == 10 { 'a' }
    else if d == 11 { 'b' }
    else if d == 12 { 'c' }
    else if d == 13 { 'd' }
    else if d == 14 { 'e' }
    else { 'f' }
}

/// The last `width` lower-case hexadecimal digits of `n`, zero-padded:
/// `format!("{:016x}", n)` is `hex_fixed(n, 16)` for a `u64`.
pub open spec fn hex_fixed(n: nat, width: nat) -> Seq<char>
    decreases width,
{
    if width == 0 {
        Seq::<char>::empty()
    } else {
        hex_fixed(n / 16, (width - 1) as nat).push(digit_char(n % 16))
    }
}

// ---------------------------------------------------------------- lemmas

pub proof fn lemma_lead_count_bound(s: Seq<char>, quote: bool)
    ensures
        lead_count(s, quote) <= s.len(),
    decreases s.len(),
{
    if s.len() > 0 && strip_pred(s[0], quote) {
        lemma_lead_count_bound(s.drop_first(), quote);
    }
}

pub proof fn lemma_trail_count_bound(s: Seq<char>, quote: bool)
    ensures
        trail_count(s, quote) <= s.len(),
    decreases s.len(),
{
    if s.len() > 0 && strip_pred(s.last(), quote) {
        lemma_trail_count_bound(s.drop_last(), quote);
    }
}

/// `lead_count` is the length of the maximal run of stripped characters.
pub proof fn lemma_lead_count_is(s: Seq<char>, quote: bool, i: int)
    requires
        0 <= i <= s.len(),
        forall|k: int| 0 <= k < i ==> strip_pred(#[trigger] s[k], quote),
        i == s.len() || !strip_pred(s[i], quote),
    ensures
        lead_count(s, quote) == i,
    decreases i,
{
    if i > 0 {
        let t = s.drop_first();
        assert forall|k: int| 0 <= k < i - 1 implies strip_pred(#[trigger] t[k], quote) by {
            assert(t[k] == s[k + 1]);
        }
        if i < s.len() {
            assert(t[i - 1] == s[i]);
        }
        lemma_lead_count_is(t, quote, i - 1);
    }
}

/// `trail_count` is the length of the maximal trailing run of stripped characters.
pub proof fn lemma_trail_count_is(s: Seq<char>, quote: bool, j: int)
    requires
        0 <= j <= s.len(),
        forall|k: int| j <= k < s.len() ==> strip_pred(#[trigger] s[k], quote),
        j == 0 || !strip_pred(s[j - 1], quote),
    ensures
        trail_count(s, quote) == s.len() - j,
    decreases s.len() - j,
{
    if j < s.len() {
        let t = s.drop_last();
        assert forall|k: int| j <= k < t.len() implies strip_pred(#[trigger] t[k], quote) by {
            assert(t[k] == s[k]);
        }
        if j > 0 {
            assert(t[j - 1] == s[j - 1]);
        }
        lemma_trail_count_is(t, quote, j);
    }
}

pub proof fn lemma_split_on_nonempty(s: Seq<char>, sep: char)
    ensures
        split_on(s, sep).len() >= 1,
    decreases s.len(),
{
    if s.len() > 0 {
        lemma_split_on_nonempty(s.drop_last(), sep);
    }
}

pub proof fn lemma_precedes_irreflexive(a: Seq<char>)
    ensures
        !precedes(a, a),
    decreases a.len(),
{
    if a.len() > 0 {
        lemma_precedes_irreflexive(a.drop_first());
    }
}

pub proof fn lemma_precedes_asymmetric(a: Seq<char>, b: Seq<char>)
    ensures
        !(precedes(a, b) && precedes(b, a)),
    decreases a.len(),
{
    if a.len() > 0 && b.len() > 0 && a[0] == b[0] {
        lemma_precedes_asymmetric(a.drop_first(), b.drop_first());
    }
}

pub proof fn lemma_precedes_total(a: Seq<char>, b: Seq<char>)
    ensures
        precedes(a, b) || precedes(b, a) || a == b,
    decreases a.len(),
{
    if a.len() > 0 && b.len() > 0 && a[0] == b[0] {
        lemma_precedes_total(a.drop_first(), b.drop_first());
        if a.drop_first() == b.drop_first() {
            assert(a =~= seq![a[0]] + a.drop_first());
            assert(b =~= seq![b[0]] + b.drop_first());
        }
    } else if a.len() == 0 && b.len() == 0 {
        assert(a =~= b);
    }
}

pub proof fn lemma_precedes_transitive(a: Seq<char>, b: Seq<char>, c: Seq<char>)
    requires
        precedes(a, b),
        precedes(b, c),
    ensures
        precedes(a, c),
    decreases a.len(),
{
    if a.len() > 0 && b.len() > 0 && c.len() > 0 && a[0] == b[0] && b[0] == c[0] {
        lemma_precedes_transitive(a.drop_first(), b.drop_first(), c.drop_first());
    }
}

// ---------------------------------------------------------------- exec

/// Calls std's `String::push`. Trusted, not proved: the string afterwards
/// holds its earlier characters followed by `c`.
#[verifier::external_body]
pub(crate) fn push_char(s: &mut String, c: char)
    ensures
        final(s)@ == old(s)@.push(c),
{
    s.push(c);
}

/// Whether two strings hold the same characters.
pub fn str_equal(a: &str, b: &str) -> (r: bool)
    ensures
        r == (a@ == b@),
{
    let va = chars_of(a);
    let vb = chars_of(b);
    if va.len() != vb.len() {
        return false;
    }
    let mut k: usize = 0;
    while k < va.len()
        invariant
            va@ == a@,
            vb@ == b@,
            va@.len() == vb@.len(),
            k <= va@.len(),
            forall|j: int| 0 <= j < k ==> va@[j] == vb@[j],
        decreases va@.len() - k,
    {
        if va[k] != vb[k] {
            return false;
        }
        k = k + 1;
    }
    assert(va@ =~= vb@);
    true
}

/// The characters of `s`, in order.
pub fn chars_of(s: &str) -> (out: Vec<char>)
    ensures
        out@ == s@,
{
    let mut out: Vec<char> = Vec::new();
    for c in it: s.chars()
        invariant
            out@ == it.seq().take(it.index() as int),
    {
        out.push(c);
    }
    out
}

/// Append `v[from..to]` to `s`.
pub fn push_range(s: &mut String, v: &Vec<char>, from: usize, to: usize)
    requires
        from <= to <= v@.len(),
    ensures
        final(s)@ == old(s)@ + v@.subrange(from as int, to as int),
{
    let mut i = from;
    while i < to
        invariant
            from <= i <= to <= v@.len(),
            s@ == old(s)@ + v@.subrange(from as int, i as int),
        decreases to - i,
    {
        push_char(s, v[i]);
        assert(v@.subrange(from as int, i + 1) =~= v@.subrange(from as int, i as int).push(v@[i as int]));
        i = i + 1;
    }
}

/// A new `String` holding `v[from..to]`.
pub fn string_of_range(v: &Vec<char>, from: usize, to: usize) -> (s: String)
    requires
        from <= to <= v@.len(),
    ensures
        s@ == v@.subrange(from as int, to as int),
{
    let mut s = String::new();
    push_range(&mut s, v, from, to);
    assert(s@ =~= v@.subrange(from as int, to as int));
    s
}

fn strip_test(c: char, quote: bool) -> (r: bool)
    ensures
        r == strip_pred(c, quote),
{
    if quote {
        c == '"'
    } else {
        ('\u{9}' <= c && c <= '\u{d}') || c == ' ' || c == '\u{85}' || c == '\u{a0}'
            || c == '\u{1680}' || ('\u{2000}' <= c && c <= '\u{200a}') || c == '\u{2028}'
            || c == '\u{2029}' || c == '\u{202f}' || c == '\u{205f}' || c == '\u{3000}'
    }
}

/// The bounds of `v[from..to]` with stripped characters removed from both ends.
pub fn strip_range(v: &Vec<char>, from: usize, to: usize, quote: bool) -> (r: (usize, usize))
    requires
        from <= to <= v@.len(),
    ensures
        from <= r.0 <= r.1 <= to,
        v@.subrange(r.0 as int, r.1 as int) == strip_both(v@.subrange(from as int, to as int), quote),
{
    let mut i = from;
    while i < to && strip_test(v[i], quote)
        invariant
            from <= i <= to <= v@.len(),
            forall|k: int| from <= k < i ==> strip_pred(#[trigger] v@[k], quote),
        decreases to - i,
    {
        i = i + 1;
    }
    let mut j = to;
    while j > i && strip_test(v[j - 1], quote)
        invariant
            from <= i <= j <= to <= v@.len(),
            forall|k: int| j <= k < to ==> strip_pred(#[trigger] v@[k], quote),
        decreases j - i,
    {
        j = j - 1;
    }
    proof {
        let s = v@.subrange(from as int, to as int);
        assert forall|k: int| 0 <= k < i - from implies strip_pred(#[trigger] s[k], quote) by {
            assert(s[k] == v@[from + k]);
        }
        if i < to {
            assert(s[i - from] == v@[i as int]);
        }
        lemma_lead_count_is(s, quote, i - from);
        let t = s.skip(i - from);
        assert(t =~= v@.subrange(i as int, to as int));
        assert forall|k: int| j - i <= k < t.len() implies strip_pred(#[trigger] t[k], quote) by {
            assert(t[k] == v@[i + k]);
        }
        if j > i {
            assert(t[j - i - 1] == v@[j - 1]);
        }
        lemma_trail_count_is(t, quote, j - i);
        assert(t.take(t.len() - trail_count(t, quote)) =~= v@.subrange(i as int, j as int));
    }
    (i, j)
}

/// Whether `v[from..to]` starts with `p`.
pub fn range_has_prefix(v: &Vec<char>, from: usize, to: usize, p: &Vec<char>) -> (r: bool)
    requires
        from <= to <= v@.len(),
    ensures
        r == has_prefix(v@.subrange(from as int, to as int), p@),
{
    if p.len() > to - from {
        return false;
    }
    let mut k: usize = 0;
    while k < p.len()
        invariant
            p@.len() <= to - from,
            from <= to <= v@.len(),
            k <= p@.len(),
            forall|m: int| 0 <= m < k ==> v@[from + m] == p@[m],
        decreases p@.len() - k,
    {
        if v[from + k] != p[k] {
            proof {
                let s = v@.subrange(from as int, to as int);
                assert(s.take(p@.len() as int)[k as int] != p@[k as int]);
            }
            return false;
        }
        k = k + 1;
    }
    proof {
        let s = v@.subrange(from as int, to as int);
        assert(s.take(p@.len() as int) =~= p@);
    }
    true
}

/// Index of the first `c` in `v[from..to]`, as an offset from `from`.
pub fn range_first_index(v: &Vec<char>, from: usize, to: usize, c: char) -> (r: usize)
    requires
        from <= to <= v@.len(),
    ensures
        r == first_index(v@.subrange(from as int, to as int), c),
        r <= to - from,
{
    let mut i = from;
    while i < to && v[i] != c
        invariant
            from <= i <= to <= v@.len(),
            forall|k: int| from <= k < i ==> v@[k] != c,
        decreases to - i,
    {
        i = i + 1;
    }
    proof {
        lemma_first_index_is(v@.subrange(from as int, to as int), c, i - from);
    }
    i - from
}

pub proof fn lemma_first_index_is(s: Seq<char>, c: char, i: int)
    requires
        0 <= i <= s.len(),
        forall|k: int| 0 <= k < i ==> s[k] != c,
        i == s.len() || s[i] == c,
    ensures
        first_index(s, c) == i,
    decreases i,
{
    if i > 0 {
        let t = s.drop_first();
        assert forall|k: int| 0 <= k < i - 1 implies t[k] != c by {
            assert(t[k] == s[k + 1]);
        }
        if i < s.len() {
            assert(t[i - 1] == s[i]);
        }
        assert(s[0] != c);
        lemma_first_index_is(t, c, i - 1);
    }
}

/// Whether `a` precedes `b` in lexicographic code-point order.
pub fn chars_precede(a: &Vec<char>, b: &Vec<char>) -> (r: bool)
    ensures
        r == precedes(a@, b@),
{
    let mut k: usize = 0;
    while k < a.len() && k < b.len() && a[k] == b[k]
        invariant
            k <= a@.len(),
            k <= b@.len(),
            a@.take(k as int) == b@.take(k as int),
        decreases a@.len() - k,
    {
        proof {
            assert(a@.take(k + 1) =~= a@.take(k as int).push(a@[k as int]));
            assert(b@.take(k + 1) =~= b@.take(k as int).push(b@[k as int]));
        }
        k = k + 1;
    }
    proof {
        lemma_precedes_after_common(a@, b@, k as int);
    }
    if k == a.len() {
        k < b.len()
    } else if k == b.len() {
        false
    } else {
        a[k] < b[k]
    }
}

pub proof fn lemma_precedes_after_common(a: Seq<char>, b: Seq<char>, k: int)
    requires
        0 <= k <= a.len(),
        k <= b.len(),
        a.take(k) == b.take(k),
    ensures
        precedes(a, b) == precedes(a.skip(k), b.skip(k)),
    decreases k,
{
    if k > 0 {
        assert(a[0] == a.take(k)[0]);
        assert(b[0] == b.take(k)[0]);
        assert(a.drop_first().take(k - 1) =~= a.take(k).drop_first());
        assert(b.drop_first().take(k - 1) =~= b.take(k).drop_first());
        lemma_precedes_after_common(a.drop_first(), b.drop_first(), k - 1);
        assert(a.drop_first().skip(k - 1) =~= a.skip(k));
        assert(b.drop_first().skip(k - 1) =~= b.skip(k));
    } else {
        assert(a.skip(0) =~= a);
        assert(b.skip(0) =~= b);
    }
}

/// Whether `a` comes strictly before `b` in the lexicographic order of their characters.
pub fn text_precedes(a: &str, b: &str) -> (r: bool)
    ensures
        r == precedes(a@, b@),
{
    let va = chars_of(a);
    let vb = chars_of(b);
    chars_precede(&va, &vb)
}

fn digit_of(d: u64) -> (c: char)
    requires
        d < 16,
    ensures
        c == digit_char(d as nat),
{
    if d == 0 { '0' }
    else if d == 1 { '1' }
    else if d == 2 { '2' }
    else if d == 3 { '3' }
    else if d == 4 { '4' }
    else if d == 5 { '5' }
    else if d == 6 { '6' }
    else if d == 7 { '7' }
    else if d == 8 { '8' }
    else if d == 9 { '9' }
    else if d == 10 { 'a' }
    else if d == 11 { 'b' }
    else if d == 12 { 'c' }
    else if d == 13 { 'd' }
    else if d == 14 { 'e' }
    else { 'f' }
}

/// Append the decimal digits of `n` to `s`.
pub fn push_decimal(s: &mut String, n: u64)
    ensures
        final(s)@ == old(s)@ + decimal(n as nat),
    decreases n,
{
    if n >= 10 {
        push_decimal(s, n / 10);
    }
    push_char(s, digit_of(n % 10));
    proof {
        if n >= 10 {
            assert(decimal(n as nat) == decimal((n / 10) as nat).push(digit_char((n % 10) as nat)));
        } else {
            assert(decimal(n as nat) == seq![digit_char(n as nat)]);
        }
    }
    assert(s@ =~= old(s)@ + decimal(n as nat));
}

/// Append the last `width` hexadecimal digits of `n`, zero-padded.
pub fn push_hex_fixed(s: &mut String, n: u64, width: u64)
    ensures
        final(s)@ == old(s)@ + hex_fixed(n as nat, width as nat),
    decreases width,
{
    if width > 0 {
        push_hex_fixed(s, n / 16, width - 1);
        push_char(s, digit_of(n % 16));
    }
    assert(s@ =~= old(s)@ + hex_fixed(n as nat, width as nat));
}

/// Whether a sorted list of distinct strings contains `x`.
pub open spec fn holds(v: Seq<String>, x: Seq<char>) -> bool {
    exists|i: int| 0 <= i < v.len() && v[i]@ == x
}

/// Strictly increasing in lexicographic order (so also free of duplicates).
pub open spec fn strictly_sorted(v: Seq<String>) -> bool {
    forall|i: int, j: int| 0 <= i < j < v.len() ==> precedes(#[trigger] v[i]@, #[trigger] v[j]@)
}

/// Insert `x` into a strictly sorted list unless it is already there.
pub fn insert_sorted_unique(v: &mut Vec<String>, x: &str)
    requires
        strictly_sorted(old(v)@),
    ensures
        strictly_sorted(final(v)@),
        forall|y: Seq<char>| #[trigger] holds(final(v)@, y) <==> (holds(old(v)@, y) || y == x@),
{
    let ghost old_v = v@;
    let mut p: usize = 0;
    while p < v.len() && text_precedes(v[p].as_str(), x)
        invariant
            p <= v@.len(),
            v@ == old_v,
            forall|q: int| 0 <= q < p ==> precedes(#[trigger] v@[q]@, x@),
        decreases v@.len() - p,
    {
        p = p + 1;
    }
    if p < v.len() && str_equal(v[p].as_str(), x) {
        proof {
            assert forall|y: Seq<char>| #[trigger] holds(v@, y) <==> (holds(old_v, y) || y == x@) by {
                if y == x@ {
                    assert(v@[p as int]@ == y);
                }
            }
        }
        return;
    }
    proof {
        lemma_precedes_irreflexive(x@);
        if p < old_v.len() {
            let vp = old_v[p as int]@;
            lemma_precedes_total(vp, x@);
            assert forall|j: int| p < j < old_v.len() implies precedes(x@, #[trigger] old_v[j]@) by {
                lemma_precedes_transitive(x@, vp, old_v[j]@);
            }
        }
    }
    v.insert(p, String::from_str(x));
    proof {
        assert forall|i: int, j: int| 0 <= i < j < v@.len() implies precedes(#[trigger] v@[i]@, #[trigger] v@[j]@) by {
            if i < p && j < p {
                assert(v@[i] == old_v[i] && v@[j] == old_v[j]);
            } else if i < p && j == p {
                assert(v@[i] == old_v[i]);
            } else if i < p {
                assert(v@[i] == old_v[i] && v@[j] == old_v[j - 1]);
                lemma_precedes_transitive(old_v[i]@, x@, old_v[j - 1]@);
            } else if i == p {
                assert(v@[j] == old_v[j - 1]);
            } else {
                assert(v@[i] == old_v[i - 1] && v@[j] == old_v[j - 1]);
            }
        }
        assert forall|y: Seq<char>| #[trigger] holds(v@, y) <==> (holds(old_v, y) || y == x@) by {
            if holds(old_v, y) {
                let i = choose|i: int| 0 <= i < old_v.len() && old_v[i]@ == y;
                if i < p {
                    assert(v@[i]@ == y);
                } else {
                    assert(v@[i + 1]@ == y);
                }
            }
            if y == x@ {
                assert(v@[p as int]@ == y);
            }
            if holds(v@, y) {
                let i = choose|i: int| 0 <= i < v@.len() && v@[i]@ == y;
                if i < p {
                    assert(v@[i] == old_v[i]);
                } else if i > p {
                    assert(v@[i] == old_v[i - 1]);
                }
            }
        }
    }
}

} // verus!
