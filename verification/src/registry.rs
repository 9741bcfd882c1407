//! The principle library as loaded: definitions ordered by id, and the stacks
//! they cover.

use vstd::prelude::*;
use crate::principle::{stack_base_of, Principle};
use crate::text::{holds, insert_sorted_unique, precedes, strictly_sorted, text_precedes};

verus! {

/// Input position `a` comes before `b` when ordering by id: a smaller id, or
/// the same id and an earlier position.
pub open spec fn id_before(ps: Seq<Principle>, a: int, b: int) -> bool {
    precedes(ps[a].id@, ps[b].id@) || (ps[a].id@ == ps[b].id@ && a < b)
}

/// `out` is `ps` sorted by id with ties kept in input order, through the
/// rearrangement `perm` (position in `out` to position in `ps`).
pub open spec fn sorted_by_id(ps: Seq<Principle>, out: Seq<Principle>, perm: Seq<int>) -> bool {
    &&& perm.len() == ps.len()
    &&& out.len() == ps.len()
    &&& forall|i: int| 0 <= i < perm.len() ==> 0 <= #[trigger] perm[i] < ps.len() && out[i] == ps[perm[i]]
    &&& forall|i: int, j: int| 0 <= i < j < perm.len() ==> id_before(ps, #[trigger] perm[i], #[trigger] perm[j])
}

proof fn lemma_id_before_transitive(ps: Seq<Principle>, a: int, b: int, c: int)
    requires
        id_before(ps, a, b),
        id_before(ps, b, c),
    ensures
        id_before(ps, a, c),
{
    if precedes(ps[a].id@, ps[b].id@) && precedes(ps[b].id@, ps[c].id@) {
        crate::text::lemma_precedes_transitive(ps[a].id@, ps[b].id@, ps[c].id@);
    }
}

/// The library ordered by id, ties in input order (a stable sort). The
/// definitions are read and parsed by the caller; this is the order the
/// library is presented in.
pub fn load_all(principles: Vec<Principle>) -> (r: Vec<Principle>)
    ensures
        exists|perm: Seq<int>| sorted_by_id(principles@, r@, perm),
{
    let ghost ps = principles@;
    let n = principles.len();
    let mut v = principles;
    let ghost mut perm: Seq<int> = Seq::new(n as nat, |i: int| i);
    let mut k: usize = 0;
    while k < n
        invariant
            k <= n,
            n == ps.len(),
            v@.len() == n,
            perm.len() == n,
            forall|i: int| 0 <= i < n ==> 0 <= #[trigger] perm[i] < n && v@[i] == ps[perm[i]],
            forall|i: int| k <= i < n ==> #[trigger] perm[i] == i,
            forall|i: int| 0 <= i < k ==> #[trigger] perm[i] < k,
            forall|i: int, j: int| 0 <= i < j < k ==> id_before(ps, #[trigger] perm[i], #[trigger] perm[j]),
        decreases n - k,
    {
        assert(perm[k as int] == k);
        assert(v@[k as int] == ps[k as int]);
        let ghost before = v@;
        let x = v.remove(k);
        let ghost rest = v@;
        assert(x == ps[k as int]);
        assert(rest.len() == n - 1);
        let mut p = k;
        while p > 0 && text_precedes(x.id.as_str(), v[p - 1].id.as_str())
            invariant
                p <= k < n,
                v@ == rest,
                rest.len() == n - 1,
                n == ps.len(),
                x == ps[k as int],
                forall|q: int| p <= q < k ==> precedes(x.id@, #[trigger] rest[q].id@),
            decreases p,
        {
            p = p - 1;
        }
        let ghost old_perm = perm;
        proof {
            // the element before `p` is ordered before `k`; those from `p` on after it
            if p > 0 {
                let b = old_perm[p - 1];
                assert(v@[p - 1] == ps[b]);
                crate::text::lemma_precedes_total(ps[k as int].id@, ps[b].id@);
                assert(b < k);
                assert(id_before(ps, b, k as int));
                assert forall|q: int| 0 <= q < p - 1 implies id_before(ps, #[trigger] old_perm[q], k as int) by {
                    lemma_id_before_transitive(ps, old_perm[q], b, k as int);
                }
            }
            assert forall|q: int| p <= q < k implies id_before(ps, k as int, #[trigger] old_perm[q]) by {
                assert(rest[q] == ps[old_perm[q]]);
            }
            perm = old_perm.take(k as int).insert(p as int, k as int) + old_perm.skip(k + 1);
        }
        v.insert(p, x);
        proof {
            assert forall|i: int| 0 <= i < n implies 0 <= #[trigger] perm[i] < n && v@[i] == ps[perm[i]] by {
                if i < p {
                    assert(perm[i] == old_perm[i]);
                    assert(v@[i] == rest[i]);
                } else if i == p {
                } else if i <= k {
                    assert(perm[i] == old_perm[i - 1]);
                    assert(v@[i] == rest[i - 1]);
                } else {
                    assert(perm[i] == old_perm[i]);
                    assert(v@[i] == rest[i - 1]);
                }
            }
            assert forall|i: int| k + 1 <= i < n implies #[trigger] perm[i] == i by {
                assert(perm[i] == old_perm[i]);
            }
            assert forall|i: int| 0 <= i < k + 1 implies #[trigger] perm[i] < k + 1 by {
                if i < p {
                    assert(perm[i] == old_perm[i]);
                } else if i > p {
                    assert(perm[i] == old_perm[i - 1]);
                }
            }
            assert forall|i: int, j: int| 0 <= i < j < k + 1 implies id_before(ps, #[trigger] perm[i], #[trigger] perm[j]) by {
                if i < p && j < p {
                    assert(perm[i] == old_perm[i] && perm[j] == old_perm[j]);
                } else if i < p && j == p {
                    assert(perm[i] == old_perm[i]);
                    if i == p - 1 {
                    }
                } else if i < p {
                    assert(perm[i] == old_perm[i] && perm[j] == old_perm[j - 1]);
                } else if i == p {
                    assert(perm[j] == old_perm[j - 1]);
                } else {
                    assert(perm[i] == old_perm[i - 1] && perm[j] == old_perm[j - 1]);
                }
            }
        }
        k = k + 1;
    }
    assert(sorted_by_id(ps, v@, perm));
    v
}

/// Some principle lies in stack `s`.
pub open spec fn has_stack(ps: Seq<Principle>, s: Seq<char>) -> bool {
    exists|k: int| 0 <= k < ps.len() && stack_base_of(ps[k].domain@) == Some(s)
}

/// The distinct stack bases present in the library (e.g. "rust"), in order.
pub fn available_stacks(principles: &[Principle]) -> (r: Vec<String>)
    ensures
        strictly_sorted(r@),
        forall|s: Seq<char>| #[trigger] holds(r@, s) <==> has_stack(principles@, s),
{
    let mut out: Vec<String> = Vec::new();
    let mut i: usize = 0;
    while i < principles.len()
        invariant
            i <= principles@.len(),
            strictly_sorted(out@),
            forall|s: Seq<char>| #[trigger] holds(out@, s) <==> has_stack(principles@.take(i as int), s),
        decreases principles@.len() - i,
    {
        let ghost before = out@;
        if let Some(b) = principles[i].stack_base() {
            insert_sorted_unique(&mut out, b);
        }
        proof {
            let pt = principles@.take(i + 1);
            assert forall|s: Seq<char>| #[trigger] holds(out@, s) <==> has_stack(pt, s) by {
                if has_stack(principles@.take(i as int), s) {
                    let k = choose|k: int| 0 <= k < i && stack_base_of(principles@.take(i as int)[k].domain@) == Some(s);
                    assert(pt[k] == principles@.take(i as int)[k]);
                }
                if has_stack(pt, s) {
                    let k = choose|k: int| 0 <= k < i + 1 && stack_base_of(pt[k].domain@) == Some(s);
                    if k < i {
                        assert(pt[k] == principles@.take(i as int)[k]);
                    }
                }
                if stack_base_of(principles@[i as int].domain@) == Some(s) {
                    assert(pt[i as int] == principles@[i as int]);
                }
            }
        }
        i = i + 1;
    }
    assert(principles@.take(principles@.len() as int) =~= principles@);
    out
}

} // verus!
