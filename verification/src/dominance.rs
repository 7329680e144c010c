//! Dominance between spectra, the boundary of a list of spectra, and what
//! holds of that boundary.

use crate::arithmetic::sum;
use crate::spectrum::Spectrum;
use vstd::prelude::*;

verus! {

/// `a` dominates `b`: both have the same length and no entry of `a` is
/// larger than the entry of `b` in its place.
pub open spec fn dominates(a: Seq<int>, b: Seq<int>) -> bool {
    a.len() == b.len() && forall|k: int| 0 <= k < a.len() ==> a[k] <= b[k]
}

/// The eigenvalues of each spectrum of a list.
pub open spec fn values_of(spectra: Seq<Spectrum>) -> Seq<Seq<int>> {
    spectra.map_values(|s: Spectrum| s@)
}

/// Whether entry `p` stays when `values` is collapsed: every other entry
/// that dominates it is a copy of it that comes later in the list.
pub open spec fn survives(values: Seq<Seq<int>>, p: int) -> bool {
    forall|q: int|
        0 <= q < values.len() && q != p && #[trigger] dominates(values[q], values[p]) ==> values[q]
            == values[p] && p < q
}

/// The positions from `lo` on that survive, in ascending order.
pub open spec fn surviving_from(values: Seq<Seq<int>>, lo: int) -> Seq<int>
    decreases values.len() - lo,
{
    if lo < 0 || lo >= values.len() {
        Seq::empty()
    } else if survives(values, lo) {
        seq![lo] + surviving_from(values, lo + 1)
    } else {
        surviving_from(values, lo + 1)
    }
}

/// The boundary of a list of spectra: the entries that no other entry
/// dominates, in their order, each value once (its first occurrence).
pub open spec fn frontier(spectra: Seq<Spectrum>) -> Seq<Spectrum> {
    surviving_from(values_of(spectra), 0).map_values(|p: int| spectra[p])
}

/// The boundary of a list of eigenvalue lists, without the spectra that
/// carry them.
pub open spec fn frontier_values(values: Seq<Seq<int>>) -> Seq<Seq<int>> {
    surviving_from(values, 0).map_values(|p: int| values[p])
}

/// `x` occurs in `values` and nothing in `values` but `x` itself dominates
/// it.
pub open spec fn minimal_in(values: Seq<Seq<int>>, x: Seq<int>) -> bool {
    values.contains(x) && forall|y: Seq<int>|
        values.contains(y) && #[trigger] dominates(y, x) ==> y == x
}

/// The surviving positions are in range, survive, ascend strictly, and
/// miss no position that survives.
pub proof fn lemma_surviving_from(values: Seq<Seq<int>>, lo: int)
    requires
        0 <= lo <= values.len(),
    ensures
        forall|j: int|
            0 <= j < surviving_from(values, lo).len() ==> lo <= #[trigger] surviving_from(
                values,
                lo,
            )[j] < values.len() && survives(values, surviving_from(values, lo)[j]),
        forall|i: int, j: int|
            0 <= i < j < surviving_from(values, lo).len() ==> surviving_from(values, lo)[i]
                < surviving_from(values, lo)[j],
        forall|p: int|
            lo <= p < values.len() && survives(values, p) ==> surviving_from(values, lo).contains(
                p,
            ),
    decreases values.len() - lo,
{
    if lo < values.len() {
        lemma_surviving_from(values, lo + 1);
        let rest = surviving_from(values, lo + 1);
        let all = surviving_from(values, lo);
        if survives(values, lo) {
            assert(all == seq![lo] + rest);
            assert forall|j: int| 0 <= j < all.len() implies lo <= #[trigger] all[j]
                < values.len() && survives(values, all[j]) by {
                if j > 0 {
                    assert(all[j] == rest[j - 1]);
                }
            }
            assert forall|i: int, j: int| 0 <= i < j < all.len() implies all[i] < all[j] by {
                assert(all[j] == rest[j - 1]);
                if i > 0 {
                    assert(all[i] == rest[i - 1]);
                }
            }
            assert forall|p: int| lo <= p < values.len() && survives(values, p) implies all.contains(
                p,
            ) by {
                if p == lo {
                    assert(all[0] == p);
                } else {
                    let j = choose|j: int| 0 <= j < rest.len() && rest[j] == p;
                    assert(all[j + 1] == p);
                }
            }
        } else {
            assert(all == rest);
        }
    }
}

/// Collapsing a list of spectra collapses its list of eigenvalue lists.
pub proof fn lemma_frontier_values(spectra: Seq<Spectrum>)
    ensures
        values_of(frontier(spectra)) == frontier_values(values_of(spectra)),
{
    lemma_surviving_from(values_of(spectra), 0);
    assert(values_of(frontier(spectra)) =~= frontier_values(values_of(spectra)));
}

/// No member of a boundary dominates another member.
pub proof fn lemma_frontier_is_antichain(values: Seq<Seq<int>>)
    ensures
        forall|i: int, j: int|
            0 <= i < frontier_values(values).len() && 0 <= j < frontier_values(values).len() && i
                != j ==> !#[trigger] dominates(frontier_values(values)[i], frontier_values(values)[j]),
{
    lemma_surviving_from(values, 0);
    let kept = surviving_from(values, 0);
    let f = frontier_values(values);
    assert forall|i: int, j: int| 0 <= i < f.len() && 0 <= j < f.len() && i != j implies !#[trigger] dominates(
        f[i],
        f[j],
    ) by {
        let p = kept[i];
        let q = kept[j];
        assert(p != q) by {
            if i < j {
                assert(kept[i] < kept[j]);
            } else {
                assert(kept[j] < kept[i]);
            }
        }
        if dominates(values[p], values[q]) {
            assert(survives(values, q));
            assert(values[p] == values[q] && q < p);
            assert(dominates(values[q], values[p]));
            assert(survives(values, p));
            assert(false);
        }
    }
}

/// The members of a boundary are the minimal eigenvalue lists of the input:
/// those that occur in it and that nothing else in it dominates.
pub proof fn lemma_frontier_is_minimal(values: Seq<Seq<int>>)
    ensures
        forall|x: Seq<int>| #[trigger] frontier_values(values).contains(x) <==> minimal_in(values, x),
{
    lemma_surviving_from(values, 0);
    let kept = surviving_from(values, 0);
    let f = frontier_values(values);
    assert forall|x: Seq<int>| #[trigger] f.contains(x) implies minimal_in(values, x) by {
        let j = choose|j: int| 0 <= j < f.len() && f[j] == x;
        let p = kept[j];
        assert(values[p] == x);
        assert(survives(values, p));
        assert forall|y: Seq<int>| values.contains(y) && #[trigger] dominates(y, x) implies y
            == x by {
            let q = choose|q: int| 0 <= q < values.len() && values[q] == y;
            if q != p {
                assert(dominates(values[q], values[p]));
            }
        }
    }
    assert forall|x: Seq<int>| minimal_in(values, x) implies #[trigger] f.contains(x) by {
        let p0 = choose|p0: int| 0 <= p0 < values.len() && values[p0] == x;
        let p = first_occurrence(values, x, p0);
        assert forall|q: int|
            0 <= q < values.len() && q != p && #[trigger] dominates(
                values[q],
                values[p],
            ) implies values[q] == values[p] && p < q by {
            assert(values.contains(values[q]));
        }
        assert(survives(values, p));
        assert(kept.contains(p));
        let j = choose|j: int| 0 <= j < kept.len() && kept[j] == p;
        assert(f[j] == x);
    }
}

/// The first position at which `x` stands in `values`, given one position
/// `at` where it does.
proof fn first_occurrence(values: Seq<Seq<int>>, x: Seq<int>, at: int) -> (p: int)
    requires
        0 <= at < values.len(),
        values[at] == x,
    ensures
        0 <= p <= at,
        values[p] == x,
        forall|r: int| 0 <= r < p ==> values[r] != x,
    decreases at,
{
    if exists|r: int| 0 <= r < at && values[r] == x {
        let r = choose|r: int| 0 <= r < at && values[r] == x;
        first_occurrence(values, x, r)
    } else {
        at
    }
}

/// Where every position from `lo` on survives, all of them are kept.
proof fn lemma_all_survive(values: Seq<Seq<int>>, lo: int)
    requires
        0 <= lo <= values.len(),
        forall|p: int| lo <= p < values.len() ==> survives(values, p),
    ensures
        surviving_from(values, lo) == Seq::new((values.len() - lo) as nat, |j: int| lo + j),
    decreases values.len() - lo,
{
    if lo < values.len() {
        lemma_all_survive(values, lo + 1);
        assert(survives(values, lo));
        assert(surviving_from(values, lo) =~= Seq::new(
            (values.len() - lo) as nat,
            |j: int| lo + j,
        ));
    } else {
        assert(surviving_from(values, lo) =~= Seq::new(
            (values.len() - lo) as nat,
            |j: int| lo + j,
        ));
    }
}

/// Collapsing is idempotent: a boundary is its own boundary.
pub proof fn lemma_collapse_idempotent(spectra: Seq<Spectrum>)
    ensures
        frontier(frontier(spectra)) == frontier(spectra),
{
    let once = frontier(spectra);
    let values = values_of(once);
    lemma_frontier_values(spectra);
    lemma_frontier_is_antichain(values_of(spectra));
    assert forall|p: int| 0 <= p < values.len() implies survives(values, p) by {
        assert forall|q: int|
            0 <= q < values.len() && q != p && #[trigger] dominates(
                values[q],
                values[p],
            ) implies values[q] == values[p] && p < q by {
            assert(false);
        }
    }
    lemma_all_survive(values, 0);
    assert(frontier(once) =~= once);
}

/// The eigenvalue lists of a boundary depend on which eigenvalue lists the
/// input holds, not on their order or on how often each occurs.
pub proof fn lemma_collapse_order_independent(first: Seq<Spectrum>, second: Seq<Spectrum>)
    requires
        values_of(first).to_set() == values_of(second).to_set(),
    ensures
        values_of(frontier(first)).to_set() == values_of(frontier(second)).to_set(),
{
    let a = values_of(first);
    let b = values_of(second);
    lemma_frontier_values(first);
    lemma_frontier_values(second);
    lemma_frontier_is_minimal(a);
    lemma_frontier_is_minimal(b);
    assert forall|x: Seq<int>| a.contains(x) <==> b.contains(x) by {
        assert(a.to_set().contains(x) <==> b.to_set().contains(x));
    }
    assert forall|x: Seq<int>| minimal_in(a, x) <==> minimal_in(b, x) by {
        if minimal_in(a, x) {
            assert forall|y: Seq<int>| b.contains(y) && #[trigger] dominates(y, x) implies y
                == x by {
                assert(a.contains(y));
            }
        }
        if minimal_in(b, x) {
            assert forall|y: Seq<int>| a.contains(y) && #[trigger] dominates(y, x) implies y
                == x by {
                assert(b.contains(y));
            }
        }
    }
    assert forall|x: Seq<int>|
        frontier_values(a).to_set().contains(x) <==> frontier_values(b).to_set().contains(x) by {
        assert(frontier_values(a).contains(x) <==> minimal_in(a, x));
        assert(frontier_values(b).contains(x) <==> minimal_in(b, x));
    }
    assert(frontier_values(a).to_set() =~= frontier_values(b).to_set());
}

/// A list that dominates another has at most its sum, and less where the
/// two differ.
proof fn lemma_dominated_sum(a: Seq<int>, b: Seq<int>)
    requires
        dominates(a, b),
    ensures
        sum(a) <= sum(b),
        a != b ==> sum(a) < sum(b),
    decreases a.len(),
{
    if a.len() == 0 {
        assert(a =~= b);
    } else {
        assert(dominates(a.drop_last(), b.drop_last()));
        lemma_dominated_sum(a.drop_last(), b.drop_last());
        if a.drop_last() == b.drop_last() && a.last() == b.last() {
            assert(a =~= a.drop_last().push(a.last()));
            assert(b =~= b.drop_last().push(b.last()));
        }
    }
}

/// A number that no sum of a list in `values` is below.
spec fn lowest_sum(values: Seq<Seq<int>>) -> int
    decreases values.len(),
{
    if values.len() == 0 {
        0
    } else if sum(values.last()) < lowest_sum(values.drop_last()) {
        sum(values.last())
    } else {
        lowest_sum(values.drop_last())
    }
}

proof fn lemma_lowest_sum(values: Seq<Seq<int>>, p: int)
    requires
        0 <= p < values.len(),
    ensures
        lowest_sum(values) <= sum(values[p]),
    decreases values.len(),
{
    if p < values.len() - 1 {
        lemma_lowest_sum(values.drop_last(), p);
    }
}

/// Every entry is dominated by an entry that survives.
proof fn lemma_covered(values: Seq<Seq<int>>, p: int) -> (q: int)
    requires
        0 <= p < values.len(),
    ensures
        0 <= q < values.len(),
        survives(values, q),
        dominates(values[q], values[p]),
    decreases sum(values[p]) - lowest_sum(values), p,
{
    lemma_lowest_sum(values, p);
    if survives(values, p) {
        p
    } else {
        let r = choose|r: int|
            0 <= r < values.len() && r != p && #[trigger] dominates(values[r], values[p]) && !(
            values[r] == values[p] && p < r);
        lemma_lowest_sum(values, r);
        lemma_dominated_sum(values[r], values[p]);
        let q = lemma_covered(values, r);
        q
    }
}

/// Whether some member of `boundary` dominates `x`.
pub open spec fn covered_by(boundary: Seq<Seq<int>>, x: Seq<int>) -> bool {
    exists|j: int| 0 <= j < boundary.len() && dominates(#[trigger] boundary[j], x)
}

/// Every list of the input is dominated by a member of the boundary.
pub proof fn lemma_frontier_covers(values: Seq<Seq<int>>)
    ensures
        forall|p: int|
            0 <= p < values.len() ==> covered_by(frontier_values(values), #[trigger] values[p]),
{
    lemma_surviving_from(values, 0);
    let kept = surviving_from(values, 0);
    let boundary = frontier_values(values);
    assert forall|p: int| 0 <= p < values.len() implies covered_by(
        boundary,
        #[trigger] values[p],
    ) by {
        let q = lemma_covered(values, p);
        assert(kept.contains(q));
        let j = choose|j: int| 0 <= j < kept.len() && kept[j] == q;
        assert(dominates(boundary[j], values[p]));
    }
}

} // verus!
