//! What the search through the perturbations of a spectrum finds: the memo
//! that it builds, entry by entry, and what holds of that memo.

use crate::conditions::passes_any;
use crate::spectrum::{perturbation_accepted, perturbed, UNIT};
use vstd::prelude::*;

verus! {

/// The fingerprint after entry `i` has moved by `by` more steps.
pub open spec fn counted(fingerprint: Seq<int>, i: int, by: int) -> Seq<int> {
    fingerprint.update(i, fingerprint[i] + by)
}

/// Whether the memo holds an entry for `fingerprint`.
pub open spec fn known(memo: Seq<(Seq<int>, Seq<int>)>, fingerprint: Seq<int>) -> bool {
    exists|j: int| 0 <= j < memo.len() && (#[trigger] memo[j]).0 == fingerprint
}

/// The memo after the search has visited the spectrum `values` at `depth`,
/// reached by the steps that `fingerprint` counts. An entry of the memo is
/// a fingerprint with the eigenvalues found at it.
///
/// The visit changes nothing if the depth budget `total` is used up, if the
/// fingerprint is in the memo already, or if the spectrum fails every
/// condition. Otherwise the spectrum is entered and its neighbours are
/// visited, eigenvalue by eigenvalue.
pub open spec fn visit(
    memo: Seq<(Seq<int>, Seq<int>)>,
    values: Seq<int>,
    depth: nat,
    fingerprint: Seq<int>,
    total: nat,
    step: int,
) -> Seq<(Seq<int>, Seq<int>)>
    decreases total - depth, values.len() + 1,
{
    if depth >= total || known(memo, fingerprint) || !passes_any(values) {
        memo
    } else {
        expand(memo.push((fingerprint, values)), values, depth, fingerprint, 1, total, step)
    }
}

/// The memo after the neighbours of `values` at the eigenvalues from `i` on
/// have been visited: for each eigenvalue first the spectrum one step up,
/// if the step is accepted, then the spectrum one step down, whether that
/// step was accepted or not. Eigenvalue 0 is never moved.
pub open spec fn expand(
    memo: Seq<(Seq<int>, Seq<int>)>,
    values: Seq<int>,
    depth: nat,
    fingerprint: Seq<int>,
    i: int,
    total: nat,
    step: int,
) -> Seq<(Seq<int>, Seq<int>)>
    decreases total - depth, values.len() + 1 - i,
{
    if depth >= total || i < 1 || i >= values.len() {
        memo
    } else {
        let up = if perturbation_accepted(values, i, step) {
            visit(
                memo,
                perturbed(values, i, step),
                depth + 1,
                counted(fingerprint, i, 1),
                total,
                step,
            )
        } else {
            memo
        };
        let down = visit(
            up,
            perturbed(values, i, -step),
            depth + 1,
            counted(fingerprint, i, -1),
            total,
            step,
        );
        expand(down, values, depth, fingerprint, i + 1, total, step)
    }
}

/// The memo of a whole search from the seed `values`.
pub open spec fn explored(values: Seq<int>, total: nat, step: int) -> Seq<(Seq<int>, Seq<int>)> {
    visit(Seq::empty(), values, 0, Seq::new(values.len(), |i: int| 0int), total, step)
}

/// The eigenvalue lists of a memo, in the order in which they were entered.
pub open spec fn found_values(memo: Seq<(Seq<int>, Seq<int>)>) -> Seq<Seq<int>> {
    memo.map_values(|entry: (Seq<int>, Seq<int>)| entry.1)
}

/// No fingerprint stands twice in the memo.
pub open spec fn distinct_fingerprints(memo: Seq<(Seq<int>, Seq<int>)>) -> bool {
    forall|a: int, b: int| 0 <= a < b < memo.len() ==> (#[trigger] memo[a]).0 != (#[trigger] memo[b]).0
}

/// A visit at a fingerprint that the memo holds changes nothing, whatever
/// the spectrum and the depth at which it arrives: the neighbours are not
/// visited again.
pub proof fn lemma_known_fingerprint_stops(
    memo: Seq<(Seq<int>, Seq<int>)>,
    values: Seq<int>,
    depth: nat,
    fingerprint: Seq<int>,
    total: nat,
    step: int,
)
    requires
        known(memo, fingerprint),
    ensures
        visit(memo, values, depth, fingerprint, total, step) == memo,
{
}

/// After a visit within the budget of a spectrum that meets a condition,
/// the memo holds its fingerprint.
pub proof fn lemma_visited_is_known(
    memo: Seq<(Seq<int>, Seq<int>)>,
    values: Seq<int>,
    depth: nat,
    fingerprint: Seq<int>,
    total: nat,
    step: int,
)
    requires
        depth < total,
        passes_any(values),
    ensures
        known(visit(memo, values, depth, fingerprint, total, step), fingerprint),
{
    if !known(memo, fingerprint) {
        let entered = memo.push((fingerprint, values));
        lemma_expand_extends(entered, values, depth, fingerprint, 1, total, step);
        let after = expand(entered, values, depth, fingerprint, 1, total, step);
        assert(after[memo.len() as int] == entered[memo.len() as int]);
        assert(after[memo.len() as int].0 == fingerprint);
    }
}

/// A visit enters no fingerprint twice.
pub proof fn lemma_visit_keeps_distinct(
    memo: Seq<(Seq<int>, Seq<int>)>,
    values: Seq<int>,
    depth: nat,
    fingerprint: Seq<int>,
    total: nat,
    step: int,
)
    requires
        distinct_fingerprints(memo),
    ensures
        distinct_fingerprints(visit(memo, values, depth, fingerprint, total, step)),
    decreases total - depth, values.len() + 1,
{
    if !(depth >= total || known(memo, fingerprint) || !passes_any(values)) {
        let entered = memo.push((fingerprint, values));
        assert forall|a: int, b: int| 0 <= a < b < entered.len() implies (#[trigger] entered[a]).0
            != (#[trigger] entered[b]).0 by {
            if b == memo.len() {
                assert(entered[a] == memo[a]);
            } else {
                assert(entered[a] == memo[a] && entered[b] == memo[b]);
            }
        }
        lemma_expand_keeps_distinct(entered, values, depth, fingerprint, 1, total, step);
    }
}

/// Visiting neighbours enters no fingerprint twice.
pub proof fn lemma_expand_keeps_distinct(
    memo: Seq<(Seq<int>, Seq<int>)>,
    values: Seq<int>,
    depth: nat,
    fingerprint: Seq<int>,
    i: int,
    total: nat,
    step: int,
)
    requires
        distinct_fingerprints(memo),
    ensures
        distinct_fingerprints(expand(memo, values, depth, fingerprint, i, total, step)),
    decreases total - depth, values.len() + 1 - i,
{
    if !(depth >= total || i < 1 || i >= values.len()) {
        let up = if perturbation_accepted(values, i, step) {
            visit(
                memo,
                perturbed(values, i, step),
                depth + 1,
                counted(fingerprint, i, 1),
                total,
                step,
            )
        } else {
            memo
        };
        if perturbation_accepted(values, i, step) {
            lemma_visit_keeps_distinct(
                memo,
                perturbed(values, i, step),
                depth + 1,
                counted(fingerprint, i, 1),
                total,
                step,
            );
        }
        let down = visit(
            up,
            perturbed(values, i, -step),
            depth + 1,
            counted(fingerprint, i, -1),
            total,
            step,
        );
        lemma_visit_keeps_distinct(
            up,
            perturbed(values, i, -step),
            depth + 1,
            counted(fingerprint, i, -1),
            total,
            step,
        );
        lemma_expand_keeps_distinct(down, values, depth, fingerprint, i + 1, total, step);
    }
}

/// The memo of a search holds every fingerprint once: paths that end in
/// the same net steps share one entry.
pub proof fn lemma_search_fingerprints_distinct(values: Seq<int>, total: nat, step: int)
    ensures
        distinct_fingerprints(explored(values, total, step)),
{
    lemma_visit_keeps_distinct(
        Seq::empty(),
        values,
        0,
        Seq::new(values.len(), |i: int| 0int),
        total,
        step,
    );
}

/// A visit only adds to the memo: what was entered before stays in place.
pub proof fn lemma_visit_extends(
    memo: Seq<(Seq<int>, Seq<int>)>,
    values: Seq<int>,
    depth: nat,
    fingerprint: Seq<int>,
    total: nat,
    step: int,
)
    ensures
        visit(memo, values, depth, fingerprint, total, step).len() >= memo.len(),
        forall|j: int|
            0 <= j < memo.len() ==> #[trigger] visit(
                memo,
                values,
                depth,
                fingerprint,
                total,
                step,
            )[j] == memo[j],
    decreases total - depth, values.len() + 1,
{
    if !(depth >= total || known(memo, fingerprint) || !passes_any(values)) {
        lemma_expand_extends(
            memo.push((fingerprint, values)),
            values,
            depth,
            fingerprint,
            1,
            total,
            step,
        );
    }
}

/// Visiting neighbours only adds to the memo.
pub proof fn lemma_expand_extends(
    memo: Seq<(Seq<int>, Seq<int>)>,
    values: Seq<int>,
    depth: nat,
    fingerprint: Seq<int>,
    i: int,
    total: nat,
    step: int,
)
    ensures
        expand(memo, values, depth, fingerprint, i, total, step).len() >= memo.len(),
        forall|j: int|
            0 <= j < memo.len() ==> #[trigger] expand(
                memo,
                values,
                depth,
                fingerprint,
                i,
                total,
                step,
            )[j] == memo[j],
    decreases total - depth, values.len() + 1 - i,
{
    if !(depth >= total || i < 1 || i >= values.len()) {
        let up = if perturbation_accepted(values, i, step) {
            visit(
                memo,
                perturbed(values, i, step),
                depth + 1,
                counted(fingerprint, i, 1),
                total,
                step,
            )
        } else {
            memo
        };
        if perturbation_accepted(values, i, step) {
            lemma_visit_extends(
                memo,
                perturbed(values, i, step),
                depth + 1,
                counted(fingerprint, i, 1),
                total,
                step,
            );
        }
        let down = visit(
            up,
            perturbed(values, i, -step),
            depth + 1,
            counted(fingerprint, i, -1),
            total,
            step,
        );
        lemma_visit_extends(
            up,
            perturbed(values, i, -step),
            depth + 1,
            counted(fingerprint, i, -1),
            total,
            step,
        );
        lemma_expand_extends(down, values, depth, fingerprint, i + 1, total, step);
    }
}

/// Whether `holds`, a statement about a fingerprint and the eigenvalues
/// found at it, survives every move that the search makes: one step up
/// where it is accepted, and one step down.
pub open spec fn kept_by_moves(holds: spec_fn(Seq<int>, Seq<int>) -> bool, step: int) -> bool {
    &&& forall|f: Seq<int>, v: Seq<int>, i: int|
        holds(f, v) && 1 <= i < v.len() && perturbation_accepted(v, i, step) ==> #[trigger] holds(
            counted(f, i, 1),
            perturbed(v, i, step),
        )
    &&& forall|f: Seq<int>, v: Seq<int>, i: int|
        holds(f, v) && 1 <= i < v.len() ==> #[trigger] holds(
            counted(f, i, -1),
            perturbed(v, i, -step),
        )
}

/// Whether every entry of the memo meets a condition and has what `holds`
/// states.
pub open spec fn all_entries(
    memo: Seq<(Seq<int>, Seq<int>)>,
    holds: spec_fn(Seq<int>, Seq<int>) -> bool,
) -> bool {
    forall|j: int|
        0 <= j < memo.len() ==> passes_any((#[trigger] memo[j]).1) && holds(memo[j].0, memo[j].1)
}

/// What the moves of the search keep holds of every entry that a visit
/// adds, and every such entry meets a condition.
pub proof fn lemma_visit_keeps(
    holds: spec_fn(Seq<int>, Seq<int>) -> bool,
    memo: Seq<(Seq<int>, Seq<int>)>,
    values: Seq<int>,
    depth: nat,
    fingerprint: Seq<int>,
    total: nat,
    step: int,
)
    requires
        kept_by_moves(holds, step),
        holds(fingerprint, values),
        all_entries(memo, holds),
    ensures
        all_entries(visit(memo, values, depth, fingerprint, total, step), holds),
    decreases total - depth, values.len() + 1,
{
    if !(depth >= total || known(memo, fingerprint) || !passes_any(values)) {
        let entered = memo.push((fingerprint, values));
        assert forall|j: int| 0 <= j < entered.len() implies passes_any((#[trigger] entered[j]).1)
            && holds(entered[j].0, entered[j].1) by {
            if j < memo.len() {
                assert(entered[j] == memo[j]);
            }
        }
        lemma_expand_keeps(holds, entered, values, depth, fingerprint, 1, total, step);
    }
}

/// What the moves of the search keep holds of every entry that the visits
/// of the neighbours add.
pub proof fn lemma_expand_keeps(
    holds: spec_fn(Seq<int>, Seq<int>) -> bool,
    memo: Seq<(Seq<int>, Seq<int>)>,
    values: Seq<int>,
    depth: nat,
    fingerprint: Seq<int>,
    i: int,
    total: nat,
    step: int,
)
    requires
        kept_by_moves(holds, step),
        holds(fingerprint, values),
        all_entries(memo, holds),
    ensures
        all_entries(expand(memo, values, depth, fingerprint, i, total, step), holds),
    decreases total - depth, values.len() + 1 - i,
{
    if !(depth >= total || i < 1 || i >= values.len()) {
        let up = if perturbation_accepted(values, i, step) {
            visit(
                memo,
                perturbed(values, i, step),
                depth + 1,
                counted(fingerprint, i, 1),
                total,
                step,
            )
        } else {
            memo
        };
        if perturbation_accepted(values, i, step) {
            assert(holds(counted(fingerprint, i, 1), perturbed(values, i, step)));
            lemma_visit_keeps(
                holds,
                memo,
                perturbed(values, i, step),
                depth + 1,
                counted(fingerprint, i, 1),
                total,
                step,
            );
        }
        let down = visit(
            up,
            perturbed(values, i, -step),
            depth + 1,
            counted(fingerprint, i, -1),
            total,
            step,
        );
        assert(holds(counted(fingerprint, i, -1), perturbed(values, i, -step)));
        lemma_visit_keeps(
            holds,
            up,
            perturbed(values, i, -step),
            depth + 1,
            counted(fingerprint, i, -1),
            total,
            step,
        );
        lemma_expand_keeps(holds, down, values, depth, fingerprint, i + 1, total, step);
    }
}

/// Every spectrum that a search enters meets a condition, is as long as
/// the seed, and has the first eigenvalue of the seed, which is never
/// moved.
pub proof fn lemma_search_entries(seed: Seq<int>, total: nat, step: int)
    ensures
        forall|j: int|
            0 <= j < explored(seed, total, step).len() ==> {
                let entry = #[trigger] explored(seed, total, step)[j];
                &&& passes_any(entry.1)
                &&& entry.0.len() == seed.len()
                &&& entry.1.len() == seed.len()
                &&& seed.len() > 0 ==> entry.0[0] == 0 && entry.1[0] == seed[0]
            },
{
    let holds = |f: Seq<int>, v: Seq<int>|
        f.len() == seed.len() && v.len() == seed.len() && (seed.len() > 0 ==> f[0] == 0 && v[0]
            == seed[0]);
    let start = Seq::new(seed.len(), |i: int| 0int);
    assert(kept_by_moves(holds, step));
    lemma_visit_keeps(holds, Seq::empty(), seed, 0, start, total, step);
    let found = explored(seed, total, step);
    assert forall|j: int| 0 <= j < found.len() implies {
        let entry = #[trigger] found[j];
        &&& passes_any(entry.1)
        &&& entry.0.len() == seed.len()
        &&& entry.1.len() == seed.len()
        &&& seed.len() > 0 ==> entry.0[0] == 0 && entry.1[0] == seed[0]
    } by {
        assert(holds(found[j].0, found[j].1));
    }
}

/// Where the step is not negative and no eigenvalue of the seed but the
/// first is above 1, a fingerprint gives the spectrum found at it: every
/// eigenvalue but the first is that of the seed plus its count of steps
/// times the step. Paths with the same net steps end at the same spectrum.
pub proof fn lemma_fingerprint_gives_spectrum(seed: Seq<int>, total: nat, step: int)
    requires
        step >= 0,
        forall|i: int| 1 <= i < seed.len() ==> seed[i] <= UNIT,
    ensures
        forall|j: int, i: int|
            0 <= j < explored(seed, total, step).len() && 1 <= i < seed.len() ==> (
            #[trigger] explored(seed, total, step)[j]).1[i] == seed[i] + #[trigger] explored(
                seed,
                total,
                step,
            )[j].0[i] * step,
{
    let holds = |f: Seq<int>, v: Seq<int>|
        f.len() == seed.len() && v.len() == seed.len() && forall|i: int|
            1 <= i < seed.len() ==> v[i] <= UNIT && #[trigger] v[i] == seed[i] + f[i] * step;
    let start = Seq::new(seed.len(), |i: int| 0int);
    assert(holds(start, seed)) by {
        assert forall|i: int| 1 <= i < seed.len() implies seed[i] <= UNIT && #[trigger] seed[i]
            == seed[i] + start[i] * step by {
            assert(0 * step == 0) by (nonlinear_arith);
        }
    }
    assert forall|f: Seq<int>, v: Seq<int>, i: int|
        holds(f, v) && 1 <= i < v.len() && perturbation_accepted(v, i, step) implies #[trigger] holds(
        counted(f, i, 1),
        perturbed(v, i, step),
    ) by {
        let g = counted(f, i, 1);
        let w = perturbed(v, i, step);
        assert forall|k: int| 1 <= k < seed.len() implies w[k] <= UNIT && #[trigger] w[k] == seed[k]
            + g[k] * step by {
            assert(v[k] == seed[k] + f[k] * step);
            if k == i {
                assert((f[i] + 1) * step == f[i] * step + step) by (nonlinear_arith);
            }
        }
    }
    assert forall|f: Seq<int>, v: Seq<int>, i: int|
        holds(f, v) && 1 <= i < v.len() implies #[trigger] holds(
        counted(f, i, -1),
        perturbed(v, i, -step),
    ) by {
        let g = counted(f, i, -1);
        let w = perturbed(v, i, -step);
        assert(v[i] <= UNIT);
        assert forall|k: int| 1 <= k < seed.len() implies w[k] <= UNIT && #[trigger] w[k] == seed[k]
            + g[k] * step by {
            assert(v[k] == seed[k] + f[k] * step);
            if k == i {
                assert((f[i] + -1) * step == f[i] * step - step) by (nonlinear_arith);
            }
        }
    }
    lemma_visit_keeps(holds, Seq::empty(), seed, 0, start, total, step);
    let found = explored(seed, total, step);
    assert forall|j: int, i: int| 0 <= j < found.len() && 1 <= i < seed.len() implies (
    #[trigger] found[j]).1[i] == seed[i] + #[trigger] found[j].0[i] * step by {
        assert(holds(found[j].0, found[j].1));
    }
}

} // verus!
