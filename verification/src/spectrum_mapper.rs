//! The search through the perturbations of a spectrum, and the reduction of
//! what it found to the componentwise-minimal boundary.

use crate::arithmetic::absolute;
use crate::conditions::{lemma_recorded_again, recorded};
use crate::dominance::{
    dominates, frontier, frontier_values, lemma_frontier_values, lemma_surviving_from, survives,
    surviving_from, values_of,
};
use crate::search::{
    counted, distinct_fingerprints, expand, explored, found_values, known,
    lemma_search_fingerprints_distinct, lemma_visit_extends, visit,
};
use crate::spectrum::{perturbed, Spectrum};
use vstd::prelude::*;

verus! {

/// The net number of steps up minus steps down that each eigenvalue has
/// taken on the way to a spectrum. The search remembers spectra by it.
pub open spec fn step_counts(fingerprint: Seq<i128>) -> Seq<int> {
    fingerprint.map_values(|c: i128| c as int)
}

/// One entry of the memo.
struct Visited {
    fingerprint: Vec<i128>,
    spectrum: Spectrum,
}

/// The search through the perturbations of a seed spectrum.
pub struct SpectrumMapper {
    mapped_spectra: Vec<Visited>,
    total_steps: usize,
    mutation_amount: i64,
}

/// Whether two fingerprints are the same.
fn same_counts(a: &Vec<i128>, b: &Vec<i128>) -> (same: bool)
    ensures
        same == (step_counts(a@) == step_counts(b@)),
{
    if a.len() != b.len() {
        assert(step_counts(a@).len() != step_counts(b@).len());
        return false;
    }
    let n = a.len();
    let mut i: usize = 0;
    while i < n
        invariant
            i <= n,
            n == a@.len(),
            n == b@.len(),
            forall|j: int| 0 <= j < i ==> a@[j] == b@[j],
        decreases n - i,
    {
        if a[i] != b[i] {
            assert(step_counts(a@)[i as int] != step_counts(b@)[i as int]);
            return false;
        }
        i += 1;
    }
    assert(step_counts(a@) =~= step_counts(b@));
    true
}

impl SpectrumMapper {
    /// The memo: the fingerprints reached so far, each with the eigenvalues
    /// found at it, in the order of entry.
    pub closed spec fn memo(&self) -> Seq<(Seq<int>, Seq<int>)> {
        self.mapped_spectra@.map_values(
            |e: Visited| (step_counts(e.fingerprint@), e.spectrum@),
        )
    }

    /// What holds of the memo between searches: it is a mapping, no
    /// fingerprint stands in it twice.
    pub open spec fn well_formed(&self) -> bool {
        distinct_fingerprints(self.memo())
    }

    /// The depth budget.
    pub closed spec fn budget(&self) -> nat {
        self.total_steps as nat
    }

    /// The step by which eigenvalues are moved.
    pub closed spec fn step(&self) -> int {
        self.mutation_amount as int
    }

    /// The flags of the spectrum of each entry of the memo.
    spec fn memo_flags(&self) -> Seq<Seq<bool>> {
        self.mapped_spectra@.map_values(|e: Visited| e.spectrum.flags())
    }

    /// A search with an empty memo.
    pub fn new_mapper(total_steps: usize, mutation_amount: i64) -> (mapper: SpectrumMapper)
        ensures
            mapper.well_formed(),
            mapper.memo() == Seq::<(Seq<int>, Seq<int>)>::empty(),
            mapper.budget() == total_steps,
            mapper.step() == mutation_amount,
    {
        let mapper = SpectrumMapper { mapped_spectra: Vec::new(), total_steps, mutation_amount };
        assert(mapper.memo() =~= Seq::<(Seq<int>, Seq<int>)>::empty());
        mapper
    }

    /// Searches from `spectrum` and reduces what was found to its
    /// boundary: the eigenvalue lists found that no other one dominates.
    pub fn map_spectrum_boundary(&mut self, spectrum: &Spectrum) -> (boundary: Vec<Spectrum>)
        requires
            spectrum.flags().len() >= 3,
            old(self).step() > i64::MIN,
            forall|i: int|
                1 <= i < spectrum@.len() ==> #[trigger] spectrum@[i] - old(self).budget()
                    * absolute(old(self).step()) >= i64::MIN,
        ensures
            final(self).budget() == old(self).budget(),
            final(self).step() == old(self).step(),
            final(self).memo() == explored(spectrum@, old(self).budget(), old(self).step()),
            final(self).well_formed(),
            values_of(boundary@) == frontier_values(found_values(final(self).memo())),
            forall|j: int|
                0 <= j < boundary@.len() ==> (#[trigger] boundary@[j]).flags() == recorded(
                    spectrum.flags(),
                    boundary@[j]@,
                ),
    {
        let found = self.map_spectrum(spectrum);
        proof {
            lemma_frontier_values(found@);
            lemma_surviving_from(values_of(found@), 0);
        }
        collapse_spectra(found)
    }

    /// Searches from `spectrum`, starting with an empty memo, and returns
    /// every spectrum that was entered, in the order of entry. The flags of
    /// each hold the results of its own test.
    pub fn map_spectrum(&mut self, spectrum: &Spectrum) -> (found: Vec<Spectrum>)
        requires
            spectrum.flags().len() >= 3,
            old(self).step() > i64::MIN,
            forall|i: int|
                1 <= i < spectrum@.len() ==> #[trigger] spectrum@[i] - old(self).budget()
                    * absolute(old(self).step()) >= i64::MIN,
        ensures
            final(self).budget() == old(self).budget(),
            final(self).step() == old(self).step(),
            final(self).memo() == explored(spectrum@, old(self).budget(), old(self).step()),
            final(self).well_formed(),
            values_of(found@) == found_values(final(self).memo()),
            forall|j: int|
                0 <= j < found@.len() ==> (#[trigger] found@[j]).flags() == recorded(
                    spectrum.flags(),
                    found@[j]@,
                ),
    {
        self.mapped_spectra = Vec::new();
        assert(self.memo() =~= Seq::<(Seq<int>, Seq<int>)>::empty());
        assert(self.memo_flags() =~= Seq::<Seq<bool>>::empty());
        let n = spectrum.len();
        let mut hash_code: Vec<i128> = Vec::new();
        let mut i: usize = 0;
        while i < n
            invariant
                i <= n,
                hash_code@ == Seq::new(i as nat, |k: int| 0i128),
            decreases n - i,
        {
            hash_code.push(0);
            i += 1;
        }
        assert(step_counts(hash_code@) =~= Seq::new(spectrum@.len(), |k: int| 0int));
        self.apply_mapping(spectrum.clone(), 0, hash_code);
        let count = self.mapped_spectra.len();
        let mut found: Vec<Spectrum> = Vec::new();
        let mut j: usize = 0;
        while j < count
            invariant
                j <= count,
                count == self.mapped_spectra@.len(),
                found@.len() == j,
                forall|q: int| 0 <= q < j ==> (#[trigger] found@[q])@ == self.memo()[q].1,
                forall|q: int| 0 <= q < j ==> (#[trigger] found@[q]).flags() == self.memo_flags()[q],
            decreases count - j,
        {
            found.push(self.mapped_spectra[j].spectrum.clone());
            j += 1;
        }
        proof {
            lemma_search_fingerprints_distinct(spectrum@, self.budget(), self.step());
        }
        assert(values_of(found@) =~= found_values(self.memo()));
        found
    }

    /// Whether the memo holds an entry for `hash_code`.
    fn is_known(&self, hash_code: &Vec<i128>) -> (found: bool)
        ensures
            found == known(self.memo(), step_counts(hash_code@)),
    {
        let n = self.mapped_spectra.len();
        let mut j: usize = 0;
        while j < n
            invariant
                j <= n,
                n == self.mapped_spectra@.len(),
                forall|q: int| 0 <= q < j ==> (#[trigger] self.memo()[q]).0 != step_counts(hash_code@),
            decreases n - j,
        {
            assert(self.memo()[j as int].0 == step_counts(self.mapped_spectra@[j as int].fingerprint@));
            if same_counts(&self.mapped_spectra[j].fingerprint, hash_code) {
                return true;
            }
            j += 1;
        }
        false
    }

    /// Visits `current_spectrum`, reached after `steps_taken` steps that
    /// `hash_code` counts, and from it its neighbours.
    fn apply_mapping(&mut self, current_spectrum: Spectrum, steps_taken: usize, hash_code: Vec<i128>)
        requires
            steps_taken <= old(self).budget(),
            hash_code@.len() == current_spectrum@.len(),
            current_spectrum.flags().len() >= 3,
            old(self).step() > i64::MIN,
            forall|i: int|
                0 <= i < hash_code@.len() ==> -steps_taken <= #[trigger] hash_code@[i]
                    <= steps_taken,
            forall|i: int|
                1 <= i < current_spectrum@.len() ==> #[trigger] current_spectrum@[i] - (old(
                    self,
                ).budget() - steps_taken) * absolute(old(self).step()) >= i64::MIN,
        ensures
            final(self).budget() == old(self).budget(),
            final(self).step() == old(self).step(),
            final(self).memo() == visit(
                old(self).memo(),
                current_spectrum@,
                steps_taken as nat,
                step_counts(hash_code@),
                old(self).budget(),
                old(self).step(),
            ),
            known(old(self).memo(), step_counts(hash_code@)) ==> final(self).memo() == old(
                self,
            ).memo() && final(self).memo_flags() == old(self).memo_flags(),
            final(self).memo_flags().len() >= old(self).memo_flags().len(),
            forall|j: int|
                0 <= j < old(self).memo_flags().len() ==> #[trigger] final(self).memo_flags()[j]
                    == old(self).memo_flags()[j],
            forall|j: int|
                old(self).memo_flags().len() <= j < final(self).memo_flags().len()
                    ==> #[trigger] final(self).memo_flags()[j] == recorded(
                    current_spectrum.flags(),
                    final(self).memo()[j].1,
                ),
        decreases old(self).budget() - steps_taken,
    {
        if steps_taken == self.total_steps || self.is_known(&hash_code) {
            return ;
        }
        let mut current = current_spectrum;
        if !current.test_spectra_or() {
            return ;
        }
        let ghost values = current@;
        let ghost counts = step_counts(hash_code@);
        let ghost total = self.budget();
        let ghost step = self.step();
        let ghost start = self.mapped_spectra@.len();
        let ghost target = visit(self.memo(), values, steps_taken as nat, counts, total, step);
        let n = current.len();
        self.mapped_spectra.push(
            Visited { fingerprint: hash_code.clone(), spectrum: current.clone() },
        );
        proof {
            assert(self.memo() =~= old(self).memo().push((counts, values)));
            assert(self.memo_flags() =~= old(self).memo_flags().push(current.flags()));
        }
        let reach: i64 = self.mutation_amount;
        let mut i: usize = 1;
        while i < n
            invariant
                1 <= i,
                n == values.len(),
                n == hash_code@.len(),
                steps_taken < total,
                total == self.budget(),
                total == old(self).budget(),
                step == self.step(),
                step == old(self).step(),
                step > i64::MIN,
                reach == step,
                values == current@,
                counts == step_counts(hash_code@),
                current.flags() == recorded(current_spectrum.flags(), values),
                current_spectrum.flags().len() >= 3,
                forall|q: int|
                    0 <= q < hash_code@.len() ==> -steps_taken <= #[trigger] hash_code@[q]
                        <= steps_taken,
                forall|q: int|
                    1 <= q < n ==> #[trigger] values[q] - (total - steps_taken) * absolute(step)
                        >= i64::MIN,
                expand(self.memo(), values, steps_taken as nat, counts, i as int, total, step)
                    == target,
                start == old(self).memo_flags().len(),
                self.memo_flags().len() > start,
                self.memo_flags().len() == self.memo().len(),
                forall|j: int|
                    0 <= j < start ==> #[trigger] self.memo_flags()[j] == old(self).memo_flags()[j],
                forall|j: int|
                    start <= j < self.memo_flags().len() ==> #[trigger] self.memo_flags()[j]
                        == recorded(current_spectrum.flags(), self.memo()[j].1),
            decreases n - i,
        {
            let ghost room = (total - steps_taken) * absolute(step);
            let ghost less = (total - steps_taken - 1) * absolute(step);
            proof {
                assert(values[i as int] - room >= i64::MIN);
                assert(room >= absolute(step) && less <= room && less == room - absolute(step))
                    by (nonlinear_arith)
                    requires
                        room == (total - steps_taken) * absolute(step),
                        less == (total - steps_taken - 1) * absolute(step),
                        total - steps_taken >= 1,
                        absolute(step) >= 0,
                ;
            }
            let mut up = current.clone();
            let ghost before_up = self.memo();
            let ghost flags_before_up = self.memo_flags();
            if up.change_eigenvalue(i, reach) {
                let mut code = hash_code.clone();
                code.set(i, hash_code[i] + 1);
                proof {
                    assert(step_counts(code@) =~= counted(counts, i as int, 1));
                    assert forall|q: int| 1 <= q < n implies #[trigger] up@[q] - less
                        >= i64::MIN by {
                        assert(values[q] - room >= i64::MIN);
                    }
                }
                self.apply_mapping(up, steps_taken + 1, code);
                proof {
                    assert forall|j: int|
                        start <= j < self.memo_flags().len() implies #[trigger] self.memo_flags()[j]
                        == recorded(current_spectrum.flags(), self.memo()[j].1) by {
                        if j < flags_before_up.len() {
                            assert(self.memo_flags()[j] == flags_before_up[j]);
                            lemma_visit_extends(
                                before_up,
                                perturbed(values, i as int, step),
                                (steps_taken + 1) as nat,
                                counted(counts, i as int, 1),
                                total,
                                step,
                            );
                        } else {
                            lemma_recorded_again(
                                current_spectrum.flags(),
                                values,
                                self.memo()[j].1,
                            );
                        }
                    }
                }
            }
            let mut down = current.clone();
            let ghost before_down = self.memo();
            let ghost flags_before_down = self.memo_flags();
            down.change_eigenvalue(i, -reach);
            let mut code = hash_code.clone();
            code.set(i, hash_code[i] - 1);
            proof {
                assert(step_counts(code@) =~= counted(counts, i as int, -1));
                assert forall|q: int| 1 <= q < n implies #[trigger] down@[q] - less
                    >= i64::MIN by {
                    assert(values[q] - room >= i64::MIN);
                }
            }
            self.apply_mapping(down, steps_taken + 1, code);
            proof {
                assert forall|j: int|
                    start <= j < self.memo_flags().len() implies #[trigger] self.memo_flags()[j]
                    == recorded(current_spectrum.flags(), self.memo()[j].1) by {
                    if j < flags_before_down.len() {
                        assert(self.memo_flags()[j] == flags_before_down[j]);
                        lemma_visit_extends(
                            before_down,
                            perturbed(values, i as int, -step),
                            (steps_taken + 1) as nat,
                            counted(counts, i as int, -1),
                            total,
                            step,
                        );
                    } else {
                        lemma_recorded_again(current_spectrum.flags(), values, self.memo()[j].1);
                    }
                }
            }
            i += 1;
        }
    }
}

/// Whether `a` dominates `b`.
fn dominates_exec(a: &Spectrum, b: &Spectrum) -> (r: bool)
    ensures
        r == dominates(a@, b@),
{
    if a.len() != b.len() {
        return false;
    }
    let n = a.len();
    let mut k: usize = 0;
    while k < n
        invariant
            k <= n,
            n == a@.len(),
            n == b@.len(),
            forall|j: int| 0 <= j < k ==> a@[j] <= b@[j],
        decreases n - k,
    {
        if a.get(k) > b.get(k) {
            return false;
        }
        k += 1;
    }
    true
}

/// Whether entry `p` of `spectra` survives the collapse.
fn survives_exec(spectra: &Vec<Spectrum>, p: usize) -> (r: bool)
    requires
        p < spectra@.len(),
    ensures
        r == survives(values_of(spectra@), p as int),
{
    let ghost values = values_of(spectra@);
    let n = spectra.len();
    let mut q: usize = 0;
    while q < n
        invariant
            q <= n,
            n == spectra@.len(),
            p < n,
            values == values_of(spectra@),
            forall|j: int|
                0 <= j < q && j != p && #[trigger] dominates(values[j], values[p as int])
                    ==> values[j] == values[p as int] && p < j,
        decreases n - q,
    {
        assert(values[q as int] == spectra@[q as int]@);
        assert(values[p as int] == spectra@[p as int]@);
        if q != p && dominates_exec(&spectra[q], &spectra[p]) {
            let copy = dominates_exec(&spectra[p], &spectra[q]);
            if !(copy && p < q) {
                assert(dominates(values[q as int], values[p as int]));
                assert(!(values[q as int] == values[p as int] && p < q));
                return false;
            }
            assert(values[q as int] =~= values[p as int]);
        }
        q += 1;
    }
    true
}

/// Reduces a list of spectra to its boundary. A spectrum leaves when some
/// other spectrum of the list is nowhere larger; of equal spectra the first
/// stays. What stays keeps its order and its flags.
pub fn collapse_spectra(spectra: Vec<Spectrum>) -> (boundary: Vec<Spectrum>)
    ensures
        boundary@ == frontier(spectra@),
{
    let n = spectra.len();
    let ghost values = values_of(spectra@);
    let mut keep: Vec<bool> = Vec::new();
    let mut p: usize = 0;
    while p < n
        invariant
            p <= n,
            n == spectra@.len(),
            values == values_of(spectra@),
            keep@.len() == p,
            forall|j: int| 0 <= j < p ==> keep@[j] == survives(values, j),
        decreases n - p,
    {
        let stays = survives_exec(&spectra, p);
        keep.push(stays);
        p += 1;
    }
    let mut working = spectra;
    while p > 0
        invariant
            p <= n,
            n == spectra@.len(),
            n == keep@.len(),
            values == values_of(spectra@),
            forall|j: int| 0 <= j < n ==> keep@[j] == survives(values, j),
            working@ == spectra@.subrange(0, p as int) + surviving_from(values, p as int).map_values(
                |q: int| spectra@[q],
            ),
        decreases p,
    {
        p -= 1;
        let ghost tail = surviving_from(values, p + 1).map_values(|q: int| spectra@[q]);
        if keep[p] {
            assert(surviving_from(values, p as int) == seq![p as int] + surviving_from(
                values,
                p + 1,
            ));
            assert(working@ =~= spectra@.subrange(0, p as int) + surviving_from(
                values,
                p as int,
            ).map_values(|q: int| spectra@[q]));
        } else {
            working.remove(p);
            assert(working@ =~= spectra@.subrange(0, p as int) + tail);
        }
    }
    assert(working@ =~= frontier(spectra@));
    working
}

} // verus!
