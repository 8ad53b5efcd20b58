//! The exact solver: a time-boxed, pruned, memoized branch-and-bound search
//! over the descending cut order, seeded with the heuristic incumbent.

use vstd::prelude::*;
use vstd::pervasive::VecAdditionalExecFns;
use crate::{MAX_LEN, MAX_ITEMS, MAX_TOTAL, seq_int, SolveError};
use crate::model::{
    Bin, BinModel, PackedSolution, SolutionModel, bins_model, bin_wf, bin_bounded,
    total_cut_count, total_stock_raw, total_used_raw, total_waste_raw, sum_by, stock_f, waste_f,
    count_f, bins_cuts_mset, lemma_sum_by_push, lemma_sum_by_update, lemma_sum_by_take_step, lemma_sum_by_bounds,
    lemma_sum_by_elem_le, summarize_spec, sol_wf, summarize_bins,
    Cmp, compare_solution, objective_of, lemma_compare_less_objective, lemma_sol_wf_bounded,
};
use crate::heuristic::{
    evaluate_heuristic, heuristic_bins, packing_ok, place_in_bin, fresh_bin,
    lemma_place_in_bin_wf, lemma_fresh_bin_wf, lemma_pack_prefix_total, rem_after, fits_bin,
    lemma_mset_place_update, lemma_mset_place_push, lemma_pack_prefix_mset,
};
use crate::model::extra_kerf;
use crate::normalize::{
    sort_desc, sorted_desc, norm_stock, filter_pos,
    sort_cuts_descending, normalize_stock_lengths,
    lemma_sort_desc_elems, lemma_norm_stock_props, lemma_sort_desc_of_sorted,
    lemma_filter_pos_elems,
};
use crate::clock::Clock;

verus! {

/// How the search ended.
#[derive(Clone, Copy, PartialEq, Eq, Structural, Debug)]
pub enum Termination {
    Completed,
    TimedOut,
}

impl Termination {
    pub fn as_text(&self) -> (r: &'static str)
        ensures
            *self is Completed ==> r@ == "completed"@,
            *self is TimedOut ==> r@ == "timed_out"@,
    {
        match self {
            Termination::Completed => "completed",
            Termination::TimedOut => "timed_out",
        }
    }
}

/// Whether the reported solution was certified optimal.
#[derive(Clone, Copy, PartialEq, Eq, Structural, Debug)]
pub enum Optimality {
    ProvenOptimal,
    NotProven,
}

impl Optimality {
    pub fn as_text(&self) -> (r: &'static str)
        ensures
            *self is ProvenOptimal ==> r@ == "proven_optimal"@,
            *self is NotProven ==> r@ == "not_proven"@,
    {
        match self {
            Optimality::ProvenOptimal => "proven_optimal",
            Optimality::NotProven => "not_proven",
        }
    }
}

/// A solve request: lengths in micro-units, budget in milliseconds.
pub struct SolveInput {
    pub cuts: Vec<u64>,
    pub stock_lengths: Vec<u64>,
    pub kerf: u64,
    pub time_budget_ms: u64,
}

/// The final report: the chosen assignment with its totals plus diagnostics.
#[derive(Debug)]
pub struct SolveOutput {
    pub bins: Vec<Bin>,
    pub bin_count: usize,
    pub total_used: u64,
    pub total_waste: u64,
    pub total_stock_length: u64,
    pub total_kerf_loss: u64,
    pub utilization: u64,
    pub explored_nodes: u64,
    pub elapsed_ms: u64,
    pub termination: Termination,
    pub optimality: Optimality,
}

pub ghost struct SolveOutputModel {
    pub sol: SolutionModel,
    pub explored_nodes: int,
    pub elapsed_ms: int,
    pub termination: Termination,
    pub optimality: Optimality,
}

impl View for SolveOutput {
    type V = SolveOutputModel;

    open spec fn view(&self) -> SolveOutputModel {
        SolveOutputModel {
            sol: SolutionModel {
                bins: bins_model(self.bins@),
                bin_count: self.bin_count as int,
                total_used: self.total_used as int,
                total_waste: self.total_waste as int,
                total_stock_length: self.total_stock_length as int,
                total_kerf_loss: self.total_kerf_loss as int,
                utilization: self.utilization as int,
            },
            explored_nodes: self.explored_nodes as int,
            elapsed_ms: self.elapsed_ms as int,
            termination: self.termination,
            optimality: self.optimality,
        }
    }
}

/// Sum of the cut lengths from position `i` on: what still has to be placed.
pub open spec fn suffix_sum(cuts: Seq<int>, i: int) -> int
    decreases cuts.len() - i,
{
    if i < 0 || i >= cuts.len() {
        0
    } else {
        cuts[i] + suffix_sum(cuts, i + 1)
    }
}

pub proof fn lemma_suffix_sum_bound(cuts: Seq<int>, i: int, m: int)
    requires
        0 <= i <= cuts.len(),
        0 <= m,
        forall|k: int| 0 <= k < cuts.len() ==> 0 <= #[trigger] cuts[k] <= m,
    ensures
        0 <= suffix_sum(cuts, i) <= (cuts.len() - i) * m,
    decreases cuts.len() - i,
{
    if i < cuts.len() {
        lemma_suffix_sum_bound(cuts, i + 1, m);
        assert((cuts.len() - i) * m == (cuts.len() - (i + 1)) * m + m) by (nonlinear_arith);
    }
}

/// Element-wise equality of two byte-key vectors.
fn vec_u64_eq(a: &Vec<u64>, b: &Vec<u64>) -> (r: bool)
    ensures
        r <==> a@ == b@,
{
    if a.len() != b.len() {
        proof {
            assert(a@ != b@);
        }
        return false;
    }
    let n = a.len();
    for i in 0..n
        invariant
            n == a@.len() && n == b@.len(),
            forall|k: int| 0 <= k < i ==> a@[k] == b@[k],
    {
        if a[i] != b[i] {
            proof {
                assert(a@[i as int] != b@[i as int]);
            }
            return false;
        }
    }
    proof {
        assert(a@ =~= b@);
    }
    true
}

/// A fresh deep copy of the open bins, for finalizing a candidate.
fn copy_bins(bins: &Vec<Bin>) -> (r: Vec<Bin>)
    ensures
        bins_model(r@) == bins_model(bins@),
{
    let mut out: Vec<Bin> = Vec::new();
    let n = bins.len();
    proof {
        assert(bins_model(out@) =~= bins_model(bins@).take(0));
    }
    for i in 0..n
        invariant
            n == bins@.len(),
            bins_model(out@) == bins_model(bins@).take(i as int),
            out@.len() == i,
    {
        let b = &bins[i];
        let mut cuts2: Vec<u64> = Vec::new();
        let m = b.cuts.len();
        for j in 0..m
            invariant
                m == b.cuts@.len(),
                cuts2@ == b.cuts@.take(j as int),
        {
            cuts2.push(b.cuts[j]);
            proof {
                assert(cuts2@ =~= b.cuts@.take(j as int + 1));
            }
        }
        proof {
            assert(cuts2@ =~= b.cuts@);
        }
        let copied = Bin {
            stock_length: b.stock_length,
            cuts: cuts2,
            used: b.used,
            remaining: b.remaining,
        };
        proof {
            assert(seq_int(copied.cuts@) =~= seq_int(b.cuts@));
            assert(copied@ == bins@[i as int]@);
        }
        out.push(copied);
        proof {
            assert(bins_model(out@) =~= bins_model(bins@).take(i as int + 1));
        }
    }
    proof {
        assert(bins_model(bins@).take(n as int) =~= bins_model(bins@));
    }
    out
}

/// Rounds a micro-unit length to the four-decimal grid used by the
/// memoization keys and the symmetric-placement filter.
fn round_key(v: u64) -> (r: u64)
    requires
        v <= MAX_TOTAL,
{
    (v + 50) / 100
}


/// Places `cut` into the bin at `bin_index`, charging the kerf surcharge
/// when the bin already holds a cut.
fn place_into_bin(bins: &mut Vec<Bin>, bin_index: usize, cut: u64, kerf: u64)
    requires
        bin_index < old(bins)@.len(),
        bin_wf(bins_model(old(bins)@)[bin_index as int], kerf as int),
        bins_model(old(bins)@)[bin_index as int].stock_length <= MAX_LEN,
        fits_bin(bins_model(old(bins)@)[bin_index as int], cut as int, kerf as int),
        cut <= MAX_LEN,
        kerf <= MAX_LEN,
    ensures
        bins_model(final(bins)@) == bins_model(old(bins)@).update(bin_index as int,
            place_in_bin(bins_model(old(bins)@)[bin_index as int], cut as int, kerf as int)),
{
    let ghost bm0 = bins_model(bins@);
    let ghost bmodel = bm0[bin_index as int];
    proof {
        crate::model::lemma_bin_wf_parts(bmodel, kerf as int);
    }
    let mut chosen = bins.remove(bin_index);
    let ghost vmid = bins@;
    proof {
        assert(chosen@ == bmodel);
    }
    let extra: u64 = if chosen.cuts.len() == 0 {
        0
    } else {
        kerf
    };
    proof {
        assert(extra as int == extra_kerf(bmodel, kerf as int));
    }
    let need = cut + extra;
    chosen.cuts.push(cut);
    chosen.used = chosen.used + need;
    chosen.remaining = chosen.remaining - need;
    proof {
        assert(chosen@.cuts =~= bmodel.cuts.push(cut as int));
        assert(chosen@ == place_in_bin(bmodel, cut as int, kerf as int));
    }
    bins.insert(bin_index, chosen);
    proof {
        let placed = place_in_bin(bmodel, cut as int, kerf as int);
        let j = bin_index as int;
        assert forall|t: int| 0 <= t < bm0.len() implies
            #[trigger] bins_model(bins@)[t] == bm0.update(j, placed)[t] by {
            if t < j {
                assert(bins@[t] == vmid[t]);
            } else if t == j {
                assert(bins@[t] == chosen);
            } else {
                assert(bins@[t] == vmid[t - 1]);
            }
        }
        assert(bins_model(bins@) =~= bm0.update(j, placed));
    }
}

/// Undoes `place_into_bin`: removes the cut again and restores the
/// lengths, so the bin reads exactly as before.
fn unplace_from_bin(bins: &mut Vec<Bin>, bin_index: usize, cut: u64, kerf: u64, Ghost(orig): Ghost<BinModel>)
    requires
        bin_index < old(bins)@.len(),
        bin_wf(orig, kerf as int),
        orig.stock_length <= MAX_LEN,
        fits_bin(orig, cut as int, kerf as int),
        cut <= MAX_LEN,
        kerf <= MAX_LEN,
        bins_model(old(bins)@)[bin_index as int] == place_in_bin(orig, cut as int, kerf as int),
    ensures
        bins_model(final(bins)@) == bins_model(old(bins)@).update(bin_index as int, orig),
{
    let ghost bm0 = bins_model(bins@);
    proof {
        crate::model::lemma_bin_wf_parts(orig, kerf as int);
    }
    let mut back = bins.remove(bin_index);
    let ghost vmid = bins@;
    proof {
        assert(back@ == place_in_bin(orig, cut as int, kerf as int));
        assert(back@.cuts.len() == orig.cuts.len() + 1);
    }
    let extra: u64 = if back.cuts.len() <= 1 {
        0
    } else {
        kerf
    };
    proof {
        assert(extra as int == extra_kerf(orig, kerf as int));
    }
    let need = cut + extra;
    let ghost vcuts = back.cuts@;
    proof {
        assert(seq_int(vcuts) == orig.cuts.push(cut as int));
        assert(vcuts.len() == orig.cuts.len() + 1);
    }
    back.cuts.pop();
    proof {
        assert forall|t: int| 0 <= t < orig.cuts.len() implies
            #[trigger] back@.cuts[t] == orig.cuts[t] by {
            assert(back.cuts@[t] == vcuts[t]);
            assert(seq_int(vcuts)[t] == vcuts[t] as int);
        }
        assert(back@.cuts =~= orig.cuts);
    }
    back.used = back.used - need;
    back.remaining = back.remaining + need;
    proof {
        assert(back@ == orig);
    }
    bins.insert(bin_index, back);
    proof {
        let j = bin_index as int;
        assert forall|t: int| 0 <= t < bm0.len() implies
            #[trigger] bins_model(bins@)[t] == bm0.update(j, orig)[t] by {
            if t < j {
                assert(bins@[t] == vmid[t]);
            } else if t == j {
                assert(bins@[t] == back);
            } else {
                assert(bins@[t] == vmid[t - 1]);
            }
        }
        assert(bins_model(bins@) =~= bm0.update(j, orig));
    }
}

/// All mutable state of one exact-search run: the fixed problem, the
/// memo table, the diagnostics, and the incumbent.
pub struct Solver {
    pub cuts: Vec<u64>,
    pub stock: Vec<u64>,
    pub kerf: u64,
    pub max_stock: u64,
    pub deadline_ms: u64,
    pub remaining_totals: Vec<u64>,
    pub seen: Vec<(Vec<u64>, u64)>,
    pub explored: u64,
    pub best: PackedSolution,
    pub timed_out: bool,
}

impl Solver {
    /// The solver invariant: a validated, normalized problem and a
    /// well-formed incumbent that covers every cut.
    pub open spec fn wf(self) -> bool {
        &&& self.kerf <= MAX_LEN
        &&& self.cuts@.len() <= MAX_ITEMS
        &&& forall|i: int| 0 <= i < self.cuts@.len() ==> #[trigger] self.cuts@[i] <= self.max_stock
        &&& 1 <= self.stock@.len() <= MAX_ITEMS
        &&& forall|i: int| 0 <= i < self.stock@.len() ==> 0 < #[trigger] self.stock@[i] <= MAX_LEN
        &&& self.max_stock == self.stock@[self.stock@.len() - 1]
        &&& self.remaining_totals@.len() == self.cuts@.len() + 1
        &&& forall|i: int| 0 <= i <= self.cuts@.len()
                ==> #[trigger] self.remaining_totals@[i] as int == suffix_sum(seq_int(self.cuts@), i)
        &&& sol_wf(self.best@, self.kerf as int)
        &&& total_cut_count(self.best@.bins) == self.cuts@.len()
        &&& bins_cuts_mset(self.best@.bins) == seq_int(self.cuts@).to_multiset()
    }

    /// The fields the search never changes.
    pub open spec fn frame(pre: Solver, post: Solver) -> bool {
        &&& post.cuts@ == pre.cuts@
        &&& post.stock@ == pre.stock@
        &&& post.kerf == pre.kerf
        &&& post.max_stock == pre.max_stock
        &&& post.deadline_ms == pre.deadline_ms
        &&& post.remaining_totals@ == pre.remaining_totals@
    }

    /// One node of the depth-first search: place cut `index` every way it
    /// fits, within the deadline, pruning by bound and by memoized state.
    /// The incumbent only ever improves, and the open bins come back as
    /// they were.
    #[verifier::rlimit(100)]
    #[verifier::loop_isolation(false)]
    fn dfs<C: Clock>(&mut self, clock: &mut C, index: usize, bins: &mut Vec<Bin>, current_stock_length: u64)
        requires
            old(self).wf(),
            index <= old(self).cuts@.len(),
            packing_ok(bins_model(old(bins)@), old(self).kerf as int, index as int),
            bins_cuts_mset(bins_model(old(bins)@))
                == seq_int(old(self).cuts@).take(index as int).to_multiset(),
            current_stock_length as int == total_stock_raw(bins_model(old(bins)@)),
        ensures
            final(self).wf(),
            Solver::frame(*old(self), *final(self)),
            bins_model(final(bins)@) == bins_model(old(bins)@),
            objective_of(final(self).best@, old(self).kerf as int)
                <= objective_of(old(self).best@, old(self).kerf as int),
            final(self).explored >= old(self).explored,
            old(self).explored == 0 ==> final(self).explored >= 1,
        decreases old(self).cuts@.len() - index,
    {
        let ghost self0 = *self;
        let ghost bm0 = bins_model(bins@);
        let ghost k = self.kerf as int;
        if self.explored < u64::MAX {
            self.explored = self.explored + 1;
        }
        let ghost e1 = self.explored;
        let now = clock.now_ms();
        if now > self.deadline_ms {
            self.timed_out = true;
            return;
        }
        if self.timed_out {
            return;
        }
        proof {
            // bound every open-bin aggregate by the item caps
            assert forall|i: int| 0 <= i < bm0.len() implies
                0 <= #[trigger] stock_f()(bm0[i]) <= MAX_LEN by {
                assert(bin_wf(bm0[i], k));
            }
            lemma_sum_by_bounds(bm0, stock_f(), MAX_LEN as int);
            assert(bm0.len() * MAX_LEN <= MAX_ITEMS * MAX_LEN) by (nonlinear_arith)
                requires 0 <= bm0.len() <= MAX_ITEMS;
            assert(self.kerf as int * bins@.len() as int <= MAX_LEN as int * MAX_ITEMS as int) by (nonlinear_arith)
                requires 0 <= self.kerf as int <= MAX_LEN as int && 0 <= bins@.len() as int <= MAX_ITEMS as int;
            assert(self.kerf as int * bins@.len() as int >= 0) by (nonlinear_arith)
                requires self.kerf as int >= 0 && bins@.len() as int >= 0;
        }
        let bin_count = bins.len();
        let current_objective = current_stock_length + self.kerf * (bin_count as u64);
        // admissible bound: all unplaced length must go somewhere
        let mut free: u64 = 0;
        let nb = bins.len();
        proof {
            assert(bm0.take(0) =~= Seq::<BinModel>::empty());
        }
        for i in 0..nb
            invariant
                nb == bins@.len(),
                bm0 == bins_model(bins@),
                k == self.kerf as int,
                packing_ok(bm0, k, index as int),
                bins@.len() <= MAX_ITEMS,
                free as int == sum_by(bm0.take(i as int), waste_f()),
                free <= i as int * MAX_LEN,
        {
            proof {
                assert(bin_wf(bm0[i as int], k));
                crate::model::lemma_bin_wf_parts(bm0[i as int], k);
                assert(0 <= bm0[i as int].stock_length <= MAX_LEN);
                lemma_sum_by_take_step(bm0, waste_f(), i as int);
                assert((i as int + 1) * MAX_LEN == i as int * MAX_LEN + MAX_LEN) by (nonlinear_arith);
                assert((i as int + 1) * MAX_LEN <= MAX_TOTAL) by (nonlinear_arith)
                    requires i as int + 1 <= MAX_ITEMS;
            }
            free = free + bins[i].remaining;
        }
        proof {
            assert(bm0.take(nb as int) =~= bm0);
            assert(nb as int * MAX_LEN <= MAX_TOTAL) by (nonlinear_arith)
                requires nb as int <= MAX_ITEMS;
            assert(self.remaining_totals@[index as int] as int == suffix_sum(seq_int(self.cuts@), index as int));
            assert(forall|t: int| 0 <= t < seq_int(self.cuts@).len()
                ==> 0 <= #[trigger] seq_int(self.cuts@)[t] <= self.max_stock as int);
            lemma_suffix_sum_bound(seq_int(self.cuts@), index as int, self.max_stock as int);
        }
        let needed = self.remaining_totals[index];
        let required_extra: u64 = if needed > free {
            needed - free
        } else {
            0
        };
        let ghost n_rest = self.cuts@.len() - index as int;
        proof {
            assert(needed as int <= n_rest * self.max_stock as int);
            assert(n_rest * self.max_stock as int <= MAX_ITEMS as int * MAX_LEN as int) by (nonlinear_arith)
                requires 0 <= n_rest <= MAX_ITEMS as int && 0 <= self.max_stock as int <= MAX_LEN as int;
        }
        let min_new_bins: u64 = if required_extra == 0 {
            0
        } else {
            proof {
                let a = required_extra as int;
                let m = self.max_stock as int;
                vstd::arithmetic::div_mod::lemma_div_multiples_vanish_fancy(n_rest, m - 1, m);
                assert(a + m - 1 <= m * n_rest + (m - 1)) by (nonlinear_arith)
                    requires a <= n_rest * m;
                vstd::arithmetic::div_mod::lemma_div_is_ordered(a + m - 1, m * n_rest + (m - 1), m);
                assert((a + m - 1) / m <= n_rest);
                assert((a + m - 1) / m >= 0) by (nonlinear_arith)
                    requires a >= 1 && m >= 1;
            }
            (required_extra + (self.max_stock - 1)) / self.max_stock
        };
        proof {
            assert(min_new_bins as int <= n_rest);
            assert(self.kerf as int * (bin_count as int + min_new_bins as int)
                <= MAX_LEN as int * (2 * MAX_ITEMS as int)) by (nonlinear_arith)
                requires 0 <= self.kerf as int <= MAX_LEN as int
                    && 0 <= bin_count as int + min_new_bins as int <= 2 * MAX_ITEMS as int;
            assert(self.kerf as int * (bin_count as int + min_new_bins as int) >= 0) by (nonlinear_arith)
                requires self.kerf as int >= 0 && bin_count as int + min_new_bins as int >= 0;
            lemma_sol_wf_bounded(self.best@, k);
            assert(self.kerf as int * self.best@.bin_count <= MAX_LEN as int * MAX_ITEMS as int) by (nonlinear_arith)
                requires 0 <= self.kerf as int <= MAX_LEN as int && 0 <= self.best@.bin_count <= MAX_ITEMS as int;
            assert(self.kerf as int * self.best@.bin_count >= 0) by (nonlinear_arith)
                requires self.kerf as int >= 0 && self.best@.bin_count >= 0;
        }
        let optimistic = current_stock_length + required_extra + self.kerf * (bin_count as u64 + min_new_bins);
        let best_objective = self.best.total_stock_length + self.kerf * (self.best.bin_count as u64);
        if optimistic > best_objective {
            return;
        }
        // memoized state key: cut index plus the sorted multiset of
        // rounded (stock length, remaining) pairs of the open bins
        let mut pairs: Vec<(u64, u64)> = Vec::new();
        for i in 0..nb
            invariant
                nb == bins@.len(),
                bm0 == bins_model(bins@),
                k == self.kerf as int,
                packing_ok(bm0, k, index as int),
        {
            proof {
                assert(bin_wf(bm0[i as int], k));
            }
            let p = (round_key(bins[i].stock_length), round_key(bins[i].remaining));
            pairs.push(p);
        }
        let mut sorted_pairs: Vec<(u64, u64)> = Vec::new();
        let np = pairs.len();
        for i in 0..np
            invariant
                np == pairs@.len(),
        {
            let p = pairs[i];
            let mut j: usize = 0;
            while j < sorted_pairs.len()
                && (sorted_pairs[j].0 < p.0 || (sorted_pairs[j].0 == p.0 && sorted_pairs[j].1 <= p.1))
                invariant
                    j <= sorted_pairs@.len(),
                decreases sorted_pairs@.len() - j,
            {
                j = j + 1;
            }
            sorted_pairs.insert(j, p);
        }
        let mut key: Vec<u64> = Vec::new();
        key.push(index as u64);
        let nsp = sorted_pairs.len();
        for i in 0..nsp
            invariant
                nsp == sorted_pairs@.len(),
        {
            key.push(sorted_pairs[i].0);
            key.push(sorted_pairs[i].1);
        }
        let mut found = false;
        let mut found_at: usize = 0;
        let nseen = self.seen.len();
        for i in 0..nseen
            invariant
                nseen == self.seen@.len(),
                found ==> found_at < self.seen@.len(),
        {
            if vec_u64_eq(&self.seen[i].0, &key) {
                found = true;
                found_at = i;
            }
        }
        if found {
            let prior = self.seen[found_at].1;
            if prior <= current_objective {
                return;
            }
            self.seen.set(found_at, (key, current_objective));
        } else {
            self.seen.push((key, current_objective));
        }
        // base case: all cuts placed, finalize and compare to the incumbent
        if index >= self.cuts.len() {
            proof {
                assert forall|i: int| 0 <= i < bm0.len() implies bin_bounded(#[trigger] bm0[i]) by {
                    assert forall|j: int| 0 <= j < bm0.len() implies 0 <= #[trigger] count_f()(bm0[j]) by {}
                    lemma_sum_by_elem_le(bm0, count_f(), i);
                }
            }
            let snapshot = copy_bins(bins);
            let candidate = summarize_bins(snapshot, self.kerf);
            proof {
                lemma_sol_wf_bounded(candidate@, k);
                lemma_sol_wf_bounded(self.best@, k);
            }
            let order = compare_solution(&candidate, &self.best, self.kerf);
            if order == Cmp::Less {
                proof {
                    lemma_compare_less_objective(candidate@, self.best@, k);
                    assert(seq_int(self.cuts@).take(index as int) =~= seq_int(self.cuts@));
                    assert(bins_cuts_mset(candidate@.bins) == seq_int(self.cuts@).to_multiset());
                }
                self.best = candidate;
            }
            return;
        }
        let cut = self.cuts[index];
        proof {
            assert(cut <= self.max_stock && self.max_stock <= MAX_LEN);
        }
        // symmetric placements already tried at this branching level
        let mut tried: Vec<(u64, u64)> = Vec::new();
        let nb2 = bins.len();
        for bin_index in 0..nb2
            invariant
                nb2 == bins@.len(),
                bm0 == bins_model(bins@),
                k == self0.kerf as int,
                self0.wf(),
                (index as int) < self0.cuts@.len(),
                cut as int == self0.cuts@[index as int] as int,
                cut <= MAX_LEN,
                packing_ok(bm0, k, index as int),
                current_stock_length as int == total_stock_raw(bm0),
                self.wf(),
                Solver::frame(self0, *self),
                objective_of(self.best@, k) <= objective_of(self0.best@, k),
                self.explored >= e1,
        {
            let ghost bmodel = bm0[bin_index as int];
            proof {
                assert(bin_wf(bmodel, k));
            }
            let extra: u64 = if bins[bin_index].cuts.len() == 0 {
                0
            } else {
                self.kerf
            };
            proof {
                assert(extra as int == extra_kerf(bmodel, k));
            }
            let need = cut + extra;
            if bins[bin_index].remaining >= need {
                let next_remaining = bins[bin_index].remaining - need;
                proof {
                    assert(next_remaining as int == rem_after(bmodel, cut as int, k));
                    assert(fits_bin(bmodel, cut as int, k));
                }
                let pkey = (round_key(bins[bin_index].stock_length), round_key(next_remaining));
                let mut already = false;
                let nt = tried.len();
                for t in 0..nt
                    invariant
                        nt == tried@.len(),
                {
                    if tried[t].0 == pkey.0 && tried[t].1 == pkey.1 {
                        already = true;
                    }
                }
                if !already {
                    tried.push(pkey);
                    place_into_bin(bins, bin_index, cut, self.kerf);
                    proof {
                        let placed = place_in_bin(bmodel, cut as int, k);
                        assert(bins_model(bins@) == bm0.update(bin_index as int, placed));
                        lemma_place_in_bin_wf(bmodel, cut as int, k);
                        lemma_sum_by_update(bm0, count_f(), bin_index as int, placed);
                        lemma_sum_by_update(bm0, stock_f(), bin_index as int, placed);
                        assert(forall|t: int| 0 <= t < bm0.len() && t != bin_index as int
                            ==> #[trigger] bins_model(bins@)[t] == bm0[t]);
                        assert(packing_ok(bins_model(bins@), k, index as int + 1));
                        assert(total_stock_raw(bins_model(bins@)) == total_stock_raw(bm0));
                        lemma_mset_place_update(bm0, bin_index as int, cut as int, k,
                            seq_int(self0.cuts@).take(index as int));
                        assert(seq_int(self0.cuts@).take(index as int).push(cut as int)
                            =~= seq_int(self0.cuts@).take(index as int + 1));
                    }
                    self.dfs(clock, index + 1, bins, current_stock_length);
                    proof {
                        assert(bins_model(bins@)[bin_index as int]
                            == place_in_bin(bmodel, cut as int, k));
                    }
                    unplace_from_bin(bins, bin_index, cut, self.kerf, Ghost(bmodel));
                    proof {
                        assert(bins_model(bins@) =~= bm0);
                    }
                }
            }
        }
        // open a new bin of each stock length that fits
        let ns = self.stock.len();
        for si in 0..ns
            invariant
                ns == self.stock@.len(),
                bm0 == bins_model(bins@),
                k == self0.kerf as int,
                self0.wf(),
                (index as int) < self0.cuts@.len(),
                cut as int == self0.cuts@[index as int] as int,
                cut <= MAX_LEN,
                packing_ok(bm0, k, index as int),
                current_stock_length as int == total_stock_raw(bm0),
                self.wf(),
                Solver::frame(self0, *self),
                objective_of(self.best@, k) <= objective_of(self0.best@, k),
                self.explored >= e1,
        {
            let sl = self.stock[si];
            proof {
                assert(0 < sl <= MAX_LEN);
            }
            if sl >= cut {
                proof {
                    assert forall|i: int| 0 <= i < bm0.len() implies
                        0 <= #[trigger] stock_f()(bm0[i]) <= MAX_LEN by {
                        assert(bin_wf(bm0[i], k));
                    }
                    lemma_sum_by_bounds(bm0, stock_f(), MAX_LEN as int);
                    assert(bm0.len() * MAX_LEN <= MAX_ITEMS * MAX_LEN) by (nonlinear_arith)
                        requires 0 <= bm0.len() <= MAX_ITEMS;
                }
                let fresh = Bin {
                    stock_length: sl,
                    cuts: vec![cut],
                    used: cut,
                    remaining: sl - cut,
                };
                proof {
                    assert(seq_int(fresh.cuts@) =~= seq![cut as int]);
                    assert(fresh@ == fresh_bin(sl as int, cut as int));
                }
                bins.push(fresh);
                proof {
                    let fb = fresh_bin(sl as int, cut as int);
                    assert(bins_model(bins@) =~= bm0.push(fb));
                    lemma_fresh_bin_wf(sl as int, cut as int, k);
                    lemma_sum_by_push(bm0, count_f(), fb);
                    lemma_sum_by_push(bm0, stock_f(), fb);
                    assert(forall|t: int| 0 <= t < bm0.len()
                        ==> #[trigger] bins_model(bins@)[t] == bm0[t]);
                    assert(packing_ok(bins_model(bins@), k, index as int + 1));
                    lemma_mset_place_push(bm0, sl as int, cut as int,
                        seq_int(self0.cuts@).take(index as int));
                    assert(seq_int(self0.cuts@).take(index as int).push(cut as int)
                        =~= seq_int(self0.cuts@).take(index as int + 1));
                }
                let ghost bm1 = bins_model(bins@);
                self.dfs(clock, index + 1, bins, current_stock_length + sl);
                proof {
                    assert(bins_model(bins@) == bm1);
                    assert(bins@.len() == bm0.len() + 1);
                }
                let ghost vpre = bins@;
                bins.pop();
                proof {
                    assert forall|t: int| 0 <= t < bm0.len() implies
                        #[trigger] bins_model(bins@)[t] == bm0[t] by {
                        assert(bins@[t] == vpre[t]);
                        assert(bins_model(vpre)[t] == vpre[t]@);
                    }
                    assert(bins_model(bins@) =~= bm0);
                }
            }
        }
    }
}


/// Solves a request end to end: validates and canonicalizes it, always
/// runs the heuristic, and lets the time-boxed exact search refine the
/// incumbent when the budget allows. The report says honestly whether the
/// search finished and whether the answer was certified.
#[verifier::rlimit(100)]
#[verifier::loop_isolation(false)]
pub fn exact_solve<C: Clock>(input: &SolveInput, clock: &mut C) -> (r: Result<SolveOutput, SolveError>)
    requires
        input.cuts@.len() <= MAX_ITEMS,
        input.stock_lengths@.len() <= MAX_ITEMS,
        forall|i: int| 0 <= i < input.cuts@.len() ==> #[trigger] input.cuts@[i] <= MAX_LEN,
        forall|i: int| 0 <= i < input.stock_lengths@.len() ==> #[trigger] input.stock_lengths@[i] <= MAX_LEN,
        input.kerf <= MAX_LEN,
    ensures
        ({
            let st = norm_stock(seq_int(input.stock_lengths@));
            let sc = sort_desc(filter_pos(seq_int(input.cuts@)));
            let k = input.kerf as int;
            &&& (r matches Err(e) ==> e is NoUsableStock || e is CutExceedsStock)
            &&& ((r matches Err(e) && e is NoUsableStock) <==> st.len() == 0)
            &&& ((r matches Err(e) && e is CutExceedsStock) <==> (st.len() > 0 && sc.len() > 0
                    && sc[0] > st[st.len() - 1]))
            &&& (r matches Err(SolveError::CutExceedsStock(c)) ==> c as int == sc[0])
            &&& (r is Ok <==> (st.len() > 0 && (sc.len() == 0 || sc[0] <= st[st.len() - 1])))
            &&& (r matches Ok(out) ==> {
                &&& sol_wf(out@.sol, k)
                &&& total_cut_count(out@.sol.bins) == sc.len()
                &&& bins_cuts_mset(out@.sol.bins) == sc.to_multiset()
                &&& (out@.termination is Completed <==> out@.optimality is ProvenOptimal)
                &&& (sc.len() > 0 ==> heuristic_bins(sc, st, k) is Some
                        && objective_of(out@.sol, k)
                            <= objective_of(summarize_spec(heuristic_bins(sc, st, k)->Some_0, k), k))
                &&& (sc.len() == 0 ==> out@.sol.bins.len() == 0 && out@.sol.bin_count == 0
                        && out@.sol.total_used == 0 && out@.sol.total_waste == 0
                        && out@.sol.total_stock_length == 0 && out@.sol.total_kerf_loss == 0
                        && out@.sol.utilization == 0 && out@.explored_nodes == 0
                        && out@.elapsed_ms == 0
                        && out@.termination is Completed && out@.optimality is ProvenOptimal)
                &&& (sc.len() > 0 && input.time_budget_ms == 0 ==>
                        out@.sol == summarize_spec(heuristic_bins(sc, st, k)->Some_0, k)
                        && out@.explored_nodes == 0
                        && out@.termination is TimedOut && out@.optimality is NotProven)
                &&& (sc.len() > 0 && input.time_budget_ms > 0 ==> out@.explored_nodes >= 1)
            })
        }),
{
    let ghost cs = seq_int(input.cuts@);
    let ghost ss = seq_int(input.stock_lengths@);
    let ghost st = norm_stock(ss);
    let ghost sc = sort_desc(filter_pos(cs));
    let ghost k = input.kerf as int;
    let stock = normalize_stock_lengths(&input.stock_lengths);
    if stock.len() == 0 {
        return Result::Err(SolveError::NoUsableStock);
    }
    proof {
        lemma_norm_stock_props(ss);
        lemma_filter_pos_elems(cs);
        lemma_sort_desc_elems(filter_pos(cs));
        assert forall|t: int| 0 <= t < sc.len() implies 0 < #[trigger] sc[t] <= MAX_LEN by {
            assert(sc.contains(sc[t]));
            assert(filter_pos(cs).contains(sc[t]));
            assert(cs.contains(sc[t]));
            let w = choose|w: int| 0 <= w < cs.len() && cs[w] == sc[t];
            assert(input.cuts@[w] <= MAX_LEN);
        }
        assert forall|t: int| 0 <= t < st.len() implies 0 < #[trigger] st[t] <= MAX_LEN by {
            assert(st.contains(st[t]));
            assert(ss.contains(st[t]));
            let w = choose|w: int| 0 <= w < ss.len() && ss[w] == st[t];
            assert(input.stock_lengths@[w] <= MAX_LEN);
        }
    }
    proof {
        assert forall|t: int| 0 <= t < stock@.len() implies #[trigger] stock@[t] <= MAX_LEN by {
            assert(seq_int(stock@)[t] == stock@[t] as int);
        }
    }
    let kept = crate::normalize::filter_positive(&input.cuts);
    let sorted_cuts = sort_cuts_descending(&kept);
    proof {
        assert(seq_int(sorted_cuts@) == sc);
        assert(sc.len() == filter_pos(cs).len());
        assert(sorted_desc(sc));
        assert forall|t: int| 0 <= t < sorted_cuts@.len() implies
            #[trigger] sorted_cuts@[t] <= MAX_LEN by {
            assert(seq_int(sorted_cuts@)[t] == sorted_cuts@[t] as int);
        }
    }
    let start_ms = clock.now_ms();
    if sorted_cuts.len() == 0 {
        let out = SolveOutput {
            bins: Vec::new(),
            bin_count: 0,
            total_used: 0,
            total_waste: 0,
            total_stock_length: 0,
            total_kerf_loss: 0,
            utilization: 0,
            explored_nodes: 0,
            elapsed_ms: 0,
            termination: Termination::Completed,
            optimality: Optimality::ProvenOptimal,
        };
        proof {
            assert(out@.sol.bins =~= Seq::<BinModel>::empty());
            assert(total_used_raw(out@.sol.bins) == 0);
            assert(total_waste_raw(out@.sol.bins) == 0);
            assert(total_stock_raw(out@.sol.bins) == 0);
            assert(total_cut_count(out@.sol.bins) == 0);
            assert(sum_by(out@.sol.bins, crate::model::kerf_loss_f(k)) == 0);
            assert(crate::round_milli_spec(0) == 0);
            assert(out@.sol == summarize_spec(out@.sol.bins, k));
            assert(sol_wf(out@.sol, k));
            broadcast use vstd::multiset::group_multiset_axioms;
            broadcast use vstd::seq_lib::group_to_multiset_ensures;
            assert forall|v: int| #[trigger] bins_cuts_mset(out@.sol.bins).count(v)
                == sc.to_multiset().count(v) by {
                assert(!sc.contains(v));
            }
            assert(bins_cuts_mset(out@.sol.bins) =~= sc.to_multiset());
        }
        return Result::Ok(out);
    }
    let max_stock = stock[stock.len() - 1];
    proof {
        assert(max_stock as int == st[st.len() - 1]);
    }
    if sorted_cuts[0] > max_stock {
        return Result::Err(SolveError::CutExceedsStock(sorted_cuts[0]));
    }
    proof {
        assert forall|t: int| 0 <= t < sc.len() implies #[trigger] sc[t] <= st[st.len() - 1] by {
            assert(sc[0] >= sc[t]);
        }
        lemma_pack_prefix_total(sc, st, k, sc.len() as int);
        lemma_sort_desc_of_sorted(sc);
    }
    let heuristic = match evaluate_heuristic(&sorted_cuts, &stock, input.kerf) {
        Result::Ok(h) => h,
        Result::Err(_) => {
            proof {
                assert(false);
            }
            return Result::Err(SolveError::InternalInvariant);
        },
    };
    let ghost hm = heuristic@;
    proof {
        assert(hm == summarize_spec(heuristic_bins(sc, st, k)->Some_0, k));
        assert(sol_wf(hm, k));
        assert(total_cut_count(hm.bins) == sc.len());
        lemma_pack_prefix_mset(sc, st, k, sc.len() as int);
        assert(sc.take(sc.len() as int) =~= sc);
        assert(bins_cuts_mset(hm.bins) == sc.to_multiset());
    }
    if input.time_budget_ms == 0 {
        let end_ms = clock.now_ms();
        let elapsed = if end_ms >= start_ms {
            end_ms - start_ms
        } else {
            0
        };
        let out = SolveOutput {
            bins: heuristic.bins,
            bin_count: heuristic.bin_count,
            total_used: heuristic.total_used,
            total_waste: heuristic.total_waste,
            total_stock_length: heuristic.total_stock_length,
            total_kerf_loss: heuristic.total_kerf_loss,
            utilization: heuristic.utilization,
            explored_nodes: 0,
            elapsed_ms: elapsed,
            termination: Termination::TimedOut,
            optimality: Optimality::NotProven,
        };
        proof {
            assert(out@.sol == hm);
        }
        return Result::Ok(out);
    }
    let deadline_ms = if start_ms <= u64::MAX - input.time_budget_ms {
        start_ms + input.time_budget_ms
    } else {
        u64::MAX
    };
    let cl = sorted_cuts.len();
    let mut remaining_totals: Vec<u64> = Vec::new();
    for t in 0..(cl + 1)
        invariant
            remaining_totals@.len() == t,
            forall|j: int| 0 <= j < t ==> #[trigger] remaining_totals@[j] == 0,
    {
        remaining_totals.push(0);
    }
    proof {
        assert(suffix_sum(sc, sc.len() as int) == 0);
    }
    let mut i: usize = cl;
    while i > 0
        invariant
            0 <= i <= cl,
            remaining_totals@.len() == cl + 1,
            forall|j: int| i as int <= j <= cl as int
                ==> #[trigger] remaining_totals@[j] as int == suffix_sum(sc, j),
        decreases i,
    {
        i = i - 1;
        proof {
            lemma_suffix_sum_bound(sc, i as int + 1, MAX_LEN as int);
            assert((sc.len() - (i as int + 1)) * MAX_LEN <= MAX_TOTAL) by (nonlinear_arith)
                requires 0 <= sc.len() - (i as int + 1) <= MAX_ITEMS;
        }
        let v = remaining_totals[i + 1] + sorted_cuts[i];
        remaining_totals.set(i, v);
        proof {
            assert(v as int == suffix_sum(sc, i as int));
        }
    }
    let solver_best = heuristic;
    let mut solver = Solver {
        cuts: sorted_cuts,
        stock,
        kerf: input.kerf,
        max_stock,
        deadline_ms,
        remaining_totals,
        seen: Vec::new(),
        explored: 0,
        best: solver_best,
        timed_out: false,
    };
    proof {
        assert(solver.best@ == hm);
        assert(seq_int(solver.cuts@) == sc);
        assert(seq_int(solver.stock@) == st);
        assert forall|t: int| 0 <= t < solver.cuts@.len() implies
            #[trigger] solver.cuts@[t] <= solver.max_stock by {
            assert(seq_int(solver.cuts@)[t] == solver.cuts@[t] as int);
            assert(sc[t] <= sc[0]);
            assert(sc[0] <= max_stock as int);
        }
        assert forall|t: int| 0 <= t < solver.stock@.len() implies
            0 < #[trigger] solver.stock@[t] <= MAX_LEN by {
            assert(seq_int(solver.stock@)[t] == solver.stock@[t] as int);
        }
        assert(solver.wf());
    }
    let mut bins: Vec<Bin> = Vec::new();
    proof {
        assert(bins_model(bins@) =~= Seq::<BinModel>::empty());
        assert(total_cut_count(bins_model(bins@)) == 0);
        assert(total_stock_raw(bins_model(bins@)) == 0);
        assert(packing_ok(bins_model(bins@), k, 0));
        broadcast use vstd::multiset::group_multiset_axioms;
        broadcast use vstd::seq_lib::group_to_multiset_ensures;
        let pre = seq_int(solver.cuts@).take(0);
        assert(pre =~= Seq::<int>::empty());
        assert forall|v: int| #[trigger] bins_cuts_mset(bins_model(bins@)).count(v)
            == pre.to_multiset().count(v) by {
            assert(!pre.contains(v));
        }
        assert(bins_cuts_mset(bins_model(bins@)) =~= pre.to_multiset());
    }
    solver.dfs(clock, 0, &mut bins, 0);
    let end_ms = clock.now_ms();
    let elapsed = if end_ms >= start_ms {
        end_ms - start_ms
    } else {
        0
    };
    let timed_out = solver.timed_out;
    let explored = solver.explored;
    let best = solver.best;
    let ghost bestm = best@;
    proof {
        assert(sol_wf(bestm, k));
        assert(objective_of(bestm, k) <= objective_of(hm, k));
        assert(total_cut_count(bestm.bins) == sc.len());
        assert(bins_cuts_mset(bestm.bins) == sc.to_multiset());
    }
    let out = SolveOutput {
        bins: best.bins,
        bin_count: best.bin_count,
        total_used: best.total_used,
        total_waste: best.total_waste,
        total_stock_length: best.total_stock_length,
        total_kerf_loss: best.total_kerf_loss,
        utilization: best.utilization,
        explored_nodes: explored,
        elapsed_ms: elapsed,
        termination: if timed_out {
            Termination::TimedOut
        } else {
            Termination::Completed
        },
        optimality: if timed_out {
            Optimality::NotProven
        } else {
            Optimality::ProvenOptimal
        },
    };
    proof {
        assert(out@.sol == bestm);
    }
    Result::Ok(out)
}

} // verus!
