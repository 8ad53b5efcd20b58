//! The heuristic packer: a deterministic best-fit-decreasing variant that
//! always produces a feasible assignment, used as the zero-budget answer and
//! as the initial incumbent of the exact search.

use vstd::prelude::*;
use crate::{MAX_LEN, MAX_ITEMS, seq_int, SolveError};
use crate::model::{
    Bin, BinModel, PackedSolution, bins_model, bin_wf, bin_bounded, extra_kerf,
    kerf_cost, seq_sum, lemma_seq_sum_push, count_f, total_cut_count,
    lemma_sum_by_push, lemma_sum_by_update, lemma_sum_by_elem_le,
    summarize_spec, sol_wf, summarize_bins,
    bins_cuts_mset, lemma_bins_mset_push, lemma_bins_mset_update,
};
use crate::normalize::{sort_desc, sort_cuts_descending};

verus! {

/// What is left of this bin after taking `cut`, kerf surcharge included.
pub open spec fn rem_after(b: BinModel, cut: int, kerf: int) -> int {
    b.remaining - cut - extra_kerf(b, kerf)
}

pub open spec fn fits_bin(b: BinModel, cut: int, kerf: int) -> bool {
    rem_after(b, cut, kerf) >= 0
}

/// Best open bin among the first `i`: the one with the smallest
/// post-placement remainder, the earliest winning ties.
pub open spec fn best_existing(bins: Seq<BinModel>, cut: int, kerf: int, i: int) -> Option<(int, int)>
    decreases i,
{
    if i <= 0 {
        Option::None
    } else {
        let prev = best_existing(bins, cut, kerf, i - 1);
        if fits_bin(bins[i - 1], cut, kerf) {
            let ra = rem_after(bins[i - 1], cut, kerf);
            match prev {
                Option::None => Option::Some((i - 1, ra)),
                Option::Some(p) => if ra < p.1 {
                    Option::Some((i - 1, ra))
                } else {
                    prev
                },
            }
        } else {
            prev
        }
    }
}

/// State of the candidate scan after all open bins and the first `si` stock
/// lengths: whether the best option so far reuses an open bin, its index,
/// and its post-placement remainder. A fresh stock length only overtakes a
/// strictly smaller remainder, so ties keep an existing bin.
pub open spec fn scan_state(bins: Seq<BinModel>, cut: int, kerf: int, stock: Seq<int>, si: int) -> Option<(bool, int, int)>
    decreases si,
{
    if si <= 0 {
        match best_existing(bins, cut, kerf, bins.len() as int) {
            Option::None => Option::None,
            Option::Some(p) => Option::Some((true, p.0, p.1)),
        }
    } else {
        let prev = scan_state(bins, cut, kerf, stock, si - 1);
        if stock[si - 1] - cut >= 0 {
            let ra = stock[si - 1] - cut;
            match prev {
                Option::None => Option::Some((false, 0, ra)),
                Option::Some(q) => if ra < q.2 {
                    Option::Some((false, 0, ra))
                } else {
                    prev
                },
            }
        } else {
            prev
        }
    }
}

/// First stock length among the first `i` that fits `cut`.
pub open spec fn first_fit(stock: Seq<int>, cut: int, i: int) -> Option<int>
    decreases i,
{
    if i <= 0 {
        Option::None
    } else {
        match first_fit(stock, cut, i - 1) {
            Option::Some(sl) => Option::Some(sl),
            Option::None => if stock[i - 1] >= cut {
                Option::Some(stock[i - 1])
            } else {
                Option::None
            },
        }
    }
}

pub proof fn lemma_best_existing_props(bins: Seq<BinModel>, cut: int, kerf: int, i: int)
    requires
        0 <= i <= bins.len(),
    ensures
        best_existing(bins, cut, kerf, i) matches Option::Some(p) ==> 0 <= p.0 < i
            && fits_bin(bins[p.0], cut, kerf) && p.1 == rem_after(bins[p.0], cut, kerf),
        best_existing(bins, cut, kerf, i) is None ==> forall|k: int| 0 <= k < i
            ==> !fits_bin(#[trigger] bins[k], cut, kerf),
    decreases i,
{
    if i > 0 {
        lemma_best_existing_props(bins, cut, kerf, i - 1);
    }
}

pub proof fn lemma_first_fit_props(stock: Seq<int>, cut: int, i: int)
    requires
        0 <= i <= stock.len(),
    ensures
        first_fit(stock, cut, i) matches Option::Some(sl) ==> sl >= cut && stock.contains(sl),
        first_fit(stock, cut, i) is None ==> forall|k: int| 0 <= k < i ==> #[trigger] stock[k] < cut,
    decreases i,
{
    if i > 0 {
        lemma_first_fit_props(stock, cut, i - 1);
    }
}

pub proof fn lemma_scan_state_props(bins: Seq<BinModel>, cut: int, kerf: int, stock: Seq<int>, si: int)
    requires
        0 <= si <= stock.len(),
    ensures
        scan_state(bins, cut, kerf, stock, si) matches Option::Some(q) ==> (
            q.0 ==> 0 <= q.1 < bins.len() && fits_bin(bins[q.1], cut, kerf)
                && q.2 == rem_after(bins[q.1], cut, kerf)
        ),
        scan_state(bins, cut, kerf, stock, si) is None ==> first_fit(stock, cut, si) is None
            && best_existing(bins, cut, kerf, bins.len() as int) is None,
        (scan_state(bins, cut, kerf, stock, si) matches Option::Some(q) && !q.0)
            ==> first_fit(stock, cut, si) is Some,
    decreases si,
{
    lemma_best_existing_props(bins, cut, kerf, bins.len() as int);
    if si > 0 {
        lemma_scan_state_props(bins, cut, kerf, stock, si - 1);
        lemma_first_fit_props(stock, cut, si - 1);
    }
}

pub open spec fn heuristic_choice(bins: Seq<BinModel>, cut: int, kerf: int, stock: Seq<int>) -> Option<(bool, int)> {
    match scan_state(bins, cut, kerf, stock, stock.len() as int) {
        Option::None => Option::None,
        Option::Some(q) => Option::Some((q.0, q.1)),
    }
}

pub open spec fn place_in_bin(b: BinModel, cut: int, kerf: int) -> BinModel {
    BinModel {
        stock_length: b.stock_length,
        cuts: b.cuts.push(cut),
        used: b.used + cut + extra_kerf(b, kerf),
        remaining: b.remaining - cut - extra_kerf(b, kerf),
    }
}

pub open spec fn fresh_bin(stock_length: int, cut: int) -> BinModel {
    BinModel {
        stock_length: stock_length,
        cuts: seq![cut],
        used: cut,
        remaining: stock_length - cut,
    }
}

/// One step of the packer: place `cut` into the chosen open bin, or open
/// the first stock length that fits; `None` when nothing fits anywhere.
pub open spec fn place_cut(bins: Seq<BinModel>, cut: int, kerf: int, stock: Seq<int>) -> Option<Seq<BinModel>> {
    match heuristic_choice(bins, cut, kerf, stock) {
        Option::None => Option::None,
        Option::Some(c) => if c.0 {
            Option::Some(bins.update(c.1, place_in_bin(bins[c.1], cut, kerf)))
        } else {
            match first_fit(stock, cut, stock.len() as int) {
                Option::Some(sl) => Option::Some(bins.push(fresh_bin(sl, cut))),
                Option::None => Option::None,
            }
        },
    }
}

/// The bins after packing the first `i` cuts, in order.
pub open spec fn pack_prefix(cuts: Seq<int>, stock: Seq<int>, kerf: int, i: int) -> Option<Seq<BinModel>>
    decreases i,
{
    if i <= 0 {
        Option::Some(Seq::empty())
    } else {
        match pack_prefix(cuts, stock, kerf, i - 1) {
            Option::None => Option::None,
            Option::Some(b) => place_cut(b, cuts[i - 1], kerf, stock),
        }
    }
}

/// The heuristic packing of all cuts (already sorted descending).
pub open spec fn heuristic_bins(cuts: Seq<int>, stock: Seq<int>, kerf: int) -> Option<Seq<BinModel>> {
    pack_prefix(cuts, stock, kerf, cuts.len() as int)
}

/// Partial packing invariant: every bin is well formed and the bins hold
/// exactly `count` cuts in all.
pub open spec fn packing_ok(bins: Seq<BinModel>, kerf: int, count: int) -> bool {
    &&& forall|i: int| 0 <= i < bins.len() ==> bin_wf(#[trigger] bins[i], kerf)
    &&& forall|i: int| 0 <= i < bins.len() ==> 0 <= (#[trigger] bins[i]).stock_length <= MAX_LEN
    &&& bins.len() <= count
    &&& total_cut_count(bins) == count
}

pub proof fn lemma_place_in_bin_wf(b: BinModel, cut: int, kerf: int)
    requires
        bin_wf(b, kerf),
        fits_bin(b, cut, kerf),
        cut >= 0,
        kerf >= 0,
    ensures
        bin_wf(place_in_bin(b, cut, kerf), kerf),
        place_in_bin(b, cut, kerf).stock_length == b.stock_length,
        place_in_bin(b, cut, kerf).cuts.len() == b.cuts.len() + 1,
{
    let r = place_in_bin(b, cut, kerf);
    lemma_seq_sum_push(b.cuts, cut);
    let n = b.cuts.len() as int;
    if n >= 1 {
        assert(kerf_cost(n + 1, kerf) == kerf_cost(n, kerf) + kerf) by {
            assert(kerf * ((n + 1) - 1) == kerf * (n - 1) + kerf) by (nonlinear_arith);
        }
    } else {
        assert(kerf_cost(n + 1, kerf) == 0) by {
            assert(kerf * (1 - 1) == 0) by (nonlinear_arith);
        }
    }
    assert(forall|i: int| 0 <= i < r.cuts.len() ==> 0 <= #[trigger] r.cuts[i]);
}

pub proof fn lemma_fresh_bin_wf(stock_length: int, cut: int, kerf: int)
    requires
        0 <= cut <= stock_length,
    ensures
        bin_wf(fresh_bin(stock_length, cut), kerf),
        fresh_bin(stock_length, cut).cuts.len() == 1,
{
    let r = fresh_bin(stock_length, cut);
    assert(r.cuts.drop_first() =~= Seq::<int>::empty());
    assert(r.cuts[0] == cut && r.cuts.len() == 1);
    assert(seq_sum(Seq::<int>::empty()) == 0);
    assert(seq_sum(r.cuts) == cut + seq_sum(r.cuts.drop_first()));
    assert(kerf_cost(1, kerf) == 0) by {
        assert(kerf * (1 - 1) == 0) by (nonlinear_arith);
    }
}

pub proof fn lemma_place_cut_ok(bins: Seq<BinModel>, cut: int, kerf: int, stock: Seq<int>, count: int)
    requires
        packing_ok(bins, kerf, count),
        0 <= cut,
        0 <= kerf,
        forall|k: int| 0 <= k < stock.len() ==> 0 <= #[trigger] stock[k] <= MAX_LEN,
    ensures
        place_cut(bins, cut, kerf, stock) matches Option::Some(r)
            ==> packing_ok(r, kerf, count + 1) && r.len() <= bins.len() + 1,
{
    lemma_scan_state_props(bins, cut, kerf, stock, stock.len() as int);
    match place_cut(bins, cut, kerf, stock) {
        Option::None => {},
        Option::Some(r) => {
            let q = scan_state(bins, cut, kerf, stock, stock.len() as int)->Some_0;
            if q.0 {
                let j = q.1;
                let nb = place_in_bin(bins[j], cut, kerf);
                lemma_place_in_bin_wf(bins[j], cut, kerf);
                lemma_sum_by_update(bins, count_f(), j, nb);
                assert(r =~= bins.update(j, nb));
                assert(forall|i: int| 0 <= i < r.len() && i != j ==> #[trigger] r[i] == bins[i]);
            } else {
                lemma_first_fit_props(stock, cut, stock.len() as int);
                let sl = first_fit(stock, cut, stock.len() as int)->Some_0;
                let w = choose|w: int| 0 <= w < stock.len() && stock[w] == sl;
                let nb = fresh_bin(sl, cut);
                lemma_fresh_bin_wf(sl, cut, kerf);
                lemma_sum_by_push(bins, count_f(), nb);
                assert(r == bins.push(nb));
                assert(forall|i: int| 0 <= i < bins.len() ==> #[trigger] r[i] == bins[i]);
                assert(r[r.len() - 1] == nb);
            }
        },
    }
}


/// Placing a cut into an open bin adds exactly that cut to the multiset
/// of held cuts.
pub proof fn lemma_mset_place_update(bins: Seq<BinModel>, j: int, cut: int, kerf: int, prefix: Seq<int>)
    requires
        0 <= j < bins.len(),
        bins_cuts_mset(bins) == prefix.to_multiset(),
    ensures
        bins_cuts_mset(bins.update(j, place_in_bin(bins[j], cut, kerf)))
            == prefix.push(cut).to_multiset(),
{
    broadcast use vstd::multiset::group_multiset_axioms;
    broadcast use vstd::seq_lib::group_to_multiset_ensures;

    let placed = place_in_bin(bins[j], cut, kerf);
    lemma_bins_mset_update(bins, j, placed);
    assert(placed.cuts == bins[j].cuts.push(cut));
    assert forall|v: int| #[trigger] bins_cuts_mset(bins.update(j, placed)).count(v)
        == prefix.push(cut).to_multiset().count(v) by {
        assert(placed.cuts.to_multiset() =~= bins[j].cuts.to_multiset().insert(cut));
        assert(prefix.push(cut).to_multiset() =~= prefix.to_multiset().insert(cut));
    }
    assert(bins_cuts_mset(bins.update(j, placed)) =~= prefix.push(cut).to_multiset());
}

/// Opening a fresh bin with a cut adds exactly that cut to the multiset
/// of held cuts.
pub proof fn lemma_mset_place_push(bins: Seq<BinModel>, sl: int, cut: int, prefix: Seq<int>)
    requires
        bins_cuts_mset(bins) == prefix.to_multiset(),
    ensures
        bins_cuts_mset(bins.push(fresh_bin(sl, cut))) == prefix.push(cut).to_multiset(),
{
    broadcast use vstd::multiset::group_multiset_axioms;
    broadcast use vstd::seq_lib::group_to_multiset_ensures;

    let nb = fresh_bin(sl, cut);
    lemma_bins_mset_push(bins, nb);
    assert(nb.cuts =~= Seq::<int>::empty().push(cut));
    assert forall|v: int| #[trigger] bins_cuts_mset(bins.push(nb)).count(v)
        == prefix.push(cut).to_multiset().count(v) by {
        assert(nb.cuts.to_multiset() =~= Seq::<int>::empty().to_multiset().insert(cut));
        assert(!Seq::<int>::empty().contains(v));
        assert(Seq::<int>::empty().to_multiset().count(v) == 0);
        assert(prefix.push(cut).to_multiset() =~= prefix.to_multiset().insert(cut));
    }
    assert(bins_cuts_mset(bins.push(nb)) =~= prefix.push(cut).to_multiset());
}

/// One packer step adds exactly the placed cut to the held multiset.
pub proof fn lemma_place_cut_mset(bins: Seq<BinModel>, cut: int, kerf: int, stock: Seq<int>, prefix: Seq<int>)
    requires
        bins_cuts_mset(bins) == prefix.to_multiset(),
    ensures
        place_cut(bins, cut, kerf, stock) matches Option::Some(r)
            ==> bins_cuts_mset(r) == prefix.push(cut).to_multiset(),
{
    lemma_scan_state_props(bins, cut, kerf, stock, stock.len() as int);
    match place_cut(bins, cut, kerf, stock) {
        Option::None => {},
        Option::Some(r) => {
            let q = scan_state(bins, cut, kerf, stock, stock.len() as int)->Some_0;
            if q.0 {
                lemma_mset_place_update(bins, q.1, cut, kerf, prefix);
            } else {
                lemma_first_fit_props(stock, cut, stock.len() as int);
                let sl = first_fit(stock, cut, stock.len() as int)->Some_0;
                lemma_mset_place_push(bins, sl, cut, prefix);
            }
        },
    }
}

/// The packed bins hold exactly the placed prefix of cuts, as a multiset.
pub proof fn lemma_pack_prefix_mset(cuts: Seq<int>, stock: Seq<int>, kerf: int, i: int)
    requires
        0 <= i <= cuts.len(),
    ensures
        pack_prefix(cuts, stock, kerf, i) matches Option::Some(b)
            ==> bins_cuts_mset(b) == cuts.take(i).to_multiset(),
    decreases i,
{
    broadcast use vstd::multiset::group_multiset_axioms;
    broadcast use vstd::seq_lib::group_to_multiset_ensures;

    if i == 0 {
        assert(cuts.take(0) =~= Seq::<int>::empty());
        assert forall|v: int| #[trigger] bins_cuts_mset(Seq::<BinModel>::empty()).count(v)
            == cuts.take(0).to_multiset().count(v) by {
            assert(!Seq::<int>::empty().contains(v));
        }
        assert(bins_cuts_mset(Seq::<BinModel>::empty()) =~= cuts.take(0).to_multiset());
    } else {
        lemma_pack_prefix_mset(cuts, stock, kerf, i - 1);
        match pack_prefix(cuts, stock, kerf, i - 1) {
            Option::None => {},
            Option::Some(b0) => {
                lemma_place_cut_mset(b0, cuts[i - 1], kerf, stock, cuts.take(i - 1));
                assert(cuts.take(i) =~= cuts.take(i - 1).push(cuts[i - 1]));
            },
        }
    }
}

/// A failed packing stays failed for every longer prefix.
pub proof fn lemma_pack_prefix_none(cuts: Seq<int>, stock: Seq<int>, kerf: int, i: int, j: int)
    requires
        0 <= i <= j,
        pack_prefix(cuts, stock, kerf, i) is None,
    ensures
        pack_prefix(cuts, stock, kerf, j) is None,
    decreases j - i,
{
    if j > i {
        lemma_pack_prefix_none(cuts, stock, kerf, i, j - 1);
    }
}

/// Whenever some stock length fits the cut, the scan finds an option.
pub proof fn lemma_scan_state_finds_fit(bins: Seq<BinModel>, cut: int, kerf: int, stock: Seq<int>, si: int)
    requires
        0 < si <= stock.len(),
        exists|k: int| 0 <= k < si && #[trigger] stock[k] >= cut,
    ensures
        scan_state(bins, cut, kerf, stock, si) is Some,
    decreases si,
{
    let k = choose|k: int| 0 <= k < si && #[trigger] stock[k] >= cut;
    if k < si - 1 {
        lemma_scan_state_finds_fit(bins, cut, kerf, stock, si - 1);
    }
}

/// The packer never fails on cuts that fit the largest stock length.
pub proof fn lemma_pack_prefix_total(cuts: Seq<int>, stock: Seq<int>, kerf: int, i: int)
    requires
        0 <= i <= cuts.len(),
        stock.len() > 0,
        forall|k: int| 0 <= k < cuts.len() ==> #[trigger] cuts[k] <= stock[stock.len() - 1],
    ensures
        pack_prefix(cuts, stock, kerf, i) is Some,
    decreases i,
{
    if i > 0 {
        lemma_pack_prefix_total(cuts, stock, kerf, i - 1);
        let b = pack_prefix(cuts, stock, kerf, i - 1)->Some_0;
        let cut = cuts[i - 1];
        assert(stock[stock.len() - 1] >= cut);
        lemma_scan_state_finds_fit(b, cut, kerf, stock, stock.len() as int);
        lemma_scan_state_props(b, cut, kerf, stock, stock.len() as int);
        lemma_first_fit_props(stock, cut, stock.len() as int);
        let q = scan_state(b, cut, kerf, stock, stock.len() as int)->Some_0;
        if !q.0 {
            if first_fit(stock, cut, stock.len() as int) is None {
                assert(stock[stock.len() - 1] < cut);
            }
        }
    }
}

/// Produces the heuristic assignment: sorts the cuts descending, then
/// places each cut where it leaves the least remainder, preferring open
/// bins on ties; fails exactly when some cut fits nothing.
#[verifier::rlimit(100)]
pub fn evaluate_heuristic(cut_lengths: &Vec<u64>, stock_lengths: &Vec<u64>, kerf: u64) -> (r: Result<PackedSolution, SolveError>)
    requires
        cut_lengths@.len() <= MAX_ITEMS,
        forall|i: int| 0 <= i < cut_lengths@.len() ==> #[trigger] cut_lengths@[i] <= MAX_LEN,
        forall|i: int| 0 <= i < stock_lengths@.len() ==> #[trigger] stock_lengths@[i] <= MAX_LEN,
        kerf <= MAX_LEN,
    ensures
        ({
            let sc = sort_desc(seq_int(cut_lengths@));
            let st = seq_int(stock_lengths@);
            &&& (r is Ok <==> heuristic_bins(sc, st, kerf as int) is Some)
            &&& (r matches Ok(sol) ==> sol@ == summarize_spec(heuristic_bins(sc, st, kerf as int)->Some_0, kerf as int)
                    && sol_wf(sol@, kerf as int)
                    && total_cut_count(sol@.bins) == sc.len())
            &&& (r matches Err(e) ==> sc.len() > 0
                    && e == SolveError::CutExceedsStock(sc[0] as u64)
                    && first_fit(st, sc[0], st.len() as int) is None)
        }),
{
    let ghost sc = sort_desc(seq_int(cut_lengths@));
    let ghost st = seq_int(stock_lengths@);
    let ghost k = kerf as int;
    let sorted = sort_cuts_descending(cut_lengths);
    proof {
        crate::normalize::lemma_sort_desc_elems(seq_int(cut_lengths@));
        assert forall|t: int| 0 <= t < sc.len() implies 0 <= #[trigger] sc[t] <= MAX_LEN by {
            assert(sc.contains(sc[t]));
            assert(seq_int(cut_lengths@).contains(sc[t]));
            let w = choose|w: int| 0 <= w < cut_lengths@.len() && seq_int(cut_lengths@)[w] == sc[t];
        }
        assert(forall|t: int| 0 <= t < st.len() ==> 0 <= #[trigger] st[t] <= MAX_LEN);
    }
    let mut bins: Vec<Bin> = Vec::new();
    proof {
        assert(bins_model(bins@) =~= Seq::<BinModel>::empty());
        assert(total_cut_count(bins_model(bins@)) == 0);
    }
    let n = sorted.len();
    for idx in 0..n
        invariant
            n == sorted@.len(),
            sc == seq_int(sorted@),
            sc == sort_desc(seq_int(cut_lengths@)),
            st == seq_int(stock_lengths@),
            k == kerf as int,
            kerf <= MAX_LEN,
            sc.len() <= MAX_ITEMS,
            forall|t: int| 0 <= t < sc.len() ==> 0 <= #[trigger] sc[t] <= MAX_LEN,
            forall|t: int| 0 <= t < st.len() ==> 0 <= #[trigger] st[t] <= MAX_LEN,
            pack_prefix(sc, st, k, idx as int) == Option::Some(bins_model(bins@)),
            packing_ok(bins_model(bins@), k, idx as int),
            crate::normalize::sorted_desc(sc),
            idx as int > 0 ==> exists|t: int| 0 <= t < st.len() && #[trigger] st[t] >= sc[0],
    {
        let ghost bm = bins_model(bins@);
        let cut = sorted[idx];
        proof {
            assert(cut as int == sc[idx as int]);
        }
        let mut best_found = false;
        let mut best_is_existing = false;
        let mut best_index: usize = 0;
        let mut best_rem: u64 = 0;
        let nb = bins.len();
        for bi in 0..nb
            invariant
                nb == bins@.len(),
                bm == bins_model(bins@),
                k == kerf as int,
                cut as int == sc[idx as int],
                packing_ok(bm, k, idx as int),
                kerf <= MAX_LEN,
                0 <= idx < sc.len(),
                forall|t: int| 0 <= t < sc.len() ==> 0 <= #[trigger] sc[t] <= MAX_LEN,
                match best_existing(bm, cut as int, k, bi as int) {
                    Option::None => !best_found,
                    Option::Some(p) => best_found && best_is_existing
                        && best_index as int == p.0 && best_rem as int == p.1
                        && best_index < bins@.len(),
                },
        {
            let extra: u64 = if bins[bi].cuts.len() == 0 {
                0
            } else {
                kerf
            };
            proof {
                assert(bm[bi as int] == bins@[bi as int]@);
                assert(extra as int == extra_kerf(bm[bi as int], k));
                assert(bin_wf(bm[bi as int], k));
            }
            let need = cut + extra;
            if bins[bi].remaining >= need {
                let ra = bins[bi].remaining - need;
                proof {
                    assert(ra as int == rem_after(bm[bi as int], cut as int, k));
                    assert(fits_bin(bm[bi as int], cut as int, k));
                }
                if !best_found || ra < best_rem {
                    best_found = true;
                    best_is_existing = true;
                    best_index = bi;
                    best_rem = ra;
                }
            } else {
                proof {
                    assert(!fits_bin(bm[bi as int], cut as int, k));
                }
            }
        }
        let ns = stock_lengths.len();
        for si in 0..ns
            invariant
                ns == stock_lengths@.len(),
                bm == bins_model(bins@),
                k == kerf as int,
                cut as int == sc[idx as int],
                packing_ok(bm, k, idx as int),
                kerf <= MAX_LEN,
                0 <= idx < sc.len(),
                forall|t: int| 0 <= t < sc.len() ==> 0 <= #[trigger] sc[t] <= MAX_LEN,
                st == seq_int(stock_lengths@),
                forall|t: int| 0 <= t < st.len() ==> 0 <= #[trigger] st[t] <= MAX_LEN,
                match scan_state(bm, cut as int, k, st, si as int) {
                    Option::None => !best_found,
                    Option::Some(q) => best_found && best_is_existing == q.0
                        && (q.0 ==> best_index as int == q.1 && best_index < bins@.len())
                        && best_rem as int == q.2,
                },
        {
            let sl = stock_lengths[si];
            proof {
                assert(sl as int == st[si as int]);
            }
            if sl >= cut {
                let ra = sl - cut;
                if !best_found || ra < best_rem {
                    best_found = true;
                    best_is_existing = false;
                    best_rem = ra;
                }
            }
        }
        proof {
            lemma_scan_state_props(bm, cut as int, k, st, st.len() as int);
        }
        if !best_found {
            proof {
                let i0 = idx as int;
                assert(place_cut(bm, sc[i0], k, st) is None);
                assert(pack_prefix(sc, st, k, i0 + 1) is None);
                lemma_pack_prefix_none(sc, st, k, i0 + 1, sc.len() as int);
                assert(heuristic_bins(sc, st, kerf as int) is None);
                lemma_first_fit_props(st, cut as int, st.len() as int);
                // only the largest cut can fail: every earlier cut found a
                // fit, so some stock length holds sc[0], hence this cut too
                if i0 > 0 {
                    let t = choose|t: int| 0 <= t < st.len() && #[trigger] st[t] >= sc[0];
                    assert(sc[i0] <= sc[0]);
                    assert(st[t] >= cut as int);
                    lemma_scan_state_finds_fit(bm, cut as int, k, st, st.len() as int);
                    assert(false);
                }
                assert(first_fit(st, sc[0], st.len() as int) is None);
                assert(sc[0] as u64 == cut);
            }
            return Result::Err(SolveError::CutExceedsStock(cut));
        }
        if best_is_existing {
            let mut chosen = bins.remove(best_index);
            let extra: u64 = if chosen.cuts.len() == 0 {
                0
            } else {
                kerf
            };
            proof {
                assert(chosen@ == bm[best_index as int]);
                assert(bin_wf(chosen@, k));
                assert(fits_bin(chosen@, cut as int, k));
                assert(extra as int == extra_kerf(chosen@, k));
            }
            let need = cut + extra;
            chosen.cuts.push(cut);
            let new_used = chosen.used + need;
            let new_rem = chosen.remaining - need;
            chosen.used = new_used;
            chosen.remaining = new_rem;
            bins.insert(best_index, chosen);
            proof {
                assert(chosen@.cuts =~= bm[best_index as int].cuts.push(cut as int));
                assert(chosen@ == place_in_bin(bm[best_index as int], cut as int, k));
                assert(bins_model(bins@) =~= bm.update(best_index as int, place_in_bin(bm[best_index as int], cut as int, k)));
                assert(place_cut(bm, sc[idx as int], k, st) == Option::Some(bins_model(bins@)));
                lemma_place_cut_ok(bm, sc[idx as int], k, st, idx as int);
            }
        } else {
            let ghost ff = first_fit(st, cut as int, st.len() as int);
            let mut chosen_stock: u64 = 0;
            let mut found_stock = false;
            let ns2 = stock_lengths.len();
            for si in 0..ns2
                invariant
                    ns2 == stock_lengths@.len(),
                    st == seq_int(stock_lengths@),
                    (idx as int) < sc.len(),
                    cut as int == sc[idx as int],
                    match first_fit(st, cut as int, si as int) {
                        Option::None => !found_stock,
                        Option::Some(sl) => found_stock && chosen_stock as int == sl,
                    },
            {
                if !found_stock && stock_lengths[si] >= cut {
                    found_stock = true;
                    chosen_stock = stock_lengths[si];
                }
                proof {
                    assert(st[si as int] == stock_lengths@[si as int] as int);
                }
            }
            proof {
                assert(ff is Some);
                lemma_first_fit_props(st, cut as int, st.len() as int);
                assert(found_stock && chosen_stock as int == ff->Some_0);
            }
            let fresh = Bin {
                stock_length: chosen_stock,
                cuts: vec![cut],
                used: cut,
                remaining: chosen_stock - cut,
            };
            proof {
                assert(seq_int(fresh.cuts@) =~= seq![cut as int]);
                assert(fresh@ == fresh_bin(chosen_stock as int, cut as int));
            }
            bins.push(fresh);
            proof {
                assert(bins_model(bins@) =~= bm.push(fresh_bin(chosen_stock as int, cut as int)));
                assert(place_cut(bm, sc[idx as int], k, st) == Option::Some(bins_model(bins@)));
                lemma_place_cut_ok(bm, sc[idx as int], k, st, idx as int);
            }
        }
        proof {
            // the first cut found a place, and open bins did not exist yet,
            // so some stock length fits it
            if idx == 0 {
                assert(bm.len() == 0);
                assert(scan_state(bm, cut as int, k, st, st.len() as int) is Some);
                let q = scan_state(bm, cut as int, k, st, st.len() as int)->Some_0;
                if q.0 {
                    assert(0 <= q.1 < bm.len());
                }
                lemma_first_fit_props(st, cut as int, st.len() as int);
                let sl = first_fit(st, cut as int, st.len() as int)->Some_0;
                assert(st.contains(sl));
                let t = choose|t: int| 0 <= t < st.len() && st[t] == sl;
                assert(st[t] >= sc[0]);
            }
        }
    }
    proof {
        assert(pack_prefix(sc, st, k, sc.len() as int) == Option::Some(bins_model(bins@)));
        assert(heuristic_bins(sc, st, k) is Some);
        // each bin stays inside the machine bounds
        assert forall|i: int| 0 <= i < bins_model(bins@).len()
            implies bin_bounded(#[trigger] bins_model(bins@)[i]) by {
            let bmf = bins_model(bins@);
            assert forall|j: int| 0 <= j < bmf.len() implies 0 <= #[trigger] count_f()(bmf[j]) by {}
            lemma_sum_by_elem_le(bmf, count_f(), i);
        }
    }
    let result = summarize_bins(bins, kerf);
    Result::Ok(result)
}

} // verus!
