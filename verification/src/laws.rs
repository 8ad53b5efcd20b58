//! Library-wide laws, stated over the spec functions that the public
//! contracts use.

use vstd::prelude::*;
use crate::model::{
    SolutionModel, bin_wf, used_of, sol_wf, summarize_spec, objective_of,
};
use crate::heuristic::heuristic_bins;
use crate::normalize::{
    sort_desc, filter_pos, norm_stock, sorted_desc,
    lemma_sort_desc_elems, lemma_filter_pos_elems, lemma_norm_stock_props,
};

verus! {

/// Feasibility: in every well-formed solution, recomputing a bin's `used`
/// length from its cuts and the kerf reproduces the reported value, and
/// `remaining` is exactly the stock length minus `used`, never negative.
pub proof fn lemma_feasibility(s: SolutionModel, kerf: int, i: int)
    requires
        sol_wf(s, kerf),
        0 <= i < s.bins.len(),
    ensures
        s.bins[i].used == used_of(s.bins[i].cuts, kerf),
        s.bins[i].remaining == s.bins[i].stock_length - s.bins[i].used,
        s.bins[i].remaining >= 0,
{
    assert(bin_wf(s.bins[i], kerf));
}

/// Dominance: a solution whose objective is bounded by the heuristic
/// summary's objective never beats it; the exact solver's contract bounds
/// its result by exactly that summary.
pub proof fn lemma_dominance(e: SolutionModel, h: SolutionModel, sc: Seq<int>, st: Seq<int>, kerf: int)
    requires
        heuristic_bins(sc, st, kerf) is Some,
        h == summarize_spec(heuristic_bins(sc, st, kerf)->Some_0, kerf),
        objective_of(e, kerf) <= objective_of(summarize_spec(heuristic_bins(sc, st, kerf)->Some_0, kerf), kerf),
    ensures
        objective_of(e, kerf) <= objective_of(h, kerf),
{
}

/// Determinism of the heuristic: its contract pins the result to a spec
/// function of the input, so two results of identical input are identical.
pub proof fn lemma_heuristic_deterministic(r1: SolutionModel, r2: SolutionModel, sc: Seq<int>, st: Seq<int>, kerf: int)
    requires
        heuristic_bins(sc, st, kerf) is Some,
        r1 == summarize_spec(heuristic_bins(sc, st, kerf)->Some_0, kerf),
        r2 == summarize_spec(heuristic_bins(sc, st, kerf)->Some_0, kerf),
    ensures
        r1 == r2,
{
}

/// Determinism of the zero-budget solve: its solution part equals the
/// heuristic summary, so two zero-budget solves of identical input agree
/// on objective and bin composition.
pub proof fn lemma_zero_budget_deterministic(o1: SolutionModel, o2: SolutionModel, sc: Seq<int>, st: Seq<int>, kerf: int)
    requires
        heuristic_bins(sc, st, kerf) is Some,
        o1 == summarize_spec(heuristic_bins(sc, st, kerf)->Some_0, kerf),
        o2 == summarize_spec(heuristic_bins(sc, st, kerf)->Some_0, kerf),
    ensures
        o1 == o2,
        objective_of(o1, kerf) == objective_of(o2, kerf),
{
}

/// Infeasible cut: when a positive cut exceeds every configured stock
/// length, the largest normalized cut exceeds the largest normalized stock
/// length, which is exactly the condition under which the solver fails.
pub proof fn lemma_infeasible_cut(cuts: Seq<int>, stock: Seq<int>, v: int)
    requires
        cuts.contains(v),
        v > 0,
        forall|i: int| 0 <= i < stock.len() ==> #[trigger] stock[i] < v,
    ensures
        sort_desc(filter_pos(cuts)).len() > 0,
        norm_stock(stock).len() > 0
            ==> sort_desc(filter_pos(cuts))[0] > norm_stock(stock)[norm_stock(stock).len() - 1],
{
    lemma_filter_pos_elems(cuts);
    lemma_sort_desc_elems(filter_pos(cuts));
    lemma_norm_stock_props(stock);
    let sc = sort_desc(filter_pos(cuts));
    assert(filter_pos(cuts).contains(v));
    assert(sc.contains(v));
    let w = choose|w: int| 0 <= w < sc.len() && sc[w] == v;
    assert(sorted_desc(sc));
    assert(sc[0] >= sc[w]);
    let st = norm_stock(stock);
    if st.len() > 0 {
        let last = st[st.len() - 1];
        assert(st.contains(last));
        assert(stock.contains(last));
        let u = choose|u: int| 0 <= u < stock.len() && stock[u] == last;
        assert(last < v);
    }
}

} // verus!
