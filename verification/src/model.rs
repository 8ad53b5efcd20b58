//! Bins, solutions, their mathematical models, and the summarizer that
//! derives the reported totals of an assignment.

use vstd::prelude::*;
use vstd::multiset::Multiset;
use crate::{MAX_LEN, MAX_ITEMS, MAX_TOTAL, round_milli_spec, round_milli, seq_int};

verus! {

/// One stock instance holding an ordered list of cuts, with the derived
/// `used` and `remaining` lengths. All lengths are micro-units.
#[derive(Debug)]
pub struct Bin {
    pub stock_length: u64,
    pub cuts: Vec<u64>,
    pub used: u64,
    pub remaining: u64,
}

/// Mathematical model of a `Bin`: the same fields over unbounded integers.
pub ghost struct BinModel {
    pub stock_length: int,
    pub cuts: Seq<int>,
    pub used: int,
    pub remaining: int,
}

impl View for Bin {
    type V = BinModel;

    open spec fn view(&self) -> BinModel {
        BinModel {
            stock_length: self.stock_length as int,
            cuts: seq_int(self.cuts@),
            used: self.used as int,
            remaining: self.remaining as int,
        }
    }
}

pub open spec fn bins_model(s: Seq<Bin>) -> Seq<BinModel> {
    Seq::new(s.len(), |i: int| s[i]@)
}

/// Sum of `f` over all bins of a sequence.
pub open spec fn sum_by(s: Seq<BinModel>, f: spec_fn(BinModel) -> int) -> int
    decreases s.len(),
{
    if s.len() == 0 {
        0
    } else {
        f(s[0]) + sum_by(s.drop_first(), f)
    }
}

pub proof fn lemma_sum_by_push(s: Seq<BinModel>, f: spec_fn(BinModel) -> int, x: BinModel)
    ensures
        sum_by(s.push(x), f) == sum_by(s, f) + f(x),
    decreases s.len(),
{
    if s.len() == 0 {
        assert(s.push(x).drop_first() =~= Seq::<BinModel>::empty());
        assert(s.push(x)[0] == x);
        assert(sum_by(s.push(x), f) == f(x) + sum_by(Seq::<BinModel>::empty(), f));
    } else {
        assert(s.push(x).drop_first() =~= s.drop_first().push(x));
        assert(s.push(x)[0] == s[0]);
        lemma_sum_by_push(s.drop_first(), f, x);
    }
}

pub proof fn lemma_sum_by_take_step(s: Seq<BinModel>, f: spec_fn(BinModel) -> int, i: int)
    requires
        0 <= i < s.len(),
    ensures
        sum_by(s.take(i + 1), f) == sum_by(s.take(i), f) + f(s[i]),
{
    assert(s.take(i + 1) =~= s.take(i).push(s[i]));
    lemma_sum_by_push(s.take(i), f, s[i]);
}

pub proof fn lemma_sum_by_update(s: Seq<BinModel>, f: spec_fn(BinModel) -> int, j: int, x: BinModel)
    requires
        0 <= j < s.len(),
    ensures
        sum_by(s.update(j, x), f) == sum_by(s, f) - f(s[j]) + f(x),
    decreases s.len(),
{
    if j == 0 {
        assert(s.update(0, x).drop_first() =~= s.drop_first());
    } else {
        assert(s.update(j, x).drop_first() =~= s.drop_first().update(j - 1, x));
        lemma_sum_by_update(s.drop_first(), f, j - 1, x);
    }
}

/// Pointwise bounds on `f` bound the sum.
pub proof fn lemma_sum_by_bounds(s: Seq<BinModel>, f: spec_fn(BinModel) -> int, hi: int)
    requires
        forall|i: int| 0 <= i < s.len() ==> 0 <= #[trigger] f(s[i]) <= hi,
        0 <= hi,
    ensures
        0 <= sum_by(s, f) <= s.len() * hi,
    decreases s.len(),
{
    if s.len() == 0 {
    } else {
        let d = s.drop_first();
        assert(forall|i: int| 0 <= i < d.len() ==> f(#[trigger] d[i]) == f(s[i + 1]));
        lemma_sum_by_bounds(d, f, hi);
        assert(s.len() * hi == (s.len() - 1) * hi + hi) by (nonlinear_arith);
    }
}

/// With nonnegative addends, each one is at most the whole sum.
pub proof fn lemma_sum_by_elem_le(s: Seq<BinModel>, f: spec_fn(BinModel) -> int, j: int)
    requires
        forall|i: int| 0 <= i < s.len() ==> 0 <= #[trigger] f(s[i]),
        0 <= j < s.len(),
    ensures
        f(s[j]) <= sum_by(s, f),
    decreases s.len(),
{
    let d = s.drop_first();
    assert(forall|i: int| 0 <= i < d.len() ==> #[trigger] d[i] == s[i + 1]);
    if j == 0 {
        lemma_sum_by_bounds_lower(d, f);
    } else {
        lemma_sum_by_elem_le(d, f, j - 1);
    }
}

pub proof fn lemma_sum_by_bounds_lower(s: Seq<BinModel>, f: spec_fn(BinModel) -> int)
    requires
        forall|i: int| 0 <= i < s.len() ==> 0 <= #[trigger] f(s[i]),
    ensures
        0 <= sum_by(s, f),
    decreases s.len(),
{
    if s.len() > 0 {
        let d = s.drop_first();
        assert(forall|i: int| 0 <= i < d.len() ==> #[trigger] d[i] == s[i + 1]);
        lemma_sum_by_bounds_lower(d, f);
    }
}

/// Pointwise dominance of `g` over `f` carries to the sums.
pub proof fn lemma_sum_by_le(s: Seq<BinModel>, f: spec_fn(BinModel) -> int, g: spec_fn(BinModel) -> int)
    requires
        forall|i: int| 0 <= i < s.len() ==> #[trigger] f(s[i]) <= g(s[i]),
    ensures
        sum_by(s, f) <= sum_by(s, g),
    decreases s.len(),
{
    if s.len() > 0 {
        let d = s.drop_first();
        assert(forall|i: int| 0 <= i < d.len() ==> f(#[trigger] d[i]) <= g(d[i])) by {
            assert(forall|i: int| 0 <= i < d.len() ==> #[trigger] d[i] == s[i + 1]);
        }
        lemma_sum_by_le(d, f, g);
    }
}

/// Sum of a sequence of cut lengths.
pub open spec fn seq_sum(s: Seq<int>) -> int
    decreases s.len(),
{
    if s.len() == 0 {
        0
    } else {
        s[0] + seq_sum(s.drop_first())
    }
}

pub proof fn lemma_seq_sum_push(s: Seq<int>, x: int)
    ensures
        seq_sum(s.push(x)) == seq_sum(s) + x,
    decreases s.len(),
{
    if s.len() == 0 {
        assert(s.push(x).drop_first() =~= Seq::<int>::empty());
        assert(s.push(x)[0] == x);
        assert(seq_sum(s.push(x)) == x + seq_sum(Seq::<int>::empty()));
    } else {
        assert(s.push(x).drop_first() =~= s.drop_first().push(x));
        assert(s.push(x)[0] == s[0]);
        lemma_seq_sum_push(s.drop_first(), x);
    }
}

pub proof fn lemma_seq_sum_nonneg(s: Seq<int>)
    requires
        forall|i: int| 0 <= i < s.len() ==> 0 <= #[trigger] s[i],
    ensures
        0 <= seq_sum(s),
    decreases s.len(),
{
    if s.len() > 0 {
        let d = s.drop_first();
        assert(forall|i: int| 0 <= i < d.len() ==> #[trigger] d[i] == s[i + 1]);
        lemma_seq_sum_nonneg(d);
    }
}

/// The multiset of all cuts held across the bins: the cuts of an
/// assignment, regardless of which bin holds them.
pub open spec fn bins_cuts_mset(bins: Seq<BinModel>) -> Multiset<int>
    decreases bins.len(),
{
    if bins.len() == 0 {
        Multiset::empty()
    } else {
        bins[0].cuts.to_multiset().add(bins_cuts_mset(bins.drop_first()))
    }
}

pub proof fn lemma_bins_mset_push(s: Seq<BinModel>, x: BinModel)
    ensures
        forall|v: int| #[trigger] bins_cuts_mset(s.push(x)).count(v)
            == bins_cuts_mset(s).count(v) + x.cuts.to_multiset().count(v),
    decreases s.len(),
{
    broadcast use vstd::multiset::group_multiset_axioms;

    if s.len() == 0 {
        assert(s.push(x).drop_first() =~= Seq::<BinModel>::empty());
        assert(s.push(x)[0] == x);
        assert forall|v: int| #[trigger] bins_cuts_mset(s.push(x)).count(v)
            == bins_cuts_mset(s).count(v) + x.cuts.to_multiset().count(v) by {
            assert(bins_cuts_mset(s.push(x))
                == x.cuts.to_multiset().add(bins_cuts_mset(Seq::<BinModel>::empty())));
            assert(bins_cuts_mset(Seq::<BinModel>::empty()).count(v) == 0);
            assert(bins_cuts_mset(s).count(v) == 0);
        }
    } else {
        assert(s.push(x).drop_first() =~= s.drop_first().push(x));
        assert(s.push(x)[0] == s[0]);
        lemma_bins_mset_push(s.drop_first(), x);
        assert forall|v: int| #[trigger] bins_cuts_mset(s.push(x)).count(v)
            == bins_cuts_mset(s).count(v) + x.cuts.to_multiset().count(v) by {
            assert(bins_cuts_mset(s.push(x))
                == s[0].cuts.to_multiset().add(bins_cuts_mset(s.drop_first().push(x))));
            assert(bins_cuts_mset(s.drop_first().push(x)).count(v)
                == bins_cuts_mset(s.drop_first()).count(v) + x.cuts.to_multiset().count(v));
            assert(bins_cuts_mset(s)
                == s[0].cuts.to_multiset().add(bins_cuts_mset(s.drop_first())));
        }
    }
}

pub proof fn lemma_bins_mset_update(s: Seq<BinModel>, j: int, x: BinModel)
    requires
        0 <= j < s.len(),
    ensures
        forall|v: int| #[trigger] bins_cuts_mset(s.update(j, x)).count(v)
            == bins_cuts_mset(s).count(v) - s[j].cuts.to_multiset().count(v)
                + x.cuts.to_multiset().count(v),
    decreases s.len(),
{
    broadcast use vstd::multiset::group_multiset_axioms;

    if j == 0 {
        assert(s.update(0, x).drop_first() =~= s.drop_first());
        assert forall|v: int| #[trigger] bins_cuts_mset(s.update(j, x)).count(v)
            == bins_cuts_mset(s).count(v) - s[j].cuts.to_multiset().count(v)
                + x.cuts.to_multiset().count(v) by {
            assert(bins_cuts_mset(s.update(0, x))
                == x.cuts.to_multiset().add(bins_cuts_mset(s.drop_first())));
            assert(bins_cuts_mset(s)
                == s[0].cuts.to_multiset().add(bins_cuts_mset(s.drop_first())));
        }
    } else {
        assert(s.update(j, x).drop_first() =~= s.drop_first().update(j - 1, x));
        lemma_bins_mset_update(s.drop_first(), j - 1, x);
        assert forall|v: int| #[trigger] bins_cuts_mset(s.update(j, x)).count(v)
            == bins_cuts_mset(s).count(v) - s[j].cuts.to_multiset().count(v)
                + x.cuts.to_multiset().count(v) by {
            assert(s.update(j, x)[0] == s[0]);
            assert(bins_cuts_mset(s.update(j, x))
                == s[0].cuts.to_multiset().add(bins_cuts_mset(s.drop_first().update(j - 1, x))));
            assert(bins_cuts_mset(s.drop_first().update(j - 1, x)).count(v)
                == bins_cuts_mset(s.drop_first()).count(v)
                    - s.drop_first()[j - 1].cuts.to_multiset().count(v)
                    + x.cuts.to_multiset().count(v));
            assert(s.drop_first()[j - 1] == s[j]);
            assert(bins_cuts_mset(s)
                == s[0].cuts.to_multiset().add(bins_cuts_mset(s.drop_first())));
        }
    }
}

/// Kerf charged inside one bin: one kerf per cut boundary, `count - 1` of them.
pub open spec fn kerf_cost(n: int, kerf: int) -> int {
    if n >= 1 {
        kerf * (n - 1)
    } else {
        0
    }
}

/// What a bin's `used` length must be: its cuts plus the kerf boundaries.
pub open spec fn used_of(cuts: Seq<int>, kerf: int) -> int {
    seq_sum(cuts) + kerf_cost(cuts.len() as int, kerf)
}

/// The kerf surcharge a new cut pays in this bin: nothing in an empty bin.
pub open spec fn extra_kerf(b: BinModel, kerf: int) -> int {
    if b.cuts.len() == 0 {
        0
    } else {
        kerf
    }
}

/// The bin invariant: `used` is recomputed from the cuts and the kerf,
/// `remaining` is what is left of the stock length, and never negative.
pub open spec fn bin_wf(b: BinModel, kerf: int) -> bool {
    &&& b.used == used_of(b.cuts, kerf)
    &&& b.used + b.remaining == b.stock_length
    &&& 0 <= b.remaining
    &&& forall|i: int| 0 <= i < b.cuts.len() ==> 0 <= #[trigger] b.cuts[i]
}

/// A well-formed bin uses a nonnegative length and never more than it has.
pub proof fn lemma_bin_wf_parts(b: BinModel, kerf: int)
    requires
        bin_wf(b, kerf),
        kerf >= 0,
    ensures
        0 <= b.used,
        b.remaining <= b.stock_length,
{
    lemma_seq_sum_nonneg(b.cuts);
    let n = b.cuts.len() as int;
    if n >= 1 {
        assert(kerf * (n - 1) >= 0) by (nonlinear_arith)
            requires kerf >= 0 && n >= 1;
    }
}

/// Machine bounds a bin must stay inside.
pub open spec fn bin_bounded(b: BinModel) -> bool {
    &&& 0 <= b.stock_length <= MAX_LEN
    &&& b.cuts.len() <= MAX_ITEMS
}

pub open spec fn bins_ok(bins: Seq<BinModel>, kerf: int) -> bool {
    &&& bins.len() <= MAX_ITEMS
    &&& forall|i: int| 0 <= i < bins.len() ==> bin_wf(#[trigger] bins[i], kerf) && bin_bounded(bins[i])
}

pub open spec fn used_f() -> spec_fn(BinModel) -> int {
    |b: BinModel| b.used
}

pub open spec fn waste_f() -> spec_fn(BinModel) -> int {
    |b: BinModel| b.remaining
}

pub open spec fn stock_f() -> spec_fn(BinModel) -> int {
    |b: BinModel| b.stock_length
}

pub open spec fn kerf_loss_f(kerf: int) -> spec_fn(BinModel) -> int {
    |b: BinModel| kerf_cost(b.cuts.len() as int, kerf)
}

pub open spec fn count_f() -> spec_fn(BinModel) -> int {
    |b: BinModel| b.cuts.len() as int
}

pub open spec fn total_used_raw(bins: Seq<BinModel>) -> int {
    sum_by(bins, used_f())
}

pub open spec fn total_waste_raw(bins: Seq<BinModel>) -> int {
    sum_by(bins, waste_f())
}

pub open spec fn total_stock_raw(bins: Seq<BinModel>) -> int {
    sum_by(bins, stock_f())
}

pub open spec fn total_kerf_loss_raw(bins: Seq<BinModel>, kerf: int) -> int {
    sum_by(bins, kerf_loss_f(kerf))
}

/// How many cuts the bins hold in all.
pub open spec fn total_cut_count(bins: Seq<BinModel>) -> int {
    sum_by(bins, count_f())
}

/// Utilization ratio in parts per million, rounded half up; zero when no
/// stock was consumed.
pub open spec fn util_ppm(used: int, stock: int) -> int {
    if stock > 0 {
        (2 * used * 1_000_000 + stock) / (2 * stock)
    } else {
        0
    }
}

/// A finalized assignment with its derived totals, lengths in micro-units
/// rounded to the milli grid, utilization in parts per million.
#[derive(Debug)]
pub struct PackedSolution {
    pub bins: Vec<Bin>,
    pub bin_count: usize,
    pub total_used: u64,
    pub total_waste: u64,
    pub total_stock_length: u64,
    pub total_kerf_loss: u64,
    pub utilization: u64,
}

pub ghost struct SolutionModel {
    pub bins: Seq<BinModel>,
    pub bin_count: int,
    pub total_used: int,
    pub total_waste: int,
    pub total_stock_length: int,
    pub total_kerf_loss: int,
    pub utilization: int,
}

impl View for PackedSolution {
    type V = SolutionModel;

    open spec fn view(&self) -> SolutionModel {
        SolutionModel {
            bins: bins_model(self.bins@),
            bin_count: self.bin_count as int,
            total_used: self.total_used as int,
            total_waste: self.total_waste as int,
            total_stock_length: self.total_stock_length as int,
            total_kerf_loss: self.total_kerf_loss as int,
            utilization: self.utilization as int,
        }
    }
}

/// The totals a summarized solution must report for its bins.
pub open spec fn summarize_spec(bins: Seq<BinModel>, kerf: int) -> SolutionModel {
    SolutionModel {
        bins: bins,
        bin_count: bins.len() as int,
        total_used: round_milli_spec(total_used_raw(bins)),
        total_waste: round_milli_spec(total_waste_raw(bins)),
        total_stock_length: round_milli_spec(total_stock_raw(bins)),
        total_kerf_loss: round_milli_spec(total_kerf_loss_raw(bins, kerf)),
        utilization: util_ppm(total_used_raw(bins), total_stock_raw(bins)),
    }
}

/// Full well-formedness of a finalized solution: every bin obeys its
/// invariant and every total is the summarizer's value for these bins.
pub open spec fn sol_wf(s: SolutionModel, kerf: int) -> bool {
    &&& bins_ok(s.bins, kerf)
    &&& s == summarize_spec(s.bins, kerf)
}

/// Outcome of ranking two candidate solutions.
#[derive(Clone, Copy, PartialEq, Eq, Structural, Debug)]
pub enum Cmp {
    Less,
    Equal,
    Greater,
}

/// The quantity the solver minimizes first: total stock length consumed
/// plus one kerf surcharge per bin.
pub open spec fn objective_of(s: SolutionModel, kerf: int) -> int {
    s.total_stock_length + kerf * s.bin_count
}

/// The strict weak ordering over finalized solutions: objective first,
/// then total waste, then bin count, each ascending.
pub open spec fn compare_spec(l: SolutionModel, r: SolutionModel, kerf: int) -> Cmp {
    if objective_of(l, kerf) < objective_of(r, kerf) {
        Cmp::Less
    } else if objective_of(l, kerf) > objective_of(r, kerf) {
        Cmp::Greater
    } else if l.total_waste < r.total_waste {
        Cmp::Less
    } else if l.total_waste > r.total_waste {
        Cmp::Greater
    } else if l.bin_count < r.bin_count {
        Cmp::Less
    } else if l.bin_count > r.bin_count {
        Cmp::Greater
    } else {
        Cmp::Equal
    }
}

/// A lower-ranked solution never has the larger objective.
pub proof fn lemma_compare_less_objective(l: SolutionModel, r: SolutionModel, kerf: int)
    ensures
        compare_spec(l, r, kerf) == Cmp::Less ==> objective_of(l, kerf) <= objective_of(r, kerf),
{
}

/// Machine bounds of a finalized solution's reported numbers.
pub open spec fn sol_bounded(s: SolutionModel) -> bool {
    &&& 0 <= s.bin_count <= MAX_ITEMS
    &&& 0 <= s.total_stock_length <= MAX_TOTAL + 500
    &&& 0 <= s.total_waste <= MAX_TOTAL + 500
}

/// A well-formed solution stays inside the machine bounds.
pub proof fn lemma_sol_wf_bounded(s: SolutionModel, kerf: int)
    requires
        sol_wf(s, kerf),
        kerf >= 0,
    ensures
        sol_bounded(s),
{
    assert forall|i: int| 0 <= i < s.bins.len() implies
        0 <= #[trigger] stock_f()(s.bins[i]) <= MAX_LEN by {
        assert(bin_wf(s.bins[i], kerf) && bin_bounded(s.bins[i]));
    }
    assert forall|i: int| 0 <= i < s.bins.len() implies
        0 <= #[trigger] waste_f()(s.bins[i]) <= MAX_LEN by {
        let b = s.bins[i];
        assert(bin_wf(b, kerf) && bin_bounded(b));
        lemma_seq_sum_nonneg(b.cuts);
        let n = b.cuts.len() as int;
        if n >= 1 {
            assert(kerf * (n - 1) >= 0) by (nonlinear_arith)
                requires kerf >= 0 && n >= 1;
        }
        assert(b.used >= 0);
    }
    lemma_sum_by_bounds(s.bins, stock_f(), MAX_LEN as int);
    lemma_sum_by_bounds(s.bins, waste_f(), MAX_LEN as int);
    assert(s.bins.len() * MAX_LEN <= MAX_ITEMS * MAX_LEN) by (nonlinear_arith)
        requires 0 <= s.bins.len() <= MAX_ITEMS;
    crate::lemma_round_milli_bounds(total_stock_raw(s.bins));
    crate::lemma_round_milli_bounds(total_waste_raw(s.bins));
}

/// Ranks two finalized solutions: objective, then waste, then bin count.
pub fn compare_solution(left: &PackedSolution, right: &PackedSolution, kerf: u64) -> (c: Cmp)
    requires
        kerf <= MAX_LEN,
        sol_bounded(left@),
        sol_bounded(right@),
    ensures
        c == compare_spec(left@, right@, kerf as int),
{
    proof {
        assert(kerf as int * left@.bin_count <= MAX_LEN as int * MAX_ITEMS as int) by (nonlinear_arith)
            requires 0 <= kerf as int <= MAX_LEN as int && 0 <= left@.bin_count <= MAX_ITEMS as int;
        assert(kerf as int * right@.bin_count <= MAX_LEN as int * MAX_ITEMS as int) by (nonlinear_arith)
            requires 0 <= kerf as int <= MAX_LEN as int && 0 <= right@.bin_count <= MAX_ITEMS as int;
        assert(kerf as int * left@.bin_count >= 0) by (nonlinear_arith)
            requires kerf as int >= 0 && left@.bin_count >= 0;
        assert(kerf as int * right@.bin_count >= 0) by (nonlinear_arith)
            requires kerf as int >= 0 && right@.bin_count >= 0;
    }
    let left_objective = left.total_stock_length + kerf * (left.bin_count as u64);
    let right_objective = right.total_stock_length + kerf * (right.bin_count as u64);
    if left_objective < right_objective {
        Cmp::Less
    } else if left_objective > right_objective {
        Cmp::Greater
    } else if left.total_waste < right.total_waste {
        Cmp::Less
    } else if left.total_waste > right.total_waste {
        Cmp::Greater
    } else if left.bin_count < right.bin_count {
        Cmp::Less
    } else if left.bin_count > right.bin_count {
        Cmp::Greater
    } else {
        Cmp::Equal
    }
}

/// Derives the reportable totals of a bin assignment. Pure aggregation:
/// the bins come back unchanged, with every total recomputed from them.
pub fn summarize_bins(bins: Vec<Bin>, kerf: u64) -> (r: PackedSolution)
    requires
        kerf <= MAX_LEN,
        bins_ok(bins_model(bins@), kerf as int),
    ensures
        r@ == summarize_spec(bins_model(bins@), kerf as int),
        sol_wf(r@, kerf as int),
{
    let ghost bm = bins_model(bins@);
    let mut total_used: u64 = 0;
    let mut total_waste: u64 = 0;
    let mut total_stock: u64 = 0;
    let mut total_kerf_loss: u64 = 0;
    let n = bins.len();
    proof {
        assert(bm.take(0) =~= Seq::<BinModel>::empty());
    }
    for i in 0..n
        invariant
            n == bins@.len(),
            bm == bins_model(bins@),
            kerf <= MAX_LEN,
            bins_ok(bm, kerf as int),
            total_used as int == total_used_raw(bm.take(i as int)),
            total_waste as int == total_waste_raw(bm.take(i as int)),
            total_stock as int == total_stock_raw(bm.take(i as int)),
            total_kerf_loss as int == total_kerf_loss_raw(bm.take(i as int), kerf as int),
            total_used <= i as int * MAX_LEN,
            total_waste <= i as int * MAX_LEN,
            total_stock <= i as int * MAX_LEN,
            total_kerf_loss <= i as int * MAX_LEN,
    {
        let b = &bins[i];
        proof {
            assert(bm[i as int] == b@);
            assert(bin_wf(bm[i as int], kerf as int) && bin_bounded(bm[i as int]));
            // each addend is nonnegative and at most the stock length
            assert(kerf_cost(b@.cuts.len() as int, kerf as int) >= 0) by {
                if b@.cuts.len() >= 1 {
                    assert(kerf as int * (b@.cuts.len() - 1) >= 0) by (nonlinear_arith)
                        requires kerf >= 0 && b@.cuts.len() >= 1;
                }
            }
            lemma_seq_sum_nonneg(b@.cuts);
            assert(b@.used <= b@.stock_length);
            lemma_sum_by_take_step(bm, used_f(), i as int);
            lemma_sum_by_take_step(bm, waste_f(), i as int);
            lemma_sum_by_take_step(bm, stock_f(), i as int);
            lemma_sum_by_take_step(bm, kerf_loss_f(kerf as int), i as int);
            assert((i as int + 1) * MAX_LEN == i as int * MAX_LEN + MAX_LEN) by (nonlinear_arith);
        }
        let cut_count = b.cuts.len();
        let loss: u64 = if cut_count <= 1 {
            proof {
                let n2 = bm[i as int].cuts.len() as int;
                assert(0 <= n2 <= 1);
                if n2 >= 1 {
                    assert(kerf_cost(n2, kerf as int) == kerf as int * (n2 - 1));
                    assert(kerf as int * (n2 - 1) == 0) by (nonlinear_arith)
                        requires n2 == 1;
                } else {
                    assert(kerf_cost(n2, kerf as int) == 0);
                }
                assert(kerf_cost(bm[i as int].cuts.len() as int, kerf as int) == 0);
            }
            0
        } else {
            proof {
                let n = b@.cuts.len() as int;
                assert(b@.cuts.len() == b.cuts@.len());
                assert(n == cut_count as int);
                assert(n >= 2);
                assert(kerf_cost(n, kerf as int) == kerf as int * (n - 1));
                assert(kerf as int * (n - 1) == (n - 1) * kerf as int) by (nonlinear_arith);
            }
            (cut_count - 1) as u64 * kerf
        };
        proof {
            assert(loss as int == kerf_cost(bm[i as int].cuts.len() as int, kerf as int));
            assert(kerf_loss_f(kerf as int)(bm[i as int])
                == kerf_cost(bm[i as int].cuts.len() as int, kerf as int));
        }
        total_used = total_used + b.used;
        total_waste = total_waste + b.remaining;
        total_stock = total_stock + b.stock_length;
        total_kerf_loss = total_kerf_loss + loss;
    }
    proof {
        assert(bm.take(n as int) =~= bm);
        assert(n as int * MAX_LEN <= MAX_TOTAL) by (nonlinear_arith)
            requires n as int <= MAX_ITEMS;
    }
    let utilization: u64 = if total_stock > 0 {
        proof {
            lemma_sum_by_le(bm, used_f(), stock_f());
            assert(total_used <= total_stock);
            let tu = total_used as int;
            let ts = total_stock as int;
            assert(2 * tu * 1_000_000 + ts <= (2 * ts) * 1_000_001) by (nonlinear_arith)
                requires 0 <= tu <= ts && ts >= 1;
            vstd::arithmetic::div_mod::lemma_div_is_ordered(
                2 * tu * 1_000_000 + ts, (2 * ts) * 1_000_001, 2 * ts);
            vstd::arithmetic::div_mod::lemma_div_multiples_vanish(1_000_001, 2 * ts);
            assert((2 * ts) * 1_000_001 == (2 * ts) * 1_000_001);
            assert(((2 * ts) * 1_000_001) / (2 * ts) == 1_000_001) by {
                assert((2 * ts) * 1_000_001 == 1_000_001 * (2 * ts)) by (nonlinear_arith);
            }
            assert((2 * tu * 1_000_000 + ts) / (2 * ts) <= 1_000_001);
        }
        let num: u128 = 2u128 * (total_used as u128) * 1_000_000u128 + (total_stock as u128);
        let den: u128 = 2u128 * (total_stock as u128);
        (num / den) as u64
    } else {
        0
    };
    PackedSolution {
        bin_count: bins.len(),
        bins,
        total_used: round_milli(total_used),
        total_waste: round_milli(total_waste),
        total_stock_length: round_milli(total_stock),
        total_kerf_loss: round_milli(total_kerf_loss),
        utilization,
    }
}

} // verus!
