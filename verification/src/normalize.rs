//! Input normalization: cuts are sorted descending; stock lengths are
//! filtered to positive values, sorted ascending and deduplicated.

use vstd::prelude::*;
use crate::seq_int;

verus! {

pub open spec fn sorted_desc(s: Seq<int>) -> bool {
    forall|i: int, j: int| 0 <= i <= j < s.len() ==> s[i] >= s[j]
}

pub open spec fn sorted_asc(s: Seq<int>) -> bool {
    forall|i: int, j: int| 0 <= i <= j < s.len() ==> s[i] <= s[j]
}

/// Insert `v` into `s` before the first element smaller than it.
pub open spec fn insert_desc(s: Seq<int>, v: int) -> Seq<int>
    decreases s.len(),
{
    if s.len() > 0 && s[0] >= v {
        seq![s[0]] + insert_desc(s.drop_first(), v)
    } else {
        seq![v] + s
    }
}

/// The first `i` elements of `s`, sorted descending (stable insertion).
pub open spec fn sort_desc_prefix(s: Seq<int>, i: int) -> Seq<int>
    decreases i,
{
    if i <= 0 {
        Seq::empty()
    } else {
        insert_desc(sort_desc_prefix(s, i - 1), s[i - 1])
    }
}

/// `s` rearranged in descending order.
pub open spec fn sort_desc(s: Seq<int>) -> Seq<int> {
    sort_desc_prefix(s, s.len() as int)
}

/// Inserting at the scan position is what `insert_desc` denotes.
pub proof fn lemma_insert_desc_split(s: Seq<int>, v: int, j: int)
    requires
        0 <= j <= s.len(),
        forall|k: int| 0 <= k < j ==> s[k] >= v,
        j < s.len() ==> s[j] < v,
    ensures
        insert_desc(s, v) == s.take(j) + seq![v] + s.skip(j),
    decreases j,
{
    if j == 0 {
        assert(insert_desc(s, v) == seq![v] + s);
        assert(s.take(0) + seq![v] + s.skip(0) =~= seq![v] + s);
    } else {
        assert(s[0] >= v);
        let d = s.drop_first();
        assert(forall|k: int| 0 <= k < j - 1 ==> #[trigger] d[k] == s[k + 1]);
        lemma_insert_desc_split(d, v, j - 1);
        assert(s.take(j) + seq![v] + s.skip(j) =~= seq![s[0]] + (d.take(j - 1) + seq![v] + d.skip(j - 1)));
    }
}

pub proof fn lemma_insert_desc_props(s: Seq<int>, v: int)
    ensures
        insert_desc(s, v).len() == s.len() + 1,
        forall|x: int| #[trigger] insert_desc(s, v).contains(x) <==> (s.contains(x) || x == v),
        sorted_desc(s) ==> sorted_desc(insert_desc(s, v)),
    decreases s.len(),
{
    let r = insert_desc(s, v);
    if s.len() > 0 && s[0] >= v {
        let d = s.drop_first();
        lemma_insert_desc_props(d, v);
        let t = insert_desc(d, v);
        assert(r == seq![s[0]] + t);
        assert forall|x: int| #[trigger] r.contains(x) implies (s.contains(x) || x == v) by {
            let k = choose|k: int| 0 <= k < r.len() && r[k] == x;
            if k == 0 {
                assert(s[0] == x);
            } else {
                assert(t[k - 1] == x);
                assert(t.contains(x));
                if d.contains(x) {
                    let m = choose|m: int| 0 <= m < d.len() && d[m] == x;
                    assert(s[m + 1] == x);
                }
            }
        }
        assert forall|x: int| (s.contains(x) || x == v) implies #[trigger] r.contains(x) by {
            if s.contains(x) {
                let k = choose|k: int| 0 <= k < s.len() && s[k] == x;
                if k == 0 {
                    assert(r[0] == x);
                } else {
                    assert(d[k - 1] == x);
                    assert(d.contains(x));
                    assert(t.contains(x));
                    let m = choose|m: int| 0 <= m < t.len() && t[m] == x;
                    assert(r[m + 1] == x);
                }
            } else {
                assert(t.contains(v));
                let m = choose|m: int| 0 <= m < t.len() && t[m] == v;
                assert(r[m + 1] == x);
            }
        }
        if sorted_desc(s) {
            assert(forall|i: int, j: int| 0 <= i <= j < d.len() ==> d[i] >= d[j]);
            assert forall|i: int, j: int| 0 <= i <= j < r.len() implies r[i] >= r[j] by {
                if i == 0 {
                    if j > 0 {
                        assert(r[j] == t[j - 1]);
                        assert(t.contains(t[j - 1]));
                        if d.contains(t[j - 1]) {
                            let m = choose|m: int| 0 <= m < d.len() && d[m] == t[j - 1];
                            assert(s[0] >= s[m + 1]);
                        }
                    }
                } else {
                    assert(r[i] == t[i - 1] && r[j] == t[j - 1]);
                }
            }
        }
    } else {
        assert(r == seq![v] + s);
        assert forall|x: int| #[trigger] r.contains(x) implies (s.contains(x) || x == v) by {
            let k = choose|k: int| 0 <= k < r.len() && r[k] == x;
            if k > 0 {
                assert(s[k - 1] == x);
            }
        }
        assert forall|x: int| (s.contains(x) || x == v) implies #[trigger] r.contains(x) by {
            if s.contains(x) {
                let k = choose|k: int| 0 <= k < s.len() && s[k] == x;
                assert(r[k + 1] == x);
            } else {
                assert(r[0] == x);
            }
        }
        if sorted_desc(s) {
            assert forall|i: int, j: int| 0 <= i <= j < r.len() implies r[i] >= r[j] by {
                if i == 0 && j > 0 {
                    if s.len() > 0 {
                        assert(s[0] < v);
                        assert(r[j] == s[j - 1]);
                    }
                }
            }
        }
    }
}

pub proof fn lemma_sort_desc_prefix_props(s: Seq<int>, i: int)
    requires
        0 <= i <= s.len(),
    ensures
        sort_desc_prefix(s, i).len() == i,
        sorted_desc(sort_desc_prefix(s, i)),
        forall|x: int| #[trigger] sort_desc_prefix(s, i).contains(x) <==> s.take(i).contains(x),
    decreases i,
{
    if i > 0 {
        lemma_sort_desc_prefix_props(s, i - 1);
        lemma_insert_desc_props(sort_desc_prefix(s, i - 1), s[i - 1]);
        let p = s.take(i - 1);
        let q = s.take(i);
        assert(q =~= p.push(s[i - 1]));
        assert forall|x: int| #[trigger] q.contains(x) <==> (p.contains(x) || x == s[i - 1]) by {
            if q.contains(x) {
                let k = choose|k: int| 0 <= k < q.len() && q[k] == x;
                if k < i - 1 {
                    assert(p[k] == x);
                }
            }
            if p.contains(x) {
                let k = choose|k: int| 0 <= k < p.len() && p[k] == x;
                assert(q[k] == x);
            }
            if x == s[i - 1] {
                assert(q[i - 1] == x);
            }
        }
    }
}

/// Every element of the descending sort is an element of the input and the
/// other way round; the first element bounds them all.
pub proof fn lemma_sort_desc_elems(s: Seq<int>)
    ensures
        sort_desc(s).len() == s.len(),
        sorted_desc(sort_desc(s)),
        forall|x: int| #[trigger] sort_desc(s).contains(x) <==> s.contains(x),
    decreases 0int,
{
    lemma_sort_desc_prefix_props(s, s.len() as int);
    assert(s.take(s.len() as int) =~= s);
}

/// Sorting an already descending sequence changes nothing.
pub proof fn lemma_sort_desc_of_sorted(s: Seq<int>)
    requires
        sorted_desc(s),
    ensures
        sort_desc(s) == s,
{
    lemma_sort_desc_prefix_of_sorted(s, s.len() as int);
    assert(s.take(s.len() as int) =~= s);
}

pub proof fn lemma_sort_desc_prefix_of_sorted(s: Seq<int>, i: int)
    requires
        sorted_desc(s),
        0 <= i <= s.len(),
    ensures
        sort_desc_prefix(s, i) == s.take(i),
    decreases i,
{
    if i > 0 {
        lemma_sort_desc_prefix_of_sorted(s, i - 1);
        let p = s.take(i - 1);
        assert(forall|k: int| 0 <= k < p.len() ==> #[trigger] p[k] == s[k]);
        lemma_insert_desc_split(p, s[i - 1], i - 1);
        assert(p.take(i - 1) + seq![s[i - 1]] + p.skip(i - 1) =~= s.take(i));
    }
}

/// Positive elements of the first `i`, in input order.
pub open spec fn filter_pos_prefix(s: Seq<int>, i: int) -> Seq<int>
    decreases i,
{
    if i <= 0 {
        Seq::empty()
    } else if s[i - 1] > 0 {
        filter_pos_prefix(s, i - 1).push(s[i - 1])
    } else {
        filter_pos_prefix(s, i - 1)
    }
}

pub open spec fn filter_pos(s: Seq<int>) -> Seq<int> {
    filter_pos_prefix(s, s.len() as int)
}

pub proof fn lemma_filter_pos_prefix_props(s: Seq<int>, i: int)
    requires
        0 <= i <= s.len(),
    ensures
        filter_pos_prefix(s, i).len() <= i,
        forall|x: int| #[trigger] filter_pos_prefix(s, i).contains(x) <==> (s.take(i).contains(x) && x > 0),
    decreases i,
{
    if i > 0 {
        lemma_filter_pos_prefix_props(s, i - 1);
        let f = filter_pos_prefix(s, i - 1);
        let r = filter_pos_prefix(s, i);
        let p = s.take(i - 1);
        let q = s.take(i);
        assert(q =~= p.push(s[i - 1]));
        assert forall|x: int| #[trigger] q.contains(x) <==> (p.contains(x) || x == s[i - 1]) by {
            if q.contains(x) {
                let k = choose|k: int| 0 <= k < q.len() && q[k] == x;
                if k < i - 1 {
                    assert(p[k] == x);
                }
            }
            if p.contains(x) {
                let k = choose|k: int| 0 <= k < p.len() && p[k] == x;
                assert(q[k] == x);
            }
            if x == s[i - 1] {
                assert(q[i - 1] == x);
            }
        }
        if s[i - 1] > 0 {
            assert forall|x: int| #[trigger] r.contains(x) <==> (f.contains(x) || x == s[i - 1]) by {
                if r.contains(x) {
                    let k = choose|k: int| 0 <= k < r.len() && r[k] == x;
                    if k < f.len() {
                        assert(f[k] == x);
                    }
                }
                if f.contains(x) {
                    let k = choose|k: int| 0 <= k < f.len() && f[k] == x;
                    assert(r[k] == x);
                }
                if x == s[i - 1] {
                    assert(r[r.len() - 1] == x);
                }
            }
        }
    }
}

pub proof fn lemma_filter_pos_elems(s: Seq<int>)
    ensures
        filter_pos(s).len() <= s.len(),
        forall|x: int| #[trigger] filter_pos(s).contains(x) <==> (s.contains(x) && x > 0),
{
    lemma_filter_pos_prefix_props(s, s.len() as int);
    assert(s.take(s.len() as int) =~= s);
}

/// Insert `v` into `s` before the first element greater than it.
pub open spec fn insert_asc(s: Seq<int>, v: int) -> Seq<int>
    decreases s.len(),
{
    if s.len() > 0 && s[0] <= v {
        seq![s[0]] + insert_asc(s.drop_first(), v)
    } else {
        seq![v] + s
    }
}

pub open spec fn sort_asc_prefix(s: Seq<int>, i: int) -> Seq<int>
    decreases i,
{
    if i <= 0 {
        Seq::empty()
    } else {
        insert_asc(sort_asc_prefix(s, i - 1), s[i - 1])
    }
}

pub open spec fn sort_asc(s: Seq<int>) -> Seq<int> {
    sort_asc_prefix(s, s.len() as int)
}

pub proof fn lemma_insert_asc_split(s: Seq<int>, v: int, j: int)
    requires
        0 <= j <= s.len(),
        forall|k: int| 0 <= k < j ==> s[k] <= v,
        j < s.len() ==> s[j] > v,
    ensures
        insert_asc(s, v) == s.take(j) + seq![v] + s.skip(j),
    decreases j,
{
    if j == 0 {
        assert(insert_asc(s, v) == seq![v] + s);
        assert(s.take(0) + seq![v] + s.skip(0) =~= seq![v] + s);
    } else {
        assert(s[0] <= v);
        let d = s.drop_first();
        assert(forall|k: int| 0 <= k < j - 1 ==> #[trigger] d[k] == s[k + 1]);
        lemma_insert_asc_split(d, v, j - 1);
        assert(s.take(j) + seq![v] + s.skip(j) =~= seq![s[0]] + (d.take(j - 1) + seq![v] + d.skip(j - 1)));
    }
}

pub proof fn lemma_insert_asc_props(s: Seq<int>, v: int)
    ensures
        insert_asc(s, v).len() == s.len() + 1,
        forall|x: int| #[trigger] insert_asc(s, v).contains(x) <==> (s.contains(x) || x == v),
        sorted_asc(s) ==> sorted_asc(insert_asc(s, v)),
    decreases s.len(),
{
    let r = insert_asc(s, v);
    if s.len() > 0 && s[0] <= v {
        let d = s.drop_first();
        lemma_insert_asc_props(d, v);
        let t = insert_asc(d, v);
        assert(r == seq![s[0]] + t);
        assert forall|x: int| #[trigger] r.contains(x) implies (s.contains(x) || x == v) by {
            let k = choose|k: int| 0 <= k < r.len() && r[k] == x;
            if k == 0 {
                assert(s[0] == x);
            } else {
                assert(t[k - 1] == x);
                assert(t.contains(x));
                if d.contains(x) {
                    let m = choose|m: int| 0 <= m < d.len() && d[m] == x;
                    assert(s[m + 1] == x);
                }
            }
        }
        assert forall|x: int| (s.contains(x) || x == v) implies #[trigger] r.contains(x) by {
            if s.contains(x) {
                let k = choose|k: int| 0 <= k < s.len() && s[k] == x;
                if k == 0 {
                    assert(r[0] == x);
                } else {
                    assert(d[k - 1] == x);
                    assert(d.contains(x));
                    assert(t.contains(x));
                    let m = choose|m: int| 0 <= m < t.len() && t[m] == x;
                    assert(r[m + 1] == x);
                }
            } else {
                assert(t.contains(v));
                let m = choose|m: int| 0 <= m < t.len() && t[m] == v;
                assert(r[m + 1] == x);
            }
        }
        if sorted_asc(s) {
            assert(forall|i: int, j: int| 0 <= i <= j < d.len() ==> d[i] <= d[j]);
            assert forall|i: int, j: int| 0 <= i <= j < r.len() implies r[i] <= r[j] by {
                if i == 0 {
                    if j > 0 {
                        assert(r[j] == t[j - 1]);
                        assert(t.contains(t[j - 1]));
                        if d.contains(t[j - 1]) {
                            let m = choose|m: int| 0 <= m < d.len() && d[m] == t[j - 1];
                            assert(s[0] <= s[m + 1]);
                        }
                    }
                } else {
                    assert(r[i] == t[i - 1] && r[j] == t[j - 1]);
                }
            }
        }
    } else {
        assert(r == seq![v] + s);
        assert forall|x: int| #[trigger] r.contains(x) implies (s.contains(x) || x == v) by {
            let k = choose|k: int| 0 <= k < r.len() && r[k] == x;
            if k > 0 {
                assert(s[k - 1] == x);
            }
        }
        assert forall|x: int| (s.contains(x) || x == v) implies #[trigger] r.contains(x) by {
            if s.contains(x) {
                let k = choose|k: int| 0 <= k < s.len() && s[k] == x;
                assert(r[k + 1] == x);
            } else {
                assert(r[0] == x);
            }
        }
        if sorted_asc(s) {
            assert forall|i: int, j: int| 0 <= i <= j < r.len() implies r[i] <= r[j] by {
                if i == 0 && j > 0 {
                    if s.len() > 0 {
                        assert(s[0] > v);
                        assert(r[j] == s[j - 1]);
                    }
                }
            }
        }
    }
}

pub proof fn lemma_sort_asc_prefix_props(s: Seq<int>, i: int)
    requires
        0 <= i <= s.len(),
    ensures
        sort_asc_prefix(s, i).len() == i,
        sorted_asc(sort_asc_prefix(s, i)),
        forall|x: int| #[trigger] sort_asc_prefix(s, i).contains(x) <==> s.take(i).contains(x),
    decreases i,
{
    if i > 0 {
        lemma_sort_asc_prefix_props(s, i - 1);
        lemma_insert_asc_props(sort_asc_prefix(s, i - 1), s[i - 1]);
        let p = s.take(i - 1);
        let q = s.take(i);
        assert(q =~= p.push(s[i - 1]));
        assert forall|x: int| #[trigger] q.contains(x) <==> (p.contains(x) || x == s[i - 1]) by {
            if q.contains(x) {
                let k = choose|k: int| 0 <= k < q.len() && q[k] == x;
                if k < i - 1 {
                    assert(p[k] == x);
                }
            }
            if p.contains(x) {
                let k = choose|k: int| 0 <= k < p.len() && p[k] == x;
                assert(q[k] == x);
            }
            if x == s[i - 1] {
                assert(q[i - 1] == x);
            }
        }
    }
}

pub proof fn lemma_sort_asc_elems(s: Seq<int>)
    ensures
        sort_asc(s).len() == s.len(),
        sorted_asc(sort_asc(s)),
        forall|x: int| #[trigger] sort_asc(s).contains(x) <==> s.contains(x),
{
    lemma_sort_asc_prefix_props(s, s.len() as int);
    assert(s.take(s.len() as int) =~= s);
}

/// Drop each element equal to its predecessor: on a sorted sequence this
/// keeps one copy of each value.
pub open spec fn dedup_prefix(s: Seq<int>, i: int) -> Seq<int>
    decreases i,
{
    if i <= 0 {
        Seq::empty()
    } else if i >= 2 && s[i - 2] == s[i - 1] {
        dedup_prefix(s, i - 1)
    } else {
        dedup_prefix(s, i - 1).push(s[i - 1])
    }
}

pub proof fn lemma_dedup_prefix_props(s: Seq<int>, i: int)
    requires
        sorted_asc(s),
        0 <= i <= s.len(),
    ensures
        dedup_prefix(s, i).len() <= i,
        sorted_asc(dedup_prefix(s, i)),
        forall|x: int| #[trigger] dedup_prefix(s, i).contains(x) <==> s.take(i).contains(x),
    decreases i,
{
    if i > 0 {
        lemma_dedup_prefix_props(s, i - 1);
        let f = dedup_prefix(s, i - 1);
        let r = dedup_prefix(s, i);
        let p = s.take(i - 1);
        let q = s.take(i);
        assert(q =~= p.push(s[i - 1]));
        assert forall|x: int| #[trigger] q.contains(x) <==> (p.contains(x) || x == s[i - 1]) by {
            if q.contains(x) {
                let k = choose|k: int| 0 <= k < q.len() && q[k] == x;
                if k < i - 1 {
                    assert(p[k] == x);
                }
            }
            if p.contains(x) {
                let k = choose|k: int| 0 <= k < p.len() && p[k] == x;
                assert(q[k] == x);
            }
            if x == s[i - 1] {
                assert(q[i - 1] == x);
            }
        }
        if i >= 2 && s[i - 2] == s[i - 1] {
            assert(p[i - 2] == s[i - 1]);
            assert(p.contains(s[i - 1]));
        } else {
            assert forall|x: int| #[trigger] r.contains(x) <==> (f.contains(x) || x == s[i - 1]) by {
                if r.contains(x) {
                    let k = choose|k: int| 0 <= k < r.len() && r[k] == x;
                    if k < f.len() {
                        assert(f[k] == x);
                    }
                }
                if f.contains(x) {
                    let k = choose|k: int| 0 <= k < f.len() && f[k] == x;
                    assert(r[k] == x);
                }
                if x == s[i - 1] {
                    assert(r[r.len() - 1] == x);
                }
            }
            assert forall|a: int, b: int| 0 <= a <= b < r.len() implies r[a] <= r[b] by {
                if a < b {
                    if b == r.len() - 1 {
                        assert(r[a] == f[a]);
                        assert(f.contains(r[a]));
                        let k = choose|k: int| 0 <= k < p.len() && p[k] == r[a];
                        assert(s[k] <= s[i - 1]);
                    } else {
                        assert(r[a] == f[a] && r[b] == f[b]);
                    }
                }
            }
        }
    }
}

/// The canonical normalized stock list: positive values, ascending, unique.
pub open spec fn norm_stock(s: Seq<int>) -> Seq<int> {
    dedup_prefix(sort_asc(filter_pos(s)), sort_asc(filter_pos(s)).len() as int)
}

pub proof fn lemma_norm_stock_props(s: Seq<int>)
    ensures
        norm_stock(s).len() <= s.len(),
        sorted_asc(norm_stock(s)),
        forall|x: int| #[trigger] norm_stock(s).contains(x) <==> (s.contains(x) && x > 0),
{
    lemma_filter_pos_elems(s);
    lemma_sort_asc_elems(filter_pos(s));
    let t = sort_asc(filter_pos(s));
    lemma_dedup_prefix_props(t, t.len() as int);
    assert(t.take(t.len() as int) =~= t);
}

/// Sorts the cuts in descending order, the fixed order both the heuristic
/// and the exact search branch over.
pub fn sort_cuts_descending(cuts: &Vec<u64>) -> (r: Vec<u64>)
    ensures
        seq_int(r@) == sort_desc(seq_int(cuts@)),
        r@.len() == cuts@.len(),
{
    let ghost cs = seq_int(cuts@);
    let mut result: Vec<u64> = Vec::new();
    proof {
        assert(seq_int(result@) =~= sort_desc_prefix(cs, 0));
    }
    for i in 0..cuts.len()
        invariant
            cs == seq_int(cuts@),
            seq_int(result@) == sort_desc_prefix(cs, i as int),
            result@.len() == i,
    {
        let c = cuts[i];
        let ghost pre = seq_int(result@);
        let mut j: usize = 0;
        while j < result.len() && result[j] >= c
            invariant
                0 <= j <= result@.len(),
                pre == seq_int(result@),
                forall|k: int| 0 <= k < j ==> #[trigger] pre[k] >= c as int,
            decreases result@.len() - j,
        {
            j = j + 1;
        }
        result.insert(j, c);
        proof {
            lemma_insert_desc_split(pre, c as int, j as int);
            assert(seq_int(result@) =~= pre.take(j as int) + seq![c as int] + pre.skip(j as int));
            assert(cs[i as int] == cuts@[i as int] as int);
        }
    }
    proof {
        assert(sort_desc_prefix(cs, cuts@.len() as int) == sort_desc(cs));
        lemma_sort_desc_elems(cs);
    }
    result
}

/// Keeps the positive lengths, in input order.
pub fn filter_positive(values: &Vec<u64>) -> (r: Vec<u64>)
    ensures
        seq_int(r@) == filter_pos(seq_int(values@)),
        r@.len() <= values@.len(),
{
    let ghost vs = seq_int(values@);
    let mut kept: Vec<u64> = Vec::new();
    proof {
        assert(seq_int(kept@) =~= filter_pos_prefix(vs, 0));
    }
    for i in 0..values.len()
        invariant
            vs == seq_int(values@),
            seq_int(kept@) == filter_pos_prefix(vs, i as int),
            kept@.len() <= i,
    {
        let v = values[i];
        let ghost pre = seq_int(kept@);
        if v > 0 {
            kept.push(v);
            proof {
                assert(seq_int(kept@) =~= pre.push(v as int));
            }
        }
        proof {
            assert(vs[i as int] == values@[i as int] as int);
        }
    }
    proof {
        assert(filter_pos_prefix(vs, values@.len() as int) == filter_pos(vs));
    }
    kept
}

/// Validates and canonicalizes the stock catalog: drops non-positive
/// lengths, sorts ascending, removes duplicates.
pub fn normalize_stock_lengths(stock: &Vec<u64>) -> (r: Vec<u64>)
    ensures
        seq_int(r@) == norm_stock(seq_int(stock@)),
        r@.len() <= stock@.len(),
{
    let ghost ss = seq_int(stock@);
    let mut kept: Vec<u64> = Vec::new();
    proof {
        assert(seq_int(kept@) =~= filter_pos_prefix(ss, 0));
    }
    for i in 0..stock.len()
        invariant
            ss == seq_int(stock@),
            seq_int(kept@) == filter_pos_prefix(ss, i as int),
            kept@.len() <= i,
    {
        let v = stock[i];
        let ghost pre = seq_int(kept@);
        if v > 0 {
            kept.push(v);
            proof {
                assert(seq_int(kept@) =~= pre.push(v as int));
            }
        }
        proof {
            assert(ss[i as int] == stock@[i as int] as int);
        }
    }
    proof {
        assert(filter_pos_prefix(ss, stock@.len() as int) == filter_pos(ss));
        lemma_filter_pos_prefix_props(ss, ss.len() as int);
    }
    let ghost fs = filter_pos(ss);
    let mut sorted: Vec<u64> = Vec::new();
    proof {
        assert(seq_int(sorted@) =~= sort_asc_prefix(fs, 0));
    }
    for i in 0..kept.len()
        invariant
            fs == seq_int(kept@),
            seq_int(sorted@) == sort_asc_prefix(fs, i as int),
            sorted@.len() == i,
    {
        let c = kept[i];
        let ghost pre = seq_int(sorted@);
        let mut j: usize = 0;
        while j < sorted.len() && sorted[j] <= c
            invariant
                0 <= j <= sorted@.len(),
                pre == seq_int(sorted@),
                forall|k: int| 0 <= k < j ==> #[trigger] pre[k] <= c as int,
            decreases sorted@.len() - j,
        {
            j = j + 1;
        }
        sorted.insert(j, c);
        proof {
            lemma_insert_asc_split(pre, c as int, j as int);
            assert(seq_int(sorted@) =~= pre.take(j as int) + seq![c as int] + pre.skip(j as int));
            assert(fs[i as int] == kept@[i as int] as int);
        }
    }
    proof {
        assert(sort_asc_prefix(fs, kept@.len() as int) == sort_asc(fs));
    }
    let ghost ts = sort_asc(fs);
    let mut unique: Vec<u64> = Vec::new();
    proof {
        assert(seq_int(unique@) =~= dedup_prefix(ts, 0));
    }
    for i in 0..sorted.len()
        invariant
            ts == seq_int(sorted@),
            seq_int(unique@) == dedup_prefix(ts, i as int),
            unique@.len() <= i,
    {
        let ghost pre = seq_int(unique@);
        if i >= 1 && sorted[i - 1] == sorted[i] {
            proof {
                assert(ts[i as int - 1] == ts[i as int]);
            }
        } else {
            let v = sorted[i];
            unique.push(v);
            proof {
                assert(seq_int(unique@) =~= pre.push(v as int));
            }
        }
    }
    proof {
        assert(dedup_prefix(ts, sorted@.len() as int) == norm_stock(ss));
        lemma_filter_pos_elems(ss);
        lemma_sort_asc_elems(fs);
        lemma_dedup_prefix_props(ts, ts.len() as int);
    }
    unique
}

} // verus!
