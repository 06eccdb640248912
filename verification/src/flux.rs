//! Migration-flux aggregation: per-pair averages over a time series.
//!
//! A flux entry estimates the migration rate from one cell to another at
//! one time step. `average_by_pair` reduces the whole series to one
//! record per (source, target) pair, carrying the exact rate sum and the
//! number of steps, and keeps only the pairs whose mean is strictly
//! positive. The mean itself is the caller's division `rate_sum / count`;
//! returning the exact pair keeps the core free of rounding.
//!
//! Rates are fixed-point integers: callers whose sources carry rates as
//! floating-point values scale them to an integer unit of their choice
//! before handing them in, and divide back after.

use vstd::prelude::*;

use crate::seqs::lemma_take_push;

verus! {

/// One measured migration rate between two cells.
#[derive(Clone, Copy, Debug)]
pub struct FluxEntry {
    /// The cell the migration leaves.
    pub source_id: i64,
    /// The cell it enters.
    pub target_id: i64,
    /// The time step of the measurement, or `None` for a precomputed
    /// whole-series average row. Only time-stamped rows enter the
    /// aggregation.
    pub time_index: Option<i64>,
    /// The measured rate, as a fixed-point integer.
    pub rate: i64,
}

/// The aggregated flux of one (source, target) pair: its exact rate sum
/// over `count` time steps. The mean rate is `rate_sum / count`.
#[derive(Clone, Copy, PartialEq, Eq, Structural, Debug)]
pub struct FluxAverage {
    /// The cell the migration leaves.
    pub source_id: i64,
    /// The cell it enters.
    pub target_id: i64,
    /// The exact sum of the pair's rates over the series.
    pub rate_sum: i128,
    /// How many time-stamped entries the pair has.
    pub count: usize,
}

/// The entry is a time-stamped measurement of the pair (s, t).
pub open spec fn counted(e: FluxEntry, s: i64, t: i64) -> bool {
    e.source_id == s && e.target_id == t && e.time_index.is_some()
}

/// The sum of the rates of all time-stamped entries of the pair (s, t).
pub open spec fn pair_sum(entries: Seq<FluxEntry>, s: i64, t: i64) -> int
    decreases entries.len(),
{
    if entries.len() == 0 {
        0
    } else {
        pair_sum(entries.drop_last(), s, t) + if counted(entries.last(), s, t) {
            entries.last().rate as int
        } else {
            0
        }
    }
}

/// How many time-stamped entries the pair (s, t) has.
pub open spec fn pair_count(entries: Seq<FluxEntry>, s: i64, t: i64) -> nat
    decreases entries.len(),
{
    if entries.len() == 0 {
        0
    } else {
        pair_count(entries.drop_last(), s, t) + if counted(entries.last(), s, t) {
            1 as nat
        } else {
            0
        }
    }
}

/// Some time-stamped entry measures the pair (s, t).
pub open spec fn pair_present(entries: Seq<FluxEntry>, s: i64, t: i64) -> bool {
    exists|i: int| 0 <= i < entries.len() && counted(#[trigger] entries[i], s, t)
}

/// Lexicographic (source, target) order on pairs.
pub open spec fn pair_lt(a: (i64, i64), b: (i64, i64)) -> bool {
    a.0 < b.0 || (a.0 == b.0 && a.1 < b.1)
}

/// A pair occurs exactly when its count is positive.
pub proof fn lemma_pair_count_pos(entries: Seq<FluxEntry>, s: i64, t: i64)
    ensures
        pair_count(entries, s, t) > 0 <==> pair_present(entries, s, t),
    decreases entries.len(),
{
    if entries.len() > 0 {
        let dl = entries.drop_last();
        lemma_pair_count_pos(dl, s, t);
        if pair_count(entries, s, t) > 0 {
            if counted(entries.last(), s, t) {
                assert(counted(entries[entries.len() - 1], s, t));
            } else {
                let i = choose|i: int| 0 <= i < dl.len() && counted(#[trigger] dl[i], s, t);
                assert(counted(entries[i], s, t));
            }
        }
        if pair_present(entries, s, t) {
            let i = choose|i: int| 0 <= i < entries.len() && counted(#[trigger] entries[i], s, t);
            if i < entries.len() - 1 {
                assert(counted(dl[i], s, t));
            }
        }
    }
}

/// A pair that never occurs sums and counts to nothing.
pub proof fn lemma_absent_pair(entries: Seq<FluxEntry>, s: i64, t: i64)
    requires
        !pair_present(entries, s, t),
    ensures
        pair_count(entries, s, t) == 0,
        pair_sum(entries, s, t) == 0,
    decreases entries.len(),
{
    if entries.len() > 0 {
        let dl = entries.drop_last();
        assert forall|i: int| 0 <= i < dl.len() implies !counted(#[trigger] dl[i], s, t) by {
            assert(entries[i] == dl[i]);
            assert(!counted(entries[i], s, t));
        }
        lemma_absent_pair(dl, s, t);
        assert(!counted(entries[entries.len() - 1], s, t));
    }
}

/// Extending the scanned prefix by one entry adds that entry's
/// contribution to the pair's sum and count.
proof fn lemma_pair_take_step(entries: Seq<FluxEntry>, i: int, s: i64, t: i64)
    requires
        0 <= i < entries.len(),
    ensures
        pair_sum(entries.take(i + 1), s, t) == pair_sum(entries.take(i), s, t) + (if counted(
            entries[i],
            s,
            t,
        ) {
            entries[i].rate as int
        } else {
            0
        }),
        pair_count(entries.take(i + 1), s, t) == pair_count(entries.take(i), s, t) + (if counted(
            entries[i],
            s,
            t,
        ) {
            1 as nat
        } else {
            0
        }),
{
    let t1 = entries.take(i + 1);
    assert(t1.drop_last() =~= entries.take(i));
    assert(t1.last() == entries[i]);
}

/// Extending the scanned prefix by one entry makes a pair present
/// exactly when it was present or the new entry measures it.
proof fn lemma_present_take_step(entries: Seq<FluxEntry>, i: int, s: i64, t: i64)
    requires
        0 <= i < entries.len(),
    ensures
        pair_present(entries.take(i + 1), s, t) <==> (pair_present(entries.take(i), s, t)
            || counted(entries[i], s, t)),
{
    let t0 = entries.take(i);
    let t1 = entries.take(i + 1);
    if pair_present(t1, s, t) {
        let m = choose|m: int| 0 <= m < t1.len() && counted(#[trigger] t1[m], s, t);
        if m < i {
            assert(counted(t0[m], s, t));
        } else {
            assert(t1[m] == entries[i]);
        }
    }
    if pair_present(t0, s, t) {
        let m = choose|m: int| 0 <= m < t0.len() && counted(#[trigger] t0[m], s, t);
        assert(counted(t1[m], s, t));
    }
    if counted(entries[i], s, t) {
        assert(counted(t1[i], s, t));
    }
}

/// Comparison of two pairs in (source, target) order.
fn pair_lt_exec(a: (i64, i64), b: (i64, i64)) -> (r: bool)
    ensures
        r == pair_lt(a, b),
{
    if a.0 != b.0 {
        a.0 < b.0
    } else {
        a.1 < b.1
    }
}

/// The exact rate sum and entry count of the pair (s, t) over the
/// series.
fn sum_for_pair(entries: &Vec<FluxEntry>, s: i64, t: i64) -> (r: (i128, usize))
    ensures
        r.0 == pair_sum(entries@, s, t),
        r.1 == pair_count(entries@, s, t),
{
    let mut sum: i128 = 0;
    let mut count: usize = 0;
    let mut i: usize = 0;
    while i < entries.len()
        invariant
            i <= entries@.len(),
            sum == pair_sum(entries@.take(i as int), s, t),
            count == pair_count(entries@.take(i as int), s, t),
            count <= i,
            -(i as int) * 0x8000_0000_0000_0000 <= sum
                <= (i as int) * 0x7FFF_FFFF_FFFF_FFFF,
        decreases entries@.len() - i,
    {
        let e = entries[i];
        proof {
            lemma_pair_take_step(entries@, i as int, s, t);
        }
        let stamped = e.time_index.is_some();
        if stamped && e.source_id == s && e.target_id == t {
            assert(counted(entries@[i as int], s, t));
            sum = sum + e.rate as i128;
            count = count + 1;
        } else {
            assert(!counted(entries@[i as int], s, t));
        }
        i += 1;
    }
    proof {
        assert(entries@.take(entries@.len() as int) =~= entries@);
    }
    (sum, count)
}

/// Per-pair flux averaging (`AverageByPair`): one record per
/// (source, target) pair of the time series, with that pair's exact rate
/// sum and time-step count. Pairs whose mean — and so whose sum — is
/// zero or negative are left out, and the result ascends strictly in
/// (source, target) order, so each reported pair appears exactly once.
pub fn average_by_pair(entries: &Vec<FluxEntry>) -> (r: Vec<FluxAverage>)
    ensures
        forall|k: int|
            0 <= k < r@.len() ==> ((#[trigger] r@[k]).rate_sum == pair_sum(
                entries@,
                r@[k].source_id,
                r@[k].target_id,
            ) && r@[k].count == pair_count(entries@, r@[k].source_id, r@[k].target_id)
                && r@[k].rate_sum > 0 && r@[k].count > 0),
        forall|s: i64, t: i64|
            #[trigger] pair_present(entries@, s, t) && pair_sum(entries@, s, t) > 0
                ==> exists|k: int|
                0 <= k < r@.len() && (#[trigger] r@[k]).source_id == s && r@[k].target_id == t,
        forall|k1: int, k2: int|
            0 <= k1 < k2 < r@.len() ==> pair_lt(
                ((#[trigger] r@[k1]).source_id, r@[k1].target_id),
                ((#[trigger] r@[k2]).source_id, r@[k2].target_id),
            ),
{
    // Collect the distinct pairs of the series, in (source, target)
    // order.
    let mut pairs: Vec<(i64, i64)> = Vec::new();
    let mut i: usize = 0;
    while i < entries.len()
        invariant
            i <= entries@.len(),
            forall|m1: int, m2: int|
                0 <= m1 < m2 < pairs@.len() ==> pair_lt(
                    #[trigger] pairs@[m1],
                    #[trigger] pairs@[m2],
                ),
            forall|p: (i64, i64)|
                #[trigger] pairs@.contains(p) <==> pair_present(
                    entries@.take(i as int),
                    p.0,
                    p.1,
                ),
        decreases entries@.len() - i,
    {
        let e = entries[i];
        let ghost pairs_b = pairs@;
        let stamped = e.time_index.is_some();
        if stamped {
            let p = (e.source_id, e.target_id);
            let mut j: usize = 0;
            while j < pairs.len() && pair_lt_exec(pairs[j], p)
                invariant
                    j <= pairs@.len(),
                    forall|m: int| 0 <= m < j ==> pair_lt(#[trigger] pairs@[m], p),
                decreases pairs@.len() - j,
            {
                j += 1;
            }
            if j < pairs.len() && pairs[j].0 == p.0 && pairs[j].1 == p.1 {
                // the pair is already listed
                assert(pairs@[j as int] == p);
                assert(pairs@.contains(p));
            } else {
                pairs.insert(j, p);
                proof {
                    let ji = j as int;
                    assert(pairs@ =~= pairs_b.take(ji) + seq![p] + pairs_b.skip(ji));
                    if ji < pairs_b.len() {
                        assert(!pair_lt(pairs_b[ji], p));
                        assert(pairs_b[ji] != p);
                        assert(pair_lt(p, pairs_b[ji]));
                    }
                    assert forall|m1: int, m2: int|
                        0 <= m1 < m2 < pairs@.len() implies pair_lt(
                        #[trigger] pairs@[m1],
                        #[trigger] pairs@[m2],
                    ) by {
                        if m1 < ji {
                            assert(pairs@[m1] == pairs_b[m1]);
                        } else if m1 > ji {
                            assert(pairs@[m1] == pairs_b[m1 - 1]);
                        }
                        if m2 < ji {
                            assert(pairs@[m2] == pairs_b[m2]);
                        } else if m2 > ji {
                            assert(pairs@[m2] == pairs_b[m2 - 1]);
                        }
                        if m1 < ji && m2 == ji {
                            assert(pair_lt(pairs_b[m1], p));
                        } else if m1 == ji && m2 > ji {
                            assert(pair_lt(p, pairs_b[ji]));
                            if m2 - 1 > ji {
                                assert(pair_lt(pairs_b[ji], pairs_b[m2 - 1]));
                            }
                        } else if m1 < ji && m2 > ji {
                            assert(pair_lt(pairs_b[m1], pairs_b[m2 - 1]));
                        } else if m2 < ji || m1 > ji {
                            assert(pair_lt(
                                pairs_b[if m1 < ji { m1 } else { m1 - 1 }],
                                pairs_b[if m2 < ji { m2 } else { m2 - 1 }],
                            ));
                        }
                    }
                    assert forall|q: (i64, i64)|
                        pairs@.contains(q) <==> (pairs_b.contains(q) || q == p) by {
                        if pairs@.contains(q) {
                            let m = choose|m: int| 0 <= m < pairs@.len() && pairs@[m] == q;
                            if m < ji {
                                assert(pairs_b[m] == q);
                            } else if m > ji {
                                assert(pairs_b[m - 1] == q);
                            }
                        }
                        if pairs_b.contains(q) {
                            let m = choose|m: int| 0 <= m < pairs_b.len() && pairs_b[m] == q;
                            if m < ji {
                                assert(pairs@[m] == q);
                            } else {
                                assert(pairs@[m + 1] == q);
                            }
                        }
                        if q == p {
                            assert(pairs@[ji] == q);
                        }
                    }
                }
            }
            assert(counted(entries@[i as int], p.0, p.1));
        }
        proof {
            assert forall|q: (i64, i64)|
                #[trigger] pairs@.contains(q) <==> pair_present(
                entries@.take(i as int + 1),
                q.0,
                q.1,
            ) by {
                lemma_present_take_step(entries@, i as int, q.0, q.1);
                assert(pairs_b.contains(q) <==> pair_present(entries@.take(i as int), q.0, q.1));
                if !stamped {
                    assert(!counted(entries@[i as int], q.0, q.1));
                }
            }
        }
        i += 1;
    }
    proof {
        assert(entries@.take(entries@.len() as int) =~= entries@);
    }

    // Sum each pair over the series; keep the positive ones.
    let mut r: Vec<FluxAverage> = Vec::new();
    let mut k: usize = 0;
    while k < pairs.len()
        invariant
            k <= pairs@.len(),
            forall|m1: int, m2: int|
                0 <= m1 < m2 < pairs@.len() ==> pair_lt(
                    #[trigger] pairs@[m1],
                    #[trigger] pairs@[m2],
                ),
            forall|m: int|
                0 <= m < r@.len() ==> ((#[trigger] r@[m]).rate_sum == pair_sum(
                    entries@,
                    r@[m].source_id,
                    r@[m].target_id,
                ) && r@[m].count == pair_count(entries@, r@[m].source_id, r@[m].target_id)
                    && r@[m].rate_sum > 0 && r@[m].count > 0),
            forall|m: int|
                0 <= m < r@.len() ==> exists|kk: int|
                    0 <= kk < k && #[trigger] pairs@[kk] == ((#[trigger] r@[m]).source_id,
                    r@[m].target_id),
            forall|kk: int|
                0 <= kk < k && pair_sum(entries@, (#[trigger] pairs@[kk]).0, pairs@[kk].1) > 0
                    ==> exists|m: int|
                    0 <= m < r@.len() && ((#[trigger] r@[m]).source_id, r@[m].target_id)
                        == pairs@[kk],
            forall|m1: int, m2: int|
                0 <= m1 < m2 < r@.len() ==> pair_lt(
                    ((#[trigger] r@[m1]).source_id, r@[m1].target_id),
                    ((#[trigger] r@[m2]).source_id, r@[m2].target_id),
                ),
        decreases pairs@.len() - k,
    {
        let p = pairs[k];
        let ghost r_b = r@;
        let sc = sum_for_pair(entries, p.0, p.1);
        if sc.0 > 0 {
            proof {
                if !pair_present(entries@, p.0, p.1) {
                    lemma_absent_pair(entries@, p.0, p.1);
                }
                lemma_pair_count_pos(entries@, p.0, p.1);
            }
            r.push(
                FluxAverage {
                    source_id: p.0,
                    target_id: p.1,
                    rate_sum: sc.0,
                    count: sc.1,
                },
            );
            proof {
                assert forall|m: int| 0 <= m < r@.len() implies exists|kk: int|
                    0 <= kk < k + 1 && #[trigger] pairs@[kk] == ((#[trigger] r@[m]).source_id,
                    r@[m].target_id) by {
                    if m < r_b.len() {
                        assert(r@[m] == r_b[m]);
                        let kk = choose|kk: int|
                            0 <= kk < k && #[trigger] pairs@[kk] == (r_b[m].source_id,
                            r_b[m].target_id);
                        assert(0 <= kk < k + 1);
                    } else {
                        assert(pairs@[k as int] == (r@[m].source_id, r@[m].target_id));
                    }
                }
                assert forall|kk: int|
                    0 <= kk < k + 1 && pair_sum(
                        entries@,
                        (#[trigger] pairs@[kk]).0,
                        pairs@[kk].1,
                    ) > 0 implies exists|m: int|
                    0 <= m < r@.len() && ((#[trigger] r@[m]).source_id, r@[m].target_id)
                        == pairs@[kk] by {
                    if kk < k {
                        let m = choose|m: int|
                            0 <= m < r_b.len() && ((#[trigger] r_b[m]).source_id,
                            r_b[m].target_id) == pairs@[kk];
                        assert(r@[m] == r_b[m]);
                        assert(((r@[m]).source_id, r@[m].target_id) == pairs@[kk]);
                    } else {
                        let m = r@.len() - 1;
                        assert(((r@[m]).source_id, r@[m].target_id) == pairs@[kk]);
                    }
                }
                assert forall|m1: int, m2: int|
                    0 <= m1 < m2 < r@.len() implies pair_lt(
                    ((#[trigger] r@[m1]).source_id, r@[m1].target_id),
                    ((#[trigger] r@[m2]).source_id, r@[m2].target_id),
                ) by {
                    if m2 == r@.len() - 1 {
                        assert(r@[m1] == r_b[m1]);
                        let kk = choose|kk: int|
                            0 <= kk < k && #[trigger] pairs@[kk] == (r_b[m1].source_id,
                            r_b[m1].target_id);
                        assert(pair_lt(pairs@[kk], pairs@[k as int]));
                    }
                }
            }
        } else {
            proof {
                assert forall|m: int| 0 <= m < r@.len() implies exists|kk: int|
                    0 <= kk < k + 1 && #[trigger] pairs@[kk] == ((#[trigger] r@[m]).source_id,
                    r@[m].target_id) by {
                    let kk = choose|kk: int|
                        0 <= kk < k && #[trigger] pairs@[kk] == (r@[m].source_id,
                        r@[m].target_id);
                    assert(0 <= kk < k + 1);
                }
                assert forall|kk: int|
                    0 <= kk < k + 1 && pair_sum(
                        entries@,
                        (#[trigger] pairs@[kk]).0,
                        pairs@[kk].1,
                    ) > 0 implies exists|m: int|
                    0 <= m < r@.len() && ((#[trigger] r@[m]).source_id, r@[m].target_id)
                        == pairs@[kk] by {
                    if kk == k {
                        assert(pairs@[kk] == p);
                        assert(false);
                    }
                }
            }
        }
        k += 1;
    }
    proof {
        assert forall|s: i64, t: i64|
            #[trigger] pair_present(entries@, s, t) && pair_sum(entries@, s, t) > 0
                implies exists|m: int|
            0 <= m < r@.len() && (#[trigger] r@[m]).source_id == s && r@[m].target_id == t by {
            assert(pairs@.contains((s, t)));
            let kk = choose|kk: int| 0 <= kk < pairs@.len() && pairs@[kk] == (s, t);
            assert(pair_sum(entries@, (pairs@[kk]).0, pairs@[kk].1) > 0);
            let m = choose|m: int|
                0 <= m < r@.len() && ((#[trigger] r@[m]).source_id, r@[m].target_id)
                    == pairs@[kk];
            assert(r@[m].source_id == s && r@[m].target_id == t);
        }
    }
    r
}

} // verus!
