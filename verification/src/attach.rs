//! Time-ordered geographic attachments and the origin-cell filter.
//!
//! An attachment row records that a lineage edge passed through a
//! geographic cell at a time. The index keeps all rows in strict
//! (edge, time, state) order with duplicates removed, answers "all rows
//! for this edge set, time-ordered" and "which edges have their earliest
//! row at this cell".

use vstd::prelude::*;

use crate::graph::id_contains;
use crate::seqs::lemma_push_contains;
use crate::seqs::lemma_take_push;

verus! {

/// A time-stamped binding of a pedigree edge to a geographic cell.
///
/// `time` is an integer timestamp key with a total order. Sources that
/// carry times as floating-point values quantize them to this key at a
/// resolution no finer than their comparison tolerance, so two readings
/// of the same instant map to the same key and deduplicate as one row.
#[derive(Clone, Copy, PartialEq, Eq, Structural, Debug)]
pub struct Attachment {
    /// The pedigree edge this row belongs to.
    pub edge_id: i64,
    /// The geographic cell the edge passed through.
    pub state_id: i64,
    /// When it did, as a totally ordered timestamp key.
    pub time: i64,
}

/// Strict (edge, time, state) ordering of two attachment rows.
pub open spec fn key_lt(a: Attachment, b: Attachment) -> bool {
    ||| a.edge_id < b.edge_id
    ||| (a.edge_id == b.edge_id && a.time < b.time)
    ||| (a.edge_id == b.edge_id && a.time == b.time && a.state_id < b.state_id)
}

/// Rows in strictly ascending (edge, time, state) order: grouped by
/// edge, time-ordered inside each edge, and free of duplicate rows.
pub open spec fn rows_sorted(s: Seq<Attachment>) -> bool {
    forall|i: int, j: int| 0 <= i < j < s.len() ==> key_lt(s[i], s[j])
}

/// Selects the rows whose edge is listed in `ids`.
pub open spec fn edge_selected(ids: Seq<i64>) -> spec_fn(Attachment) -> bool {
    |a: Attachment| ids.contains(a.edge_id)
}

/// The rows of `rows` that belong to an edge in `ids`, in their original
/// order.
pub open spec fn rows_for_edges(rows: Seq<Attachment>, ids: Seq<i64>) -> Seq<Attachment> {
    rows.filter(edge_selected(ids))
}

/// The row at index `i` is the earliest of its edge: every other row of
/// the same edge has a strictly later time, or the same time and a
/// larger cell id (the deterministic tie-break).
pub open spec fn is_earliest_row(rows: Seq<Attachment>, i: int) -> bool {
    &&& 0 <= i < rows.len()
    &&& forall|j: int|
        0 <= j < rows.len() && j != i && (#[trigger] rows[j]).edge_id == rows[i].edge_id ==> (
        rows[i].time < rows[j].time || (rows[i].time == rows[j].time && rows[i].state_id
            < rows[j].state_id))
}

/// Edge `e` originates at `cell`: its earliest attachment row lies
/// there. A later visit to `cell` does not make `e` originate there.
pub open spec fn is_origin_edge(rows: Seq<Attachment>, e: i64, cell: i64) -> bool {
    exists|i: int|
        #[trigger] is_earliest_row(rows, i) && rows[i].edge_id == e && rows[i].state_id == cell
}

/// An edge has at most one earliest row: the origin filter looks at one
/// well-defined attachment per edge.
pub proof fn lemma_earliest_row_unique(rows: Seq<Attachment>, i: int, j: int)
    requires
        is_earliest_row(rows, i),
        is_earliest_row(rows, j),
        rows[i].edge_id == rows[j].edge_id,
    ensures
        i == j,
{
}

/// An edge whose earliest attachment lies in another cell never
/// originates at `cell`, no matter how many later attachments it has
/// there.
pub proof fn lemma_origin_only_by_earliest(rows: Seq<Attachment>, i: int, cell: i64)
    requires
        is_earliest_row(rows, i),
        rows[i].state_id != cell,
    ensures
        !is_origin_edge(rows, rows[i].edge_id, cell),
{
    if is_origin_edge(rows, rows[i].edge_id, cell) {
        let j = choose|j: int|
            is_earliest_row(rows, j) && rows[j].edge_id == rows[i].edge_id && rows[j].state_id
                == cell;
        lemma_earliest_row_unique(rows, i, j);
    }
}

/// In a sorted row list, the first row of an edge's run is its earliest
/// row.
proof fn lemma_run_start_earliest(rows: Seq<Attachment>, i: int)
    requires
        rows_sorted(rows),
        0 <= i < rows.len(),
        i == 0 || rows[i - 1].edge_id != rows[i].edge_id,
    ensures
        is_earliest_row(rows, i),
{
    assert forall|j: int|
        0 <= j < rows.len() && j != i && (#[trigger] rows[j]).edge_id == rows[i].edge_id implies (
    rows[i].time < rows[j].time || (rows[i].time == rows[j].time && rows[i].state_id
        < rows[j].state_id)) by {
        if j < i {
            // a same-edge row before i would force rows[i - 1] onto the
            // same edge, against the run start
            assert(key_lt(rows[j], rows[i]));
            if j < i - 1 {
                assert(key_lt(rows[j], rows[i - 1]));
            }
            assert(key_lt(rows[i - 1], rows[i]));
            assert(false);
        } else {
            assert(key_lt(rows[i], rows[j]));
        }
    }
}

/// In a sorted row list, the earliest row of an edge starts its run.
proof fn lemma_earliest_is_run_start(rows: Seq<Attachment>, i: int)
    requires
        rows_sorted(rows),
        is_earliest_row(rows, i),
    ensures
        i == 0 || rows[i - 1].edge_id != rows[i].edge_id,
{
    if i > 0 && rows[i - 1].edge_id == rows[i].edge_id {
        assert(key_lt(rows[i - 1], rows[i]));
    }
}

/// Comparison of two rows in (edge, time, state) order.
fn key_lt_exec(a: Attachment, b: Attachment) -> (r: bool)
    ensures
        r == key_lt(a, b),
{
    if a.edge_id != b.edge_id {
        a.edge_id < b.edge_id
    } else if a.time != b.time {
        a.time < b.time
    } else {
        a.state_id < b.state_id
    }
}

/// The attachment index: every known row, kept in strict
/// (edge, time, state) order with duplicate rows removed.
pub struct GeoAttachmentIndex {
    /// The rows, sorted and deduplicated; see `wf`.
    pub rows: Vec<Attachment>,
}

impl GeoAttachmentIndex {
    /// The index invariant: rows strictly ascend in (edge, time, state)
    /// order. Strictness makes (edge, state, time) a key: no row is
    /// counted twice.
    pub open spec fn wf(&self) -> bool {
        rows_sorted(self.rows@)
    }

    /// Builds an index from rows in any order, sorting them and dropping
    /// duplicate (edge, state, time) rows.
    pub fn from_rows(input: &Vec<Attachment>) -> (idx: GeoAttachmentIndex)
        ensures
            idx.wf(),
            forall|a: Attachment| idx.rows@.contains(a) <==> input@.contains(a),
    {
        let mut rows: Vec<Attachment> = Vec::new();
        let mut i: usize = 0;
        while i < input.len()
            invariant
                i <= input@.len(),
                rows_sorted(rows@),
                forall|a: Attachment|
                    rows@.contains(a) <==> input@.take(i as int).contains(a),
            decreases input@.len() - i,
        {
            let a = input[i];
            let ghost rows_b = rows@;
            let mut j: usize = 0;
            while j < rows.len() && key_lt_exec(rows[j], a)
                invariant
                    j <= rows@.len(),
                    forall|k: int| 0 <= k < j ==> key_lt(rows@[k], a),
                decreases rows@.len() - j,
            {
                j += 1;
            }
            if j < rows.len() && rows[j].edge_id == a.edge_id && rows[j].state_id == a.state_id
                && rows[j].time == a.time {
                // the row is already indexed; (edge, state, time) is the
                // dedup key, so it is not counted twice
                assert(rows@.contains(a));
            } else {
                rows.insert(j, a);
                proof {
                    let ji = j as int;
                    assert(rows@ =~= rows_b.take(ji) + seq![a] + rows_b.skip(ji));
                    if ji < rows_b.len() {
                        assert(!key_lt(rows_b[ji], a));
                        assert(rows_b[ji] != a);
                        assert(key_lt(a, rows_b[ji]));
                    }
                    assert forall|m1: int, m2: int|
                        0 <= m1 < m2 < rows@.len() implies key_lt(rows@[m1], rows@[m2]) by {
                        if m1 < ji {
                            assert(rows@[m1] == rows_b[m1]);
                        } else if m1 > ji {
                            assert(rows@[m1] == rows_b[m1 - 1]);
                        }
                        if m2 < ji {
                            assert(rows@[m2] == rows_b[m2]);
                        } else if m2 > ji {
                            assert(rows@[m2] == rows_b[m2 - 1]);
                        }
                        if m1 < ji && m2 == ji {
                            assert(key_lt(rows_b[m1], a));
                        } else if m1 == ji && m2 > ji {
                            assert(key_lt(a, rows_b[ji]));
                            if m2 - 1 > ji {
                                assert(key_lt(rows_b[ji], rows_b[m2 - 1]));
                            }
                        } else if m1 < ji && m2 > ji {
                            assert(key_lt(rows_b[m1], rows_b[m2 - 1]));
                        } else if m2 < ji || m1 > ji {
                            assert(key_lt(rows_b[if m1 < ji { m1 } else { m1 - 1 }],
                                rows_b[if m2 < ji { m2 } else { m2 - 1 }]));
                        }
                    }
                    assert forall|x: Attachment|
                        rows@.contains(x) <==> (rows_b.contains(x) || x == a) by {
                        if rows@.contains(x) {
                            let m = choose|m: int| 0 <= m < rows@.len() && rows@[m] == x;
                            if m < j {
                                assert(rows_b[m] == x);
                            } else if m > j {
                                assert(rows_b[m - 1] == x);
                            }
                        }
                        if rows_b.contains(x) {
                            let m = choose|m: int| 0 <= m < rows_b.len() && rows_b[m] == x;
                            if m < j {
                                assert(rows@[m] == x);
                            } else {
                                assert(rows@[m + 1] == x);
                            }
                        }
                        if x == a {
                            assert(rows@[j as int] == x);
                        }
                    }
                }
            }
            proof {
                lemma_take_push(input@, i as int);
                assert forall|x: Attachment|
                    rows@.contains(x) <==> input@.take(i as int + 1).contains(x) by {
                    lemma_push_contains(input@.take(i as int), input@[i as int], x);
                    assert(rows_b.contains(x) <==> input@.take(i as int).contains(x));
                }
            }
            i += 1;
        }
        proof {
            assert(input@.take(input@.len() as int) =~= input@);
        }
        GeoAttachmentIndex { rows }
    }

    /// All indexed rows for the given edge set, in index order
    /// (`AttachmentsForEdges`): grouped by edge and time-ascending
    /// inside each edge. An empty edge set short-circuits to an empty
    /// result without scanning.
    pub fn attachments_for_edges(&self, edge_ids: &Vec<i64>) -> (r: Vec<Attachment>)
        requires
            self.wf(),
        ensures
            r@ == rows_for_edges(self.rows@, edge_ids@),
            rows_sorted(r@),
    {
        let mut r: Vec<Attachment> = Vec::new();
        if edge_ids.len() == 0 {
            proof {
                assert(edge_ids@ =~= Seq::<i64>::empty());
                lemma_no_edges_no_rows(self.rows@);
                assert(r@ =~= Seq::<Attachment>::empty());
            }
            return r;
        }
        let mut i: usize = 0;
        while i < self.rows.len()
            invariant
                i <= self.rows@.len(),
                self.wf(),
                r@ == self.rows@.take(i as int).filter(edge_selected(edge_ids@)),
                rows_sorted(r@),
                forall|m: int|
                    0 <= m < r@.len() ==> exists|k: int|
                        0 <= k < i && self.rows@[k] == #[trigger] r@[m],
            decreases self.rows@.len() - i,
        {
            let a = self.rows[i];
            let ghost r_b = r@;
            if id_contains(edge_ids, a.edge_id) {
                r.push(a);
                proof {
                    assert forall|m1: int, m2: int|
                        0 <= m1 < m2 < r@.len() implies key_lt(r@[m1], r@[m2]) by {
                        if m2 == r@.len() - 1 {
                            let k = choose|k: int| 0 <= k < i && self.rows@[k] == r_b[m1];
                            assert(key_lt(self.rows@[k], self.rows@[i as int]));
                        }
                    }
                    assert forall|m: int| 0 <= m < r@.len() implies exists|k: int|
                        0 <= k < i + 1 && self.rows@[k] == #[trigger] r@[m] by {
                        if m < r_b.len() {
                            let k = choose|k: int| 0 <= k < i && self.rows@[k] == r_b[m];
                            assert(self.rows@[k] == r@[m]);
                        } else {
                            assert(self.rows@[i as int] == r@[m]);
                        }
                    }
                }
            }
            proof {
                lemma_take_push(self.rows@, i as int);
                self.rows@.take(i as int).lemma_filter_push(
                    self.rows@[i as int],
                    edge_selected(edge_ids@),
                );
            }
            i += 1;
        }
        proof {
            assert(self.rows@.take(self.rows@.len() as int) =~= self.rows@);
        }
        r
    }

    /// The edges that originate at `cell_id` (`EdgesWithEarliestCell`):
    /// those whose earliest attachment row lies at that cell. The result
    /// lists each such edge once, in ascending order.
    #[verifier::rlimit(30)]
    pub fn edges_with_earliest_cell(&self, cell_id: i64) -> (r: Vec<i64>)
        requires
            self.wf(),
        ensures
            forall|e: i64| r@.contains(e) <==> is_origin_edge(self.rows@, e, cell_id),
            forall|m1: int, m2: int| 0 <= m1 < m2 < r@.len() ==> r@[m1] < r@[m2],
            r@.no_duplicates(),
    {
        let mut r: Vec<i64> = Vec::new();
        let mut i: usize = 0;
        while i < self.rows.len()
            invariant
                i <= self.rows@.len(),
                self.wf(),
                forall|m: int|
                    0 <= m < r@.len() ==> origin_start_below(
                        self.rows@,
                        i as int,
                        #[trigger] r@[m],
                        cell_id,
                    ),
                forall|k: int|
                    0 <= k < i && run_start(self.rows@, k) && (#[trigger] self.rows@[k]).state_id
                        == cell_id ==> r@.contains(self.rows@[k].edge_id),
                forall|m1: int, m2: int| 0 <= m1 < m2 < r@.len() ==> r@[m1] < r@[m2],
            decreases self.rows@.len() - i,
        {
            let a = self.rows[i];
            let is_start: bool = if i == 0 {
                true
            } else {
                self.rows[i - 1].edge_id != a.edge_id
            };
            let ghost r_b = r@;
            if is_start && a.state_id == cell_id {
                r.push(a.edge_id);
                proof {
                    assert(run_start(self.rows@, i as int));
                    assert forall|m1: int, m2: int|
                        0 <= m1 < m2 < r@.len() implies r@[m1] < r@[m2] by {
                        if m2 == r@.len() - 1 {
                            assert(r@[m1] == r_b[m1]);
                            let k = origin_start_witness(
                                self.rows@,
                                i as int,
                                r_b[m1],
                                cell_id,
                            );
                            assert(key_lt(self.rows@[k], self.rows@[i as int]));
                            if self.rows@[k].edge_id == self.rows@[i as int].edge_id {
                                assert(key_lt(self.rows@[i as int - 1], self.rows@[i as int]));
                                if k < i - 1 {
                                    assert(key_lt(self.rows@[k], self.rows@[i as int - 1]));
                                }
                                assert(false);
                            }
                        }
                    }
                    assert forall|m: int| 0 <= m < r@.len() implies origin_start_below(
                        self.rows@,
                        i as int + 1,
                        #[trigger] r@[m],
                        cell_id,
                    ) by {
                        if m < r_b.len() {
                            assert(r@[m] == r_b[m]);
                            lemma_origin_start_widen(
                                self.rows@,
                                i as int,
                                i as int + 1,
                                r_b[m],
                                cell_id,
                            );
                        } else {
                            assert(r@[m] == self.rows@[i as int].edge_id);
                        }
                    }
                    assert forall|k: int|
                        0 <= k < i + 1 && run_start(self.rows@, k) && (
                        #[trigger] self.rows@[k]).state_id == cell_id implies r@.contains(
                        self.rows@[k].edge_id,
                    ) by {
                        lemma_push_contains(r_b, a.edge_id, self.rows@[k].edge_id);
                    }
                }
            } else {
                proof {
                    assert forall|m: int| 0 <= m < r@.len() implies origin_start_below(
                        self.rows@,
                        i as int + 1,
                        #[trigger] r@[m],
                        cell_id,
                    ) by {
                        lemma_origin_start_widen(
                            self.rows@,
                            i as int,
                            i as int + 1,
                            r@[m],
                            cell_id,
                        );
                    }
                    assert forall|k: int|
                        0 <= k < i + 1 && run_start(self.rows@, k) && (
                        #[trigger] self.rows@[k]).state_id == cell_id implies r@.contains(
                        self.rows@[k].edge_id,
                    ) by {
                        if k == i {
                            assert(!(is_start && a.state_id == cell_id));
                            assert(false);
                        }
                    }
                }
            }
            i += 1;
        }
        proof {
            assert forall|e: i64| r@.contains(e) <==> is_origin_edge(
                self.rows@,
                e,
                cell_id,
            ) by {
                if r@.contains(e) {
                    let m = choose|m: int| 0 <= m < r@.len() && r@[m] == e;
                    let k = origin_start_witness(
                        self.rows@,
                        self.rows@.len() as int,
                        r@[m],
                        cell_id,
                    );
                    lemma_run_start_earliest(self.rows@, k);
                    assert(is_earliest_row(self.rows@, k) && self.rows@[k].edge_id == e
                        && self.rows@[k].state_id == cell_id);
                }
                if is_origin_edge(self.rows@, e, cell_id) {
                    let k = choose|k: int|
                        #[trigger] is_earliest_row(self.rows@, k) && self.rows@[k].edge_id == e
                            && self.rows@[k].state_id == cell_id;
                    lemma_earliest_is_run_start(self.rows@, k);
                    assert(run_start(self.rows@, k));
                    assert(r@.contains(self.rows@[k].edge_id));
                }
            }
            assert forall|m1: int, m2: int|
                0 <= m1 < m2 < r@.len() implies r@[m1] != r@[m2] by {}
        }
        r
    }
}

/// The row at `k` starts its edge's run in the sorted row list.
pub open spec fn run_start(rows: Seq<Attachment>, k: int) -> bool {
    0 <= k < rows.len() && (k == 0 || rows[k - 1].edge_id != rows[k].edge_id)
}

/// Some run start among the first `b` rows carries edge `e` at `cell`.
pub open spec fn origin_start_below(rows: Seq<Attachment>, b: int, e: i64, cell: i64) -> bool {
    exists|k: int|
        0 <= k < b && #[trigger] run_start(rows, k) && rows[k].edge_id == e && rows[k].state_id
            == cell
}

/// Extracts the run-start witness behind `origin_start_below`.
proof fn origin_start_witness(rows: Seq<Attachment>, b: int, e: i64, cell: i64) -> (k: int)
    requires
        origin_start_below(rows, b, e, cell),
    ensures
        0 <= k < b,
        run_start(rows, k),
        rows[k].edge_id == e,
        rows[k].state_id == cell,
{
    choose|k: int|
        0 <= k < b && #[trigger] run_start(rows, k) && rows[k].edge_id == e && rows[k].state_id
            == cell
}

/// A run start below `b1` is also one below any larger bound `b2`.
proof fn lemma_origin_start_widen(rows: Seq<Attachment>, b1: int, b2: int, e: i64, cell: i64)
    requires
        origin_start_below(rows, b1, e, cell),
        b1 <= b2,
    ensures
        origin_start_below(rows, b2, e, cell),
{
    let k = origin_start_witness(rows, b1, e, cell);
    assert(run_start(rows, k));
}

/// With no edges selected, no rows are fetched.
pub proof fn lemma_no_edges_no_rows(rows: Seq<Attachment>)
    ensures
        rows_for_edges(rows, Seq::<i64>::empty()) == Seq::<Attachment>::empty(),
{
    rows.lemma_all_neg_filter_empty(edge_selected(Seq::<i64>::empty()));
    assert(rows_for_edges(rows, Seq::<i64>::empty()) =~= Seq::<Attachment>::empty());
}

} // verus!
