//! Migration paths: grouping attachment rows into ordered per-edge
//! paths, and the two resolver queries that produce them.
//!
//! A path is the ordered list of (cell, time) attachment rows of one
//! edge. Grouping walks a row list that is already sorted by
//! (edge, time) once, cutting it where the edge id changes. The two
//! queries differ only in how the edge set is chosen: by origin cell, or
//! by an individual's ancestor closure.

use vstd::prelude::*;

use crate::attach::edge_selected;
use crate::attach::is_origin_edge;
use crate::attach::key_lt;
use crate::attach::rows_sorted;
use crate::attach::Attachment;
use crate::attach::GeoAttachmentIndex;
use crate::graph::closure_set;
use crate::graph::has_negative;
use crate::graph::is_ancestry_edge;
use crate::graph::Edge;
use crate::graph::PedigreeGraph;
use crate::seqs::lemma_filter_congruence;
use crate::seqs::lemma_take_push;
use crate::Error;

verus! {

/// The geographic path of one lineage edge: its attachment rows in time
/// order.
#[derive(Clone, PartialEq, Eq, Debug)]
pub struct Path {
    /// The edge the path belongs to.
    pub edge_id: i64,
    /// The rows of that edge, in the order they were handed in
    /// (time-ascending when the input was sorted).
    pub entries: Vec<Attachment>,
}

/// A well-formed path is non-empty and all its entries carry its edge
/// id.
pub open spec fn path_wf(p: Path) -> bool {
    &&& p.entries@.len() > 0
    &&& forall|k: int|
        0 <= k < p.entries@.len() ==> (#[trigger] p.entries@[k]).edge_id == p.edge_id
}

/// The concatenation of all entries of a path list, in order.
pub open spec fn flatten_paths(ps: Seq<Path>) -> Seq<Attachment>
    decreases ps.len(),
{
    if ps.len() == 0 {
        Seq::empty()
    } else {
        flatten_paths(ps.drop_last()) + ps.last().entries@
    }
}

/// The total number of entries across a path list.
pub open spec fn total_entries(ps: Seq<Path>) -> nat
    decreases ps.len(),
{
    if ps.len() == 0 {
        0
    } else {
        total_entries(ps.drop_last()) + ps.last().entries@.len()
    }
}

/// Rows non-decreasing in edge id: equal edge ids are contiguous, as in
/// a list ordered by (edge, time).
pub open spec fn edge_sorted(rows: Seq<Attachment>) -> bool {
    forall|i: int, j: int|
        0 <= i < j < rows.len() ==> (#[trigger] rows[i]).edge_id <= (#[trigger] rows[j]).edge_id
}

/// Grouping loses and invents nothing: a path list flattens to exactly
/// as many rows as its paths hold entries.
pub proof fn lemma_flatten_count(ps: Seq<Path>)
    ensures
        flatten_paths(ps).len() == total_entries(ps),
    decreases ps.len(),
{
    if ps.len() > 0 {
        lemma_flatten_count(ps.drop_last());
    }
}

/// Appending a path appends its entries to the flattening.
proof fn lemma_flatten_push(ps: Seq<Path>, p: Path)
    ensures
        flatten_paths(ps.push(p)) == flatten_paths(ps) + p.entries@,
{
    assert(ps.push(p).drop_last() =~= ps);
    assert(ps.push(p).last() == p);
}

/// A row appears in the flattening exactly when one of the paths holds
/// it.
pub proof fn lemma_flatten_membership(ps: Seq<Path>, a: Attachment)
    ensures
        flatten_paths(ps).contains(a) <==> exists|k: int|
            0 <= k < ps.len() && (#[trigger] ps[k]).entries@.contains(a),
    decreases ps.len(),
{
    if ps.len() > 0 {
        let dl = ps.drop_last();
        let tail = ps.last().entries@;
        lemma_flatten_membership(dl, a);
        if flatten_paths(ps).contains(a) {
            let m = choose|m: int|
                0 <= m < flatten_paths(ps).len() && flatten_paths(ps)[m] == a;
            if m < flatten_paths(dl).len() {
                assert(flatten_paths(dl)[m] == a);
                let k = choose|k: int| 0 <= k < dl.len() && (#[trigger] dl[k]).entries@.contains(a);
                assert(ps[k].entries@.contains(a));
            } else {
                assert(tail[m - flatten_paths(dl).len()] == a);
                assert(ps[ps.len() - 1].entries@.contains(a));
            }
        }
        if exists|k: int| 0 <= k < ps.len() && (#[trigger] ps[k]).entries@.contains(a) {
            let k = choose|k: int| 0 <= k < ps.len() && (#[trigger] ps[k]).entries@.contains(a);
            if k < ps.len() - 1 {
                assert(dl[k].entries@.contains(a));
                assert(flatten_paths(dl).contains(a));
                let m = choose|m: int|
                    0 <= m < flatten_paths(dl).len() && flatten_paths(dl)[m] == a;
                assert(flatten_paths(ps)[m] == a);
            } else {
                let m = choose|m: int| 0 <= m < tail.len() && tail[m] == a;
                assert(flatten_paths(ps)[flatten_paths(dl).len() + m] == a);
            }
        }
    }
}

/// One path per distinct edge id: a grouped list holds a path for an
/// edge exactly when the flattened rows mention that edge, and never two
/// paths for one edge.
pub proof fn lemma_one_path_per_edge(rows: Seq<Attachment>, ps: Seq<Path>, e: i64)
    requires
        flatten_paths(ps) == rows,
        forall|k: int| 0 <= k < ps.len() ==> path_wf(#[trigger] ps[k]),
        forall|k1: int, k2: int|
            0 <= k1 < k2 < ps.len() ==> (#[trigger] ps[k1]).edge_id < (#[trigger] ps[k2]).edge_id,
    ensures
        (exists|i: int| 0 <= i < rows.len() && (#[trigger] rows[i]).edge_id == e) <==> (
        exists|k: int| 0 <= k < ps.len() && (#[trigger] ps[k]).edge_id == e),
        forall|k1: int, k2: int|
            0 <= k1 < ps.len() && 0 <= k2 < ps.len() && (#[trigger] ps[k1]).edge_id == e && (
            #[trigger] ps[k2]).edge_id == e ==> k1 == k2,
{
    if exists|i: int| 0 <= i < rows.len() && (#[trigger] rows[i]).edge_id == e {
        let i = choose|i: int| 0 <= i < rows.len() && (#[trigger] rows[i]).edge_id == e;
        assert(rows.contains(rows[i]));
        lemma_flatten_membership(ps, rows[i]);
        let k = choose|k: int| 0 <= k < ps.len() && (#[trigger] ps[k]).entries@.contains(rows[i]);
        let m = choose|m: int| 0 <= m < ps[k].entries@.len() && ps[k].entries@[m] == rows[i];
        assert(ps[k].edge_id == e);
    }
    if exists|k: int| 0 <= k < ps.len() && (#[trigger] ps[k]).edge_id == e {
        let k = choose|k: int| 0 <= k < ps.len() && (#[trigger] ps[k]).edge_id == e;
        assert(ps[k].entries@.len() > 0);
        let a = ps[k].entries@[0];
        assert(ps[k].entries@.contains(a));
        lemma_flatten_membership(ps, a);
        assert(rows.contains(a));
        let i = choose|i: int| 0 <= i < rows.len() && rows[i] == a;
        assert(rows[i].edge_id == e);
    }
}

/// Groups a row list that is sorted by (edge, time) into one path per
/// edge: a single pass that cuts the list wherever the edge id changes.
/// The concatenation of the resulting paths is exactly the input; each
/// path is non-empty, uniform in its edge id, and the paths carry
/// strictly ascending edge ids.
pub fn group_attachments(rows: &Vec<Attachment>) -> (r: Vec<Path>)
    requires
        edge_sorted(rows@),
    ensures
        flatten_paths(r@) == rows@,
        forall|k: int| 0 <= k < r@.len() ==> path_wf(#[trigger] r@[k]),
        forall|k1: int, k2: int|
            0 <= k1 < k2 < r@.len() ==> (#[trigger] r@[k1]).edge_id < (#[trigger] r@[k2]).edge_id,
{
    let mut r: Vec<Path> = Vec::new();
    let mut cur: Vec<Attachment> = Vec::new();
    let mut i: usize = 0;
    while i < rows.len()
        invariant
            i <= rows@.len(),
            cur@.len() <= i,
            edge_sorted(rows@),
            flatten_paths(r@) + cur@ == rows@.take(i as int),
            forall|k: int| 0 <= k < r@.len() ==> path_wf(#[trigger] r@[k]),
            forall|k1: int, k2: int|
                0 <= k1 < k2 < r@.len() ==> (#[trigger] r@[k1]).edge_id < (
                #[trigger] r@[k2]).edge_id,
            forall|k: int|
                0 <= k < cur@.len() ==> (#[trigger] cur@[k]).edge_id == cur@[0].edge_id,
            cur@.len() == 0 ==> r@.len() == 0,
            cur@.len() > 0 ==> cur@[0] == rows@[i - cur@.len()],
            cur@.len() > 0 && r@.len() > 0 ==> r@[r@.len() - 1].edge_id < cur@[0].edge_id,
        decreases rows@.len() - i,
    {
        let a = rows[i];
        let ghost r_b = r@;
        let ghost cur_b = cur@;
        if cur.len() > 0 && cur[0].edge_id != a.edge_id {
            let eid = cur[0].edge_id;
            let ghost flushed = cur@;
            r.push(Path { edge_id: eid, entries: cur });
            cur = Vec::new();
            proof {
                lemma_flatten_push(r_b, r@.last());
                assert(flatten_paths(r@) == flatten_paths(r_b) + flushed);
                assert(flatten_paths(r@) + cur@ =~= rows@.take(i as int));
                // the new last path keeps the edge ids strictly ascending
                assert(rows@[i - flushed.len()].edge_id <= rows@[i as int].edge_id);
            }
        }
        let ghost r_m = r@;
        let ghost cur_m = cur@;
        cur.push(a);
        proof {
            lemma_take_push(rows@, i as int);
            assert(flatten_paths(r_m) + cur_m == rows@.take(i as int));
            assert(flatten_paths(r_m) + cur_m.push(a) =~= (flatten_paths(r_m) + cur_m).push(a));
            assert(flatten_paths(r@) + cur@ == rows@.take(i as int + 1));
        }
        i += 1;
    }
    proof {
        assert(rows@.take(rows@.len() as int) =~= rows@);
    }
    if cur.len() > 0 {
        let eid = cur[0].edge_id;
        let ghost r_b = r@;
        let ghost flushed = cur@;
        r.push(Path { edge_id: eid, entries: cur });
        proof {
            lemma_flatten_push(r_b, r@.last());
            assert(flatten_paths(r@) =~= rows@);
        }
        r
    } else {
        assert(flatten_paths(r@) =~= rows@);
        r
    }
}

/// Selects the rows whose edge belongs to the ancestor closure of
/// `seeds`.
pub open spec fn ancestry_selected(edges: Seq<Edge>, seeds: Set<i64>) -> spec_fn(
    Attachment,
) -> bool {
    |a: Attachment| is_ancestry_edge(edges, seeds, a.edge_id)
}

/// The attachment rows that belong to an ancestry edge of `seeds`, in
/// index order.
pub open spec fn ancestry_rows(edges: Seq<Edge>, rows: Seq<Attachment>, seeds: Set<i64>) -> Seq<
    Attachment,
> {
    rows.filter(ancestry_selected(edges, seeds))
}

/// Selects the rows whose edge originates at `cell`.
pub open spec fn origin_selected(rows: Seq<Attachment>, cell: i64) -> spec_fn(Attachment) -> bool {
    |a: Attachment| is_origin_edge(rows, a.edge_id, cell)
}

/// The attachment rows of the edges that originate at `cell`, in index
/// order.
pub open spec fn origin_rows(rows: Seq<Attachment>, cell: i64) -> Seq<Attachment> {
    rows.filter(origin_selected(rows, cell))
}

/// Sorted rows are in particular grouped by edge.
proof fn lemma_rows_sorted_edge_sorted(rows: Seq<Attachment>)
    requires
        rows_sorted(rows),
    ensures
        edge_sorted(rows),
{
    assert forall|i: int, j: int|
        0 <= i < j < rows.len() implies (#[trigger] rows[i]).edge_id <= (
    #[trigger] rows[j]).edge_id by {
        assert(key_lt(rows[i], rows[j]));
    }
}

/// Origin-path query (`PathsByOriginCell`): the migration paths of
/// every edge whose earliest attachment lies at `cell_id`. A cell with
/// no originating edges yields an empty list, never an error.
pub fn paths_by_origin_cell(index: &GeoAttachmentIndex, cell_id: i64) -> (r: Vec<Path>)
    requires
        index.wf(),
    ensures
        flatten_paths(r@) == origin_rows(index.rows@, cell_id),
        forall|k: int| 0 <= k < r@.len() ==> path_wf(#[trigger] r@[k]),
        forall|k1: int, k2: int|
            0 <= k1 < k2 < r@.len() ==> (#[trigger] r@[k1]).edge_id < (#[trigger] r@[k2]).edge_id,
{
    let ids = index.edges_with_earliest_cell(cell_id);
    let rows = index.attachments_for_edges(&ids);
    proof {
        assert forall|a: Attachment| index.rows@.contains(a) implies (edge_selected(ids@)(a)
            == origin_selected(index.rows@, cell_id)(a)) by {
            assert(ids@.contains(a.edge_id) <==> is_origin_edge(index.rows@, a.edge_id, cell_id));
        }
        lemma_filter_congruence(
            index.rows@,
            edge_selected(ids@),
            origin_selected(index.rows@, cell_id),
        );
        lemma_rows_sorted_edge_sorted(rows@);
    }
    group_attachments(&rows)
}

/// Ancestry-path query (`PathsByIndividual`): the migration paths of
/// every edge touching the ancestor closure of the individual's node
/// ids. An individual with no nodes or no ancestor edges yields an
/// empty list, never an error; a negative node id is rejected as
/// `MalformedInput`; an ancestry larger than `bound` nodes is reported
/// as `TraversalBoundExceeded`.
pub fn paths_by_individual(
    graph: &PedigreeGraph,
    index: &GeoAttachmentIndex,
    node_ids: &Vec<i64>,
    bound: usize,
) -> (r: Result<Vec<Path>, Error>)
    requires
        index.wf(),
    ensures
        match r {
            Ok(paths) => {
                &&& !has_negative(node_ids@)
                &&& closure_set(graph.edges@, node_ids@.to_set()).finite()
                &&& closure_set(graph.edges@, node_ids@.to_set()).len() <= bound
                &&& flatten_paths(paths@) == ancestry_rows(
                    graph.edges@,
                    index.rows@,
                    node_ids@.to_set(),
                )
                &&& forall|k: int| 0 <= k < paths@.len() ==> path_wf(#[trigger] paths@[k])
                &&& forall|k1: int, k2: int|
                    0 <= k1 < k2 < paths@.len() ==> (#[trigger] paths@[k1]).edge_id < (
                    #[trigger] paths@[k2]).edge_id
            },
            Err(Error::MalformedInput) => has_negative(node_ids@),
            Err(Error::TraversalBoundExceeded) => {
                &&& !has_negative(node_ids@)
                &&& closure_set(graph.edges@, node_ids@.to_set()).len() > bound
            },
        },
{
    let ids = match graph.ancestor_edges(node_ids, bound) {
        Ok(ids) => ids,
        Err(e) => {
            return Err(e);
        },
    };
    let rows = index.attachments_for_edges(&ids);
    proof {
        assert forall|a: Attachment| index.rows@.contains(a) implies (edge_selected(ids@)(a)
            == ancestry_selected(graph.edges@, node_ids@.to_set())(a)) by {
            assert(ids@.contains(a.edge_id) <==> is_ancestry_edge(
                graph.edges@,
                node_ids@.to_set(),
                a.edge_id,
            ));
        }
        lemma_filter_congruence(
            index.rows@,
            edge_selected(ids@),
            ancestry_selected(graph.edges@, node_ids@.to_set()),
        );
        lemma_rows_sorted_edge_sorted(rows@);
    }
    Ok(group_attachments(&rows))
}

/// An individual with no nodes has no ancestry rows: the query yields
/// an empty path list, without error.
pub proof fn lemma_no_nodes_no_paths(edges: Seq<Edge>, rows: Seq<Attachment>)
    ensures
        ancestry_rows(edges, rows, Set::<i64>::empty()) == Seq::<Attachment>::empty(),
{
    crate::graph::lemma_empty_seeds(edges);
    assert(rows.all(|a: Attachment| !ancestry_selected(edges, Set::<i64>::empty())(a)));
    rows.lemma_all_neg_filter_empty(ancestry_selected(edges, Set::<i64>::empty()));
    assert(ancestry_rows(edges, rows, Set::<i64>::empty()) =~= Seq::<Attachment>::empty());
}

} // verus!
