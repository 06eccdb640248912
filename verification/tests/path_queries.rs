use pedigree_paths::attach::Attachment;
use pedigree_paths::attach::GeoAttachmentIndex;
use pedigree_paths::graph::Edge;
use pedigree_paths::graph::PedigreeGraph;
use pedigree_paths::paths::group_attachments;
use pedigree_paths::paths::paths_by_individual;
use pedigree_paths::paths::paths_by_origin_cell;
use pedigree_paths::Error;

fn att(edge_id: i64, state_id: i64, time: i64) -> Attachment {
    Attachment { edge_id, state_id, time }
}

fn edge(id: i64, parent: i64, child: i64) -> Edge {
    Edge { id, parent, child }
}

#[test]
fn index_sorts_and_dedups() {
    let idx = GeoAttachmentIndex::from_rows(
        &vec![att(2, 5, 10), att(1, 3, 0), att(2, 5, 10), att(1, 4, 5)],
    );
    assert_eq!(idx.rows, vec![att(1, 3, 0), att(1, 4, 5), att(2, 5, 10)]);
}

#[test]
fn attachments_for_edges_filters_in_order() {
    let idx = GeoAttachmentIndex::from_rows(
        &vec![att(1, 3, 0), att(2, 9, 0), att(1, 4, 5), att(3, 7, 1)],
    );
    let rows = idx.attachments_for_edges(&vec![1, 3]);
    assert_eq!(rows, vec![att(1, 3, 0), att(1, 4, 5), att(3, 7, 1)]);
}

#[test]
fn attachments_for_no_edges_is_empty() {
    let idx = GeoAttachmentIndex::from_rows(&vec![att(1, 3, 0)]);
    assert_eq!(idx.attachments_for_edges(&vec![]), Vec::<Attachment>::new());
}

#[test]
fn origin_filter_requires_earliest_cell() {
    // edge 1 starts at cell 3 and visits cell 4 later; edge 2 starts at 4
    let idx = GeoAttachmentIndex::from_rows(&vec![att(1, 3, 0), att(1, 4, 1), att(2, 4, 0)]);
    assert_eq!(idx.edges_with_earliest_cell(4), vec![2]);
    assert_eq!(idx.edges_with_earliest_cell(3), vec![1]);
    assert_eq!(idx.edges_with_earliest_cell(99), Vec::<i64>::new());
}

#[test]
fn origin_tie_breaks_by_lowest_cell() {
    // two rows at the same time: the lower cell id wins deterministically
    let idx = GeoAttachmentIndex::from_rows(&vec![att(1, 7, 0), att(1, 5, 0)]);
    assert_eq!(idx.edges_with_earliest_cell(5), vec![1]);
    assert_eq!(idx.edges_with_earliest_cell(7), Vec::<i64>::new());
}

#[test]
fn grouping_cuts_at_edge_changes() {
    let rows = vec![att(1, 3, 0), att(1, 4, 1), att(2, 5, 0)];
    let paths = group_attachments(&rows);
    assert_eq!(paths.len(), 2);
    assert_eq!(paths[0].edge_id, 1);
    assert_eq!(paths[0].entries, vec![att(1, 3, 0), att(1, 4, 1)]);
    assert_eq!(paths[1].edge_id, 2);
    assert_eq!(paths[1].entries, vec![att(2, 5, 0)]);
    let total: usize = paths.iter().map(|p| p.entries.len()).sum();
    assert_eq!(total, rows.len());
}

#[test]
fn grouping_empty_input_is_empty() {
    assert!(group_attachments(&vec![]).is_empty());
}

#[test]
fn paths_by_origin_cell_groups_originating_edges() {
    // edges 1 and 2 both start at cell 3; edge 5 starts elsewhere
    let idx = GeoAttachmentIndex::from_rows(
        &vec![att(1, 3, 0), att(1, 8, 2), att(2, 3, 1), att(5, 4, 0), att(5, 3, 1)],
    );
    let paths = paths_by_origin_cell(&idx, 3);
    assert_eq!(paths.len(), 2);
    assert_eq!(paths[0].edge_id, 1);
    assert_eq!(paths[0].entries, vec![att(1, 3, 0), att(1, 8, 2)]);
    assert_eq!(paths[1].edge_id, 2);
    assert_eq!(paths[1].entries, vec![att(2, 3, 1)]);
}

#[test]
fn paths_by_origin_cell_empty_for_unknown_cell() {
    let idx = GeoAttachmentIndex::from_rows(&vec![att(1, 3, 0)]);
    assert!(paths_by_origin_cell(&idx, 77).is_empty());
}

#[test]
fn paths_by_individual_end_to_end() {
    // individual with nodes {10, 11}; edge 1 is (5 -> 10), edge 2 is
    // (10 -> 11); only edge 1 has attachments: cell 3 at t0, cell 4 at t1
    let g = PedigreeGraph { edges: vec![edge(1, 5, 10), edge(2, 10, 11)] };
    let idx = GeoAttachmentIndex::from_rows(&vec![att(1, 3, 0), att(1, 4, 1)]);
    let paths = paths_by_individual(&g, &idx, &vec![10, 11], 1000).unwrap();
    assert_eq!(paths.len(), 1);
    assert_eq!(paths[0].edge_id, 1);
    assert_eq!(paths[0].entries, vec![att(1, 3, 0), att(1, 4, 1)]);
}

#[test]
fn unknown_individual_yields_empty() {
    let g = PedigreeGraph { edges: vec![edge(1, 5, 10)] };
    let idx = GeoAttachmentIndex::from_rows(&vec![att(1, 3, 0)]);
    let paths = paths_by_individual(&g, &idx, &vec![], 1000).unwrap();
    assert!(paths.is_empty());
}

#[test]
fn negative_node_id_malformed() {
    let g = PedigreeGraph { edges: vec![edge(1, 5, 10)] };
    let idx = GeoAttachmentIndex::from_rows(&vec![att(1, 3, 0)]);
    assert_eq!(
        paths_by_individual(&g, &idx, &vec![-7], 1000).unwrap_err(),
        Error::MalformedInput,
    );
}

#[test]
fn individual_bound_exceeded() {
    let g = PedigreeGraph { edges: vec![edge(1, 2, 1), edge(2, 3, 2), edge(3, 4, 3)] };
    let idx = GeoAttachmentIndex::from_rows(&vec![att(1, 3, 0)]);
    assert_eq!(
        paths_by_individual(&g, &idx, &vec![1], 2).unwrap_err(),
        Error::TraversalBoundExceeded,
    );
}
