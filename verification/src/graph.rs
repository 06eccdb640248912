//! The pedigree graph and its ancestor-closure traversal.
//!
//! Nodes are bare ids; the graph is the list of its directed
//! parent -> child edges. The one query is `ancestor_edges`: starting from
//! a set of seed node ids, walk child -> parent links upward until no new
//! node appears, and report every edge that touches a node of that
//! closure. The traversal is guarded by a visited set, so it terminates
//! and visits each node once even when the data contains a cycle, and by
//! a caller-supplied cap on the number of visited nodes.

use vstd::prelude::*;

use crate::seqs::lemma_push_contains;
use crate::seqs::lemma_push_no_dup;
use crate::Error;

verus! {

/// A directed parent -> child link between two pedigree nodes.
///
/// Edges are read-only records created by the ingesting collaborator; the
/// resolver only traverses them.
#[derive(Clone, Copy, PartialEq, Eq, Structural, Debug)]
pub struct Edge {
    /// Unique id of the edge itself.
    pub id: i64,
    /// Node id of the ancestor end.
    pub parent: i64,
    /// Node id of the descendant end.
    pub child: i64,
}

/// One upward step: `v` together with the parent of every edge whose
/// child already lies in `v`.
pub open spec fn closure_step(edges: Seq<Edge>, v: Set<i64>) -> Set<i64> {
    v.union(
        Set::new(
            |p: i64|
                exists|i: int|
                    0 <= i < edges.len() && (#[trigger] edges[i]).parent == p && v.contains(
                        edges[i].child,
                    ),
        ),
    )
}

/// The node set reached from `seeds` after at most `k` upward steps.
pub open spec fn closure_k(edges: Seq<Edge>, seeds: Set<i64>, k: nat) -> Set<i64>
    decreases k,
{
    if k == 0 {
        seeds
    } else {
        closure_step(edges, closure_k(edges, seeds, (k - 1) as nat))
    }
}

/// A node lies in the ancestor closure of `seeds`: it is reachable from a
/// seed by walking child -> parent links upward some finite number of
/// times.
pub open spec fn in_closure(edges: Seq<Edge>, seeds: Set<i64>, n: i64) -> bool {
    exists|k: nat| closure_k(edges, seeds, k).contains(n)
}

/// The ancestor closure of `seeds` as a node set.
pub open spec fn closure_set(edges: Seq<Edge>, seeds: Set<i64>) -> Set<i64> {
    Set::new(|n: i64| in_closure(edges, seeds, n))
}

/// An edge touches a node set when its parent or its child lies in it.
pub open spec fn touches(e: Edge, v: Set<i64>) -> bool {
    v.contains(e.parent) || v.contains(e.child)
}

/// Every seed lies in its own ancestor closure.
pub proof fn lemma_closure_contains_seeds(edges: Seq<Edge>, seeds: Set<i64>)
    ensures
        seeds.subset_of(closure_set(edges, seeds)),
{
    assert forall|n: i64| seeds.contains(n) implies closure_set(edges, seeds).contains(n) by {
        assert(closure_k(edges, seeds, 0).contains(n));
    }
}

/// The closure is closed upward: the parent end of any edge whose child
/// end lies in the closure lies in it too. Every parent-path out of a
/// seed therefore stays inside the closure for its whole length.
pub proof fn lemma_closure_upward_closed(edges: Seq<Edge>, seeds: Set<i64>, i: int)
    requires
        0 <= i < edges.len(),
        closure_set(edges, seeds).contains(edges[i].child),
    ensures
        closure_set(edges, seeds).contains(edges[i].parent),
{
    let k = choose|k: nat| closure_k(edges, seeds, k).contains(edges[i].child);
    assert(closure_k(edges, seeds, k + 1).contains(edges[i].parent));
}

proof fn lemma_closure_k_in_closed(edges: Seq<Edge>, seeds: Set<i64>, v: Set<i64>, k: nat)
    requires
        seeds.subset_of(v),
        forall|i: int|
            0 <= i < edges.len() && v.contains((#[trigger] edges[i]).child) ==> v.contains(
                edges[i].parent,
            ),
    ensures
        closure_k(edges, seeds, k).subset_of(v),
    decreases k,
{
    if k > 0 {
        lemma_closure_k_in_closed(edges, seeds, v, (k - 1) as nat);
    }
}

/// The closure is the least node set that holds the seeds and is closed
/// under taking parents: any such set contains it.
pub proof fn lemma_closure_least(edges: Seq<Edge>, seeds: Set<i64>, v: Set<i64>)
    requires
        seeds.subset_of(v),
        forall|i: int|
            0 <= i < edges.len() && v.contains((#[trigger] edges[i]).child) ==> v.contains(
                edges[i].parent,
            ),
    ensures
        closure_set(edges, seeds).subset_of(v),
{
    assert forall|n: i64| closure_set(edges, seeds).contains(n) implies v.contains(n) by {
        let k = choose|k: nat| closure_k(edges, seeds, k).contains(n);
        lemma_closure_k_in_closed(edges, seeds, v, k);
    }
}

/// Some id in the sequence is negative.
pub open spec fn has_negative(s: Seq<i64>) -> bool {
    exists|i: int| 0 <= i < s.len() && s[i] < 0
}

/// The edge with this id touches the ancestor closure of `seeds`: its
/// parent or its child lies in the closure. These are exactly the edge
/// ids that `ancestor_edges` reports.
pub open spec fn is_ancestry_edge(edges: Seq<Edge>, seeds: Set<i64>, id: i64) -> bool {
    exists|i: int|
        0 <= i < edges.len() && (#[trigger] edges[i]).id == id && touches(
            edges[i],
            closure_set(edges, seeds),
        )
}

/// The parent ends of all edges, as a set.
pub open spec fn parent_set(edges: Seq<Edge>) -> Set<i64> {
    edges.map_values(|e: Edge| e.parent).to_set()
}

/// The ancestor closure of a finite seed set is finite: every node it
/// holds is a seed or the parent end of some edge.
pub proof fn lemma_closure_finite(edges: Seq<Edge>, seeds: Set<i64>)
    requires
        seeds.finite(),
    ensures
        closure_set(edges, seeds).finite(),
        closure_set(edges, seeds).len() <= seeds.union(parent_set(edges)).len(),
{
    broadcast use vstd::seq_lib::seq_to_set_is_finite;

    let big = seeds.union(parent_set(edges));
    assert forall|i: int|
        0 <= i < edges.len() && big.contains((#[trigger] edges[i]).child) implies big.contains(
        edges[i].parent,
    ) by {
        assert(edges.map_values(|e: Edge| e.parent)[i] == edges[i].parent);
        assert(edges.map_values(|e: Edge| e.parent).to_set().contains(edges[i].parent));
    }
    lemma_closure_least(edges, seeds, big);
    vstd::set_lib::lemma_len_subset(closure_set(edges, seeds), big);
}

/// An empty seed set has an empty ancestor closure, and no edge touches
/// an empty closure: an ancestor query with no seeds reports no edges,
/// and without error.
pub proof fn lemma_empty_seeds(edges: Seq<Edge>)
    ensures
        closure_set(edges, Set::<i64>::empty()) =~= Set::<i64>::empty(),
        forall|id: i64| !is_ancestry_edge(edges, Set::<i64>::empty(), id),
{
    lemma_closure_least(edges, Set::<i64>::empty(), Set::<i64>::empty());
    assert forall|id: i64| !is_ancestry_edge(edges, Set::<i64>::empty(), id) by {
        assert forall|i: int| 0 <= i < edges.len() implies !touches(
            #[trigger] edges[i],
            closure_set(edges, Set::<i64>::empty()),
        ) by {
            assert(!closure_set(edges, Set::<i64>::empty()).contains(edges[i].parent));
            assert(!closure_set(edges, Set::<i64>::empty()).contains(edges[i].child));
        }
    }
}

/// Inclusion half of closure correctness: an edge on a parent-path from
/// the seeds (its child lies in the ancestor closure) is always reported
/// as an ancestry edge.
pub proof fn lemma_parent_path_edge_included(edges: Seq<Edge>, seeds: Set<i64>, i: int)
    requires
        0 <= i < edges.len(),
        in_closure(edges, seeds, edges[i].child),
    ensures
        is_ancestry_edge(edges, seeds, edges[i].id),
{
    assert(closure_set(edges, seeds).contains(edges[i].child));
    assert(touches(edges[i], closure_set(edges, seeds)));
}

/// Exactness half of closure correctness. In general the reported set
/// also holds edges that merely start inside the closure (a sibling
/// branch hanging off an ancestor). When the graph has no such edge —
/// every edge whose parent lies in the closure keeps its child there
/// too — an edge touches the closure exactly when its child is an
/// ancestor-or-seed of the seeds, i.e. exactly when it lies on a
/// parent-path from them; every other edge stays out.
pub proof fn lemma_closure_edges_exact(edges: Seq<Edge>, seeds: Set<i64>)
    requires
        forall|i: int|
            0 <= i < edges.len() && closure_set(edges, seeds).contains(
                (#[trigger] edges[i]).parent,
            ) ==> closure_set(edges, seeds).contains(edges[i].child),
    ensures
        forall|i: int|
            0 <= i < edges.len() ==> (touches(#[trigger] edges[i], closure_set(edges, seeds))
                <==> in_closure(edges, seeds, edges[i].child)),
{
    assert forall|i: int|
        0 <= i < edges.len() implies (touches(#[trigger] edges[i], closure_set(edges, seeds))
        <==> in_closure(edges, seeds, edges[i].child)) by {
        if in_closure(edges, seeds, edges[i].child) {
            assert(closure_set(edges, seeds).contains(edges[i].child));
        }
    }
}

/// Closure correctness, stated over the reported ids: in a graph whose
/// closure has no outgoing sibling edge (see `lemma_closure_edges_exact`),
/// an id is an ancestry edge exactly when an edge carrying it lies on a
/// parent-path from the seeds — its child is a seed or an ancestor of
/// one. `ancestor_edges` reports exactly these ids.
pub proof fn lemma_ancestry_edges_exact(edges: Seq<Edge>, seeds: Set<i64>, id: i64)
    requires
        forall|i: int|
            0 <= i < edges.len() && closure_set(edges, seeds).contains(
                (#[trigger] edges[i]).parent,
            ) ==> closure_set(edges, seeds).contains(edges[i].child),
    ensures
        is_ancestry_edge(edges, seeds, id) <==> exists|i: int|
            0 <= i < edges.len() && (#[trigger] edges[i]).id == id && in_closure(
                edges,
                seeds,
                edges[i].child,
            ),
{
    lemma_closure_edges_exact(edges, seeds);
    if is_ancestry_edge(edges, seeds, id) {
        let i = choose|i: int|
            0 <= i < edges.len() && (#[trigger] edges[i]).id == id && touches(
                edges[i],
                closure_set(edges, seeds),
            );
        assert(in_closure(edges, seeds, edges[i].child));
    }
    if exists|i: int|
        0 <= i < edges.len() && (#[trigger] edges[i]).id == id && in_closure(
            edges,
            seeds,
            edges[i].child,
        ) {
        let i = choose|i: int|
            0 <= i < edges.len() && (#[trigger] edges[i]).id == id && in_closure(
                edges,
                seeds,
                edges[i].child,
            );
        assert(touches(edges[i], closure_set(edges, seeds)));
    }
}

/// A set of visited nodes that already has `bound` members, all inside the
/// closure, plus one more closure node outside it, witnesses that the
/// closure is larger than `bound`.
proof fn lemma_bound_hit(edges: Seq<Edge>, seeds: Set<i64>, visited: Seq<i64>, extra: i64)
    requires
        seeds.finite(),
        visited.no_duplicates(),
        forall|n: i64| visited.contains(n) ==> closure_set(edges, seeds).contains(n),
        closure_set(edges, seeds).contains(extra),
        !visited.contains(extra),
    ensures
        closure_set(edges, seeds).len() > visited.len(),
{
    broadcast use vstd::set::group_set_axioms;
    broadcast use vstd::seq_lib::seq_to_set_is_finite;

    lemma_closure_finite(edges, seeds);
    visited.unique_seq_to_set();
    let vs = visited.to_set().insert(extra);
    assert(!visited.to_set().contains(extra));
    assert(vs.len() == visited.len() + 1);
    assert(vs.subset_of(closure_set(edges, seeds)));
    vstd::set_lib::lemma_len_subset(vs, closure_set(edges, seeds));
}

/// Linear membership test on a list of ids.
pub(crate) fn id_contains(v: &Vec<i64>, x: i64) -> (r: bool)
    ensures
        r == v@.contains(x),
{
    let mut i: usize = 0;
    while i < v.len()
        invariant
            i <= v.len(),
            forall|j: int| 0 <= j < i ==> v@[j] != x,
        decreases v@.len() - i,
    {
        if v[i] == x {
            assert(v@.contains(x));
            return true;
        }
        i += 1;
    }
    false
}

/// An in-memory pedigree graph: the list of its parent -> child edges.
pub struct PedigreeGraph {
    /// The edges of the pedigree, in no particular order.
    pub edges: Vec<Edge>,
}

impl PedigreeGraph {
    /// Ancestor-closure query: report every edge whose parent or child
    /// lies in the upward closure of `seeds`, walking child -> parent
    /// links until no new node appears.
    ///
    /// The visited set both guards against cycles (each node is visited
    /// at most once, so the walk terminates on any data) and is capped at
    /// `bound` nodes: an ancestry with more nodes than `bound` is
    /// reported as `TraversalBoundExceeded` rather than returned
    /// truncated. A negative seed id is rejected as `MalformedInput`
    /// before the walk begins. Empty or unknown seeds are not an error:
    /// they yield an empty result.
    #[verifier::loop_isolation(false)]
    pub fn ancestor_edges(&self, seeds: &Vec<i64>, bound: usize) -> (r: Result<Vec<i64>, Error>)
        ensures
            match r {
                Ok(ids) => {
                    &&& !has_negative(seeds@)
                    &&& closure_set(self.edges@, seeds@.to_set()).finite()
                    &&& closure_set(self.edges@, seeds@.to_set()).len() <= bound
                    &&& ids@.no_duplicates()
                    &&& forall|id: i64|
                        ids@.contains(id) <==> is_ancestry_edge(self.edges@, seeds@.to_set(), id)
                },
                Err(Error::MalformedInput) => has_negative(seeds@),
                Err(Error::TraversalBoundExceeded) => {
                    &&& !has_negative(seeds@)
                    &&& closure_set(self.edges@, seeds@.to_set()).len() > bound
                },
            },
    {
        let ghost seed_set = seeds@.to_set();
        let ghost closure = closure_set(self.edges@, seed_set);
        proof {
            broadcast use vstd::seq_lib::seq_to_set_is_finite;

            lemma_closure_finite(self.edges@, seed_set);
            lemma_closure_contains_seeds(self.edges@, seed_set);
        }

        // Malformed ids are rejected before any traversal.
        let mut i: usize = 0;
        while i < seeds.len()
            invariant
                i <= seeds.len(),
                forall|j: int| 0 <= j < i ==> seeds@[j] >= 0,
            decreases seeds@.len() - i,
        {
            if seeds[i] < 0 {
                assert(has_negative(seeds@));
                return Err(Error::MalformedInput);
            }
            i += 1;
        }

        // The visited list starts as the deduplicated seeds.
        let mut visited: Vec<i64> = Vec::new();
        let mut frontier: Vec<i64> = Vec::new();
        let mut i: usize = 0;
        while i < seeds.len()
            invariant
                i <= seeds.len(),
                visited@.no_duplicates(),
                visited@.len() <= bound,
                frontier@ == visited@,
                forall|n: i64| visited@.contains(n) ==> seed_set.contains(n),
                forall|j: int| 0 <= j < i ==> visited@.contains(#[trigger] seeds@[j]),
            decreases seeds@.len() - i,
        {
            let s = seeds[i];
            if !id_contains(&visited, s) {
                assert(seeds@.contains(s));
                if visited.len() == bound {
                    proof {
                        lemma_bound_hit(self.edges@, seed_set, visited@, s);
                    }
                    return Err(Error::TraversalBoundExceeded);
                }
                let ghost visited_b = visited@;
                visited.push(s);
                frontier.push(s);
                proof {
                    lemma_push_no_dup(visited_b, s);
                    assert forall|m: i64| visited@.contains(m) implies seed_set.contains(m) by {
                        lemma_push_contains(visited_b, s, m);
                    }
                    assert forall|j: int| 0 <= j < i + 1 implies visited@.contains(
                        #[trigger] seeds@[j],
                    ) by {
                        lemma_push_contains(visited_b, s, seeds@[j]);
                    }
                }
            }
            i += 1;
        }
        proof {
            assert forall|n: i64| seed_set.contains(n) implies visited@.contains(n) by {
                let j = choose|j: int| 0 <= j < seeds@.len() && seeds@[j] == n;
                assert(visited@.contains(seeds@[j]));
            }
        }

        // Walk upward until no unexpanded node is left. Every node enters
        // the visited list at most once, so the walk terminates even on
        // cyclic data.
        while frontier.len() > 0
            invariant
                visited@.no_duplicates(),
                frontier@.no_duplicates(),
                visited@.len() <= bound,
                forall|n: i64| frontier@.contains(n) ==> visited@.contains(n),
                forall|n: i64| visited@.contains(n) ==> closure.contains(n),
                forall|n: i64| seed_set.contains(n) ==> visited@.contains(n),
                forall|k: int|
                    0 <= k < self.edges@.len() && visited@.contains(
                        (#[trigger] self.edges@[k]).child,
                    ) && !frontier@.contains(self.edges@[k].child) ==> visited@.contains(
                        self.edges@[k].parent,
                    ),
            decreases 2 * (bound - visited@.len()) + frontier@.len(),
        {
            let ghost frontier_before = frontier@;
            let n = frontier.pop().unwrap();
            proof {
                assert(frontier_before.contains(n));
                assert(visited@.contains(n));
                assert forall|m: i64| frontier@.contains(m) implies frontier_before.contains(
                    m,
                ) by {
                    let j = choose|j: int| 0 <= j < frontier@.len() && frontier@[j] == m;
                    assert(frontier_before[j] == m);
                }
                assert(!frontier@.contains(n));
                assert forall|m: i64|
                    frontier_before.contains(m) && m != n implies frontier@.contains(m) by {
                    let j = choose|j: int|
                        0 <= j < frontier_before.len() && frontier_before[j] == m;
                    assert(frontier@[j] == m);
                }
            }
            let ghost visited_at_pop = visited@;
            let ghost frontier_at_pop = frontier@;
            let mut j: usize = 0;
            while j < self.edges.len()
                invariant
                    j <= self.edges@.len(),
                    visited@.no_duplicates(),
                    frontier@.no_duplicates(),
                    visited@.len() <= bound,
                    visited@.contains(n),
                    !frontier@.contains(n),
                    forall|m: i64| frontier@.contains(m) ==> visited@.contains(m),
                    forall|m: i64| visited@.contains(m) ==> closure.contains(m),
                    forall|m: i64| seed_set.contains(m) ==> visited@.contains(m),
                    forall|k: int|
                        0 <= k < self.edges@.len() && visited@.contains(
                            (#[trigger] self.edges@[k]).child,
                        ) && !frontier@.contains(self.edges@[k].child) && self.edges@[k].child != n
                            ==> visited@.contains(self.edges@[k].parent),
                    forall|k: int|
                        0 <= k < j && (#[trigger] self.edges@[k]).child == n
                            ==> visited@.contains(self.edges@[k].parent),
                    2 * (bound - visited@.len()) + frontier@.len() <= 2 * (bound
                        - visited_at_pop.len()) + frontier_at_pop.len(),
                decreases self.edges@.len() - j,
            {
                let e = self.edges[j];
                if e.child == n {
                    if !id_contains(&visited, e.parent) {
                        proof {
                            lemma_closure_upward_closed(self.edges@, seed_set, j as int);
                        }
                        if visited.len() == bound {
                            proof {
                                lemma_bound_hit(self.edges@, seed_set, visited@, e.parent);
                            }
                            return Err(Error::TraversalBoundExceeded);
                        }
                        let ghost visited_b = visited@;
                        let ghost frontier_b = frontier@;
                        visited.push(e.parent);
                        frontier.push(e.parent);
                        proof {
                            lemma_push_no_dup(visited_b, e.parent);
                            lemma_push_no_dup(frontier_b, e.parent);
                            lemma_push_contains(visited_b, e.parent, n);
                            lemma_push_contains(frontier_b, e.parent, n);
                            assert(visited@.contains(n));
                            assert(!frontier@.contains(n));
                            assert forall|m: i64|
                                frontier@.contains(m) implies visited@.contains(m) by {
                                lemma_push_contains(frontier_b, e.parent, m);
                                lemma_push_contains(visited_b, e.parent, m);
                            }
                            assert forall|m: i64|
                                visited@.contains(m) implies closure.contains(m) by {
                                lemma_push_contains(visited_b, e.parent, m);
                            }
                            assert forall|m: i64|
                                seed_set.contains(m) implies visited@.contains(m) by {
                                lemma_push_contains(visited_b, e.parent, m);
                            }
                            assert forall|k: int|
                                0 <= k < self.edges@.len() && visited@.contains(
                                    (#[trigger] self.edges@[k]).child,
                                ) && !frontier@.contains(self.edges@[k].child)
                                    && self.edges@[k].child != n implies visited@.contains(
                                self.edges@[k].parent,
                            ) by {
                                lemma_push_contains(visited_b, e.parent, self.edges@[k].child);
                                lemma_push_contains(frontier_b, e.parent, self.edges@[k].child);
                                lemma_push_contains(visited_b, e.parent, self.edges@[k].parent);
                            }
                            assert forall|k: int|
                                0 <= k < j + 1 && (#[trigger] self.edges@[k]).child == n
                                    implies visited@.contains(self.edges@[k].parent) by {
                                lemma_push_contains(visited_b, e.parent, self.edges@[k].parent);
                            }
                        }
                    }
                }
                j += 1;
            }
        }

        // With an empty frontier the visited list is closed upward, so it
        // is exactly the closure.
        proof {
            assert forall|k: int|
                0 <= k < self.edges@.len() && visited@.to_set().contains(
                    (#[trigger] self.edges@[k]).child,
                ) implies visited@.to_set().contains(self.edges@[k].parent) by {
                assert(!frontier@.contains(self.edges@[k].child));
            }
            lemma_closure_least(self.edges@, seed_set, visited@.to_set());
            assert(visited@.to_set() =~= closure);
            visited@.unique_seq_to_set();
            assert(closure.len() <= bound);
        }

        // Report every edge that touches the closure, each id once.
        let mut ids: Vec<i64> = Vec::new();
        let mut j: usize = 0;
        while j < self.edges.len()
            invariant
                j <= self.edges@.len(),
                ids@.no_duplicates(),
                forall|m: int|
                    0 <= m < ids@.len() ==> exists|k: int|
                        0 <= k < j && (#[trigger] self.edges@[k]).id == #[trigger] ids@[m]
                            && touches(self.edges@[k], closure),
                forall|k: int|
                    0 <= k < j && touches(#[trigger] self.edges@[k], closure) ==> ids@.contains(
                        self.edges@[k].id,
                    ),
            decreases self.edges@.len() - j,
        {
            let ghost ids_before = ids@;
            let e = self.edges[j];
            let ghost touching = touches(self.edges@[j as int], closure);
            if id_contains(&visited, e.parent) || id_contains(&visited, e.child) {
                assert(touching);
                if !id_contains(&ids, e.id) {
                    ids.push(e.id);
                }
            } else {
                assert(!touching);
            }
            proof {
                assert forall|m: i64|
                    ids@.contains(m) <==> (ids_before.contains(m) || (ids@ != ids_before && m
                        == self.edges@[j as int].id)) by {
                    lemma_push_contains(ids_before, self.edges@[j as int].id, m);
                }
                assert forall|m: int| 0 <= m < ids@.len() implies exists|k: int|
                    0 <= k < j + 1 && (#[trigger] self.edges@[k]).id == #[trigger] ids@[m]
                        && touches(self.edges@[k], closure) by {
                    if m < ids_before.len() {
                        assert(ids@[m] == ids_before[m]);
                    } else {
                        assert(ids@[m] == self.edges@[j as int].id && touching);
                    }
                }
            }
            j += 1;
        }
        proof {
            assert forall|id: i64|
                ids@.contains(id) <==> is_ancestry_edge(self.edges@, seed_set, id) by {
                if ids@.contains(id) {
                    let m = choose|m: int| 0 <= m < ids@.len() && ids@[m] == id;
                    assert(exists|k: int|
                        0 <= k < self.edges@.len() && (#[trigger] self.edges@[k]).id == ids@[m]
                            && touches(self.edges@[k], closure));
                }
                if is_ancestry_edge(self.edges@, seed_set, id) {
                    let k = choose|k: int|
                        0 <= k < self.edges@.len() && (#[trigger] self.edges@[k]).id == id
                            && touches(self.edges@[k], closure_set(self.edges@, seed_set));
                    assert(ids@.contains(self.edges@[k].id));
                }
            }
        }
        Ok(ids)
    }
}

} // verus!
