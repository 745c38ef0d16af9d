use vstd::prelude::*;

use crate::error::GraphError;

verus! {

/// Number of entries of `row` that are strictly greater than `i`.
///
/// Each undirected edge `{a, b}` with `a < b` is counted exactly once over the
/// whole adjacency structure, namely as the entry `b` of row `a`; a self loop
/// is never counted.
pub open spec fn count_above(row: Seq<usize>, i: int) -> nat
    decreases row.len(),
{
    if row.len() == 0 {
        0
    } else {
        count_above(row.drop_last(), i) + if row.last() > i {
            1nat
        } else {
            0nat
        }
    }
}

/// Bipartite graph for the one-sided crossing minimization problem.
///
/// The fixed nodes have indices in `[0, number_of_fixed_nodes)`, the free
/// nodes have indices in `[number_of_fixed_nodes, number_of_nodes)`. Edges are
/// stored symmetrically in per-node adjacency rows without duplicates. The
/// structure permits edges that are not fixed-to-free; crossing counts are
/// only meaningful when every edge of a fixed node goes to a free node, which
/// is a caller contract, not a structural guarantee.
#[derive(Debug)]
pub struct Graph {
    pub number_of_nodes: usize,
    pub number_of_fixed_nodes: usize,
    pub number_of_free_nodes: usize,
    pub number_of_edges: usize,
    pub adjacency_list: Vec<Vec<usize>>,
}

impl Graph {
    /// The total node count, as a mathematical integer.
    pub open spec fn spec_num_nodes(self) -> int {
        self.number_of_nodes as int
    }

    /// The fixed-layer node count, as a mathematical integer.
    pub open spec fn spec_num_fixed(self) -> int {
        self.number_of_fixed_nodes as int
    }

    /// The free-layer node count, as a mathematical integer.
    pub open spec fn spec_num_free(self) -> int {
        self.number_of_free_nodes as int
    }

    /// The count of distinct undirected edges, as a mathematical integer.
    pub open spec fn spec_num_edges(self) -> int {
        self.number_of_edges as int
    }

    /// The adjacency row of node `i`.
    pub open spec fn spec_adj(self, i: int) -> Seq<usize> {
        self.adjacency_list@[i]@
    }

    /// Whether an edge between `i` and `j` is present.
    pub open spec fn spec_edge(self, i: usize, j: usize) -> bool {
        self.spec_adj(i as int).contains(j)
    }

    /// Sum of `count_above(row r, r)` over the first `k` rows: the number of
    /// distinct undirected non-loop edges among them.
    pub open spec fn spec_edge_count_upto(self, k: int) -> nat
        decreases k,
    {
        if k <= 0 {
            0
        } else {
            self.spec_edge_count_upto(k - 1) + count_above(self.spec_adj(k - 1), k - 1)
        }
    }

    /// The number of distinct undirected non-loop edges held by the adjacency
    /// structure.
    pub open spec fn spec_edge_count(self) -> nat {
        self.spec_edge_count_upto(self.spec_num_nodes())
    }

    /// Structural invariant: the node counts agree, there is one adjacency row
    /// per node, rows hold in-range indices without duplicates, the edge
    /// relation is symmetric, and the stored edge counter equals the number of
    /// distinct undirected non-loop edges.
    pub open spec fn well_formed(self) -> bool {
        &&& self.number_of_nodes == self.number_of_fixed_nodes + self.number_of_free_nodes
        &&& self.adjacency_list@.len() == self.number_of_nodes
        &&& (forall|i: int|
            0 <= i < self.spec_num_nodes() ==> (#[trigger] self.spec_adj(i)).no_duplicates())
        &&& (forall|i: int, k: int|
            0 <= i < self.spec_num_nodes() && 0 <= k < self.spec_adj(i).len() ==> (
            #[trigger] self.spec_adj(i)[k]) < self.number_of_nodes)
        &&& (forall|i: usize, j: usize|
            i < self.number_of_nodes && j < self.number_of_nodes ==> (#[trigger] self.spec_edge(
                i,
                j,
            ) <==> self.spec_edge(j, i)))
        &&& self.number_of_edges == self.spec_edge_count()
    }
}

/// `count_above` of a row extended by one entry grows by one exactly when the
/// new entry is above the threshold.
proof fn lemma_count_above_push(row: Seq<usize>, x: usize, i: int)
    ensures
        count_above(row.push(x), i) == count_above(row, i) + if x > i {
            1nat
        } else {
            0nat
        },
{
    assert(row.push(x).drop_last() =~= row);
    assert(row.push(x).last() == x);
}

/// If two graphs agree on the first `k` adjacency rows except possibly row
/// `i`, whose `count_above` differs by `d`, their partial edge counts differ
/// by `d` as soon as row `i` is included.
proof fn lemma_edge_count_upto_row_update(g1: Graph, g2: Graph, i: int, d: int, k: int)
    requires
        forall|r: int| 0 <= r < k && r != i ==> g2.spec_adj(r) == g1.spec_adj(r),
        count_above(g2.spec_adj(i), i) == count_above(g1.spec_adj(i), i) + d,
    ensures
        g2.spec_edge_count_upto(k) == g1.spec_edge_count_upto(k) + if 0 <= i < k {
            d
        } else {
            0
        },
    decreases k,
{
    if k > 0 {
        lemma_edge_count_upto_row_update(g1, g2, i, d, k - 1);
    }
}

/// A graph whose first `k` adjacency rows are all empty has no edges among
/// them.
proof fn lemma_edge_count_upto_empty(g: Graph, k: int)
    requires
        forall|r: int| 0 <= r < k ==> g.spec_adj(r) == Seq::<usize>::empty(),
    ensures
        g.spec_edge_count_upto(k) == 0,
    decreases k,
{
    if k > 0 {
        lemma_edge_count_upto_empty(g, k - 1);
    }
}

/// Appending a fresh entry preserves distinctness of a row.
proof fn lemma_push_no_duplicates(row: Seq<usize>, x: usize)
    requires
        row.no_duplicates(),
        !row.contains(x),
    ensures
        row.push(x).no_duplicates(),
{
    let r2 = row.push(x);
    assert forall|m: int, n: int|
        0 <= m < r2.len() && 0 <= n < r2.len() && m != n implies r2[m] != r2[n] by {
        if m == row.len() {
            assert(r2[n] == row[n]);
            assert(row.contains(row[n]));
        } else if n == row.len() {
            assert(r2[m] == row[m]);
            assert(row.contains(row[m]));
        }
    }
}

/// Membership in a row extended by one entry.
proof fn lemma_contains_push(row: Seq<usize>, x: usize, y: usize)
    ensures
        row.push(x).contains(y) <==> (row.contains(y) || y == x),
{
    let r2 = row.push(x);
    if row.contains(y) {
        let k = choose|k: int| 0 <= k < row.len() && row[k] == y;
        assert(r2[k] == y);
    }
    if y == x {
        assert(r2[row.len() as int] == y);
    }
    if r2.contains(y) {
        let k = choose|k: int| 0 <= k < r2.len() && r2[k] == y;
        if k < row.len() {
            assert(row[k] == y);
        }
    }
}

/// Linear scan for membership of `x` in `row`.
fn row_contains(row: &Vec<usize>, x: usize) -> (b: bool)
    ensures
        b == row@.contains(x),
{
    let mut k: usize = 0;
    while k < row.len()
        invariant
            k <= row@.len(),
            forall|m: int| 0 <= m < k ==> row@[m] != x,
        decreases row@.len() - k,
    {
        if row[k] == x {
            return true;
        }
        k = k + 1;
    }
    false
}

impl Graph {
    /// Initializes a new graph without edges.
    ///
    /// The sum of the two counts must fit in the index type; this is the only
    /// machine limit on the size of a graph.
    pub fn new(number_of_fixed_nodes: usize, number_of_free_nodes: usize) -> (g: Graph)
        requires
            number_of_fixed_nodes + number_of_free_nodes <= usize::MAX,
        ensures
            g.well_formed(),
            g.spec_num_fixed() == number_of_fixed_nodes,
            g.spec_num_free() == number_of_free_nodes,
            g.spec_num_nodes() == number_of_fixed_nodes + number_of_free_nodes,
            g.spec_num_edges() == 0,
            forall|i: int| 0 <= i < g.spec_num_nodes() ==> g.spec_adj(i) == Seq::<usize>::empty(),
    {
        let number_of_nodes = number_of_fixed_nodes + number_of_free_nodes;
        let mut adjacency_list: Vec<Vec<usize>> = Vec::new();
        let mut k: usize = 0;
        while k < number_of_nodes
            invariant
                k <= number_of_nodes,
                adjacency_list@.len() == k,
                forall|i: int| 0 <= i < k ==> adjacency_list@[i]@ == Seq::<usize>::empty(),
            decreases number_of_nodes - k,
        {
            let row: Vec<usize> = Vec::new();
            adjacency_list.push(row);
            k = k + 1;
        }
        let g = Graph {
            number_of_nodes,
            number_of_fixed_nodes,
            number_of_free_nodes,
            number_of_edges: 0,
            adjacency_list,
        };
        proof {
            lemma_edge_count_upto_empty(g, g.spec_num_nodes());
        }
        g
    }

    /// Inserts `j` into the adjacency row of `i` unless already present;
    /// returns whether the row grew. Leaves every other row and all counters
    /// unchanged.
    fn insert_neighbor(&mut self, i: usize, j: usize) -> (newly: bool)
        requires
            i < old(self).adjacency_list@.len(),
        ensures
            newly == !old(self).spec_adj(i as int).contains(j),
            final(self).adjacency_list@.len() == old(self).adjacency_list@.len(),
            forall|r: int|
                0 <= r < final(self).adjacency_list@.len() && r != i ==> final(self).spec_adj(r)
                    == old(self).spec_adj(r),
            final(self).spec_adj(i as int) == if newly {
                old(self).spec_adj(i as int).push(j)
            } else {
                old(self).spec_adj(i as int)
            },
            final(self).number_of_nodes == old(self).number_of_nodes,
            final(self).number_of_fixed_nodes == old(self).number_of_fixed_nodes,
            final(self).number_of_free_nodes == old(self).number_of_free_nodes,
            final(self).number_of_edges == old(self).number_of_edges,
    {
        let contained = row_contains(&self.adjacency_list[i], j);
        if contained {
            false
        } else {
            let mut row = self.adjacency_list[i].clone();
            proof {
                assert(row@ =~= old(self).spec_adj(i as int));
            }
            row.push(j);
            self.adjacency_list[i] = row;
            true
        }
    }

    /// Adds an edge between two nodes.
    ///
    /// Returns `Ok(true)` if the edge was newly inserted, `Ok(false)` if it
    /// already existed, and `Err(IndexError)` when either index is at or above
    /// the node count, in which case the graph is unchanged. The edge counter
    /// grows exactly on the first insertion of a non-loop edge.
    pub fn add_edge(&mut self, node_index1: usize, node_index2: usize) -> (r: Result<
        bool,
        GraphError,
    >)
        requires
            old(self).well_formed(),
            old(self).spec_num_edges() < usize::MAX,
        ensures
            final(self).well_formed(),
            final(self).spec_num_nodes() == old(self).spec_num_nodes(),
            final(self).spec_num_fixed() == old(self).spec_num_fixed(),
            final(self).spec_num_free() == old(self).spec_num_free(),
            (node_index1 >= old(self).spec_num_nodes() || node_index2 >= old(
                self,
            ).spec_num_nodes()) ==> (r == Err::<bool, GraphError>(GraphError::IndexError) && *final(self) == *old(self)),
            (node_index1 < old(self).spec_num_nodes() && node_index2 < old(self).spec_num_nodes())
                ==> {
                &&& r == Ok::<bool, GraphError>(!old(self).spec_edge(node_index1, node_index2))
                &&& (forall|a: usize, b: usize|
                    a < final(self).spec_num_nodes() && b < final(self).spec_num_nodes() ==> (
                    #[trigger] final(self).spec_edge(a, b) <==> (old(self).spec_edge(a, b) || (a
                        == node_index1 && b == node_index2) || (a == node_index2 && b
                        == node_index1))))
                &&& final(self).spec_num_edges() == old(self).spec_num_edges() + if !old(self).spec_edge(
                    node_index1,
                    node_index2,
                ) && node_index1 != node_index2 {
                    1int
                } else {
                    0int
                }
            },
    {
        if node_index1 >= self.number_of_nodes || node_index2 >= self.number_of_nodes {
            return Err(GraphError::IndexError);
        }
        let ghost g0 = *self;
        let inserted1 = self.insert_neighbor(node_index1, node_index2);
        let ghost g1 = *self;
        let inserted2 = self.insert_neighbor(node_index2, node_index1);
        let ghost g2 = *self;
        proof {
            let n1 = node_index1 as int;
            let n2 = node_index2 as int;
            // The second insertion sees the first one's push when the two
            // indices coincide, so it never fires for a fresh self loop.
            if node_index1 == node_index2 && inserted1 {
                assert(g1.spec_adj(n2).contains(node_index1)) by {
                    assert(g1.spec_adj(n2).last() == node_index2);
                }
            }
            if node_index1 != node_index2 {
                assert(g1.spec_adj(n2) == g0.spec_adj(n2));
                assert(g0.spec_edge(node_index1, node_index2) <==> g0.spec_edge(
                    node_index2,
                    node_index1,
                ));
                assert(inserted1 == inserted2);
            }
            // Stored edge counter versus the two row updates.
            if inserted1 {
                lemma_count_above_push(g0.spec_adj(n1), node_index2, n1);
            }
            lemma_edge_count_upto_row_update(
                g0,
                g1,
                n1,
                if inserted1 && node_index2 > node_index1 {
                    1int
                } else {
                    0int
                },
                g0.spec_num_nodes(),
            );
            if inserted2 {
                lemma_count_above_push(g1.spec_adj(n2), node_index1, n2);
            }
            lemma_edge_count_upto_row_update(
                g1,
                g2,
                n2,
                if inserted2 && node_index1 > node_index2 {
                    1int
                } else {
                    0int
                },
                g1.spec_num_nodes(),
            );
            // Rows keep distinct, in-range entries.
            assert forall|i: int| 0 <= i < g2.spec_num_nodes() implies (
            #[trigger] g2.spec_adj(i)).no_duplicates() by {
                if i == n1 && inserted1 {
                    lemma_push_no_duplicates(g0.spec_adj(i), node_index2);
                }
                if i == n2 && inserted2 {
                    lemma_push_no_duplicates(g1.spec_adj(i), node_index1);
                }
            }
            assert forall|i: int, k: int|
                0 <= i < g2.spec_num_nodes() && 0 <= k < g2.spec_adj(i).len() implies (
            #[trigger] g2.spec_adj(i)[k]) < g2.number_of_nodes by {
                if i == n1 && inserted1 && k == g0.spec_adj(i).len() {
                } else if i == n2 && inserted2 && k == g1.spec_adj(i).len() {
                } else if i == n2 && inserted2 {
                    assert(g2.spec_adj(i)[k] == g1.spec_adj(i)[k]);
                }
            }
            // The new edge relation: exactly the old one plus the given pair.
            assert forall|a: usize, b: usize|
                a < g2.spec_num_nodes() && b < g2.spec_num_nodes() implies (
            #[trigger] g2.spec_edge(a, b) <==> (g0.spec_edge(a, b) || (a == node_index1 && b
                == node_index2) || (a == node_index2 && b == node_index1))) by {
                if inserted1 {
                    lemma_contains_push(g0.spec_adj(n1), node_index2, b);
                }
                if inserted2 {
                    lemma_contains_push(g1.spec_adj(n2), node_index1, b);
                }
                assert(g0.spec_edge(node_index1, node_index2) <==> g0.spec_edge(
                    node_index2,
                    node_index1,
                ));
            }
            // Symmetry follows from the relation update and old symmetry.
            assert forall|i: usize, j: usize|
                i < g2.number_of_nodes && j < g2.number_of_nodes implies (#[trigger] g2.spec_edge(
                i,
                j,
            ) <==> g2.spec_edge(j, i)) by {
                assert(g0.spec_edge(i, j) <==> g0.spec_edge(j, i));
            }
        }
        if inserted1 && inserted2 {
            self.number_of_edges = self.number_of_edges + 1;
        }
        proof {
            let s = *self;
            assert(s.spec_num_nodes() == g2.spec_num_nodes());
            assert forall|i: int| 0 <= i < s.spec_num_nodes() implies s.spec_adj(i) == g2.spec_adj(
                i,
            ) by {}
            assert(s.spec_edge_count_upto(s.spec_num_nodes()) == g2.spec_edge_count_upto(
                g2.spec_num_nodes(),
            )) by {
                lemma_edge_count_upto_row_update(g2, s, s.spec_num_nodes(), 0, s.spec_num_nodes());
            }
            assert forall|a: usize, b: usize|
                a < s.spec_num_nodes() && b < s.spec_num_nodes() implies (#[trigger] s.spec_edge(
                a,
                b,
            ) <==> g2.spec_edge(a, b)) by {}
            assert(s.well_formed());
        }
        Ok(inserted1)
    }

    /// Checks whether an edge between two nodes exists; `Err(IndexError)` when
    /// either index is at or above the node count.
    pub fn does_edge_exist(&self, index1: usize, index2: usize) -> (r: Result<bool, GraphError>)
        requires
            self.well_formed(),
        ensures
            (index1 >= self.spec_num_nodes() || index2 >= self.spec_num_nodes()) ==> r == Err::<
                bool,
                GraphError,
            >(GraphError::IndexError),
            (index1 < self.spec_num_nodes() && index2 < self.spec_num_nodes()) ==> r == Ok::<
                bool,
                GraphError,
            >(self.spec_edge(index1, index2)),
    {
        if index1 >= self.number_of_nodes || index2 >= self.number_of_nodes {
            return Err(GraphError::IndexError);
        }
        Ok(row_contains(&self.adjacency_list[index1], index2))
    }

    /// The stored edge relation is symmetric: an edge between `i` and `j` is
    /// an edge between `j` and `i`.
    pub proof fn lemma_edge_symmetry(self, i: usize, j: usize)
        requires
            self.well_formed(),
            i < self.spec_num_nodes(),
            j < self.spec_num_nodes(),
        ensures
            self.spec_edge(i, j) == self.spec_edge(j, i),
    {
    }

    /// Total number of nodes.
    pub fn number_of_nodes(&self) -> (r: usize)
        ensures
            r == self.spec_num_nodes(),
    {
        self.number_of_nodes
    }

    /// Number of fixed-layer nodes.
    pub fn number_of_fixed_nodes(&self) -> (r: usize)
        ensures
            r == self.spec_num_fixed(),
    {
        self.number_of_fixed_nodes
    }

    /// Number of free-layer nodes.
    pub fn number_of_free_nodes(&self) -> (r: usize)
        ensures
            r == self.spec_num_free(),
    {
        self.number_of_free_nodes
    }

    /// Number of distinct undirected edges inserted so far.
    pub fn number_of_edges(&self) -> (r: usize)
        ensures
            r == self.spec_num_edges(),
    {
        self.number_of_edges
    }
}

} // verus!
