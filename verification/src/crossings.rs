use vstd::prelude::*;

use crate::error::GraphError;
use crate::graph::Graph;

verus! {

/// Position function of the default free ordering: a free node's position is
/// its own index, so positions compare exactly as the indices do.
pub open spec fn crossing_pos_default() -> spec_fn(usize) -> int {
    |x: usize| x as int
}

/// Position function of an explicit free ordering: a node's position is its
/// rank in `o`.
pub open spec fn crossing_pos_of_ordering(o: Seq<usize>) -> spec_fn(usize) -> int {
    |x: usize| o.index_of(x)
}

/// Among the first `k` entries of `row`, the number whose position is strictly
/// before the position of `x`.
pub open spec fn count_before_upto(pos: spec_fn(usize) -> int, x: usize, row: Seq<usize>, k: int) -> nat
    decreases k,
{
    if k <= 0 {
        0
    } else {
        count_before_upto(pos, x, row, k - 1) + if pos(row[k - 1]) < pos(x) {
            1nat
        } else {
            0nat
        }
    }
}

/// The number of entries of `row` positioned strictly before `x`.
pub open spec fn count_before(pos: spec_fn(usize) -> int, x: usize, row: Seq<usize>) -> nat {
    count_before_upto(pos, x, row, row.len() as int)
}

/// Crossings contributed by the first `k` entries of `row_u` against all of
/// `row_v`: pairs `(x, y)` with `x` among those entries, `y` in `row_v`, and
/// `y` positioned before `x`.
pub open spec fn count_rows_upto(
    pos: spec_fn(usize) -> int,
    row_u: Seq<usize>,
    row_v: Seq<usize>,
    k: int,
) -> nat
    decreases k,
{
    if k <= 0 {
        0
    } else {
        count_rows_upto(pos, row_u, row_v, k - 1) + count_before(pos, row_u[k - 1], row_v)
    }
}

/// Crossings contributed by the neighbor rows of one fixed pair: the number of
/// neighbor pairs `(x, y)` with `x` in `row_u`, `y` in `row_v`, and `y`
/// positioned before `x`.
pub open spec fn count_rows(pos: spec_fn(usize) -> int, row_u: Seq<usize>, row_v: Seq<usize>) -> nat {
    count_rows_upto(pos, row_u, row_v, row_u.len() as int)
}

impl Graph {
    /// Crossings of fixed node `u` against fixed partners in `[u + 1, v)`.
    pub open spec fn spec_pair_crossings_upto(self, pos: spec_fn(usize) -> int, u: int, v: int) -> nat
        decreases v - u,
    {
        if v <= u + 1 {
            0
        } else {
            self.spec_pair_crossings_upto(pos, u, v - 1) + count_rows(
                pos,
                self.spec_adj(u),
                self.spec_adj(v - 1),
            )
        }
    }

    /// Crossings of fixed node `u` against all later fixed nodes.
    pub open spec fn spec_row_crossings(self, pos: spec_fn(usize) -> int, u: int) -> nat {
        self.spec_pair_crossings_upto(pos, u, self.spec_num_fixed())
    }

    /// Crossings among the first `u` fixed nodes and their later partners.
    pub open spec fn spec_crossings_upto(self, pos: spec_fn(usize) -> int, u: int) -> nat
        decreases u,
    {
        if u <= 0 {
            0
        } else {
            self.spec_crossings_upto(pos, u - 1) + self.spec_row_crossings(pos, u - 1)
        }
    }

    /// Total crossing count under the position function `pos`: over every
    /// unordered fixed pair `u < v`, the number of neighbor pairs `(x, y)`
    /// with `x` adjacent to `u`, `y` adjacent to `v`, and `y` positioned
    /// strictly before `x`.
    pub open spec fn spec_crossings(self, pos: spec_fn(usize) -> int) -> nat {
        self.spec_crossings_upto(pos, self.spec_num_fixed())
    }

    /// Crossing count with the free nodes in ascending index order.
    pub open spec fn spec_crossings_default(self) -> nat {
        self.spec_crossings(crossing_pos_default())
    }

    /// Crossing count under an explicit free ordering.
    pub open spec fn spec_crossings_for_ordering(self, o: Seq<usize>) -> nat {
        self.spec_crossings(crossing_pos_of_ordering(o))
    }

    /// A valid ordering lists every free node exactly once and nothing else.
    pub open spec fn spec_ordering_valid(self, o: Seq<usize>) -> bool {
        &&& o.len() == self.spec_num_free()
        &&& o.no_duplicates()
        &&& forall|x: usize|
            #[trigger] o.contains(x) <==> (self.spec_num_fixed() <= x < self.spec_num_nodes())
    }

    /// Caller contract of crossing counts under an explicit ordering: every
    /// neighbor of a fixed node is a free node.
    pub open spec fn spec_fixed_adjacency_in_free_range(self) -> bool {
        forall|u: int, k: int|
            0 <= u < self.spec_num_fixed() && 0 <= k < self.spec_adj(u).len()
                ==> self.spec_num_fixed() <= #[trigger] self.spec_adj(u)[k] < self.spec_num_nodes()
    }

    /// The ascending ordering of the free nodes.
    pub open spec fn spec_default_free_ordering(self) -> Seq<usize> {
        Seq::new(self.spec_num_free() as nat, |k: int| (self.spec_num_fixed() + k) as usize)
    }
}

/// In a duplicate-free sequence, the index of the element at `k` is `k`.
pub(crate) proof fn lemma_index_of_unique(o: Seq<usize>, k: int)
    requires
        o.no_duplicates(),
        0 <= k < o.len(),
    ensures
        o.index_of(o[k]) == k,
{
    assert(o.contains(o[k]));
    let k2 = o.index_of(o[k]);
    assert(0 <= k2 < o.len() && o[k2] == o[k]) by {
        assert(exists|i: int| 0 <= i < o.len() && o[i] == o[k]);
    }
}

// ---------------------------------------------------------------------------
// Partial sums are monotone in their bound; this bounds every intermediate
// accumulator of the counting loops by the total.
// ---------------------------------------------------------------------------

proof fn lemma_count_before_upto_mono(
    pos: spec_fn(usize) -> int,
    x: usize,
    row: Seq<usize>,
    k1: int,
    k2: int,
)
    requires
        k1 <= k2,
    ensures
        count_before_upto(pos, x, row, k1) <= count_before_upto(pos, x, row, k2),
    decreases k2 - k1,
{
    if k1 < k2 {
        lemma_count_before_upto_mono(pos, x, row, k1, k2 - 1);
    }
}

proof fn lemma_count_rows_upto_mono(
    pos: spec_fn(usize) -> int,
    row_u: Seq<usize>,
    row_v: Seq<usize>,
    k1: int,
    k2: int,
)
    requires
        k1 <= k2,
    ensures
        count_rows_upto(pos, row_u, row_v, k1) <= count_rows_upto(pos, row_u, row_v, k2),
    decreases k2 - k1,
{
    if k1 < k2 {
        lemma_count_rows_upto_mono(pos, row_u, row_v, k1, k2 - 1);
    }
}

proof fn lemma_pair_crossings_upto_mono(g: Graph, pos: spec_fn(usize) -> int, u: int, v1: int, v2: int)
    requires
        v1 <= v2,
    ensures
        g.spec_pair_crossings_upto(pos, u, v1) <= g.spec_pair_crossings_upto(pos, u, v2),
    decreases v2 - v1,
{
    if v1 < v2 {
        lemma_pair_crossings_upto_mono(g, pos, u, v1, v2 - 1);
    }
}

proof fn lemma_crossings_upto_mono(g: Graph, pos: spec_fn(usize) -> int, u1: int, u2: int)
    requires
        u1 <= u2,
    ensures
        g.spec_crossings_upto(pos, u1) <= g.spec_crossings_upto(pos, u2),
    decreases u2 - u1,
{
    if u1 < u2 {
        lemma_crossings_upto_mono(g, pos, u1, u2 - 1);
    }
}

/// Bounds the accumulator right after counting one more pair: the partial sum
/// through pair `(u, v)`, entries `(a, b)` inclusive, is at most the total.
proof fn lemma_partial_le_total(g: Graph, pos: spec_fn(usize) -> int, u: int, v: int, a: int, b: int)
    requires
        0 <= u < v < g.spec_num_fixed(),
        0 <= a < g.spec_adj(u).len(),
        0 <= b < g.spec_adj(v).len(),
    ensures
        g.spec_crossings_upto(pos, u) + g.spec_pair_crossings_upto(pos, u, v) + count_rows_upto(
            pos,
            g.spec_adj(u),
            g.spec_adj(v),
            a,
        ) + count_before_upto(pos, g.spec_adj(u)[a], g.spec_adj(v), b + 1) <= g.spec_crossings(pos),
{
    let row_u = g.spec_adj(u);
    let row_v = g.spec_adj(v);
    let x = row_u[a];
    lemma_count_before_upto_mono(pos, x, row_v, b + 1, row_v.len() as int);
    assert(count_rows_upto(pos, row_u, row_v, a) + count_before(pos, x, row_v) == count_rows_upto(
        pos,
        row_u,
        row_v,
        a + 1,
    ));
    lemma_count_rows_upto_mono(pos, row_u, row_v, a + 1, row_u.len() as int);
    assert(g.spec_pair_crossings_upto(pos, u, v) + count_rows(pos, row_u, row_v)
        == g.spec_pair_crossings_upto(pos, u, v + 1));
    lemma_pair_crossings_upto_mono(g, pos, u, v + 1, g.spec_num_fixed());
    assert(g.spec_crossings_upto(pos, u) + g.spec_row_crossings(pos, u) == g.spec_crossings_upto(
        pos,
        u + 1,
    ));
    lemma_crossings_upto_mono(g, pos, u + 1, g.spec_num_fixed());
}

// ---------------------------------------------------------------------------
// Two position functions that order every relevant neighbor pair alike yield
// the same crossing count.
// ---------------------------------------------------------------------------

impl Graph {
    /// Whether `x` occurs in the adjacency row of some fixed node.
    pub open spec fn spec_in_fixed_rows(self, x: usize) -> bool {
        exists|u: int, k: int|
            0 <= u < self.spec_num_fixed() && 0 <= k < self.spec_adj(u).len() && (
            #[trigger] self.spec_adj(u)[k]) == x
    }

    /// Whether `p1` and `p2` compare every pair of fixed-row neighbors the
    /// same way.
    pub open spec fn spec_pos_agree(self, p1: spec_fn(usize) -> int, p2: spec_fn(usize) -> int) -> bool {
        forall|x: usize, y: usize|
            #[trigger] self.spec_in_fixed_rows(x) && #[trigger] self.spec_in_fixed_rows(y) ==> ((
            p1(y) < p1(x)) <==> (p2(y) < p2(x)))
    }
}

proof fn lemma_count_before_upto_congruent(
    p1: spec_fn(usize) -> int,
    p2: spec_fn(usize) -> int,
    x: usize,
    row: Seq<usize>,
    k: int,
)
    requires
        forall|m: int| 0 <= m < k ==> ((p1(#[trigger] row[m]) < p1(x)) <==> (p2(row[m]) < p2(x))),
    ensures
        count_before_upto(p1, x, row, k) == count_before_upto(p2, x, row, k),
    decreases k,
{
    if k > 0 {
        lemma_count_before_upto_congruent(p1, p2, x, row, k - 1);
    }
}

proof fn lemma_count_rows_upto_congruent(
    p1: spec_fn(usize) -> int,
    p2: spec_fn(usize) -> int,
    row_u: Seq<usize>,
    row_v: Seq<usize>,
    k: int,
)
    requires
        forall|m: int, n: int|
            0 <= m < k && 0 <= n < row_v.len() ==> ((p1(#[trigger] row_v[n]) < p1(
                #[trigger] row_u[m],
            )) <==> (p2(row_v[n]) < p2(row_u[m]))),
    ensures
        count_rows_upto(p1, row_u, row_v, k) == count_rows_upto(p2, row_u, row_v, k),
    decreases k,
{
    if k > 0 {
        lemma_count_rows_upto_congruent(p1, p2, row_u, row_v, k - 1);
        lemma_count_before_upto_congruent(p1, p2, row_u[k - 1], row_v, row_v.len() as int);
    }
}

proof fn lemma_pair_crossings_upto_congruent(
    g: Graph,
    p1: spec_fn(usize) -> int,
    p2: spec_fn(usize) -> int,
    u: int,
    v: int,
)
    requires
        0 <= u < g.spec_num_fixed(),
        v <= g.spec_num_fixed(),
        g.spec_pos_agree(p1, p2),
    ensures
        g.spec_pair_crossings_upto(p1, u, v) == g.spec_pair_crossings_upto(p2, u, v),
    decreases v - u,
{
    if v > u + 1 {
        lemma_pair_crossings_upto_congruent(g, p1, p2, u, v - 1);
        let row_u = g.spec_adj(u);
        let row_v = g.spec_adj(v - 1);
        assert forall|m: int, n: int|
            0 <= m < row_u.len() && 0 <= n < row_v.len() implies ((p1(#[trigger] row_v[n]) < p1(
            #[trigger] row_u[m],
        )) <==> (p2(row_v[n]) < p2(row_u[m]))) by {
            assert(g.spec_in_fixed_rows(row_u[m]));
            assert(g.spec_in_fixed_rows(row_v[n]));
        }
        lemma_count_rows_upto_congruent(p1, p2, row_u, row_v, row_u.len() as int);
    }
}

proof fn lemma_crossings_upto_congruent(
    g: Graph,
    p1: spec_fn(usize) -> int,
    p2: spec_fn(usize) -> int,
    u: int,
)
    requires
        u <= g.spec_num_fixed(),
        g.spec_pos_agree(p1, p2),
    ensures
        g.spec_crossings_upto(p1, u) == g.spec_crossings_upto(p2, u),
    decreases u,
{
    if u > 0 {
        lemma_crossings_upto_congruent(g, p1, p2, u - 1);
        lemma_pair_crossings_upto_congruent(g, p1, p2, u - 1, g.spec_num_fixed());
    }
}

/// Two position functions that order every pair of fixed-row neighbors alike
/// produce the same crossing count.
pub proof fn lemma_crossings_congruent(g: Graph, p1: spec_fn(usize) -> int, p2: spec_fn(usize) -> int)
    requires
        g.spec_pos_agree(p1, p2),
    ensures
        g.spec_crossings(p1) == g.spec_crossings(p2),
{
    lemma_crossings_upto_congruent(g, p1, p2, g.spec_num_fixed());
}

/// Counting crossings under the ascending free ordering agrees with the
/// default count, for every graph whose fixed nodes have only free neighbors.
pub proof fn lemma_default_ordering_agreement(g: Graph)
    requires
        g.well_formed(),
        g.spec_fixed_adjacency_in_free_range(),
    ensures
        g.spec_ordering_valid(g.spec_default_free_ordering()),
        g.spec_crossings_for_ordering(g.spec_default_free_ordering()) == g.spec_crossings_default(),
{
    let o = g.spec_default_free_ordering();
    let fixed = g.spec_num_fixed();
    assert forall|m: int, n: int|
        0 <= m < o.len() && 0 <= n < o.len() && m != n implies o[m] != o[n] by {}
    assert forall|x: usize| #[trigger] o.contains(x) implies (fixed <= x
        < g.spec_num_nodes()) by {
        let k = choose|k: int| 0 <= k < o.len() && o[k] == x;
    }
    assert forall|x: usize| fixed <= x < g.spec_num_nodes() implies o.contains(x) by {
        assert(o[x - fixed] == x);
    }
    assert(g.spec_ordering_valid(o));
    let p1 = crossing_pos_of_ordering(o);
    let p2 = crossing_pos_default();
    assert forall|x: usize, y: usize|
        #[trigger] g.spec_in_fixed_rows(x) && #[trigger] g.spec_in_fixed_rows(y) implies ((p1(y)
        < p1(x)) <==> (p2(y) < p2(x))) by {
        let (u1, k1) = choose|u: int, k: int|
            0 <= u < fixed && 0 <= k < g.spec_adj(u).len() && g.spec_adj(u)[k] == x;
        let (u2, k2) = choose|u: int, k: int|
            0 <= u < fixed && 0 <= k < g.spec_adj(u).len() && g.spec_adj(u)[k] == y;
        assert(fixed <= x < g.spec_num_nodes());
        assert(fixed <= y < g.spec_num_nodes());
        lemma_index_of_unique(o, x - fixed);
        assert(o[x - fixed] == x);
        lemma_index_of_unique(o, y - fixed);
        assert(o[y - fixed] == y);
        assert(p1(x) == x - fixed && p1(y) == y - fixed);
        assert(p2(x) == x as int && p2(y) == y as int);
    }
    lemma_crossings_congruent(g, p1, p2);
}

// ---------------------------------------------------------------------------
// If every fixed node's neighbors sit at positions within that node's own
// unit window, no two edges cross.
// ---------------------------------------------------------------------------

impl Graph {
    /// Every neighbor of fixed node `u` has a position in `[u, u + 1]`.
    pub open spec fn spec_pos_within_window(self, pos: spec_fn(usize) -> int) -> bool {
        forall|u: int, k: int|
            0 <= u < self.spec_num_fixed() && 0 <= k < self.spec_adj(u).len() ==> u <= pos(
                #[trigger] self.spec_adj(u)[k],
            ) <= u + 1
    }
}

proof fn lemma_count_before_upto_zero(pos: spec_fn(usize) -> int, x: usize, row: Seq<usize>, k: int)
    requires
        forall|m: int| 0 <= m < k ==> !(pos(#[trigger] row[m]) < pos(x)),
    ensures
        count_before_upto(pos, x, row, k) == 0,
    decreases k,
{
    if k > 0 {
        lemma_count_before_upto_zero(pos, x, row, k - 1);
    }
}

proof fn lemma_count_rows_upto_zero(
    pos: spec_fn(usize) -> int,
    row_u: Seq<usize>,
    row_v: Seq<usize>,
    k: int,
)
    requires
        forall|m: int, n: int|
            0 <= m < k && 0 <= n < row_v.len() ==> !(pos(#[trigger] row_v[n]) < pos(
                #[trigger] row_u[m],
            )),
    ensures
        count_rows_upto(pos, row_u, row_v, k) == 0,
    decreases k,
{
    if k > 0 {
        lemma_count_rows_upto_zero(pos, row_u, row_v, k - 1);
        lemma_count_before_upto_zero(pos, row_u[k - 1], row_v, row_v.len() as int);
    }
}

proof fn lemma_pair_crossings_upto_zero(g: Graph, pos: spec_fn(usize) -> int, u: int, v: int)
    requires
        0 <= u < g.spec_num_fixed(),
        v <= g.spec_num_fixed(),
        g.spec_pos_within_window(pos),
    ensures
        g.spec_pair_crossings_upto(pos, u, v) == 0,
    decreases v - u,
{
    if v > u + 1 {
        lemma_pair_crossings_upto_zero(g, pos, u, v - 1);
        let row_u = g.spec_adj(u);
        let row_v = g.spec_adj(v - 1);
        assert forall|m: int, n: int|
            0 <= m < row_u.len() && 0 <= n < row_v.len() implies !(pos(#[trigger] row_v[n]) < pos(
            #[trigger] row_u[m],
        )) by {
            assert(pos(row_u[m]) <= u + 1);
            assert(pos(row_v[n]) >= v - 1);
        }
        lemma_count_rows_upto_zero(pos, row_u, row_v, row_u.len() as int);
    }
}

proof fn lemma_crossings_upto_zero(g: Graph, pos: spec_fn(usize) -> int, u: int)
    requires
        u <= g.spec_num_fixed(),
        g.spec_pos_within_window(pos),
    ensures
        g.spec_crossings_upto(pos, u) == 0,
    decreases u,
{
    if u > 0 {
        lemma_crossings_upto_zero(g, pos, u - 1);
        lemma_pair_crossings_upto_zero(g, pos, u - 1, g.spec_num_fixed());
    }
}

/// A graph whose fixed node `u` only has neighbors positioned in the window
/// `[u, u + 1]`, for every `u`, has no crossings under that position function.
pub proof fn lemma_crossings_zero(g: Graph, pos: spec_fn(usize) -> int)
    requires
        g.spec_pos_within_window(pos),
    ensures
        g.spec_crossings(pos) == 0,
{
    lemma_crossings_upto_zero(g, pos, g.spec_num_fixed());
}

// ---------------------------------------------------------------------------
// Executable counting.
// ---------------------------------------------------------------------------

impl Graph {
    /// Computes the number of crossings with all free nodes in ascending index
    /// order.
    ///
    /// The count must fit in the result type; this is a machine limit, not a
    /// restriction of the algorithm.
    #[verifier::loop_isolation(false)]
    pub fn compute_number_of_crossings_with_default_ordering(&self) -> (r: Result<
        usize,
        GraphError,
    >)
        requires
            self.well_formed(),
            self.spec_crossings_default() <= usize::MAX,
        ensures
            r matches Ok(c) && c == self.spec_crossings_default(),
    {
        let ghost pos = crossing_pos_default();
        let fixed = self.number_of_fixed_nodes;
        let mut total: usize = 0;
        let mut u: usize = 0;
        while u < fixed
            invariant
                u <= fixed,
                total == self.spec_crossings_upto(pos, u as int),
            decreases fixed - u,
        {
            let mut v: usize = u + 1;
            while v < fixed
                invariant
                    u + 1 <= v <= fixed,
                    total == self.spec_crossings_upto(pos, u as int) + self.spec_pair_crossings_upto(
                        pos,
                        u as int,
                        v as int,
                    ),
                decreases fixed - v,
            {
                let row_u_len = self.adjacency_list[u].len();
                let mut a: usize = 0;
                while a < row_u_len
                    invariant
                        a <= row_u_len,
                        row_u_len == self.spec_adj(u as int).len(),
                        total == self.spec_crossings_upto(pos, u as int)
                            + self.spec_pair_crossings_upto(pos, u as int, v as int)
                            + count_rows_upto(
                            pos,
                            self.spec_adj(u as int),
                            self.spec_adj(v as int),
                            a as int,
                        ),
                    decreases row_u_len - a,
                {
                    let x = self.adjacency_list[u][a];
                    let row_v_len = self.adjacency_list[v].len();
                    let mut b: usize = 0;
                    while b < row_v_len
                        invariant
                            b <= row_v_len,
                            row_v_len == self.spec_adj(v as int).len(),
                            total == self.spec_crossings_upto(pos, u as int)
                                + self.spec_pair_crossings_upto(pos, u as int, v as int)
                                + count_rows_upto(
                                pos,
                                self.spec_adj(u as int),
                                self.spec_adj(v as int),
                                a as int,
                            ) + count_before_upto(pos, x, self.spec_adj(v as int), b as int),
                        decreases row_v_len - b,
                    {
                        let y = self.adjacency_list[v][b];
                        proof {
                            assert(pos(y) == y as int && pos(x) == x as int);
                        }
                        if y < x {
                            proof {
                                lemma_partial_le_total(
                                    *self,
                                    pos,
                                    u as int,
                                    v as int,
                                    a as int,
                                    b as int,
                                );
                            }
                            total = total + 1;
                        }
                        b = b + 1;
                    }
                    a = a + 1;
                }
                v = v + 1;
            }
            u = u + 1;
        }
        Ok(total)
    }

    /// Computes the number of crossings for a specific ordering of the free
    /// nodes.
    ///
    /// The ordering must contain every free node exactly once and nothing
    /// else; otherwise the call fails with `ValueError`. Counting a valid
    /// ordering asks that every fixed node's neighbors are free nodes and that
    /// the count fits in the result type.
    #[verifier::loop_isolation(false)]
    pub fn compute_number_of_crossings_for_ordering(&self, ordering: &Vec<usize>) -> (r: Result<
        usize,
        GraphError,
    >)
        requires
            self.well_formed(),
            self.spec_ordering_valid(ordering@) ==> self.spec_fixed_adjacency_in_free_range(),
            self.spec_ordering_valid(ordering@) ==> self.spec_crossings_for_ordering(ordering@)
                <= usize::MAX,
        ensures
            self.spec_ordering_valid(ordering@) ==> (r matches Ok(c) && c
                == self.spec_crossings_for_ordering(ordering@)),
            !self.spec_ordering_valid(ordering@) ==> r == Err::<usize, GraphError>(
                GraphError::ValueError,
            ),
    {
        let ghost o = ordering@;
        let fixed = self.number_of_fixed_nodes;
        let free = self.number_of_free_nodes;
        if ordering.len() != free {
            return Err(GraphError::ValueError);
        }
        let mut seen: Vec<bool> = Vec::new();
        let mut positions: Vec<usize> = Vec::new();
        let mut m: usize = 0;
        while m < free
            invariant
                m <= free,
                seen@.len() == m,
                positions@.len() == m,
                forall|t: int| 0 <= t < m ==> !(#[trigger] seen@[t]),
            decreases free - m,
        {
            seen.push(false);
            positions.push(0);
            m = m + 1;
        }
        let mut k: usize = 0;
        while k < ordering.len()
            invariant
                k <= o.len(),
                seen@.len() == free,
                positions@.len() == free,
                forall|t: int| 0 <= t < k ==> fixed <= #[trigger] o[t] < self.number_of_nodes,
                forall|t1: int, t2: int| 0 <= t1 < t2 < k ==> o[t1] != o[t2],
                forall|mm: int|
                    0 <= mm < free ==> ((#[trigger] seen@[mm]) <==> exists|t: int|
                        0 <= t < k && o[t] == fixed + mm),
                forall|t: int|
                    0 <= t < k ==> #[trigger] positions@[o[t] - fixed] == t,
            decreases o.len() - k,
        {
            let x = ordering[k];
            if x < fixed || x >= self.number_of_nodes {
                proof {
                    assert(o.contains(x)) by {
                        assert(o[k as int] == x);
                    }
                }
                return Err(GraphError::ValueError);
            }
            let off = x - fixed;
            if seen[off] {
                proof {
                    let t = choose|t: int| 0 <= t < k && o[t] == fixed + off as int;
                    assert(o[t] == o[k as int] && t != k as int);
                    assert(!o.no_duplicates());
                }
                return Err(GraphError::ValueError);
            }
            seen[off] = true;
            positions[off] = k;
            proof {
                assert forall|mm: int|
                    0 <= mm < free implies ((#[trigger] seen@[mm]) <==> exists|t: int|
                        0 <= t < k + 1 && o[t] == fixed + mm) by {
                    if mm == off as int {
                        assert(o[k as int] == fixed + mm);
                    } else {
                        if exists|t: int| 0 <= t < k + 1 && o[t] == fixed + mm {
                            let t = choose|t: int| 0 <= t < k + 1 && o[t] == fixed + mm;
                            assert(t < k);
                        }
                    }
                }
            }
            k = k + 1;
        }
        let mut m2: usize = 0;
        while m2 < free
            invariant
                m2 <= free,
                forall|t: int| 0 <= t < m2 ==> #[trigger] seen@[t],
            decreases free - m2,
        {
            if !seen[m2] {
                proof {
                    assert(fixed <= fixed + m2 < self.number_of_nodes);
                    if o.contains((fixed + m2) as usize) {
                        let t = choose|t: int| 0 <= t < o.len() && o[t] == (fixed + m2) as usize;
                        assert(seen@[m2 as int]);
                    }
                }
                return Err(GraphError::ValueError);
            }
            m2 = m2 + 1;
        }
        proof {
            assert forall|t1: int, t2: int|
                0 <= t1 < o.len() && 0 <= t2 < o.len() && t1 != t2 implies o[t1] != o[t2] by {}
            assert forall|x: usize| #[trigger] o.contains(x) implies (fixed <= x
                < self.number_of_nodes) by {
                let t = choose|t: int| 0 <= t < o.len() && o[t] == x;
            }
            assert forall|x: usize| fixed <= x < self.number_of_nodes implies o.contains(x) by {
                let mm = x - fixed;
                assert(seen@[mm as int]);
                let t = choose|t: int| 0 <= t < o.len() && o[t] == fixed + mm;
                assert(o[t] == x);
            }
            assert(self.spec_ordering_valid(o));
        }
        let ghost pos = crossing_pos_of_ordering(o);
        proof {
            assert forall|x: usize| fixed <= x < self.number_of_nodes implies 0 <= x - fixed
                < positions@.len() && #[trigger] positions@[x - fixed] == pos(x) && fixed <= pos(x)
                + fixed <= self.number_of_nodes by {
                assert(o.contains(x));
                let t = choose|t: int| 0 <= t < o.len() && o[t] == x;
                lemma_index_of_unique(o, t);
                assert(positions@[o[t] - fixed] == t);
            }
        }
        let fixed_count = self.number_of_fixed_nodes;
        let mut total: usize = 0;
        let mut u: usize = 0;
        while u < fixed_count
            invariant
                u <= fixed_count,
                total == self.spec_crossings_upto(pos, u as int),
            decreases fixed_count - u,
        {
            let mut v: usize = u + 1;
            while v < fixed_count
                invariant
                    u + 1 <= v <= fixed_count,
                    total == self.spec_crossings_upto(pos, u as int) + self.spec_pair_crossings_upto(
                        pos,
                        u as int,
                        v as int,
                    ),
                decreases fixed_count - v,
            {
                let row_u_len = self.adjacency_list[u].len();
                let mut a: usize = 0;
                while a < row_u_len
                    invariant
                        a <= row_u_len,
                        row_u_len == self.spec_adj(u as int).len(),
                        total == self.spec_crossings_upto(pos, u as int)
                            + self.spec_pair_crossings_upto(pos, u as int, v as int)
                            + count_rows_upto(
                            pos,
                            self.spec_adj(u as int),
                            self.spec_adj(v as int),
                            a as int,
                        ),
                    decreases row_u_len - a,
                {
                    let x = self.adjacency_list[u][a];
                    let px = positions[x - fixed];
                    let row_v_len = self.adjacency_list[v].len();
                    let mut b: usize = 0;
                    while b < row_v_len
                        invariant
                            b <= row_v_len,
                            row_v_len == self.spec_adj(v as int).len(),
                            px == pos(x),
                            total == self.spec_crossings_upto(pos, u as int)
                                + self.spec_pair_crossings_upto(pos, u as int, v as int)
                                + count_rows_upto(
                                pos,
                                self.spec_adj(u as int),
                                self.spec_adj(v as int),
                                a as int,
                            ) + count_before_upto(pos, x, self.spec_adj(v as int), b as int),
                        decreases row_v_len - b,
                    {
                        let y = self.adjacency_list[v][b];
                        let py = positions[y - fixed];
                        if py < px {
                            proof {
                                lemma_partial_le_total(
                                    *self,
                                    pos,
                                    u as int,
                                    v as int,
                                    a as int,
                                    b as int,
                                );
                            }
                            total = total + 1;
                        }
                        b = b + 1;
                    }
                    a = a + 1;
                }
                v = v + 1;
            }
            u = u + 1;
        }
        Ok(total)
    }
}

} // verus!
