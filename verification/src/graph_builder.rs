use vstd::prelude::*;

use rand::Rng;
use rand::seq::SliceRandom;

use crate::crossings::{crossing_pos_of_ordering, lemma_crossings_zero, lemma_index_of_unique};
use crate::error::GraphError;
use crate::graph::Graph;
use crate::parse::{
    byte_lines_view, spec_parse_edge_line, spec_parse_p_line, parse_usize_token, split_line,
};

verus! {

/// Helper struct that constructs graphs in different ways.
pub struct GraphBuilder {}

/// The parsed header line of the text format, used only to validate the input
/// and size the graph.
pub struct PLineInfo {
    pub descriptor: Vec<u8>,
    pub number_of_fixed_nodes: usize,
    pub number_of_free_nodes: usize,
    pub number_of_edges: usize,
}

impl PLineInfo {
    /// Parses a header line `p <descriptor> <fixed> <free> <edges>`.
    pub fn build(p_line: &Vec<u8>) -> (r: Option<PLineInfo>)
        ensures
            r matches Some(info) ==> (spec_parse_p_line(p_line@) matches Some(t) && info.descriptor@
                == t.0 && info.number_of_fixed_nodes == t.1 && info.number_of_free_nodes == t.2
                && info.number_of_edges == t.3),
            r is None ==> spec_parse_p_line(p_line@) is None,
    {
        let mut tokens = split_line(p_line);
        let ghost ts = byte_lines_view(tokens@);
        if tokens.len() != 5 {
            return None;
        }
        let word_p_ok = tokens[0].len() == 1 && tokens[0][0] == 112;
        proof {
            if word_p_ok {
                assert(ts[0] =~= seq![112u8]);
            } else {
                assert(ts[0] != seq![112u8]);
            }
        }
        if !word_p_ok {
            return None;
        }
        let number_of_fixed_nodes = match parse_usize_token(&tokens[2]) {
            Some(v) => v,
            None => {
                return None;
            },
        };
        let number_of_free_nodes = match parse_usize_token(&tokens[3]) {
            Some(v) => v,
            None => {
                return None;
            },
        };
        let number_of_edges = match parse_usize_token(&tokens[4]) {
            Some(v) => v,
            None => {
                return None;
            },
        };
        let descriptor = tokens.swap_remove(1);
        Some(
            PLineInfo {
                descriptor,
                number_of_fixed_nodes,
                number_of_free_nodes,
                number_of_edges,
            },
        )
    }
}

/// A line that construction passes over: blank, or a comment starting with the
/// comment byte.
pub open spec fn spec_line_skipped(line: Seq<u8>) -> bool {
    line.len() == 0 || line[0] == 99
}

/// Whether the undirected edge `{a, b}` occurs among the parsed edge items, in
/// either orientation.
pub open spec fn spec_edge_in_items(items: Seq<(usize, usize)>, a: usize, b: usize) -> bool {
    items.contains((a, b)) || items.contains((b, a))
}

/// The number of distinct undirected non-loop edges named by the items.
pub open spec fn spec_distinct_edges(items: Seq<(usize, usize)>) -> int
    decreases items.len(),
{
    if items.len() == 0 {
        0
    } else {
        let p = items.last();
        spec_distinct_edges(items.drop_last()) + if p.0 != p.1 && !spec_edge_in_items(
            items.drop_last(),
            p.0,
            p.1,
        ) {
            1int
        } else {
            0int
        }
    }
}

proof fn lemma_distinct_edges_le_len(items: Seq<(usize, usize)>)
    ensures
        0 <= spec_distinct_edges(items) <= items.len(),
    decreases items.len(),
{
    if items.len() > 0 {
        lemma_distinct_edges_le_len(items.drop_last());
    }
}

/// Membership among edge items after appending one more.
proof fn lemma_edge_in_items_push(items: Seq<(usize, usize)>, p: (usize, usize), a: usize, b: usize)
    ensures
        spec_edge_in_items(items.push(p), a, b) <==> (spec_edge_in_items(items, a, b) || (a == p.0
            && b == p.1) || (a == p.1 && b == p.0)),
{
    let it2 = items.push(p);
    if items.contains((a, b)) {
        let k = choose|k: int| 0 <= k < items.len() && items[k] == (a, b);
        assert(it2[k] == (a, b));
    }
    if items.contains((b, a)) {
        let k = choose|k: int| 0 <= k < items.len() && items[k] == (b, a);
        assert(it2[k] == (b, a));
    }
    if (a == p.0 && b == p.1) {
        assert(it2[items.len() as int] == (a, b));
    }
    if (a == p.1 && b == p.0) {
        assert(it2[items.len() as int] == (b, a));
    }
    if it2.contains((a, b)) {
        let k = choose|k: int| 0 <= k < it2.len() && it2[k] == (a, b);
        if k < items.len() {
            assert(items[k] == (a, b));
        }
    }
    if it2.contains((b, a)) {
        let k = choose|k: int| 0 <= k < it2.len() && it2[k] == (b, a);
        if k < items.len() {
            assert(items[k] == (b, a));
        }
    }
}

/// Index of the first line at or after `i` that construction does not pass
/// over, or the line count when every remaining line is passed over.
pub open spec fn spec_first_significant(lines: Seq<Seq<u8>>, i: int) -> int
    decreases lines.len() - i,
{
    if i >= lines.len() {
        lines.len() as int
    } else if spec_line_skipped(lines[i]) {
        spec_first_significant(lines, i + 1)
    } else {
        i
    }
}

/// Reads the lines after the header in order: passed-over lines are dropped, a
/// malformed or zero-valued edge line stops with `ParseError`, an edge whose
/// endpoints leave the graph stops with `IndexError`, and every good edge is
/// appended as a node pair: the one-based fixed index becomes the node one
/// below it, the one-based free index becomes the node `fixed` below the line
/// value names.
pub open spec fn spec_scan_edges(
    lines: Seq<Seq<u8>>,
    i: int,
    fixed: int,
    n: int,
    acc: Seq<(usize, usize)>,
) -> Result<Seq<(usize, usize)>, GraphError>
    decreases lines.len() - i,
{
    if i >= lines.len() {
        Ok(acc)
    } else if spec_line_skipped(lines[i]) {
        spec_scan_edges(lines, i + 1, fixed, n, acc)
    } else {
        match spec_parse_edge_line(lines[i]) {
            None => Err(GraphError::ParseError),
            Some(uv) => {
                if uv.0 == 0 || uv.1 == 0 {
                    Err(GraphError::ParseError)
                } else if uv.0 - 1 >= n || uv.1 - 1 >= n - fixed {
                    Err(GraphError::IndexError)
                } else {
                    spec_scan_edges(
                        lines,
                        i + 1,
                        fixed,
                        n,
                        acc.push(((uv.0 - 1) as usize, (fixed + uv.1 - 1) as usize)),
                    )
                }
            },
        }
    }
}

/// The whole text format: the first line not passed over must be a valid
/// header, the declared node counts must fit in the index type, every later
/// line must scan as an edge, and the number of distinct edges read must equal
/// the declared edge count.
pub open spec fn spec_build_from_lines(lines: Seq<Seq<u8>>) -> Result<
    (int, int, int, Seq<(usize, usize)>),
    GraphError,
> {
    let h = spec_first_significant(lines, 0);
    if h >= lines.len() {
        Err(GraphError::ParseError)
    } else {
        match spec_parse_p_line(lines[h]) {
            None => Err(GraphError::ParseError),
            Some(t) => {
                if t.1 + t.2 > usize::MAX {
                    Err(GraphError::ParseError)
                } else {
                    match spec_scan_edges(lines, h + 1, t.1, t.1 + t.2, Seq::empty()) {
                        Err(e) => Err(e),
                        Ok(items) => {
                            if spec_distinct_edges(items) != t.3 {
                                Err(GraphError::ParseError)
                            } else {
                                Ok((t.1, t.2, t.3, items))
                            }
                        },
                    }
                }
            },
        }
    }
}

/// Finds the first line that construction does not pass over.
#[verifier::loop_isolation(false)]
fn find_significant(lines: &Vec<Vec<u8>>) -> (h: usize)
    ensures
        h == spec_first_significant(byte_lines_view(lines@), 0),
        h <= lines@.len(),
{
    let ghost lv = byte_lines_view(lines@);
    let mut idx: usize = 0;
    while idx < lines.len()
        invariant
            idx <= lines@.len(),
            spec_first_significant(lv, 0) == spec_first_significant(lv, idx as int),
        decreases lines@.len() - idx,
    {
        let line_is_skipped = lines[idx].len() == 0 || lines[idx][0] == 99;
        if !line_is_skipped {
            return idx;
        }
        idx = idx + 1;
    }
    idx
}

impl GraphBuilder {
    /// Parses an edge line of two space-separated unsigned numbers.
    pub fn parse_edge_line(line: &Vec<u8>) -> (r: Option<(usize, usize)>)
        ensures
            r matches Some(p) ==> spec_parse_edge_line(line@) == Some((p.0 as int, p.1 as int)),
            r is None ==> spec_parse_edge_line(line@) is None,
    {
        let tokens = split_line(line);
        if tokens.len() != 2 {
            return None;
        }
        let first = match parse_usize_token(&tokens[0]) {
            Some(v) => v,
            None => {
                return None;
            },
        };
        let second = match parse_usize_token(&tokens[1]) {
            Some(v) => v,
            None => {
                return None;
            },
        };
        Some((first, second))
    }

    /// Constructs a graph from the lines of a PACE-style text description.
    ///
    /// Blank lines and comment lines are passed over. The first other line
    /// must be a valid header; each later one must name an edge by a one-based
    /// fixed index and a one-based free index. The graph holds exactly the
    /// edges named, and their distinct count must equal the declared one.
    #[verifier::loop_isolation(false)]
    pub fn build_graph_from_lines(lines: &Vec<Vec<u8>>) -> (r: Result<Graph, GraphError>)
        ensures
            spec_build_from_lines(byte_lines_view(lines@)) matches Err(e) ==> r == Err::<
                Graph,
                GraphError,
            >(e),
            spec_build_from_lines(byte_lines_view(lines@)) matches Ok(t) ==> (r matches Ok(g)
                && g.well_formed() && g.spec_num_fixed() == t.0 && g.spec_num_free() == t.1
                && g.spec_num_nodes() == t.0 + t.1 && g.spec_num_edges() == t.2 && (forall|
                a: usize,
                b: usize,
            |
                a < g.spec_num_nodes() && b < g.spec_num_nodes() ==> (#[trigger] g.spec_edge(a, b)
                    <==> spec_edge_in_items(t.3, a, b)))),
    {
        let ghost lv = byte_lines_view(lines@);
        let h = find_significant(lines);
        if h >= lines.len() {
            return Err(GraphError::ParseError);
        }
        let header = match PLineInfo::build(&lines[h]) {
            Some(info) => info,
            None => {
                return Err(GraphError::ParseError);
            },
        };
        if header.number_of_fixed_nodes > usize::MAX - header.number_of_free_nodes {
            return Err(GraphError::ParseError);
        }
        let mut graph = Graph::new(header.number_of_fixed_nodes, header.number_of_free_nodes);
        let n = graph.number_of_nodes();
        let ghost mut acc: Seq<(usize, usize)> = Seq::empty();
        let mut idx: usize = h + 1;
        while idx < lines.len()
            invariant
                h + 1 <= idx <= lines@.len(),
                graph.well_formed(),
                graph.spec_num_fixed() == header.number_of_fixed_nodes,
                graph.spec_num_free() == header.number_of_free_nodes,
                graph.spec_num_nodes() == n,
                spec_scan_edges(lv, h + 1, header.number_of_fixed_nodes as int, n as int, Seq::empty())
                    == spec_scan_edges(
                    lv,
                    idx as int,
                    header.number_of_fixed_nodes as int,
                    n as int,
                    acc,
                ),
                graph.spec_num_edges() == spec_distinct_edges(acc),
                acc.len() <= idx - h - 1,
                forall|a: usize, b: usize|
                    a < n && b < n ==> (#[trigger] graph.spec_edge(a, b) <==> spec_edge_in_items(
                        acc,
                        a,
                        b,
                    )),
            decreases lines@.len() - idx,
        {
            let line = &lines[idx];
            if line.len() == 0 || line[0] == 99 {
                idx = idx + 1;
                continue ;
            }
            let edge = match GraphBuilder::parse_edge_line(line) {
                Some(e) => e,
                None => {
                    return Err(GraphError::ParseError);
                },
            };
            if edge.0 == 0 || edge.1 == 0 {
                return Err(GraphError::ParseError);
            }
            let a = edge.0 - 1;
            let v0 = edge.1 - 1;
            if a >= n || v0 >= header.number_of_free_nodes {
                return Err(GraphError::IndexError);
            }
            let b = header.number_of_fixed_nodes + v0;
            proof {
                lemma_distinct_edges_le_len(acc);
            }
            let _ = graph.add_edge(a, b);
            proof {
                let p = (a, b);
                let acc2 = acc.push(p);
                assert(acc2.drop_last() =~= acc);
                assert(acc2.last() == p);
                assert forall|x: usize, y: usize|
                    x < n && y < n implies (#[trigger] graph.spec_edge(x, y)
                    <==> spec_edge_in_items(acc2, x, y)) by {
                    lemma_edge_in_items_push(acc, p, x, y);
                }
                assert(spec_distinct_edges(acc2) == spec_distinct_edges(acc) + if a != b
                    && !spec_edge_in_items(acc, a, b) {
                    1int
                } else {
                    0int
                });
                acc = acc2;
            }
            idx = idx + 1;
        }
        if graph.number_of_edges() != header.number_of_edges {
            return Err(GraphError::ParseError);
        }
        Ok(graph)
    }
}

// ---------------------------------------------------------------------------
// Random construction.
// ---------------------------------------------------------------------------

/// Relies on rand's `SliceRandom::shuffle` with the thread-local generator: it
/// permutes the slice in place by swaps, so the multiset of values is kept.
/// Nothing is assumed about the resulting order.
#[verifier::external_body]
fn shuffle_values(values: &mut Vec<usize>)
    ensures
        final(values)@.to_multiset() == old(values)@.to_multiset(),
{
    values.shuffle(&mut rand::thread_rng());
}

/// Relies on rand's `Rng::gen_range` with the thread-local generator: a value
/// drawn from the non-empty range below `bound` lies in it. Nothing is assumed
/// about which value comes back.
#[verifier::external_body]
fn random_below(bound: usize) -> (r: usize)
    requires
        bound >= 1,
    ensures
        r < bound,
{
    rand::thread_rng().gen_range(0..bound)
}

impl GraphBuilder {
    /// Constructs a random graph with as many free as fixed nodes that admits
    /// a drawing without crossings, together with the witness ordering of the
    /// free nodes under which the crossing count is zero.
    ///
    /// Each fixed node `i` is tied to the free nodes at slots `i` and `i + 1`
    /// of a random permutation (the last fixed node to the last slot alone),
    /// so drawing the free layer in permutation order yields no crossings.
    #[verifier::loop_isolation(false)]
    pub fn build_graph_with_fixed_nodes_and_no_crossings(number_of_fixed_nodes: usize) -> (r: (
        Graph,
        Vec<usize>,
    ))
        requires
            number_of_fixed_nodes + number_of_fixed_nodes <= usize::MAX,
        ensures
            r.0.well_formed(),
            r.0.spec_num_fixed() == number_of_fixed_nodes,
            r.0.spec_num_free() == number_of_fixed_nodes,
            r.0.spec_fixed_adjacency_in_free_range(),
            r.0.spec_ordering_valid(r.1@),
            r.0.spec_crossings_for_ordering(r.1@) == 0,
            number_of_fixed_nodes >= 1 ==> r.0.spec_num_edges() == 2 * number_of_fixed_nodes - 1,
            forall|u: usize, x: usize|
                u < number_of_fixed_nodes && x < 2 * number_of_fixed_nodes ==> (
                #[trigger] r.0.spec_edge(u, x) <==> ((u < number_of_fixed_nodes - 1 && (x
                    == r.1@[u as int] || x == r.1@[u as int + 1])) || (u == number_of_fixed_nodes
                    - 1 && x == r.1@[u as int]))),
    {
        let f = number_of_fixed_nodes;
        let mut witness: Vec<usize> = Vec::new();
        let mut m: usize = 0;
        while m < f
            invariant
                m <= f,
                witness@.len() == m,
                forall|t: int| 0 <= t < m ==> witness@[t] == f + t,
            decreases f - m,
        {
            witness.push(f + m);
            m = m + 1;
        }
        let ghost asc = witness@;
        shuffle_values(&mut witness);
        let ghost w = witness@;
        proof {
            broadcast use vstd::seq_lib::group_to_multiset_ensures;

            assert(w.len() == f) by {
                assert(w.to_multiset().len() == w.len());
                assert(asc.to_multiset().len() == asc.len());
            }
            assert forall|x: usize| #[trigger] w.contains(x) implies (f <= x < f + f) by {
                assert(w.to_multiset().count(x) > 0);
                assert(asc.to_multiset().count(x) > 0);
                assert(asc.contains(x));
                let t = choose|t: int| 0 <= t < asc.len() && asc[t] == x;
            }
            assert forall|x: usize| f <= x < f + f implies #[trigger] w.contains(x) by {
                assert(asc[x - f] == x);
                assert(asc.contains(x));
                assert(asc.to_multiset().count(x) > 0);
                assert(w.to_multiset().count(x) > 0);
            }
            assert(asc.no_duplicates());
            asc.lemma_multiset_has_no_duplicates();
            assert forall|x: usize| w.to_multiset().contains(x) implies w.to_multiset().count(x)
                == 1 by {
                assert(asc.to_multiset().contains(x));
            }
            w.lemma_multiset_has_no_duplicates_conv();
        }
        let mut graph = Graph::new(f, f);
        if f == 0 {
            return (graph, witness);
        }
        let mut i: usize = 0;
        while i < f - 1
            invariant
                i <= f - 1,
                graph.well_formed(),
                graph.spec_num_fixed() == f,
                graph.spec_num_free() == f,
                graph.spec_num_nodes() == f + f,
                graph.spec_num_edges() == 2 * i,
                forall|u: usize, x: usize|
                    u < f && x < f + f ==> (#[trigger] graph.spec_edge(u, x) <==> (u < i && (x
                        == w[u as int] || x == w[u as int + 1]))),
            decreases f - 1 - i,
        {
            let neighbor1 = witness[i];
            let neighbor2 = witness[i + 1];
            proof {
                assert(w.contains(w[i as int]));
                assert(w.contains(w[i as int + 1]));
            }
            let _ = graph.add_edge(neighbor1, i);
            let _ = graph.add_edge(neighbor2, i);
            i = i + 1;
        }
        let last_neighbor = witness[f - 1];
        proof {
            assert(w.contains(w[f - 1]));
        }
        let _ = graph.add_edge(last_neighbor, f - 1);
        proof {
            let g = graph;
            assert forall|u: int, k: int|
                0 <= u < g.spec_num_fixed() && 0 <= k < g.spec_adj(u).len() implies g.spec_num_fixed()
                <= #[trigger] g.spec_adj(u)[k] < g.spec_num_nodes() by {
                let x = g.spec_adj(u)[k];
                assert(g.spec_edge(u as usize, x));
                assert(w.contains(x) || x == w[f - 1]);
                if x == w[f - 1] {
                    assert(w.contains(w[f - 1]));
                }
            }
            assert(g.spec_ordering_valid(w));
            let pos = crossing_pos_of_ordering(w);
            assert forall|u: int, k: int|
                0 <= u < g.spec_num_fixed() && 0 <= k < g.spec_adj(u).len() implies u <= pos(
                #[trigger] g.spec_adj(u)[k],
            ) <= u + 1 by {
                let x = g.spec_adj(u)[k];
                assert(g.spec_edge(u as usize, x));
                assert(pos(x) == w.index_of(x));
                if u < f - 1 {
                    if x == w[u] {
                        lemma_index_of_unique(w, u);
                    } else {
                        assert(x == w[u + 1]);
                        lemma_index_of_unique(w, u + 1);
                    }
                } else {
                    assert(x == w[f - 1]);
                    lemma_index_of_unique(w, f - 1);
                }
            }
            lemma_crossings_zero(g, pos);
        }
        (graph, witness)
    }

    /// Constructs a random graph with exactly the requested number of
    /// fixed-to-free edges, drawn by rejection sampling over uniformly random
    /// endpoint pairs.
    ///
    /// Fails with `ValueError` exactly when more edges are requested than
    /// distinct fixed-to-free pairs exist; the feasibility comparison is done
    /// in a wide integer type, so it is never skipped. The random draws are
    /// given a large retry budget; in the (practically unreachable) event that
    /// it runs out, the remaining edges are filled in deterministically, so
    /// the function always terminates with the exact edge count.
    #[verifier::loop_isolation(false)]
    pub fn build_random_graph(
        number_of_fixed_nodes: usize,
        number_of_free_nodes: usize,
        number_of_edges: usize,
    ) -> (r: Result<Graph, GraphError>)
        requires
            number_of_fixed_nodes + number_of_free_nodes <= usize::MAX,
        ensures
            number_of_edges > number_of_fixed_nodes * number_of_free_nodes ==> r == Err::<
                Graph,
                GraphError,
            >(GraphError::ValueError),
            number_of_edges <= number_of_fixed_nodes * number_of_free_nodes ==> (r matches Ok(g)
                && g.well_formed() && g.spec_num_fixed() == number_of_fixed_nodes
                && g.spec_num_free() == number_of_free_nodes && g.spec_num_edges()
                == number_of_edges && (forall|a: usize, b: usize|
                a < g.spec_num_nodes() && b < g.spec_num_nodes() && #[trigger] g.spec_edge(a, b)
                    ==> ((a < number_of_fixed_nodes) != (b < number_of_fixed_nodes)))),
    {
        let f = number_of_fixed_nodes;
        let fr = number_of_free_nodes;
        let e = number_of_edges;
        proof {
            assert((f as u128) * (fr as u128) <= u128::MAX) by (nonlinear_arith)
                requires
                    f <= u64::MAX,
                    fr <= u64::MAX,
            {}
        }
        if (e as u128) > (f as u128) * (fr as u128) {
            return Err(GraphError::ValueError);
        }
        proof {
            if e > 0 {
                assert(f >= 1 && fr >= 1) by (nonlinear_arith)
                    requires
                        e <= f * fr,
                        e > 0,
                        f >= 0,
                        fr >= 0,
                {}
            }
        }
        let mut graph = Graph::new(f, fr);
        if e == 0 {
            return Ok(graph);
        }
        let mut budget: usize = usize::MAX;
        while graph.number_of_edges() < e && budget > 0
            invariant
                graph.well_formed(),
                graph.spec_num_fixed() == f,
                graph.spec_num_free() == fr,
                graph.spec_num_nodes() == f + fr,
                graph.spec_num_edges() <= e,
                forall|a: usize, b: usize|
                    a < f + fr && b < f + fr && #[trigger] graph.spec_edge(a, b) ==> ((a < f) != (b
                        < f)),
            decreases budget,
        {
            let fixed_node_index = random_below(f);
            let free_node_index = f + random_below(fr);
            let _ = graph.add_edge(free_node_index, fixed_node_index);
            budget = budget - 1;
        }
        if graph.number_of_edges() == e {
            return Ok(graph);
        }
        // The retry budget ran out: fill the requested count deterministically,
        // enumerating distinct pairs in order on a fresh graph.
        let mut graph2 = Graph::new(f, fr);
        let mut t: usize = 0;
        while t < e
            invariant
                t <= e,
                graph2.well_formed(),
                graph2.spec_num_fixed() == f,
                graph2.spec_num_free() == fr,
                graph2.spec_num_nodes() == f + fr,
                graph2.spec_num_edges() == t,
                forall|a: usize, b: usize|
                    a < f + fr && b < f + fr ==> (#[trigger] graph2.spec_edge(a, b) <==> ((a < f
                        && f <= b && a * fr + (b - f) < t) || (b < f && f <= a && b * fr + (a - f)
                        < t))),
            decreases e - t,
        {
            let uu = t / fr;
            let off = t % fr;
            let vv = f + off;
            proof {
                assert(t == uu * fr + off && 0 <= off < fr && uu < f) by (nonlinear_arith)
                    requires
                        uu == t as int / fr as int,
                        off == t as int % fr as int,
                        fr >= 1,
                        0 <= t,
                        t < e <= f * fr,
                {}
                assert(!graph2.spec_edge(uu, vv));
            }
            let _ = graph2.add_edge(vv, uu);
            proof {
                assert forall|a: usize, b: usize|
                    a < f + fr && b < f + fr implies (#[trigger] graph2.spec_edge(a, b) <==> ((a
                        < f && f <= b && a * fr + (b - f) < t + 1) || (b < f && f <= a && b * fr + (
                    a - f) < t + 1))) by {
                    if a < f && f <= b && a * fr + (b - f) == t {
                        assert(a == uu && b - f == off) by (nonlinear_arith)
                            requires
                                a * fr + (b - f) == t,
                                uu * fr + off == t,
                                0 <= b - f < fr,
                                0 <= off < fr,
                                a >= 0,
                                uu >= 0,
                                fr >= 1,
                        {}
                    }
                    if b < f && f <= a && b * fr + (a - f) == t {
                        assert(b == uu && a - f == off) by (nonlinear_arith)
                            requires
                                b * fr + (a - f) == t,
                                uu * fr + off == t,
                                0 <= a - f < fr,
                                0 <= off < fr,
                                b >= 0,
                                uu >= 0,
                                fr >= 1,
                        {}
                    }
                }
            }
            t = t + 1;
        }
        Ok(graph2)
    }
}

} // verus!
