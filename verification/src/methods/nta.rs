//! Network topology analysis: the graph, its seeds, and the selection of a
//! neighbourhood from the ranked nodes.
//!
//! The random walk itself runs on real probabilities; the caller runs it on
//! the adjacency matrix built here and hands the probabilities in as keys.

use vstd::prelude::*;
use crate::methods::gsea::count_hits;
use crate::names::index_map_get;
use crate::names::index_names;
use crate::names::index_positions;
use crate::names::finds_first;
use crate::names::first_occurrences;
use crate::names::finds;
use crate::names::lemma_finds_position;
use crate::names::lemma_first_occurrences;
use crate::names::lemma_position_of;
use crate::names::map_indices;
use crate::names::name_set_contains;
use crate::names::name_set_from;
use crate::names::names_of;
use crate::names::position_of;
use crate::names::set_names;
use crate::order::descending_order;
use crate::order::is_descending_order;
use crate::GraphError;
use crate::WebGestaltError;

verus! {

/// How the neighbourhood is chosen from the ranked nodes.
#[derive(Debug, Clone, Copy, PartialEq, Eq, Structural)]
pub enum NTAMethod {
    /// Keep the best seeds, up to this many.
    Prioritize(usize),
    /// Keep the best nodes that are no seeds, up to this many.
    Expand(usize),
}

/// The inputs of an analysis.
#[derive(Debug)]
pub struct NTAConfig {
    /// The edges: each row names two nodes.
    pub edge_list: Vec<Vec<String>>,
    /// The nodes that the walk starts from.
    pub seeds: Vec<String>,
    /// How the neighbourhood is chosen; ten nodes are expanded where none
    /// is given.
    pub method: Option<NTAMethod>,
}

impl Default for NTAConfig {
    fn default() -> (config: NTAConfig)
        ensures
            config.edge_list@.len() == 0,
            config.seeds@.len() == 0,
            config.method is None,
    {
        NTAConfig { edge_list: Vec::new(), seeds: Vec::new(), method: None }
    }
}

/// The outcome of an analysis.
#[derive(Debug)]
pub struct NTAResult {
    /// The chosen nodes, most probable first.
    pub neighborhood: Vec<String>,
    /// Their probability keys.
    pub scores: Vec<i64>,
    /// The chosen seeds short of the last place, when prioritising.
    pub candidates: Vec<String>,
}

/// A graph over densely numbered nodes.
#[derive(Debug)]
pub struct Graph {
    /// The node names; a node's number is its place here.
    pub nodes: Vec<String>,
    /// The edges, as pairs of node numbers.
    pub edges: Vec<(usize, usize)>,
}

/// Every row names at least two nodes.
pub open spec fn complete_rows(edge_list: Seq<Vec<String>>) -> bool {
    forall|r: int| 0 <= r < edge_list.len() ==> (#[trigger] edge_list[r])@.len() >= 2
}

/// The first row that names fewer than two nodes, or the number of rows.
pub open spec fn first_incomplete(edge_list: Seq<Vec<String>>) -> int
    decreases edge_list.len(),
{
    if edge_list.len() == 0 {
        0
    } else {
        let earlier = first_incomplete(edge_list.drop_last());
        if earlier < edge_list.len() - 1 {
            earlier
        } else if edge_list.last()@.len() < 2 {
            edge_list.len() - 1
        } else {
            edge_list.len() as int
        }
    }
}

/// `first_incomplete` is the first row with fewer than two nodes.
pub proof fn lemma_first_incomplete(edge_list: Seq<Vec<String>>)
    ensures
        0 <= first_incomplete(edge_list) <= edge_list.len(),
        first_incomplete(edge_list) < edge_list.len() ==> edge_list[first_incomplete(
            edge_list,
        )]@.len() < 2,
        forall|r: int|
            0 <= r < first_incomplete(edge_list) ==> (#[trigger] edge_list[r])@.len() >= 2,
    decreases edge_list.len(),
{
    if edge_list.len() > 0 {
        let front = edge_list.drop_last();
        lemma_first_incomplete(front);
        assert forall|r: int| 0 <= r < first_incomplete(edge_list) implies (
        #[trigger] edge_list[r])@.len() >= 2 by {
            if r < front.len() {
                assert(front[r] == edge_list[r]);
            }
        }
        if first_incomplete(front) < front.len() {
            assert(front[first_incomplete(front)] == edge_list[first_incomplete(front)]);
        }
    }
}

/// The two nodes of each row, row after row.
pub open spec fn endpoints(edge_list: Seq<Vec<String>>) -> Seq<Seq<char>>
    decreases edge_list.len(),
{
    if edge_list.len() == 0 {
        Seq::empty()
    } else {
        endpoints(edge_list.drop_last()).push(edge_list.last()@[0]@).push(edge_list.last()@[1]@)
    }
}

/// A list of rows has two endpoints for each row, those of row `r` at
/// places `2r` and `2r + 1`.
pub proof fn lemma_endpoints(edge_list: Seq<Vec<String>>)
    ensures
        endpoints(edge_list).len() == 2 * edge_list.len(),
        forall|r: int|
            0 <= r < edge_list.len() ==> endpoints(edge_list)[2 * r] == (
            #[trigger] edge_list[r])@[0]@ && endpoints(edge_list)[2 * r + 1] == edge_list[r]@[1]@,
    decreases edge_list.len(),
{
    if edge_list.len() > 0 {
        let front = edge_list.drop_last();
        lemma_endpoints(front);
        assert forall|r: int| 0 <= r < edge_list.len() implies endpoints(edge_list)[2 * r] == (
        #[trigger] edge_list[r])@[0]@ && endpoints(edge_list)[2 * r + 1]
            == edge_list[r]@[1]@ by {
            if r < front.len() {
                assert(front[r] == edge_list[r]);
            }
        }
    }
}

impl Graph {
    /// The graph is the one that the edge list describes: the nodes are the
    /// names of the list in the order in which they first occur, and each
    /// edge joins the numbers of the two nodes of its row.
    pub open spec fn built_from(&self, edge_list: Seq<Vec<String>>) -> bool {
        &&& names_of(self.nodes@) == first_occurrences(endpoints(edge_list))
        &&& self.edges@.len() == edge_list.len()
        &&& forall|r: int|
            0 <= r < edge_list.len() ==> (#[trigger] self.edges@[r]).0 == position_of(
                names_of(self.nodes@),
                edge_list[r]@[0]@,
            ) && self.edges@[r].1 == position_of(names_of(self.nodes@), edge_list[r]@[1]@)
    }

    /// Every edge joins two nodes of the graph.
    pub open spec fn well_formed(&self) -> bool {
        forall|r: int|
            0 <= r < self.edges@.len() ==> (#[trigger] self.edges@[r]).0 < self.nodes@.len()
                && self.edges@[r].1 < self.nodes@.len()
    }
}

/// Builds the graph of an edge list. Each row must name two nodes; the
/// first row that does not is reported. Names beyond the second of a row
/// are not read.
pub fn build_graph(edge_list: &Vec<Vec<String>>) -> (out: Result<Graph, WebGestaltError>)
    ensures
        match out {
            Ok(graph) => {
                &&& complete_rows(edge_list@)
                &&& graph.built_from(edge_list@)
                &&& graph.well_formed()
            },
            Err(WebGestaltError::GraphError(GraphError::IncompleteEdge { row })) => {
                &&& row < edge_list@.len()
                &&& row == first_incomplete(edge_list@)
            },
            Err(_) => false,
        },
{
    let mut ends: Vec<String> = Vec::new();
    let mut r: usize = 0;
    proof {
        assert(edge_list@.take(0) =~= Seq::<Vec<String>>::empty());
        assert(names_of(ends@) =~= Seq::<Seq<char>>::empty());
    }
    while r < edge_list.len()
        invariant
            r <= edge_list@.len(),
            names_of(ends@) == endpoints(edge_list@.take(r as int)),
            first_incomplete(edge_list@.take(r as int)) == r,
        decreases edge_list@.len() - r,
    {
        let row = &edge_list[r];
        proof {
            assert(edge_list@.take(r + 1).drop_last() =~= edge_list@.take(r as int));
            assert(edge_list@.take(r + 1).last() == edge_list@[r as int]);
        }
        if row.len() < 2 {
            proof {
                lemma_first_incomplete_prefix(edge_list@, r + 1);
            }
            return Err(WebGestaltError::GraphError(GraphError::IncompleteEdge { row: r }));
        }
        let ghost held = names_of(ends@);
        ends.push(row[0].clone());
        ends.push(row[1].clone());
        proof {
            assert(names_of(ends@) =~= held.push(row@[0]@).push(row@[1]@));
        }
        r += 1;
    }
    proof {
        assert(edge_list@.take(edge_list@.len() as int) =~= edge_list@);
        lemma_first_incomplete(edge_list@);
        lemma_endpoints(edge_list@);
        lemma_first_occurrences(endpoints(edge_list@));
    }
    let found = index_names(&ends);
    let mut edges: Vec<(usize, usize)> = Vec::new();
    let mut e: usize = 0;
    while e < edge_list.len()
        invariant
            e <= edge_list@.len(),
            complete_rows(edge_list@),
            names_of(found.names@) == first_occurrences(endpoints(edge_list@)),
            finds(map_indices(found.index), names_of(found.names@)),
            forall|k: int|
                0 <= k < endpoints(edge_list@).len() ==> position_of(
                    first_occurrences(endpoints(edge_list@)),
                    #[trigger] endpoints(edge_list@)[k],
                ) >= 0,
            endpoints(edge_list@).len() == 2 * edge_list@.len(),
            forall|r: int|
                0 <= r < edge_list@.len() ==> endpoints(edge_list@)[2 * r] == (
                #[trigger] edge_list@[r])@[0]@ && endpoints(edge_list@)[2 * r + 1]
                    == edge_list@[r]@[1]@,
            edges@.len() == e,
            forall|r: int|
                0 <= r < e ==> (#[trigger] edges@[r]).0 == position_of(
                    names_of(found.names@),
                    edge_list@[r]@[0]@,
                ) && edges@[r].1 == position_of(names_of(found.names@), edge_list@[r]@[1]@)
                    && edges@[r].0 < found.names@.len() && edges@[r].1 < found.names@.len(),
        decreases edge_list@.len() - e,
    {
        let row = &edge_list[e];
        proof {
            let ends_all = endpoints(edge_list@);
            assert(ends_all[2 * e] == row@[0]@);
            assert(ends_all[2 * e + 1] == row@[1]@);
            assert(position_of(first_occurrences(ends_all), ends_all[2 * e]) >= 0);
            assert(position_of(first_occurrences(ends_all), ends_all[2 * e + 1]) >= 0);
            lemma_finds_position(map_indices(found.index), names_of(found.names@), row@[0]@);
            lemma_finds_position(map_indices(found.index), names_of(found.names@), row@[1]@);
            lemma_position_of(names_of(found.names@), row@[0]@);
            lemma_position_of(names_of(found.names@), row@[1]@);
        }
        let a = index_map_get(&found.index, &row[0]);
        let b = index_map_get(&found.index, &row[1]);
        match (a, b) {
            (Some(x), Some(y)) => {
                edges.push((x, y));
            },
            _ => {
                proof {
                    assert(false);
                }
            },
        }
        e += 1;
    }
    Ok(Graph { nodes: found.names, edges })
}

/// The first incomplete row of a list is that of any prefix that holds
/// one.
pub proof fn lemma_first_incomplete_prefix(edge_list: Seq<Vec<String>>, upto: int)
    requires
        0 <= upto <= edge_list.len(),
        first_incomplete(edge_list.take(upto)) < upto,
    ensures
        first_incomplete(edge_list) == first_incomplete(edge_list.take(upto)),
    decreases edge_list.len() - upto,
{
    if upto < edge_list.len() {
        assert(edge_list.take(upto + 1).drop_last() =~= edge_list.take(upto));
        lemma_first_incomplete_prefix(edge_list, upto + 1);
    } else {
        assert(edge_list.take(upto) =~= edge_list);
    }
}

/// The first seed that is no node, or the number of seeds.
pub open spec fn first_unknown(nodes: Seq<Seq<char>>, seeds: Seq<String>) -> int
    decreases seeds.len(),
{
    if seeds.len() == 0 {
        0
    } else {
        let earlier = first_unknown(nodes, seeds.drop_last());
        if earlier < seeds.len() - 1 {
            earlier
        } else if position_of(nodes, seeds.last()@) < 0 {
            seeds.len() - 1
        } else {
            seeds.len() as int
        }
    }
}

/// `first_unknown` is the first seed that is no node.
pub proof fn lemma_first_unknown(nodes: Seq<Seq<char>>, seeds: Seq<String>)
    ensures
        0 <= first_unknown(nodes, seeds) <= seeds.len(),
        first_unknown(nodes, seeds) < seeds.len() ==> position_of(
            nodes,
            seeds[first_unknown(nodes, seeds)]@,
        ) < 0,
        forall|k: int|
            0 <= k < first_unknown(nodes, seeds) ==> position_of(nodes, (#[trigger] seeds[k])@)
                >= 0,
    decreases seeds.len(),
{
    if seeds.len() > 0 {
        let front = seeds.drop_last();
        lemma_first_unknown(nodes, front);
        assert forall|k: int| 0 <= k < first_unknown(nodes, seeds) implies position_of(
            nodes,
            (#[trigger] seeds[k])@,
        ) >= 0 by {
            if k < front.len() {
                assert(front[k] == seeds[k]);
            }
        }
        if first_unknown(nodes, front) < front.len() {
            assert(front[first_unknown(nodes, front)] == seeds[first_unknown(nodes, front)]);
        }
    }
}

/// The first unknown seed of a list is that of any prefix that holds one.
pub proof fn lemma_first_unknown_prefix(nodes: Seq<Seq<char>>, seeds: Seq<String>, upto: int)
    requires
        0 <= upto <= seeds.len(),
        first_unknown(nodes, seeds.take(upto)) < upto,
    ensures
        first_unknown(nodes, seeds) == first_unknown(nodes, seeds.take(upto)),
    decreases seeds.len() - upto,
{
    if upto < seeds.len() {
        assert(seeds.take(upto + 1).drop_last() =~= seeds.take(upto));
        lemma_first_unknown_prefix(nodes, seeds, upto + 1);
    } else {
        assert(seeds.take(upto) =~= seeds);
    }
}

/// Finds the node numbers of the seeds. A seed that is no node of the
/// graph is an error; the first such seed is reported.
pub fn seed_indices(
    nodes: &Vec<String>,
    seeds: &Vec<String>,
) -> (out: Result<Vec<usize>, WebGestaltError>)
    ensures
        match out {
            Ok(indices) => {
                &&& indices@.len() == seeds@.len()
                &&& forall|k: int|
                    0 <= k < seeds@.len() ==> (#[trigger] indices@[k]) == position_of(
                        names_of(nodes@),
                        seeds@[k]@,
                    ) && indices@[k] < nodes@.len()
            },
            Err(WebGestaltError::GraphError(GraphError::UnknownSeed { seed })) => {
                &&& first_unknown(names_of(nodes@), seeds@) < seeds@.len()
                &&& seed@ == seeds@[first_unknown(names_of(nodes@), seeds@)]@
            },
            Err(_) => false,
        },
{
    let index = index_positions(nodes);
    let ghost names = names_of(nodes@);
    let mut indices: Vec<usize> = Vec::new();
    let mut k: usize = 0;
    proof {
        assert(seeds@.take(0) =~= Seq::<String>::empty());
    }
    while k < seeds.len()
        invariant
            k <= seeds@.len(),
            names == names_of(nodes@),
            finds_first(map_indices(index), names),
            first_unknown(names, seeds@.take(k as int)) == k,
            indices@.len() == k,
            forall|j: int|
                0 <= j < k ==> (#[trigger] indices@[j]) == position_of(names, seeds@[j]@)
                    && indices@[j] < nodes@.len(),
        decreases seeds@.len() - k,
    {
        let seed = &seeds[k];
        proof {
            assert(seeds@.take(k + 1).drop_last() =~= seeds@.take(k as int));
            assert(seeds@.take(k + 1).last() == seeds@[k as int]);
            assert(map_indices(index).dom().contains(seed@) <==> position_of(names, seed@) >= 0);
            lemma_position_of(names, seed@);
        }
        match index_map_get(&index, seed) {
            Some(at) => {
                proof {
                    assert(names.len() == nodes@.len());
                    assert(at == position_of(names, seed@));
                    assert(0 <= position_of(names, seed@) < names.len());
                }
                let ghost before = indices@;
                indices.push(at);
                proof {
                    assert forall|j: int| 0 <= j < k + 1 implies (#[trigger] indices@[j])
                        == position_of(names, seeds@[j]@) && indices@[j] < nodes@.len() by {
                        if j < k {
                            assert(before[j] == indices@[j]);
                        }
                    }
                }
            },
            None => {
                proof {
                    lemma_first_unknown_prefix(names, seeds@, k + 1);
                }
                return Err(
                    WebGestaltError::GraphError(GraphError::UnknownSeed { seed: seed.clone() }),
                );
            },
        }
        k += 1;
    }
    proof {
        assert(seeds@.take(seeds@.len() as int) =~= seeds@);
    }
    Ok(indices)
}

/// Some edge joins the nodes `a` and `b`, in either direction.
pub open spec fn joined(edges: Seq<(usize, usize)>, a: int, b: int) -> bool {
    exists|e: int|
        0 <= e < edges.len() && ((#[trigger] edges[e]) == (a as usize, b as usize) || edges[e] == (
            b as usize,
            a as usize,
        ))
}

/// The matrix is the adjacency matrix of the edges over `n` nodes.
pub open spec fn is_adjacency(matrix: Seq<Vec<bool>>, n: nat, edges: Seq<(usize, usize)>) -> bool {
    &&& matrix.len() == n
    &&& forall|a: int| 0 <= a < n ==> (#[trigger] matrix[a])@.len() == n
    &&& forall|a: int, b: int|
        0 <= a < n && 0 <= b < n ==> (#[trigger] matrix[a]@[b]) == joined(edges, a, b)
}

/// An adjacency matrix is symmetric: edges have no direction.
pub proof fn lemma_adjacency_symmetric(
    matrix: Seq<Vec<bool>>,
    n: nat,
    edges: Seq<(usize, usize)>,
    a: int,
    b: int,
)
    requires
        is_adjacency(matrix, n, edges),
        0 <= a < n,
        0 <= b < n,
    ensures
        matrix[a]@[b] == matrix[b]@[a],
{
    if joined(edges, a, b) {
        let e = choose|e: int|
            0 <= e < edges.len() && ((#[trigger] edges[e]) == (a as usize, b as usize) || edges[e]
                == (b as usize, a as usize));
        assert(joined(edges, b, a));
    }
    if joined(edges, b, a) {
        let e = choose|e: int|
            0 <= e < edges.len() && ((#[trigger] edges[e]) == (b as usize, a as usize) || edges[e]
                == (a as usize, b as usize));
        assert(joined(edges, a, b));
    }
}

impl Graph {
    /// The adjacency matrix: the entry of two nodes tells whether an edge
    /// joins them. The matrix is symmetric.
    pub fn adjacency(&self) -> (matrix: Vec<Vec<bool>>)
        requires
            self.well_formed(),
        ensures
            is_adjacency(matrix@, self.nodes@.len() as nat, self.edges@),
    {
        let n = self.nodes.len();
        let mut matrix: Vec<Vec<bool>> = Vec::new();
        let mut a: usize = 0;
        while a < n
            invariant
                a <= n,
                matrix@.len() == a,
                forall|x: int| 0 <= x < a ==> (#[trigger] matrix@[x])@.len() == n,
                forall|x: int, y: int| 0 <= x < a && 0 <= y < n ==> !(#[trigger] matrix@[x]@[y]),
            decreases n - a,
        {
            let mut row: Vec<bool> = Vec::new();
            let mut b: usize = 0;
            while b < n
                invariant
                    b <= n,
                    row@.len() == b,
                    forall|y: int| 0 <= y < b ==> !(#[trigger] row@[y]),
                decreases n - b,
            {
                row.push(false);
                b += 1;
            }
            matrix.push(row);
            a += 1;
        }
        let mut e: usize = 0;
        while e < self.edges.len()
            invariant
                e <= self.edges@.len(),
                n == self.nodes@.len(),
                self.well_formed(),
                matrix@.len() == n,
                forall|x: int| 0 <= x < n ==> (#[trigger] matrix@[x])@.len() == n,
                forall|x: int, y: int|
                    0 <= x < n && 0 <= y < n ==> (#[trigger] matrix@[x]@[y]) == joined(
                        self.edges@.take(e as int),
                        x,
                        y,
                    ),
            decreases self.edges@.len() - e,
        {
            let (p, q) = self.edges[e];
            let ghost before = matrix@;
            let ghost seen = self.edges@.take(e as int);
            let ghost grown = self.edges@.take(e + 1);
            matrix[p].set(q, true);
            matrix[q].set(p, true);
            proof {
                assert(grown[e as int] == (p, q));
                assert forall|x: int, y: int| 0 <= x < n && 0 <= y < n implies (
                #[trigger] matrix@[x]@[y]) == joined(grown, x, y) by {
                    if joined(seen, x, y) {
                        let w = choose|w: int|
                            0 <= w < seen.len() && ((#[trigger] seen[w]) == (x as usize, y as usize)
                                || seen[w] == (y as usize, x as usize));
                        assert(grown[w] == seen[w]);
                    }
                    if joined(grown, x, y) {
                        let w = choose|w: int|
                            0 <= w < grown.len() && ((#[trigger] grown[w]) == (
                                x as usize,
                                y as usize,
                            ) || grown[w] == (y as usize, x as usize));
                        if w < e {
                            assert(seen[w] == grown[w]);
                        }
                    }
                    assert(before[x]@[y] == joined(seen, x, y));
                }
            }
            e += 1;
        }
        proof {
            assert(self.edges@.take(self.edges@.len() as int) =~= self.edges@);
        }
        matrix
    }
}

/// The number of neighbours of each node: the marks in its row of the
/// adjacency matrix.
pub fn degrees(matrix: &Vec<Vec<bool>>) -> (degree: Vec<usize>)
    ensures
        degree@.len() == matrix@.len(),
        forall|a: int|
            0 <= a < matrix@.len() ==> (#[trigger] degree@[a]) == count_hits(
                matrix@[a]@,
                matrix@[a]@.len() as int,
            ),
{
    let mut degree: Vec<usize> = Vec::new();
    let mut a: usize = 0;
    while a < matrix.len()
        invariant
            a <= matrix@.len(),
            degree@.len() == a,
            forall|x: int|
                0 <= x < a ==> (#[trigger] degree@[x]) == count_hits(
                    matrix@[x]@,
                    matrix@[x]@.len() as int,
                ),
        decreases matrix@.len() - a,
    {
        let row = &matrix[a];
        let mut count: usize = 0;
        let mut b: usize = 0;
        while b < row.len()
            invariant
                b <= row@.len(),
                count == count_hits(row@, b as int),
                count <= b,
            decreases row@.len() - b,
        {
            if row[b] {
                count += 1;
            }
            b += 1;
        }
        degree.push(count);
        a += 1;
    }
    degree
}

/// A node with its probability key.
#[derive(Debug)]
pub struct NodeScore {
    pub node: String,
    pub score: i64,
}

/// The names and keys of ranked nodes, as characters and numbers.
pub open spec fn node_scores(ranked: Seq<NodeScore>) -> Seq<(Seq<char>, i64)> {
    Seq::new(ranked.len(), |i: int| (ranked[i].node@, ranked[i].score))
}

/// `ranked` lists the nodes with their probabilities, most probable first,
/// nodes of equal probability by their number.
pub open spec fn is_ranking(
    nodes: Seq<String>,
    probabilities: Seq<i64>,
    ranked: Seq<NodeScore>,
) -> bool {
    exists|order: Seq<usize>| #[trigger]
        is_descending_order(probabilities, order) && ranked.len() == order.len() && forall|i: int|
            0 <= i < ranked.len() ==> (#[trigger] ranked[i]).node@ == nodes[order[i] as int]@
                && ranked[i].score == probabilities[order[i] as int]
}

/// Ranks the nodes by the probability that the walk gave each of them,
/// most probable first.
pub fn process_nta(nodes: &Vec<String>, probabilities: &Vec<i64>) -> (ranked: Vec<NodeScore>)
    requires
        nodes@.len() == probabilities@.len(),
    ensures
        is_ranking(nodes@, probabilities@, ranked@),
        ranked@.len() == nodes@.len(),
{
    let order = descending_order(probabilities);
    let n = order.len();
    let mut ranked: Vec<NodeScore> = Vec::new();
    let mut i: usize = 0;
    while i < n
        invariant
            i <= n,
            n == order@.len(),
            n == nodes@.len(),
            n == probabilities@.len(),
            is_descending_order(probabilities@, order@),
            ranked@.len() == i,
            forall|j: int|
                0 <= j < i ==> (#[trigger] ranked@[j]).node@ == nodes@[order@[j] as int]@
                    && ranked@[j].score == probabilities@[order@[j] as int],
        decreases n - i,
    {
        let at = order[i];
        ranked.push(NodeScore { node: nodes[at].clone(), score: probabilities[at] });
        i += 1;
    }
    ranked
}

/// The ranked nodes among the first `upto` that are seeds, or that are no
/// seeds, in their order.
pub open spec fn kept(
    ranked: Seq<(Seq<char>, i64)>,
    seeds: Set<Seq<char>>,
    keep_seeds: bool,
    upto: int,
) -> Seq<(Seq<char>, i64)>
    decreases upto,
{
    if upto <= 0 {
        Seq::empty()
    } else {
        let earlier = kept(ranked, seeds, keep_seeds, upto - 1);
        if seeds.contains(ranked[upto - 1].0) == keep_seeds {
            earlier.push(ranked[upto - 1])
        } else {
            earlier
        }
    }
}

/// The first `n` entries of a list, or all of it where it has fewer.
pub open spec fn clip<T>(s: Seq<T>, n: int) -> Seq<T> {
    if n <= 0 {
        Seq::empty()
    } else if n >= s.len() {
        s
    } else {
        s.take(n)
    }
}

/// The size and the side that a method asks for; ten nodes that are no
/// seeds where no method is given.
pub open spec fn method_size(method: Option<NTAMethod>) -> (usize, bool) {
    match method {
        Some(NTAMethod::Prioritize(size)) => (size, true),
        Some(NTAMethod::Expand(size)) => (size, false),
        None => (10, false),
    }
}

impl NTAResult {
    /// The result is the selection that the method makes from the ranking.
    pub open spec fn selects(
        &self,
        ranked: Seq<(Seq<char>, i64)>,
        seeds: Set<Seq<char>>,
        method: Option<NTAMethod>,
    ) -> bool {
        let (size, keep_seeds) = method_size(method);
        let chosen = clip(kept(ranked, seeds, keep_seeds, ranked.len() as int), size as int);
        &&& names_of(self.neighborhood@) == Seq::new(chosen.len(), |i: int| chosen[i].0)
        &&& self.scores@ == Seq::new(chosen.len(), |i: int| chosen[i].1)
        &&& names_of(self.candidates@) == (if keep_seeds {
            clip(names_of(self.neighborhood@), size - 1)
        } else {
            Seq::empty()
        })
    }
}

/// Chooses the neighbourhood from the ranked nodes, by the seeds and the
/// method of the configuration. `Prioritize(k)` keeps
/// the first `k` seeds of the ranking, and names as candidates those of them
/// that stand before place `k`; `Expand(k)` keeps the first `k` nodes that
/// are no seeds, and names no candidates. Without a method ten nodes are
/// expanded.
pub fn get_nta(config: &NTAConfig, ranked: &Vec<NodeScore>) -> (result: NTAResult)
    ensures
        result.selects(node_scores(ranked@), names_of(config.seeds@).to_set(), config.method),
        result.neighborhood@.len() <= method_size(config.method).0,
        result.scores@.len() == result.neighborhood@.len(),
{
    let seeds = &config.seeds;
    let method = config.method;
    let (size, keep_seeds) = match method {
        Some(NTAMethod::Prioritize(size)) => (size, true),
        Some(NTAMethod::Expand(size)) => (size, false),
        None => (10usize, false),
    };
    let seed_set = name_set_from(seeds);
    let ghost all = node_scores(ranked@);
    let ghost seed_names = names_of(seeds@).to_set();
    let mut neighborhood: Vec<String> = Vec::new();
    let mut scores: Vec<i64> = Vec::new();
    let mut candidates: Vec<String> = Vec::new();
    let mut i: usize = 0;
    proof {
        assert(names_of(neighborhood@) =~= Seq::<Seq<char>>::empty());
        assert(names_of(candidates@) =~= Seq::<Seq<char>>::empty());
    }
    while i < ranked.len()
        invariant
            i <= ranked@.len(),
            all == node_scores(ranked@),
            seed_names == names_of(seeds@).to_set(),
            set_names(seed_set) == seed_names,
            (size, keep_seeds) == method_size(method),
            ({
                let chosen = clip(kept(all, seed_names, keep_seeds, i as int), size as int);
                &&& names_of(neighborhood@) == Seq::new(chosen.len(), |j: int| chosen[j].0)
                &&& scores@ == Seq::new(chosen.len(), |j: int| chosen[j].1)
                &&& names_of(candidates@) == (if keep_seeds {
                    clip(names_of(neighborhood@), size - 1)
                } else {
                    Seq::empty()
                })
            }),
            neighborhood@.len() <= size,
            scores@.len() == neighborhood@.len(),
        decreases ranked@.len() - i,
    {
        let entry = &ranked[i];
        let is_seed = name_set_contains(&seed_set, &entry.node);
        let ghost before = kept(all, seed_names, keep_seeds, i as int);
        let ghost old_names = names_of(neighborhood@);
        let ghost old_candidates = names_of(candidates@);
        proof {
            assert(all[i as int] == (entry.node@, entry.score));
        }
        if is_seed == keep_seeds && neighborhood.len() < size {
            neighborhood.push(entry.node.clone());
            scores.push(entry.score);
            if keep_seeds && neighborhood.len() < size {
                candidates.push(entry.node.clone());
                proof {
                    assert(names_of(candidates@) =~= old_candidates.push(entry.node@));
                }
            }
            proof {
                let now = before.push(all[i as int]);
                let chosen = clip(now, size as int);
                assert(names_of(neighborhood@) =~= old_names.push(entry.node@));
                assert(chosen =~= clip(before, size as int).push(all[i as int]));
                assert(names_of(neighborhood@) =~= Seq::new(chosen.len(), |j: int| chosen[j].0));
                assert(scores@ =~= Seq::new(chosen.len(), |j: int| chosen[j].1));
                if keep_seeds {
                    assert(names_of(candidates@) =~= clip(names_of(neighborhood@), size - 1));
                }
            }
        } else {
            proof {
                if is_seed == keep_seeds {
                    let now = before.push(all[i as int]);
                    assert(clip(now, size as int) =~= clip(before, size as int));
                }
            }
        }
        i += 1;
    }
    NTAResult { neighborhood, scores, candidates }
}

} // verus!
