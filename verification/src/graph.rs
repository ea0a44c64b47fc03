//! A directed graph as a square grid of booleans, drawn at random: the cell
//! in row `from` and column `to` tells whether an edge leads from `from` to `to`.

use vstd::prelude::*;
use rand::rngs::ThreadRng;
use rand::Rng;

verus! {

#[verifier::external_type_specification]
#[verifier::external_body]
pub struct ExThreadRng(rand::rngs::ThreadRng);

/// The random number generator of the running thread.
///
/// Rests on `rand::thread_rng`, which hands out a handle to the generator
/// that the thread keeps, and seeds that generator from the system on first
/// use; nothing is said of its state.
#[verifier::external_body]
fn thread_generator() -> ThreadRng {
    rand::thread_rng()
}

/// A boolean drawn from `rng`.
///
/// Rests on `Rng::gen`, which samples a value of the asked type; of a random
/// boolean nothing holds but that it is one.
#[verifier::external_body]
fn random_bool(rng: &mut ThreadRng) -> bool {
    rng.gen()
}

/// A directed graph over the nodes `0..nodes`.
#[derive(Debug)]
pub struct Graph {
    nodes: usize,
    matrix: Vec<Vec<bool>>,
}

/// Whether `(a, b)` comes before `(c, d)` when the rows are read one after another.
pub open spec fn reads_before(a: (usize, usize), b: (usize, usize)) -> bool {
    a.0 < b.0 || (a.0 == b.0 && a.1 < b.1)
}

impl Graph {
    /// The number of nodes.
    pub closed spec fn spec_nodes(&self) -> nat {
        self.nodes as nat
    }

    /// The rows of the adjacency grid.
    pub closed spec fn rows(&self) -> Seq<Vec<bool>> {
        self.matrix@
    }

    /// The grid has a row for each node, and each row a cell for each node.
    pub open spec fn wf(&self) -> bool {
        &&& self.rows().len() == self.spec_nodes()
        &&& forall|r: int| 0 <= r < self.rows().len() ==> (#[trigger] self.rows()[r])@.len()
            == self.spec_nodes()
    }

    /// Whether an edge leads from `from` to `to`.
    pub open spec fn connects(&self, from: int, to: int) -> bool {
        &&& 0 <= from < self.spec_nodes()
        &&& 0 <= to < self.spec_nodes()
        &&& self.rows()[from]@[to]
    }

    /// Whether `edges` lists the edges among the first `rows` rows and, in
    /// the row behind them, among the first `cols` columns: each once, in the
    /// order in which the rows are read.
    pub open spec fn lists(&self, edges: Seq<(usize, usize)>, rows: int, cols: int) -> bool {
        &&& forall|n: int|
            0 <= n < edges.len() ==> self.connects(
                (#[trigger] edges[n]).0 as int,
                edges[n].1 as int,
            ) && (edges[n].0 < rows || (edges[n].0 == rows && edges[n].1 < cols))
        &&& forall|m: int, n: int|
            0 <= m < n < edges.len() ==> reads_before(#[trigger] edges[m], #[trigger] edges[n])
        &&& forall|from: int, to: int|
            self.connects(from, to) && (from < rows || (from == rows && to < cols))
                ==> #[trigger] edges.contains((from as usize, to as usize))
    }

    /// A graph over `nodes` nodes in which every edge is there or not at random.
    pub fn new(nodes: usize) -> (graph: Graph)
        ensures
            graph.wf(),
            graph.spec_nodes() == nodes,
    {
        let mut rng = thread_generator();
        let mut matrix: Vec<Vec<bool>> = Vec::new();
        while matrix.len() < nodes
            invariant
                matrix@.len() <= nodes,
                forall|r: int| 0 <= r < matrix@.len() ==> (#[trigger] matrix@[r])@.len() == nodes,
            decreases nodes - matrix@.len(),
        {
            let mut row: Vec<bool> = Vec::new();
            while row.len() < nodes
                invariant
                    row@.len() <= nodes,
                decreases nodes - row@.len(),
            {
                row.push(random_bool(&mut rng));
            }
            matrix.push(row);
        }
        Graph { nodes, matrix }
    }

    /// The number of nodes.
    pub fn get_nodes(&self) -> (nodes: usize)
        ensures
            nodes == self.spec_nodes(),
    {
        self.nodes
    }

    /// The rows of the adjacency grid.
    pub fn get_matrix(&self) -> (matrix: &Vec<Vec<bool>>)
        ensures
            matrix@ == self.rows(),
    {
        &self.matrix
    }

    /// The edges, each as its source and its target, in the order in which
    /// the rows of the grid are read.
    pub fn edges(&self) -> (edges: Vec<(usize, usize)>)
        requires
            self.wf(),
        ensures
            self.lists(edges@, self.spec_nodes() as int, 0),
    {
        let mut edges: Vec<(usize, usize)> = Vec::new();
        let mut from: usize = 0;
        while from < self.nodes
            invariant
                self.wf(),
                from <= self.nodes,
                self.lists(edges@, from as int, 0),
            decreases self.nodes - from,
        {
            let mut to: usize = 0;
            while to < self.nodes
                invariant
                    self.wf(),
                    from < self.nodes,
                    to <= self.nodes,
                    self.lists(edges@, from as int, to as int),
                decreases self.nodes - to,
            {
                let ghost before = edges@;
                if self.matrix[from][to] {
                    edges.push((from, to));
                    proof {
                        assert(edges@.last() == (from, to));
                        assert forall|a: int, b: int|
                            self.connects(a, b) && (a < from || (a == from && b < to + 1))
                            implies #[trigger] edges@.contains((a as usize, b as usize)) by {
                            if a == from && b == to {
                                assert(edges@[edges@.len() - 1] == (from, to));
                            } else {
                                assert(before.contains((a as usize, b as usize)));
                                let n = choose|n: int|
                                    0 <= n < before.len() && before[n] == (a as usize, b as usize);
                                assert(edges@[n] == before[n]);
                            }
                        }
                        assert forall|m: int, n: int| 0 <= m < n < edges@.len() implies reads_before(
                            #[trigger] edges@[m],
                            #[trigger] edges@[n],
                        ) by {
                            if n < before.len() {
                                assert(reads_before(before[m], before[n]));
                            } else {
                                assert(edges@[m] == before[m]);
                            }
                        }
                        assert forall|n: int| 0 <= n < edges@.len() implies self.connects(
                            (#[trigger] edges@[n]).0 as int,
                            edges@[n].1 as int,
                        ) && (edges@[n].0 < from || (edges@[n].0 == from && edges@[n].1 < to + 1)) by {
                            if n < before.len() {
                                assert(edges@[n] == before[n]);
                            }
                        }
                    }
                }
                to += 1;
            }
            from += 1;
        }
        edges
    }
}

} // verus!
