//! The k²-tree: a grid stored as the breadth-first list of its uniform
//! quadrants, and read without rebuilding the grid.

pub mod model;
pub mod proofs;
pub mod filling;
pub mod laws;

use vstd::prelude::*;
use std::collections::VecDeque;
use crate::k2tree::filling::{
    lemma_fill_start, lemma_level_end, lemma_level_turn, lemma_take_block, lemma_write_leaf,
    lemma_write_node, queued, written,
};
use crate::k2tree::model::{
    first, is_next_pow, is_power_of, kid, level_next, level_nodes, lookup, next_power, power_from,
    root, tree_leaf, tree_nodes, uniform, walk, Block,
};
use crate::k2tree::proofs::{
    lemma_level_down, lemma_level_kids_at, lemma_level_len, lemma_level_start, lemma_next_power,
    lemma_part, lemma_power_from, lemma_power_step, lemma_round_trip, lemma_slot, lemma_step,
    level_state,
};
use crate::matrix::{GridView, Matrix, Submatrix};
use crate::sequence::Sequence;
use crate::value::{clone_is_exact, duplicate, eq_is_exact, lemma_option_eq_is_exact};

verus! {

/// The longer of the two sides of a grid.
pub open spec fn longer_side<T>(g: GridView<T>) -> nat {
    if g.rows > g.cols {
        g.rows
    } else {
        g.cols
    }
}

/// Whether the window `sub` of `m` spans exactly the block `b`.
pub open spec fn frames<T>(sub: Submatrix<T>, m: Matrix<T>, b: Block) -> bool {
    &&& b.size >= 1
    &&& sub.spans(m, b.row as int, b.row + b.size - 1, b.col as int, b.col + b.size - 1)
}

/// A window that spans a block is uniform exactly when the block is.
pub proof fn lemma_uniform_window<T>(sub: Submatrix<T>, m: Matrix<T>, b: Block)
    requires
        frames(sub, m, b),
    ensures
        sub.is_uniform() == uniform(m@, b),
        sub.at(0, 0) == first(m@, b),
{
    let g = m@;
    if sub.is_uniform() {
        assert forall|i: int, j: int| b.holds(i, j) implies #[trigger] g.at(i, j) == first(
            g,
            b,
        ) by {
            assert(sub.holds(i - b.row, j - b.col));
            assert(sub.at(i - b.row, j - b.col) == sub.at(0, 0));
        }
    }
    if uniform(g, b) {
        assert forall|i: int, j: int| sub.holds(i, j) implies #[trigger] sub.at(i, j) == sub.at(
            0,
            0,
        ) by {
            assert(b.holds(b.row + i, b.col + j));
            assert(g.at(b.row + i, b.col + j) == first(g, b));
        }
    }
}

/// The smallest power of `base` that is at least `n`.
pub fn next_pow(base: usize, n: usize) -> (p: usize)
    requires
        base >= 2,
        next_power(base as nat, n as nat) <= usize::MAX,
    ensures
        p == next_power(base as nat, n as nat),
        is_next_pow(base as nat, n as nat, p as nat),
{
    let mut p: usize = 1;
    proof {
        lemma_next_power(base as nat, n as nat);
    }
    while p < n
        invariant
            base >= 2,
            p >= 1,
            is_power_of(base as nat, p as nat),
            power_from(base as nat, n as nat, p as nat) == next_power(base as nat, n as nat),
            next_power(base as nat, n as nat) <= usize::MAX,
            p == 1 || (p as nat) / (base as nat) < (n as nat),
        decreases
                if p < n {
                    n - p
                } else {
                    0
                },
    {
        proof {
            lemma_power_step(base as nat, p as nat);
            lemma_power_from(base as nat, n as nat, (p * base) as nat);
        }
        p = p * base;
    }
    p
}

/// A grid as a tree: the node entries of its quadrants in breadth-first
/// order, where `None` marks a quadrant that is divided further, and the
/// values of the quadrants that are single cells.
#[derive(Debug)]
pub struct K2tree<T> {
    rows: usize,
    columns: usize,
    virtual_rows: usize,
    virtual_cols: usize,
    k: usize,
    nodes: Sequence<Option<T>>,
    leaf: Vec<T>,
}

impl<T: PartialEq + Clone> K2tree<T> {
    /// The number of rows of the grid.
    pub closed spec fn spec_rows(&self) -> nat {
        self.rows as nat
    }

    /// The number of columns of the grid.
    pub closed spec fn spec_cols(&self) -> nat {
        self.columns as nat
    }

    /// The side of the square that the tree is built over.
    pub closed spec fn spec_size(&self) -> nat {
        self.virtual_rows as nat
    }

    /// The branching factor.
    pub closed spec fn spec_k(&self) -> nat {
        self.k as nat
    }

    /// The node entries.
    pub closed spec fn nodes(&self) -> Sequence<Option<T>> {
        self.nodes
    }

    /// The leaf entries.
    pub closed spec fn leaf(&self) -> Seq<T> {
        self.leaf@
    }

    /// The two recorded sides of the square are the same.
    pub closed spec fn square(&self) -> bool {
        self.virtual_rows == self.virtual_cols
    }

    /// Whether the entries are those of the tree over `g`.
    pub open spec fn encodes(&self, g: GridView<T>) -> bool {
        &&& g.wf()
        &&& g.rows == self.spec_rows()
        &&& g.cols == self.spec_cols()
        &&& is_next_pow(self.spec_k(), longer_side(g), self.spec_size())
        &&& self.nodes()@ == tree_nodes(g, self.spec_k(), self.spec_size())
        &&& self.leaf() == tree_leaf(g, self.spec_k(), self.spec_size())
    }

    /// The entries are those of the tree over some grid, and the node entries
    /// count the markers.
    pub open spec fn wf(&self) -> bool {
        &&& self.square()
        &&& self.nodes().wf()
        &&& self.nodes().spec_target() == None::<T>
        &&& exists|g: GridView<T>| self.encodes(g)
    }

    /// The value that the entries give for the cell `(i, j)`.
    pub open spec fn spec_get(&self, i: int, j: int) -> T {
        lookup(self.nodes()@, self.leaf(), self.spec_k(), self.spec_size(), i as nat, j as nat)
    }

    /// The value that a tree gives for a cell of the grid it encodes is the
    /// value of that cell.
    pub proof fn lemma_get_is_cell(&self, g: GridView<T>, i: int, j: int)
        requires
            self.encodes(g),
            0 <= i < self.spec_rows(),
            0 <= j < self.spec_cols(),
        ensures
            self.spec_get(i, j) == g.at(i, j),
    {
        lemma_round_trip(g, self.spec_k(), self.spec_size(), i as nat, j as nat);
    }

    /// Whether the tree has no entry yet and is laid out for `matrix`.
    pub open spec fn awaits(&self, matrix: Matrix<T>) -> bool {
        &&& self.square()
        &&& self.nodes().wf()
        &&& self.nodes().spec_target() == None::<T>
        &&& self.nodes()@.len() == 0
        &&& self.leaf().len() == 0
        &&& matrix.wf()
        &&& matrix@.rows == self.spec_rows()
        &&& matrix@.cols == self.spec_cols()
        &&& matrix.spec_virtual_rows() == self.spec_size()
        &&& matrix.spec_virtual_cols() == self.spec_size()
        &&& is_next_pow(self.spec_k(), longer_side(matrix@), self.spec_size())
    }

    /// The tree over `matrix` with the branching factor `k`.
    pub fn new(matrix: Matrix<T>, k: usize) -> (tree: K2tree<T>)
        requires
            eq_is_exact::<T>(),
            clone_is_exact::<T>(),
            matrix.wf(),
            k >= 2,
            next_power(k as nat, longer_side(matrix@)) <= usize::MAX,
        ensures
            tree.wf(),
            tree.encodes(matrix@),
            tree.spec_k() == k,
            tree.spec_size() == next_power(k as nat, longer_side(matrix@)),
    {
        let rows: usize = matrix.get_rows();
        let columns: usize = matrix.get_columns();
        let longer: usize = if rows > columns {
            rows
        } else {
            columns
        };
        let size: usize = next_pow(k, longer);
        proof {
            lemma_option_eq_is_exact::<T>();
        }
        let mut tree = K2tree {
            rows,
            columns,
            virtual_rows: size,
            virtual_cols: size,
            k,
            nodes: Sequence::new(None),
            leaf: Vec::new(),
        };
        tree.build(matrix.expand(size, size));
        tree
    }

    /// Writes the entries of the tree over `matrix`, whose virtual extent is
    /// the square that the tree is laid out for.
    pub fn build(&mut self, matrix: Matrix<T>)
        requires
            eq_is_exact::<T>(),
            clone_is_exact::<T>(),
            old(self).awaits(matrix),
        ensures
            final(self).wf(),
            final(self).encodes(matrix@),
            final(self).spec_k() == old(self).spec_k(),
            final(self).spec_size() == old(self).spec_size(),
    {
        let k: usize = self.k;
        let size: usize = self.virtual_rows;
        let ghost g = matrix@;
        let ghost all_nodes = tree_nodes(g, k as nat, size as nat);
        let ghost all_leaf = tree_leaf(g, k as nat, size as nat);
        if size == 1 {
            let cell: &T = matrix.get(0, 0).unwrap();
            self.leaf.push(duplicate(cell));
            assert(self.leaf@ =~= all_leaf);
            assert(self.nodes@ =~= all_nodes);
            assert(self.encodes(g));
            return ;
        }
        let mut target: VecDeque<Submatrix<T>> = VecDeque::new();
        target.push_back(Submatrix::window(&matrix, 0, size - 1, 0, size - 1));
        let ghost mut pre: Seq<Option<T>> = Seq::empty();
        let ghost mut blocks: Seq<Block> = seq![root(size as nat)];
        let ghost mut extent: nat = size as nat;
        let ghost mut before: nat = 0;
        let ghost mut x: int = 0;
        let ghost mut queue: Seq<Block> = blocks;
        proof {
            lemma_level_start(g, k as nat, size as nat);
            lemma_fill_start(g, k as nat, pre, blocks, extent);
            assert(0 * (k * k) == 0) by (nonlinear_arith);
            assert(self.nodes@ =~= pre);
            assert(self.leaf@ =~= Seq::<T>::empty());
        }
        while target.len() > 0
            invariant
                eq_is_exact::<T>(),
                clone_is_exact::<T>(),
                matrix.wf(),
                g == matrix@,
                k == self.k,
                k >= 2,
                self.nodes.wf(),
                self.nodes.spec_target() == None::<T>,
                self.rows == old(self).rows,
                self.columns == old(self).columns,
                self.virtual_rows == old(self).virtual_rows,
                self.virtual_cols == old(self).virtual_cols,
                self.k == old(self).k,
                level_state(g, k as nat, all_nodes, all_leaf, pre, blocks, extent, before),
                extent <= size,
                written(g, k as nat, pre, blocks, extent, x * (k * k), self.nodes@, self.leaf@),
                queued(g, k as nat, blocks, x, x * (k * k), queue),
                target@.len() == queue.len(),
                forall|n: int|
                    0 <= n < queue.len() ==> frames(#[trigger] target@[n], matrix, queue[n]),
            decreases extent, blocks.len() - x,
        {
            proof {
                lemma_level_len(g, k as nat, blocks);
                if x == blocks.len() {
                    lemma_level_turn(
                        g,
                        k as nat,
                        all_nodes,
                        all_leaf,
                        pre,
                        blocks,
                        extent,
                        before,
                        self.nodes@,
                        self.leaf@,
                        queue,
                    );
                    pre = pre + level_nodes(g, k as nat, blocks);
                    before = before + blocks.len();
                    blocks = level_next(g, k as nat, blocks);
                    extent = extent / (k as nat);
                    x = 0;
                    assert(0 * (k * k) == 0) by (nonlinear_arith);
                }
                lemma_take_block(g, k as nat, blocks, x, x * (k * k), queue);
                lemma_part(k as nat, extent);
            }
            let ghost old_target = target@;
            let current: Submatrix<T> = target.pop_front().unwrap();
            let ghost block = blocks[x];
            proof {
                queue = queue.subrange(1, queue.len() as int);
                assert(frames(old_target[0], matrix, block));
                assert forall|n: int| 0 <= n < queue.len() implies frames(
                    #[trigger] target@[n],
                    matrix,
                    queue[n],
                ) by {
                    assert(target@[n] == old_target[n + 1]);
                }
            }
            let elems: usize = current.get_rows() / k;
            let mut i: usize = 0;
            while i < k
                invariant
                    eq_is_exact::<T>(),
                    clone_is_exact::<T>(),
                    matrix.wf(),
                    g == matrix@,
                    k == self.k,
                    k >= 2,
                    self.nodes.wf(),
                    self.nodes.spec_target() == None::<T>,
                    self.rows == old(self).rows,
                    self.columns == old(self).columns,
                    self.virtual_rows == old(self).virtual_rows,
                    self.virtual_cols == old(self).virtual_cols,
                    self.k == old(self).k,
                    level_state(g, k as nat, all_nodes, all_leaf, pre, blocks, extent, before),
                    extent <= size,
                    0 <= x < blocks.len(),
                    block == blocks[x],
                    frames(current, matrix, block),
                    elems == extent / (k as nat),
                    elems >= 1,
                    k * elems == extent,
                    i <= k,
                    written(
                        g,
                        k as nat,
                        pre,
                        blocks,
                        extent,
                        x * (k * k) + i * k,
                        self.nodes@,
                        self.leaf@,
                    ),
                    queued(g, k as nat, blocks, x + 1, x * (k * k) + i * k, queue),
                    target@.len() == queue.len(),
                    forall|n: int|
                        0 <= n < queue.len() ==> frames(#[trigger] target@[n], matrix, queue[n]),
                decreases k - i,
            {
                let mut j: usize = 0;
                while j < k
                    invariant
                        eq_is_exact::<T>(),
                        clone_is_exact::<T>(),
                        matrix.wf(),
                        g == matrix@,
                        k == self.k,
                        k >= 2,
                        self.nodes.wf(),
                        self.nodes.spec_target() == None::<T>,
                        self.rows == old(self).rows,
                        self.columns == old(self).columns,
                        self.virtual_rows == old(self).virtual_rows,
                        self.virtual_cols == old(self).virtual_cols,
                        self.k == old(self).k,
                        level_state(g, k as nat, all_nodes, all_leaf, pre, blocks, extent, before),
                        extent <= size,
                        0 <= x < blocks.len(),
                        block == blocks[x],
                        frames(current, matrix, block),
                        elems == extent / (k as nat),
                        elems >= 1,
                        k * elems == extent,
                        i < k,
                        j <= k,
                        written(
                            g,
                            k as nat,
                            pre,
                            blocks,
                            extent,
                            x * (k * k) + i * k + j,
                            self.nodes@,
                            self.leaf@,
                        ),
                        queued(g, k as nat, blocks, x + 1, x * (k * k) + i * k + j, queue),
                        target@.len() == queue.len(),
                        forall|n: int|
                            0 <= n < queue.len() ==> frames(
                                #[trigger] target@[n],
                                matrix,
                                queue[n],
                            ),
                    decreases k - j,
                {
                    let ghost slot = i * k + j;
                    let ghost q = x * (k * k) + slot;
                    let ghost part = kid(k as nat, block, slot);
                    proof {
                        lemma_slot(k as int, i as int, j as int, k as int);
                        lemma_level_kids_at(k as nat, blocks, x, slot);
                        assert(i * elems + elems <= k * elems && 0 <= i * elems) by (nonlinear_arith)
                            requires
                                0 <= i < k,
                                0 <= elems,
                        ;
                        assert(j * elems + elems <= k * elems && 0 <= j * elems) by (nonlinear_arith)
                            requires
                                0 <= j < k,
                                0 <= elems,
                        ;
                        assert((i + 1) * elems == i * elems + elems) by (nonlinear_arith);
                        assert((j + 1) * elems == j * elems + elems) by (nonlinear_arith);
                    }
                    let submatrix: Submatrix<T> = current.sub_window(
                        i * elems,
                        (i + 1) * elems - 1,
                        j * elems,
                        (j + 1) * elems - 1,
                    );
                    proof {
                        assert(frames(submatrix, matrix, part));
                        lemma_uniform_window(submatrix, matrix, part);
                    }
                    let first_cell: &T = submatrix.get(0, 0).unwrap();
                    if elems == 1 {
                        proof {
                            assert(extent == k) by (nonlinear_arith)
                                requires
                                    k * elems == extent,
                                    elems == 1,
                            ;
                            lemma_write_leaf(
                                g,
                                k as nat,
                                pre,
                                blocks,
                                extent,
                                x + 1,
                                q,
                                self.nodes@,
                                self.leaf@,
                                queue,
                            );
                        }
                        self.leaf.push(duplicate(first_cell));
                    } else {
                        proof {
                            assert(extent > k) by (nonlinear_arith)
                                requires
                                    k * elems == extent,
                                    elems >= 2,
                                    k >= 2,
                            ;
                            lemma_write_node(
                                g,
                                k as nat,
                                pre,
                                blocks,
                                extent,
                                x + 1,
                                q,
                                self.nodes@,
                                self.leaf@,
                                queue,
                            );
                        }
                        if submatrix.all_equal() {
                            self.nodes.push(Some(duplicate(first_cell)));
                        } else {
                            self.nodes.push(None);
                            target.push_back(submatrix);
                            proof {
                                queue = queue.push(part);
                            }
                        }
                    }
                    j += 1;
                }
                proof {
                    assert(x * (k * k) + i * k + k == x * (k * k) + (i + 1) * k) by (nonlinear_arith);
                }
                i += 1;
            }
            proof {
                assert(x * (k * k) + k * k == (x + 1) * (k * k)) by (nonlinear_arith);
                x = x + 1;
            }
        }
        proof {
            assert(queue =~= Seq::<Block>::empty());
            lemma_level_end(
                g,
                k as nat,
                all_nodes,
                all_leaf,
                pre,
                blocks,
                extent,
                before,
                x,
                self.nodes@,
                self.leaf@,
            );
            assert(self.encodes(g));
        }
    }

    /// The value of the cell `(i, j)` of the grid.
    pub fn get(&self, i: usize, j: usize) -> (r: Option<&T>)
        requires
            self.wf(),
            i < self.spec_rows(),
            j < self.spec_cols(),
        ensures
            r == Some(&self.spec_get(i as int, j as int)),
            forall|g: GridView<T>| self.encodes(g) ==> r == Some(&g.at(i as int, j as int)),
    {
        let ghost g = choose|g: GridView<T>| self.encodes(g);
        let ghost k = self.k as nat;
        let ghost all_nodes = self.nodes@;
        let ghost all_leaf = self.leaf@;
        proof {
            assert forall|h: GridView<T>| self.encodes(h) implies self.spec_get(i as int, j as int)
                == h.at(i as int, j as int) by {
                self.lemma_get_is_cell(h, i as int, j as int);
            }
        }
        if self.virtual_rows == 1 {
            return Some(&self.leaf[0]);
        }
        let mut extent: usize = self.virtual_rows;
        let mut previous: usize = 0;
        let mut virtual_x: usize = j;
        let mut virtual_y: usize = i;
        let ghost mut pre: Seq<Option<T>> = Seq::empty();
        let ghost mut blocks: Seq<Block> = seq![root(self.virtual_rows as nat)];
        let ghost mut before: nat = 0;
        let ghost mut x: int = 0;
        assert(k * k <= 0xffff_ffff_ffff_ffff * 0xffff_ffff_ffff_ffff) by (nonlinear_arith)
            requires
                0 <= k <= 0xffff_ffff_ffff_ffff,
        ;
        let square: u128 = (self.k as u128) * (self.k as u128);
        proof {
            lemma_level_start(g, k, self.virtual_rows as nat);
        }
        loop
            invariant
                self.wf(),
                k == self.k,
                all_nodes == self.nodes@,
                all_leaf == self.leaf@,
                square == k * k,
                level_state(g, k, all_nodes, all_leaf, pre, blocks, extent as nat, before),
                0 <= x < blocks.len(),
                blocks[x].holds(i as int, j as int),
                virtual_y == i - blocks[x].row,
                virtual_x == j - blocks[x].col,
                previous == before + x,
                forall|h: GridView<T>| #[trigger]
                    self.encodes(h) ==> self.spec_get(i as int, j as int) == h.at(
                        i as int,
                        j as int,
                    ),
                walk(
                    all_nodes,
                    all_leaf,
                    k,
                    extent as nat,
                    previous as nat,
                    virtual_y as nat,
                    virtual_x as nat,
                ) == self.spec_get(i as int, j as int),
            decreases extent,
        {
            proof {
                lemma_part(k, extent as nat);
                lemma_step(
                    g,
                    k,
                    all_nodes,
                    all_leaf,
                    pre,
                    blocks,
                    extent as nat,
                    before,
                    x,
                    i as int,
                    j as int,
                );
                assert(previous as nat * k * k == (before + x) * (k * k)) by (nonlinear_arith)
                    requires
                        previous == before + x,
                ;
            }
            let elems: usize = extent / self.k;
            let x_node: usize = virtual_x / elems;
            let y_node: usize = virtual_y / elems;
            let count: usize = self.nodes.len();
            let ghost slot = y_node * k + x_node;
            let ghost position = (before + x) * (k * k) + slot;
            assert(self.leaf@.len() == self.leaf.len());
            assert(0 <= y_node * k <= slot) by (nonlinear_arith)
                requires
                    slot == y_node * k + x_node,
                    0 <= y_node,
                    0 <= x_node,
                    0 <= k,
            ;
            assert(previous * square == (before + x) * (k * k)) by (nonlinear_arith)
                requires
                    previous == before + x,
                    square == k * k,
            ;
            let pos: u128 = (previous as u128) * square + ((y_node as u128) * (self.k as u128)
                + (x_node as u128));
            assert(pos == position);
            if pos >= count as u128 {
                return Some(&self.leaf[(pos - count as u128) as usize]);
            }
            let at: usize = pos as usize;
            match self.nodes.get(at).unwrap() {
                None => {
                    let rank: usize = self.nodes.rank(at).unwrap();
                    proof {
                        lemma_level_down(
                            g,
                            k,
                            all_nodes,
                            all_leaf,
                            pre,
                            blocks,
                            extent as nat,
                            before,
                        );
                        x = rank - (before + blocks.len());
                        pre = pre + level_nodes(g, k, blocks);
                        before = before + blocks.len();
                        blocks = level_next(g, k, blocks);
                    }
                    previous = rank;
                    virtual_x = virtual_x % elems;
                    virtual_y = virtual_y % elems;
                    extent = elems;
                },
                Some(n) => {
                    return Some(n);
                },
            }
        }
    }

    /// The node entries.
    pub fn get_nodes(&self) -> (nodes: &Sequence<Option<T>>)
        ensures
            *nodes == self.nodes(),
    {
        &self.nodes
    }

    /// The leaf entries.
    pub fn get_leaf(&self) -> (leaf: &Vec<T>)
        ensures
            leaf@ == self.leaf(),
    {
        &self.leaf
    }

    /// The branching factor.
    pub fn get_k(&self) -> (k: usize)
        ensures
            k == self.spec_k(),
    {
        self.k
    }

    /// The side of the square that the tree is built over.
    pub fn get_virtual_size(&self) -> (size: usize)
        ensures
            size == self.spec_size(),
    {
        self.virtual_rows
    }

    /// The number of rows of the grid.
    pub fn get_rows(&self) -> (rows: usize)
        ensures
            rows == self.spec_rows(),
    {
        self.rows
    }

    /// The number of columns of the grid.
    pub fn get_cols(&self) -> (columns: usize)
        ensures
            columns == self.spec_cols(),
    {
        self.columns
    }
}

} // verus!
