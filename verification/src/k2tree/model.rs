//! The tree as a mathematical value: which entries a grid gives, level by
//! level, and which cell a walk through those entries reaches.

use vstd::prelude::*;
use crate::matrix::GridView;
use crate::sequence::count_upto;

verus! {

/// A square part of a grid: the cell at which it starts and the length of its side.
pub struct Block {
    pub row: nat,
    pub col: nat,
    pub size: nat,
}

impl Block {
    /// Whether the cell `(i, j)` lies in the block.
    pub open spec fn holds(self, i: int, j: int) -> bool {
        self.row <= i < self.row + self.size && self.col <= j < self.col + self.size
    }
}

/// Whether `s` is a power of `k`.
pub open spec fn is_power_of(k: nat, s: nat) -> bool
    decreases s,
    when k >= 2
    via is_power_of_decreases
{
    s == 1 || (s >= k && s % k == 0 && is_power_of(k, s / k))
}

#[via_fn]
proof fn is_power_of_decreases(k: nat, s: nat) {
    if s >= k {
        lemma_div_smaller(k, s);
    }
}

/// Dividing by a branching factor makes a side shorter.
pub proof fn lemma_div_smaller(k: nat, s: nat)
    requires
        k >= 2,
        s >= 1,
    ensures
        s / k < s,
{
    vstd::arithmetic::div_mod::lemma_div_decreases(s as int, k as int);
}

/// Whether `p` is the smallest power of `k` that is at least `n`.
pub open spec fn is_next_pow(k: nat, n: nat, p: nat) -> bool {
    &&& k >= 2
    &&& is_power_of(k, p)
    &&& p >= n
    &&& p == 1 || p / k < n
}

/// The first power of `k`, from the power `p` upwards, that is at least `n`.
pub open spec fn power_from(k: nat, n: nat, p: nat) -> nat
    decreases
            if p < n {
                n - p
            } else {
                0
            },
    when k >= 2 && p >= 1
    via power_from_decreases
{
    if p >= n {
        p
    } else {
        power_from(k, n, p * k)
    }
}

#[via_fn]
proof fn power_from_decreases(k: nat, n: nat, p: nat) {
    assert(p * k > p) by (nonlinear_arith)
        requires
            k >= 2,
            p >= 1,
    ;
}

/// The smallest power of `k` that is at least `n`.
pub open spec fn next_power(k: nat, n: nat) -> nat {
    power_from(k, n, 1)
}

/// The block that covers a whole grid of side `size`.
pub open spec fn root(size: nat) -> Block {
    Block { row: 0, col: 0, size }
}

/// The `t`-th of the `k * k` equal parts of `b`, counted row after row.
pub open spec fn kid(k: nat, b: Block, t: int) -> Block {
    Block {
        row: (b.row + (t / k as int) * (b.size / k)) as nat,
        col: (b.col + (t % k as int) * (b.size / k)) as nat,
        size: b.size / k,
    }
}

/// The value of the first cell of `b`.
pub open spec fn first<T>(g: GridView<T>, b: Block) -> T {
    g.at(b.row as int, b.col as int)
}

/// Whether every cell of `b` holds the same value.
pub open spec fn uniform<T>(g: GridView<T>, b: Block) -> bool {
    forall|i: int, j: int| b.holds(i, j) ==> #[trigger] g.at(i, j) == first(g, b)
}

/// The entry that stands for `b` among the nodes: its value where it is
/// uniform, the marker `None` where it is divided further.
pub open spec fn node_of<T>(g: GridView<T>, b: Block) -> Option<T> {
    if uniform(g, b) {
        Some(first(g, b))
    } else {
        None
    }
}

/// The test for a block that is divided further.
pub open spec fn splits<T>(g: GridView<T>) -> spec_fn(Block) -> bool {
    |b: Block| !uniform(g, b)
}

/// The parts of all of `blocks`, block after block.
pub open spec fn level_kids(k: nat, blocks: Seq<Block>) -> Seq<Block> {
    Seq::new(blocks.len() * k * k, |p: int| kid(k, blocks[p / (k * k) as int], p % (k * k) as int))
}

/// The node entries of the parts of `blocks`.
pub open spec fn level_nodes<T>(g: GridView<T>, k: nat, blocks: Seq<Block>) -> Seq<Option<T>> {
    level_kids(k, blocks).map_values(|b: Block| node_of(g, b))
}

/// The leaf entries of the parts of `blocks`, which are single cells.
pub open spec fn level_leaf<T>(g: GridView<T>, k: nat, blocks: Seq<Block>) -> Seq<T> {
    level_kids(k, blocks).map_values(|b: Block| first(g, b))
}

/// The parts of `blocks` that are divided further, in their order.
pub open spec fn level_next<T>(g: GridView<T>, k: nat, blocks: Seq<Block>) -> Seq<Block> {
    level_kids(k, blocks).filter(splits(g))
}

/// The node entries below `blocks`, which have sides of `size`: level after level.
pub open spec fn nodes_from<T>(g: GridView<T>, k: nat, blocks: Seq<Block>, size: nat) -> Seq<
    Option<T>,
>
    decreases size,
    when k >= 2
    via nodes_from_decreases::<T>
{
    if size <= k {
        Seq::empty()
    } else {
        level_nodes(g, k, blocks) + nodes_from(g, k, level_next(g, k, blocks), size / k)
    }
}

#[via_fn]
proof fn nodes_from_decreases<T>(g: GridView<T>, k: nat, blocks: Seq<Block>, size: nat) {
    if size > k {
        lemma_div_smaller(k, size);
    }
}

/// The leaf entries below `blocks`, which have sides of `size`: those of the
/// last level, whose parts are single cells.
pub open spec fn leaf_from<T>(g: GridView<T>, k: nat, blocks: Seq<Block>, size: nat) -> Seq<T>
    decreases size,
    when k >= 2
    via leaf_from_decreases::<T>
{
    if size <= k {
        level_leaf(g, k, blocks)
    } else {
        leaf_from(g, k, level_next(g, k, blocks), size / k)
    }
}

#[via_fn]
proof fn leaf_from_decreases<T>(g: GridView<T>, k: nat, blocks: Seq<Block>, size: nat) {
    if size > k {
        lemma_div_smaller(k, size);
    }
}

/// The node entries of the tree over a grid of side `size`, in breadth-first order.
pub open spec fn tree_nodes<T>(g: GridView<T>, k: nat, size: nat) -> Seq<Option<T>> {
    if size <= 1 {
        Seq::empty()
    } else {
        nodes_from(g, k, seq![root(size)], size)
    }
}

/// The leaf entries of the tree over a grid of side `size`, in breadth-first order.
pub open spec fn tree_leaf<T>(g: GridView<T>, k: nat, size: nat) -> Seq<T> {
    if size <= 1 {
        seq![g.at(0, 0)]
    } else {
        leaf_from(g, k, seq![root(size)], size)
    }
}

/// The value that a walk reaches which starts in a block of side `extent`, the
/// `previous`-th block that is divided, at the cell `(y, x)` of that block.
pub open spec fn walk<T>(
    nodes: Seq<Option<T>>,
    leaf: Seq<T>,
    k: nat,
    extent: nat,
    previous: nat,
    y: nat,
    x: nat,
) -> T
    decreases extent,
    when k >= 2 && extent >= 1
    via walk_decreases::<T>
{
    let part = extent / k;
    let position = previous * k * k + (y / part) * k + x / part;
    if position >= nodes.len() {
        leaf[position - nodes.len()]
    } else {
        match nodes[position as int] {
            Some(value) => value,
            None => walk(
                nodes,
                leaf,
                k,
                part,
                count_upto(nodes, None, position as int + 1),
                y % part,
                x % part,
            ),
        }
    }
}

#[via_fn]
proof fn walk_decreases<T>(
    nodes: Seq<Option<T>>,
    leaf: Seq<T>,
    k: nat,
    extent: nat,
    previous: nat,
    y: nat,
    x: nat,
) {
    lemma_div_smaller(k, extent);
}

/// The value that the entries give for the cell `(i, j)` of a grid of side `size`.
pub open spec fn lookup<T>(nodes: Seq<Option<T>>, leaf: Seq<T>, k: nat, size: nat, i: nat, j: nat) -> T {
    if size <= 1 {
        leaf[0]
    } else {
        walk(nodes, leaf, k, size, 0, i, j)
    }
}

} // verus!
