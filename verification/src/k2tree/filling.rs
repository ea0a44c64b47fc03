//! Why the entries that are written block after block are those of the tree.

use vstd::prelude::*;
use crate::k2tree::model::{
    first, level_kids, level_leaf, level_next, level_nodes, node_of, splits, uniform, Block,
};
use crate::k2tree::proofs::{
    lemma_cell_uniform, lemma_empty_level, lemma_level_down, lemma_level_len, lemma_next_sizes,
    lemma_part, level_state,
};
use crate::matrix::GridView;

verus! {

/// Whether `nodes` and `leaf` hold the entries of the levels above `blocks`
/// and the first `q` entries of the parts of `blocks`.
pub open spec fn written<T>(
    g: GridView<T>,
    k: nat,
    pre: Seq<Option<T>>,
    blocks: Seq<Block>,
    size: nat,
    q: int,
    nodes: Seq<Option<T>>,
    leaf: Seq<T>,
) -> bool {
    &&& 0 <= q <= level_kids(k, blocks).len()
    &&& size > k ==> nodes == pre + level_nodes(g, k, blocks).take(q) && leaf == Seq::<T>::empty()
    &&& size <= k ==> nodes == pre && leaf == level_leaf(g, k, blocks).take(q)
}

/// Whether `queue` holds the blocks of the level from the `from`-th on, and
/// behind them those of the first `q` parts that are divided further.
pub open spec fn queued<T>(
    g: GridView<T>,
    k: nat,
    blocks: Seq<Block>,
    from: int,
    q: int,
    queue: Seq<Block>,
) -> bool {
    &&& 0 <= from <= blocks.len()
    &&& 0 <= q <= level_kids(k, blocks).len()
    &&& queue == blocks.skip(from) + level_kids(k, blocks).take(q).filter(splits(g))
}

/// At the start of a level nothing of it is written, and the queue holds its blocks.
pub proof fn lemma_fill_start<T>(
    g: GridView<T>,
    k: nat,
    pre: Seq<Option<T>>,
    blocks: Seq<Block>,
    size: nat,
)
    ensures
        written(g, k, pre, blocks, size, 0, pre, Seq::<T>::empty()),
        queued(g, k, blocks, 0, 0, blocks),
{
    assert(level_kids(k, blocks).take(0).filter(splits(g)) =~= Seq::<Block>::empty()) by {
        reveal_with_fuel(Seq::filter, 1);
    }
    assert(blocks.skip(0) + Seq::<Block>::empty() =~= blocks);
    assert(pre + level_nodes(g, k, blocks).take(0) =~= pre);
    assert(level_leaf(g, k, blocks).take(0) =~= Seq::<T>::empty());
}

/// Taking the first block off the queue.
pub proof fn lemma_take_block<T>(
    g: GridView<T>,
    k: nat,
    blocks: Seq<Block>,
    x: int,
    q: int,
    queue: Seq<Block>,
)
    requires
        queued(g, k, blocks, x, q, queue),
        x < blocks.len(),
    ensures
        queue.len() > 0,
        queue[0] == blocks[x],
        queued(g, k, blocks, x + 1, q, queue.subrange(1, queue.len() as int)),
{
    let tail = level_kids(k, blocks).take(q).filter(splits(g));
    assert(queue.subrange(1, queue.len() as int) =~= blocks.skip(x + 1) + tail);
}

/// Writing the entry of a part that is a single cell.
pub proof fn lemma_write_leaf<T>(
    g: GridView<T>,
    k: nat,
    pre: Seq<Option<T>>,
    blocks: Seq<Block>,
    size: nat,
    from: int,
    q: int,
    nodes: Seq<Option<T>>,
    leaf: Seq<T>,
    queue: Seq<Block>,
)
    requires
        written(g, k, pre, blocks, size, q, nodes, leaf),
        queued(g, k, blocks, from, q, queue),
        q < level_kids(k, blocks).len(),
        size <= k,
        level_kids(k, blocks)[q].size <= 1,
    ensures
        written(
            g,
            k,
            pre,
            blocks,
            size,
            q + 1,
            nodes,
            leaf.push(first(g, level_kids(k, blocks)[q])),
        ),
        queued(g, k, blocks, from, q + 1, queue),
{
    let kids = level_kids(k, blocks);
    lemma_cell_uniform(g, kids[q]);
    assert(kids.take(q + 1) =~= kids.take(q).push(kids[q]));
    kids.take(q).lemma_filter_push(kids[q], splits(g));
    assert(level_leaf(g, k, blocks).take(q + 1) =~= level_leaf(g, k, blocks).take(q).push(
        first(g, kids[q]),
    ));
}

/// Writing the entry of a part that is no single cell: its value where it is
/// uniform, else the marker, and then the part joins the queue.
pub proof fn lemma_write_node<T>(
    g: GridView<T>,
    k: nat,
    pre: Seq<Option<T>>,
    blocks: Seq<Block>,
    size: nat,
    from: int,
    q: int,
    nodes: Seq<Option<T>>,
    leaf: Seq<T>,
    queue: Seq<Block>,
)
    requires
        written(g, k, pre, blocks, size, q, nodes, leaf),
        queued(g, k, blocks, from, q, queue),
        q < level_kids(k, blocks).len(),
        size > k,
    ensures
        written(
            g,
            k,
            pre,
            blocks,
            size,
            q + 1,
            nodes.push(node_of(g, level_kids(k, blocks)[q])),
            leaf,
        ),
        queued(
            g,
            k,
            blocks,
            from,
            q + 1,
            if uniform(g, level_kids(k, blocks)[q]) {
                queue
            } else {
                queue.push(level_kids(k, blocks)[q])
            },
        ),
{
    let kids = level_kids(k, blocks);
    let here = level_nodes(g, k, blocks);
    assert(kids.take(q + 1) =~= kids.take(q).push(kids[q]));
    kids.take(q).lemma_filter_push(kids[q], splits(g));
    assert(here.take(q + 1) =~= here.take(q).push(node_of(g, kids[q])));
    assert(pre + here.take(q + 1) =~= (pre + here.take(q)).push(node_of(g, kids[q])));
    if !uniform(g, kids[q]) {
        let tail = kids.take(q).filter(splits(g));
        assert(blocks.skip(from) + tail.push(kids[q]) =~= (blocks.skip(from) + tail).push(kids[q]));
    }
}

/// When the blocks of a level are dealt with and the queue is not empty, the
/// queue holds the next level, of which nothing is written yet.
pub proof fn lemma_level_turn<T>(
    g: GridView<T>,
    k: nat,
    all_nodes: Seq<Option<T>>,
    all_leaf: Seq<T>,
    pre: Seq<Option<T>>,
    blocks: Seq<Block>,
    size: nat,
    before: nat,
    nodes: Seq<Option<T>>,
    leaf: Seq<T>,
    queue: Seq<Block>,
)
    requires
        level_state(g, k, all_nodes, all_leaf, pre, blocks, size, before),
        written(g, k, pre, blocks, size, level_kids(k, blocks).len() as int, nodes, leaf),
        queued(g, k, blocks, blocks.len() as int, level_kids(k, blocks).len() as int, queue),
        queue.len() > 0,
    ensures
        size > k,
        queue == level_next(g, k, blocks),
        level_state(
            g,
            k,
            all_nodes,
            all_leaf,
            pre + level_nodes(g, k, blocks),
            level_next(g, k, blocks),
            size / k,
            before + blocks.len(),
        ),
        written(
            g,
            k,
            pre + level_nodes(g, k, blocks),
            level_next(g, k, blocks),
            size / k,
            0,
            nodes,
            leaf,
        ),
        queued(g, k, level_next(g, k, blocks), 0, 0, queue),
        size / k < size,
{
    let kids = level_kids(k, blocks);
    let next = level_next(g, k, blocks);
    let here = level_nodes(g, k, blocks);
    lemma_part(k, size);
    lemma_level_len(g, k, blocks);
    assert(kids.take(kids.len() as int) =~= kids);
    assert(blocks.skip(blocks.len() as int) + next =~= next);
    lemma_next_sizes(g, k, blocks, size);
    if size == k {
        kids.lemma_filter_pred(splits(g), 0);
        lemma_cell_uniform(g, next[0]);
    }
    lemma_level_down(g, k, all_nodes, all_leaf, pre, blocks, size, before);
    assert(here.take(kids.len() as int) =~= here);
    lemma_fill_start(g, k, pre + here, next, size / k);
}

/// When the queue is empty, every entry of the tree is written.
pub proof fn lemma_level_end<T>(
    g: GridView<T>,
    k: nat,
    all_nodes: Seq<Option<T>>,
    all_leaf: Seq<T>,
    pre: Seq<Option<T>>,
    blocks: Seq<Block>,
    size: nat,
    before: nat,
    x: int,
    nodes: Seq<Option<T>>,
    leaf: Seq<T>,
)
    requires
        level_state(g, k, all_nodes, all_leaf, pre, blocks, size, before),
        written(g, k, pre, blocks, size, x * (k * k), nodes, leaf),
        queued(g, k, blocks, x, x * (k * k), Seq::<Block>::empty()),
    ensures
        nodes == all_nodes,
        leaf == all_leaf,
{
    let kids = level_kids(k, blocks);
    let next = level_next(g, k, blocks);
    let here = level_nodes(g, k, blocks);
    let tail = kids.take(x * (k * k)).filter(splits(g));
    lemma_part(k, size);
    lemma_level_len(g, k, blocks);
    assert((blocks.skip(x) + tail).len() == 0);
    assert(x == blocks.len());
    assert(kids.take(kids.len() as int) =~= kids);
    assert(next =~= Seq::<Block>::empty());
    lemma_empty_level::<T>(g, k, size / k);
    if size > k {
        assert(here.take(kids.len() as int) =~= here);
        assert(all_nodes =~= pre + here);
    } else {
        assert(all_nodes =~= pre);
        assert(level_leaf(g, k, blocks).take(kids.len() as int) =~= level_leaf(g, k, blocks));
    }
}

} // verus!
