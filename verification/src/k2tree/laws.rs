//! What holds of the tree over particular grids.

use vstd::prelude::*;
use crate::k2tree::longer_side;
use crate::k2tree::model::{
    first, is_power_of, level_kids, level_next, level_nodes, lookup, next_power, root, splits,
    tree_leaf, tree_nodes, uniform,
};
use crate::k2tree::proofs::{
    lemma_empty_level, lemma_kid_inside, lemma_level_kids_at, lemma_level_len, lemma_next_power,
    lemma_part, lemma_round_trip,
};
use crate::matrix::GridView;

verus! {

/// Whether every cell of the square of side `size` holds `v`.
pub open spec fn all_cells_are<T>(g: GridView<T>, size: nat, v: T) -> bool {
    forall|i: int, j: int| 0 <= i < size && 0 <= j < size ==> #[trigger] g.at(i, j) == v
}

/// Over a square grid whose cells all hold `v`, and whose quadrants are no
/// single cells, the tree has the `k * k` nodes of the quadrants, each holding
/// `v`, and no leaf.
pub proof fn lemma_uniform_grid<T>(g: GridView<T>, k: nat, size: nat, v: T)
    requires
        k >= 2,
        is_power_of(k, size),
        size > k,
        all_cells_are(g, size, v),
    ensures
        tree_nodes(g, k, size) == Seq::new(k * k, |t: int| Some(v)),
        tree_leaf(g, k, size) == Seq::<T>::empty(),
{
    let blocks = seq![root(size)];
    let kids = level_kids(k, blocks);
    let here = level_nodes(g, k, blocks);
    let next = level_next(g, k, blocks);
    lemma_part(k, size);
    lemma_level_len(g, k, blocks);
    assert(kids.len() == k * k) by (nonlinear_arith)
        requires
            kids.len() == blocks.len() * (k * k),
            blocks.len() == 1,
    ;
    assert forall|t: int| 0 <= t < k * k implies uniform(g, #[trigger] kids[t]) && first(
        g,
        kids[t],
    ) == v by {
        lemma_level_kids_at(k, blocks, 0, t);
        assert(0 * (k * k) + t == t) by (nonlinear_arith);
        lemma_kid_inside(k, root(size), t);
        let c = kids[t];
        assert(g.at(c.row as int, c.col as int) == v);
        assert forall|i: int, j: int| c.holds(i, j) implies #[trigger] g.at(i, j) == first(
            g,
            c,
        ) by {
            assert(g.at(i, j) == v);
        }
    }
    assert(here =~= Seq::new(k * k, |t: int| Some(v)));
    if next.len() > 0 {
        kids.lemma_filter_pred(splits(g), 0);
        assert(next.contains(next[0]));
        kids.lemma_filter_contains_rev(splits(g), next[0]);
    }
    assert(next =~= Seq::empty());
    lemma_empty_level::<T>(g, k, size / k);
    assert(tree_nodes(g, k, size) =~= here);
}

/// Over a grid of a single cell the tree is laid out for a square of side
/// one, and has no node and the cell's value as its one leaf.
pub proof fn lemma_single_cell<T>(g: GridView<T>, k: nat)
    requires
        k >= 2,
        g.rows == 1,
        g.cols == 1,
    ensures
        next_power(k, longer_side(g)) == 1,
        tree_nodes(g, k, 1) == Seq::<Option<T>>::empty(),
        tree_leaf(g, k, 1) == seq![g.at(0, 0)],
{
}

/// A cell of the square that the tree is laid out for, outside the stored
/// cells of the grid, reads as the grid's default: in the grid, and in the
/// entries of the tree.
pub proof fn lemma_padding<T>(g: GridView<T>, k: nat, i: nat, j: nat)
    requires
        k >= 2,
        i < next_power(k, longer_side(g)),
        j < next_power(k, longer_side(g)),
        !g.stored(i as int, j as int),
    ensures
        g.at(i as int, j as int) == g.default,
        ({
            let size = next_power(k, longer_side(g));
            lookup(tree_nodes(g, k, size), tree_leaf(g, k, size), k, size, i, j) == g.default
        }),
{
    let size = next_power(k, longer_side(g));
    lemma_next_power(k, longer_side(g));
    lemma_round_trip(g, k, size, i, j);
}

} // verus!
