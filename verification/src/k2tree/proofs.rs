//! Why a walk through the entries of a tree reaches the cell it was asked for.

use vstd::prelude::*;
use vstd::arithmetic::div_mod::{lemma_fundamental_div_mod, lemma_fundamental_div_mod_converse};
use crate::k2tree::model::{
    is_power_of, kid, leaf_from, lemma_div_smaller, level_kids, level_leaf, level_next, level_nodes,
    first, is_next_pow, lookup, next_power, node_of, power_from, nodes_from, root, splits, tree_leaf, tree_nodes, uniform, walk, Block,
};
use crate::matrix::GridView;
use crate::sequence::{count_upto, lemma_count_concat, lemma_count_prefix, lemma_count_step};

verus! {

/// A position among the parts of a level names one block and one of its parts.
pub proof fn lemma_slot(w: int, x: int, t: int, n: int)
    requires
        0 < w,
        0 <= x < n,
        0 <= t < w,
    ensures
        0 <= x * w + t < n * w,
        (x * w + t) / w == x,
        (x * w + t) % w == t,
        x * w + w == (x + 1) * w,
{
    assert(0 <= x * w) by (nonlinear_arith)
        requires
            0 <= x,
            0 < w,
    ;
    assert(x * w + w <= n * w) by (nonlinear_arith)
        requires
            x < n,
            0 < w,
    ;
    assert(x * w + w == (x + 1) * w) by (nonlinear_arith);
    lemma_fundamental_div_mod_converse(x * w + t, w, x, t);
}

/// The side of a block that can be divided is `k` times the side of its parts.
pub proof fn lemma_part(k: nat, size: nat)
    requires
        k >= 2,
        is_power_of(k, size),
        size > 1,
    ensures
        size >= k,
        size / k >= 1,
        k * (size / k) == size,
        is_power_of(k, size / k),
        size > k ==> size / k >= k,
        size == k ==> size / k == 1,
        size / k < size,
{
    let e = size / k;
    reveal_with_fuel(is_power_of, 2);
    lemma_fundamental_div_mod(size as int, k as int);
    assert(size == k * e);
    lemma_div_smaller(k, size);
    if e == 0 {
        assert(k * e == 0) by (nonlinear_arith)
            requires
                e == 0,
        ;
    }
    if size > k {
        if e == 1 {
            assert(k * e == k) by (nonlinear_arith)
                requires
                    e == 1,
            ;
        }
    }
    if size == k {
        if e >= 2 {
            assert(k * e >= 2 * k) by (nonlinear_arith)
                requires
                    e >= 2,
                    k >= 2,
            ;
        }
    }
}

/// A power of `k`, multiplied by `k`, is a power of `k`.
pub proof fn lemma_power_step(k: nat, p: nat)
    requires
        k >= 2,
        is_power_of(k, p),
    ensures
        is_power_of(k, p * k),
        (p * k) / k == p,
        p >= 1,
        p * k > p,
{
    reveal_with_fuel(is_power_of, 2);
    assert(p >= 1);
    assert(p * k >= k && p * k > p) by (nonlinear_arith)
        requires
            p >= 1,
            k >= 2,
    ;
    lemma_fundamental_div_mod_converse((p * k) as int, k as int, p as int, 0);
}

/// Of two powers of `k`, the smaller is at most the `k`-th part of the larger.
pub proof fn lemma_power_gap(k: nat, a: nat, b: nat)
    requires
        k >= 2,
        is_power_of(k, a),
        is_power_of(k, b),
        a < b,
    ensures
        a <= b / k,
    decreases a,
{
    reveal_with_fuel(is_power_of, 2);
    lemma_part(k, b);
    if a > 1 {
        lemma_part(k, a);
        if a / k >= b / k {
            assert(k * (a / k) >= k * (b / k)) by (nonlinear_arith)
                requires
                    a / k >= b / k,
            ;
        }
        lemma_power_gap(k, a / k, b / k);
        assert(k * (a / k) <= k * ((b / k) / k)) by (nonlinear_arith)
            requires
                a / k <= (b / k) / k,
        ;
        lemma_part(k, b / k);
    }
}

/// `power_from` ends on the smallest power that is at least `n`.
pub proof fn lemma_power_from(k: nat, n: nat, p: nat)
    requires
        k >= 2,
        is_power_of(k, p),
        p == 1 || p / k < n,
    ensures
        is_next_pow(k, n, power_from(k, n, p)),
        power_from(k, n, p) >= p,
    decreases
            if p < n {
                n - p
            } else {
                0
            },
{
    lemma_power_step(k, p);
    if p < n {
        lemma_power_from(k, n, p * k);
    }
}

/// `next_power(k, n)` is the smallest power of `k` that is at least `n`.
pub proof fn lemma_next_power(k: nat, n: nat)
    requires
        k >= 2,
    ensures
        is_next_pow(k, n, next_power(k, n)),
{
    lemma_power_from(k, n, 1);
}

/// The next power is one, or less than `k` times `n`.
pub proof fn lemma_next_power_bound(k: nat, n: nat)
    requires
        k >= 2,
    ensures
        next_power(k, n) == 1 || next_power(k, n) <= k * (n - 1),
{
    let p = next_power(k, n);
    lemma_next_power(k, n);
    if p > 1 {
        lemma_part(k, p);
        assert(k * (p / k) <= k * (n - 1)) by (nonlinear_arith)
            requires
                p / k <= n - 1,
                k >= 2,
        ;
    }
}

/// No power of `k` that is at least `n` lies below the next power.
pub proof fn lemma_next_pow_least(k: nat, n: nat, p: nat, q: nat)
    requires
        is_next_pow(k, n, p),
        is_power_of(k, q),
        q >= n,
    ensures
        p <= q,
{
    if q < p {
        lemma_power_gap(k, q, p);
    }
}

/// A cell of a block lies in exactly one of its parts of side `e`.
pub proof fn lemma_locate(k: int, e: int, v: int)
    requires
        k >= 1,
        e >= 1,
        0 <= v < k * e,
    ensures
        0 <= v / e < k,
        (v / e) * e <= v < (v / e) * e + e,
        v % e == v - (v / e) * e,
        0 <= v % e < e,
{
    lemma_fundamental_div_mod(v, e);
    let a = v / e;
    assert(e * a == a * e) by (nonlinear_arith);
    if a >= k {
        assert(a * e >= k * e) by (nonlinear_arith)
            requires
                a >= k,
                e >= 1,
        ;
    }
    if a < 0 {
        assert(a * e <= -e) by (nonlinear_arith)
            requires
                a <= -1,
                e >= 1,
        ;
    }
}

/// The part in which a cell of a block lies holds that cell.
pub proof fn lemma_kid_holds(k: nat, b: Block, i: int, j: int)
    requires
        k >= 2,
        is_power_of(k, b.size),
        b.size > 1,
        b.holds(i, j),
    ensures
        ({
            let e = (b.size / k) as int;
            let a = (i - b.row) / e;
            let c = (j - b.col) / e;
            let t = a * k + c;
            &&& 0 <= a < k
            &&& 0 <= c < k
            &&& 0 <= t < k * k
            &&& t / (k as int) == a
            &&& t % (k as int) == c
            &&& kid(k, b, t).holds(i, j)
            &&& kid(k, b, t).size == e
            &&& i - kid(k, b, t).row == (i - b.row) % e
            &&& j - kid(k, b, t).col == (j - b.col) % e
        }),
{
    let e = (b.size / k) as int;
    lemma_part(k, b.size);
    lemma_locate(k as int, e, i - b.row);
    lemma_locate(k as int, e, j - b.col);
    let a = (i - b.row) / e;
    let c = (j - b.col) / e;
    lemma_slot(k as int, a, c, k as int);
    assert(a * e >= 0) by (nonlinear_arith)
        requires
            a >= 0,
            e >= 1,
    ;
    assert(c * e >= 0) by (nonlinear_arith)
        requires
            c >= 0,
            e >= 1,
    ;
}

/// Every part of a block lies inside the block.
pub proof fn lemma_kid_inside(k: nat, b: Block, t: int)
    requires
        k >= 2,
        is_power_of(k, b.size),
        b.size > 1,
        0 <= t < k * k,
    ensures
        ({
            let c = kid(k, b, t);
            &&& c.size == b.size / k
            &&& b.row <= c.row
            &&& c.row + c.size <= b.row + b.size
            &&& b.col <= c.col
            &&& c.col + c.size <= b.col + b.size
        }),
{
    let part = (b.size / k) as int;
    let a = t / (k as int);
    let c = t % (k as int);
    lemma_part(k, b.size);
    lemma_fundamental_div_mod(t, k as int);
    if a >= k {
        assert(k * a >= k * k) by (nonlinear_arith)
            requires
                a >= k,
                k >= 2,
        ;
    }
    assert(0 <= a * part && a * part + part <= k * part) by (nonlinear_arith)
        requires
            0 <= a < k,
            part >= 1,
    ;
    assert(0 <= c * part && c * part + part <= k * part) by (nonlinear_arith)
        requires
            0 <= c < k,
            part >= 1,
    ;
}

/// The parts of a level, by block and by part.
pub proof fn lemma_level_kids_at(k: nat, blocks: Seq<Block>, x: int, t: int)
    requires
        k >= 2,
        0 <= x < blocks.len(),
        0 <= t < k * k,
    ensures
        0 <= x * (k * k) + t < level_kids(k, blocks).len(),
        level_kids(k, blocks).len() == blocks.len() * (k * k),
        level_kids(k, blocks)[x * (k * k) + t] == kid(k, blocks[x], t),
{
    let w = (k * k) as int;
    assert(w >= 4) by (nonlinear_arith)
        requires
            w == k * k,
            k >= 2,
    ;
    lemma_slot(w, x, t, blocks.len() as int);
    assert(blocks.len() * k * k == blocks.len() * (k * k)) by (nonlinear_arith);
}

/// The number of parts of a level.
pub proof fn lemma_level_len<T>(g: GridView<T>, k: nat, blocks: Seq<Block>)
    ensures
        level_kids(k, blocks).len() == blocks.len() * (k * k),
        level_nodes(g, k, blocks).len() == blocks.len() * (k * k),
        level_leaf(g, k, blocks).len() == blocks.len() * (k * k),
{
    assert(blocks.len() * k * k == blocks.len() * (k * k)) by (nonlinear_arith);
}

/// A block of a single cell is uniform.
pub proof fn lemma_cell_uniform<T>(g: GridView<T>, b: Block)
    requires
        b.size <= 1,
    ensures
        uniform(g, b),
{
}

/// Among the first `q` node entries of a level, the markers are as many as
/// the parts that are divided further.
pub proof fn lemma_marker_count<T>(g: GridView<T>, k: nat, blocks: Seq<Block>, q: int)
    requires
        0 <= q <= level_kids(k, blocks).len(),
    ensures
        count_upto(level_nodes(g, k, blocks), None, q) == level_kids(k, blocks).take(q).filter(
            splits(g),
        ).len(),
    decreases q,
{
    let kids = level_kids(k, blocks);
    let nodes = level_nodes(g, k, blocks);
    if q == 0 {
        assert(nodes.take(0).filter(|x: Option<T>| x == None::<T>) =~= Seq::empty()) by {
            reveal_with_fuel(Seq::filter, 1);
        }
        assert(kids.take(0).filter(splits(g)) =~= Seq::empty()) by {
            reveal_with_fuel(Seq::filter, 1);
        }
    } else {
        lemma_marker_count(g, k, blocks, q - 1);
        lemma_count_step(nodes, None, q - 1);
        assert(kids.take(q) =~= kids.take(q - 1).push(kids[q - 1]));
        kids.take(q - 1).lemma_filter_push(kids[q - 1], splits(g));
        assert(nodes[q - 1] == node_of(g, kids[q - 1]));
    }
}

/// A part that is divided further stands in the next level, behind as many
/// blocks as parts before it are divided further.
pub proof fn lemma_next_at<T>(g: GridView<T>, k: nat, blocks: Seq<Block>, q: int)
    requires
        0 <= q < level_kids(k, blocks).len(),
        !uniform(g, level_kids(k, blocks)[q]),
    ensures
        ({
            let y = level_kids(k, blocks).take(q).filter(splits(g)).len();
            &&& y < level_next(g, k, blocks).len()
            &&& level_next(g, k, blocks)[y as int] == level_kids(k, blocks)[q]
        }),
{
    let kids = level_kids(k, blocks);
    let head = kids.take(q);
    let tail = kids.skip(q + 1);
    assert(kids =~= head.push(kids[q]) + tail);
    Seq::filter_distributes_over_add(head.push(kids[q]), tail, splits(g));
    head.lemma_filter_push(kids[q], splits(g));
}

/// Every block of the next level is a part of a block of this level.
pub proof fn lemma_next_sizes<T>(g: GridView<T>, k: nat, blocks: Seq<Block>, size: nat)
    requires
        k >= 2,
        forall|x: int| 0 <= x < blocks.len() ==> (#[trigger] blocks[x]).size == size,
    ensures
        forall|y: int|
            0 <= y < level_next(g, k, blocks).len() ==> (#[trigger] level_next(
                g,
                k,
                blocks,
            )[y]).size == size / k,
{
    let kids = level_kids(k, blocks);
    let next = level_next(g, k, blocks);
    assert forall|y: int| 0 <= y < next.len() implies (#[trigger] next[y]).size == size / k by {
        assert(next.contains(next[y]));
        kids.lemma_filter_contains_rev(splits(g), next[y]);
        let p = choose|p: int| 0 <= p < kids.len() && kids[p] == next[y];
        let w = (k * k) as int;
        assert(w >= 4) by (nonlinear_arith)
            requires
                w == k * k,
                k >= 2,
        ;
        lemma_level_len(g, k, blocks);
        lemma_fundamental_div_mod(p, w);
        vstd::arithmetic::div_mod::lemma_div_pos_is_pos(p, w);
        if p / w >= blocks.len() {
            assert(w * (p / w) >= w * blocks.len()) by (nonlinear_arith)
                requires
                    p / w >= blocks.len(),
                    w > 0,
            ;
            assert(w * blocks.len() == blocks.len() * (k * k)) by (nonlinear_arith)
                requires
                    w == k * k,
            ;
        }
        assert(blocks[p / w].size == size);
    }
}

/// Below no block there is no entry.
pub proof fn lemma_empty_level<T>(g: GridView<T>, k: nat, size: nat)
    requires
        k >= 2,
    ensures
        nodes_from(g, k, Seq::<Block>::empty(), size) == Seq::<Option<T>>::empty(),
        leaf_from(g, k, Seq::<Block>::empty(), size) == Seq::<T>::empty(),
    decreases size,
{
    let none = Seq::<Block>::empty();
    assert(none.len() * k * k == 0) by (nonlinear_arith)
        requires
            none.len() == 0,
    ;
    assert(level_kids(k, none) =~= Seq::<Block>::empty());
    assert(level_nodes(g, k, none) =~= Seq::<Option<T>>::empty());
    assert(level_leaf(g, k, none) =~= Seq::<T>::empty());
    assert(level_next(g, k, none) =~= none) by {
        reveal_with_fuel(Seq::filter, 1);
    }
    if size > k {
        lemma_div_smaller(k, size);
        lemma_empty_level(g, k, size / k);
        assert(nodes_from(g, k, none, size) =~= Seq::<Option<T>>::empty());
    }
}

/// Where a level stands among the entries of a tree: `pre` holds the node
/// entries of the levels above `blocks`, which are the parts of `before` blocks.
pub open spec fn level_state<T>(
    g: GridView<T>,
    k: nat,
    nodes: Seq<Option<T>>,
    leaf: Seq<T>,
    pre: Seq<Option<T>>,
    blocks: Seq<Block>,
    size: nat,
    before: nat,
) -> bool {
    &&& k >= 2
    &&& is_power_of(k, size)
    &&& size > 1
    &&& forall|x: int| 0 <= x < blocks.len() ==> (#[trigger] blocks[x]).size == size
    &&& nodes == pre + nodes_from(g, k, blocks, size)
    &&& leaf == leaf_from(g, k, blocks, size)
    &&& pre.len() == before * (k * k)
    &&& count_upto(pre, None, pre.len() as int) + 1 == before + blocks.len()
}

/// The first level of a tree is its root alone, with no entry above it.
pub proof fn lemma_level_start<T>(g: GridView<T>, k: nat, size: nat)
    requires
        k >= 2,
        is_power_of(k, size),
        size > 1,
    ensures
        level_state(
            g,
            k,
            tree_nodes(g, k, size),
            tree_leaf(g, k, size),
            Seq::empty(),
            seq![root(size)],
            size,
            0,
        ),
{
    let pre = Seq::<Option<T>>::empty();
    assert(pre + nodes_from(g, k, seq![root(size)], size) =~= nodes_from(
        g,
        k,
        seq![root(size)],
        size,
    ));
    assert(pre.take(0).filter(|x: Option<T>| x == None::<T>) =~= Seq::empty()) by {
        reveal_with_fuel(Seq::filter, 1);
    }
    assert(0 * (k * k) == 0) by (nonlinear_arith);
}

/// Below a level whose parts are no single cells stands the level of the
/// parts that are divided further.
pub proof fn lemma_level_down<T>(
    g: GridView<T>,
    k: nat,
    nodes: Seq<Option<T>>,
    leaf: Seq<T>,
    pre: Seq<Option<T>>,
    blocks: Seq<Block>,
    size: nat,
    before: nat,
)
    requires
        level_state(g, k, nodes, leaf, pre, blocks, size, before),
        size > k,
    ensures
        level_state(
            g,
            k,
            nodes,
            leaf,
            pre + level_nodes(g, k, blocks),
            level_next(g, k, blocks),
            size / k,
            before + blocks.len(),
        ),
{
    let here = level_nodes(g, k, blocks);
    let next = level_next(g, k, blocks);
    let part = size / k;
    lemma_part(k, size);
    lemma_next_sizes(g, k, blocks, size);
    lemma_level_len(g, k, blocks);
    assert(nodes =~= (pre + here) + nodes_from(g, k, next, part));
    assert((before + blocks.len()) * (k * k) == before * (k * k) + blocks.len() * (k * k))
        by (nonlinear_arith);
    lemma_count_concat(pre, here, None, here.len() as int);
    lemma_marker_count(g, k, blocks, here.len() as int);
    assert(level_kids(k, blocks).take(here.len() as int) =~= level_kids(k, blocks));
}

/// What stands at the position that a walk computes for the cell `(i, j)` in
/// the `x`-th block of a level.
pub proof fn lemma_step<T>(
    g: GridView<T>,
    k: nat,
    nodes: Seq<Option<T>>,
    leaf: Seq<T>,
    pre: Seq<Option<T>>,
    blocks: Seq<Block>,
    size: nat,
    before: nat,
    x: int,
    i: int,
    j: int,
)
    requires
        level_state(g, k, nodes, leaf, pre, blocks, size, before),
        0 <= x < blocks.len(),
        blocks[x].holds(i, j),
    ensures
        ({
            let b = blocks[x];
            let part = (size / k) as int;
            let t = ((i - b.row) / part) * k + (j - b.col) / part;
            let p = (before + x) * (k * k) + t;
            let c = kid(k, b, t);
            &&& part >= 1
            &&& 0 <= (i - b.row) / part < k
            &&& 0 <= (j - b.col) / part < k
            &&& 0 <= t < k * k
            &&& c.holds(i, j)
            &&& c.size == part
            &&& i - c.row == (i - b.row) % part
            &&& j - c.col == (j - b.col) % part
            &&& 0 <= (before + x) * (k * k) <= p < nodes.len() + leaf.len()
            &&& size == k ==> p >= nodes.len() && leaf[p - nodes.len()] == g.at(i, j)
            &&& size > k ==> p < nodes.len() && (nodes[p] matches Some(v) ==> v == g.at(i, j)) && (
            nodes[p] is None ==> {
                let y = count_upto(nodes, None, p + 1) - (before + blocks.len());
                &&& 0 <= y < level_next(g, k, blocks).len()
                &&& level_next(g, k, blocks)[y] == c
            })
        }),
{
    let b = blocks[x];
    let part = (size / k) as int;
    let t = ((i - b.row) / part) * k + (j - b.col) / part;
    let w = (k * k) as int;
    let p = (before + x) * w + t;
    let q = x * w + t;
    let c = kid(k, b, t);
    let kids = level_kids(k, blocks);
    lemma_part(k, size);
    lemma_kid_holds(k, b, i, j);
    lemma_level_kids_at(k, blocks, x, t);
    lemma_level_len(g, k, blocks);
    assert(p == pre.len() + q) by (nonlinear_arith)
        requires
            p == (before + x) * w + t,
            q == x * w + t,
            pre.len() == before * w,
    ;
    assert(0 <= (before + x) * w) by (nonlinear_arith)
        requires
            0 <= before + x,
            0 <= w,
    ;
    assert(kids[q] == c);
    if size == k {
        assert(nodes =~= pre);
        assert(leaf[q] == first(g, c));
        assert(c.holds(c.row as int, c.col as int));
    } else {
        let here = level_nodes(g, k, blocks);
        let rest = nodes_from(g, k, level_next(g, k, blocks), size / k);
        assert(nodes == pre + (here + rest));
        assert(nodes[p] == here[q]);
        assert(here[q] == node_of(g, c));
        if nodes[p] is None {
            assert(nodes =~= (pre + here) + rest);
            lemma_count_prefix(pre + here, rest, None, p + 1);
            lemma_count_concat(pre, here, None, q + 1);
            lemma_marker_count(g, k, blocks, q + 1);
            lemma_next_at(g, k, blocks, q);
            assert(kids.take(q + 1) =~= kids.take(q).push(kids[q]));
            kids.take(q).lemma_filter_push(kids[q], splits(g));
        }
    }
}

/// A walk that starts in the block of a level that holds `(i, j)` reaches the
/// value of that cell.
pub proof fn lemma_walk<T>(
    g: GridView<T>,
    k: nat,
    nodes: Seq<Option<T>>,
    leaf: Seq<T>,
    pre: Seq<Option<T>>,
    blocks: Seq<Block>,
    size: nat,
    before: nat,
    x: int,
    i: int,
    j: int,
)
    requires
        level_state(g, k, nodes, leaf, pre, blocks, size, before),
        0 <= x < blocks.len(),
        blocks[x].holds(i, j),
    ensures
        walk(
            nodes,
            leaf,
            k,
            size,
            (before + x) as nat,
            (i - blocks[x].row) as nat,
            (j - blocks[x].col) as nat,
        ) == g.at(i, j),
    decreases size,
{
    let b = blocks[x];
    let part = size / k;
    let previous = (before + x) as nat;
    let y0 = (i - b.row) as nat;
    let x0 = (j - b.col) as nat;
    let p = previous * k * k + (y0 / part) * k + x0 / part;
    lemma_part(k, size);
    lemma_step(g, k, nodes, leaf, pre, blocks, size, before, x, i, j);
    assert(previous * k * k == (before + x) * (k * k)) by (nonlinear_arith)
        requires
            previous == before + x,
    ;
    if size > k && nodes[p as int] is None {
        let y = count_upto(nodes, None, p as int + 1) - (before + blocks.len());
        lemma_level_down(g, k, nodes, leaf, pre, blocks, size, before);
        lemma_walk(
            g,
            k,
            nodes,
            leaf,
            pre + level_nodes(g, k, blocks),
            level_next(g, k, blocks),
            part,
            before + blocks.len(),
            y,
            i,
            j,
        );
    }
}

/// What the entries of the tree over a grid give for a cell is the value of
/// that cell in the grid.
pub proof fn lemma_round_trip<T>(g: GridView<T>, k: nat, size: nat, i: nat, j: nat)
    requires
        k >= 2,
        is_power_of(k, size),
        i < size,
        j < size,
    ensures
        lookup(tree_nodes(g, k, size), tree_leaf(g, k, size), k, size, i, j) == g.at(
            i as int,
            j as int,
        ),
{
    if size > 1 {
        lemma_level_start(g, k, size);
        lemma_walk(
            g,
            k,
            tree_nodes(g, k, size),
            tree_leaf(g, k, size),
            Seq::empty(),
            seq![root(size)],
            size,
            0,
            0,
            i as int,
            j as int,
        );
    }
}

} // verus!
