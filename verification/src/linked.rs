//! The root of a linked quadrant tree over a boolean grid: a node that holds
//! the grid's value where the grid is uniform, and a list of children where
//! it is not.

use vstd::prelude::*;

verus! {

/// The number of cells in the first `n` rows.
pub open spec fn cells_upto(matrix: Seq<Vec<bool>>, n: int) -> nat
    decreases n,
{
    if n <= 0 {
        0
    } else {
        cells_upto(matrix, n - 1) + matrix[n - 1]@.len()
    }
}

/// The number of cells that hold `true` among the first `n` of a row.
pub open spec fn row_trues(row: Seq<bool>, n: int) -> nat
    decreases n,
{
    if n <= 0 {
        0
    } else {
        row_trues(row, n - 1) + if row[n - 1] {
            1nat
        } else {
            0nat
        }
    }
}

/// The number of cells that hold `true` in the first `n` rows.
pub open spec fn trues_upto(matrix: Seq<Vec<bool>>, n: int) -> nat
    decreases n,
{
    if n <= 0 {
        0
    } else {
        trues_upto(matrix, n - 1) + row_trues(matrix[n - 1]@, matrix[n - 1]@.len() as int)
    }
}

/// Whether every cell holds `value`.
pub open spec fn all_hold(matrix: Seq<Vec<bool>>, value: bool) -> bool {
    forall|r: int, c: int|
        0 <= r < matrix.len() && 0 <= c < matrix[r]@.len() ==> #[trigger] matrix[r]@[c] == value
}

/// No cell of a row part holds `true` exactly when the count is zero, and all
/// do exactly when the count is the part's length.
pub proof fn lemma_row_trues(row: Seq<bool>, n: int)
    requires
        0 <= n <= row.len(),
    ensures
        row_trues(row, n) <= n,
        row_trues(row, n) == 0 <==> forall|c: int| 0 <= c < n ==> !row[c],
        row_trues(row, n) == n <==> forall|c: int| 0 <= c < n ==> row[c],
    decreases n,
{
    if n > 0 {
        lemma_row_trues(row, n - 1);
        if row_trues(row, n) == 0 {
            assert forall|c: int| 0 <= c < n implies !row[c] by {}
        }
        if row_trues(row, n) == n {
            assert forall|c: int| 0 <= c < n implies row[c] by {}
        }
    }
}

/// No cell of the first rows holds `true` exactly when the count is zero, and
/// all do exactly when the count is the number of cells.
pub proof fn lemma_trues(matrix: Seq<Vec<bool>>, n: int)
    requires
        0 <= n <= matrix.len(),
    ensures
        trues_upto(matrix, n) <= cells_upto(matrix, n),
        trues_upto(matrix, n) == 0 <==> all_hold(matrix.take(n), false),
        trues_upto(matrix, n) == cells_upto(matrix, n) <==> all_hold(matrix.take(n), true),
    decreases n,
{
    if n > 0 {
        let row = matrix[n - 1]@;
        lemma_trues(matrix, n - 1);
        lemma_row_trues(row, row.len() as int);
        let head = matrix.take(n - 1);
        let all = matrix.take(n);
        assert forall|value: bool|
            all_hold(all, value) <==> all_hold(head, value) && forall|c: int|
                0 <= c < row.len() ==> row[c] == value by {
            if all_hold(all, value) {
                assert forall|r: int, c: int|
                    0 <= r < head.len() && 0 <= c < head[r]@.len() implies #[trigger] head[r]@[c]
                    == value by {
                    assert(all[r]@[c] == value);
                }
                assert forall|c: int| 0 <= c < row.len() implies row[c] == value by {
                    assert(all[n - 1]@[c] == value);
                }
            }
            if all_hold(head, value) && forall|c: int| 0 <= c < row.len() ==> row[c] == value {
                assert forall|r: int, c: int|
                    0 <= r < all.len() && 0 <= c < all[r]@.len() implies #[trigger] all[r]@[c]
                    == value by {
                    if r < n - 1 {
                        assert(head[r]@[c] == value);
                    }
                }
            }
        }
    }
}

/// A node of a linked quadrant tree.
pub struct K2Tree {
    value: Option<bool>,
    nodes: Option<Vec<K2Tree>>,
}

impl K2Tree {
    /// The value of the node: that of a uniform grid, `None` for a mixed one.
    pub closed spec fn value(&self) -> Option<bool> {
        self.value
    }

    /// The number of children in the node's list, `None` where it has no list.
    pub closed spec fn child_count(&self) -> Option<nat> {
        match self.nodes {
            Some(nodes) => Some(nodes@.len()),
            None => None,
        }
    }

    /// The value of the node: that of a uniform grid, `None` for a mixed one.
    pub fn get_value(&self) -> (value: Option<bool>)
        ensures
            value == self.value(),
    {
        self.value
    }

    /// The number of children in the node's list, `None` where it has no list.
    pub fn get_child_count(&self) -> (count: Option<usize>)
        ensures
            match count {
                Some(n) => self.child_count() == Some(n as nat),
                None => self.child_count() is None,
            },
    {
        match &self.nodes {
            Some(nodes) => Some(nodes.len()),
            None => None,
        }
    }

    /// The children of a mixed grid: none yet.
    pub fn distribute(matrix: &Vec<Vec<bool>>, size: usize) -> (nodes: Vec<K2Tree>)
        ensures
            nodes@.len() == 0,
    {
        Vec::new()
    }

    /// The node for a grid: `false` where no cell holds `true`, else `true`
    /// where every cell does, else mixed, with the list of its children.
    pub fn build(matrix: &Vec<Vec<bool>>, size: usize) -> (node: K2Tree)
        requires
            cells_upto(matrix@, matrix@.len() as int) <= usize::MAX,
        ensures
            all_hold(matrix@, false) ==> node.value() == Some(false) && node.child_count() is None,
            !all_hold(matrix@, false) && all_hold(matrix@, true) ==> node.value() == Some(true)
                && node.child_count() is None,
            !all_hold(matrix@, false) && !all_hold(matrix@, true) ==> node.value() is None
                && node.child_count() == Some(0nat),
    {
        let mut acc: usize = 0;
        let mut elements: usize = 0;
        let mut r: usize = 0;
        while r < matrix.len()
            invariant
                r <= matrix@.len(),
                cells_upto(matrix@, matrix@.len() as int) <= usize::MAX,
                elements == cells_upto(matrix@, r as int),
                acc == trues_upto(matrix@, r as int),
            decreases matrix@.len() - r,
        {
            let row: &Vec<bool> = &matrix[r];
            let mut c: usize = 0;
            proof {
                lemma_cells_grow(matrix@, r as int + 1);
                lemma_trues(matrix@, r as int);
            }
            while c < row.len()
                invariant
                    c <= row@.len(),
                    r < matrix@.len(),
                    row@ == matrix@[r as int]@,
                    cells_upto(matrix@, r + 1) <= usize::MAX,
                    elements == cells_upto(matrix@, r as int) + c,
                    acc == trues_upto(matrix@, r as int) + row_trues(row@, c as int),
                    acc <= elements,
                decreases row@.len() - c,
            {
                proof {
                    lemma_row_trues(row@, c as int + 1);
                }
                elements += 1;
                if row[c] {
                    acc += 1;
                }
                c += 1;
            }
            r += 1;
        }
        proof {
            lemma_trues(matrix@, matrix@.len() as int);
            assert(matrix@.take(matrix@.len() as int) =~= matrix@);
        }
        if acc == 0 {
            K2Tree { value: Some(false), nodes: None }
        } else if acc == elements {
            K2Tree { value: Some(true), nodes: None }
        } else {
            K2Tree { value: None, nodes: Some(K2Tree::distribute(matrix, size)) }
        }
    }
}

/// The number of cells grows with the number of rows.
pub proof fn lemma_cells_grow(matrix: Seq<Vec<bool>>, n: int)
    requires
        0 <= n <= matrix.len(),
    ensures
        cells_upto(matrix, n) <= cells_upto(matrix, matrix.len() as int),
    decreases matrix.len() - n,
{
    if n < matrix.len() {
        lemma_cells_grow(matrix, n + 1);
    }
}

} // verus!
