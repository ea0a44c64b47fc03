//! A sequence of values with one designated target value, indexed so that the
//! number of targets up to a position is read in constant time.

use vstd::prelude::*;
use crate::value::{eq_is_exact, same};

verus! {

/// How many of the first `n` elements of `s` equal `target`.
pub open spec fn count_upto<T>(s: Seq<T>, target: T, n: int) -> nat {
    s.take(n).filter(|x: T| x == target).len()
}

/// Counting one element further adds one exactly when that element is the target.
pub proof fn lemma_count_step<T>(s: Seq<T>, target: T, n: int)
    requires
        0 <= n < s.len(),
    ensures
        count_upto(s, target, n + 1) == count_upto(s, target, n) + (if s[n] == target {
            1nat
        } else {
            0nat
        }),
        count_upto(s, target, 0) == 0,
{
    let pred = |x: T| x == target;
    assert(s.take(n + 1).drop_last() =~= s.take(n));
    assert(s.take(n + 1).last() == s[n]);
    reveal_with_fuel(Seq::filter, 2);
    assert(s.take(0).filter(pred) =~= Seq::<T>::empty());
}

/// A count over a prefix never exceeds the prefix's length.
pub proof fn lemma_count_bound<T>(s: Seq<T>, target: T, n: int)
    requires
        0 <= n <= s.len(),
    ensures
        count_upto(s, target, n) <= n,
{
    s.take(n).lemma_filter_len(|x: T| x == target);
}

/// A count over a prefix does not change when elements are appended behind it.
pub proof fn lemma_count_prefix<T>(s: Seq<T>, tail: Seq<T>, target: T, n: int)
    requires
        0 <= n <= s.len(),
    ensures
        count_upto(s + tail, target, n) == count_upto(s, target, n),
{
    assert((s + tail).take(n) =~= s.take(n));
}

/// A count that reaches into the second of two joined sequences is the count
/// of the whole first one and that of the part reached in the second.
pub proof fn lemma_count_concat<T>(a: Seq<T>, b: Seq<T>, target: T, n: int)
    requires
        0 <= n <= b.len(),
    ensures
        count_upto(a + b, target, a.len() + n) == count_upto(a, target, a.len() as int)
            + count_upto(b, target, n),
{
    assert((a + b).take(a.len() + n) =~= a + b.take(n));
    assert(a.take(a.len() as int) =~= a);
    Seq::filter_distributes_over_add(a, b.take(n), |x: T| x == target);
}

/// An ordered list of values and, beside it, the running count of the values
/// that equal the target.
#[derive(Debug)]
pub struct Sequence<T> {
    data: Vec<T>,
    target: T,
    target_index: Vec<usize>,
}

impl<T> View for Sequence<T> {
    type V = Seq<T>;

    closed spec fn view(&self) -> Seq<T> {
        self.data@
    }
}

impl<T: PartialEq> Sequence<T> {
    /// The value that `rank` and `select` count.
    pub closed spec fn spec_target(&self) -> T {
        self.target
    }

    /// The stored running counts, one for each element.
    pub closed spec fn counts(&self) -> Seq<usize> {
        self.target_index@
    }

    /// The number of targets among positions `0..=i`.
    pub open spec fn rank_at(&self, i: int) -> nat {
        count_upto(self@, self.spec_target(), i + 1)
    }

    /// The running counts are those of the elements, and `==` on `T` is exact.
    pub open spec fn wf(&self) -> bool {
        &&& eq_is_exact::<T>()
        &&& self.counts().len() == self@.len()
        &&& forall|i: int| 0 <= i < self@.len() ==> #[trigger] self.counts()[i] == self.rank_at(i)
    }

    /// The number of targets among positions `0..=i`, where `i` is a position.
    pub open spec fn spec_rank(&self, i: int) -> Option<usize> {
        if 0 <= i < self@.len() {
            Some(self.rank_at(i) as usize)
        } else {
            None
        }
    }

    /// Whether `p` is the first position up to which exactly `j` targets occur.
    pub open spec fn is_selected(&self, j: int, p: int) -> bool {
        &&& 0 <= p < self@.len()
        &&& self.rank_at(p) == j
        &&& forall|q: int| 0 <= q < p ==> #[trigger] self.rank_at(q) != j
    }

    /// The first position up to which exactly `j` targets occur, if there is one.
    pub open spec fn spec_select(&self, j: int) -> Option<usize> {
        if exists|p: int| self.is_selected(j, p) {
            Some((choose|p: int| self.is_selected(j, p)) as usize)
        } else {
            None
        }
    }

    /// An empty sequence that counts `target`.
    pub fn new(target: T) -> (s: Sequence<T>)
        requires
            eq_is_exact::<T>(),
        ensures
            s.wf(),
            s@ == Seq::<T>::empty(),
            s.spec_target() == target,
    {
        Sequence { data: Vec::new(), target, target_index: Vec::new() }
    }

    /// The sequence of the elements of `input`, in their order, counting `target`.
    pub fn from_iter(target: T, input: Vec<T>) -> (s: Sequence<T>)
        requires
            eq_is_exact::<T>(),
        ensures
            s.wf(),
            s@ == input@,
            s.spec_target() == target,
    {
        let mut target_index: Vec<usize> = Vec::new();
        let mut count: usize = 0;
        let mut i: usize = 0;
        assert(input@.take(0).filter(|x: T| x == target) =~= Seq::<T>::empty()) by {
            reveal_with_fuel(Seq::filter, 1);
        }
        while i < input.len()
            invariant
                eq_is_exact::<T>(),
                i <= input@.len(),
                target_index@.len() == i,
                count == count_upto(input@, target, i as int),
                forall|m: int|
                    0 <= m < i ==> #[trigger] target_index@[m] == count_upto(input@, target, m + 1),
            decreases input@.len() - i,
        {
            proof {
                lemma_count_step(input@, target, i as int);
                lemma_count_bound(input@, target, i as int);
            }
            if same(&input[i], &target) {
                count += 1;
            }
            target_index.push(count);
            i += 1;
        }
        Sequence { data: input, target, target_index }
    }

    /// The number of targets among positions `0..=i`; `None` where `i` is no position.
    pub fn rank(&self, i: usize) -> (r: Option<usize>)
        requires
            self.wf(),
        ensures
            r == self.spec_rank(i as int),
    {
        if i < self.target_index.len() {
            Some(self.target_index[i])
        } else {
            None
        }
    }

    /// The first position up to which exactly `j` targets occur; `None` where
    /// there is no such position.
    pub fn select(&self, j: usize) -> (r: Option<usize>)
        requires
            self.wf(),
        ensures
            r == self.spec_select(j as int),
            match r {
                Some(p) => self.is_selected(j as int, p as int),
                None => forall|p: int| !self.is_selected(j as int, p),
            },
    {
        let mut p: usize = 0;
        while p < self.target_index.len()
            invariant
                self.wf(),
                p <= self@.len(),
                forall|q: int| 0 <= q < p ==> #[trigger] self.rank_at(q) != j,
            decreases self@.len() - p,
        {
            if self.target_index[p] == j {
                proof {
                    self.lemma_selected_unique(j as int, p as int);
                }
                return Some(p);
            }
            p += 1;
        }
        assert forall|q: int| !self.is_selected(j as int, q) by {}
        None
    }

    /// Appends `item`, and with it the count of targets up to and including it.
    pub fn push(&mut self, item: T)
        requires
            old(self).wf(),
        ensures
            final(self).wf(),
            final(self)@ == old(self)@.push(item),
            final(self).spec_target() == old(self).spec_target(),
    {
        let ghost before = self.data@;
        let n: usize = self.target_index.len();
        let prev_index: usize = if n == 0 {
            0
        } else {
            self.target_index[n - 1]
        };
        proof {
            if n > 0 {
                assert(self.counts()[n - 1] == self.rank_at(n - 1));
            } else {
                assert(before.take(0) =~= Seq::<T>::empty());
            }
            assert(prev_index == count_upto(before, self.target, n as int));
        }
        let hit: bool = same(&item, &self.target);
        self.data.push(item);
        let grown: usize = self.data.len();
        proof {
            assert(grown == n + 1);
            lemma_count_step(self.data@, self.target, n as int);
            lemma_count_bound(self.data@, self.target, n as int);
            assert forall|i: int| 0 <= i <= n implies count_upto(self.data@, self.target, i)
                == count_upto(before, self.target, i) by {
                assert(self.data@.take(i) =~= before.take(i));
            }
        }
        if hit {
            self.target_index.push(prev_index + 1);
        } else {
            self.target_index.push(prev_index);
        }
    }

    /// The element at `index`; `None` where `index` is no position.
    pub fn get(&self, index: usize) -> (r: Option<&T>)
        ensures
            r == (if index < self@.len() {
                Some(&self@[index as int])
            } else {
                None
            }),
    {
        if index < self.data.len() {
            Some(&self.data[index])
        } else {
            None
        }
    }

    /// The number of elements.
    pub fn len(&self) -> (n: usize)
        ensures
            n == self@.len(),
    {
        self.data.len()
    }

    /// An iterator over the elements, in their order.
    pub fn iter(&self) -> (it: std::slice::Iter<'_, T>)
        ensures
            vstd::std_specs::slice::into_iter_elts(it) == self@,
    {
        let elements: &[T] = self.data.as_slice();
        let it = elements.iter();
        proof {
            broadcast use vstd::std_specs::slice::axiom_spec_slice_iter;

            assert(elements@.as_ref().unref() =~= elements@);
        }
        it
    }

    /// The elements, in their order.
    pub fn get_data(&self) -> (data: &Vec<T>)
        ensures
            data@ == self@,
    {
        &self.data
    }

    /// The running counts, one for each element.
    pub fn get_target_index(&self) -> (counts: &Vec<usize>)
        ensures
            counts@ == self.counts(),
    {
        &self.target_index
    }

    /// The value that `rank` and `select` count.
    pub fn get_target(&self) -> (target: &T)
        ensures
            *target == self.spec_target(),
    {
        &self.target
    }

    /// From one position to the next the rank stays or grows by one.
    pub proof fn lemma_rank_steps(&self, i: int)
        requires
            self.wf(),
            0 <= i,
            i + 1 < self@.len(),
        ensures
            self.spec_rank(i).unwrap() <= self.spec_rank(i + 1).unwrap() <= self.spec_rank(
                i,
            ).unwrap() + 1,
    {
        lemma_count_step(self@, self.spec_target(), i + 1);
        assert(self.counts()[i] == self.rank_at(i));
        assert(self.counts()[i + 1] == self.rank_at(i + 1));
    }

    /// The rank of a position is at most the number of positions up to it.
    pub proof fn lemma_rank_bound(&self, i: int)
        requires
            self.wf(),
            0 <= i < self@.len(),
        ensures
            self.spec_rank(i).unwrap() <= i + 1,
    {
        lemma_count_bound(self@, self.spec_target(), i + 1);
        assert(self.counts()[i] == self.rank_at(i));
    }

    /// The rank of a selected position is the count it was selected for, and
    /// for a count of at least one the element there is the target.
    pub proof fn lemma_select_rank(&self, j: int, p: usize)
        requires
            self.wf(),
            self.spec_select(j) == Some(p),
        ensures
            self.spec_rank(p as int) == Some(j as usize),
            self.rank_at(p as int) == j,
            j >= 1 ==> self@[p as int] == self.spec_target(),
    {
        let chosen = choose|q: int| self.is_selected(j, q);
        assert(self.is_selected(j, chosen));
        assert(self.counts()[chosen] == self.rank_at(chosen));
        assert(self@.len() == self.counts().len());
        assert(self.counts().len() <= usize::MAX) by {
            assert(self.target_index@.len() == self.target_index.len());
        }
        assert(chosen == p);
        if j >= 1 {
            if chosen == 0 {
                lemma_count_step(self@, self.spec_target(), 0);
            } else {
                assert(self.rank_at(chosen - 1) != j);
                lemma_count_step(self@, self.spec_target(), chosen);
            }
        }
    }

    /// At most one position is selected for a given count.
    pub proof fn lemma_selected_unique(&self, j: int, p: int)
        requires
            self.is_selected(j, p),
        ensures
            self.spec_select(j) == Some(p as usize),
            forall|q: int| self.is_selected(j, q) ==> q == p,
    {
        assert forall|q: int| self.is_selected(j, q) implies q == p by {
            if q < p {
                assert(self.rank_at(q) != j);
            } else if p < q {
                assert(self.rank_at(p) != j);
            }
        }
    }
}

} // verus!
