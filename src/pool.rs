//! A set of indices in `[0, n)` from which an element can be removed in
//! constant time, either a named one or one picked uniformly at random.
//!
//! The live elements are kept densely in a vector, with a second vector that
//! gives each index its position there: removal swaps the last element into
//! the hole, so a uniform position names a uniform live element.
use vstd::prelude::*;
use crate::random::random_below;

verus! {

pub struct Pool {
    items: Vec<usize>,
    pos: Vec<usize>,
}

impl Pool {
    /// The live elements, in their storage order.
    pub closed spec fn elems(&self) -> Seq<usize> {
        self.items@
    }

    /// The size of the universe `[0, n)`.
    pub closed spec fn universe(&self) -> nat {
        self.pos@.len()
    }

    pub open spec fn view(&self) -> Set<usize> {
        self.elems().to_set()
    }

    pub closed spec fn wf(&self) -> bool {
        &&& self.items@.len() <= self.pos@.len()
        &&& forall|i: int|
            0 <= i < self.items@.len() ==> (self.items@[i] as int) < self.pos@.len()
                && self.pos@[self.items@[i] as int] == i
    }

    /// Each live element sits at exactly one position, so that a position
    /// drawn uniformly names a live element drawn uniformly; and every live
    /// element is below the universe's size.
    pub proof fn lemma_one_position_each(&self)
        requires
            self.wf(),
        ensures
            self.elems().no_duplicates(),
            self@.len() == self.elems().len(),
            forall|k: usize| #[trigger] self@.contains(k) ==> (k as int) < self.universe(),
            self.elems().len() <= self.universe(),
    {
        assert forall|i: int, j: int|
            0 <= i < self.items@.len() && 0 <= j < self.items@.len() && i != j implies
            self.items@[i] != self.items@[j] by {
            assert(self.pos@[self.items@[i] as int] == i);
        }
        self.items@.unique_seq_to_set();
    }

    /// A pool that holds every index of `[0, n)`.
    pub fn full(n: usize) -> (r: Pool)
        ensures
            r.wf(),
            r.universe() == n,
            r.elems().len() == n,
            r@ == Set::new(|k: usize| k < n),
    {
        let mut items: Vec<usize> = Vec::new();
        let mut pos: Vec<usize> = Vec::new();
        let mut k: usize = 0;
        while k < n
            invariant
                k <= n,
                items@.len() == k,
                pos@.len() == k,
                forall|i: int| 0 <= i < k ==> items@[i] == i && pos@[i] == i,
            decreases n - k,
        {
            items.push(k);
            pos.push(k);
            k = k + 1;
        }
        let r = Pool { items, pos };
        assert forall|x: usize| r@.contains(x) <==> x < n by {
            if x < n {
                assert(r.items@[x as int] == x);
            }
        }
        assert(r@ =~= Set::new(|k: usize| k < n));
        r
    }

    /// The number of live elements.
    pub fn len(&self) -> (r: usize)
        requires
            self.wf(),
        ensures
            r == self@.len(),
            r == self.elems().len(),
    {
        proof { self.lemma_one_position_each(); }
        self.items.len()
    }

    /// Whether `k` is live.
    pub fn contains(&self, k: usize) -> (r: bool)
        requires
            self.wf(),
        ensures
            r == self@.contains(k),
    {
        if k < self.pos.len() {
            let p = self.pos[k];
            if p < self.items.len() && self.items[p] == k {
                assert(self.items@[p as int] == k);
                true
            } else {
                proof {
                    if self@.contains(k) {
                        let i = choose|i: int| 0 <= i < self.items@.len() && self.items@[i] == k;
                        assert(self.pos@[self.items@[i] as int] == i);
                    }
                }
                false
            }
        } else {
            proof { self.lemma_one_position_each(); }
            false
        }
    }

    /// Removes and returns the element stored at position `i`.
    pub fn take_at(&mut self, i: usize) -> (r: usize)
        requires
            old(self).wf(),
            i < old(self).elems().len(),
        ensures
            final(self).wf(),
            final(self).universe() == old(self).universe(),
            r == old(self).elems()[i as int],
            old(self)@.contains(r),
            final(self)@ == old(self)@.remove(r),
            final(self).elems().len() == old(self).elems().len() - 1,
    {
        proof { self.lemma_one_position_each(); }
        let ghost old_items = self.items@;
        let r = self.items[i];
        let last_i = self.items.len() - 1;
        let last = self.items[last_i];
        self.items.set(i, last);
        self.pos.set(last, i);
        self.items.pop();
        proof {
            assert(old_items.contains(r)) by { assert(old_items[i as int] == r); }
            assert forall|j: int| 0 <= j < self.items@.len() implies
                (self.items@[j] as int) < self.pos@.len()
                && self.pos@[self.items@[j] as int] == j by {
                if j != i {
                    assert(self.items@[j] == old_items[j]);
                    assert(old_items[j] != last) by {
                        assert(old_items[last_i as int] == last);
                    }
                }
            }
            assert forall|x: usize| self@.contains(x) <==> old_items.to_set().remove(r).contains(x) by {
                if self@.contains(x) {
                    let j = choose|j: int| 0 <= j < self.items@.len() && self.items@[j] == x;
                    if j == i {
                        assert(old_items[last_i as int] == x);
                        assert(last_i != i);
                    } else {
                        assert(old_items[j] == x);
                    }
                }
                if old_items.to_set().remove(r).contains(x) {
                    let j = choose|j: int| 0 <= j < old_items.len() && old_items[j] == x;
                    if j == last_i {
                        assert(self.items@[i as int] == x);
                    } else {
                        assert(j != i);
                        assert(self.items@[j] == x);
                    }
                }
            }
            assert(self@ =~= old_items.to_set().remove(r));
        }
        r
    }

    /// Removes `k` if it is live.
    pub fn remove(&mut self, k: usize)
        requires
            old(self).wf(),
        ensures
            final(self).wf(),
            final(self).universe() == old(self).universe(),
            final(self)@ == old(self)@.remove(k),
            final(self).elems().len() == if old(self)@.contains(k) {
                old(self).elems().len() - 1
            } else {
                old(self).elems().len() as int
            },
    {
        if self.contains(k) {
            let p = self.pos[k];
            proof {
                let i = choose|i: int| 0 <= i < self.items@.len() && self.items@[i] == k;
                assert(self.pos@[self.items@[i] as int] == i);
            }
            self.take_at(p);
        } else {
            assert(self@.remove(k) =~= self@);
        }
    }

    /// Removes and returns an element picked uniformly at random, or `None`
    /// when the pool is empty.
    pub fn remove_random(&mut self, rng: &mut rand::rngs::StdRng) -> (r: Option<usize>)
        requires
            old(self).wf(),
        ensures
            final(self).wf(),
            final(self).universe() == old(self).universe(),
            match r {
                None => old(self)@.is_empty() && final(self)@ == old(self)@,
                Some(k) => old(self)@.contains(k) && final(self)@ == old(self)@.remove(k)
                    && final(self).elems().len() == old(self).elems().len() - 1,
            },
    {
        let n = self.len();
        if n == 0 {
            assert(self@ =~= Set::empty());
            None
        } else {
            let i = random_below(rng, n);
            Some(self.take_at(i))
        }
    }
}

} // verus!
