//! A block-allocated, append-only array with random access.
//!
//! Elements are addressed by a logical index that never changes once it has
//! been handed out by `push`.  A prefix of the array can be dropped with
//! `remove_before`; the indices of the elements that stay are unaffected.

use vstd::prelude::*;
use vstd::arithmetic::div_mod::{
    lemma_div_is_ordered, lemma_fundamental_div_mod, lemma_fundamental_div_mod_converse,
    lemma_hoist_over_denominator, lemma_mod_bound,
};

verus! {

/// Mathematical model of a [`BlockDeque`]: the elements that are still held,
/// and the logical index of the first of them.
pub struct DequeView<T> {
    pub start: int,
    pub elems: Seq<T>,
}

impl<T> DequeView<T> {
    /// One past the logical index of the last element.
    pub open spec fn end(self) -> int {
        self.start + self.elems.len()
    }

    pub open spec fn contains_index(self, i: int) -> bool {
        self.start <= i < self.end()
    }

    /// The element at logical index `i`.
    pub open spec fn at(self, i: int) -> T
        recommends
            self.contains_index(i),
    {
        self.elems[i - self.start]
    }

    /// What a read at logical index `i` sees.
    pub open spec fn lookup(self, i: int) -> Option<T> {
        if self.contains_index(i) {
            Some(self.at(i))
        } else {
            None
        }
    }
}

/// The slot that logical index `i` occupies, given the blocks that are
/// allocated and the logical index `start` of the first live slot.
pub open spec fn slot_in<T>(blocks: Seq<Vec<Option<T>>>, start: int, bs: int, i: int) -> Option<T> {
    blocks[i / bs - start / bs][i % bs]
}

proof fn lemma_coords(i: int, j: int, bs: int)
    requires
        bs > 0,
    ensures
        0 <= i % bs < bs,
        i == bs * (i / bs) + i % bs,
        i <= j ==> i / bs <= j / bs,
        (i / bs == j / bs && i % bs == j % bs) ==> i == j,
        (i <= j && i / bs == j / bs) ==> i % bs <= j % bs,
{
    lemma_fundamental_div_mod(i, bs);
    lemma_fundamental_div_mod(j, bs);
    lemma_mod_bound(i, bs);
    if i <= j {
        lemma_div_is_ordered(i, j, bs);
    }
}

proof fn lemma_next_block(i: int, bs: int)
    requires
        bs > 0,
    ensures
        (i + 1) / bs <= i / bs + 1,
        (i + 1) % bs != 0 ==> (i + 1) / bs == i / bs,
{
    lemma_hoist_over_denominator(i, 1, bs as nat);
    assert(i + 1 * bs == i + bs) by (nonlinear_arith);
    lemma_div_is_ordered(i + 1, i + bs, bs);
    lemma_fundamental_div_mod(i + 1, bs);
    lemma_mod_bound(i + 1, bs);
    if (i + 1) % bs != 0 {
        let q = (i + 1) / bs;
        let r = (i + 1) % bs - 1;
        assert(i == q * bs + r) by (nonlinear_arith)
            requires
                i + 1 == bs * q + (r + 1),
        ;
        lemma_fundamental_div_mod_converse(i, bs, q, r);
    }
}

pub struct BlockDeque<T, const BLOCK_SIZE: usize> where T: Clone {
    /// Fixed-size blocks; a slot is `None` until it has been written, and
    /// again once it lies below `start_offset`.
    blocks: Vec<Vec<Option<T>>>,
    /// Logical index of the first live slot.
    start_offset: usize,
    /// Number of live slots.
    length: usize,
}

impl<T: Clone, const BLOCK_SIZE: usize> View for BlockDeque<T, BLOCK_SIZE> {
    type V = DequeView<T>;

    closed spec fn view(&self) -> DequeView<T> {
        DequeView {
            start: self.start_offset as int,
            elems: Seq::new(
                self.length as nat,
                |k: int|
                    slot_in(
                        self.blocks@,
                        self.start_offset as int,
                        BLOCK_SIZE as int,
                        self.start_offset + k,
                    ).unwrap(),
            ),
        }
    }
}

impl<T: Clone, const BLOCK_SIZE: usize> BlockDeque<T, BLOCK_SIZE> {
    /// Every live index has an allocated block, and its slot is filled.
    pub closed spec fn wf(&self) -> bool {
        &&& BLOCK_SIZE > 0
        &&& self.start_offset + self.length <= usize::MAX
        &&& forall|b: int|
            0 <= b < self.blocks.len() ==> (#[trigger] self.blocks[b]).len() == BLOCK_SIZE
        &&& forall|i: int|
            self.start_offset <= i < self.start_offset + self.length ==> {
                &&& 0 <= i / (BLOCK_SIZE as int) - (self.start_offset as int) / (BLOCK_SIZE as int)
                    < self.blocks.len()
                &&& (#[trigger] slot_in(
                    self.blocks@,
                    self.start_offset as int,
                    BLOCK_SIZE as int,
                    i,
                )) is Some
            }
    }

    /// The live indices fit the machine's integers.
    pub proof fn lemma_bounds(&self)
        requires
            self.wf(),
        ensures
            0 <= self@.start,
            self@.end() <= usize::MAX,
    {
    }

    /// Create a new, empty deque.
    pub fn new() -> (r: Self)
        requires
            BLOCK_SIZE > 0,
        ensures
            r.wf(),
            r@.start == 0,
            r@.elems == Seq::<T>::empty(),
    {
        let r = BlockDeque { blocks: Vec::with_capacity(1), start_offset: 0, length: 0 };
        assert(r@.elems =~= Seq::<T>::empty());
        r
    }

    /// Number of live elements.
    pub fn len(&self) -> (n: usize)
        ensures
            n == self@.elems.len(),
    {
        self.length
    }

    /// Logical index of the first live element.
    pub fn earliest_revision(&self) -> (n: usize)
        ensures
            n == self@.start,
    {
        self.start_offset
    }

    /// One past the logical index of the last live element.
    pub fn latest_revision(&self) -> (n: usize)
        requires
            self.wf(),
        ensures
            n == self@.end(),
    {
        self.length + self.start_offset
    }

    /// Appends `value` and returns the logical index it was given.
    pub fn push(&mut self, value: T) -> (index: usize)
        requires
            old(self).wf(),
            old(self)@.end() < usize::MAX,
        ensures
            final(self).wf(),
            index == old(self)@.end(),
            final(self)@.start == old(self)@.start,
            final(self)@.elems == old(self)@.elems.push(value),
    {
        let index = self.length + self.start_offset;
        proof {
            lemma_coords(self.start_offset as int, index as int, BLOCK_SIZE as int);
            lemma_coords(index as int, index as int, BLOCK_SIZE as int);
        }
        let block_index = index / BLOCK_SIZE - self.start_offset / BLOCK_SIZE;
        let offset = index % BLOCK_SIZE;
        while block_index >= self.blocks.len()
            invariant
                BLOCK_SIZE > 0,
                self.start_offset == old(self).start_offset,
                self.length == old(self).length,
                self.blocks.len() >= old(self).blocks.len(),
                forall|b: int|
                    0 <= b < self.blocks.len() ==> (#[trigger] self.blocks[b]).len() == BLOCK_SIZE,
                forall|b: int|
                    0 <= b < old(self).blocks.len() ==> #[trigger] self.blocks[b] == old(
                        self,
                    ).blocks[b],
            decreases block_index + 1 - self.blocks.len(),
        {
            let mut block: Vec<Option<T>> = Vec::with_capacity(BLOCK_SIZE);
            let mut n: usize = 0;
            while n < BLOCK_SIZE
                invariant
                    n <= BLOCK_SIZE,
                    block.len() == n,
                decreases BLOCK_SIZE - n,
            {
                block.push(None);
                n = n + 1;
            }
            self.blocks.push(block);
        }
        let ghost before = self.blocks@;
        self.blocks[block_index][offset] = Some(value);
        self.length = self.length + 1;
        proof {
            let bs = BLOCK_SIZE as int;
            let start = self.start_offset as int;
            assert forall|i: int| start <= i < start + self.length implies {
                &&& 0 <= i / bs - start / bs < self.blocks.len()
                &&& (#[trigger] slot_in(self.blocks@, start, bs, i)) is Some
                &&& i < index ==> slot_in(self.blocks@, start, bs, i) == slot_in(
                    old(self).blocks@,
                    start,
                    bs,
                    i,
                )
            } by {
                lemma_coords(i, index as int, bs);
                lemma_coords(start, i, bs);
                if i < index {
                    assert(slot_in(old(self).blocks@, start, bs, i) is Some);
                    let b = i / bs - start / bs;
                    assert(before[b] == old(self).blocks[b]);
                }
            }
            assert(self@.elems =~= old(self)@.elems.push(value));
        }
        index
    }

    /// Replaces the element at logical index `index`, if there is one.
    pub fn set(&mut self, index: usize, value: T) -> (done: bool)
        requires
            old(self).wf(),
        ensures
            final(self).wf(),
            done == old(self)@.contains_index(index as int),
            final(self)@.start == old(self)@.start,
            done ==> final(self)@.elems == old(self)@.elems.update(
                index - old(self)@.start,
                value,
            ),
            !done ==> final(self)@.elems == old(self)@.elems,
    {
        if index >= self.length + self.start_offset {
            return false;
        }
        if index < self.start_offset {
            return false;
        }
        proof {
            lemma_coords(self.start_offset as int, index as int, BLOCK_SIZE as int);
            assert(slot_in(self.blocks@, self.start_offset as int, BLOCK_SIZE as int, index as int)
                is Some);
        }
        let block_index = index / BLOCK_SIZE - self.start_offset / BLOCK_SIZE;
        let offset = index % BLOCK_SIZE;
        self.blocks[block_index][offset] = Some(value);
        proof {
            let bs = BLOCK_SIZE as int;
            let start = self.start_offset as int;
            assert forall|i: int| start <= i < start + self.length implies {
                &&& 0 <= i / bs - start / bs < self.blocks.len()
                &&& (#[trigger] slot_in(self.blocks@, start, bs, i)) is Some
                &&& i != index ==> slot_in(self.blocks@, start, bs, i) == slot_in(
                    old(self).blocks@,
                    start,
                    bs,
                    i,
                )
            } by {
                lemma_coords(i, index as int, bs);
                assert(slot_in(old(self).blocks@, start, bs, i) is Some);
            }
            assert(self@.elems =~= old(self)@.elems.update(index - start, value));
        }
        true
    }

    /// Hands what a read at `index` sees to `f`: the element, or `None`
    /// where `index` lies outside the live range.
    pub fn get_with<R, F: Fn(&Option<T>) -> R>(&self, index: usize, f: F) -> (r: R)
        requires
            self.wf(),
            call_requires(f, (&self@.lookup(index as int),)),
        ensures
            call_ensures(f, (&self@.lookup(index as int),), r),
    {
        if index >= self.length + self.start_offset {
            return f(&None);
        }
        if index < self.start_offset {
            return f(&None);
        }
        proof {
            lemma_coords(self.start_offset as int, index as int, BLOCK_SIZE as int);
            assert(slot_in(self.blocks@, self.start_offset as int, BLOCK_SIZE as int, index as int)
                is Some);
        }
        let block_index = index / BLOCK_SIZE - self.start_offset / BLOCK_SIZE;
        let offset = index % BLOCK_SIZE;
        f(&self.blocks[block_index][offset])
    }

    /// A copy of the element at logical index `index`.
    pub fn get(&self, index: usize) -> (r: Result<T, ()>)
        requires
            self.wf(),
        ensures
            r is Ok <==> self@.contains_index(index as int),
            r is Ok ==> cloned(self@.at(index as int), r.unwrap()),
    {
        let copy = |x: &Option<T>| -> (r: Result<T, ()>)
            ensures
                r is Ok <==> *x is Some,
                r is Ok ==> cloned(x.unwrap(), r.unwrap()),
            {
                match x {
                    Some(v) => Ok(v.clone()),
                    None => Err(()),
                }
            };
        self.get_with(index, copy)
    }

    /// Drops every element whose logical index is below `idx`.  Fails, and
    /// changes nothing, where `idx` lies outside `start ..= end`.
    pub fn remove_before(&mut self, idx: usize) -> (r: Result<(), ()>)
        requires
            old(self).wf(),
        ensures
            final(self).wf(),
            r is Ok <==> old(self)@.start <= idx <= old(self)@.end(),
            r is Ok ==> final(self)@.start == idx && final(self)@.elems == old(self)@.elems.skip(
                idx - old(self)@.start,
            ),
            r is Err ==> final(self)@ == old(self)@,
    {
        if idx > self.start_offset + self.length {
            return Err(());
        }
        if idx < self.start_offset {
            return Err(());
        }
        let ghost bs = BLOCK_SIZE as int;
        let ghost start = self.start_offset as int;
        proof {
            lemma_coords(start, idx as int, bs);
            lemma_coords(idx as int, idx as int, bs);
            if idx > start {
                lemma_next_block(idx - 1, bs);
                lemma_coords(start, idx - 1, bs);
                assert(slot_in(self.blocks@, start, bs, idx - 1) is Some);
            }
        }
        let whole = idx / BLOCK_SIZE - self.start_offset / BLOCK_SIZE;
        let head = idx % BLOCK_SIZE;
        let low = if whole == 0 {
            self.start_offset % BLOCK_SIZE
        } else {
            0
        };
        assert(whole <= self.blocks.len());
        assert(low < head ==> whole < self.blocks.len());
        let mut k: usize = 0;
        while k < whole
            invariant
                k <= whole <= old(self).blocks.len(),
                self.start_offset == old(self).start_offset,
                self.length == old(self).length,
                self.blocks@ == old(self).blocks@.skip(k as int),
            decreases whole - k,
        {
            self.blocks.remove(0);
            k = k + 1;
            assert(self.blocks@ =~= old(self).blocks@.skip(k as int));
        }
        let mut j: usize = low;
        while j < head
            invariant
                low <= j,
                low < head ==> whole < old(self).blocks.len(),
                head <= BLOCK_SIZE,
                self.start_offset == old(self).start_offset,
                self.length == old(self).length,
                self.blocks.len() == old(self).blocks.len() - whole,
                forall|b: int|
                    0 <= b < self.blocks.len() ==> (#[trigger] self.blocks[b]).len() == BLOCK_SIZE,
                forall|b: int|
                    1 <= b < self.blocks.len() ==> #[trigger] self.blocks[b] == old(self).blocks[b
                        + whole],
                forall|o: int|
                    head <= o < BLOCK_SIZE && self.blocks.len() > 0 ==> #[trigger] self.blocks[0][o]
                        == old(self).blocks[whole as int][o],
            decreases head - j,
        {
            self.blocks[0][j] = None;
            j = j + 1;
        }
        self.length = self.length - (idx - self.start_offset);
        self.start_offset = idx;
        proof {
            assert forall|i: int| idx <= i < idx + self.length implies {
                &&& 0 <= i / bs - (idx as int) / bs < self.blocks.len()
                &&& (#[trigger] slot_in(self.blocks@, idx as int, bs, i)) is Some
                &&& slot_in(self.blocks@, idx as int, bs, i) == slot_in(
                    old(self).blocks@,
                    start,
                    bs,
                    i,
                )
            } by {
                lemma_coords(idx as int, i, bs);
                assert(slot_in(old(self).blocks@, start, bs, i) is Some);
                let b = i / bs - (idx as int) / bs;
                if b >= 1 {
                    assert(self.blocks[b] == old(self).blocks[b + whole]);
                } else {
                    assert(self.blocks[0][i % bs] == old(self).blocks[whole as int][i % bs]);
                }
            }
            assert(self@.elems =~= old(self)@.elems.skip(idx - start));
        }
        Ok(())
    }
}

} // verus!
