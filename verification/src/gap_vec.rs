//! The element-generic gap buffer.
//!
//! `GapVec<T>` keeps its elements in two contiguous runs of storage slots —
//! the front region at the start and the back region at the end — with the
//! unused slots between them forming the gap. Each slot holds `Some` element
//! while live and `None` while part of the gap, so elements of any type can
//! move in and out of the structure without being copied.

use vstd::prelude::*;

use crate::raw::{spec_fit_capacity, MIN_RESERVE};

verus! {

/// A gap buffer over elements of type `T`.
pub struct GapVec<T> {
    slots: Vec<Option<T>>,
    front_len: usize,
    back_len: usize,
}

impl<T> View for GapVec<T> {
    type V = Seq<T>;

    /// The logical contents: front region followed by back region.
    open spec fn view(&self) -> Seq<T> {
        self.front_elems() + self.back_elems()
    }
}

impl<T> GapVec<T> {
    /// The number of element slots allocated.
    pub closed spec fn spec_capacity(&self) -> int {
        self.slots@.len() as int
    }

    /// The elements of the front region, in logical order.
    pub closed spec fn front_elems(&self) -> Seq<T> {
        Seq::new(self.front_len as nat, |i: int| self.slots@[i]->Some_0)
    }

    /// The elements of the back region, in logical order.
    pub closed spec fn back_elems(&self) -> Seq<T> {
        Seq::new(
            self.back_len as nat,
            |i: int| self.slots@[self.slots@.len() - self.back_len + i]->Some_0,
        )
    }

    /// Structural invariant: the two regions fit in the allocation, the
    /// capacity stays within the signed offset range, and every live slot
    /// holds an element.
    pub closed spec fn wf(&self) -> bool {
        &&& self.front_len + self.back_len <= self.slots@.len() <= isize::MAX as int
        &&& forall|i: int| 0 <= i < self.front_len ==> (#[trigger] self.slots@[i]) is Some
        &&& forall|i: int|
            self.slots@.len() - self.back_len <= i < self.slots@.len() ==> (
            #[trigger] self.slots@[i]) is Some
    }

    /// Bounds that [`GapVec::wf`] guarantees: the regions fit in the
    /// capacity, which stays within the signed offset range.
    pub proof fn lemma_wf_bounds(&self)
        requires
            self.wf(),
        ensures
            self@.len() == self.front_elems().len() + self.back_elems().len(),
            self@.len() <= self.spec_capacity() <= isize::MAX as int,
    {
    }

    /// A new, empty gap buffer without an allocation.
    pub fn new() -> (buf: Self)
        ensures
            buf.wf(),
            buf.front_elems() == Seq::<T>::empty(),
            buf.back_elems() == Seq::<T>::empty(),
            buf.spec_capacity() == 0,
    {
        let buf = GapVec { slots: Vec::new(), front_len: 0, back_len: 0 };
        proof {
            assert(buf.front_elems() =~= Seq::<T>::empty());
            assert(buf.back_elems() =~= Seq::<T>::empty());
        }
        buf
    }

    /// A new, empty gap buffer with `capacity` element slots.
    #[verifier::loop_isolation(false)]
    pub fn with_capacity(capacity: usize) -> (buf: Self)
        requires
            capacity <= isize::MAX as usize,
        ensures
            buf.wf(),
            buf.front_elems() == Seq::<T>::empty(),
            buf.back_elems() == Seq::<T>::empty(),
            buf.spec_capacity() == capacity,
    {
        let mut slots: Vec<Option<T>> = Vec::new();
        while slots.len() < capacity
            invariant
                slots@.len() <= capacity,
            decreases capacity - slots@.len(),
        {
            slots.push(None);
        }
        let buf = GapVec { slots, front_len: 0, back_len: 0 };
        proof {
            assert(buf.front_elems() =~= Seq::<T>::empty());
            assert(buf.back_elems() =~= Seq::<T>::empty());
        }
        buf
    }

    /// Adopts a vector's elements as the entire front region.
    #[verifier::loop_isolation(false)]
    pub fn from_vec(v: Vec<T>) -> (buf: Self)
        requires
            v@.len() <= isize::MAX as int,
        ensures
            buf.wf(),
            buf.front_elems() == v@,
            buf.back_elems() == Seq::<T>::empty(),
            buf.spec_capacity() == v@.len(),
            buf@ == v@,
    {
        let ghost orig = v@;
        let n = v.len();
        let mut v = v;
        let mut slots: Vec<Option<T>> = Vec::new();
        while slots.len() < n
            invariant
                slots@.len() <= n,
            decreases n - slots@.len(),
        {
            slots.push(None);
        }
        let mut k = n;
        while k > 0
            invariant
                k <= n,
                v@ == orig.subrange(0, k as int),
                slots@.len() == n,
                forall|i: int| k <= i < n ==> #[trigger] slots@[i] == Some(orig[i]),
            decreases k,
        {
            k = k - 1;
            if let Some(e) = v.pop() {
                slots[k] = Some(e);
            } else {
                proof {
                    assert(false);
                }
            }
            proof {
                assert(v@ =~= orig.subrange(0, k as int));
            }
        }
        let buf = GapVec { slots, front_len: n, back_len: 0 };
        proof {
            assert(buf.front_elems() =~= orig);
            assert(buf.back_elems() =~= Seq::<T>::empty());
            assert(buf@ =~= orig);
        }
        buf
    }

    /// The number of element slots allocated.
    pub fn capacity(&self) -> (cap: usize)
        ensures
            cap == self.spec_capacity(),
    {
        self.slots.len()
    }

    /// The number of elements in both regions together.
    pub fn len(&self) -> (n: usize)
        requires
            self.wf(),
        ensures
            n == self@.len(),
    {
        self.front_len + self.back_len
    }

    /// Whether the gap buffer holds no elements.
    pub fn is_empty(&self) -> (e: bool)
        requires
            self.wf(),
        ensures
            e == (self@.len() == 0),
    {
        self.front_len == 0 && self.back_len == 0
    }

    /// Grows the allocation to exactly `new_cap` slots and moves the back
    /// region to the new end.
    #[verifier::loop_isolation(false)]
    fn grow_to(&mut self, new_cap: usize)
        requires
            old(self).wf(),
            old(self).spec_capacity() <= new_cap <= isize::MAX as usize,
        ensures
            final(self).wf(),
            final(self).spec_capacity() == new_cap,
            final(self).front_elems() == old(self).front_elems(),
            final(self).back_elems() == old(self).back_elems(),
    {
        let old_cap = self.slots.len();
        while self.slots.len() < new_cap
            invariant
                old_cap <= self.slots@.len() <= new_cap,
                self.front_len == old(self).front_len,
                self.back_len == old(self).back_len,
                forall|i: int| 0 <= i < old_cap ==> self.slots@[i] == old(self).slots@[i],
            decreases new_cap - self.slots@.len(),
        {
            self.slots.push(None);
        }
        let ghost mid = self.slots@;
        let src = old_cap - self.back_len;
        let dst = new_cap - self.back_len;
        let mut k = self.back_len;
        while k > 0
            invariant
                k <= self.back_len,
                self.front_len == old(self).front_len,
                self.back_len == old(self).back_len,
                self.slots@.len() == new_cap,
                forall|i: int| 0 <= i < src + k ==> self.slots@[i] == mid[i],
                forall|j: int|
                    k <= j < self.back_len ==> #[trigger] self.slots@[dst + j] == mid[src + j],
            decreases k,
        {
            k = k - 1;
            let e = self.slots[src + k].take();
            self.slots[dst + k] = e;
        }
        proof {
            assert forall|i: int| 0 <= i < self.front_len implies (
            #[trigger] self.slots@[i]) is Some by {
                assert(self.slots@[i] == mid[i]);
                assert(mid[i] == old(self).slots@[i]);
            }
            assert forall|i: int|
                self.slots@.len() - self.back_len <= i < self.slots@.len() implies (
            #[trigger] self.slots@[i]) is Some by {
                let j = i - (new_cap - self.back_len);
                assert(self.slots@[dst + j] == mid[src + j]);
                assert(mid[src + j] == old(self).slots@[src + j]);
            }
            assert(self.front_elems() =~= old(self).front_elems());
            assert forall|j: int| 0 <= j < self.back_len implies self.back_elems()[j] == old(
                self,
            ).back_elems()[j] by {
                assert(self.slots@[dst + j] == mid[src + j]);
                assert(mid[src + j] == old(self).slots@[src + j]);
            }
            assert(self.back_elems() =~= old(self).back_elems());
        }
    }

    /// Ensures the gap can take `additional` more elements, doubling the
    /// capacity with a floor of [`MIN_RESERVE`] slots when it cannot.
    pub fn reserve(&mut self, additional: usize)
        requires
            old(self).wf(),
            old(self)@.len() + additional <= isize::MAX as int,
        ensures
            final(self).wf(),
            final(self).front_elems() == old(self).front_elems(),
            final(self).back_elems() == old(self).back_elems(),
            final(self).spec_capacity() == spec_fit_capacity(
                old(self).spec_capacity(),
                old(self)@.len() + additional as int,
            ),
            final(self).spec_capacity() >= final(self)@.len() + additional,
    {
        proof {
            self.lemma_wf_bounds();
        }
        let cap = self.slots.len();
        let required = self.front_len + self.back_len + additional;
        if required > cap {
            let doubled = if 2 * cap < MIN_RESERVE {
                MIN_RESERVE
            } else if 2 * cap > isize::MAX as usize {
                isize::MAX as usize
            } else {
                2 * cap
            };
            let target = if required > doubled {
                required
            } else {
                doubled
            };
            self.grow_to(target);
        }
    }

    /// Appends one element to the front region. Amortized constant time.
    pub fn push(&mut self, element: T)
        requires
            old(self).wf(),
            old(self)@.len() + 1 <= isize::MAX as int,
        ensures
            final(self).wf(),
            final(self).front_elems() == old(self).front_elems().push(element),
            final(self).back_elems() == old(self).back_elems(),
            final(self).spec_capacity() == spec_fit_capacity(
                old(self).spec_capacity(),
                old(self)@.len() + 1int,
            ),
    {
        self.reserve(1);
        self.slots[self.front_len] = Some(element);
        self.front_len = self.front_len + 1;
        proof {
            assert(final(self).front_elems() =~= old(self).front_elems().push(element));
            assert(final(self).back_elems() =~= old(self).back_elems());
        }
    }

    /// Prepends one element to the back region. Amortized constant time.
    pub fn push_back(&mut self, element: T)
        requires
            old(self).wf(),
            old(self)@.len() + 1 <= isize::MAX as int,
        ensures
            final(self).wf(),
            final(self).front_elems() == old(self).front_elems(),
            final(self).back_elems() == seq![element] + old(self).back_elems(),
            final(self).spec_capacity() == spec_fit_capacity(
                old(self).spec_capacity(),
                old(self)@.len() + 1int,
            ),
    {
        self.reserve(1);
        self.back_len = self.back_len + 1;
        let cap = self.slots.len();
        self.slots[cap - self.back_len] = Some(element);
        proof {
            assert(final(self).front_elems() =~= old(self).front_elems());
            assert(final(self).back_elems() =~= seq![element] + old(self).back_elems());
        }
    }

    /// Removes and returns the last element of the front region, or `None`
    /// when the front region is empty. Constant time.
    pub fn pop(&mut self) -> (r: Option<T>)
        requires
            old(self).wf(),
        ensures
            final(self).wf(),
            final(self).spec_capacity() == old(self).spec_capacity(),
            final(self).back_elems() == old(self).back_elems(),
            old(self).front_elems().len() > 0 ==> {
                &&& r == Some(old(self).front_elems().last())
                &&& final(self).front_elems() == old(self).front_elems().drop_last()
            },
            old(self).front_elems().len() == 0 ==> r is None && final(self).front_elems() == old(
                self,
            ).front_elems(),
    {
        if self.front_len == 0 {
            None
        } else {
            self.front_len = self.front_len - 1;
            let e = self.slots[self.front_len].take();
            proof {
                assert(final(self).front_elems() =~= old(self).front_elems().drop_last());
                assert(final(self).back_elems() =~= old(self).back_elems());
            }
            e
        }
    }

    /// Removes and returns the first element of the back region, or `None`
    /// when the back region is empty. Constant time.
    pub fn pop_back(&mut self) -> (r: Option<T>)
        requires
            old(self).wf(),
        ensures
            final(self).wf(),
            final(self).spec_capacity() == old(self).spec_capacity(),
            final(self).front_elems() == old(self).front_elems(),
            old(self).back_elems().len() > 0 ==> {
                &&& r == Some(old(self).back_elems().first())
                &&& final(self).back_elems() == old(self).back_elems().drop_first()
            },
            old(self).back_elems().len() == 0 ==> r is None && final(self).back_elems() == old(
                self,
            ).back_elems(),
    {
        if self.back_len == 0 {
            None
        } else {
            let cap = self.slots.len();
            let e = self.slots[cap - self.back_len].take();
            self.back_len = self.back_len - 1;
            proof {
                assert(final(self).front_elems() =~= old(self).front_elems());
                assert(final(self).back_elems() =~= old(self).back_elems().drop_first());
            }
            e
        }
    }

    /// A reference to the element at logical index `index`, or `None` when
    /// out of range. Constant time.
    pub fn get(&self, index: usize) -> (r: Option<&T>)
        requires
            self.wf(),
        ensures
            index < self@.len() ==> (r matches Some(e) && *e == self@[index as int]),
            index >= self@.len() ==> r is None,
    {
        if index < self.front_len {
            self.slots[index].as_ref()
        } else {
            let j = index - self.front_len;
            if j < self.back_len {
                let cap = self.slots.len();
                self.slots[cap - self.back_len + j].as_ref()
            } else {
                None
            }
        }
    }

    /// A mutable reference to the element at logical index `index`, or
    /// `None` when out of range. Writing through the reference changes that
    /// element of the contents and nothing else. Constant time.
    pub fn get_mut(&mut self, index: usize) -> (r: Option<&mut T>)
        requires
            old(self).wf(),
        ensures
            final(self).wf(),
            final(self).spec_capacity() == old(self).spec_capacity(),
            index >= old(self)@.len() ==> r is None && *final(self) == *old(self),
            index < old(self)@.len() ==> (r matches Some(e) && *e == old(self)@[index as int]
                && final(self)@ =~= old(self)@.update(index as int, *final(e))
                && final(self).front_elems() =~= (if index < old(self).front_elems().len() {
                old(self).front_elems().update(index as int, *final(e))
            } else {
                old(self).front_elems()
            }) && final(self).back_elems() =~= (if index < old(self).front_elems().len() {
                old(self).back_elems()
            } else {
                old(self).back_elems().update(index - old(self).front_elems().len(), *final(e))
            })),
    {
        if index < self.front_len {
            self.slots[index].as_mut()
        } else {
            let j = index - self.front_len;
            if j < self.back_len {
                let cap = self.slots.len();
                self.slots[cap - self.back_len + j].as_mut()
            } else {
                None
            }
        }
    }

    /// Moves the gap boundary to logical index `index`: afterwards the front
    /// region holds the first `index` elements and the back region the rest.
    /// Costs time proportional to the distance the boundary moved.
    #[verifier::loop_isolation(false)]
    pub fn set_gap(&mut self, index: usize)
        requires
            old(self).wf(),
            index <= old(self)@.len(),
        ensures
            final(self).wf(),
            final(self).spec_capacity() == old(self).spec_capacity(),
            final(self).front_elems() == old(self)@.subrange(0, index as int),
            final(self).back_elems() == old(self)@.subrange(
                index as int,
                old(self)@.len() as int,
            ),
            final(self)@ == old(self)@,
    {
        let cap = self.slots.len();
        let ghost orig = self.slots@;
        let ghost f0 = self.front_len as int;
        let ghost b0 = self.back_len as int;
        let ghost n = old(self)@.len() as int;
        let ghost i = index as int;
        if index < self.front_len {
            // Move the tail of the front region to the head of the back one,
            // highest element first.
            let moved = self.front_len - index;
            let dst = cap - self.back_len - moved;
            let mut k = moved;
            while k > 0
                invariant
                    k <= moved,
                    self.front_len == old(self).front_len,
                    self.back_len == old(self).back_len,
                    self.slots@.len() == cap,
                    forall|p: int| 0 <= p < index + k ==> self.slots@[p] == orig[p],
                    forall|j: int|
                        k <= j < moved ==> #[trigger] self.slots@[dst + j] == orig[index + j],
                    forall|p: int| cap - b0 <= p < cap ==> self.slots@[p] == orig[p],
                decreases k,
            {
                k = k - 1;
                let e = self.slots[index + k].take();
                self.slots[dst + k] = e;
            }
            self.front_len = index;
            self.back_len = self.back_len + moved;
            proof {
                let m = moved as int;
                assert forall|j: int| 0 <= j < n - i implies self.back_elems()[j] == old(
                    self,
                )@[i + j] && (#[trigger] self.slots@[dst + j]) is Some by {
                    if j < m {
                        assert(self.slots@[dst + j] == orig[i + j]);
                    } else {
                        assert(self.slots@[cap - b0 + (j - m)] == orig[cap - b0 + (j - m)]);
                    }
                }
                assert forall|j: int| 0 <= j < i implies self.front_elems()[j] == old(
                    self,
                )@[j] by {
                    assert(self.slots@[j] == orig[j]);
                }
                assert forall|p: int| 0 <= p < self.front_len implies (
                #[trigger] self.slots@[p]) is Some by {
                    assert(self.slots@[p] == orig[p]);
                }
                assert forall|p: int|
                    self.slots@.len() - self.back_len <= p < self.slots@.len() implies (
                #[trigger] self.slots@[p]) is Some by {
                    let j = p - dst;
                    if j < m {
                        assert(self.slots@[dst + j] == orig[i + j]);
                    } else {
                        assert(self.slots@[cap - b0 + (j - m)] == orig[cap - b0 + (j - m)]);
                    }
                }
            }
        } else if index > self.front_len {
            // Move the head of the back region to the tail of the front one,
            // lowest element first.
            let moved = index - self.front_len;
            let src = cap - self.back_len;
            let dst = self.front_len;
            let mut k: usize = 0;
            while k < moved
                invariant
                    k <= moved,
                    self.front_len == old(self).front_len,
                    self.back_len == old(self).back_len,
                    self.slots@.len() == cap,
                    forall|p: int| 0 <= p < dst ==> self.slots@[p] == orig[p],
                    forall|j: int|
                        0 <= j < k ==> #[trigger] self.slots@[dst + j] == orig[src + j],
                    forall|p: int| src + k <= p < cap ==> self.slots@[p] == orig[p],
                decreases moved - k,
            {
                let e = self.slots[src + k].take();
                self.slots[dst + k] = e;
                k = k + 1;
            }
            self.front_len = index;
            self.back_len = self.back_len - moved;
            proof {
                let m = moved as int;
                assert forall|j: int| 0 <= j < i implies self.front_elems()[j] == old(
                    self,
                )@[j] && (#[trigger] self.slots@[j]) is Some by {
                    if j < f0 {
                        assert(self.slots@[j] == orig[j]);
                    } else {
                        assert(self.slots@[f0 + (j - f0)] == orig[src + (j - f0)]);
                    }
                }
                assert forall|j: int| 0 <= j < n - i implies self.back_elems()[j] == old(
                    self,
                )@[i + j] by {
                    assert(self.slots@[cap - (b0 - m) + j] == orig[cap - b0 + (m + j)]);
                }
                assert forall|p: int| 0 <= p < self.front_len implies (
                #[trigger] self.slots@[p]) is Some by {
                    if p < f0 {
                        assert(self.slots@[p] == orig[p]);
                    } else {
                        assert(self.slots@[f0 + (p - f0)] == orig[src + (p - f0)]);
                    }
                }
                assert forall|p: int|
                    self.slots@.len() - self.back_len <= p < self.slots@.len() implies (
                #[trigger] self.slots@[p]) is Some by {
                    let j = p - (cap - (b0 - m));
                    assert(self.slots@[cap - (b0 - m) + j] == orig[cap - b0 + (m + j)]);
                }
            }
        }
        proof {
            assert(self.front_elems() =~= old(self)@.subrange(0, i));
            assert(self.back_elems() =~= old(self)@.subrange(i, n));
            assert(self@ =~= old(self)@);
        }
    }
}

impl<T: Copy> GapVec<T> {
    /// A gap buffer holding the elements of `slice` as its front region.
    pub fn from_slice(slice: &[T]) -> (buf: Self)
        requires
            slice@.len() <= isize::MAX as int,
        ensures
            buf.wf(),
            buf.front_elems() == slice@,
            buf.back_elems() == Seq::<T>::empty(),
            buf@ == slice@,
    {
        let mut buf = Self::new();
        buf.push_slice(slice);
        proof {
            assert(buf.front_elems() =~= slice@);
            assert(buf@ =~= slice@);
        }
        buf
    }

    /// Appends the elements of `slice` to the front region, in order. At
    /// most one reallocation.
    #[verifier::loop_isolation(false)]
    pub fn push_slice(&mut self, slice: &[T])
        requires
            old(self).wf(),
            old(self)@.len() + slice@.len() <= isize::MAX as int,
        ensures
            final(self).wf(),
            final(self).front_elems() == old(self).front_elems() + slice@,
            final(self).back_elems() == old(self).back_elems(),
            final(self).spec_capacity() == spec_fit_capacity(
                old(self).spec_capacity(),
                old(self)@.len() + slice@.len() as int,
            ),
    {
        self.reserve(slice.len());
        let ghost mid = *self;
        let mut i: usize = 0;
        while i < slice.len()
            invariant
                i <= slice@.len(),
                self.front_len == mid.front_len,
                self.back_len == mid.back_len,
                self.slots@.len() == mid.slots@.len(),
                forall|p: int| 0 <= p < self.front_len ==> self.slots@[p] == mid.slots@[p],
                forall|j: int|
                    0 <= j < i ==> #[trigger] self.slots@[self.front_len + j] == Some(slice@[j]),
                forall|p: int|
                    self.slots@.len() - self.back_len <= p < self.slots@.len()
                        ==> self.slots@[p] == mid.slots@[p],
            decreases slice@.len() - i,
        {
            let e = *vstd::slice::slice_index_get(slice, i);
            self.slots[self.front_len + i] = Some(e);
            i = i + 1;
        }
        self.front_len = self.front_len + slice.len();
        proof {
            let f0 = mid.front_len as int;
            assert forall|p: int| 0 <= p < self.front_len implies self.front_elems()[p] == (old(
                self,
            ).front_elems() + slice@)[p] && (#[trigger] self.slots@[p]) is Some by {
                if p < f0 {
                    assert(self.slots@[p] == mid.slots@[p]);
                    assert(mid.front_elems()[p] == old(self).front_elems()[p]);
                } else {
                    assert(self.slots@[f0 + (p - f0)] == Some(slice@[p - f0]));
                }
            }
            assert(self.front_elems() =~= old(self).front_elems() + slice@);
            assert forall|j: int| 0 <= j < self.back_len implies self.back_elems()[j] == old(
                self,
            ).back_elems()[j] && (#[trigger] self.slots@[self.slots@.len() - self.back_len + j])
                is Some by {
                assert(self.slots@[self.slots@.len() - self.back_len + j] == mid.slots@[
                    mid.slots@.len() - mid.back_len + j]);
                assert(mid.back_elems()[j] == old(self).back_elems()[j]);
            }
            assert forall|p: int|
                self.slots@.len() - self.back_len <= p < self.slots@.len() implies (
            #[trigger] self.slots@[p]) is Some by {
                assert(self.slots@[self.slots@.len() - self.back_len + (p - (self.slots@.len()
                    - self.back_len))] is Some);
            }
            assert(self.back_elems() =~= old(self).back_elems());
        }
    }

    /// Prepends the elements of `slice` to the back region, in order. At
    /// most one reallocation.
    #[verifier::loop_isolation(false)]
    pub fn push_slice_back(&mut self, slice: &[T])
        requires
            old(self).wf(),
            old(self)@.len() + slice@.len() <= isize::MAX as int,
        ensures
            final(self).wf(),
            final(self).front_elems() == old(self).front_elems(),
            final(self).back_elems() == slice@ + old(self).back_elems(),
            final(self).spec_capacity() == spec_fit_capacity(
                old(self).spec_capacity(),
                old(self)@.len() + slice@.len() as int,
            ),
    {
        self.reserve(slice.len());
        let ghost mid = *self;
        self.back_len = self.back_len + slice.len();
        let start = self.slots.len() - self.back_len;
        let mut i: usize = 0;
        while i < slice.len()
            invariant
                i <= slice@.len(),
                self.front_len == mid.front_len,
                self.back_len == mid.back_len + slice@.len(),
                self.slots@.len() == mid.slots@.len(),
                start == self.slots@.len() - self.back_len,
                forall|p: int| 0 <= p < self.front_len ==> self.slots@[p] == mid.slots@[p],
                forall|j: int|
                    0 <= j < i ==> #[trigger] self.slots@[start + j] == Some(slice@[j]),
                forall|p: int|
                    self.slots@.len() - mid.back_len <= p < self.slots@.len()
                        ==> self.slots@[p] == mid.slots@[p],
            decreases slice@.len() - i,
        {
            let e = *vstd::slice::slice_index_get(slice, i);
            self.slots[start + i] = Some(e);
            i = i + 1;
        }
        proof {
            let k = slice@.len() as int;
            let b0 = mid.back_len as int;
            assert forall|p: int| 0 <= p < self.front_len implies self.front_elems()[p] == old(
                self,
            ).front_elems()[p] && (#[trigger] self.slots@[p]) is Some by {
                assert(self.slots@[p] == mid.slots@[p]);
                assert(mid.front_elems()[p] == old(self).front_elems()[p]);
            }
            assert(self.front_elems() =~= old(self).front_elems());
            assert forall|j: int| 0 <= j < self.back_len implies self.back_elems()[j] == (slice@
                + old(self).back_elems())[j] && (#[trigger] self.slots@[start + j]) is Some by {
                if j < k {
                    assert(self.slots@[start + j] == Some(slice@[j]));
                } else {
                    assert(self.slots@[self.slots@.len() - b0 + (j - k)] == mid.slots@[
                        mid.slots@.len() - b0 + (j - k)]);
                    assert(mid.back_elems()[j - k] == old(self).back_elems()[j - k]);
                }
            }
            assert forall|p: int|
                self.slots@.len() - self.back_len <= p < self.slots@.len() implies (
            #[trigger] self.slots@[p]) is Some by {
                let j = p - start;
                if j < k {
                    assert(self.slots@[start + j] == Some(slice@[j]));
                } else {
                    assert(self.slots@[self.slots@.len() - b0 + (j - k)] == mid.slots@[
                        mid.slots@.len() - b0 + (j - k)]);
                }
            }
            assert(self.back_elems() =~= slice@ + old(self).back_elems());
        }
    }

    /// The front region, copied out in logical order.
    #[verifier::loop_isolation(false)]
    pub fn front(&self) -> (v: Vec<T>)
        requires
            self.wf(),
        ensures
            v@ == self.front_elems(),
    {
        let mut v: Vec<T> = Vec::new();
        let mut i: usize = 0;
        while i < self.front_len
            invariant
                i <= self.front_len,
                v@ =~= self.front_elems().subrange(0, i as int),
            decreases self.front_len - i,
        {
            if let Some(e) = self.slots[i].as_ref() {
                v.push(*e);
            } else {
                proof {
                    assert(false);
                }
            }
            i = i + 1;
            proof {
                assert(v@ =~= self.front_elems().subrange(0, i as int));
            }
        }
        proof {
            assert(v@ =~= self.front_elems());
        }
        v
    }

    /// The back region, copied out in logical order.
    #[verifier::loop_isolation(false)]
    pub fn back(&self) -> (v: Vec<T>)
        requires
            self.wf(),
        ensures
            v@ == self.back_elems(),
    {
        let start = self.slots.len() - self.back_len;
        let mut v: Vec<T> = Vec::new();
        let mut i: usize = 0;
        while i < self.back_len
            invariant
                i <= self.back_len,
                start == self.slots@.len() - self.back_len,
                v@ =~= self.back_elems().subrange(0, i as int),
            decreases self.back_len - i,
        {
            if let Some(e) = self.slots[start + i].as_ref() {
                v.push(*e);
            } else {
                proof {
                    assert(false);
                }
            }
            i = i + 1;
            proof {
                assert(v@ =~= self.back_elems().subrange(0, i as int));
            }
        }
        proof {
            assert(v@ =~= self.back_elems());
        }
        v
    }
}

} // verus!
