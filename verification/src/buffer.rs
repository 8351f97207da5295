//! A byte gap buffer: one allocation split into a front region, a gap of
//! spare capacity, and a back region.
//!
//! The front region occupies offsets `[0, front_len)` of the allocation and
//! the back region occupies `[capacity - back_len, capacity)`; the gap
//! between them holds no meaningful data. The logical contents are the front
//! region followed by the back region. Pushes next to the gap are cheap;
//! repositioning the gap costs time proportional to the distance moved.

use vstd::prelude::*;

use crate::raw::RawBuf;

verus! {

/// Spare headroom the growth policy adds beyond the current capacity:
/// a sixteenth of the capacity, and at least this floor.
pub const GROWTH_FLOOR: usize = 64;

/// A byte gap buffer.
pub struct GapBuffer {
    raw: RawBuf,
    front_len: usize,
    back_len: usize,
}

/// The least capacity the growth policy moves to from `cap`: `cap` plus a
/// sixteenth of itself, with a floor of [`GROWTH_FLOOR`] extra bytes.
pub open spec fn spec_min_growth(cap: int) -> int {
    cap + if cap / 16 > GROWTH_FLOOR as int {
        cap / 16
    } else {
        GROWTH_FLOOR as int
    }
}

/// The capacity after asking the growth policy to fit `required` bytes when
/// the current capacity is `cap`: unchanged if `required` already fits, else
/// the larger of `required` and [`spec_min_growth`].
pub open spec fn spec_new_capacity(cap: int, required: int) -> int {
    if required <= cap {
        cap
    } else if required > spec_min_growth(cap) {
        required
    } else {
        spec_min_growth(cap)
    }
}

/// The capacity the growth policy picks to fit `required` bytes, or `None`
/// when the current capacity `cap` suffices. Doubling-style amortization:
/// each growth adds at least a fixed fraction of the current capacity.
pub fn calc_new_capacity(cap: usize, required: usize) -> (r: Option<usize>)
    requires
        cap <= isize::MAX as usize,
    ensures
        required <= cap ==> r is None,
        required > cap ==> r == Some(spec_new_capacity(cap as int, required as int) as usize),
{
    if required <= cap {
        None
    } else {
        let sixteenth = cap / 16;
        let extra = if sixteenth > GROWTH_FLOOR {
            sixteenth
        } else {
            GROWTH_FLOOR
        };
        let min_cap = cap + extra;
        Some(if required > min_cap {
            required
        } else {
            min_cap
        })
    }
}

impl View for GapBuffer {
    type V = Seq<u8>;

    /// The logical contents: front region followed by back region.
    open spec fn view(&self) -> Seq<u8> {
        self.front_bytes() + self.back_bytes()
    }
}

impl GapBuffer {
    /// The size of the backing allocation.
    pub closed spec fn spec_capacity(&self) -> int {
        self.raw@.len() as int
    }

    /// The bytes of the front region, in logical order.
    pub closed spec fn front_bytes(&self) -> Seq<u8> {
        self.raw@.subrange(0, self.front_len as int)
    }

    /// The bytes of the back region, in logical order.
    pub closed spec fn back_bytes(&self) -> Seq<u8> {
        self.raw@.subrange(self.raw@.len() - self.back_len, self.raw@.len() as int)
    }

    /// Structural invariant: the two regions fit in the allocation and the
    /// capacity stays within the signed offset range.
    pub closed spec fn wf(&self) -> bool {
        self.front_len + self.back_len <= self.raw@.len() <= isize::MAX as int
    }

    /// Bounds that [`GapBuffer::wf`] guarantees: the regions fit in the
    /// capacity, which stays within the signed offset range.
    pub proof fn lemma_wf_bounds(&self)
        requires
            self.wf(),
        ensures
            self@.len() == self.front_bytes().len() + self.back_bytes().len(),
            self@.len() <= self.spec_capacity() <= isize::MAX as int,
    {
    }

    /// Whether the growth policy can fit `additional` more bytes without the
    /// capacity leaving the signed offset range.
    pub open spec fn can_reserve(&self, additional: int) -> bool {
        &&& self@.len() + additional <= isize::MAX as int
        &&& spec_new_capacity(self.spec_capacity(), self@.len() + additional)
            <= isize::MAX as int
    }

    /// A new, empty gap buffer without an allocation.
    pub fn new() -> (buf: Self)
        ensures
            buf.wf(),
            buf.front_bytes() == Seq::<u8>::empty(),
            buf.back_bytes() == Seq::<u8>::empty(),
            buf.spec_capacity() == 0,
    {
        let buf = GapBuffer { raw: RawBuf::new(), front_len: 0, back_len: 0 };
        proof {
            assert(buf.front_bytes() =~= Seq::<u8>::empty());
            assert(buf.back_bytes() =~= Seq::<u8>::empty());
        }
        buf
    }

    /// A new, empty gap buffer over an allocation of `capacity` bytes.
    pub fn with_capacity(capacity: usize) -> (buf: Self)
        requires
            capacity <= isize::MAX as usize,
        ensures
            buf.wf(),
            buf.front_bytes() == Seq::<u8>::empty(),
            buf.back_bytes() == Seq::<u8>::empty(),
            buf.spec_capacity() == capacity,
    {
        let buf = GapBuffer { raw: RawBuf::with_capacity(capacity), front_len: 0, back_len: 0 };
        proof {
            assert(buf.front_bytes() =~= Seq::<u8>::empty());
            assert(buf.back_bytes() =~= Seq::<u8>::empty());
        }
        buf
    }

    /// Adopts a vector's bytes as the entire front region, keeping them as
    /// the allocation.
    pub fn from_vec(v: Vec<u8>) -> (buf: Self)
        requires
            v@.len() <= isize::MAX as int,
        ensures
            buf.wf(),
            buf.front_bytes() == v@,
            buf.back_bytes() == Seq::<u8>::empty(),
            buf.spec_capacity() == v@.len(),
            buf@ == v@,
    {
        let len = v.len();
        let buf = GapBuffer { raw: RawBuf::from_vec(v), front_len: len, back_len: 0 };
        proof {
            assert(buf.front_bytes() =~= v@);
            assert(buf.back_bytes() =~= Seq::<u8>::empty());
            assert(buf@ =~= v@);
        }
        buf
    }

    /// The total capacity of the allocation.
    pub fn capacity(&self) -> (cap: usize)
        ensures
            cap == self.spec_capacity(),
    {
        self.raw.capacity()
    }

    /// The number of live bytes in both regions together.
    pub fn len(&self) -> (n: usize)
        requires
            self.wf(),
        ensures
            n == self@.len(),
    {
        self.front_len + self.back_len
    }

    /// Whether the buffer holds no bytes.
    pub fn is_empty(&self) -> (e: bool)
        requires
            self.wf(),
        ensures
            e == (self@.len() == 0),
    {
        self.front_len == 0 && self.back_len == 0
    }

    /// The length of the front region.
    pub fn front_len(&self) -> (n: usize)
        requires
            self.wf(),
        ensures
            n == self.front_bytes().len(),
    {
        self.front_len
    }

    /// The length of the back region.
    pub fn back_len(&self) -> (n: usize)
        requires
            self.wf(),
        ensures
            n == self.back_bytes().len(),
    {
        self.back_len
    }

    /// The front region as a slice.
    pub fn front(&self) -> (s: &[u8])
        requires
            self.wf(),
        ensures
            s@ == self.front_bytes(),
    {
        vstd::slice::slice_subrange(self.raw.as_slice(), 0, self.front_len)
    }

    /// The back region as a slice.
    pub fn back(&self) -> (s: &[u8])
        requires
            self.wf(),
        ensures
            s@ == self.back_bytes(),
    {
        let cap = self.raw.capacity();
        vstd::slice::slice_subrange(self.raw.as_slice(), cap - self.back_len, cap)
    }

    /// Reallocates to exactly `new_cap` bytes and moves the back region to
    /// the end of the new allocation.
    #[verifier::loop_isolation(false)]
    pub(crate) fn grow_to(&mut self, new_cap: usize)
        requires
            old(self).wf(),
            old(self).spec_capacity() <= new_cap <= isize::MAX as usize,
        ensures
            final(self).wf(),
            final(self).spec_capacity() == new_cap,
            final(self).front_bytes() == old(self).front_bytes(),
            final(self).back_bytes() == old(self).back_bytes(),
    {
        let old_cap = self.raw.capacity();
        self.raw.set_capacity(new_cap);
        // The back region sits at the end of the allocation, so it has to
        // move from the old end to the new one.
        let src = old_cap - self.back_len;
        let dst = new_cap - self.back_len;
        self.raw.copy_within(src, dst, self.back_len);
        proof {
            assert(self.front_bytes() =~= old(self).front_bytes());
            assert forall|j: int| 0 <= j < self.back_len implies self.back_bytes()[j]
                == old(self).back_bytes()[j] by {
                assert(self.back_bytes()[j] == self.raw@[dst + j]);
                assert(old(self).back_bytes()[j] == old(self).raw@[src + j]);
            }
            assert(self.back_bytes() =~= old(self).back_bytes());
        }
    }

    /// Ensures the gap can take `additional` more bytes, growing the
    /// allocation per the growth policy if it cannot.
    pub fn reserve(&mut self, additional: usize)
        requires
            old(self).wf(),
            old(self).can_reserve(additional as int),
        ensures
            final(self).wf(),
            final(self).front_bytes() == old(self).front_bytes(),
            final(self).back_bytes() == old(self).back_bytes(),
            final(self).spec_capacity() == spec_new_capacity(
                old(self).spec_capacity(),
                old(self)@.len() + additional as int,
            ),
            final(self).spec_capacity() >= final(self)@.len() + additional,
    {
        let required = self.front_len + self.back_len + additional;
        if let Some(new_cap) = calc_new_capacity(self.raw.capacity(), required) {
            self.grow_to(new_cap);
        }
    }

    /// Appends one byte to the front region. Amortized constant time.
    pub fn push(&mut self, byte: u8)
        requires
            old(self).wf(),
            old(self).can_reserve(1),
        ensures
            final(self).wf(),
            final(self).front_bytes() == old(self).front_bytes().push(byte),
            final(self).back_bytes() == old(self).back_bytes(),
            final(self).spec_capacity() == spec_new_capacity(
                old(self).spec_capacity(),
                old(self)@.len() + 1int,
            ),
    {
        self.reserve(1);
        self.raw.write(self.front_len, byte);
        self.front_len = self.front_len + 1;
        proof {
            assert(self.front_bytes() =~= old(self).front_bytes().push(byte));
            assert(self.back_bytes() =~= old(self).back_bytes());
        }
    }

    /// Prepends one byte to the back region. Amortized constant time.
    pub fn push_back(&mut self, byte: u8)
        requires
            old(self).wf(),
            old(self).can_reserve(1),
        ensures
            final(self).wf(),
            final(self).front_bytes() == old(self).front_bytes(),
            final(self).back_bytes() == seq![byte] + old(self).back_bytes(),
            final(self).spec_capacity() == spec_new_capacity(
                old(self).spec_capacity(),
                old(self)@.len() + 1int,
            ),
    {
        self.reserve(1);
        self.back_len = self.back_len + 1;
        let cap = self.raw.capacity();
        self.raw.write(cap - self.back_len, byte);
        proof {
            assert(self.front_bytes() =~= old(self).front_bytes());
            assert(self.back_bytes() =~= seq![byte] + old(self).back_bytes());
        }
    }

    /// Removes and returns the last byte of the front region, or `None` when
    /// the front region is empty. Constant time.
    pub fn pop(&mut self) -> (r: Option<u8>)
        requires
            old(self).wf(),
        ensures
            final(self).wf(),
            final(self).spec_capacity() == old(self).spec_capacity(),
            final(self).back_bytes() == old(self).back_bytes(),
            old(self).front_bytes().len() > 0 ==> {
                &&& r == Some(old(self).front_bytes().last())
                &&& final(self).front_bytes() == old(self).front_bytes().drop_last()
            },
            old(self).front_bytes().len() == 0 ==> r is None && *final(self) == *old(self),
    {
        if self.front_len > 0 {
            self.front_len = self.front_len - 1;
            let b = self.raw.read(self.front_len);
            proof {
                assert(self.front_bytes() =~= old(self).front_bytes().drop_last());
                assert(self.back_bytes() =~= old(self).back_bytes());
            }
            Some(b)
        } else {
            None
        }
    }

    /// Removes and returns the first byte of the back region, or `None` when
    /// the back region is empty. Constant time.
    pub fn pop_back(&mut self) -> (r: Option<u8>)
        requires
            old(self).wf(),
        ensures
            final(self).wf(),
            final(self).spec_capacity() == old(self).spec_capacity(),
            final(self).front_bytes() == old(self).front_bytes(),
            old(self).back_bytes().len() > 0 ==> {
                &&& r == Some(old(self).back_bytes().first())
                &&& final(self).back_bytes() == old(self).back_bytes().drop_first()
            },
            old(self).back_bytes().len() == 0 ==> r is None && *final(self) == *old(self),
    {
        if self.back_len > 0 {
            let cap = self.raw.capacity();
            let b = self.raw.read(cap - self.back_len);
            self.back_len = self.back_len - 1;
            proof {
                assert(self.front_bytes() =~= old(self).front_bytes());
                assert(self.back_bytes() =~= old(self).back_bytes().drop_first());
            }
            Some(b)
        } else {
            None
        }
    }

    /// The byte at logical index `index`, or `None` when out of range.
    /// Constant time.
    pub fn get(&self, index: usize) -> (r: Option<&u8>)
        requires
            self.wf(),
        ensures
            index < self@.len() ==> (r matches Some(b) && *b == self@[index as int]),
            index >= self@.len() ==> r is None,
    {
        if index < self.front_len {
            Some(self.raw.borrow(index))
        } else {
            let j = index - self.front_len;
            if j < self.back_len {
                let cap = self.raw.capacity();
                Some(self.raw.borrow(cap - self.back_len + j))
            } else {
                None
            }
        }
    }

    /// Appends the bytes of `slice` to the front region, in order. At most
    /// one reallocation.
    pub fn push_slice(&mut self, slice: &[u8])
        requires
            old(self).wf(),
            old(self).can_reserve(slice@.len() as int),
        ensures
            final(self).wf(),
            final(self).front_bytes() == old(self).front_bytes() + slice@,
            final(self).back_bytes() == old(self).back_bytes(),
            final(self).spec_capacity() == spec_new_capacity(
                old(self).spec_capacity(),
                old(self)@.len() + slice@.len() as int,
            ),
    {
        self.reserve(slice.len());
        let ghost mid = *self;
        self.raw.copy_from_slice(self.front_len, slice);
        self.front_len = self.front_len + slice.len();
        proof {
            let f0 = mid.front_bytes().len() as int;
            let k = slice@.len() as int;
            assert forall|j: int| 0 <= j < f0 + k implies self.front_bytes()[j] == (old(
                self,
            ).front_bytes() + slice@)[j] by {
                assert(self.front_bytes()[j] == self.raw@[j]);
                if j < f0 {
                    assert(self.raw@[j] == mid.raw@[j]);
                    assert(mid.front_bytes()[j] == mid.raw@[j]);
                } else {
                    assert(self.raw@[f0 + (j - f0)] == slice@[j - f0]);
                }
            }
            assert(self.front_bytes() =~= old(self).front_bytes() + slice@);
            let cap = self.raw@.len() as int;
            let b0 = mid.back_bytes().len() as int;
            assert forall|j: int| 0 <= j < b0 implies self.back_bytes()[j] == old(
                self,
            ).back_bytes()[j] by {
                assert(self.back_bytes()[j] == self.raw@[cap - b0 + j]);
                assert(self.raw@[cap - b0 + j] == mid.raw@[cap - b0 + j]);
                assert(mid.back_bytes()[j] == mid.raw@[cap - b0 + j]);
            }
            assert(self.back_bytes() =~= old(self).back_bytes());
        }
    }

    /// Prepends the bytes of `slice` to the back region, in order. At most
    /// one reallocation.
    pub fn push_slice_back(&mut self, slice: &[u8])
        requires
            old(self).wf(),
            old(self).can_reserve(slice@.len() as int),
        ensures
            final(self).wf(),
            final(self).front_bytes() == old(self).front_bytes(),
            final(self).back_bytes() == slice@ + old(self).back_bytes(),
            final(self).spec_capacity() == spec_new_capacity(
                old(self).spec_capacity(),
                old(self)@.len() + slice@.len() as int,
            ),
    {
        self.reserve(slice.len());
        let ghost mid = *self;
        self.back_len = self.back_len + slice.len();
        let cap = self.raw.capacity();
        self.raw.copy_from_slice(cap - self.back_len, slice);
        proof {
            let f0 = mid.front_bytes().len() as int;
            let b0 = mid.back_bytes().len() as int;
            let k = slice@.len() as int;
            let start = cap - b0 - k;
            assert forall|j: int| 0 <= j < f0 implies self.front_bytes()[j] == old(
                self,
            ).front_bytes()[j] by {
                assert(self.front_bytes()[j] == self.raw@[j]);
                assert(self.raw@[j] == mid.raw@[j]);
                assert(mid.front_bytes()[j] == mid.raw@[j]);
            }
            assert(self.front_bytes() =~= old(self).front_bytes());
            assert forall|j: int| 0 <= j < k + b0 implies self.back_bytes()[j] == (slice@ + old(
                self,
            ).back_bytes())[j] by {
                assert(self.back_bytes()[j] == self.raw@[start + j]);
                if j < k {
                    assert(self.raw@[start + j] == slice@[j]);
                } else {
                    assert(self.raw@[start + j] == mid.raw@[start + j]);
                    assert(mid.back_bytes()[j - k] == mid.raw@[cap - b0 + (j - k)]);
                }
            }
            assert(self.back_bytes() =~= slice@ + old(self).back_bytes());
        }
    }

    /// Drains up to `dest.len()` bytes off the tail of the front region into
    /// `dest`, in logical order, and returns how many bytes were moved.
    /// Moving fewer bytes than `dest` holds is not an error: it means the
    /// front region had only that many.
    #[verifier::loop_isolation(false)]
    pub fn pop_slice(&mut self, dest: &mut [u8]) -> (count: usize)
        requires
            old(self).wf(),
        ensures
            final(self).wf(),
            count == if old(dest)@.len() <= old(self).front_bytes().len() {
                old(dest)@.len() as int
            } else {
                old(self).front_bytes().len() as int
            },
            final(self).front_bytes() == old(self).front_bytes().subrange(
                0,
                old(self).front_bytes().len() - count,
            ),
            final(self).back_bytes() == old(self).back_bytes(),
            final(self).spec_capacity() == old(self).spec_capacity(),
            final(dest)@ == old(self).front_bytes().subrange(
                old(self).front_bytes().len() - count,
                old(self).front_bytes().len() as int,
            ) + old(dest)@.subrange(count as int, old(dest)@.len() as int),
    {
        let count = if dest.len() <= self.front_len {
            dest.len()
        } else {
            self.front_len
        };
        self.front_len = self.front_len - count;
        let start = self.front_len;
        let ghost snap = *self;
        let mut i: usize = 0;
        while i < count
            invariant
                i <= count,
                *self == snap,
                dest@.len() == old(dest)@.len(),
                count <= old(dest)@.len(),
                forall|j: int| 0 <= j < i ==> #[trigger] dest@[j] == self.raw@[start + j],
                forall|j: int| i <= j < dest@.len() ==> #[trigger] dest@[j] == old(dest)@[j],
            decreases count - i,
        {
            let b = self.raw.read(start + i);
            dest[i] = b;
            i = i + 1;
        }
        proof {
            assert(self.front_bytes() =~= old(self).front_bytes().subrange(
                0,
                old(self).front_bytes().len() - count,
            ));
            assert(self.back_bytes() =~= old(self).back_bytes());
            assert(dest@ =~= old(self).front_bytes().subrange(
                old(self).front_bytes().len() - count,
                old(self).front_bytes().len() as int,
            ) + old(dest)@.subrange(count as int, old(dest)@.len() as int));
        }
        count
    }

    /// Drains up to `dest.len()` bytes off the head of the back region into
    /// `dest`, in logical order, and returns how many bytes were moved.
    /// Moving fewer bytes than `dest` holds is not an error: it means the
    /// back region had only that many.
    #[verifier::loop_isolation(false)]
    pub fn pop_slice_back(&mut self, dest: &mut [u8]) -> (count: usize)
        requires
            old(self).wf(),
        ensures
            final(self).wf(),
            count == if old(dest)@.len() <= old(self).back_bytes().len() {
                old(dest)@.len() as int
            } else {
                old(self).back_bytes().len() as int
            },
            final(self).front_bytes() == old(self).front_bytes(),
            final(self).back_bytes() == old(self).back_bytes().subrange(
                count as int,
                old(self).back_bytes().len() as int,
            ),
            final(self).spec_capacity() == old(self).spec_capacity(),
            final(dest)@ == old(self).back_bytes().subrange(0, count as int) + old(
                dest,
            )@.subrange(count as int, old(dest)@.len() as int),
    {
        let count = if dest.len() <= self.back_len {
            dest.len()
        } else {
            self.back_len
        };
        let cap = self.raw.capacity();
        let start = cap - self.back_len;
        let ghost snap = *self;
        let mut i: usize = 0;
        while i < count
            invariant
                i <= count,
                *self == snap,
                dest@.len() == old(dest)@.len(),
                count <= old(dest)@.len(),
                forall|j: int| 0 <= j < i ==> #[trigger] dest@[j] == self.raw@[start + j],
                forall|j: int| i <= j < dest@.len() ==> #[trigger] dest@[j] == old(dest)@[j],
            decreases count - i,
        {
            let b = self.raw.read(start + i);
            dest[i] = b;
            i = i + 1;
        }
        self.back_len = self.back_len - count;
        proof {
            assert(self.front_bytes() =~= old(self).front_bytes());
            assert(self.back_bytes() =~= old(self).back_bytes().subrange(
                count as int,
                old(self).back_bytes().len() as int,
            ));
            assert(dest@ =~= old(self).back_bytes().subrange(0, count as int) + old(
                dest,
            )@.subrange(count as int, old(dest)@.len() as int));
        }
        count
    }

    /// Moves the gap boundary to logical index `index`: afterwards the front
    /// region holds the first `index` bytes of the contents and the back
    /// region the rest. Costs time proportional to the distance the boundary
    /// moved, never to the total length.
    pub fn set_gap(&mut self, index: usize)
        requires
            old(self).wf(),
            index <= old(self)@.len(),
        ensures
            set_gap_post(*old(self), *final(self), index as int),
            final(self)@ == old(self)@,
    {
        let cap = self.raw.capacity();
        let ghost f0 = self.front_len as int;
        let ghost b0 = self.back_len as int;
        let ghost n = old(self)@.len() as int;
        let ghost i = index as int;
        if index < self.front_len {
            // Move the tail of the front region to the head of the back one.
            let moved = self.front_len - index;
            let dst = cap - self.back_len - moved;
            self.raw.copy_within(index, dst, moved);
            self.front_len = index;
            self.back_len = self.back_len + moved;
            proof {
                let m = moved as int;
                assert forall|j: int| 0 <= j < i implies self.front_bytes()[j] == old(
                    self,
                )@[j] by {
                    assert(self.front_bytes()[j] == self.raw@[j]);
                    assert(self.raw@[j] == old(self).raw@[j]);
                    assert(old(self).front_bytes()[j] == old(self).raw@[j]);
                }
                assert forall|j: int| 0 <= j < n - i implies self.back_bytes()[j] == old(
                    self,
                )@[i + j] by {
                    assert(self.back_bytes()[j] == self.raw@[dst + j]);
                    if j < m {
                        assert(self.raw@[dst + j] == old(self).raw@[i + j]);
                        assert(old(self).front_bytes()[i + j] == old(self).raw@[i + j]);
                    } else {
                        assert(self.raw@[dst + j] == old(self).raw@[dst + j]);
                        assert(old(self).back_bytes()[j - m] == old(self).raw@[cap - b0 + (j
                            - m)]);
                    }
                }
            }
        } else if index > self.front_len {
            // Move the head of the back region to the tail of the front one.
            let moved = index - self.front_len;
            let src = cap - self.back_len;
            self.raw.copy_within(src, self.front_len, moved);
            self.front_len = index;
            self.back_len = self.back_len - moved;
            proof {
                let m = moved as int;
                assert forall|j: int| 0 <= j < i implies self.front_bytes()[j] == old(
                    self,
                )@[j] by {
                    assert(self.front_bytes()[j] == self.raw@[j]);
                    if j < f0 {
                        assert(self.raw@[j] == old(self).raw@[j]);
                        assert(old(self).front_bytes()[j] == old(self).raw@[j]);
                    } else {
                        assert(self.raw@[f0 + (j - f0)] == old(self).raw@[src + (j - f0)]);
                        assert(old(self).back_bytes()[j - f0] == old(self).raw@[src + (j - f0)]);
                    }
                }
                assert forall|j: int| 0 <= j < n - i implies self.back_bytes()[j] == old(
                    self,
                )@[i + j] by {
                    assert(self.back_bytes()[j] == self.raw@[cap - (b0 - m) + j]);
                    assert(self.raw@[cap - (b0 - m) + j] == old(self).raw@[cap - b0 + (m + j)]);
                    assert(old(self).back_bytes()[m + j] == old(self).raw@[cap - b0 + (m + j)]);
                }
            }
        }
        proof {
            assert(self.front_bytes() =~= old(self)@.subrange(0, index as int));
            assert(self.back_bytes() =~= old(self)@.subrange(
                index as int,
                old(self)@.len() as int,
            ));
            assert(self@ =~= old(self)@);
        }
    }

    /// Empties both regions without releasing the allocation.
    pub fn clear(&mut self)
        requires
            old(self).wf(),
        ensures
            final(self).wf(),
            final(self).front_bytes() == Seq::<u8>::empty(),
            final(self).back_bytes() == Seq::<u8>::empty(),
            final(self).spec_capacity() == old(self).spec_capacity(),
    {
        self.front_len = 0;
        self.back_len = 0;
        proof {
            assert(self.front_bytes() =~= Seq::<u8>::empty());
            assert(self.back_bytes() =~= Seq::<u8>::empty());
        }
    }

    /// Shrinks the front region to at most `len` bytes, keeping its head;
    /// the cut bytes become gap space.
    pub fn truncate_front(&mut self, len: usize)
        requires
            old(self).wf(),
        ensures
            final(self).wf(),
            final(self).front_bytes() == if len as int <= old(self).front_bytes().len() {
                old(self).front_bytes().subrange(0, len as int)
            } else {
                old(self).front_bytes()
            },
            final(self).back_bytes() == old(self).back_bytes(),
            final(self).spec_capacity() == old(self).spec_capacity(),
    {
        if len < self.front_len {
            self.front_len = len;
        }
        proof {
            assert(self.back_bytes() =~= old(self).back_bytes());
            if len as int <= old(self).front_bytes().len() {
                assert(self.front_bytes() =~= old(self).front_bytes().subrange(0, len as int));
            }
        }
    }

    /// Shrinks the back region to at most `len` bytes, keeping its tail;
    /// the cut bytes become gap space.
    pub fn truncate_back(&mut self, len: usize)
        requires
            old(self).wf(),
        ensures
            final(self).wf(),
            final(self).front_bytes() == old(self).front_bytes(),
            final(self).back_bytes() == if len as int <= old(self).back_bytes().len() {
                old(self).back_bytes().subrange(
                    old(self).back_bytes().len() - len,
                    old(self).back_bytes().len() as int,
                )
            } else {
                old(self).back_bytes()
            },
            final(self).spec_capacity() == old(self).spec_capacity(),
    {
        if len < self.back_len {
            self.back_len = len;
        }
        proof {
            assert(self.front_bytes() =~= old(self).front_bytes());
            if len as int <= old(self).back_bytes().len() {
                assert(self.back_bytes() =~= old(self).back_bytes().subrange(
                    old(self).back_bytes().len() - len,
                    old(self).back_bytes().len() as int,
                ));
            }
        }
    }

    /// Reallocates down to exactly `capacity` bytes, which must hold the
    /// current contents and not exceed the current capacity.
    pub fn shrink_to(&mut self, capacity: usize)
        requires
            old(self).wf(),
            old(self)@.len() <= capacity <= old(self).spec_capacity(),
        ensures
            final(self).wf(),
            final(self).spec_capacity() == capacity,
            final(self).front_bytes() == old(self).front_bytes(),
            final(self).back_bytes() == old(self).back_bytes(),
    {
        let cap = self.raw.capacity();
        let src = cap - self.back_len;
        let dst = capacity - self.back_len;
        self.raw.copy_within(src, dst, self.back_len);
        self.raw.set_capacity(capacity);
        proof {
            assert(self.front_bytes() =~= old(self).front_bytes());
            assert forall|j: int| 0 <= j < self.back_len implies self.back_bytes()[j]
                == old(self).back_bytes()[j] by {
                assert(self.back_bytes()[j] == self.raw@[dst + j]);
                assert(old(self).back_bytes()[j] == old(self).raw@[src + j]);
            }
            assert(self.back_bytes() =~= old(self).back_bytes());
        }
    }

    /// Releases all unused capacity.
    pub fn shrink_to_fit(&mut self)
        requires
            old(self).wf(),
        ensures
            final(self).wf(),
            final(self).spec_capacity() == old(self)@.len(),
            final(self).front_bytes() == old(self).front_bytes(),
            final(self).back_bytes() == old(self).back_bytes(),
    {
        let len = self.front_len + self.back_len;
        self.shrink_to(len);
    }

    /// Consumes the buffer and returns its contents as one contiguous
    /// vector, front region then back region.
    pub fn into_vec(self) -> (v: Vec<u8>)
        requires
            self.wf(),
        ensures
            v@ == self@,
    {
        let mut this = self;
        this.shrink_to_fit();
        proof {
            assert(this.raw@ =~= this.front_bytes() + this.back_bytes());
        }
        this.raw.into_vec()
    }

    /// A mutable reference to the byte at logical index `index`, or `None`
    /// when out of range. Writing through the reference changes that byte of
    /// the contents and nothing else. Constant time.
    pub fn get_mut(&mut self, index: usize) -> (r: Option<&mut u8>)
        requires
            old(self).wf(),
        ensures
            final(self).wf(),
            final(self).spec_capacity() == old(self).spec_capacity(),
            index >= old(self)@.len() ==> r is None && *final(self) == *old(self),
            index < old(self)@.len() ==> (r matches Some(b) && *b == old(self)@[index as int]
                && final(self)@ =~= old(self)@.update(index as int, *final(b))),
    {
        if index < self.front_len {
            Some(self.raw.borrow_mut(index))
        } else {
            let j = index - self.front_len;
            if j < self.back_len {
                let cap = self.raw.capacity();
                Some(self.raw.borrow_mut(cap - self.back_len + j))
            } else {
                None
            }
        }
    }

    /// The logical contents, copied out in order.
    #[verifier::loop_isolation(false)]
    pub fn iter(&self) -> (v: Vec<u8>)
        requires
            self.wf(),
        ensures
            v@ == self@,
    {
        let front = self.front();
        let back = self.back();
        let mut v: Vec<u8> = Vec::new();
        let mut i: usize = 0;
        while i < front.len()
            invariant
                i <= front@.len(),
                v@ == front@.subrange(0, i as int),
            decreases front@.len() - i,
        {
            v.push(*vstd::slice::slice_index_get(front, i));
            i = i + 1;
            proof {
                assert(v@ =~= front@.subrange(0, i as int));
            }
        }
        let mut j: usize = 0;
        while j < back.len()
            invariant
                j <= back@.len(),
                v@ == front@ + back@.subrange(0, j as int),
            decreases back@.len() - j,
        {
            v.push(*vstd::slice::slice_index_get(back, j));
            j = j + 1;
            proof {
                assert(v@ =~= front@ + back@.subrange(0, j as int));
            }
        }
        proof {
            assert(front@ =~= front@.subrange(0, front@.len() as int));
            assert(back@ =~= back@.subrange(0, back@.len() as int));
            assert(v@ =~= self@);
        }
        v
    }
}

/// Law: across any sequence of front pushes — each step related to the last
/// exactly as `push` promises — the front region ends up holding what it
/// held at the start followed by the pushed bytes in push order, and the
/// back region is untouched.
pub proof fn lemma_push_order(states: Seq<GapBuffer>, xs: Seq<u8>)
    requires
        states.len() == xs.len() + 1,
        forall|k: int|
            0 <= k < xs.len() ==> #[trigger] states[k + 1].front_bytes()
                == states[k].front_bytes().push(xs[k]) && states[k + 1].back_bytes()
                == states[k].back_bytes(),
    ensures
        states.last().front_bytes() == states[0].front_bytes() + xs,
        states.last().back_bytes() == states[0].back_bytes(),
    decreases xs.len(),
{
    if xs.len() == 0 {
        assert(states[0].front_bytes() + xs =~= states[0].front_bytes());
    } else {
        let n = xs.len() as int;
        lemma_push_order(states.take(n), xs.drop_last());
        assert(states.take(n).last() == states[n - 1]);
        assert(states.take(n)[0] == states[0]);
        assert(states.last().front_bytes() =~= states[0].front_bytes() + xs);
    }
}

/// Law: across any sequence of back pushes — each step related to the last
/// exactly as `push_back` promises — the back region ends up holding the
/// pushed bytes in reverse push order, followed by what it held at the
/// start, and the front region is untouched.
pub proof fn lemma_push_back_order(states: Seq<GapBuffer>, xs: Seq<u8>)
    requires
        states.len() == xs.len() + 1,
        forall|k: int|
            0 <= k < xs.len() ==> #[trigger] states[k + 1].back_bytes() == seq![xs[k]]
                + states[k].back_bytes() && states[k + 1].front_bytes()
                == states[k].front_bytes(),
    ensures
        states.last().back_bytes() == xs.reverse() + states[0].back_bytes(),
        states.last().front_bytes() == states[0].front_bytes(),
    decreases xs.len(),
{
    if xs.len() == 0 {
        assert(xs.reverse() + states[0].back_bytes() =~= states[0].back_bytes());
    } else {
        let n = xs.len() as int;
        lemma_push_back_order(states.take(n), xs.drop_last());
        assert(states.take(n).last() == states[n - 1]);
        assert(states.take(n)[0] == states[0]);
        assert(states.last().back_bytes() =~= xs.reverse() + states[0].back_bytes());
    }
}

/// Law: a buffer adopted from a byte vector and exported again yields the
/// original bytes unchanged.
pub proof fn lemma_vec_round_trip(v: Seq<u8>, adopted: GapBuffer, exported: Seq<u8>)
    requires
        adopted.wf(),
        adopted@ == v,
        exported == adopted@,
    ensures
        exported == v,
{
}

/// What repositioning the gap guarantees: the contents and capacity are
/// kept, and the gap boundary afterwards sits at logical index `index`.
pub open spec fn set_gap_post(pre: GapBuffer, post: GapBuffer, index: int) -> bool {
    &&& post.wf()
    &&& post.spec_capacity() == pre.spec_capacity()
    &&& post.front_bytes() == pre@.subrange(0, index)
    &&& post.back_bytes() == pre@.subrange(index, pre@.len() as int)
}

/// Law: repositioning the gap is idempotent. A second `set_gap` at the same
/// index finds the boundary already in place and leaves the buffer exactly
/// as the first call left it.
pub proof fn lemma_set_gap_idempotent(
    pre: GapBuffer,
    mid: GapBuffer,
    post: GapBuffer,
    index: int,
)
    requires
        pre.wf(),
        0 <= index <= pre@.len(),
        set_gap_post(pre, mid, index),
        set_gap_post(mid, post, index),
    ensures
        post.front_bytes() == mid.front_bytes(),
        post.back_bytes() == mid.back_bytes(),
        post.spec_capacity() == mid.spec_capacity(),
        post@ == mid@,
{
    assert(mid@ =~= pre@);
    assert(post.front_bytes() =~= mid.front_bytes());
    assert(post.back_bytes() =~= mid.back_bytes());
}

} // verus!

