//! The owner of a gap buffer's single backing allocation.
//!
//! A `RawBuf` holds zero or one block of `capacity` bytes and has no notion
//! of which of those bytes are in use; the layers above decide that. Backing
//! storage is a `Vec<u8>` kept at exactly `capacity` bytes, so offsets into
//! the block are plain indices.

use vstd::prelude::*;

verus! {

/// Smallest capacity the doubling growth policy will allocate.
pub const MIN_RESERVE: usize = 8;

/// Owns zero or one allocation of exactly `capacity` bytes.
pub struct RawBuf {
    bytes: Vec<u8>,
}

impl View for RawBuf {
    type V = Seq<u8>;

    /// The bytes of the allocation, one per capacity slot.
    closed spec fn view(&self) -> Seq<u8> {
        self.bytes@
    }
}

/// Capacity that the doubling policy picks when `required_cap` does not fit:
/// twice the current capacity, clamped to `[MIN_RESERVE, isize::MAX]`, and at
/// least `required_cap` itself.
pub open spec fn spec_grow_cap(cap: int, required_cap: int) -> int {
    let doubled = if 2 * cap < MIN_RESERVE as int {
        MIN_RESERVE as int
    } else if 2 * cap > isize::MAX as int {
        isize::MAX as int
    } else {
        2 * cap
    };
    if required_cap > doubled {
        required_cap
    } else {
        doubled
    }
}

/// The capacity after asking the doubling policy to fit `required` bytes
/// when the current capacity is `cap`: unchanged if `required` already fits,
/// else [`spec_grow_cap`].
pub open spec fn spec_fit_capacity(cap: int, required: int) -> int {
    if required <= cap {
        cap
    } else {
        spec_grow_cap(cap, required)
    }
}

impl RawBuf {
    /// The capacity never exceeds `isize::MAX`, so that offset arithmetic
    /// into the allocation cannot overflow a signed offset.
    pub open spec fn wf(&self) -> bool {
        self@.len() <= isize::MAX as int
    }

    /// A new owner with no allocation.
    pub fn new() -> (buf: Self)
        ensures
            buf@ == Seq::<u8>::empty(),
            buf.wf(),
    {
        RawBuf { bytes: Vec::new() }
    }

    /// An owner of exactly `capacity` bytes.
    pub fn with_capacity(capacity: usize) -> (buf: Self)
        requires
            capacity <= isize::MAX as usize,
        ensures
            buf@.len() == capacity,
            buf.wf(),
    {
        let mut buf = Self::new();
        buf.set_capacity(capacity);
        buf
    }

    /// Adopts a vector's bytes as the allocation.
    pub fn from_vec(v: Vec<u8>) -> (buf: Self)
        requires
            v@.len() <= isize::MAX as int,
        ensures
            buf@ == v@,
            buf.wf(),
    {
        RawBuf { bytes: v }
    }

    /// Releases the allocation and hands its bytes back as a vector.
    pub fn into_vec(self) -> (v: Vec<u8>)
        ensures
            v@ == self@,
    {
        self.bytes
    }

    /// Reallocates to exactly `new_cap` bytes, preserving the bytes up to the
    /// smaller of the old and new capacity.
    pub fn set_capacity(&mut self, new_cap: usize)
        requires
            new_cap <= isize::MAX as usize,
        ensures
            final(self)@.len() == new_cap,
            final(self).wf(),
            forall|i: int|
                0 <= i < old(self)@.len() && i < new_cap ==> final(self)@[i] == old(self)@[i],
    {
        self.bytes.resize(new_cap, 0);
    }

    /// Grows to the capacity that the doubling policy picks for
    /// `required_cap`; does nothing when `required_cap` already fits.
    pub fn grow(&mut self, required_cap: usize)
        requires
            old(self).wf(),
            required_cap <= isize::MAX as usize,
        ensures
            final(self)@.len() == if required_cap <= old(self)@.len() {
                old(self)@.len() as int
            } else {
                spec_grow_cap(old(self)@.len() as int, required_cap as int)
            },
            final(self).wf(),
            forall|i: int| 0 <= i < old(self)@.len() ==> final(self)@[i] == old(self)@[i],
    {
        if let Some(new_cap) = self.grow_cap(required_cap) {
            self.set_capacity(new_cap);
        }
    }

    /// Same policy as [`RawBuf::grow`], under the name the resizing callers
    /// use: afterwards the capacity is at least `required_cap`.
    pub fn resize_to_fit(&mut self, required_cap: usize)
        requires
            old(self).wf(),
            required_cap <= isize::MAX as usize,
        ensures
            final(self)@.len() == if required_cap <= old(self)@.len() {
                old(self)@.len() as int
            } else {
                spec_grow_cap(old(self)@.len() as int, required_cap as int)
            },
            final(self)@.len() >= required_cap,
            final(self).wf(),
            forall|i: int| 0 <= i < old(self)@.len() ==> final(self)@[i] == old(self)@[i],
    {
        self.grow(required_cap);
    }

    /// The capacity the doubling policy would move to for `required_cap`, or
    /// `None` when `required_cap` already fits.
    pub fn grow_cap(&self, required_cap: usize) -> (r: Option<usize>)
        requires
            self.wf(),
            required_cap <= isize::MAX as usize,
        ensures
            r == if required_cap <= self@.len() {
                None::<usize>
            } else {
                Some(spec_grow_cap(self@.len() as int, required_cap as int) as usize)
            },
    {
        let cap = self.bytes.len();
        if required_cap <= cap {
            None
        } else {
            let doubled = if 2 * cap < MIN_RESERVE {
                MIN_RESERVE
            } else if 2 * cap > isize::MAX as usize {
                isize::MAX as usize
            } else {
                2 * cap
            };
            Some(if required_cap > doubled {
                required_cap
            } else {
                doubled
            })
        }
    }

    /// The size of the allocation in bytes.
    pub fn capacity(&self) -> (cap: usize)
        ensures
            cap == self@.len(),
    {
        self.bytes.len()
    }

    /// The byte at offset `i`.
    pub(crate) fn read(&self, i: usize) -> (b: u8)
        requires
            i < self@.len(),
        ensures
            b == self@[i as int],
    {
        self.bytes[i]
    }

    /// A reference to the byte at offset `i`.
    pub(crate) fn borrow(&self, i: usize) -> (b: &u8)
        requires
            i < self@.len(),
        ensures
            *b == self@[i as int],
    {
        &self.bytes[i]
    }

    /// A mutable reference to the byte at offset `i`.
    pub(crate) fn borrow_mut(&mut self, i: usize) -> (b: &mut u8)
        requires
            i < old(self)@.len(),
        ensures
            *b == old(self)@[i as int],
            final(self)@ == old(self)@.update(i as int, *final(b)),
    {
        &mut self.bytes[i]
    }

    /// Stores `b` at offset `i`.
    pub(crate) fn write(&mut self, i: usize, b: u8)
        requires
            i < old(self)@.len(),
        ensures
            final(self)@ == old(self)@.update(i as int, b),
    {
        self.bytes[i] = b;
    }

    /// Copies `len` bytes from offset `src` to offset `dst`, as one move of
    /// the whole range; the two ranges may overlap.
    #[verifier::loop_isolation(false)]
    pub(crate) fn copy_within(&mut self, src: usize, dst: usize, len: usize)
        requires
            old(self).wf(),
            src + len <= old(self)@.len(),
            dst + len <= old(self)@.len(),
        ensures
            final(self)@.len() == old(self)@.len(),
            forall|j: int|
                0 <= j < len ==> #[trigger] final(self)@[dst + j] == old(self)@[src + j],
            forall|i: int|
                0 <= i < old(self)@.len() && !(dst <= i < dst + len) ==> final(self)@[i]
                    == old(self)@[i],
    {
        if dst <= src {
            // Copy lowest byte first: every read is at or above the write.
            let mut i: usize = 0;
            while i < len
                invariant
                    i <= len,
                    self@.len() == old(self)@.len(),
                    forall|j: int|
                        0 <= j < i ==> #[trigger] self@[dst + j] == old(self)@[src + j],
                    forall|p: int|
                        0 <= p < self@.len() && !(dst <= p < dst + i) ==> #[trigger] self@[p] == old(self)@[p],
                decreases len - i,
            {
                let b = self.read(src + i);
                self.write(dst + i, b);
                i = i + 1;
            }
        } else {
            // Copy highest byte first: every read is below the write.
            let mut k: usize = len;
            while k > 0
                invariant
                    k <= len,
                    self@.len() == old(self)@.len(),
                    forall|j: int|
                        k <= j < len ==> #[trigger] self@[dst + j] == old(self)@[src + j],
                    forall|p: int|
                        0 <= p < self@.len() && !(dst + k <= p < dst + len) ==> #[trigger] self@[p] == old(self)@[p],
                decreases k,
            {
                k = k - 1;
                let b = self.read(src + k);
                self.write(dst + k, b);
            }
        }
    }

    /// Copies the bytes of `src` into the allocation at `offset`.
    #[verifier::loop_isolation(false)]
    pub(crate) fn copy_from_slice(&mut self, offset: usize, src: &[u8])
        requires
            old(self).wf(),
            offset + src@.len() <= old(self)@.len(),
        ensures
            final(self)@.len() == old(self)@.len(),
            forall|j: int| 0 <= j < src@.len() ==> #[trigger] final(self)@[offset + j] == src@[j],
            forall|i: int|
                0 <= i < old(self)@.len() && !(offset <= i < offset + src@.len()) ==> final(self)@[i] == old(self)@[i],
    {
        let mut i: usize = 0;
        while i < src.len()
            invariant
                i <= src@.len(),
                self@.len() == old(self)@.len(),
                forall|j: int| 0 <= j < i ==> #[trigger] self@[offset + j] == src@[j],
                forall|p: int|
                    0 <= p < self@.len() && !(offset <= p < offset + i) ==> #[trigger] self@[p] == old(self)@[p],
            decreases src@.len() - i,
        {
            let b = *vstd::slice::slice_index_get(src, i);
            self.write(offset + i, b);
            i = i + 1;
        }
    }

    /// The whole allocation as a slice.
    pub(crate) fn as_slice(&self) -> (s: &[u8])
        ensures
            s@ == self@,
    {
        self.bytes.as_slice()
    }
}

} // verus!
