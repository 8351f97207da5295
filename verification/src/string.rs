//! A gap buffer of bytes carrying the invariant that the front region and
//! the back region are each valid UTF-8.
//!
//! Every mutating operation re-establishes that invariant before it returns,
//! so both regions can always be handed out as text. Indices given by
//! callers (the gap position, truncation lengths) must land on character
//! boundaries; the checked operations report a violation without changing
//! anything.

use vstd::prelude::*;
use vstd::string::StringSliceAdditionalSpecFns;
use vstd::utf8;
use vstd::utf8::{decode_utf8, encode_scalar, encode_utf8, valid_utf8};

use crate::buffer::GapBuffer;
use crate::codec;
use crate::raw::MIN_RESERVE;

verus! {

/// Declares `core::str::Utf8Error` — the error `core::str::from_utf8`
/// reports — so that it can stand in result types. The type stays opaque;
/// nothing is assumed about its contents.
#[verifier::external_type_specification]
#[verifier::external_body]
pub struct ExUtf8Error(core::str::Utf8Error);

/// Relies on `core::str::from_utf8`: it returns `Ok` exactly on valid UTF-8
/// input, and the returned string slice consists of those same bytes.
pub assume_specification[ core::str::from_utf8 ](v: &[u8]) -> (r: Result<
    &str,
    core::str::Utf8Error,
>)
    ensures
        r is Ok <==> valid_utf8(v@),
        r matches Ok(s) ==> s.spec_bytes() == v@,
;

/// Why a gap reposition or truncation was refused.
#[derive(Clone, Copy, Debug, PartialEq, Eq, Structural)]
pub enum GapError {
    /// The index lies beyond the current contents.
    OutOfBounds,
    /// The index falls inside the multi-byte encoding of one character.
    NotCharBoundary,
}

/// A byte gap buffer whose front and back regions are each valid UTF-8.
pub struct GapString {
    inner: GapBuffer,
}

impl View for GapString {
    type V = Seq<char>;

    /// The logical text: the front region's characters, then the back
    /// region's.
    open spec fn view(&self) -> Seq<char> {
        self.front_chars() + self.back_chars()
    }
}

impl GapString {
    /// The bytes of the front region.
    pub closed spec fn front_bytes(&self) -> Seq<u8> {
        self.inner.front_bytes()
    }

    /// The bytes of the back region.
    pub closed spec fn back_bytes(&self) -> Seq<u8> {
        self.inner.back_bytes()
    }

    /// All live bytes: front region then back region.
    pub closed spec fn all_bytes(&self) -> Seq<u8> {
        self.inner@
    }

    /// The characters of the front region.
    pub open spec fn front_chars(&self) -> Seq<char> {
        decode_utf8(self.front_bytes())
    }

    /// The characters of the back region.
    pub open spec fn back_chars(&self) -> Seq<char> {
        decode_utf8(self.back_bytes())
    }

    /// The size of the backing allocation in bytes.
    pub closed spec fn spec_capacity(&self) -> int {
        self.inner.spec_capacity()
    }

    /// Structural invariant: a well-formed byte gap buffer whose two regions
    /// are each valid UTF-8.
    pub closed spec fn wf(&self) -> bool {
        &&& self.inner.wf()
        &&& valid_utf8(self.front_bytes())
        &&& valid_utf8(self.back_bytes())
    }

    /// The whole contents are valid UTF-8, and the bytes determine the
    /// characters: front then back, decoded.
    pub proof fn lemma_text(&self)
        requires
            self.wf(),
        ensures
            valid_utf8(self.front_bytes()),
            valid_utf8(self.back_bytes()),
            valid_utf8(self.all_bytes()),
            self.all_bytes().len() <= isize::MAX as int,
            self@ == decode_utf8(self.all_bytes()),
            encode_utf8(self@) == self.all_bytes(),
            self.all_bytes() == self.front_bytes() + self.back_bytes(),
    {
        self.inner.lemma_wf_bounds();
        utf8::valid_utf8_concat(self.front_bytes(), self.back_bytes());
        utf8::decode_utf8_encode_utf8(self.front_bytes());
        utf8::decode_utf8_encode_utf8(self.back_bytes());
        codec::lemma_encode_utf8_append(self.front_chars(), self.back_chars());
        utf8::encode_utf8_decode_utf8(self.front_chars() + self.back_chars());
    }

    /// A new, empty gap string without an allocation.
    pub fn new() -> (s: Self)
        ensures
            s.wf(),
            s.front_chars() == Seq::<char>::empty(),
            s.back_chars() == Seq::<char>::empty(),
            s.all_bytes() == Seq::<u8>::empty(),
            s.spec_capacity() == 0,
    {
        let s = GapString { inner: GapBuffer::new() };
        proof {
            assert(s.all_bytes() =~= Seq::<u8>::empty());
        }
        s
    }

    /// A new, empty gap string over an allocation of `capacity` bytes.
    pub fn with_capacity(capacity: usize) -> (s: Self)
        requires
            capacity <= isize::MAX as usize,
        ensures
            s.wf(),
            s.front_chars() == Seq::<char>::empty(),
            s.back_chars() == Seq::<char>::empty(),
            s.all_bytes() == Seq::<u8>::empty(),
            s.spec_capacity() == capacity,
    {
        let s = GapString { inner: GapBuffer::with_capacity(capacity) };
        proof {
            assert(s.all_bytes() =~= Seq::<u8>::empty());
        }
        s
    }

    /// The total capacity of the allocation in bytes.
    pub fn capacity(&self) -> (cap: usize)
        ensures
            cap == self.spec_capacity(),
    {
        self.inner.capacity()
    }

    /// The length of the contents in bytes.
    pub fn len(&self) -> (n: usize)
        requires
            self.wf(),
        ensures
            n == self.all_bytes().len(),
    {
        self.inner.len()
    }

    /// Whether the gap string holds no text.
    pub fn is_empty(&self) -> (e: bool)
        requires
            self.wf(),
        ensures
            e == (self.all_bytes().len() == 0),
    {
        self.inner.is_empty()
    }

    /// Grows the allocation so the gap can take `additional` more bytes,
    /// doubling the capacity with a floor of [`MIN_RESERVE`] bytes.
    fn reserve_for(&mut self, additional: usize)
        requires
            old(self).wf(),
            old(self).all_bytes().len() + additional <= isize::MAX as int,
        ensures
            final(self).wf(),
            final(self).front_bytes() == old(self).front_bytes(),
            final(self).back_bytes() == old(self).back_bytes(),
            final(self).spec_capacity() == crate::raw::spec_fit_capacity(
                old(self).spec_capacity(),
                old(self).all_bytes().len() + additional as int,
            ),
            final(self).spec_capacity() >= final(self).all_bytes().len() + additional,
            final(self).inner.can_reserve(additional as int),
    {
        proof {
            self.inner.lemma_wf_bounds();
        }
        let cap = self.inner.capacity();
        let len = self.inner.len();
        let required = len + additional;
        if required > cap {
            let doubled = if 2 * cap < MIN_RESERVE {
                MIN_RESERVE
            } else if 2 * cap > isize::MAX as usize {
                isize::MAX as usize
            } else {
                2 * cap
            };
            let target = if required > doubled {
                required
            } else {
                doubled
            };
            self.inner.grow_to(target);
        }
        proof {
            assert(final(self).all_bytes() =~= old(self).all_bytes());
        }
    }

    /// Ensures the gap can take `additional` more bytes without another
    /// reallocation.
    pub fn reserve(&mut self, additional: usize)
        requires
            old(self).wf(),
            old(self).all_bytes().len() + additional <= isize::MAX as int,
        ensures
            final(self).wf(),
            final(self).front_bytes() == old(self).front_bytes(),
            final(self).back_bytes() == old(self).back_bytes(),
            final(self).spec_capacity() == crate::raw::spec_fit_capacity(
                old(self).spec_capacity(),
                old(self).all_bytes().len() + additional as int,
            ),
            final(self).spec_capacity() >= final(self).all_bytes().len() + additional,
    {
        self.reserve_for(additional);
    }

    /// Appends one character to the front region, encoding it to 1–4 bytes.
    pub fn push(&mut self, ch: char)
        requires
            old(self).wf(),
            old(self).all_bytes().len() + encode_scalar(ch as u32).len() <= isize::MAX as int,
        ensures
            final(self).wf(),
            final(self).front_chars() == old(self).front_chars().push(ch),
            final(self).front_bytes() == old(self).front_bytes() + encode_scalar(ch as u32),
            final(self).back_bytes() == old(self).back_bytes(),
            final(self).spec_capacity() == crate::raw::spec_fit_capacity(
                old(self).spec_capacity(),
                old(self).all_bytes().len() + encode_scalar(ch as u32).len() as int,
            ),
    {
        let bytes = codec::encode_char(ch);
        self.reserve_for(bytes.len());
        self.inner.push_slice(bytes.as_slice());
        proof {
            utf8::decode_utf8_encode_utf8(old(self).front_bytes());
            codec::lemma_encode_utf8_push(old(self).front_chars(), ch);
            assert(self.front_bytes() =~= encode_utf8(old(self).front_chars().push(ch)));
            utf8::encode_utf8_valid_utf8(old(self).front_chars().push(ch));
            utf8::encode_utf8_decode_utf8(old(self).front_chars().push(ch));
        }
    }

    /// Prepends one character to the back region, encoding it to 1–4 bytes.
    pub fn push_back(&mut self, ch: char)
        requires
            old(self).wf(),
            old(self).all_bytes().len() + encode_scalar(ch as u32).len() <= isize::MAX as int,
        ensures
            final(self).wf(),
            final(self).back_chars() == seq![ch] + old(self).back_chars(),
            final(self).back_bytes() == encode_scalar(ch as u32) + old(self).back_bytes(),
            final(self).front_bytes() == old(self).front_bytes(),
            final(self).spec_capacity() == crate::raw::spec_fit_capacity(
                old(self).spec_capacity(),
                old(self).all_bytes().len() + encode_scalar(ch as u32).len() as int,
            ),
    {
        let bytes = codec::encode_char(ch);
        self.reserve_for(bytes.len());
        self.inner.push_slice_back(bytes.as_slice());
        proof {
            utf8::decode_utf8_encode_utf8(old(self).back_bytes());
            codec::lemma_encode_utf8_append(seq![ch], old(self).back_chars());
            reveal_with_fuel(encode_utf8, 2);
            assert(seq![ch].drop_first() =~= Seq::<char>::empty());
            assert(encode_utf8(seq![ch]) =~= encode_scalar(ch as u32));
            assert(self.back_bytes() =~= encode_utf8(seq![ch] + old(self).back_chars()));
            utf8::encode_utf8_valid_utf8(seq![ch] + old(self).back_chars());
            utf8::encode_utf8_decode_utf8(seq![ch] + old(self).back_chars());
        }
    }

    /// Appends a string to the front region, byte for byte.
    pub fn push_str(&mut self, s: &str)
        requires
            old(self).wf(),
            old(self).all_bytes().len() + s.spec_bytes().len() <= isize::MAX as int,
        ensures
            final(self).wf(),
            final(self).front_chars() == old(self).front_chars() + s@,
            final(self).front_bytes() == old(self).front_bytes() + s.spec_bytes(),
            final(self).back_bytes() == old(self).back_bytes(),
            final(self).spec_capacity() == crate::raw::spec_fit_capacity(
                old(self).spec_capacity(),
                old(self).all_bytes().len() + s.spec_bytes().len() as int,
            ),
    {
        let bytes = s.as_bytes();
        self.reserve_for(bytes.len());
        self.inner.push_slice(bytes);
        proof {
            utf8::decode_utf8_encode_utf8(old(self).front_bytes());
            codec::lemma_encode_utf8_append(old(self).front_chars(), s@);
            assert(self.front_bytes() =~= encode_utf8(old(self).front_chars() + s@));
            utf8::encode_utf8_valid_utf8(old(self).front_chars() + s@);
            utf8::encode_utf8_decode_utf8(old(self).front_chars() + s@);
        }
    }

    /// Prepends a string to the back region, byte for byte.
    pub fn push_str_back(&mut self, s: &str)
        requires
            old(self).wf(),
            old(self).all_bytes().len() + s.spec_bytes().len() <= isize::MAX as int,
        ensures
            final(self).wf(),
            final(self).back_chars() == s@ + old(self).back_chars(),
            final(self).back_bytes() == s.spec_bytes() + old(self).back_bytes(),
            final(self).front_bytes() == old(self).front_bytes(),
            final(self).spec_capacity() == crate::raw::spec_fit_capacity(
                old(self).spec_capacity(),
                old(self).all_bytes().len() + s.spec_bytes().len() as int,
            ),
    {
        let bytes = s.as_bytes();
        self.reserve_for(bytes.len());
        self.inner.push_slice_back(bytes);
        proof {
            utf8::decode_utf8_encode_utf8(old(self).back_bytes());
            codec::lemma_encode_utf8_append(s@, old(self).back_chars());
            assert(self.back_bytes() =~= encode_utf8(s@ + old(self).back_chars()));
            utf8::encode_utf8_valid_utf8(s@ + old(self).back_chars());
            utf8::encode_utf8_decode_utf8(s@ + old(self).back_chars());
        }
    }

    /// The front region as text.
    pub fn front(&self) -> (s: &str)
        requires
            self.wf(),
        ensures
            s@ == self.front_chars(),
            s.spec_bytes() == self.front_bytes(),
    {
        let bytes = self.inner.front();
        match core::str::from_utf8(bytes) {
            Ok(s) => {
                proof {
                    utf8::encode_utf8_decode_utf8(s@);
                    utf8::decode_utf8_encode_utf8(self.front_bytes());
                }
                s
            },
            Err(_) => vstd::pervasive::unreached(),
        }
    }

    /// The back region as text.
    pub fn back(&self) -> (s: &str)
        requires
            self.wf(),
        ensures
            s@ == self.back_chars(),
            s.spec_bytes() == self.back_bytes(),
    {
        let bytes = self.inner.back();
        match core::str::from_utf8(bytes) {
            Ok(s) => {
                proof {
                    utf8::encode_utf8_decode_utf8(s@);
                    utf8::decode_utf8_encode_utf8(self.back_bytes());
                }
                s
            },
            Err(_) => vstd::pervasive::unreached(),
        }
    }

    /// Removes and returns the last character of the front region, or `None`
    /// when the front region is empty.
    pub fn pop(&mut self) -> (r: Option<char>)
        requires
            old(self).wf(),
        ensures
            final(self).wf(),
            final(self).spec_capacity() == old(self).spec_capacity(),
            final(self).back_bytes() == old(self).back_bytes(),
            old(self).front_chars().len() > 0 ==> {
                &&& r == Some(old(self).front_chars().last())
                &&& final(self).front_chars() == old(self).front_chars().drop_last()
            },
            old(self).front_chars().len() == 0 ==> r is None && *final(self) == *old(self),
    {
        proof {
            codec::lemma_decode_len(self.front_bytes());
        }
        let front = self.inner.front();
        if front.len() == 0 {
            None
        } else {
            let n = front.len();
            let (c, w) = codec::decode_last(front);
            self.inner.truncate_front(n - w);
            proof {
                assert(old(self).front_chars().drop_last() =~= decode_utf8(
                    old(self).front_bytes().subrange(0, old(self).front_bytes().len() - w),
                ));
            }
            Some(c)
        }
    }

    /// Removes and returns the first character of the back region, or `None`
    /// when the back region is empty.
    pub fn pop_back(&mut self) -> (r: Option<char>)
        requires
            old(self).wf(),
        ensures
            final(self).wf(),
            final(self).spec_capacity() == old(self).spec_capacity(),
            final(self).front_bytes() == old(self).front_bytes(),
            old(self).back_chars().len() > 0 ==> {
                &&& r == Some(old(self).back_chars().first())
                &&& final(self).back_chars() == old(self).back_chars().drop_first()
            },
            old(self).back_chars().len() == 0 ==> r is None && *final(self) == *old(self),
    {
        proof {
            codec::lemma_decode_len(self.back_bytes());
        }
        let back = self.inner.back();
        if back.len() == 0 {
            None
        } else {
            let n = back.len();
            proof {
                assert(back@.subrange(0, back@.len() as int) =~= back@);
            }
            let (c, w) = codec::decode_first_at(back, 0);
            self.inner.truncate_back(n - w);
            proof {
                assert(vstd::utf8::pop_first_scalar(old(self).back_bytes()) =~= old(
                    self,
                ).back_bytes().subrange(
                    old(self).back_bytes().len() - (n - w),
                    old(self).back_bytes().len() as int,
                ));
                assert(old(self).back_chars().drop_first() =~= decode_utf8(
                    vstd::utf8::pop_first_scalar(old(self).back_bytes()),
                ));
            }
            Some(c)
        }
    }

    /// Whether `index` lands on a character boundary of the contents: the
    /// start of one character's encoding, or either end of the text.
    /// Decided from the leading-bit pattern of the byte at `index`.
    pub fn is_char_boundary(&self, index: usize) -> (r: bool)
        requires
            self.wf(),
        ensures
            r == utf8::is_char_boundary(self.all_bytes(), index as int),
    {
        proof {
            self.lemma_text();
        }
        match self.inner.get(index) {
            Some(b) => {
                let byte = *b;
                proof {
                    utf8::is_char_boundary_iff_not_is_continuation_byte(
                        self.all_bytes(),
                        index as int,
                    );
                }
                !(0x80 <= byte && byte <= 0xBF)
            },
            None => {
                proof {
                    utf8::is_char_boundary_start_end_of_seq(self.all_bytes());
                }
                index == self.inner.len()
            },
        }
    }

    /// Moves the gap boundary to byte index `index`, which must lie on a
    /// character boundary: afterwards the front region holds the first
    /// `index` bytes of the text and the back region the rest.
    pub fn set_gap(&mut self, index: usize)
        requires
            old(self).wf(),
            index <= old(self).all_bytes().len(),
            utf8::is_char_boundary(old(self).all_bytes(), index as int),
        ensures
            final(self).wf(),
            final(self).spec_capacity() == old(self).spec_capacity(),
            final(self).all_bytes() == old(self).all_bytes(),
            final(self)@ == old(self)@,
            final(self).front_bytes() == old(self).all_bytes().subrange(0, index as int),
            final(self).back_bytes() == old(self).all_bytes().subrange(
                index as int,
                old(self).all_bytes().len() as int,
            ),
    {
        proof {
            self.lemma_text();
        }
        self.inner.set_gap(index);
        proof {
            utf8::valid_utf8_split(old(self).all_bytes(), index as int);
            utf8::decode_utf8_split(old(self).all_bytes(), index as int);
            assert(final(self)@ =~= old(self)@);
        }
    }

    /// Moves the gap boundary to `index` if it lies within the text and on a
    /// character boundary; otherwise reports which condition failed and
    /// leaves the gap string unchanged.
    pub fn try_set_gap(&mut self, index: usize) -> (r: Result<(), GapError>)
        requires
            old(self).wf(),
        ensures
            final(self).wf(),
            index > old(self).all_bytes().len() ==> r == Err::<(), GapError>(GapError::OutOfBounds)
                && *final(self) == *old(self),
            index <= old(self).all_bytes().len() && !utf8::is_char_boundary(
                old(self).all_bytes(),
                index as int,
            ) ==> r == Err::<(), GapError>(GapError::NotCharBoundary) && *final(self) == *old(
                self,
            ),
            index <= old(self).all_bytes().len() && utf8::is_char_boundary(
                old(self).all_bytes(),
                index as int,
            ) ==> {
                &&& r == Ok::<(), GapError>(())
                &&& final(self).spec_capacity() == old(self).spec_capacity()
                &&& final(self).all_bytes() == old(self).all_bytes()
                &&& final(self)@ == old(self)@
                &&& final(self).front_bytes() == old(self).all_bytes().subrange(0, index as int)
                &&& final(self).back_bytes() == old(self).all_bytes().subrange(
                    index as int,
                    old(self).all_bytes().len() as int,
                )
            },
    {
        if index > self.len() {
            Err(GapError::OutOfBounds)
        } else if !self.is_char_boundary(index) {
            Err(GapError::NotCharBoundary)
        } else {
            self.set_gap(index);
            Ok(())
        }
    }

    /// Empties the text without releasing the allocation.
    pub fn clear(&mut self)
        requires
            old(self).wf(),
        ensures
            final(self).wf(),
            final(self).front_chars() == Seq::<char>::empty(),
            final(self).back_chars() == Seq::<char>::empty(),
            final(self).all_bytes() == Seq::<u8>::empty(),
            final(self).spec_capacity() == old(self).spec_capacity(),
    {
        self.inner.clear();
        proof {
            assert(self.all_bytes() =~= Seq::<u8>::empty());
        }
    }

    /// Shrinks the front region to its first `len` bytes, which must end on
    /// a character boundary; the cut bytes become gap space.
    pub fn truncate_front(&mut self, len: usize)
        requires
            old(self).wf(),
            utf8::is_char_boundary(old(self).front_bytes(), len as int),
        ensures
            final(self).wf(),
            final(self).front_bytes() == old(self).front_bytes().subrange(0, len as int),
            final(self).front_chars() == decode_utf8(
                old(self).front_bytes().subrange(0, len as int),
            ),
            final(self).back_bytes() == old(self).back_bytes(),
            final(self).spec_capacity() == old(self).spec_capacity(),
    {
        proof {
            codec::lemma_char_boundary_in_range(old(self).front_bytes(), len as int);
            utf8::valid_utf8_split(old(self).front_bytes(), len as int);
        }
        self.inner.truncate_front(len);
    }

    /// Shrinks the back region to its last `len` bytes (all of it when `len`
    /// exceeds the region); the region must be cut on a character boundary.
    /// The cut bytes become gap space.
    pub fn truncate_back(&mut self, len: usize)
        requires
            old(self).wf(),
            utf8::is_char_boundary(
                old(self).back_bytes(),
                if len as int <= old(self).back_bytes().len() {
                    old(self).back_bytes().len() - len
                } else {
                    0
                },
            ),
        ensures
            final(self).wf(),
            final(self).front_bytes() == old(self).front_bytes(),
            final(self).back_bytes() == if len as int <= old(self).back_bytes().len() {
                old(self).back_bytes().subrange(
                    old(self).back_bytes().len() - len,
                    old(self).back_bytes().len() as int,
                )
            } else {
                old(self).back_bytes()
            },
            final(self).spec_capacity() == old(self).spec_capacity(),
    {
        proof {
            if len as int <= old(self).back_bytes().len() {
                utf8::valid_utf8_split(
                    old(self).back_bytes(),
                    old(self).back_bytes().len() - len,
                );
            }
        }
        self.inner.truncate_back(len);
    }

    /// Reallocates down to exactly `capacity` bytes, which must hold the
    /// current text and not exceed the current capacity.
    pub fn shrink_to(&mut self, capacity: usize)
        requires
            old(self).wf(),
            old(self).all_bytes().len() <= capacity <= old(self).spec_capacity(),
        ensures
            final(self).wf(),
            final(self).spec_capacity() == capacity,
            final(self).front_bytes() == old(self).front_bytes(),
            final(self).back_bytes() == old(self).back_bytes(),
    {
        self.inner.shrink_to(capacity);
    }

    /// Releases all unused capacity.
    pub fn shrink_to_fit(&mut self)
        requires
            old(self).wf(),
        ensures
            final(self).wf(),
            final(self).spec_capacity() == old(self).all_bytes().len(),
            final(self).front_bytes() == old(self).front_bytes(),
            final(self).back_bytes() == old(self).back_bytes(),
    {
        self.inner.shrink_to_fit();
    }

    /// The bytes of the text, copied out in order.
    pub fn bytes(&self) -> (v: Vec<u8>)
        requires
            self.wf(),
        ensures
            v@ == self.all_bytes(),
    {
        self.inner.iter()
    }

    /// The characters of the text, copied out in order.
    pub fn chars(&self) -> (v: Vec<char>)
        requires
            self.wf(),
        ensures
            v@ == self@,
    {
        let mut v = codec::decode_all(self.inner.front());
        let mut back = codec::decode_all(self.inner.back());
        v.append(&mut back);
        v
    }

    /// The characters of the text, each paired with the byte index where its
    /// encoding starts.
    pub fn char_indices(&self) -> (v: Vec<(usize, char)>)
        requires
            self.wf(),
        ensures
            v@ == codec::spec_char_indices(self@, 0),
    {
        proof {
            self.inner.lemma_wf_bounds();
            utf8::decode_utf8_encode_utf8(self.front_bytes());
        }
        let mut v = codec::decode_indexed(self.inner.front(), 0);
        let base = self.inner.front_len();
        let mut back = codec::decode_indexed(self.inner.back(), base);
        v.append(&mut back);
        proof {
            codec::lemma_char_indices_append(self.front_chars(), self.back_chars(), 0);
        }
        v
    }

    /// Consumes the gap string and returns its text as one owned string.
    pub fn into_string(self) -> (r: String)
        requires
            self.wf(),
        ensures
            r@ == self@,
    {
        proof {
            self.lemma_text();
        }
        let v = self.inner.into_vec();
        match core::str::from_utf8(v.as_slice()) {
            Ok(s) => {
                proof {
                    utf8::encode_utf8_decode_utf8(s@);
                }
                s.to_owned()
            },
            Err(_) => vstd::pervasive::unreached(),
        }
    }

    /// A gap string holding the text of `s`, all of it in the front region.
    pub fn from_str(s: &str) -> (r: Self)
        requires
            s.spec_bytes().len() <= isize::MAX as int,
        ensures
            r.wf(),
            r@ == s@,
            r.front_chars() == s@,
            r.front_bytes() == s.spec_bytes(),
            r.back_bytes() == Seq::<u8>::empty(),
    {
        let mut r = Self::new();
        r.push_str(s);
        proof {
            assert(r.front_bytes() =~= s.spec_bytes());
            assert(r@ =~= s@);
        }
        r
    }

    /// A gap string holding the text of `s`, all of it in the front region.
    pub fn from_string(s: String) -> (r: Self)
        requires
            encode_utf8(s@).len() <= isize::MAX as int,
        ensures
            r.wf(),
            r@ == s@,
            r.front_chars() == s@,
            r.back_bytes() == Seq::<u8>::empty(),
    {
        Self::from_str(s.as_str())
    }

    /// A gap string that adopts `v` as its entire front region after
    /// validating it, or the validation error when `v` is not UTF-8.
    pub fn try_from_vec(v: Vec<u8>) -> (r: Result<Self, core::str::Utf8Error>)
        requires
            v@.len() <= isize::MAX as int,
        ensures
            r is Ok <==> valid_utf8(v@),
            r matches Ok(s) ==> {
                &&& s.wf()
                &&& s.all_bytes() == v@
                &&& s.front_bytes() == v@
                &&& s.back_bytes() == Seq::<u8>::empty()
                &&& s@ == decode_utf8(v@)
            },
    {
        match core::str::from_utf8(v.as_slice()) {
            Ok(_) => {
                let s = GapString { inner: GapBuffer::from_vec(v) };
                proof {
                    assert(s.all_bytes() =~= v@);
                    assert(s@ =~= decode_utf8(v@));
                }
                Ok(s)
            },
            Err(e) => Err(e),
        }
    }
}

} // verus!
