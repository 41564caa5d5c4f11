//! The fixed-capacity store: the `Yangon` type, its byte-level model and the
//! operations that only read or resize the counters.

use crate::errors::yError;
use crate::errors::yFmtError;
use crate::scan::boundary_fit;
use crate::scan::bytes_as_str;
use crate::scan::encode_char_buf;
use crate::scan::last_boundary_at_most;
use crate::scan::last_scalar_start;
use crate::scan::scalar_decode_at;
use crate::scan::utf8_check_range;
use crate::shift::copy_from_slice_at;
use vstd::prelude::*;
use vstd::slice::slice_subrange;
use vstd::slice::slice_to_vec;
use vstd::string::StringExecFns;
use vstd::string::StringSliceAdditionalSpecFns;
use vstd::utf8::decode_last_scalar;
use vstd::utf8::decode_utf8;
use vstd::utf8::encode_scalar;
use vstd::utf8::encode_utf8;
use vstd::utf8::encode_utf8_decode_utf8;
use vstd::utf8::encode_utf8_valid_utf8;
use vstd::utf8::is_char_boundary;
use vstd::utf8::is_char_boundary_start_end_of_seq;
use vstd::utf8::length_of_last_scalar;
use vstd::utf8::valid_utf8;
use vstd::utf8::valid_utf8_concat;
use vstd::utf8::valid_utf8_split;

verus! {

/// The byte sequence that builds up when the given scalars are appended
/// greedily into `room` free bytes: scalars go in whole until the first one
/// that does not fit, and nothing after it is taken.
pub open spec fn take_scalars_fit(chars: Seq<char>, room: int) -> Seq<u8>
    decreases chars.len(),
{
    if chars.len() == 0 {
        Seq::empty()
    } else {
        let e = encode_scalar(chars[0] as u32);
        if e.len() <= room {
            e + take_scalars_fit(chars.drop_first(), room - e.len())
        } else {
            Seq::empty()
        }
    }
}

/// When the whole encoding fits, greedy appending takes everything.
pub proof fn lemma_take_scalars_fit_all(chars: Seq<char>, room: int)
    requires
        encode_utf8(chars).len() <= room,
    ensures
        take_scalars_fit(chars, room) == encode_utf8(chars),
    decreases chars.len(),
{
    if chars.len() == 0 {
        assert(take_scalars_fit(chars, room) =~= encode_utf8(chars));
    } else {
        let e = encode_scalar(chars[0] as u32);
        lemma_take_scalars_fit_all(chars.drop_first(), room - e.len());
    }
}

/// A fixed-capacity UTF-8 text buffer.
///
/// The storage holds exactly `N` bytes for the whole lifetime of the value and
/// is never reallocated; `len` counts the bytes in use and `capacity` is a
/// runtime ceiling that moves within `[len, N]`.  The content bytes
/// `storage[0..len]` always form a complete, valid UTF-8 sequence when a
/// public operation returns.
pub struct Yangon<const N: usize> {
    pub(crate) list: Vec<u8>,
    pub(crate) len: usize,
    pub(crate) capacity: usize,
}

impl<const N: usize> View for Yangon<N> {
    type V = Seq<u8>;

    /// The bytes currently in use, in order.
    closed spec fn view(&self) -> Seq<u8> {
        self.list@.subrange(0, self.len as int)
    }
}

impl<const N: usize> Yangon<N> {
    /// The current capacity ceiling, as a mathematical number.
    pub closed spec fn spec_capacity(&self) -> nat {
        self.capacity as nat
    }

    /// All `N` stored bytes, the ones beyond the length included.
    pub closed spec fn spec_storage(&self) -> Seq<u8> {
        self.list@
    }

    /// Opens the closed parts of the model to the sibling modules of the
    /// crate: how the view, the ceiling and the storage shape read on the
    /// fields.
    pub(crate) proof fn model(&self)
        ensures
            self@ == self.list@.subrange(0, self.len as int),
            self.spec_capacity() == self.capacity as nat,
            self.spec_storage() == self.list@,
            self.store_inv() <==> (self.list@.len() == N && self.len <= self.capacity
                && self.capacity <= N),
    {
    }

    /// The storage shape: exactly `N` allocated bytes, and counters in range.
    pub closed spec fn store_inv(&self) -> bool {
        &&& self.list@.len() == N
        &&& self.len <= self.capacity
        &&& self.capacity <= N
    }

    /// Well-formedness: the storage shape holds and the content is valid UTF-8.
    pub open spec fn wf(&self) -> bool {
        &&& self.store_inv()
        &&& valid_utf8(self@)
        &&& self@.len() <= self.spec_capacity() <= N as nat
    }

    /// A buffer with bound `N`, empty content and capacity `N`.
    pub fn with_capacity() -> (r: Self)
        ensures
            r.wf(),
            r@ == Seq::<u8>::empty(),
            r.spec_capacity() == N as nat,
    {
        let mut list: Vec<u8> = Vec::with_capacity(N);
        while list.len() < N
            invariant
                list@.len() <= N,
            decreases N - list@.len(),
        {
            list.push(0u8);
        }
        let r = Yangon { list, len: 0usize, capacity: N };
        proof {
            assert(r@ =~= Seq::<u8>::empty());
        }
        r
    }

    /// The same as [`Yangon::with_capacity`]: an empty buffer of bound `N`.
    pub fn new() -> (r: Self)
        ensures
            r.wf(),
            r@ == Seq::<u8>::empty(),
            r.spec_capacity() == N as nat,
    {
        Self::with_capacity()
    }

    /// The number of bytes in use.
    pub fn len(&self) -> (r: usize)
        requires
            self.wf(),
        ensures
            r == self@.len(),
    {
        self.len
    }

    /// The current capacity ceiling in bytes.
    pub fn capacity(&self) -> (r: usize)
        ensures
            r as nat == self.spec_capacity(),
    {
        self.capacity
    }

    /// Whether no bytes are in use.
    pub fn is_empty(&self) -> (r: bool)
        requires
            self.wf(),
        ensures
            r == (self@.len() == 0),
    {
        self.len == 0
    }

    /// Empties the content.  The capacity ceiling and the stored bytes beyond
    /// the length are left as they are.
    pub fn clear(&mut self)
        requires
            old(self).wf(),
        ensures
            final(self).wf(),
            final(self)@ == Seq::<u8>::empty(),
            final(self).spec_capacity() == old(self).spec_capacity(),
            final(self).spec_storage() == old(self).spec_storage(),
    {
        self.len = 0;
        proof {
            assert(self@ =~= Seq::<u8>::empty());
        }
    }

    /// Cuts the content down to `t_cate` bytes; a no-op when `t_cate` is not
    /// below the current length.  The caller owes that `t_cate` lands on a
    /// scalar boundary; the operation itself does not check that.
    pub fn truncate(&mut self, t_cate: usize)
        requires
            old(self).wf(),
            t_cate <= old(self)@.len() ==> vstd::utf8::is_char_boundary(old(self)@, t_cate as int),
        ensures
            final(self).wf(),
            final(self).spec_capacity() == old(self).spec_capacity(),
            final(self).spec_storage() == old(self).spec_storage(),
            t_cate <= old(self)@.len() ==> final(self)@ == old(self)@.subrange(0, t_cate as int),
            t_cate > old(self)@.len() ==> final(self)@ == old(self)@,
    {
        if t_cate <= self.len {
            proof {
                vstd::utf8::valid_utf8_split(self@, t_cate as int);
                assert(old(self)@.subrange(0, t_cate as int) =~= self.list@.subrange(
                    0,
                    t_cate as int,
                ));
            }
            self.len = t_cate;
        }
    }

    /// Shrinks the capacity ceiling to the length plus one byte of headroom
    /// (a deliberate quirk of this store's sizing); the ceiling is clamped at
    /// the storage bound `N` so that it never promises room the storage does
    /// not have.
    pub fn shrink_to_fit(&mut self)
        requires
            old(self).wf(),
        ensures
            final(self).wf(),
            final(self)@ == old(self)@,
            final(self).spec_storage() == old(self).spec_storage(),
            final(self).spec_capacity() == if old(self)@.len() < N {
                (old(self)@.len() + 1) as nat
            } else {
                N as nat
            },
    {
        if self.len < N {
            self.capacity = self.len + 1;
        } else {
            self.capacity = N;
        }
    }

    /// Shrinks the capacity ceiling to `shrk_to`, but only when that lies
    /// strictly between the current length and the current ceiling; otherwise
    /// a no-op.
    pub fn shrink_to(&mut self, shrk_to: usize)
        requires
            old(self).wf(),
        ensures
            final(self).wf(),
            final(self)@ == old(self)@,
            final(self).spec_storage() == old(self).spec_storage(),
            final(self).spec_capacity() == if old(self)@.len() < shrk_to
                < old(self).spec_capacity() {
                shrk_to as nat
            } else {
                old(self).spec_capacity()
            },
    {
        if shrk_to > self.len && shrk_to < self.capacity {
            self.capacity = shrk_to;
        }
    }

    /// Low-level escape: sets the length counter directly.  The caller owes
    /// everything: the new prefix must already be valid UTF-8 and within the
    /// capacity ceiling.
    pub fn set_len(&mut self, len: usize)
        requires
            old(self).store_inv(),
            len <= old(self).spec_capacity(),
            valid_utf8(old(self).spec_storage().subrange(0, len as int)),
        ensures
            final(self).wf(),
            final(self)@ == old(self).spec_storage().subrange(0, len as int),
            final(self).spec_storage() == old(self).spec_storage(),
            final(self).spec_capacity() == old(self).spec_capacity(),
    {
        self.len = len;
    }

    /// Appends one scalar.  Fails with `CapacityOverflow`, and changes
    /// nothing, exactly when the encoded scalar does not fit under the
    /// capacity ceiling.
    pub fn push(&mut self, ch: char) -> (r: Result<(), yError>)
        requires
            old(self).wf(),
        ensures
            final(self).wf(),
            final(self).spec_capacity() == old(self).spec_capacity(),
            ({
                let e = encode_scalar(ch as u32);
                if old(self)@.len() + e.len() <= old(self).spec_capacity() {
                    r is Ok && final(self)@ == old(self)@ + e
                } else {
                    r == Err::<(), yError>(yError::CapacityOverflow) && *final(self) == *old(self)
                }
            }),
    {
        let (buf, k) = encode_char_buf(ch);
        if self.capacity - self.len < k {
            Err(yError::CapacityOverflow)
        } else {
            copy_from_slice_at(&mut self.list, self.len, buf.as_slice(), 0, k);
            self.len = self.len + k;
            proof {
                let e = encode_scalar(ch as u32);
                let cs = seq![ch];
                assert(cs.drop_first() =~= Seq::<char>::empty());
                assert(encode_utf8(Seq::<char>::empty()) =~= Seq::<u8>::empty());
                assert(encode_utf8(cs) =~= e);
                encode_utf8_valid_utf8(cs);
                assert(self@ =~= old(self)@ + e);
                valid_utf8_concat(old(self)@, e);
            }
            Ok(())
        }
    }

    /// Appends a whole text fragment.  Fails with `CapacityOverflow`, and
    /// changes nothing, exactly when the fragment's bytes do not fit under
    /// the capacity ceiling.
    pub fn push_str(&mut self, slice: &str) -> (r: Result<(), yError>)
        requires
            old(self).wf(),
        ensures
            final(self).wf(),
            final(self).spec_capacity() == old(self).spec_capacity(),
            ({
                let e = encode_utf8(slice@);
                if old(self)@.len() + e.len() <= old(self).spec_capacity() {
                    r is Ok && final(self)@ == old(self)@ + e
                } else {
                    r == Err::<(), yError>(yError::CapacityOverflow) && *final(self) == *old(self)
                }
            }),
    {
        let bytes: &[u8] = slice.as_bytes();
        if self.capacity - self.len < bytes.len() {
            Err(yError::CapacityOverflow)
        } else {
            copy_from_slice_at(&mut self.list, self.len, bytes, 0, bytes.len());
            self.len = self.len + bytes.len();
            proof {
                encode_utf8_valid_utf8(slice@);
                assert(self@ =~= old(self)@ + encode_utf8(slice@));
                valid_utf8_concat(old(self)@, encode_utf8(slice@));
            }
            Ok(())
        }
    }

    /// Appends a text fragment without the capacity check; the caller owes
    /// the proof that it fits.
    pub fn push_str_unchecked(&mut self, slice: &str)
        requires
            old(self).wf(),
            old(self)@.len() + encode_utf8(slice@).len() <= old(self).spec_capacity(),
        ensures
            final(self).wf(),
            final(self).spec_capacity() == old(self).spec_capacity(),
            final(self)@ == old(self)@ + encode_utf8(slice@),
    {
        let bytes: &[u8] = slice.as_bytes();
        copy_from_slice_at(&mut self.list, self.len, bytes, 0, bytes.len());
        self.len = self.len + bytes.len();
        proof {
            encode_utf8_valid_utf8(slice@);
            assert(self@ =~= old(self)@ + encode_utf8(slice@));
            valid_utf8_concat(old(self)@, encode_utf8(slice@));
        }
    }

    /// The byte-sink entry point for formatted output: appends the fragment,
    /// or reports the formatting-specific failure, and changes nothing, when
    /// it does not fit under the capacity ceiling.
    pub fn write_str(&mut self, slice: &str) -> (r: Result<(), yFmtError>)
        requires
            old(self).wf(),
        ensures
            final(self).wf(),
            final(self).spec_capacity() == old(self).spec_capacity(),
            ({
                let e = encode_utf8(slice@);
                if old(self)@.len() + e.len() <= old(self).spec_capacity() {
                    r is Ok && final(self)@ == old(self)@ + e
                } else {
                    r == Err::<(), yFmtError>(yFmtError::WriteOverflow) && *final(self) == *old(
                        self,
                    )
                }
            }),
    {
        let bytes: &[u8] = slice.as_bytes();
        if self.capacity - self.len < bytes.len() {
            Err(yFmtError::WriteOverflow)
        } else {
            copy_from_slice_at(&mut self.list, self.len, bytes, 0, bytes.len());
            self.len = self.len + bytes.len();
            proof {
                encode_utf8_valid_utf8(slice@);
                assert(self@ =~= old(self)@ + encode_utf8(slice@));
                valid_utf8_concat(old(self)@, encode_utf8(slice@));
            }
            Ok(())
        }
    }

    /// Removes and returns the last scalar, or `None` on empty content.
    pub fn pop(&mut self) -> (r: Option<char>)
        requires
            old(self).wf(),
        ensures
            final(self).wf(),
            final(self).spec_capacity() == old(self).spec_capacity(),
            old(self)@.len() == 0 ==> r is None && *final(self) == *old(self),
            old(self)@.len() > 0 ==> ({
                let p = old(self)@;
                &&& r == Some(decode_last_scalar(p) as char)
                &&& final(self)@ == p.subrange(0, p.len() - length_of_last_scalar(p))
            }),
    {
        if self.len == 0 {
            None
        } else {
            let ghost p = self@;
            let j = last_scalar_start(self.list.as_slice(), self.len);
            proof {
                assert(self.list@.subrange(0, self.len as int) == p);
            }
            let (c, k) = scalar_decode_at(self.list.as_slice(), j, self.len);
            self.len = j;
            proof {
                valid_utf8_split(p, j as int);
                assert(self@ =~= p.subrange(0, j as int));
                vstd::utf8::char_u32_cast(c, decode_last_scalar(p));
            }
            Some(c)
        }
    }

    /// A zero-copy text view of the content.
    pub fn as_str(&self) -> (r: &str)
        requires
            self.wf(),
        ensures
            r.spec_bytes() == self@,
            r@ == decode_utf8(self@),
    {
        let s: &[u8] = slice_subrange(self.list.as_slice(), 0, self.len);
        let r = bytes_as_str(s);
        proof {
            encode_utf8_decode_utf8(r@);
        }
        r
    }

    /// The content as an owned, growable string.
    pub fn to_string(&self) -> (r: String)
        requires
            self.wf(),
        ensures
            r@ == decode_utf8(self@),
            encode_utf8(r@) == self@,
    {
        String::from_str(self.as_str())
    }

    /// The content as an owned byte sequence.
    pub fn into_bytes(&self) -> (r: Vec<u8>)
        requires
            self.wf(),
        ensures
            r@ == self@,
    {
        slice_to_vec(slice_subrange(self.list.as_slice(), 0, self.len))
    }

    /// A buffer holding the given text, with capacity `N`.  A source whose
    /// encoding exceeds the bound is cut, silently, at the largest scalar
    /// boundary that fits; that is a truncation, not an error.
    pub fn from(slice: &str) -> (r: Self)
        ensures
            r.wf(),
            r.spec_capacity() == N as nat,
            encode_utf8(slice@).len() <= N ==> r@ == encode_utf8(slice@),
            encode_utf8(slice@).len() > N ==> r@ == encode_utf8(slice@).subrange(
                0,
                last_boundary_at_most(encode_utf8(slice@), N as int),
            ),
    {
        proof {
            encode_utf8_valid_utf8(slice@);
        }
        Self::fit_from_bytes(slice.as_bytes())
    }

    /// Builds a buffer of bound `N` from valid content, cutting at the
    /// largest scalar boundary that fits when the content exceeds the bound.
    pub(crate) fn fit_from_bytes(bytes: &[u8]) -> (r: Self)
        requires
            valid_utf8(bytes@),
        ensures
            r.wf(),
            r.spec_capacity() == N as nat,
            bytes@.len() <= N ==> r@ == bytes@,
            bytes@.len() > N ==> r@ == bytes@.subrange(
                0,
                last_boundary_at_most(bytes@, N as int),
            ),
    {
        proof {
            is_char_boundary_start_end_of_seq(bytes@);
        }
        let mut r = Self::with_capacity();
        let n: usize = if bytes.len() <= N {
            bytes.len()
        } else {
            boundary_fit(bytes, N)
        };
        copy_from_slice_at(&mut r.list, 0, bytes, 0, n);
        r.len = n;
        proof {
            assert(r@ =~= bytes@.subrange(0, n as int));
            valid_utf8_split(bytes@, n as int);
            if bytes@.len() <= N {
                assert(bytes@.subrange(0, n as int) =~= bytes@);
            }
        }
        r
    }

    /// A buffer holding the given bytes after validation; rejects bytes that
    /// are not valid UTF-8 with `FromUtf8Error`.
    pub fn from_utf8(vector: Vec<u8>) -> (r: Result<Self, yError>)
        requires
            vector@.len() <= N,
        ensures
            ({
                match r {
                    Ok(y) => valid_utf8(vector@) && y.wf() && y@ == vector@ && y.spec_capacity()
                        == N as nat,
                    Err(e) => !valid_utf8(vector@) && e == yError::FromUtf8Error,
                }
            }),
    {
        if utf8_check_range(vector.as_slice(), 0, vector.len()) {
            proof {
                assert(vector@.subrange(0, vector@.len() as int) =~= vector@);
            }
            let mut r = Self::with_capacity();
            copy_from_slice_at(&mut r.list, 0, vector.as_slice(), 0, vector.len());
            r.len = vector.len();
            proof {
                assert(r@ =~= vector@);
            }
            Ok(r)
        } else {
            proof {
                assert(vector@.subrange(0, vector@.len() as int) =~= vector@);
            }
            Err(yError::FromUtf8Error)
        }
    }

    /// A buffer holding the given bytes without validation; the caller
    /// asserts, by proof, that they are valid UTF-8.
    pub fn from_utf8_unchecked(vector: Vec<u8>) -> (r: Self)
        requires
            vector@.len() <= N,
            valid_utf8(vector@),
        ensures
            r.wf(),
            r@ == vector@,
            r.spec_capacity() == N as nat,
    {
        let mut r = Self::with_capacity();
        copy_from_slice_at(&mut r.list, 0, vector.as_slice(), 0, vector.len());
        r.len = vector.len();
        proof {
            assert(r@ =~= vector@);
        }
        r
    }

    /// A buffer collecting the given scalars in order, with capacity `N`.
    /// Scalars go in whole until the first one that does not fit; nothing
    /// after it is taken.
    #[verifier::rlimit(30)]
    pub fn from_chars(chars: &Vec<char>) -> (r: Self)
        ensures
            r.wf(),
            r.spec_capacity() == N as nat,
            r@ == take_scalars_fit(chars@, N as int),
            encode_utf8(chars@).len() <= N ==> r@ == encode_utf8(chars@),
    {
        let mut r = Self::with_capacity();
        let mut i: usize = 0;
        proof {
            assert(chars@.skip(0) =~= chars@);
            assert(r@ + take_scalars_fit(chars@, N as int) =~= take_scalars_fit(
                chars@,
                N as int,
            ));
        }
        while i < chars.len()
            invariant
                i <= chars@.len(),
                r.wf(),
                r.spec_capacity() == N as nat,
                take_scalars_fit(chars@, N as int) == r@ + take_scalars_fit(
                    chars@.skip(i as int),
                    N - r@.len(),
                ),
            ensures
                i <= chars@.len(),
                r.wf(),
                r.spec_capacity() == N as nat,
                take_scalars_fit(chars@, N as int) == r@,
            decreases chars@.len() - i,
        {
            let c = chars[i];
            let (buf, k) = encode_char_buf(c);
            let ghost e = encode_scalar(c as u32);
            proof {
                assert(chars@.skip(i as int)[0] == chars@[i as int]);
                assert(chars@.skip(i as int).drop_first() =~= chars@.skip(i + 1));
            }
            if r.capacity - r.len < k {
                proof {
                    assert(take_scalars_fit(chars@.skip(i as int), N - r@.len())
                        =~= Seq::<u8>::empty());
                    assert(take_scalars_fit(chars@, N as int) =~= r@);
                }
                break ;
            }
            let ghost prev = r@;
            copy_from_slice_at(&mut r.list, r.len, buf.as_slice(), 0, k);
            proof {
                assert(r@ =~= prev);
            }
            r.len = r.len + k;
            proof {
                let cs = seq![c];
                assert(cs.drop_first() =~= Seq::<char>::empty());
                assert(encode_utf8(Seq::<char>::empty()) =~= Seq::<u8>::empty());
                assert(encode_utf8(cs) =~= e);
                encode_utf8_valid_utf8(cs);
                assert(r@ =~= prev + e);
                valid_utf8_concat(prev, e);
                assert(take_scalars_fit(chars@.skip(i as int), N - prev.len()) == e
                    + take_scalars_fit(chars@.skip(i + 1), N - prev.len() - e.len()));
                assert(r@ + take_scalars_fit(chars@.skip(i + 1), N - r@.len()) =~= prev
                    + take_scalars_fit(chars@.skip(i as int), N - prev.len()));
            }
            i = i + 1;
        }
        proof {
            if encode_utf8(chars@).len() <= N {
                lemma_take_scalars_fit_all(chars@, N as int);
            }
        }
        r
    }

    /// Byte-exact comparison of the content against a text view.
    pub fn eq_str(&self, slice: &str) -> (r: bool)
        requires
            self.wf(),
        ensures
            r == (self@ == encode_utf8(slice@)),
    {
        let bytes: &[u8] = slice.as_bytes();
        if bytes.len() != self.len {
            proof {
                assert(self@.len() != encode_utf8(slice@).len());
            }
            false
        } else {
            let r = crate::shift::eq_range(self.list.as_slice(), 0, bytes);
            proof {
                assert(self.list@.subrange(0, 0 + bytes@.len() as int) == self@);
            }
            r
        }
    }

    /// A full byte-range copy of the content and counters into a fresh
    /// instance; the two buffers share nothing afterwards.
    pub(crate) fn duplicate(&self) -> (r: Self)
        ensures
            r@ == self@,
            r.spec_capacity() == self.spec_capacity(),
            self.wf() ==> r.wf(),
    {
        let src_len: usize = self.list.len();
        let mut list: Vec<u8> = Vec::with_capacity(src_len);
        let mut i: usize = 0;
        while i < src_len
            invariant
                i <= src_len,
                src_len == self.list@.len(),
                list@ == self.list@.subrange(0, i as int),
            decreases src_len - i,
        {
            let byte: u8 = self.list[i];
            list.push(byte);
            proof {
                assert(self.list@.subrange(0, i + 1) =~= self.list@.subrange(0, i as int).push(
                    byte,
                ));
            }
            i = i + 1;
        }
        proof {
            assert(list@ =~= self.list@);
        }
        Yangon { list, len: self.len, capacity: self.capacity }
    }

    /// Low-level escape: sets the capacity ceiling directly.  The caller owes
    /// that the new ceiling still covers the current length and fits the
    /// storage bound.
    pub fn set_cap(&mut self, cap: usize)
        requires
            old(self).wf(),
            old(self)@.len() <= cap <= N,
        ensures
            final(self).wf(),
            final(self)@ == old(self)@,
            final(self).spec_storage() == old(self).spec_storage(),
            final(self).spec_capacity() == cap as nat,
    {
        self.capacity = cap;
    }
}

impl<const N: usize> Clone for Yangon<N> {
    /// Cloning performs a full byte-range copy into a fresh instance.
    fn clone(&self) -> (r: Self)
        ensures
            r@ == self@,
            r.spec_capacity() == self.spec_capacity(),
            self.wf() ==> r.wf(),
    {
        self.duplicate()
    }
}

} // verus!
