//! The mutation engine: in-place edits that open, close or move byte ranges
//! while keeping the content valid UTF-8.

use crate::buffer::Yangon;
use crate::model::filter_by;
use crate::model::lemma_decode_step;
use crate::model::lemma_encode_utf8_concat;
use crate::model::lemma_filter_by_push;
use crate::scan::encode_char_buf;
use crate::scan::scalar_decode_at;
use crate::shift::copy_from_slice_at;
use crate::shift::shift_left_in;
use crate::shift::shift_right_in;
use vstd::prelude::*;
use vstd::utf8::decode_first_scalar;
use vstd::utf8::decode_utf8;
use vstd::utf8::encode_scalar;
use vstd::utf8::encode_utf8;
use vstd::utf8::encode_utf8_valid_utf8;
use vstd::utf8::is_char_boundary;
use vstd::utf8::length_of_first_scalar;
use vstd::utf8::valid_first_scalar;
use vstd::utf8::valid_utf8;
use vstd::utf8::valid_utf8_concat;
use vstd::utf8::valid_utf8_split;

verus! {

impl<const N: usize> Yangon<N> {
    /// Opens a gap at the boundary `idx` and writes the scalar's encoding
    /// into it, shifting the tail right.  The caller owes the boundary and
    /// the room; a bad index or a full buffer is a contract violation here,
    /// not a runtime condition.
    pub fn insert(&mut self, idx: usize, ch: char)
        requires
            old(self).wf(),
            idx <= old(self)@.len(),
            is_char_boundary(old(self)@, idx as int),
            old(self)@.len() + encode_scalar(ch as u32).len() <= old(self).spec_capacity(),
        ensures
            final(self).wf(),
            final(self).spec_capacity() == old(self).spec_capacity(),
            final(self)@ == old(self)@.subrange(0, idx as int) + encode_scalar(ch as u32) + old(
                self,
            )@.subrange(idx as int, old(self)@.len() as int),
    {
        proof {
            old(self).model();
        }
        let (buf, k) = encode_char_buf(ch);
        let tail: usize = self.len - idx;
        shift_right_in(&mut self.list, idx + k, idx, tail);
        copy_from_slice_at(&mut self.list, idx, buf.as_slice(), 0, k);
        self.len = self.len + k;
        proof {
            self.model();
            let e = encode_scalar(ch as u32);
            let p = old(self)@;
            assert(self@ =~= p.subrange(0, idx as int) + e + p.subrange(
                idx as int,
                p.len() as int,
            ));
            let cs = seq![ch];
            assert(cs.drop_first() =~= Seq::<char>::empty());
            assert(encode_utf8(Seq::<char>::empty()) =~= Seq::<u8>::empty());
            assert(encode_utf8(cs) =~= e);
            encode_utf8_valid_utf8(cs);
            valid_utf8_split(p, idx as int);
            valid_utf8_concat(p.subrange(0, idx as int), e);
            valid_utf8_concat(
                p.subrange(0, idx as int) + e,
                p.subrange(idx as int, p.len() as int),
            );
            assert((p.subrange(0, idx as int) + e) + p.subrange(idx as int, p.len() as int)
                =~= p.subrange(0, idx as int) + e + p.subrange(idx as int, p.len() as int));
        }
    }

    /// Removes the scalar whose encoding starts at the boundary `idx`,
    /// closes the gap by shifting the tail left, and returns that scalar.
    pub fn remove(&mut self, idx: usize) -> (r: char)
        requires
            old(self).wf(),
            idx < old(self)@.len(),
            is_char_boundary(old(self)@, idx as int),
        ensures
            final(self).wf(),
            final(self).spec_capacity() == old(self).spec_capacity(),
            ({
                let p = old(self)@;
                let s = p.subrange(idx as int, p.len() as int);
                let k = length_of_first_scalar(s);
                &&& r == decode_first_scalar(s) as char
                &&& final(self)@ == p.subrange(0, idx as int) + p.subrange(
                    idx + k,
                    p.len() as int,
                )
            }),
    {
        let ghost p = self@;
        let ghost s = p.subrange(idx as int, p.len() as int);
        proof {
            old(self).model();
            valid_utf8_split(p, idx as int);
            assert(valid_first_scalar(s));
            assert(self.list@.subrange(idx as int, self.len as int) == s);
        }
        let (c, k) = scalar_decode_at(self.list.as_slice(), idx, self.len);
        let tail: usize = self.len - (idx + k);
        shift_left_in(&mut self.list, idx, idx + k, tail);
        self.len = self.len - k;
        proof {
            self.model();
            vstd::utf8::char_u32_cast(c, decode_first_scalar(s));
            assert(self@ =~= p.subrange(0, idx as int) + p.subrange(idx + k, p.len() as int));
            assert(vstd::utf8::pop_first_scalar(s) =~= p.subrange(idx + k, p.len() as int));
            valid_utf8_concat(p.subrange(0, idx as int), p.subrange(idx + k, p.len() as int));
        }
        c
    }

    /// Moves the content from the boundary `spl_off` on into a new buffer
    /// whose capacity is exactly the number of bytes moved, and truncates
    /// this one at `spl_off`.
    pub fn split_off(&mut self, spl_off: usize) -> (r: Self)
        requires
            old(self).wf(),
            spl_off <= old(self)@.len(),
            is_char_boundary(old(self)@, spl_off as int),
        ensures
            final(self).wf(),
            final(self).spec_capacity() == old(self).spec_capacity(),
            final(self)@ == old(self)@.subrange(0, spl_off as int),
            r.wf(),
            r@ == old(self)@.subrange(spl_off as int, old(self)@.len() as int),
            r.spec_capacity() == old(self)@.len() - spl_off,
    {
        let ghost p = self@;
        proof {
            old(self).model();
        }
        let mut r = Self::with_capacity();
        proof {
            r.model();
        }
        let moved: usize = self.len - spl_off;
        copy_from_slice_at(&mut r.list, 0, self.list.as_slice(), spl_off, self.len);
        r.len = moved;
        r.capacity = moved;
        self.len = spl_off;
        proof {
            self.model();
            r.model();
            valid_utf8_split(p, spl_off as int);
            assert(r@ =~= p.subrange(spl_off as int, p.len() as int));
            assert(self@ =~= p.subrange(0, spl_off as int));
        }
        r
    }

    /// Keeps only the scalars the predicate accepts, in their original
    /// order, compacting the bytes in place with one linear read/write pass.
    /// Every possible run of the predicate is described by a choice sequence
    /// `keep`, one verdict per scalar of the old content.
    pub fn retain<F: Fn(char) -> bool>(&mut self, closure: F)
        requires
            old(self).wf(),
            forall|c: char| closure.requires((c,)),
        ensures
            final(self).wf(),
            final(self).spec_capacity() == old(self).spec_capacity(),
            exists|keep: Seq<bool>|
                {
                    &&& keep.len() == decode_utf8(old(self)@).len()
                    &&& (forall|t: int|
                        0 <= t < keep.len() ==> closure.ensures(
                            (decode_utf8(old(self)@)[t],),
                            #[trigger] keep[t],
                        ))
                    &&& final(self)@ == encode_utf8(filter_by(decode_utf8(old(self)@), keep))
                },
    {
        proof {
            old(self).model();
        }
        let ghost orig = self@;
        let ghost cap0: usize = self.capacity;
        let len: usize = self.len;
        let ghost mut keep: Seq<bool> = Seq::empty();
        let mut rd: usize = 0;
        let mut wr: usize = 0;
        proof {
            assert(orig.subrange(0, 0) =~= Seq::<u8>::empty());
            assert(decode_utf8(Seq::<u8>::empty()) =~= Seq::<char>::empty());
            assert(filter_by(Seq::<char>::empty(), Seq::<bool>::empty()) =~= Seq::<char>::empty());
            assert(encode_utf8(Seq::<char>::empty()) =~= Seq::<u8>::empty());
            assert(self.list@.subrange(0, 0) =~= Seq::<u8>::empty());
        }
        while rd < len
            invariant
                forall|c: char| closure.requires((c,)),
                wr <= rd <= len,
                len == orig.len(),
                self.len == len,
                self.capacity == cap0,
                self.list@.len() == N,
                len <= cap0 <= N,
                valid_utf8(orig),
                is_char_boundary(orig, rd as int),
                self.list@.subrange(rd as int, len as int) == orig.subrange(rd as int, len as int),
                keep.len() == decode_utf8(orig.subrange(0, rd as int)).len(),
                forall|t: int|
                    0 <= t < keep.len() ==> closure.ensures(
                        (decode_utf8(orig.subrange(0, rd as int))[t],),
                        #[trigger] keep[t],
                    ),
                self.list@.subrange(0, wr as int) == encode_utf8(
                    filter_by(decode_utf8(orig.subrange(0, rd as int)), keep),
                ),
            decreases len - rd,
        {
            let ghost chars_done = decode_utf8(orig.subrange(0, rd as int));
            let ghost s = orig.subrange(rd as int, orig.len() as int);
            proof {
                valid_utf8_split(orig, rd as int);
                assert(self.list@.subrange(rd as int, len as int) == s);
            }
            let (c, k) = scalar_decode_at(self.list.as_slice(), rd, len);
            let keep_it = closure(c);
            proof {
                vstd::utf8::char_u32_cast(c, decode_first_scalar(s));
                lemma_decode_step(orig, rd as int, k as int);
                vstd::utf8::decode_utf8_first_scalar(s);
                assert(vstd::utf8::take_first_scalar(s) =~= orig.subrange(rd as int, rd + k));
                assert(encode_scalar(c as u32) == orig.subrange(rd as int, rd + k));
            }
            let ghost written = self.list@.subrange(0, wr as int);
            let ghost lpre = self.list@;
            proof {
                assert forall|i: int| rd <= i < len implies lpre[i] == orig[i] by {
                    assert(lpre.subrange(rd as int, len as int)[i - rd] == orig.subrange(
                        rd as int,
                        len as int,
                    )[i - rd]);
                }
            }
            if keep_it {
                shift_left_in(&mut self.list, wr, rd, k);
                proof {
                    assert(self.list@.subrange(0, wr as int) =~= written);
                    assert(self.list@.subrange(wr as int, (wr + k) as int) =~= orig.subrange(
                        rd as int,
                        rd + k,
                    ));
                    assert(self.list@.subrange(0, (wr + k) as int) =~= written + encode_scalar(
                        c as u32,
                    ));
                    assert(self.list@.subrange((rd + k) as int, len as int) =~= orig.subrange(
                        rd + k,
                        len as int,
                    ));
                }
                wr = wr + k;
            }
            proof {
                let keep0 = keep;
                keep = keep.push(keep_it);
                lemma_filter_by_push(chars_done, keep0, c, keep_it);
                lemma_encode_utf8_concat(
                    filter_by(chars_done, keep0),
                    if keep_it {
                        seq![c]
                    } else {
                        Seq::<char>::empty()
                    },
                );
                assert(seq![c].drop_first() =~= Seq::<char>::empty());
                assert(encode_utf8(Seq::<char>::empty()) =~= Seq::<u8>::empty());
                assert(encode_utf8(seq![c]) =~= encode_scalar(c as u32));
                assert(decode_utf8(orig.subrange(0, rd + k)) == chars_done.push(c));
                if keep_it {
                    assert(self.list@.subrange(0, wr as int) == encode_utf8(
                        filter_by(decode_utf8(orig.subrange(0, rd + k)), keep),
                    ));
                } else {
                    assert(encode_utf8(filter_by(chars_done, keep0)) + Seq::<u8>::empty()
                        =~= encode_utf8(filter_by(chars_done, keep0)));
                    assert(self.list@.subrange(0, wr as int) == encode_utf8(
                        filter_by(decode_utf8(orig.subrange(0, rd + k)), keep),
                    ));
                }
                if !keep_it {
                    assert(self.list@ == lpre);
                }
                assert(self.list@.subrange((rd + k) as int, len as int) =~= orig.subrange(
                    rd + k,
                    len as int,
                ));
            }
            rd = rd + k;
        }
        self.len = wr;
        proof {
            self.model();
            assert(orig.subrange(0, len as int) =~= orig);
            let chars = decode_utf8(orig);
            vstd::utf8::encode_utf8_valid_utf8(filter_by(chars, keep));
            assert(self@ == encode_utf8(filter_by(chars, keep)));
            assert(keep.len() == chars.len());
            assert(forall|t: int|
                0 <= t < keep.len() ==> closure.ensures((chars[t],), #[trigger] keep[t]));
        }
    }

    /// The general splice: replaces the bytes of `range` with the given
    /// text, shifting the tail to close or open the difference.  Both range
    /// ends must be boundaries, and the new length must stay under the
    /// capacity ceiling.
    pub fn replace_range(&mut self, range: core::ops::Range<usize>, slice: &str)
        requires
            old(self).wf(),
            range.start <= range.end <= old(self)@.len(),
            is_char_boundary(old(self)@, range.start as int),
            is_char_boundary(old(self)@, range.end as int),
            old(self)@.len() - (range.end - range.start) + encode_utf8(slice@).len() <= old(
                self,
            ).spec_capacity(),
        ensures
            final(self).wf(),
            final(self).spec_capacity() == old(self).spec_capacity(),
            final(self)@ == old(self)@.subrange(0, range.start as int) + encode_utf8(slice@)
                + old(self)@.subrange(range.end as int, old(self)@.len() as int),
    {
        proof {
            old(self).model();
        }
        let start: usize = range.start;
        let end: usize = range.end;
        let bytes: &[u8] = slice.as_bytes();
        let m: usize = bytes.len();
        let gap: usize = end - start;
        let tail: usize = self.len - end;
        let ghost p = self@;
        if m <= gap {
            copy_from_slice_at(&mut self.list, start, bytes, 0, m);
            shift_left_in(&mut self.list, start + m, end, tail);
            self.len = (self.len - gap) + m;
        } else {
            shift_right_in(&mut self.list, start + m, end, tail);
            copy_from_slice_at(&mut self.list, start, bytes, 0, m);
            self.len = self.len + (m - gap);
        }
        proof {
            self.model();
            let e = encode_utf8(slice@);
            assert(self@ =~= p.subrange(0, start as int) + e + p.subrange(
                end as int,
                p.len() as int,
            ));
            encode_utf8_valid_utf8(slice@);
            valid_utf8_split(p, start as int);
            valid_utf8_split(p, end as int);
            valid_utf8_concat(p.subrange(0, start as int), e);
            valid_utf8_concat(
                p.subrange(0, start as int) + e,
                p.subrange(end as int, p.len() as int),
            );
            assert((p.subrange(0, start as int) + e) + p.subrange(end as int, p.len() as int)
                =~= p.subrange(0, start as int) + e + p.subrange(end as int, p.len() as int));
        }
    }
}

} // verus!
