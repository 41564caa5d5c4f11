//! The lossy decoder: turning arbitrary bytes into valid text by replacing
//! each maximal ill-formed subpart with the replacement character.

use crate::buffer::Yangon;
use crate::replace::fit_bytes;
use crate::replace::lemma_take_first_scalar;
use crate::scan::bytes_as_str;
use crate::scan::scalar_check_at;
use crate::scan::utf8_check_range;
use crate::shift::append_range;
use vstd::prelude::*;
use vstd::string::StringSliceAdditionalSpecFns;
use vstd::utf8::codepoint_width_3;
use vstd::utf8::is_continuation_byte;
use vstd::utf8::pop_first_scalar;
use vstd::utf8::take_first_scalar;
use vstd::utf8::valid_first_scalar;
use vstd::utf8::valid_utf8;
use vstd::utf8::valid_utf8_concat;

verus! {

/// A borrow-or-own result: either a zero-copy view of input that was already
/// valid text, or a newly built buffer.
#[allow(non_camel_case_types)]
pub enum yCow<'c, X> {
    Borrowed(&'c str),
    Owned(X),
}

/// The UTF-8 encoding of the replacement character.
pub open spec fn replacement_bytes() -> Seq<u8> {
    seq![0xEFu8, 0xBFu8, 0xBDu8]
}

/// Whether `b1` may follow the lead byte `b0` as the second byte of a
/// well-formed scalar encoding.
pub open spec fn second_byte_ok(b0: u8, b1: u8) -> bool {
    if b0 == 0xE0 {
        0xA0 <= b1 <= 0xBF
    } else if b0 == 0xED {
        0x80 <= b1 <= 0x9F
    } else if b0 == 0xF0 {
        0x90 <= b1 <= 0xBF
    } else if b0 == 0xF4 {
        0x80 <= b1 <= 0x8F
    } else {
        is_continuation_byte(b1)
    }
}

/// How many bytes the decoder consumes for the ill-formed subpart at the
/// front of `b`: the longest prefix that could still begin a well-formed
/// scalar, and one byte where not even the first can.
pub open spec fn invalid_len(b: Seq<u8>) -> int
    recommends
        b.len() > 0,
{
    let b0 = b[0];
    if 0xE0 <= b0 <= 0xEF {
        if b.len() >= 2 && second_byte_ok(b0, b[1]) {
            2
        } else {
            1
        }
    } else if 0xF0 <= b0 <= 0xF4 {
        if b.len() >= 2 && second_byte_ok(b0, b[1]) {
            if b.len() >= 3 && is_continuation_byte(b[2]) {
                3
            } else {
                2
            }
        } else {
            1
        }
    } else {
        1
    }
}

/// Maximal-subpart lossy decoding: well-formed scalars are copied through,
/// and each maximal ill-formed subpart becomes one replacement character.
pub open spec fn lossy_decode(b: Seq<u8>) -> Seq<u8>
    decreases b.len(),
{
    if b.len() == 0 {
        Seq::empty()
    } else if valid_first_scalar(b) {
        take_first_scalar(b) + lossy_decode(pop_first_scalar(b))
    } else if invalid_len(b) <= b.len() {
        replacement_bytes() + lossy_decode(b.skip(invalid_len(b)))
    } else {
        replacement_bytes()
    }
}

/// The replacement character's encoding is valid text.
pub proof fn lemma_replacement_valid()
    ensures
        valid_utf8(replacement_bytes()),
{
    let r = replacement_bytes();
    assert(codepoint_width_3(0xEFu8, 0xBFu8, 0xBDu8) == 0xFFFDu32) by (bit_vector);
    assert(valid_first_scalar(r));
    assert(pop_first_scalar(r) =~= Seq::<u8>::empty());
    assert(valid_utf8(Seq::<u8>::empty()));
}

/// Lossy decoding of any byte sequence whatsoever yields valid UTF-8.
pub proof fn lemma_lossy_decode_valid(b: Seq<u8>)
    ensures
        valid_utf8(lossy_decode(b)),
    decreases b.len(),
{
    if b.len() == 0 {
    } else if valid_first_scalar(b) {
        lemma_take_first_scalar(b);
        lemma_lossy_decode_valid(pop_first_scalar(b));
        valid_utf8_concat(take_first_scalar(b), lossy_decode(pop_first_scalar(b)));
    } else {
        lemma_replacement_valid();
        if invalid_len(b) <= b.len() {
            lemma_lossy_decode_valid(b.skip(invalid_len(b)));
            valid_utf8_concat(replacement_bytes(), lossy_decode(b.skip(invalid_len(b))));
        }
    }
}

/// Finds how many bytes the ill-formed subpart at `i` takes, mirroring the
/// consumption rule of [`invalid_len`].
fn invalid_len_exec(b: &[u8], i: usize, end: usize) -> (n: usize)
    requires
        i < end <= b@.len(),
    ensures
        n as int == invalid_len(b@.subrange(i as int, end as int)),
        1 <= n,
        i + n <= end,
{
    let ghost s = b@.subrange(i as int, end as int);
    let b0: u8 = b[i];
    proof {
        assert(s[0] == b0);
    }
    if 0xE0 <= b0 && b0 <= 0xEF {
        if end - i >= 2 {
            let b1: u8 = b[i + 1];
            proof {
                assert(s[1] == b1);
            }
            let ok: bool = if b0 == 0xE0 {
                0xA0 <= b1 && b1 <= 0xBF
            } else if b0 == 0xED {
                0x80 <= b1 && b1 <= 0x9F
            } else {
                0x80 <= b1 && b1 <= 0xBF
            };
            if ok {
                2
            } else {
                1
            }
        } else {
            1
        }
    } else if 0xF0 <= b0 && b0 <= 0xF4 {
        if end - i >= 2 {
            let b1: u8 = b[i + 1];
            proof {
                assert(s[1] == b1);
            }
            let ok: bool = if b0 == 0xF0 {
                0x90 <= b1 && b1 <= 0xBF
            } else if b0 == 0xF4 {
                0x80 <= b1 && b1 <= 0x8F
            } else {
                0x80 <= b1 && b1 <= 0xBF
            };
            if ok {
                if end - i >= 3 {
                    let b2: u8 = b[i + 2];
                    proof {
                        assert(s[2] == b2);
                    }
                    if 0x80 <= b2 && b2 <= 0xBF {
                        3
                    } else {
                        2
                    }
                } else {
                    2
                }
            } else {
                1
            }
        } else {
            1
        }
    } else {
        1
    }
}

impl<const N: usize> Yangon<N> {
    /// Converts arbitrary bytes to text: input that is already valid UTF-8
    /// comes back as a zero-copy view, and anything else as a new buffer in
    /// which every maximal ill-formed subpart has become the replacement
    /// character.  An output that outgrows the bound `N` is cut at the
    /// largest scalar boundary that fits.
    pub fn from_utf8_lossy<'b>(list_ref: &'b [u8]) -> (r: yCow<'b, Self>)
        ensures
            ({
                match r {
                    yCow::Borrowed(s) => valid_utf8(list_ref@) && s.spec_bytes() == list_ref@,
                    yCow::Owned(y) => !valid_utf8(list_ref@) && y.wf() && y.spec_capacity()
                        == N as nat && y@ == fit_bytes(lossy_decode(list_ref@), N as int),
                }
            }),
    {
        let len: usize = list_ref.len();
        if utf8_check_range(list_ref, 0, len) {
            proof {
                assert(list_ref@.subrange(0, len as int) =~= list_ref@);
            }
            yCow::Borrowed(bytes_as_str(list_ref))
        } else {
            proof {
                assert(list_ref@.subrange(0, len as int) =~= list_ref@);
            }
            let ghost whole = list_ref@;
            let mut out: Vec<u8> = Vec::new();
            let mut i: usize = 0;
            proof {
                assert(out@ + lossy_decode(whole) =~= lossy_decode(whole));
                assert(whole.skip(0) =~= whole);
            }
            while i < len
                invariant
                    i <= len,
                    len == whole.len(),
                    whole == list_ref@,
                    out@ + lossy_decode(whole.skip(i as int)) == lossy_decode(whole),
                decreases len - i,
            {
                let ghost rest = whole.skip(i as int);
                let ghost out0 = out@;
                match scalar_check_at(list_ref, i, len) {
                    Some(k) => {
                        proof {
                            assert(rest =~= whole.subrange(i as int, len as int));
                            lemma_take_first_scalar(rest);
                            assert(take_first_scalar(rest) =~= whole.subrange(i as int, i + k));
                            assert(pop_first_scalar(rest) =~= whole.skip(i + k));
                        }
                        append_range(&mut out, list_ref, i, i + k);
                        proof {
                            assert((out0 + whole.subrange(i as int, i + k)) + lossy_decode(
                                whole.skip(i + k),
                            ) =~= out0 + (take_first_scalar(rest) + lossy_decode(
                                pop_first_scalar(rest),
                            )));
                        }
                        i = i + k;
                    },
                    None => {
                        proof {
                            assert(rest =~= whole.subrange(i as int, len as int));
                        }
                        let n = invalid_len_exec(list_ref, i, len);
                        out.push(0xEF);
                        out.push(0xBF);
                        out.push(0xBD);
                        proof {
                            assert(out@ =~= out0 + replacement_bytes());
                            assert(rest.skip(invalid_len(rest)) =~= whole.skip(i + n));
                            assert((out0 + replacement_bytes()) + lossy_decode(whole.skip(i + n))
                                =~= out0 + (replacement_bytes() + lossy_decode(
                                rest.skip(invalid_len(rest)),
                            )));
                        }
                        i = i + n;
                    },
                }
            }
            proof {
                assert(whole.skip(len as int) =~= Seq::<u8>::empty());
                assert(lossy_decode(Seq::<u8>::empty()) =~= Seq::<u8>::empty());
                assert(out@ + Seq::<u8>::empty() =~= out@);
                lemma_lossy_decode_valid(whole);
            }
            yCow::Owned(Self::fit_from_bytes(out.as_slice()))
        }
    }
}

impl<'c, const N: usize> yCow<'c, Yangon<N>> {
    /// The text the value holds, whether borrowed or owned.
    pub fn as_str(&self) -> (r: &str)
        requires
            self matches yCow::Owned(y) ==> y.wf(),
        ensures
            ({
                match self {
                    yCow::Borrowed(s) => r == s,
                    yCow::Owned(y) => r.spec_bytes() == y@,
                }
            }),
    {
        match self {
            yCow::Borrowed(s) => s,
            yCow::Owned(y) => y.as_str(),
        }
    }
}

} // verus!
