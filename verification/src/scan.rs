//! The boundary scanner: locating and checking scalar encodings inside byte
//! ranges by leading-byte classification, verified against the UTF-8 model of
//! `vstd::utf8`.

use vstd::prelude::*;
use vstd::string::StringSliceAdditionalSpecFns;
use vstd::utf8::*;

verus! {

/// Relies on `core::str::from_utf8`: bytes that are valid UTF-8 convert to
/// the text slice whose UTF-8 encoding is exactly those bytes.
#[verifier::external_body]
pub(crate) fn bytes_as_str(v: &[u8]) -> (r: &str)
    requires
        valid_utf8(v@),
    ensures
        r.spec_bytes() == v@,
{
    core::str::from_utf8(v).unwrap()
}

/// Relies on `char::from_u32`: every Unicode scalar value converts to the
/// `char` with exactly that value.
#[verifier::external_body]
pub(crate) fn char_from_scalar(u: u32) -> (c: char)
    requires
        is_scalar(u),
    ensures
        c as u32 == u,
{
    char::from_u32(u).unwrap()
}

/// Whether the byte has the continuation-byte form `10xxxxxx`.
pub(crate) fn is_cont_byte(x: u8) -> (r: bool)
    ensures
        r == is_continuation_byte(x),
{
    0x80 <= x && x <= 0xBF
}

/// The UTF-8 encoding of one scalar, written into a four-byte window together
/// with its width.
pub(crate) fn encode_char_buf(c: char) -> (r: ([u8; 4], usize))
    ensures
        1 <= r.1 <= 4,
        r.1 as int == encode_scalar(c as u32).len(),
        r.0@.subrange(0, r.1 as int) == encode_scalar(c as u32),
{
    proof {
        char_is_scalar(c);
    }
    let u: u32 = c as u32;
    let mut buf: [u8; 4] = [0u8, 0u8, 0u8, 0u8];
    if u <= 0x7F {
        buf[0] = (u & 0x7F) as u8;
        proof {
            assert(buf@.subrange(0, 1) =~= encode_scalar(c as u32));
        }
        (buf, 1)
    } else if u <= 0x7FF {
        buf[0] = 0xC0u8 | (((u >> 6u32) & 0x1F) as u8);
        buf[1] = 0x80u8 | ((u & 0x3F) as u8);
        proof {
            assert(buf@.subrange(0, 2) =~= encode_scalar(c as u32));
        }
        (buf, 2)
    } else if u <= 0xFFFF {
        buf[0] = 0xE0u8 | (((u >> 12u32) & 0x0F) as u8);
        buf[1] = 0x80u8 | (((u >> 6u32) & 0x3F) as u8);
        buf[2] = 0x80u8 | ((u & 0x3F) as u8);
        proof {
            assert(buf@.subrange(0, 3) =~= encode_scalar(c as u32));
        }
        (buf, 3)
    } else {
        buf[0] = 0xF0u8 | (((u >> 18u32) & 0x7) as u8);
        buf[1] = 0x80u8 | (((u >> 12u32) & 0x3F) as u8);
        buf[2] = 0x80u8 | (((u >> 6u32) & 0x3F) as u8);
        buf[3] = 0x80u8 | ((u & 0x3F) as u8);
        proof {
            assert(buf@.subrange(0, 4) =~= encode_scalar(c as u32));
        }
        (buf, 4)
    }
}

/// Decides whether a well-formed scalar encoding starts at `start` in
/// `b[start..end]`, and if so how many bytes it takes.
pub(crate) fn scalar_check_at(b: &[u8], start: usize, end: usize) -> (r: Option<usize>)
    requires
        start < end <= b@.len(),
    ensures
        ({
            let s = b@.subrange(start as int, end as int);
            match r {
                Some(k) => valid_first_scalar(s) && 1 <= k <= 4 && start + k <= end && k as int
                    == length_of_first_scalar(s),
                None => !valid_first_scalar(s),
            }
        }),
{
    let ghost s: Seq<u8> = b@.subrange(start as int, end as int);
    let b0: u8 = b[start];
    proof {
        assert(s[0] == b0);
    }
    if b0 < 0x80 {
        proof {
            assert(!(0xD800 <= codepoint_width_1(b0) <= 0xDFFF)) by (bit_vector)
                requires
                    b0 < 0x80,
            ;
        }
        Some(1)
    } else if b0 < 0xC2 {
        proof {
            if s.len() >= 2 && 0xC0 <= b0 && is_continuation_byte(s[1]) {
                let b1 = s[1];
                assert(codepoint_width_2(b0, b1) < 0x80) by (bit_vector)
                    requires
                        0xC0 <= b0 < 0xC2,
                        0x80 <= b1 <= 0xBF,
                ;
            }
        }
        None
    } else if b0 < 0xE0 {
        if end - start < 2 {
            None
        } else {
            let b1: u8 = b[start + 1];
            proof {
                assert(s[1] == b1);
            }
            if 0x80 <= b1 && b1 <= 0xBF {
                proof {
                    assert(0x80 <= codepoint_width_2(b0, b1) <= 0x7FF) by (bit_vector)
                        requires
                            0xC2 <= b0 < 0xE0,
                            0x80 <= b1 <= 0xBF,
                    ;
                }
                Some(2)
            } else {
                None
            }
        }
    } else if b0 < 0xF0 {
        if end - start < 3 {
            None
        } else {
            let b1: u8 = b[start + 1];
            let b2: u8 = b[start + 2];
            proof {
                assert(s[1] == b1 && s[2] == b2);
            }
            if !(0x80 <= b1 && b1 <= 0xBF) {
                None
            } else if !(0x80 <= b2 && b2 <= 0xBF) {
                None
            } else if b0 == 0xE0 && b1 < 0xA0 {
                proof {
                    assert(codepoint_width_3(b0, b1, b2) < 0x800) by (bit_vector)
                        requires
                            b0 == 0xE0,
                            0x80 <= b1 < 0xA0,
                            0x80 <= b2 <= 0xBF,
                    ;
                }
                None
            } else if b0 == 0xED && b1 >= 0xA0 {
                proof {
                    assert(0xD800 <= codepoint_width_3(b0, b1, b2) <= 0xDFFF) by (bit_vector)
                        requires
                            b0 == 0xED,
                            0xA0 <= b1 <= 0xBF,
                            0x80 <= b2 <= 0xBF,
                    ;
                }
                None
            } else {
                proof {
                    assert({
                        let cp = codepoint_width_3(b0, b1, b2);
                        0x800 <= cp <= 0xFFFF && !(0xD800 <= cp <= 0xDFFF)
                    }) by (bit_vector)
                        requires
                            0xE0 <= b0 < 0xF0,
                            0x80 <= b1 <= 0xBF,
                            0x80 <= b2 <= 0xBF,
                            !(b0 == 0xE0 && b1 < 0xA0),
                            !(b0 == 0xED && b1 >= 0xA0),
                    ;
                }
                Some(3)
            }
        }
    } else if b0 < 0xF5 {
        if end - start < 4 {
            None
        } else {
            let b1: u8 = b[start + 1];
            let b2: u8 = b[start + 2];
            let b3: u8 = b[start + 3];
            proof {
                assert(s[1] == b1 && s[2] == b2 && s[3] == b3);
            }
            if !(0x80 <= b1 && b1 <= 0xBF) {
                None
            } else if !(0x80 <= b2 && b2 <= 0xBF) {
                None
            } else if !(0x80 <= b3 && b3 <= 0xBF) {
                None
            } else if b0 == 0xF0 && b1 < 0x90 {
                proof {
                    assert(codepoint_width_4(b0, b1, b2, b3) < 0x10000) by (bit_vector)
                        requires
                            b0 == 0xF0,
                            0x80 <= b1 < 0x90,
                            0x80 <= b2 <= 0xBF,
                            0x80 <= b3 <= 0xBF,
                    ;
                }
                None
            } else if b0 == 0xF4 && b1 > 0x8F {
                proof {
                    assert(codepoint_width_4(b0, b1, b2, b3) > 0x10FFFF) by (bit_vector)
                        requires
                            b0 == 0xF4,
                            0x8F < b1 <= 0xBF,
                            0x80 <= b2 <= 0xBF,
                            0x80 <= b3 <= 0xBF,
                    ;
                }
                None
            } else {
                proof {
                    assert(0x10000 <= codepoint_width_4(b0, b1, b2, b3) <= 0x10FFFF) by (bit_vector)
                        requires
                            0xF0 <= b0 < 0xF5,
                            0x80 <= b1 <= 0xBF,
                            0x80 <= b2 <= 0xBF,
                            0x80 <= b3 <= 0xBF,
                            !(b0 == 0xF0 && b1 < 0x90),
                            !(b0 == 0xF4 && b1 > 0x8F),
                    ;
                }
                Some(4)
            }
        }
    } else {
        proof {
            if s.len() >= 4 && b0 <= 0xF7 && is_continuation_byte(s[1]) && is_continuation_byte(
                s[2],
            ) && is_continuation_byte(s[3]) {
                let b1 = s[1];
                let b2 = s[2];
                let b3 = s[3];
                assert(codepoint_width_4(b0, b1, b2, b3) > 0x10FFFF) by (bit_vector)
                    requires
                        0xF5 <= b0 <= 0xF7,
                        0x80 <= b1 <= 0xBF,
                        0x80 <= b2 <= 0xBF,
                        0x80 <= b3 <= 0xBF,
                ;
            }
        }
        None
    }
}

/// Reads the scalar whose well-formed encoding starts at `start` in
/// `b[start..end]`, returning the character and the width of its encoding.
pub(crate) fn scalar_decode_at(b: &[u8], start: usize, end: usize) -> (r: (char, usize))
    requires
        start < end <= b@.len(),
        valid_first_scalar(b@.subrange(start as int, end as int)),
    ensures
        ({
            let s = b@.subrange(start as int, end as int);
            &&& r.0 as u32 == decode_first_scalar(s)
            &&& 1 <= r.1 <= 4
            &&& start + r.1 <= end
            &&& r.1 as int == length_of_first_scalar(s)
        }),
{
    let ghost s: Seq<u8> = b@.subrange(start as int, end as int);
    let b0: u8 = b[start];
    proof {
        assert(s[0] == b0);
    }
    if b0 < 0x80 {
        let u: u32 = (b0 & 0x7F) as u32;
        proof {
            assert(u <= 0x7F) by (bit_vector)
                requires
                    u == ((b0 & 0x7F) as u32),
            ;
        }
        (char_from_scalar(u), 1)
    } else if b0 < 0xE0 {
        let b1: u8 = b[start + 1];
        proof {
            assert(s[1] == b1);
        }
        let u: u32 = (((b1 & 0x3F) as u32)) | ((((b0 & 0x1F) as u32)) << 6u32);
        proof {
            assert(u == codepoint_width_2(b0, b1) && u <= 0x7FF) by (bit_vector)
                requires
                    u == (((b1 & 0x3F) as u32) | (((b0 & 0x1F) as u32) << 6u32)),
            ;
        }
        (char_from_scalar(u), 2)
    } else if b0 < 0xF0 {
        let b1: u8 = b[start + 1];
        let b2: u8 = b[start + 2];
        proof {
            assert(s[1] == b1 && s[2] == b2);
        }
        let u: u32 = ((b2 & 0x3F) as u32) | (((b1 & 0x3F) as u32) << 6u32) | (((b0
            & 0x0F) as u32) << 12u32);
        proof {
            assert(u == codepoint_width_3(b0, b1, b2) && u <= 0xFFFF) by (bit_vector)
                requires
                    u == (((b2 & 0x3F) as u32) | (((b1 & 0x3F) as u32) << 6u32) | (((b0
                        & 0x0F) as u32) << 12u32)),
            ;
        }
        (char_from_scalar(u), 3)
    } else {
        let b1: u8 = b[start + 1];
        let b2: u8 = b[start + 2];
        let b3: u8 = b[start + 3];
        proof {
            assert(s[1] == b1 && s[2] == b2 && s[3] == b3);
        }
        let u: u32 = ((b3 & 0x3F) as u32) | (((b2 & 0x3F) as u32) << 6u32) | (((b1
            & 0x3F) as u32) << 12u32) | (((b0 & 0x07) as u32) << 18u32);
        proof {
            assert(u == codepoint_width_4(b0, b1, b2, b3)) by (bit_vector)
                requires
                    u == (((b3 & 0x3F) as u32) | (((b2 & 0x3F) as u32) << 6u32) | (((b1
                        & 0x3F) as u32) << 12u32) | (((b0 & 0x07) as u32) << 18u32)),
            ;
        }
        (char_from_scalar(u), 4)
    }
}

/// The largest scalar boundary of `b` that is at most `cap`.
pub open spec fn last_boundary_at_most(b: Seq<u8>, cap: int) -> int
    decreases cap,
{
    if cap <= 0 {
        0
    } else if is_char_boundary(b, cap) {
        cap
    } else {
        last_boundary_at_most(b, cap - 1)
    }
}

/// Finds the largest scalar boundary of the valid sequence `src` that is at
/// most `cap`, by stepping back over continuation bytes.
pub(crate) fn boundary_fit(src: &[u8], cap: usize) -> (j: usize)
    requires
        valid_utf8(src@),
        cap <= src@.len(),
    ensures
        j <= cap,
        j as int == last_boundary_at_most(src@, cap as int),
        is_char_boundary(src@, j as int),
{
    proof {
        is_char_boundary_start_end_of_seq(src@);
    }
    if cap == src.len() {
        return cap;
    }
    let mut j: usize = cap;
    while 0x80 <= src[j] && src[j] <= 0xBF
        invariant
            j <= cap < src@.len(),
            valid_utf8(src@),
            last_boundary_at_most(src@, cap as int) == last_boundary_at_most(src@, j as int),
        decreases j,
    {
        proof {
            is_char_boundary_iff_not_is_continuation_byte(src@, j as int);
            assert(j != 0);
        }
        j = j - 1;
    }
    proof {
        if j > 0 {
            is_char_boundary_iff_not_is_continuation_byte(src@, j as int);
        }
    }
    j
}

/// Finds where the last scalar of the valid content `b[0..end]` starts, by
/// stepping back over continuation bytes.
pub(crate) fn last_scalar_start(b: &[u8], end: usize) -> (j: usize)
    requires
        0 < end <= b@.len(),
        valid_utf8(b@.subrange(0, end as int)),
    ensures
        ({
            let p = b@.subrange(0, end as int);
            let s = b@.subrange(j as int, end as int);
            &&& j < end
            &&& is_char_boundary(p, j as int)
            &&& j as int == end - length_of_last_scalar(p)
            &&& valid_first_scalar(s)
            &&& length_of_first_scalar(s) == end - j
            &&& decode_first_scalar(s) == decode_last_scalar(p)
        }),
{
    let ghost p: Seq<u8> = b@.subrange(0, end as int);
    let mut j: usize = end - 1;
    while 0x80 <= b[j] && b[j] <= 0xBF
        invariant
            j < end <= b@.len(),
            p == b@.subrange(0, end as int),
            valid_utf8(p),
            forall|t: int| j < t < end ==> is_continuation_byte(#[trigger] p[t]),
        decreases j,
    {
        proof {
            is_char_boundary_iff_not_is_continuation_byte(p, j as int);
            assert(j != 0);
        }
        j = j - 1;
    }
    proof {
        assert(!is_continuation_byte(p[j as int]));
        is_char_boundary_iff_not_is_continuation_byte(p, j as int);
        valid_utf8_split(p, j as int);
        let s = p.subrange(j as int, end as int);
        assert(b@.subrange(j as int, end as int) =~= s);
        assert(s.len() > 0);
        assert(valid_first_scalar(s));
        let k = length_of_first_scalar(s);
        assert(1 <= k <= 4);
        assert(k <= s.len());
        if k < s.len() {
            // the byte after the first scalar of the suffix would have to be
            // a leading byte, yet every byte past j is a continuation byte
            assert(is_char_boundary(s, k)) by {
                reveal_with_fuel(is_char_boundary, 3);
            }
            is_char_boundary_iff_not_is_continuation_byte(s, k);
            assert(s[k] == p[j + k]);
            assert(false);
        }
        assert(k == end - j);
        // the backward width used by the last-scalar specs agrees
        assert(length_of_last_scalar(p) == k) by {
            if k >= 2 {
                assert(p[end - 1] == s[k - 1]);
            }
            if k >= 3 {
                assert(p[end - 2] == s[k - 2]);
            }
            if k >= 4 {
                assert(p[end - 3] == s[k - 3]);
            }
            assert(p[end - k] == s[0]);
        }
        assert(decode_first_scalar(s) == decode_last_scalar(p)) by {
            if k == 2 {
                assert(p[end - 2] == s[0] && p[end - 1] == s[1]);
            }
            if k == 3 {
                assert(p[end - 3] == s[0] && p[end - 2] == s[1] && p[end - 1] == s[2]);
            }
            if k == 4 {
                assert(p[end - 4] == s[0] && p[end - 3] == s[1] && p[end - 2] == s[2] && p[end
                    - 1] == s[3]);
            }
        }
    }
    j
}

/// Whether `b[start..end]` is a valid UTF-8 byte sequence.
pub(crate) fn utf8_check_range(b: &[u8], start: usize, end: usize) -> (r: bool)
    requires
        start <= end <= b@.len(),
    ensures
        r == valid_utf8(b@.subrange(start as int, end as int)),
{
    let ghost s: Seq<u8> = b@.subrange(start as int, end as int);
    let mut i: usize = start;
    while i < end
        invariant
            start <= i <= end <= b@.len(),
            s == b@.subrange(start as int, end as int),
            valid_utf8(s.subrange(0, i - start)),
        decreases end - i,
    {
        match scalar_check_at(b, i, end) {
            Some(k) => {
                proof {
                    assert(b@.subrange(i as int, end as int) =~= s.subrange(
                        i - start,
                        s.len() as int,
                    ));
                    partial_valid_utf8_extend(s, i - start);
                }
                i = i + k;
            },
            None => {
                proof {
                    assert(b@.subrange(i as int, end as int) =~= s.subrange(
                        i - start,
                        s.len() as int,
                    ));
                    partial_valid_partial_invalid_utf8(s, i - start);
                }
                return false;
            },
        }
    }
    proof {
        assert(s.subrange(0, s.len() as int) =~= s);
    }
    true
}

} // verus!
