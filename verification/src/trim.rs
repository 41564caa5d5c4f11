//! Trimming: a zero-copy view of the content without its leading and
//! trailing whitespace scalars.

use crate::buffer::Yangon;
use crate::model::lemma_scalar_interior_cont;
use crate::scan::bytes_as_str;
use crate::scan::last_scalar_start;
use crate::scan::scalar_decode_at;
use vstd::prelude::*;
use vstd::slice::slice_subrange;
use vstd::string::StringSliceAdditionalSpecFns;
use vstd::utf8::decode_first_scalar;
use vstd::utf8::decode_utf8;
use vstd::utf8::decode_utf8_split;
use vstd::utf8::encode_utf8_decode_utf8;
use vstd::utf8::is_char_boundary;
use vstd::utf8::is_char_boundary_iff_not_is_continuation_byte;
use vstd::utf8::is_continuation_byte;
use vstd::utf8::length_of_first_scalar;
use vstd::utf8::pop_first_scalar;
use vstd::utf8::valid_utf8;
use vstd::utf8::valid_utf8_split;

verus! {

/// Whether the scalar has the White_Space property.
pub open spec fn is_ws_char(c: char) -> bool {
    let u = c as u32;
    ||| u == 0x09
    ||| u == 0x0A
    ||| u == 0x0B
    ||| u == 0x0C
    ||| u == 0x0D
    ||| u == 0x20
    ||| u == 0x85
    ||| u == 0xA0
    ||| u == 0x1680
    ||| (0x2000 <= u <= 0x200A)
    ||| u == 0x2028
    ||| u == 0x2029
    ||| u == 0x202F
    ||| u == 0x205F
    ||| u == 0x3000
}

/// How many whitespace scalars the text begins with.
pub open spec fn count_leading_ws(s: Seq<char>) -> int
    decreases s.len(),
{
    if s.len() == 0 {
        0
    } else if is_ws_char(s[0]) {
        1 + count_leading_ws(s.drop_first())
    } else {
        0
    }
}

/// How many whitespace scalars the text ends with.
pub open spec fn count_trailing_ws(s: Seq<char>) -> int
    decreases s.len(),
{
    if s.len() == 0 {
        0
    } else if is_ws_char(s.last()) {
        1 + count_trailing_ws(s.drop_last())
    } else {
        0
    }
}

/// The text without its leading and trailing whitespace scalars.
pub open spec fn trim_chars(s: Seq<char>) -> Seq<char> {
    let a = count_leading_ws(s);
    if a == s.len() {
        Seq::empty()
    } else {
        s.subrange(a, s.len() - count_trailing_ws(s))
    }
}

/// A wholly-whitespace prefix followed by text that does not open with
/// whitespace is exactly the leading whitespace.
proof fn lemma_count_leading_ws(x: Seq<char>, y: Seq<char>)
    requires
        forall|t: int| 0 <= t < x.len() ==> is_ws_char(#[trigger] x[t]),
        y.len() > 0 ==> !is_ws_char(y[0]),
    ensures
        count_leading_ws(x + y) == x.len(),
    decreases x.len(),
{
    if x.len() == 0 {
        assert(x + y =~= y);
    } else {
        assert((x + y)[0] == x[0]);
        assert((x + y).drop_first() =~= x.drop_first() + y);
        lemma_count_leading_ws(x.drop_first(), y);
    }
}

/// A wholly-whitespace suffix after text that does not close with whitespace
/// is exactly the trailing whitespace.
proof fn lemma_count_trailing_ws(x: Seq<char>, y: Seq<char>)
    requires
        forall|t: int| 0 <= t < y.len() ==> is_ws_char(#[trigger] y[t]),
        x.len() > 0 ==> !is_ws_char(x.last()),
    ensures
        count_trailing_ws(x + y) == y.len(),
    decreases y.len(),
{
    if y.len() == 0 {
        assert(x + y =~= x);
    } else {
        assert((x + y).last() == y.last());
        assert((x + y).drop_last() =~= x + y.drop_last());
        lemma_count_trailing_ws(x, y.drop_last());
    }
}

/// Whether the scalar has the White_Space property.
fn is_ws_exec(c: char) -> (r: bool)
    ensures
        r == is_ws_char(c),
{
    let u: u32 = c as u32;
    u == 0x09 || u == 0x0A || u == 0x0B || u == 0x0C || u == 0x0D || u == 0x20 || u == 0x85 || u
        == 0xA0 || u == 0x1680 || (0x2000 <= u && u <= 0x200A) || u == 0x2028 || u == 0x2029 || u
        == 0x202F || u == 0x205F || u == 0x3000
}

impl<const N: usize> Yangon<N> {
    /// A zero-copy view of the content without its leading and trailing
    /// whitespace scalars.
    pub fn trim(&self) -> (r: &str)
        requires
            self.wf(),
        ensures
            r@ == trim_chars(decode_utf8(self@)),
    {
        proof {
            self.model();
        }
        let ghost whole = self@;
        let ghost chars = decode_utf8(whole);
        let len: usize = self.len;
        // forward scan: find where the first non-whitespace scalar starts
        let mut i: usize = 0;
        proof {
            assert(whole.subrange(0, 0) =~= Seq::<u8>::empty());
            assert(decode_utf8(Seq::<u8>::empty()) =~= Seq::<char>::empty());
        }
        let mut front_ws: bool = true;
        let ghost mut c_first: char = ' ';
        while front_ws && i < len
            invariant
                i <= len,
                len == whole.len(),
                whole == self@,
                self.wf(),
                valid_utf8(whole),
                self.list@.subrange(0, len as int) == whole,
                self.list@.len() >= len,
                is_char_boundary(whole, i as int),
                forall|t: int|
                    0 <= t < decode_utf8(whole.subrange(0, i as int)).len() ==> is_ws_char(
                        #[trigger] decode_utf8(whole.subrange(0, i as int))[t],
                    ),
                !front_ws ==> i < len && decode_utf8(whole.subrange(i as int, len as int)).len()
                    > 0 && decode_utf8(whole.subrange(i as int, len as int))[0] == c_first
                    && !is_ws_char(c_first),
            decreases len - i, (if front_ws { 1int } else { 0int }),
        {
            let ghost s = whole.subrange(i as int, whole.len() as int);
            proof {
                valid_utf8_split(whole, i as int);
                assert(self.list@.subrange(i as int, len as int) =~= s);
            }
            let (c, k) = scalar_decode_at(self.list.as_slice(), i, len);
            if is_ws_exec(c) {
                proof {
                    vstd::utf8::char_u32_cast(c, decode_first_scalar(s));
                    crate::model::lemma_decode_step(whole, i as int, k as int);
                    vstd::utf8::decode_utf8_first_scalar(s);
                }
                i = i + k;
            } else {
                proof {
                    vstd::utf8::char_u32_cast(c, decode_first_scalar(s));
                    c_first = c;
                    assert(decode_utf8(s)[0] == c);
                }
                front_ws = false;
            }
        }
        if i == len {
            // the whole content is whitespace
            proof {
                assert(whole.subrange(0, len as int) =~= whole);
                lemma_count_leading_ws(chars, Seq::<char>::empty());
                assert(chars + Seq::<char>::empty() =~= chars);
                reveal_strlit("");
            }
            return "";
        }
        // backward scan: find where the last non-whitespace scalar ends
        let mut j: usize = len;
        proof {
            assert(whole.subrange(len as int, len as int) =~= Seq::<u8>::empty());
            assert(decode_utf8(Seq::<u8>::empty()) =~= Seq::<char>::empty());
            vstd::utf8::is_char_boundary_start_end_of_seq(whole);
        }
        let mut back_ws: bool = true;
        while back_ws
            invariant
                i < j <= len,
                len == whole.len(),
                whole == self@,
                self.wf(),
                valid_utf8(whole),
                self.list@.subrange(0, len as int) == whole,
                self.list@.len() >= len,
                is_char_boundary(whole, i as int),
                is_char_boundary(whole, j as int),
                decode_utf8(whole.subrange(i as int, len as int)).len() > 0,
                decode_utf8(whole.subrange(i as int, len as int))[0] == c_first,
                !is_ws_char(c_first),
                forall|t: int|
                    0 <= t < decode_utf8(whole.subrange(j as int, len as int)).len()
                        ==> is_ws_char(
                        #[trigger] decode_utf8(whole.subrange(j as int, len as int))[t],
                    ),
                !back_ws ==> ({
                    let mid = decode_utf8(whole.subrange(i as int, j as int));
                    mid.len() > 0 && !is_ws_char(mid.last())
                }),
            decreases j, (if back_ws { 1int } else { 0int }),
        {
            proof {
                valid_utf8_split(whole, j as int);
                assert(self.list@.subrange(0, j as int) =~= whole.subrange(0, j as int));
            }
            let jj = last_scalar_start(self.list.as_slice(), j);
            let ghost p = whole.subrange(0, j as int);
            let ghost w = whole.subrange(jj as int, j as int);
            proof {
                assert(self.list@.subrange(0, j as int) =~= p);
                assert(self.list@.subrange(jj as int, j as int) =~= w);
                // the scan start is a boundary of the whole content
                is_char_boundary_iff_not_is_continuation_byte(p, jj as int);
                assert(p[jj as int] == whole[jj as int]);
                is_char_boundary_iff_not_is_continuation_byte(whole, jj as int);
                assert(is_char_boundary(whole, jj as int));
                // the non-whitespace scalar at i cannot lie inside this one
                lemma_scalar_interior_cont(w);
                if jj < i {
                    assert(is_continuation_byte(w[i - jj]));
                    assert(w[i - jj] == whole[i as int]);
                    is_char_boundary_iff_not_is_continuation_byte(whole, i as int);
                    assert(false);
                }
            }
            let (c, _k) = scalar_decode_at(self.list.as_slice(), jj, j);
            proof {
                // decoding the suffix from the scan start opens with this scalar
                valid_utf8_split(whole, jj as int);
                let s2 = whole.subrange(jj as int, len as int);
                assert(s2[0] == w[0]);
                assert(length_of_first_scalar(s2) == j - jj && decode_first_scalar(s2)
                    == decode_first_scalar(w)) by {
                    if j - jj >= 2 {
                        assert(s2[1] == w[1]);
                    }
                    if j - jj >= 3 {
                        assert(s2[2] == w[2]);
                    }
                    if j - jj >= 4 {
                        assert(s2[3] == w[3]);
                    }
                }
                vstd::utf8::char_u32_cast(c, decode_first_scalar(w));
                assert(pop_first_scalar(s2) =~= whole.subrange(j as int, len as int));
                assert(decode_utf8(s2) == seq![c] + decode_utf8(
                    whole.subrange(j as int, len as int),
                ));
            }
            if is_ws_exec(c) {
                proof {
                    assert forall|t: int|
                        0 <= t < decode_utf8(whole.subrange(jj as int, len as int)).len()
                            implies is_ws_char(
                        #[trigger] decode_utf8(whole.subrange(jj as int, len as int))[t],
                    ) by {
                        let tail = decode_utf8(whole.subrange(j as int, len as int));
                        let full = decode_utf8(whole.subrange(jj as int, len as int));
                        assert(full == seq![c] + tail);
                        if t >= 1 {
                            assert(full[t] == tail[t - 1]);
                        }
                    }
                    // the non-whitespace first scalar keeps the scan above i
                    if jj == i {
                        let si = whole.subrange(i as int, len as int);
                        assert(decode_utf8(si)[0] == c_first);
                        assert(c == c_first);
                        assert(false);
                    }
                }
                j = jj;
            } else {
                proof {
                    // the scalar at the scan start is the last of the middle
                    let mid = decode_utf8(whole.subrange(i as int, j as int));
                    valid_utf8_split(whole, i as int);
                    let si = whole.subrange(i as int, len as int);
                    assert(is_char_boundary(si, jj - i) && is_char_boundary(si, j - i)) by {
                        if jj > i {
                            is_char_boundary_iff_not_is_continuation_byte(whole, jj as int);
                            assert(si[jj - i] == whole[jj as int]);
                            is_char_boundary_iff_not_is_continuation_byte(si, jj - i);
                        }
                        if j < len {
                            is_char_boundary_iff_not_is_continuation_byte(whole, j as int);
                            assert(si[j - i] == whole[j as int]);
                            is_char_boundary_iff_not_is_continuation_byte(si, j - i);
                        } else {
                            vstd::utf8::is_char_boundary_start_end_of_seq(si);
                        }
                    }
                    let simid = si.subrange(0, j - i);
                    assert(simid =~= whole.subrange(i as int, j as int));
                    valid_utf8_split(si, j - i);
                    assert(is_char_boundary(simid, jj - i)) by {
                        if jj > i {
                            is_char_boundary_iff_not_is_continuation_byte(whole, jj as int);
                            assert(simid[jj - i] == whole[jj as int]);
                            is_char_boundary_iff_not_is_continuation_byte(simid, jj - i);
                        }
                    }
                    decode_utf8_split(simid, jj - i);
                    let wmid = simid.subrange(jj - i, j - i);
                    assert(wmid =~= w);
                    valid_utf8_split(simid, jj - i);
                    assert(pop_first_scalar(w) =~= Seq::<u8>::empty());
                    assert(decode_utf8(Seq::<u8>::empty()) =~= Seq::<char>::empty());
                    assert(decode_utf8(w) =~= seq![c]);
                    assert(mid =~= decode_utf8(simid.subrange(0, jj - i)) + seq![c]);
                    assert(mid.last() == c);
                }
                back_ws = false;
            }
        }
        // assemble: the middle slice is the trimmed text
        proof {
            valid_utf8_split(whole, i as int);
            let si = whole.subrange(i as int, len as int);
            assert(is_char_boundary(si, j - i)) by {
                if j < len {
                    is_char_boundary_iff_not_is_continuation_byte(whole, j as int);
                    assert(si[j - i] == whole[j as int]);
                    is_char_boundary_iff_not_is_continuation_byte(si, j - i);
                } else {
                    vstd::utf8::is_char_boundary_start_end_of_seq(si);
                }
            }
            valid_utf8_split(si, j - i);
            assert(si.subrange(0, j - i) =~= whole.subrange(i as int, j as int));
            assert(self.list@.subrange(i as int, j as int) =~= whole.subrange(i as int, j as int));
        }
        let r: &str = bytes_as_str(slice_subrange(self.list.as_slice(), i, j));
        proof {
            valid_utf8_split(whole, i as int);
            let si = whole.subrange(i as int, len as int);
            assert(is_char_boundary(si, j - i)) by {
                if j < len {
                    is_char_boundary_iff_not_is_continuation_byte(whole, j as int);
                    assert(si[j - i] == whole[j as int]);
                    is_char_boundary_iff_not_is_continuation_byte(si, j - i);
                } else {
                    vstd::utf8::is_char_boundary_start_end_of_seq(si);
                }
            }
            decode_utf8_split(whole, i as int);
            decode_utf8_split(si, j - i);
            let front = decode_utf8(whole.subrange(0, i as int));
            let mid = decode_utf8(whole.subrange(i as int, j as int));
            let back = decode_utf8(whole.subrange(j as int, len as int));
            assert(si.subrange(0, j - i) =~= whole.subrange(i as int, j as int));
            assert(si.subrange(j - i, si.len() as int) =~= whole.subrange(j as int, len as int));
            assert(whole.subrange(0, len as int) =~= whole);
            assert(chars =~= front + (mid + back));
            assert(mid[0] == decode_utf8(si)[0]);
            assert(chars =~= (front + mid) + back);
            lemma_count_leading_ws(front, mid + back);
            assert((mid + back)[0] == mid[0]);
            lemma_count_trailing_ws(front + mid, back);
            assert((front + mid).last() == mid.last());
            assert(count_leading_ws(chars) == front.len());
            assert(count_trailing_ws(chars) == back.len());
            assert(trim_chars(chars) =~= mid);
            // the returned slice is exactly the middle bytes
            valid_utf8_split(si, j - i);
            encode_utf8_decode_utf8(r@);
            encode_utf8_decode_utf8(mid);
            assert(vstd::utf8::encode_utf8(mid) == whole.subrange(i as int, j as int)) by {
                vstd::utf8::decode_utf8_encode_utf8(whole.subrange(i as int, j as int));
            }
            assert(self.list@.subrange(i as int, j as int) =~= whole.subrange(i as int, j as int));
            assert(vstd::utf8::encode_utf8(r@) == vstd::utf8::encode_utf8(mid));
            assert(r@ == mid);
        }
        r
    }
}

} // verus!
