//! The laws of the buffer, stated over the same spec functions that the
//! operations' contracts use.

use crate::model::lemma_encode_utf8_concat;
use crate::model::lemma_scalar_interior_cont;
use vstd::prelude::*;
use vstd::utf8::decode_first_scalar;
use vstd::utf8::decode_last_scalar;
use vstd::utf8::decode_utf8;
use vstd::utf8::decode_utf8_encode_utf8;
use vstd::utf8::decode_utf8_split;
use vstd::utf8::encode_scalar;
use vstd::utf8::encode_utf8;
use vstd::utf8::encode_utf8_decode_utf8;
use vstd::utf8::encode_utf8_first_scalar;
use vstd::utf8::encode_utf8_valid_utf8;
use vstd::utf8::is_char_boundary;
use vstd::utf8::is_char_boundary_iff_not_is_continuation_byte;
use vstd::utf8::is_continuation_byte;
use vstd::utf8::length_of_first_scalar;
use vstd::utf8::length_of_last_scalar;
use vstd::utf8::valid_first_scalar;
use vstd::utf8::valid_utf8;
use vstd::utf8::valid_utf8_concat;
use vstd::utf8::valid_utf8_split;

verus! {

/// Any text built into a buffer renders back unchanged: its encoding is
/// valid content, and decoding that content returns the text.  The detour
/// through raw bytes changes nothing, because conversion to bytes and
/// validated construction from bytes both preserve the content exactly.
pub proof fn lemma_text_round_trip(t: Seq<char>)
    ensures
        valid_utf8(encode_utf8(t)),
        decode_utf8(encode_utf8(t)) == t,
{
    encode_utf8_valid_utf8(t);
    encode_utf8_decode_utf8(t);
}

/// The encoding of one scalar placed at the front of any tail reads back as
/// exactly that scalar.
proof fn lemma_scalar_at_front(c: char, tail: Seq<u8>)
    requires
        valid_utf8(tail),
    ensures
        ({
            let e = encode_scalar(c as u32);
            let s = e + tail;
            &&& valid_first_scalar(s)
            &&& length_of_first_scalar(s) == e.len()
            &&& decode_first_scalar(s) == c as u32
        }),
{
    let e = encode_scalar(c as u32);
    let chars = seq![c] + decode_utf8(tail);
    assert(chars[0] == c);
    encode_utf8_first_scalar(chars);
    lemma_encode_utf8_concat(seq![c], decode_utf8(tail));
    decode_utf8_encode_utf8(tail);
    assert(seq![c].drop_first() =~= Seq::<char>::empty());
    assert(encode_utf8(Seq::<char>::empty()) =~= Seq::<u8>::empty());
    assert(encode_utf8(seq![c]) =~= e);
    assert(encode_utf8(chars) == e + tail);
}

/// Inserting a scalar at a boundary and then removing at that same index
/// restores the original content and length: the bytes opened for the
/// scalar are exactly the bytes the removal takes back out.
pub proof fn lemma_insert_remove(b: Seq<u8>, i: int, c: char)
    requires
        valid_utf8(b),
        0 <= i <= b.len(),
        is_char_boundary(b, i),
    ensures
        ({
            let e = encode_scalar(c as u32);
            let after = b.subrange(0, i) + e + b.subrange(i, b.len() as int);
            &&& valid_utf8(after)
            &&& after.len() == b.len() + e.len()
            &&& i < after.len()
            &&& is_char_boundary(after, i)
            &&& length_of_first_scalar(after.subrange(i, after.len() as int)) == e.len()
            &&& (decode_first_scalar(after.subrange(i, after.len() as int)) as char) == c
            &&& after.subrange(0, i) + after.subrange(i + e.len(), after.len() as int) == b
        }),
{
    let e = encode_scalar(c as u32);
    let pre = b.subrange(0, i);
    let suf = b.subrange(i, b.len() as int);
    let after = pre + e + suf;
    valid_utf8_split(b, i);
    let cs = seq![c];
    assert(cs.drop_first() =~= Seq::<char>::empty());
    assert(encode_utf8(Seq::<char>::empty()) =~= Seq::<u8>::empty());
    assert(encode_utf8(cs) =~= e);
    encode_utf8_valid_utf8(cs);
    valid_utf8_concat(pre, e);
    valid_utf8_concat(pre + e, suf);
    assert((pre + e) + suf =~= after);
    lemma_scalar_at_front(c, suf);
    let s2 = after.subrange(i, after.len() as int);
    assert(s2 =~= e + suf);
    vstd::utf8::char_u32_cast(c, decode_first_scalar(s2));
    if i > 0 {
        assert(after[i] == (e + suf)[0]);
        assert(!is_continuation_byte(after[i]));
        is_char_boundary_iff_not_is_continuation_byte(after, i);
    }
    assert(after.subrange(0, i) =~= pre);
    assert(after.subrange(i + e.len(), after.len() as int) =~= suf);
    assert(pre + suf =~= b);
}

/// Appending one scalar and then taking the last scalar back off returns
/// that very scalar and restores the earlier content and length.
pub proof fn lemma_push_pop(b: Seq<u8>, c: char)
    requires
        valid_utf8(b),
    ensures
        ({
            let e = encode_scalar(c as u32);
            let after = b + e;
            &&& valid_utf8(after)
            &&& after.len() == b.len() + e.len()
            &&& after.len() > 0
            &&& length_of_last_scalar(after) == e.len()
            &&& (decode_last_scalar(after) as char) == c
            &&& after.subrange(0, after.len() - length_of_last_scalar(after)) == b
        }),
{
    let e = encode_scalar(c as u32);
    let after = b + e;
    let cs = seq![c];
    assert(cs.drop_first() =~= Seq::<char>::empty());
    assert(encode_utf8(Seq::<char>::empty()) =~= Seq::<u8>::empty());
    assert(encode_utf8(cs) =~= e);
    encode_utf8_valid_utf8(cs);
    valid_utf8_concat(b, e);
    encode_utf8_first_scalar(cs);
    assert(valid_first_scalar(e));
    assert(length_of_first_scalar(e) == e.len());
    assert(decode_first_scalar(e) == c as u32);
    lemma_scalar_interior_cont(e);
    let k = e.len() as int;
    let n = after.len() as int;
    assert(!is_continuation_byte(e[0]));
    assert(length_of_last_scalar(after) == k && decode_last_scalar(after) == decode_first_scalar(
        e,
    )) by {
        assert(after[n - k] == e[0]);
        if k >= 2 {
            assert(after[n - 1] == e[k - 1] && is_continuation_byte(e[k - 1]));
        }
        if k >= 3 {
            assert(after[n - 2] == e[k - 2] && is_continuation_byte(e[k - 2]));
        }
        if k >= 4 {
            assert(after[n - 3] == e[k - 3] && is_continuation_byte(e[k - 3]));
        }
    }
    vstd::utf8::char_u32_cast(c, decode_last_scalar(after));
    assert(after.subrange(0, n - k) =~= b);
}

/// Splitting valid content at a boundary leaves two valid parts whose
/// lengths add up to the old length, and putting the two back together
/// rebuilds the original, bytes and text alike.
pub proof fn lemma_split_rejoin(b: Seq<u8>, i: int)
    requires
        valid_utf8(b),
        0 <= i <= b.len(),
        is_char_boundary(b, i),
    ensures
        valid_utf8(b.subrange(0, i)),
        valid_utf8(b.subrange(i, b.len() as int)),
        b.subrange(0, i).len() + b.subrange(i, b.len() as int).len() == b.len(),
        b.subrange(0, i) + b.subrange(i, b.len() as int) == b,
        decode_utf8(b) == decode_utf8(b.subrange(0, i)) + decode_utf8(
            b.subrange(i, b.len() as int),
        ),
{
    valid_utf8_split(b, i);
    decode_utf8_split(b, i);
    assert(b.subrange(0, i) + b.subrange(i, b.len() as int) =~= b);
}

} // verus!
