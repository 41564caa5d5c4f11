//! Spec-level helpers over the UTF-8 model: filtering decoded scalars,
//! algebra of the encoding, and stepping a decode forward one scalar.

use vstd::prelude::*;
use vstd::utf8::decode_first_scalar;
use vstd::utf8::decode_utf8;
use vstd::utf8::decode_utf8_split;
use vstd::utf8::encode_utf8;
use vstd::utf8::is_char_boundary;
use vstd::utf8::is_char_boundary_iff_not_is_continuation_byte;
use vstd::utf8::is_char_boundary_start_end_of_seq;
use vstd::utf8::is_continuation_byte;
use vstd::utf8::length_of_first_scalar;
use vstd::utf8::partial_valid_utf8_extend;
use vstd::utf8::valid_first_scalar;
use vstd::utf8::valid_utf8;
use vstd::utf8::valid_utf8_split;

verus! {

/// The subsequence of `chars` at the positions where `keep` is true.
pub open spec fn filter_by(chars: Seq<char>, keep: Seq<bool>) -> Seq<char>
    decreases chars.len(),
{
    if chars.len() == 0 || keep.len() == 0 {
        Seq::empty()
    } else {
        (if keep[0] {
            seq![chars[0]]
        } else {
            Seq::empty()
        }) + filter_by(chars.drop_first(), keep.drop_first())
    }
}

/// Filtering after appending one scalar appends that scalar's choice.
pub proof fn lemma_filter_by_push(chars: Seq<char>, keep: Seq<bool>, c: char, b: bool)
    requires
        keep.len() == chars.len(),
    ensures
        filter_by(chars.push(c), keep.push(b)) == filter_by(chars, keep) + (if b {
            seq![c]
        } else {
            Seq::<char>::empty()
        }),
    decreases chars.len(),
{
    let tailc = chars.push(c).drop_first();
    let tailk = keep.push(b).drop_first();
    if chars.len() == 0 {
        assert(chars.push(c)[0] == c);
        assert(keep.push(b)[0] == b);
        assert(tailc =~= Seq::<char>::empty());
        assert(tailk =~= Seq::<bool>::empty());
        assert(filter_by(tailc, tailk) =~= Seq::<char>::empty());
        assert(filter_by(chars.push(c), keep.push(b)) =~= filter_by(chars, keep) + (if b {
            seq![c]
        } else {
            Seq::<char>::empty()
        }));
    } else {
        assert(chars.push(c)[0] == chars[0]);
        assert(keep.push(b)[0] == keep[0]);
        assert(tailc =~= chars.drop_first().push(c));
        assert(tailk =~= keep.drop_first().push(b));
        lemma_filter_by_push(chars.drop_first(), keep.drop_first(), c, b);
        assert(filter_by(chars.push(c), keep.push(b)) =~= filter_by(chars, keep) + (if b {
            seq![c]
        } else {
            Seq::<char>::empty()
        }));
    }
}

/// Keeping every scalar changes nothing: filtering with an all-true choice
/// sequence returns the scalars as they were.
pub proof fn lemma_filter_by_all(chars: Seq<char>, keep: Seq<bool>)
    requires
        keep.len() == chars.len(),
        forall|i: int| 0 <= i < keep.len() ==> #[trigger] keep[i],
    ensures
        filter_by(chars, keep) == chars,
    decreases chars.len(),
{
    if chars.len() == 0 {
        assert(filter_by(chars, keep) =~= chars);
    } else {
        lemma_filter_by_all(chars.drop_first(), keep.drop_first());
        assert(filter_by(chars, keep) =~= chars);
    }
}

/// Keeping no scalar empties everything: filtering with an all-false choice
/// sequence returns the empty sequence.
pub proof fn lemma_filter_by_none(chars: Seq<char>, keep: Seq<bool>)
    requires
        keep.len() == chars.len(),
        forall|i: int| 0 <= i < keep.len() ==> !(#[trigger] keep[i]),
    ensures
        filter_by(chars, keep) == Seq::<char>::empty(),
    decreases chars.len(),
{
    if chars.len() == 0 {
        assert(filter_by(chars, keep) =~= Seq::<char>::empty());
    } else {
        lemma_filter_by_none(chars.drop_first(), keep.drop_first());
        assert(filter_by(chars, keep) =~= Seq::<char>::empty());
    }
}

/// Encoding a concatenation concatenates the encodings.
pub proof fn lemma_encode_utf8_concat(x: Seq<char>, y: Seq<char>)
    ensures
        encode_utf8(x + y) == encode_utf8(x) + encode_utf8(y),
    decreases x.len(),
{
    if x.len() == 0 {
        assert(x + y =~= y);
        assert(encode_utf8(x) =~= Seq::<u8>::empty());
        assert(encode_utf8(x + y) =~= encode_utf8(x) + encode_utf8(y));
    } else {
        assert((x + y)[0] == x[0]);
        assert((x + y).drop_first() =~= x.drop_first() + y);
        lemma_encode_utf8_concat(x.drop_first(), y);
        assert(encode_utf8(x + y) =~= encode_utf8(x) + encode_utf8(y));
    }
}

/// Every byte strictly inside a well-formed scalar encoding is a
/// continuation byte.
pub proof fn lemma_scalar_interior_cont(w: Seq<u8>)
    requires
        valid_first_scalar(w),
    ensures
        forall|t: int|
            1 <= t < length_of_first_scalar(w) ==> is_continuation_byte(#[trigger] w[t]),
{
}

/// Walking one scalar forward: the position after it is again a boundary,
/// and decoding the longer prefix appends exactly that scalar.
pub proof fn lemma_decode_step(p: Seq<u8>, i: int, k: int)
    requires
        valid_utf8(p),
        is_char_boundary(p, i),
        0 <= i,
        i + k <= p.len(),
        valid_first_scalar(p.subrange(i, p.len() as int)),
        k == length_of_first_scalar(p.subrange(i, p.len() as int)),
    ensures
        is_char_boundary(p, i + k),
        decode_utf8(p.subrange(0, i + k)) == decode_utf8(p.subrange(0, i)).push(
            (decode_first_scalar(p.subrange(i, p.len() as int)) as char),
        ),
{
    let s = p.subrange(i, p.len() as int);
    valid_utf8_split(p, i);
    partial_valid_utf8_extend(p, i);
    let pre2 = p.subrange(0, i + k);
    assert(valid_utf8(pre2));
    // the position after the scalar is a boundary of the whole sequence
    if i + k == p.len() {
        is_char_boundary_start_end_of_seq(p);
    } else {
        assert(is_char_boundary(s, k)) by {
            reveal_with_fuel(is_char_boundary, 3);
        }
        is_char_boundary_iff_not_is_continuation_byte(s, k);
        assert(s[k] == p[i + k]);
        is_char_boundary_iff_not_is_continuation_byte(p, i + k);
    }
    // the split point i is a boundary of the extended prefix as well
    if i == 0 {
        assert(is_char_boundary(pre2, i));
    } else {
        is_char_boundary_iff_not_is_continuation_byte(p, i);
        assert(pre2[i] == p[i]);
        is_char_boundary_iff_not_is_continuation_byte(pre2, i);
    }
    decode_utf8_split(pre2, i);
    assert(pre2.subrange(0, i) =~= p.subrange(0, i));
    let sc = pre2.subrange(i, pre2.len() as int);
    assert(sc =~= p.subrange(i, i + k));
    valid_utf8_split(pre2, i);
    assert(valid_utf8(sc));
    // the one-scalar slice decodes to exactly that scalar
    assert(sc[0] == s[0]);
    assert(length_of_first_scalar(sc) == k && decode_first_scalar(sc) == decode_first_scalar(s))
        by {
        if k >= 2 {
            assert(sc[1] == s[1]);
        }
        if k >= 3 {
            assert(sc[2] == s[2]);
        }
        if k >= 4 {
            assert(sc[3] == s[3]);
        }
    }
    assert(vstd::utf8::pop_first_scalar(sc) =~= Seq::<u8>::empty());
    assert(decode_utf8(Seq::<u8>::empty()) =~= Seq::<char>::empty());
    assert(decode_utf8(sc) =~= seq![(decode_first_scalar(s) as char)]);
    assert(decode_utf8(p.subrange(0, i)) + seq![(decode_first_scalar(s) as char)] =~= decode_utf8(
        p.subrange(0, i),
    ).push((decode_first_scalar(s) as char)));
}

} // verus!
