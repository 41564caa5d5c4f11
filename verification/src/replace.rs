//! The pattern replace engine: substituting a literal, a scalar, a small
//! scalar set, or a predicate match, always into a new buffer.

use crate::buffer::Yangon;
use crate::model::lemma_decode_step;
use crate::scan::bytes_as_str;
use crate::scan::encode_char_buf;
use crate::scan::last_boundary_at_most;
use crate::scan::scalar_decode_at;
use crate::shift::append_range;
use crate::shift::eq_range;
use vstd::prelude::*;
use vstd::slice::slice_subrange;
use vstd::string::StringSliceAdditionalSpecFns;
use vstd::utf8::char_u32_cast;
use vstd::utf8::decode_first_scalar;
use vstd::utf8::decode_utf8;
use vstd::utf8::encode_utf8_valid_utf8;
use vstd::utf8::encode_scalar;
use vstd::utf8::encode_utf8;
use vstd::utf8::is_char_boundary;
use vstd::utf8::is_continuation_byte;
use vstd::utf8::is_char_boundary_iff_not_is_continuation_byte;
use vstd::utf8::length_of_first_scalar;
use vstd::utf8::pop_first_scalar;
use vstd::utf8::take_first_scalar;
use vstd::utf8::valid_first_scalar;
use vstd::utf8::valid_utf8;
use vstd::utf8::valid_utf8_concat;

verus! {

/// Whether `pat` occurs in `src` starting at position `j`.
pub open spec fn matches_at(src: Seq<u8>, pat: Seq<u8>, j: int) -> bool {
    &&& 0 <= j
    &&& j + pat.len() <= src.len()
    &&& src.subrange(j, j + pat.len()) == pat
}

/// Left-to-right, non-overlapping literal substitution: at each position a
/// full occurrence of the non-empty `pat` is consumed and `rep` emitted, and
/// otherwise one byte is copied.
pub open spec fn replace_lit(src: Seq<u8>, pat: Seq<u8>, rep: Seq<u8>) -> Seq<u8>
    decreases src.len(),
{
    if src.len() == 0 {
        Seq::empty()
    } else if pat.len() > 0 && pat.len() <= src.len() && src.subrange(0, pat.len() as int)
        == pat {
        rep + replace_lit(src.skip(pat.len() as int), pat, rep)
    } else {
        seq![src[0]] + replace_lit(src.skip(1), pat, rep)
    }
}

/// What follows the leading `rep` when an empty pattern is replaced: each
/// scalar of `src` followed by one more `rep`.
pub open spec fn interleave_tail(src: Seq<u8>, rep: Seq<u8>) -> Seq<u8>
    recommends
        valid_utf8(src),
    decreases src.len(),
    when valid_utf8(src)
{
    if src.len() == 0 {
        Seq::empty()
    } else {
        take_first_scalar(src) + rep + interleave_tail(pop_first_scalar(src), rep)
    }
}

/// Cuts valid content down to `cap` bytes at the largest scalar boundary,
/// when it does not fit as it is.
pub open spec fn fit_bytes(b: Seq<u8>, cap: int) -> Seq<u8> {
    if b.len() <= cap {
        b
    } else {
        b.subrange(0, last_boundary_at_most(b, cap))
    }
}

/// One full literal-substitution pass for each scalar of the set, left to
/// right, every pass writing into a fresh buffer of bound `cap`.
pub open spec fn replace_multi(src: Seq<u8>, members: Seq<char>, rep: Seq<u8>, cap: int) -> Seq<
    u8,
>
    decreases members.len(),
{
    if members.len() == 0 {
        src
    } else {
        replace_multi(
            fit_bytes(replace_lit(src, encode_scalar(members[0] as u32), rep), cap),
            members.skip(1),
            rep,
            cap,
        )
    }
}

/// The bytes emitted when each scalar of `chars` is either replaced by `rep`
/// (where `keep` is true) or kept as its own encoding.
pub open spec fn subst_by(chars: Seq<char>, keep: Seq<bool>, rep: Seq<u8>) -> Seq<u8>
    decreases chars.len(),
{
    if chars.len() == 0 || keep.len() == 0 {
        Seq::empty()
    } else {
        (if keep[0] {
            rep
        } else {
            encode_scalar(chars[0] as u32)
        }) + subst_by(chars.drop_first(), keep.drop_first(), rep)
    }
}

/// Substituting after appending one scalar appends that scalar's bytes.
pub proof fn lemma_subst_by_push(chars: Seq<char>, keep: Seq<bool>, rep: Seq<u8>, c: char, b: bool)
    requires
        keep.len() == chars.len(),
    ensures
        subst_by(chars.push(c), keep.push(b), rep) == subst_by(chars, keep, rep) + (if b {
            rep
        } else {
            encode_scalar(c as u32)
        }),
    decreases chars.len(),
{
    let tailc = chars.push(c).drop_first();
    let tailk = keep.push(b).drop_first();
    if chars.len() == 0 {
        assert(chars.push(c)[0] == c);
        assert(keep.push(b)[0] == b);
        assert(tailc =~= Seq::<char>::empty());
        assert(tailk =~= Seq::<bool>::empty());
        assert(subst_by(tailc, tailk, rep) =~= Seq::<u8>::empty());
        assert(subst_by(chars.push(c), keep.push(b), rep) =~= subst_by(chars, keep, rep) + (if b {
            rep
        } else {
            encode_scalar(c as u32)
        }));
    } else {
        assert(chars.push(c)[0] == chars[0]);
        assert(keep.push(b)[0] == keep[0]);
        assert(tailc =~= chars.drop_first().push(c));
        assert(tailk =~= keep.drop_first().push(b));
        lemma_subst_by_push(chars.drop_first(), keep.drop_first(), rep, c, b);
        assert(subst_by(chars.push(c), keep.push(b), rep) =~= subst_by(chars, keep, rep) + (if b {
            rep
        } else {
            encode_scalar(c as u32)
        }));
    }
}

/// The first scalar of the content is itself valid content, and fits.
pub proof fn lemma_take_first_scalar(src: Seq<u8>)
    requires
        valid_first_scalar(src),
    ensures
        valid_utf8(take_first_scalar(src)),
        1 <= length_of_first_scalar(src) <= src.len(),
        take_first_scalar(src).len() == length_of_first_scalar(src),
{
    let k = length_of_first_scalar(src);
    let sc = take_first_scalar(src);
    assert(sc[0] == src[0]);
    assert(valid_first_scalar(sc) && length_of_first_scalar(sc) == k) by {
        if k >= 2 {
            assert(sc[1] == src[1]);
        }
        if k >= 3 {
            assert(sc[2] == src[2]);
        }
        if k >= 4 {
            assert(sc[3] == src[3]);
        }
    }
    assert(pop_first_scalar(sc) =~= Seq::<u8>::empty());
    assert(valid_utf8(Seq::<u8>::empty()));
    assert(valid_utf8(sc));
}

/// A valid prefix of a valid sequence ends at a scalar boundary: what
/// follows it is valid on its own.
pub proof fn lemma_valid_prefix_skip(s: Seq<u8>, p: Seq<u8>)
    requires
        valid_utf8(s),
        valid_utf8(p),
        p.len() <= s.len(),
        p == s.subrange(0, p.len() as int),
    ensures
        valid_utf8(s.skip(p.len() as int)),
    decreases p.len(),
{
    if p.len() == 0 {
        assert(s.skip(0) =~= s);
    } else {
        assert(p[0] == s[0]);
        let k = length_of_first_scalar(s);
        assert(length_of_first_scalar(p) == k);
        lemma_take_first_scalar(p);
        let sp = s.skip(k);
        let pp = p.skip(k);
        assert(pop_first_scalar(p) =~= pp);
        assert(pop_first_scalar(s) =~= sp);
        assert(pp =~= sp.subrange(0, pp.len() as int));
        lemma_valid_prefix_skip(sp, pp);
        assert(sp.skip(pp.len() as int) =~= s.skip(p.len() as int));
    }
}

/// While no occurrence of the pattern starts in the first `k` positions, the
/// substitution copies those bytes through unchanged.
proof fn lemma_replace_lit_copies(src: Seq<u8>, pat: Seq<u8>, rep: Seq<u8>, k: int)
    requires
        pat.len() > 0,
        0 <= k <= src.len(),
        forall|j: int| 0 <= j < k ==> !matches_at(src, pat, j),
    ensures
        replace_lit(src, pat, rep) == src.subrange(0, k) + replace_lit(src.skip(k), pat, rep),
    decreases k,
{
    if k == 0 {
        assert(src.skip(0) =~= src);
        assert(src.subrange(0, 0) =~= Seq::<u8>::empty());
        assert(src.subrange(0, 0) + replace_lit(src, pat, rep) =~= replace_lit(src, pat, rep));
    } else {
        assert(!matches_at(src, pat, 0));
        assert(src.subrange(0, pat.len() as int) == src.subrange(0, 0 + pat.len() as int));
        assert(replace_lit(src, pat, rep) == seq![src[0]] + replace_lit(src.skip(1), pat, rep));
        assert forall|j: int| 0 <= j < k - 1 implies !matches_at(src.skip(1), pat, j) by {
            if j + pat.len() <= src.skip(1).len() {
                assert(src.skip(1).subrange(j, j + pat.len()) =~= src.subrange(
                    j + 1,
                    j + 1 + pat.len(),
                ));
                assert(!matches_at(src, pat, j + 1));
            }
        }
        lemma_replace_lit_copies(src.skip(1), pat, rep, k - 1);
        assert(src.skip(1).skip(k - 1) =~= src.skip(k));
        assert(src.skip(1).subrange(0, k - 1) =~= src.subrange(1, k));
        assert(seq![src[0]] + (src.subrange(1, k) + replace_lit(src.skip(k), pat, rep))
            =~= src.subrange(0, k) + replace_lit(src.skip(k), pat, rep));
    }
}

/// When the pattern does not occur at the front, substitution walks over the
/// whole first scalar: an occurrence of a valid pattern can never start
/// inside a scalar's continuation bytes.
pub proof fn lemma_replace_lit_scalar_step(src: Seq<u8>, pat: Seq<u8>, rep: Seq<u8>)
    requires
        valid_utf8(src),
        src.len() > 0,
        valid_utf8(pat),
        pat.len() > 0,
        !matches_at(src, pat, 0),
    ensures
        replace_lit(src, pat, rep) == take_first_scalar(src) + replace_lit(
            pop_first_scalar(src),
            pat,
            rep,
        ),
{
    let k = length_of_first_scalar(src);
    lemma_take_first_scalar(src);
    assert forall|j: int| 0 <= j < k implies !matches_at(src, pat, j) by {
        if j > 0 {
            assert(!is_char_boundary(src, j)) by {
                reveal_with_fuel(is_char_boundary, 2);
            }
            is_char_boundary_iff_not_is_continuation_byte(src, j);
            assert(is_continuation_byte(src[j]));
            assert(!is_continuation_byte(pat[0]));
            if matches_at(src, pat, j) {
                assert(src.subrange(j, j + pat.len())[0] == src[j]);
            }
        }
    }
    lemma_replace_lit_copies(src, pat, rep, k);
    assert(take_first_scalar(src) =~= src.subrange(0, k));
    assert(pop_first_scalar(src) =~= src.skip(k));
}

/// Substituting a valid pattern by valid replacement text in valid content
/// yields valid content.
pub proof fn lemma_replace_lit_valid(src: Seq<u8>, pat: Seq<u8>, rep: Seq<u8>)
    requires
        valid_utf8(src),
        valid_utf8(pat),
        pat.len() > 0,
        valid_utf8(rep),
    ensures
        valid_utf8(replace_lit(src, pat, rep)),
    decreases src.len(),
{
    if src.len() == 0 {
    } else if matches_at(src, pat, 0) {
        assert(src.subrange(0, 0 + pat.len() as int) == src.subrange(0, pat.len() as int));
        lemma_valid_prefix_skip(src, pat);
        lemma_replace_lit_valid(src.skip(pat.len() as int), pat, rep);
        valid_utf8_concat(rep, replace_lit(src.skip(pat.len() as int), pat, rep));
    } else {
        assert(src.subrange(0, 0 + pat.len() as int) == src.subrange(0, pat.len() as int));
        lemma_replace_lit_scalar_step(src, pat, rep);
        lemma_take_first_scalar(src);
        lemma_replace_lit_valid(pop_first_scalar(src), pat, rep);
        valid_utf8_concat(take_first_scalar(src), replace_lit(pop_first_scalar(src), pat, rep));
    }
}

/// Interleaving valid replacement text between the scalars of valid content
/// yields valid content.
pub proof fn lemma_interleave_valid(src: Seq<u8>, rep: Seq<u8>)
    requires
        valid_utf8(src),
        valid_utf8(rep),
    ensures
        valid_utf8(interleave_tail(src, rep)),
    decreases src.len(),
{
    if src.len() == 0 {
    } else {
        lemma_take_first_scalar(src);
        lemma_interleave_valid(pop_first_scalar(src), rep);
        valid_utf8_concat(rep, interleave_tail(pop_first_scalar(src), rep));
        valid_utf8_concat(
            take_first_scalar(src),
            rep + interleave_tail(pop_first_scalar(src), rep),
        );
        assert(take_first_scalar(src) + (rep + interleave_tail(pop_first_scalar(src), rep))
            =~= take_first_scalar(src) + rep + interleave_tail(pop_first_scalar(src), rep));
    }
}

/// Builds the literal substitution of the non-empty `pat` by `rep` over
/// `src[s_start..s_end]`, scanning left to right one byte at a time.
fn replace_lit_exec(src: &[u8], s_start: usize, s_end: usize, pat: &[u8], rep: &[u8]) -> (out:
    Vec<u8>)
    requires
        pat@.len() > 0,
        s_start <= s_end <= src@.len(),
    ensures
        out@ == replace_lit(src@.subrange(s_start as int, s_end as int), pat@, rep@),
{
    let ghost whole = src@.subrange(s_start as int, s_end as int);
    let mut out: Vec<u8> = Vec::new();
    let p: usize = pat.len();
    let rn: usize = rep.len();
    let mut i: usize = s_start;
    proof {
        assert(out@ + replace_lit(whole, pat@, rep@) =~= replace_lit(whole, pat@, rep@));
    }
    while i < s_end
        invariant
            s_start <= i <= s_end <= src@.len(),
            p == pat@.len(),
            rn == rep@.len(),
            p > 0,
            out@ + replace_lit(src@.subrange(i as int, s_end as int), pat@, rep@) == replace_lit(
                whole,
                pat@,
                rep@,
            ),
        decreases s_end - i,
    {
        let ghost rest = src@.subrange(i as int, s_end as int);
        let ghost out0 = out@;
        let is_match: bool = if s_end - i >= p {
            eq_range(src, i, pat)
        } else {
            false
        };
        if is_match {
            proof {
                assert(rest.subrange(0, p as int) =~= src@.subrange(i as int, i + p));
                assert(rest.skip(p as int) =~= src@.subrange(i + p, s_end as int));
                assert(replace_lit(rest, pat@, rep@) == rep@ + replace_lit(
                    rest.skip(p as int),
                    pat@,
                    rep@,
                ));
            }
            append_range(&mut out, rep, 0, rn);
            proof {
                assert(rep@.subrange(0, rn as int) =~= rep@);
                assert((out0 + rep@) + replace_lit(
                    src@.subrange(i + p, s_end as int),
                    pat@,
                    rep@,
                ) =~= out0 + (rep@ + replace_lit(src@.subrange(i + p, s_end as int), pat@, rep@)));
            }
            i = i + p;
        } else {
            proof {
                if s_end - i >= p {
                    assert(rest.subrange(0, p as int) =~= src@.subrange(i as int, i + p));
                }
                assert(rest[0] == src@[i as int]);
                assert(rest.skip(1) =~= src@.subrange(i + 1, s_end as int));
                assert(replace_lit(rest, pat@, rep@) == seq![rest[0]] + replace_lit(
                    rest.skip(1),
                    pat@,
                    rep@,
                ));
            }
            out.push(src[i]);
            proof {
                assert(out0.push(src@[i as int]) + replace_lit(
                    src@.subrange(i + 1, s_end as int),
                    pat@,
                    rep@,
                ) =~= out0 + (seq![src@[i as int]] + replace_lit(
                    src@.subrange(i + 1, s_end as int),
                    pat@,
                    rep@,
                )));
            }
            i = i + 1;
        }
    }
    proof {
        assert(src@.subrange(i as int, s_end as int) =~= Seq::<u8>::empty());
        assert(replace_lit(Seq::<u8>::empty(), pat@, rep@) =~= Seq::<u8>::empty());
        assert(out@ + Seq::<u8>::empty() =~= out@);
    }
    out
}

/// Builds the empty-pattern interleave over the valid content `src[0..end]`:
/// `rep` first, then every scalar followed by one more `rep`.
fn interleave_exec(src: &[u8], end: usize, rep: &[u8]) -> (out: Vec<u8>)
    requires
        end <= src@.len(),
        valid_utf8(src@.subrange(0, end as int)),
    ensures
        out@ == rep@ + interleave_tail(src@.subrange(0, end as int), rep@),
        valid_utf8(rep@) ==> valid_utf8(out@),
{
    let ghost whole = src@.subrange(0, end as int);
    let rn: usize = rep.len();
    let mut out: Vec<u8> = Vec::new();
    append_range(&mut out, rep, 0, rn);
    proof {
        assert(rep@.subrange(0, rn as int) =~= rep@);
        assert(Seq::<u8>::empty() + rep@ =~= rep@);
        assert(out@ + interleave_tail(whole, rep@) =~= rep@ + interleave_tail(whole, rep@));
        assert(whole.subrange(0, end as int) =~= whole);
    }
    let mut i: usize = 0;
    while i < end
        invariant
            i <= end <= src@.len(),
            rn == rep@.len(),
            whole == src@.subrange(0, end as int),
            valid_utf8(src@.subrange(i as int, end as int)),
            out@ + interleave_tail(src@.subrange(i as int, end as int), rep@) == rep@
                + interleave_tail(whole, rep@),
        decreases end - i,
    {
        let ghost rest = src@.subrange(i as int, end as int);
        let ghost out0 = out@;
        let scalar = scalar_decode_at(src, i, end);
        let k: usize = scalar.1;
        proof {
            lemma_take_first_scalar(rest);
            assert(take_first_scalar(rest) =~= src@.subrange(i as int, i + k));
            assert(pop_first_scalar(rest) =~= src@.subrange(i + k, end as int));
            assert(interleave_tail(rest, rep@) == take_first_scalar(rest) + rep@
                + interleave_tail(pop_first_scalar(rest), rep@));
        }
        append_range(&mut out, src, i, i + k);
        append_range(&mut out, rep, 0, rn);
        proof {
            assert(rep@.subrange(0, rn as int) =~= rep@);
            assert(((out0 + src@.subrange(i as int, i + k)) + rep@) + interleave_tail(
                src@.subrange(i + k, end as int),
                rep@,
            ) =~= out0 + ((src@.subrange(i as int, i + k) + rep@) + interleave_tail(
                src@.subrange(i + k, end as int),
                rep@,
            )));
            assert((src@.subrange(i as int, i + k) + rep@) + interleave_tail(
                src@.subrange(i + k, end as int),
                rep@,
            ) =~= take_first_scalar(rest) + rep@ + interleave_tail(pop_first_scalar(rest), rep@));
        }
        i = i + k;
    }
    proof {
        assert(src@.subrange(i as int, end as int) =~= Seq::<u8>::empty());
        assert(interleave_tail(Seq::<u8>::empty(), rep@) =~= Seq::<u8>::empty());
        assert(out@ + Seq::<u8>::empty() =~= out@);
        if valid_utf8(rep@) {
            lemma_interleave_valid(whole, rep@);
            valid_utf8_concat(rep@, interleave_tail(whole, rep@));
        }
    }
    out
}

impl<const N: usize> Yangon<N> {
    /// Builds a new buffer in which every occurrence of the literal `slice`
    /// is replaced by `upg`, scanning left to right without overlap; an
    /// empty `slice` interleaves `upg` before every scalar and once more at
    /// the end.  A result that outgrows the bound `N` is cut, at the largest
    /// scalar boundary that fits.
    pub fn replace_it(&self, slice: &str, upg: &str) -> (r: Self)
        requires
            self.wf(),
        ensures
            r.wf(),
            ({
                let pat = encode_utf8(slice@);
                let rep = encode_utf8(upg@);
                if pat.len() == 0 && rep.len() == 0 {
                    r@ == self@ && r.spec_capacity() == self.spec_capacity()
                } else if pat.len() == 0 {
                    r@ == fit_bytes(rep + interleave_tail(self@, rep), N as int)
                        && r.spec_capacity() == N as nat
                } else {
                    r@ == fit_bytes(replace_lit(self@, pat, rep), N as int) && r.spec_capacity()
                        == N as nat
                }
            }),
    {
        proof {
            self.model();
            encode_utf8_valid_utf8(slice@);
            encode_utf8_valid_utf8(upg@);
        }
        let pat_b: &[u8] = slice.as_bytes();
        let rep_b: &[u8] = upg.as_bytes();
        if pat_b.len() == 0 && rep_b.len() == 0 {
            self.duplicate()
        } else if pat_b.len() == 0 {
            proof {
                assert(self.list@.subrange(0, self.len as int) == self@);
            }
            let out = interleave_exec(self.list.as_slice(), self.len, rep_b);
            Self::fit_from_bytes(out.as_slice())
        } else {
            proof {
                assert(self.list@.subrange(0, self.len as int) == self@);
            }
            let out = replace_lit_exec(self.list.as_slice(), 0, self.len, pat_b, rep_b);
            proof {
                lemma_replace_lit_valid(self@, pat_b@, rep_b@);
            }
            Self::fit_from_bytes(out.as_slice())
        }
    }

    /// Replaces every occurrence of the single scalar `c` by `upg`, into a
    /// new buffer of bound `N`, cut at a boundary when it outgrows the
    /// bound.
    fn replace_one_char(&self, c: char, upg: &str) -> (r: Self)
        requires
            self.wf(),
        ensures
            r.wf(),
            r.spec_capacity() == N as nat,
            r@ == fit_bytes(replace_lit(self@, encode_scalar(c as u32), encode_utf8(upg@)), N as int),
    {
        let (buf, k) = encode_char_buf(c);
        proof {
            let cs = seq![c];
            assert(cs.drop_first() =~= Seq::<char>::empty());
            assert(encode_utf8(Seq::<char>::empty()) =~= Seq::<u8>::empty());
            assert(encode_utf8(cs) =~= encode_scalar(c as u32));
            encode_utf8_valid_utf8(cs);
        }
        let pat_s: &str = bytes_as_str(slice_subrange(buf.as_slice(), 0, k));
        proof {
            assert(encode_utf8(pat_s@) == encode_scalar(c as u32));
        }
        self.replace_it(pat_s, upg)
    }

    /// Replaces by pattern: a literal, a single scalar, or a small scalar
    /// set, the set replaced with one full left-to-right pass per member.
    pub fn replace<'y, G: yGeneric<'y, C>, const C: usize>(&self, pre: G, upg: &str) -> (r: Self)
        requires
            self.wf(),
        ensures
            r.wf(),
            ({
                let rep = encode_utf8(upg@);
                match pre.spec_iden() {
                    yPattern::Slice(s) => {
                        let pat = encode_utf8(s@);
                        if pat.len() == 0 && rep.len() == 0 {
                            r@ == self@ && r.spec_capacity() == self.spec_capacity()
                        } else if pat.len() == 0 {
                            r@ == fit_bytes(rep + interleave_tail(self@, rep), N as int)
                                && r.spec_capacity() == N as nat
                        } else {
                            r@ == fit_bytes(replace_lit(self@, pat, rep), N as int)
                                && r.spec_capacity() == N as nat
                        }
                    },
                    yPattern::Char(c) => r@ == fit_bytes(
                        replace_lit(self@, encode_scalar(c as u32), rep),
                        N as int,
                    ) && r.spec_capacity() == N as nat,
                    yPattern::CharSlice(a) => {
                        if a@.len() == 0 {
                            r@ == self@ && r.spec_capacity() == self.spec_capacity()
                        } else {
                            r@ == replace_multi(self@, a@, rep, N as int) && r.spec_capacity()
                                == N as nat
                        }
                    },
                }
            }),
    {
        match pre.iden() {
            yPattern::Slice(s) => self.replace_it(s, upg),
            yPattern::Char(c) => self.replace_one_char(c, upg),
            yPattern::CharSlice(a) => {
                let ghost members = a@;
                if C == 0 {
                    proof {
                        assert(members.len() == 0);
                    }
                    return self.duplicate();
                }
                let mut inst: Yangon<N> = self.replace_one_char(a[0], upg);
                let mut x: usize = 1;
                proof {
                    assert(members.skip(0) =~= members);
                    assert(members.skip(0)[0] == members[0]);
                    assert(members.skip(0).skip(1) =~= members.skip(1));
                    assert(replace_multi(self@, members, encode_utf8(upg@), N as int)
                        == replace_multi(inst@, members.skip(1), encode_utf8(upg@), N as int));
                }
                while x < C
                    invariant
                        1 <= x <= C,
                        members == a@,
                        members.len() == C,
                        inst.wf(),
                        inst.spec_capacity() == N as nat,
                        replace_multi(self@, members, encode_utf8(upg@), N as int)
                            == replace_multi(
                            inst@,
                            members.skip(x as int),
                            encode_utf8(upg@),
                            N as int,
                        ),
                    decreases C - x,
                {
                    let next: Yangon<N> = inst.replace_one_char(a[x], upg);
                    proof {
                        assert(members.skip(x as int)[0] == members[x as int]);
                        assert(members.skip(x as int).skip(1) =~= members.skip(x + 1));
                    }
                    inst = next;
                    x = x + 1;
                }
                proof {
                    assert(members.skip(C as int) =~= Seq::<char>::empty());
                }
                inst
            },
        }
    }

    /// Builds a new buffer in which every scalar the predicate accepts is
    /// replaced by `upg` and every other scalar is kept; a result that
    /// outgrows the bound `N` is cut at the largest scalar boundary that
    /// fits.  Every possible run of the predicate is described by a choice
    /// sequence `keep`, one verdict per scalar.
    pub fn replace_with<F: Fn(char) -> bool>(&self, closure: F, upg: &str) -> (r: Self)
        requires
            self.wf(),
            forall|c: char| closure.requires((c,)),
        ensures
            r.wf(),
            self@.len() == 0 ==> r@ == self@ && r.spec_capacity() == self.spec_capacity(),
            self@.len() > 0 ==> r.spec_capacity() == N as nat && (exists|keep: Seq<bool>|
                {
                    &&& keep.len() == decode_utf8(self@).len()
                    &&& (forall|t: int|
                        0 <= t < keep.len() ==> closure.ensures(
                            (decode_utf8(self@)[t],),
                            #[trigger] keep[t],
                        ))
                    &&& r@ == fit_bytes(
                        subst_by(decode_utf8(self@), keep, encode_utf8(upg@)),
                        N as int,
                    )
                }),
    {
        proof {
            self.model();
            encode_utf8_valid_utf8(upg@);
        }
        if self.len == 0 {
            return self.duplicate();
        }
        let ghost whole = self@;
        let rep_b: &[u8] = upg.as_bytes();
        let rn: usize = rep_b.len();
        let len: usize = self.len;
        let mut out: Vec<u8> = Vec::new();
        let ghost mut keep: Seq<bool> = Seq::empty();
        let mut i: usize = 0;
        proof {
            assert(whole.subrange(0, 0) =~= Seq::<u8>::empty());
            assert(decode_utf8(Seq::<u8>::empty()) =~= Seq::<char>::empty());
            assert(subst_by(Seq::<char>::empty(), Seq::<bool>::empty(), rep_b@)
                =~= Seq::<u8>::empty());
        }
        while i < len
            invariant
                i <= len,
                forall|c: char| closure.requires((c,)),
                rn == rep_b@.len(),
                len == whole.len(),
                self.wf(),
                whole == self@,
                valid_utf8(whole),
                valid_utf8(rep_b@),
                self.list@.subrange(0, len as int) == whole,
                self.list@.len() >= len,
                is_char_boundary(whole, i as int),
                keep.len() == decode_utf8(whole.subrange(0, i as int)).len(),
                forall|t: int|
                    0 <= t < keep.len() ==> closure.ensures(
                        (decode_utf8(whole.subrange(0, i as int))[t],),
                        #[trigger] keep[t],
                    ),
                out@ == subst_by(decode_utf8(whole.subrange(0, i as int)), keep, rep_b@),
                valid_utf8(out@),
            decreases len - i,
        {
            let ghost chars_done = decode_utf8(whole.subrange(0, i as int));
            let ghost s = whole.subrange(i as int, whole.len() as int);
            proof {
                vstd::utf8::valid_utf8_split(whole, i as int);
                assert(self.list@.subrange(i as int, len as int) =~= s);
            }
            let (c, k) = scalar_decode_at(self.list.as_slice(), i, len);
            let hit: bool = closure(c);
            let ghost out0 = out@;
            if hit {
                append_range(&mut out, rep_b, 0, rn);
                proof {
                    assert(rep_b@.subrange(0, rn as int) =~= rep_b@);
                }
            } else {
                append_range(&mut out, self.list.as_slice(), i, i + k);
            }
            proof {
                let keep0 = keep;
                keep = keep.push(hit);
                char_u32_cast(c, decode_first_scalar(s));
                lemma_decode_step(whole, i as int, k as int);
                lemma_subst_by_push(chars_done, keep0, rep_b@, c, hit);
                vstd::utf8::decode_utf8_first_scalar(s);
                assert(take_first_scalar(s) =~= whole.subrange(i as int, i + k));
                assert(encode_scalar(c as u32) == whole.subrange(i as int, i + k));
                if !hit {
                    assert(self.list@.subrange(i as int, i + k) =~= whole.subrange(
                        i as int,
                        i + k,
                    ));
                    lemma_take_first_scalar(s);
                    valid_utf8_concat(out0, encode_scalar(c as u32));
                } else {
                    valid_utf8_concat(out0, rep_b@);
                }
                assert(decode_utf8(whole.subrange(0, i + k)) == chars_done.push(c));
                assert(out@ == subst_by(decode_utf8(whole.subrange(0, i + k)), keep, rep_b@));
            }
            i = i + k;
        }
        proof {
            assert(whole.subrange(0, len as int) =~= whole);
        }
        let r = Self::fit_from_bytes(out.as_slice());
        proof {
            let chars = decode_utf8(whole);
            assert(keep.len() == chars.len());
            assert(forall|t: int|
                0 <= t < keep.len() ==> closure.ensures((chars[t],), #[trigger] keep[t]));
            assert(r@ == fit_bytes(subst_by(chars, keep, encode_utf8(upg@)), N as int));
        }
        r
    }
}

/// The pattern kinds the replace engine accepts: a literal text slice, one
/// scalar, or a small fixed set of scalars.
#[allow(non_camel_case_types)]
pub enum yPattern<'y, const C: usize> {
    Slice(&'y str),
    Char(char),
    CharSlice(&'y [char; C]),
}

/// The conversion from a replace argument to the pattern it stands for.
#[allow(non_camel_case_types)]
pub trait yGeneric<'y, const C: usize> {
    /// The pattern this argument denotes.
    spec fn spec_iden(&self) -> yPattern<'y, C>;

    /// Converts the argument into its pattern.
    fn iden(&self) -> (r: yPattern<'y, C>)
        ensures
            r == self.spec_iden(),
    ;
}

impl<'y, const C: usize> yGeneric<'y, C> for char {
    open spec fn spec_iden(&self) -> yPattern<'y, C> {
        yPattern::Char(*self)
    }

    fn iden(&self) -> (r: yPattern<'y, C>) {
        yPattern::Char(*self)
    }
}

impl<'y, const C: usize> yGeneric<'y, C> for &'y str {
    open spec fn spec_iden(&self) -> yPattern<'y, C> {
        yPattern::Slice(*self)
    }

    fn iden(&self) -> (r: yPattern<'y, C>) {
        yPattern::Slice(*self)
    }
}

impl<'y, const C: usize> yGeneric<'y, C> for &'y [char; C] {
    open spec fn spec_iden(&self) -> yPattern<'y, C> {
        yPattern::CharSlice(*self)
    }

    fn iden(&self) -> (r: yPattern<'y, C>) {
        yPattern::CharSlice(*self)
    }
}

} // verus!
