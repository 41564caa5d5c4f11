//! The debug rendering: the content quoted, with quotes, backslashes and
//! every control scalar escaped.

use crate::buffer::Yangon;
use crate::model::lemma_decode_step;
use crate::model::lemma_encode_utf8_concat;
use crate::scan::bytes_as_str;
use crate::scan::encode_char_buf;
use crate::scan::scalar_decode_at;
use crate::shift::append_range;
use vstd::prelude::*;
use vstd::string::StringExecFns;
use vstd::string::StringSliceAdditionalSpecFns;
use vstd::utf8::decode_first_scalar;
use vstd::utf8::decode_utf8;
use vstd::utf8::encode_scalar;
use vstd::utf8::encode_utf8;
use vstd::utf8::encode_utf8_decode_utf8;
use vstd::utf8::encode_utf8_valid_utf8;
use vstd::utf8::is_char_boundary;
use vstd::utf8::valid_utf8;
use vstd::utf8::valid_utf8_split;

verus! {

/// The lowercase hexadecimal digit for a value below sixteen.
pub open spec fn hex_digit(n: int) -> char {
    if n == 0 {
        '0'
    } else if n == 1 {
        '1'
    } else if n == 2 {
        '2'
    } else if n == 3 {
        '3'
    } else if n == 4 {
        '4'
    } else if n == 5 {
        '5'
    } else if n == 6 {
        '6'
    } else if n == 7 {
        '7'
    } else if n == 8 {
        '8'
    } else if n == 9 {
        '9'
    } else if n == 10 {
        'a'
    } else if n == 11 {
        'b'
    } else if n == 12 {
        'c'
    } else if n == 13 {
        'd'
    } else if n == 14 {
        'e'
    } else {
        'f'
    }
}

/// The `\u{..}` escape of a control scalar, with minimal lowercase hex
/// digits; the control range never needs more than two.
pub open spec fn control_escape(u: u32) -> Seq<char>
    recommends
        u < 0x80,
{
    if u < 0x10 {
        seq!['\\', 'u', '{', hex_digit(u as int), '}']
    } else {
        seq!['\\', 'u', '{', hex_digit(u as int / 16), hex_digit(u as int % 16), '}']
    }
}

/// How one scalar appears inside the quoted debug form: quotes, backslashes
/// and the named control scalars become two-character escapes, every other
/// control scalar a `\u{..}` escape, and everything else stands as itself.
pub open spec fn escape_char(c: char) -> Seq<char> {
    if c == '"' {
        seq!['\\', '"']
    } else if c == '\\' {
        seq!['\\', '\\']
    } else if c == '\n' {
        seq!['\\', 'n']
    } else if c == '\t' {
        seq!['\\', 't']
    } else if c == '\r' {
        seq!['\\', 'r']
    } else if c == '\0' {
        seq!['\\', '0']
    } else if (c as u32) < 0x20 || c as u32 == 0x7F {
        control_escape(c as u32)
    } else {
        seq![c]
    }
}

/// The body of the debug form: each scalar escaped in order.
pub open spec fn escape_chars(s: Seq<char>) -> Seq<char>
    decreases s.len(),
{
    if s.len() == 0 {
        Seq::empty()
    } else {
        escape_char(s[0]) + escape_chars(s.drop_first())
    }
}

/// The debug form of the text: the escaped body between two quotes.
pub open spec fn debug_chars(s: Seq<char>) -> Seq<char> {
    seq!['"'] + escape_chars(s) + seq!['"']
}

/// Escaping after appending one scalar appends that scalar's escape.
proof fn lemma_escape_chars_push(s: Seq<char>, c: char)
    ensures
        escape_chars(s.push(c)) == escape_chars(s) + escape_char(c),
    decreases s.len(),
{
    if s.len() == 0 {
        assert(s.push(c)[0] == c);
        assert(s.push(c).drop_first() =~= Seq::<char>::empty());
        assert(escape_chars(Seq::<char>::empty()) =~= Seq::<char>::empty());
        assert(escape_chars(s.push(c)) =~= escape_chars(s) + escape_char(c));
    } else {
        assert(s.push(c)[0] == s[0]);
        assert(s.push(c).drop_first() =~= s.drop_first().push(c));
        lemma_escape_chars_push(s.drop_first(), c);
        assert(escape_chars(s.push(c)) =~= escape_chars(s) + escape_char(c));
    }
}

/// The lowercase hexadecimal digit for a value below sixteen.
fn hex_digit_exec(n: u32) -> (r: char)
    requires
        n < 16,
    ensures
        r == hex_digit(n as int),
{
    if n == 0 {
        '0'
    } else if n == 1 {
        '1'
    } else if n == 2 {
        '2'
    } else if n == 3 {
        '3'
    } else if n == 4 {
        '4'
    } else if n == 5 {
        '5'
    } else if n == 6 {
        '6'
    } else if n == 7 {
        '7'
    } else if n == 8 {
        '8'
    } else if n == 9 {
        '9'
    } else if n == 10 {
        'a'
    } else if n == 11 {
        'b'
    } else if n == 12 {
        'c'
    } else if n == 13 {
        'd'
    } else if n == 14 {
        'e'
    } else {
        'f'
    }
}

/// Appends the UTF-8 encoding of one scalar to the byte accumulator.
fn push_char_bytes(out: &mut Vec<u8>, c: char)
    ensures
        final(out)@ == old(out)@ + encode_utf8(seq![c]),
{
    let (buf, k) = encode_char_buf(c);
    append_range(out, buf.as_slice(), 0, k);
    proof {
        assert(seq![c].drop_first() =~= Seq::<char>::empty());
        assert(encode_utf8(Seq::<char>::empty()) =~= Seq::<u8>::empty());
        assert(encode_utf8(seq![c]) =~= encode_scalar(c as u32));
    }
}

/// Appends one scalar's encoding and keeps the character accumulator in
/// step with the byte accumulator.
fn push_char_acc(out: &mut Vec<u8>, c: char, acc: Ghost<Seq<char>>) -> (r: Ghost<Seq<char>>)
    requires
        old(out)@ == encode_utf8(acc@),
    ensures
        r@ == acc@.push(c),
        final(out)@ == encode_utf8(r@),
{
    push_char_bytes(out, c);
    proof {
        lemma_encode_utf8_concat(acc@, seq![c]);
        assert(acc@ + seq![c] =~= acc@.push(c));
    }
    Ghost(acc@.push(c))
}

impl<const N: usize> Yangon<N> {
    /// The debug form of the content: the text between quotes, with quotes,
    /// backslashes and every control scalar escaped.
    pub fn to_debug_string(&self) -> (r: String)
        requires
            self.wf(),
        ensures
            r@ == debug_chars(decode_utf8(self@)),
    {
        proof {
            self.model();
        }
        let ghost whole = self@;
        let len: usize = self.len;
        let mut out: Vec<u8> = Vec::new();
        proof {
            assert(out@ =~= encode_utf8(Seq::<char>::empty()));
        }
        let mut acc: Ghost<Seq<char>> = Ghost(Seq::empty());
        acc = push_char_acc(&mut out, '"', acc);
        proof {
            assert(whole.subrange(0, 0) =~= Seq::<u8>::empty());
            assert(decode_utf8(Seq::<u8>::empty()) =~= Seq::<char>::empty());
            assert(escape_chars(Seq::<char>::empty()) =~= Seq::<char>::empty());
            assert(acc@ =~= seq!['"'] + escape_chars(Seq::<char>::empty()));
        }
        let mut i: usize = 0;
        while i < len
            invariant
                i <= len,
                len == whole.len(),
                whole == self@,
                self.wf(),
                valid_utf8(whole),
                self.list@.subrange(0, len as int) == whole,
                self.list@.len() >= len,
                is_char_boundary(whole, i as int),
                acc@ == seq!['"'] + escape_chars(decode_utf8(whole.subrange(0, i as int))),
                out@ == encode_utf8(acc@),
            decreases len - i,
        {
            let ghost s = whole.subrange(i as int, whole.len() as int);
            proof {
                valid_utf8_split(whole, i as int);
                assert(self.list@.subrange(i as int, len as int) =~= s);
            }
            let (c, k) = scalar_decode_at(self.list.as_slice(), i, len);
            proof {
                vstd::utf8::char_u32_cast(c, decode_first_scalar(s));
                lemma_decode_step(whole, i as int, k as int);
            }
            let ghost acc0 = acc@;
            if c == '"' {
                acc = push_char_acc(&mut out, '\\', acc);
                acc = push_char_acc(&mut out, '"', acc);
            } else if c == '\\' {
                acc = push_char_acc(&mut out, '\\', acc);
                acc = push_char_acc(&mut out, '\\', acc);
            } else if c == '\n' {
                acc = push_char_acc(&mut out, '\\', acc);
                acc = push_char_acc(&mut out, 'n', acc);
            } else if c == '\t' {
                acc = push_char_acc(&mut out, '\\', acc);
                acc = push_char_acc(&mut out, 't', acc);
            } else if c == '\r' {
                acc = push_char_acc(&mut out, '\\', acc);
                acc = push_char_acc(&mut out, 'r', acc);
            } else if c == '\0' {
                acc = push_char_acc(&mut out, '\\', acc);
                acc = push_char_acc(&mut out, '0', acc);
            } else {
                let u: u32 = c as u32;
                if u < 0x20 || u == 0x7F {
                    acc = push_char_acc(&mut out, '\\', acc);
                    acc = push_char_acc(&mut out, 'u', acc);
                    acc = push_char_acc(&mut out, '{', acc);
                    if u < 0x10 {
                        acc = push_char_acc(&mut out, hex_digit_exec(u), acc);
                    } else {
                        acc = push_char_acc(&mut out, hex_digit_exec(u / 16), acc);
                        acc = push_char_acc(&mut out, hex_digit_exec(u % 16), acc);
                    }
                    acc = push_char_acc(&mut out, '}', acc);
                } else {
                    acc = push_char_acc(&mut out, c, acc);
                }
            }
            proof {
                assert(acc@ =~= acc0 + escape_char(c));
                let ghost chars2 = decode_utf8(whole.subrange(0, i + k));
                lemma_escape_chars_push(decode_utf8(whole.subrange(0, i as int)), c);
                assert(acc@ =~= seq!['"'] + escape_chars(chars2));
            }
            i = i + k;
        }
        proof {
            assert(whole.subrange(0, len as int) =~= whole);
        }
        let ghost body = acc@;
        acc = push_char_acc(&mut out, '"', acc);
        proof {
            assert(acc@ =~= body + seq!['"']);
            assert(body + seq!['"'] =~= debug_chars(decode_utf8(whole)));
            assert(out@ == encode_utf8(debug_chars(decode_utf8(whole))));
            encode_utf8_valid_utf8(debug_chars(decode_utf8(whole)));
        }
        let s: &str = bytes_as_str(out.as_slice());
        proof {
            encode_utf8_decode_utf8(s@);
            encode_utf8_decode_utf8(debug_chars(decode_utf8(whole)));
        }
        String::from_str(s)
    }
}

} // verus!
