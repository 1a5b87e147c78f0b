//! What the byte-level automaton needs to know of UTF-8: the lead byte tells
//! the length of an encoding, and two code points never share one.

use vstd::prelude::*;
use vstd::utf8::{encode_scalar, encode_utf8, encode_utf8_first_scalar};

verus! {

/// The UTF-8 encoding of one code point.
pub open spec fn encoding(c: char) -> Seq<u8> {
    encode_scalar(c as u32)
}

/// The number of bytes that an encoding with the lead byte `lead` has; a
/// byte that leads no encoding counts as one.
pub open spec fn announced(lead: u8) -> int {
    if 0xc0 <= lead <= 0xdf {
        2
    } else if 0xe0 <= lead <= 0xef {
        3
    } else if 0xf0 <= lead <= 0xf7 {
        4
    } else {
        1
    }
}

/// The number of bytes that the lead byte `lead` announces.
pub fn announced_len(lead: u8) -> (n: usize)
    ensures
        n == announced(lead),
        1 <= n <= 4,
{
    if 0xc0 <= lead && lead <= 0xdf {
        2
    } else if 0xe0 <= lead && lead <= 0xef {
        3
    } else if 0xf0 <= lead && lead <= 0xf7 {
        4
    } else {
        1
    }
}

/// The encoding of a sequence is the encoding of its first code point and
/// then that of the rest.
pub proof fn lemma_encode_first(chars: Seq<char>)
    requires
        chars.len() > 0,
    ensures
        encode_utf8(chars) == encoding(chars[0]) + encode_utf8(chars.drop_first()),
        encode_utf8(chars).len() == encoding(chars[0]).len() + encode_utf8(chars.drop_first()).len(),
{
}

/// An encoding has one to four bytes, as many as its lead byte announces.
pub proof fn lemma_encoding_shape(c: char)
    ensures
        1 <= encoding(c).len() <= 4,
        encoding(c).len() == announced(encoding(c)[0]),
{
    let chars = seq![c];
    encode_utf8_first_scalar(chars);
    lemma_encode_first(chars);
    assert(chars.drop_first() =~= Seq::<char>::empty());
    assert(encode_utf8(chars) =~= encoding(c));
}

/// Two code points with one encoding are one code point.
pub proof fn lemma_encoding_injective(c: char, d: char)
    requires
        encoding(c) == encoding(d),
    ensures
        c == d,
{
    let cs = seq![c];
    let ds = seq![d];
    encode_utf8_first_scalar(cs);
    encode_utf8_first_scalar(ds);
    lemma_encode_first(cs);
    lemma_encode_first(ds);
    assert(cs.drop_first() =~= Seq::<char>::empty());
    assert(ds.drop_first() =~= Seq::<char>::empty());
    assert(encode_utf8(cs) =~= encoding(c));
    assert(encode_utf8(ds) =~= encoding(d));
    assert(c as u32 == d as u32);
}

/// The encoding of each code point of `text`, in order.
pub fn encodings_of(text: &str) -> (out: Vec<Vec<u8>>)
    ensures
        out@.len() == text@.len(),
        forall|i: int| 0 <= i < text@.len() ==> (#[trigger] out@[i])@ == encoding(text@[i]),
{
    let bytes = text.as_bytes();
    let size = bytes.len();
    let mut out: Vec<Vec<u8>> = Vec::new();
    let mut pos: usize = 0;
    let ghost mut done: int = 0;
    assert(bytes@.skip(0) =~= bytes@);
    assert(text@.skip(0) =~= text@);
    while pos < size
        invariant
            size == bytes@.len(),
            pos <= size,
            0 <= done <= text@.len(),
            bytes@.skip(pos as int) == encode_utf8(text@.skip(done)),
            out@.len() == done,
            forall|i: int| 0 <= i < done ==> (#[trigger] out@[i])@ == encoding(text@[i]),
        decreases size - pos,
    {
        let ghost rest = text@.skip(done);
        let ghost left = bytes@.skip(pos as int);
        assert(rest.len() > 0) by {
            if rest.len() == 0 {
                assert(encode_utf8(rest).len() == 0);
                assert(left.len() == size - pos);
            }
        }
        let ghost c = rest[0];
        proof {
            lemma_encode_first(rest);
            lemma_encoding_shape(c);
            assert(left.len() == size - pos);
            assert(left[0] == encoding(c)[0]);
            assert(left[0] == bytes@[pos as int]);
        }
        let lead = bytes[pos];
        let n = announced_len(lead);
        let mut one: Vec<u8> = Vec::new();
        let mut i: usize = 0;
        while i < n
            invariant
                size == bytes@.len(),
                pos + n <= size,
                i <= n,
                one@ == bytes@.subrange(pos as int, pos + i),
            decreases n - i,
        {
            one.push(bytes[pos + i]);
            assert(bytes@.subrange(pos as int, pos + i + 1) =~= bytes@.subrange(
                pos as int,
                pos + i,
            ).push(bytes@[pos + i]));
            i += 1;
        }
        proof {
            assert(one@ =~= encoding(c)) by {
                assert forall|q: int| 0 <= q < n implies one@[q] == encoding(c)[q] by {
                    assert(left[q] == bytes@[pos + q]);
                    assert(left[q] == (encoding(c) + encode_utf8(rest.drop_first()))[q]);
                }
            }
            assert(bytes@.skip(pos + n) =~= encode_utf8(rest.drop_first())) by {
                assert forall|q: int| 0 <= q < size - pos - n implies bytes@.skip(pos + n)[q]
                    == encode_utf8(rest.drop_first())[q] by {
                    assert(left[n + q] == bytes@[pos + n + q]);
                    assert(left[n + q] == (encoding(c) + encode_utf8(rest.drop_first()))[n + q]);
                }
            }
            assert(rest.drop_first() =~= text@.skip(done + 1));
            assert(c == text@[done]);
        }
        out.push(one);
        pos += n;
        proof {
            done = done + 1;
        }
    }
    proof {
        let rest = text@.skip(done);
        if rest.len() > 0 {
            lemma_encode_first(rest);
            lemma_encoding_shape(rest[0]);
            assert(bytes@.skip(pos as int).len() == 0);
        }
    }
    out
}

} // verus!
