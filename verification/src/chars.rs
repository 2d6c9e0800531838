//! Cutting string slices between characters.
//!
//! A string slice is addressed in bytes, while the contracts of this crate
//! speak of characters. The functions here cut a slice after a known number
//! of characters, given the number of bytes that those characters take.

use vstd::prelude::*;
use vstd::string::*;
use vstd::utf8::*;

verus! {

/// The number of bytes that the first `chars` characters of `text` take.
pub open spec fn byte_offset(text: Seq<char>, chars: int) -> nat {
    encode_utf8(text.take(chars)).len()
}

/// The encoding of two texts in a row is the two encodings in a row.
pub proof fn lemma_encode_concat(a: Seq<char>, b: Seq<char>)
    ensures
        encode_utf8(a + b) == encode_utf8(a) + encode_utf8(b),
    decreases a.len(),
{
    if a.len() == 0 {
        assert(a + b =~= b);
        assert(encode_utf8(a) + encode_utf8(b) =~= encode_utf8(b));
    } else {
        lemma_encode_concat(a.drop_first(), b);
        assert((a + b).drop_first() =~= a.drop_first() + b);
        assert(encode_utf8(a + b) =~= encode_utf8(a) + encode_utf8(b));
    }
}

/// Where one text ends inside the encoding of two texts in a row, a
/// character begins.
pub proof fn lemma_boundary_between(a: Seq<char>, b: Seq<char>)
    ensures
        is_char_boundary(encode_utf8(a + b), encode_utf8(a).len() as int),
    decreases a.len(),
{
    broadcast use encode_utf8_valid_utf8;

    let bytes = encode_utf8(a + b);
    if a.len() > 0 {
        let rest = a.drop_first();
        lemma_encode_concat(a, b);
        lemma_encode_concat(rest, b);
        encode_utf8_first_scalar(a + b);
        char_is_scalar(a[0]);
        assert((a + b).drop_first() =~= rest + b);
        assert(pop_first_scalar(bytes) =~= encode_utf8(rest + b));
        lemma_boundary_between(rest, b);
        assert(encode_utf8(a).len() == encode_scalar(a[0] as u32).len() + encode_utf8(rest).len());
    }
}

/// The number of bytes that a position takes grows with the position, and
/// never beyond the whole encoding.
pub proof fn lemma_byte_offset_step(text: Seq<char>, chars: int)
    requires
        0 <= chars < text.len(),
    ensures
        byte_offset(text, chars + 1) == byte_offset(text, chars) + encode_scalar(
            text[chars] as u32,
        ).len(),
        byte_offset(text, chars + 1) <= encode_utf8(text).len(),
{
    let head = text.take(chars);
    let one = seq![text[chars]];
    assert(text.take(chars + 1) =~= head + one);
    lemma_encode_concat(head, one);
    assert(one.drop_first() =~= Seq::<char>::empty());
    assert(encode_utf8(one) =~= encode_scalar(text[chars] as u32)) by {
        reveal_with_fuel(encode_utf8, 2);
    }
    assert(text =~= text.take(chars + 1) + text.skip(chars + 1));
    lemma_encode_concat(text.take(chars + 1), text.skip(chars + 1));
}

/// A text whose encoding begins with the encoding of another text begins
/// with that text.
pub proof fn lemma_prefix_of_encoding(prefix: Seq<char>, text: Seq<char>)
    requires
        encode_utf8(prefix).is_prefix_of(encode_utf8(text)),
    ensures
        prefix.is_prefix_of(text),
    decreases prefix.len(),
{
    let p = encode_utf8(prefix);
    let t = encode_utf8(text);
    if prefix.len() == 0 {
        assert(text.subrange(0, 0) =~= prefix);
    } else {
        let first = prefix[0];
        encode_utf8_first_scalar(prefix);
        char_is_scalar(first);
        let width = encode_scalar(first as u32).len() as int;
        assert(1 <= width <= p.len());
        assert(text.len() > 0);
        encode_utf8_first_scalar(text);
        assert forall|i: int| 0 <= i < p.len() implies p[i] == t[i] by {
            assert(t.subrange(0, p.len() as int)[i] == t[i]);
        }
        assert(decode_first_scalar(p) == decode_first_scalar(t));
        char_u32_cast(first, first as u32);
        char_u32_cast(text[0], text[0] as u32);
        assert(first == text[0]);
        assert(p.skip(width) =~= encode_utf8(prefix.drop_first()));
        assert(t.skip(width) =~= encode_utf8(text.drop_first()));
        assert(p.skip(width) =~= t.skip(width).subrange(0, p.len() - width));
        lemma_prefix_of_encoding(prefix.drop_first(), text.drop_first());
        assert(text.drop_first().subrange(0, prefix.len() - 1) == prefix.drop_first());
        assert forall|i: int| 0 <= i < prefix.len() implies prefix[i] == text[i] by {
            if i > 0 {
                assert(prefix.drop_first()[i - 1] == text.drop_first().subrange(
                    0,
                    prefix.len() - 1,
                )[i - 1]);
            }
        }
        assert(text.subrange(0, prefix.len() as int) =~= prefix);
    }
}

/// Whether `text` begins with `prefix`.
pub fn starts_with(text: &str, prefix: &str) -> (found: bool)
    ensures
        found == prefix@.is_prefix_of(text@),
{
    let bytes = text.as_bytes();
    let wanted = prefix.as_bytes();
    proof {
        if prefix@.is_prefix_of(text@) {
            assert(text@ =~= prefix@ + text@.skip(prefix@.len() as int));
            lemma_encode_concat(prefix@, text@.skip(prefix@.len() as int));
            assert(bytes@.subrange(0, wanted@.len() as int) =~= wanted@);
        }
    }
    if wanted.len() > bytes.len() {
        return false;
    }
    let mut i: usize = 0;
    while i < wanted.len()
        invariant
            i <= wanted.len() <= bytes.len(),
            forall|k: int| 0 <= k < i ==> wanted@[k] == bytes@[k],
            prefix@.is_prefix_of(text@) ==> bytes@.subrange(0, wanted@.len() as int) == wanted@,
        decreases wanted.len() - i,
    {
        if bytes[i] != wanted[i] {
            proof {
                if prefix@.is_prefix_of(text@) {
                    assert(bytes@.subrange(0, wanted@.len() as int)[i as int] == bytes@[i as int]);
                }
            }
            return false;
        }
        i += 1;
    }
    proof {
        assert(bytes@.subrange(0, wanted@.len() as int) =~= wanted@);
        lemma_prefix_of_encoding(prefix@, text@);
    }
    true
}

/// The number of bytes of the encoding of `c`.
pub fn utf8_width(c: char) -> (width: usize)
    ensures
        width == encode_scalar(c as u32).len(),
        1 <= width <= 4,
{
    proof {
        char_is_scalar(c);
    }
    let scalar = c as u32;
    if scalar < 0x80 {
        1
    } else if scalar < 0x800 {
        2
    } else if scalar < 0x10000 {
        3
    } else {
        4
    }
}

/// The two parts of `text` before and after its first `chars` characters,
/// which take `bytes` bytes.
pub(crate) fn split_chars<'a>(text: &'a str, bytes: usize, Ghost(chars): Ghost<int>) -> (parts: (
    &'a str,
    &'a str,
))
    requires
        0 <= chars <= text@.len(),
        bytes == byte_offset(text@, chars),
    ensures
        parts.0@ == text@.take(chars),
        parts.1@ == text@.skip(chars),
{
    broadcast use encode_utf8_valid_utf8, encode_utf8_decode_utf8;

    let ghost head = text@.take(chars);
    let ghost tail = text@.skip(chars);
    proof {
        assert(text@ =~= head + tail);
        lemma_encode_concat(head, tail);
        lemma_boundary_between(head, tail);
    }
    let parts = text.split_at(bytes);
    proof {
        let all = text.spec_bytes();
        assert(all.subrange(0, bytes as int) =~= encode_utf8(head));
        assert(all.subrange(bytes as int, all.len() as int) =~= encode_utf8(tail));
        assert(decode_utf8(encode_utf8(parts.0@)) == parts.0@);
        assert(decode_utf8(encode_utf8(parts.1@)) == parts.1@);
        assert(decode_utf8(encode_utf8(head)) == head);
        assert(decode_utf8(encode_utf8(tail)) == tail);
    }
    parts
}

/// The first character of `text`, if it has one.
pub fn first_char(text: &str) -> (first: Option<char>)
    ensures
        first == if text@.len() > 0 {
            Some(text@[0])
        } else {
            None
        },
{
    if text.is_empty() {
        None
    } else {
        Some(text.get_char(0))
    }
}

/// The characters of `text`, one by one.
pub fn chars_of(text: &str) -> (chars: Vec<char>)
    ensures
        chars@ == text@,
{
    let total = text.as_bytes().len();
    let mut chars: Vec<char> = Vec::new();
    let mut bytes: usize = 0;
    proof {
        assert(text@.take(0) =~= Seq::<char>::empty());
    }
    loop
        invariant
            chars.len() <= text@.len(),
            chars@ == text@.take(chars.len() as int),
            bytes == byte_offset(text@, chars.len() as int),
            total == encode_utf8(text@).len(),
            bytes <= total,
        ensures
            chars.len() == text@.len(),
            chars@ == text@.take(chars.len() as int),
        decreases text@.len() - chars.len(),
    {
        let (_, tail) = split_chars(text, bytes, Ghost(chars.len() as int));
        match first_char(tail) {
            Some(c) => {
                proof {
                    lemma_byte_offset_step(text@, chars.len() as int);
                    assert(text@.take(chars.len() + 1) =~= text@.take(chars.len() as int).push(c));
                }
                bytes += utf8_width(c);
                chars.push(c);
            },
            None => {
                break ;
            },
        }
    }
    proof {
        assert(text@.take(text@.len() as int) =~= text@);
    }
    chars
}

} // verus!
