//! The names of the files that hold game records.

use vstd::prelude::*;
use vstd::string::*;
use crate::chars::chars_of;
use crate::text::{push_char, push_chars};

verus! {

/// The ending of the name of a GIB file.
pub open spec fn gib_ending() -> Seq<char> {
    seq!['.', 'g', 'i', 'b']
}

/// An ending that some programs add to the name of a GIB file.
pub open spec fn dll_ending() -> Seq<char> {
    seq!['.', 'd', 'l', 'l']
}

/// `name` without its last `count` characters.
pub open spec fn without_last(name: Seq<char>, count: int) -> Seq<char> {
    name.take(name.len() - count)
}

/// What is left of `name` when every `.gib`, `.dll` and dot is taken from
/// its end, as often as one of them stands there.
pub open spec fn stem(name: Seq<char>) -> Seq<char>
    decreases name.len(),
{
    if gib_ending().is_suffix_of(name) {
        stem(without_last(name, 4))
    } else if dll_ending().is_suffix_of(name) {
        stem(without_last(name, 4))
    } else if seq!['.'].is_suffix_of(name) {
        stem(without_last(name, 1))
    } else {
        name
    }
}

/// The name of a GIB file with one `.gib` at its end in place of all the
/// endings that have gathered there. A name that ends neither in `.gib` nor
/// in `.gib.dll` stays as it is.
pub open spec fn normalized_name(name: Seq<char>) -> Seq<char> {
    if gib_ending().is_suffix_of(name) || (gib_ending() + dll_ending()).is_suffix_of(name) {
        stem(name) + gib_ending()
    } else {
        name
    }
}

/// A stem has no ending left that could be taken from it.
pub proof fn lemma_stem_is_stable(name: Seq<char>)
    ensures
        stem(stem(name)) == stem(name),
    decreases name.len(),
{
    if gib_ending().is_suffix_of(name) {
        lemma_stem_is_stable(without_last(name, 4));
    } else if dll_ending().is_suffix_of(name) {
        lemma_stem_is_stable(without_last(name, 4));
    } else if seq!['.'].is_suffix_of(name) {
        lemma_stem_is_stable(without_last(name, 1));
    }
}

/// A cleaned name is clean: cleaning it again changes nothing.
pub proof fn lemma_normalized_name_is_stable(name: Seq<char>)
    ensures
        normalized_name(normalized_name(name)) == normalized_name(name),
{
    if gib_ending().is_suffix_of(name) || (gib_ending() + dll_ending()).is_suffix_of(name) {
        let cleaned = stem(name) + gib_ending();
        assert(cleaned.subrange(cleaned.len() - 4, cleaned.len() as int) =~= gib_ending());
        assert(gib_ending().is_suffix_of(cleaned));
        assert(without_last(cleaned, 4) =~= stem(name));
        lemma_stem_is_stable(name);
        assert(stem(cleaned) == stem(name));
    }
}

/// Whether the first `end` characters of `chars` end with the four
/// characters given.
fn ends_with_four(chars: &Vec<char>, end: usize, a: char, b: char, c: char, d: char) -> (found:
    bool)
    requires
        end <= chars.len(),
    ensures
        found == seq![a, b, c, d].is_suffix_of(chars@.take(end as int)),
{
    let ghost name = chars@.take(end as int);
    let ghost ending = seq![a, b, c, d];
    if end < 4 {
        false
    } else {
        let found = chars[end - 4] == a && chars[end - 3] == b && chars[end - 2] == c && chars[end
            - 1] == d;
        proof {
            let tail = name.subrange(name.len() - 4, name.len() as int);
            assert(tail.len() == 4);
            assert(tail[0] == chars@[end - 4]);
            assert(tail[1] == chars@[end - 3]);
            assert(tail[2] == chars@[end - 2]);
            assert(tail[3] == chars@[end - 1]);
            if found {
                assert(tail =~= ending);
            }
        }
        found
    }
}

/// The number of characters of the stem of the first `end` characters of
/// `chars`.
fn stem_length(chars: &Vec<char>, end: usize) -> (length: usize)
    requires
        end <= chars.len(),
    ensures
        length <= end,
        stem(chars@.take(end as int)) == chars@.take(length as int),
{
    let mut length = end;
    loop
        invariant
            length <= end <= chars.len(),
            stem(chars@.take(end as int)) == stem(chars@.take(length as int)),
        ensures
            stem(chars@.take(end as int)) == chars@.take(length as int),
        decreases length,
    {
        let ghost name = chars@.take(length as int);
        if ends_with_four(chars, length, '.', 'g', 'i', 'b') {
            assert(without_last(name, 4) =~= chars@.take(length - 4));
            length -= 4;
        } else if ends_with_four(chars, length, '.', 'd', 'l', 'l') {
            assert(without_last(name, 4) =~= chars@.take(length - 4));
            length -= 4;
        } else if length > 0 && chars[length - 1] == '.' {
            proof {
                assert(name.subrange(name.len() - 1, name.len() as int) =~= seq!['.']);
                assert(without_last(name, 1) =~= chars@.take(length - 1));
            }
            length -= 1;
        } else {
            proof {
                if seq!['.'].is_suffix_of(name) {
                    assert(name.subrange(name.len() - 1, name.len() as int)[0] == '.');
                }
            }
            break ;
        }
    }
    length
}

/// The name of a GIB file without the endings that gather behind it: a name
/// that ends in `.gib` or `.gib.dll` gets one `.gib` in place of all the
/// `.gib`, `.dll` and dots at its end; any other name is returned as it is.
pub fn normalize_file_name(name: &str) -> (normalized: String)
    ensures
        normalized@ == normalized_name(name@),
{
    let chars = chars_of(name);
    let end = chars.len();
    proof {
        assert(chars@.take(end as int) =~= name@);
    }
    let gib = ends_with_four(&chars, end, '.', 'g', 'i', 'b');
    let gib_dll = ends_with_four(&chars, end, '.', 'd', 'l', 'l') && ends_with_four(
        &chars,
        end - 4,
        '.',
        'g',
        'i',
        'b',
    );
    proof {
        let both = gib_ending() + dll_ending();
        assert(both.len() == 8);
        if both.is_suffix_of(name@) {
            let tail = name@.subrange(name@.len() - 8, name@.len() as int);
            assert(tail == both);
            assert(name@.subrange(name@.len() - 4, name@.len() as int) =~= tail.skip(4));
            assert(tail.skip(4) =~= dll_ending());
            let shorter = name@.take(name@.len() - 4);
            assert(shorter.subrange(shorter.len() - 4, shorter.len() as int) =~= tail.take(4));
            assert(tail.take(4) =~= gib_ending());
            assert(chars@.take(end - 4) =~= shorter);
        }
        if gib_dll {
            let shorter = chars@.take(end - 4);
            assert(name@.subrange(name@.len() - 8, name@.len() as int) =~= shorter.subrange(
                shorter.len() - 4,
                shorter.len() as int,
            ) + name@.subrange(name@.len() - 4, name@.len() as int));
        }
    }
    if gib || gib_dll {
        let length = stem_length(&chars, end);
        let mut normalized = String::new();
        push_chars(&mut normalized, &chars, 0, length);
        push_char(&mut normalized, '.');
        push_char(&mut normalized, 'g');
        push_char(&mut normalized, 'i');
        push_char(&mut normalized, 'b');
        proof {
            assert(chars@.subrange(0, length as int) =~= chars@.take(length as int));
            assert(normalized@ =~= stem(name@) + gib_ending());
        }
        normalized
    } else {
        String::from_str(name)
    }
}

} // verus!
