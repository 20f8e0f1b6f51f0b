//! UTF-8 text seen as bytes: searching, comparing and cutting.
//!
//! Every contract of this library speaks of a string through the bytes of its
//! UTF-8 encoding, `encode_utf8(s@)`. The lemmas here tie that to the characters.

use vstd::prelude::*;
use vstd::string::*;
use vstd::utf8::*;

verus! {

/// The index of the first `needle` in `bytes`, or `bytes.len()` where there is none.
pub open spec fn find_byte(bytes: Seq<u8>, needle: u8) -> int
    decreases bytes.len(),
{
    if bytes.len() == 0 || bytes[0] == needle {
        0
    } else {
        1 + find_byte(bytes.drop_first(), needle)
    }
}

/// What `find_byte` returns is in range, points at the needle and has no needle before it.
pub proof fn lemma_find_byte(bytes: Seq<u8>, needle: u8)
    ensures
        0 <= find_byte(bytes, needle) <= bytes.len(),
        find_byte(bytes, needle) < bytes.len() ==> bytes[find_byte(bytes, needle)] == needle,
        forall|j: int| 0 <= j < find_byte(bytes, needle) ==> bytes[j] != needle,
    decreases bytes.len(),
{
    if bytes.len() == 0 || bytes[0] == needle {
    } else {
        let rest = bytes.drop_first();
        lemma_find_byte(rest, needle);
        assert forall|j: int| 0 <= j < find_byte(bytes, needle) implies bytes[j] != needle by {
            if j > 0 {
                assert(bytes[j] == rest[j - 1]);
            }
        }
    }
}

/// An index that points at the needle, or at the end, with no needle before it, is
/// the one `find_byte` returns.
pub proof fn lemma_find_byte_is(bytes: Seq<u8>, needle: u8, at: int)
    requires
        0 <= at <= bytes.len(),
        at < bytes.len() ==> bytes[at] == needle,
        forall|j: int| 0 <= j < at ==> bytes[j] != needle,
    ensures
        find_byte(bytes, needle) == at,
{
    lemma_find_byte(bytes, needle);
}

/// Finds the first `needle` at or after `from`.
pub(crate) fn find_from(bytes: &[u8], from: usize, needle: u8) -> (at: usize)
    requires
        from <= bytes@.len(),
    ensures
        from <= at <= bytes@.len(),
        at - from == find_byte(bytes@.skip(from as int), needle),
{
    let mut at: usize = from;
    while at < bytes.len() && bytes[at] != needle
        invariant
            from <= at <= bytes@.len(),
            forall|j: int| from <= j < at ==> bytes@[j] != needle,
        decreases bytes@.len() - at,
    {
        at += 1;
    }
    proof {
        lemma_find_byte_is(bytes@.skip(from as int), needle, at - from);
    }
    at
}

/// Whether two byte strings are the same.
pub(crate) fn same_bytes(a: &[u8], b: &[u8]) -> (same: bool)
    ensures
        same == (a@ == b@),
{
    if a.len() != b.len() {
        return false;
    }
    let mut i: usize = 0;
    while i < a.len()
        invariant
            a@.len() == b@.len(),
            i <= a@.len(),
            forall|j: int| 0 <= j < i ==> a@[j] == b@[j],
        decreases a@.len() - i,
    {
        if a[i] != b[i] {
            return false;
        }
        i += 1;
    }
    assert(a@ =~= b@);
    true
}

/// In valid UTF-8 a character starts at a byte below 0x80 and ends right after it.
pub proof fn lemma_boundaries_of_ascii(bytes: Seq<u8>, at: int)
    requires
        valid_utf8(bytes),
        0 <= at < bytes.len(),
        bytes[at] < 0x80,
    ensures
        is_char_boundary(bytes, at),
        is_char_boundary(bytes, at + 1),
    decreases bytes.len(),
{
    is_char_boundary_iff_not_is_continuation_byte(bytes, at);
    let width = length_of_first_scalar(bytes);
    let rest = pop_first_scalar(bytes);
    reveal_with_fuel(is_char_boundary, 2);
    if at < width {
        assert(at == 0);
    } else {
        assert(rest[at - width] == bytes[at]);
        lemma_boundaries_of_ascii(rest, at - width);
    }
}

/// The bytes of two texts, one after the other, are the bytes of the joined text.
pub proof fn lemma_encode_concat(a: Seq<char>, b: Seq<char>)
    ensures
        encode_utf8(a + b) == encode_utf8(a) + encode_utf8(b),
    decreases a.len(),
{
    if a.len() == 0 {
        assert(a + b =~= b);
        assert(encode_utf8(a) + encode_utf8(b) =~= encode_utf8(b));
    } else {
        lemma_encode_concat(a.drop_first(), b);
        assert((a + b).drop_first() =~= a.drop_first() + b);
        assert(encode_utf8(a + b) =~= encode_utf8(a) + encode_utf8(b));
    }
}

/// Two texts with the same bytes are the same text.
pub proof fn lemma_encode_injective(a: Seq<char>, b: Seq<char>)
    requires
        encode_utf8(a) == encode_utf8(b),
    ensures
        a == b,
{
    encode_utf8_decode_utf8(a);
    encode_utf8_decode_utf8(b);
}

/// No character stands before the first one.
proof fn lemma_char_floor(c: char)
    ensures
        '\0' <= c,
{
}

/// A text of one ASCII character is one byte.
pub proof fn lemma_encode_ascii_char(text: Seq<char>)
    requires
        text.len() == 1,
        text[0] <= '\u{7f}',
    ensures
        encode_utf8(text) == seq![text[0] as u8],
{
    assert(is_ascii_chars(text)) by {
        assert forall|i: int| 0 <= i < text.len() implies '\0' <= #[trigger] text[i]
            <= '\u{7f}' by {
            assert(text[i] == text[0]);
            lemma_char_floor(text[0]);
        }
    }
    is_ascii_chars_encode_utf8(text);
    assert(encode_utf8(text) =~= seq![text[0] as u8]);
}

/// The text of one decimal digit.
pub(crate) fn digit_text(digit: usize) -> (text: &'static str)
    requires
        digit < 10,
    ensures
        encode_utf8(text@) == seq![(0x30 + digit) as u8],
{
    let text = match digit {
        0 => "0",
        1 => "1",
        2 => "2",
        3 => "3",
        4 => "4",
        5 => "5",
        6 => "6",
        7 => "7",
        8 => "8",
        _ => "9",
    };
    proof {
        reveal_strlit("0");
        reveal_strlit("1");
        reveal_strlit("2");
        reveal_strlit("3");
        reveal_strlit("4");
        reveal_strlit("5");
        reveal_strlit("6");
        reveal_strlit("7");
        reveal_strlit("8");
        reveal_strlit("9");
        lemma_encode_ascii_char(text@);
    }
    text
}

/// Cuts `text` around the byte at `at`, which is below 0x80: what stands before that
/// byte, and what stands after it.
pub(crate) fn cut_around<'a>(text: &'a str, at: usize) -> (parts: (&'a str, &'a str))
    requires
        at < encode_utf8(text@).len(),
        encode_utf8(text@)[at as int] < 0x80,
    ensures
        encode_utf8(parts.0@) == encode_utf8(text@).subrange(0, at as int),
        encode_utf8(parts.1@) == encode_utf8(text@).subrange(
            at + 1,
            encode_utf8(text@).len() as int,
        ),
{
    proof {
        encode_utf8_valid_utf8(text@);
        lemma_boundaries_of_ascii(encode_utf8(text@), at as int);
    }
    let (before, rest) = text.split_at(at);
    proof {
        encode_utf8_valid_utf8(rest@);
        lemma_boundaries_of_ascii(encode_utf8(rest@), 0);
    }
    let (_, after) = rest.split_at(1);
    assert(encode_utf8(after@) =~= encode_utf8(text@).subrange(
        at + 1,
        encode_utf8(text@).len() as int,
    ));
    (before, after)
}

/// Appends `more` to `out`.
pub(crate) fn append_text(out: &mut String, more: &str)
    ensures
        encode_utf8(final(out)@) == encode_utf8(old(out)@) + encode_utf8(more@),
{
    proof {
        lemma_encode_concat(out@, more@);
    }
    out.append(more);
}

} // verus!
