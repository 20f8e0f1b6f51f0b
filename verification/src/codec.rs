//! The record format: a name and a ciphertext on one line.
//!
//! A record is written as `{N}name:ciphertext`, where `N` is the length of the
//! name in bytes, in decimal. The name is found by counting, never by looking
//! for the delimiter, so a name or a ciphertext may hold any byte.

use vstd::prelude::*;
use vstd::string::*;
use vstd::utf8::*;
use crate::text::{append_text, cut_around, digit_text, find_byte, find_from,
    lemma_encode_ascii_char, lemma_encode_injective, lemma_find_byte, lemma_find_byte_is};

verus! {

/// `{`, which opens the length of the name.
pub const OPENING: u8 = 0x7b;

/// `}`, which closes the length of the name.
pub const CLOSING: u8 = 0x7d;

/// `:`, which stands between the name and the ciphertext.
pub const DELIMITER: u8 = 0x3a;

/// Whether `byte` is one of `0` to `9`.
pub open spec fn is_digit(byte: u8) -> bool {
    0x30 <= byte <= 0x39
}

/// Whether every byte of `bytes` is a decimal digit.
pub open spec fn all_digits(bytes: Seq<u8>) -> bool {
    forall|i: int| 0 <= i < bytes.len() ==> is_digit(#[trigger] bytes[i])
}

/// The decimal digits of `n`, without leading zeros.
pub open spec fn decimal(n: nat) -> Seq<u8>
    decreases n,
{
    if n < 10 {
        seq![(0x30 + n) as u8]
    } else {
        decimal(n / 10).push((0x30 + n % 10) as u8)
    }
}

/// The number that the decimal digits `digits` stand for; leading zeros count for nothing.
pub open spec fn number_of(digits: Seq<u8>) -> nat
    decreases digits.len(),
{
    if digits.len() == 0 {
        0
    } else {
        number_of(digits.drop_last()) * 10 + (digits.last() - 0x30) as nat
    }
}

/// The line that holds `name` and `ciphertext`.
pub open spec fn encoded(name: Seq<u8>, ciphertext: Seq<u8>) -> Seq<u8> {
    seq![OPENING] + decimal(name.len()) + seq![CLOSING] + name + seq![DELIMITER] + ciphertext
}

/// The name and the ciphertext that `line` holds, or `None` where it is no record.
///
/// A record starts with `{`; up to the first `}` stand one or more decimal
/// digits, which give the length of the name; the name follows the `}`, the
/// delimiter follows the name, and the rest of the line is the ciphertext.
pub open spec fn decoded(line: Seq<u8>) -> Option<(Seq<u8>, Seq<u8>)> {
    let close = find_byte(line, CLOSING);
    let digits = line.subrange(1, close);
    let start = close + 1;
    let end = start + number_of(digits);
    if line.len() > 0 && line[0] == OPENING && close < line.len() && digits.len() > 0
        && all_digits(digits) && end < line.len() && line[end] == DELIMITER {
        Some((line.subrange(start, end), line.subrange(end + 1, line.len() as int)))
    } else {
        None
    }
}

/// The digits of a number are digits, and stand for that number.
pub proof fn lemma_decimal(n: nat)
    ensures
        decimal(n).len() > 0,
        all_digits(decimal(n)),
        number_of(decimal(n)) == n,
    decreases n,
{
    if n < 10 {
        assert(decimal(n).drop_last() =~= Seq::<u8>::empty());
        assert(number_of(decimal(n).drop_last()) == 0);
        assert(decimal(n).last() == 0x30 + n);
    } else {
        lemma_decimal(n / 10);
        assert(decimal(n).drop_last() =~= decimal(n / 10));
        assert(decimal(n).last() == 0x30 + n % 10);
    }
}

/// The first digits of a number stand for no more than all of them.
pub proof fn lemma_number_of_grows(digits: Seq<u8>, k: int)
    requires
        all_digits(digits),
        0 <= k <= digits.len(),
    ensures
        number_of(digits.take(k)) <= number_of(digits),
    decreases digits.len(),
{
    if k == digits.len() {
        assert(digits.take(k) =~= digits);
    } else {
        let shorter = digits.drop_last();
        assert(shorter.take(k) =~= digits.take(k));
        lemma_number_of_grows(shorter, k);
        assert(is_digit(digits.last()));
    }
}

/// Decoding the line of a record gives the record back, whatever bytes the name
/// and the ciphertext hold.
pub proof fn law_decode_inverts_encode(name: Seq<u8>, ciphertext: Seq<u8>)
    ensures
        decoded(encoded(name, ciphertext)) == Some((name, ciphertext)),
{
    let digits = decimal(name.len());
    let line = encoded(name, ciphertext);
    let close: int = 1 + digits.len() as int;
    lemma_decimal(name.len());
    assert forall|j: int| 0 <= j < close implies line[j] != CLOSING by {
        if j > 0 {
            assert(line[j] == digits[j - 1]);
            assert(is_digit(digits[j - 1]));
        }
    }
    assert(line[close] == CLOSING);
    lemma_find_byte_is(line, CLOSING, close);
    assert(line.subrange(1, close) =~= digits);
    let start: int = close + 1;
    let end: int = start + name.len();
    assert(line[end] == DELIMITER);
    assert(line.subrange(start, end) =~= name);
    assert(line.subrange(end + 1, line.len() as int) =~= ciphertext);
}

/// What is read from the line that was written of a name and a ciphertext are
/// that name and that ciphertext, character for character.
pub proof fn law_read_inverts_write(
    name: Seq<char>,
    ciphertext: Seq<char>,
    read_name: Seq<char>,
    read_ciphertext: Seq<char>,
)
    requires
        decoded(encoded(encode_utf8(name), encode_utf8(ciphertext))) == Some(
            (encode_utf8(read_name), encode_utf8(read_ciphertext)),
        ),
    ensures
        read_name == name,
        read_ciphertext == ciphertext,
{
    law_decode_inverts_encode(encode_utf8(name), encode_utf8(ciphertext));
    lemma_encode_injective(read_name, name);
    lemma_encode_injective(read_ciphertext, ciphertext);
}

/// Reads the decimal number that stands in `bytes` from `from` up to `to`, where
/// it is no more than `limit`.
fn read_length(bytes: &[u8], from: usize, to: usize, limit: usize) -> (length: Option<usize>)
    requires
        from <= to <= bytes@.len(),
    ensures
        ({
            let digits = bytes@.subrange(from as int, to as int);
            let fits = digits.len() > 0 && all_digits(digits) && number_of(digits) <= limit;
            match length {
                Some(n) => fits && n == number_of(digits),
                None => !fits,
            }
        }),
{
    if from == to {
        return None;
    }
    let ghost digits = bytes@.subrange(from as int, to as int);
    let mut n: usize = 0;
    let mut i: usize = from;
    while i < to
        invariant
            from <= i <= to <= bytes@.len(),
            digits == bytes@.subrange(from as int, to as int),
            all_digits(digits.take(i - from)),
            n == number_of(digits.take(i - from)),
            n <= limit,
        decreases to - i,
    {
        let byte = bytes[i];
        if byte < 0x30 || byte > 0x39 {
            assert(digits[i - from] == byte);
            return None;
        }
        let digit: usize = (byte - 0x30) as usize;
        let ghost seen = digits.take(i - from + 1);
        proof {
            assert(seen.drop_last() =~= digits.take(i - from));
            assert(seen.last() == byte);
            assert forall|j: int| 0 <= j < seen.len() implies is_digit(#[trigger] seen[j]) by {
                if j < i - from {
                    assert(seen[j] == digits.take(i - from)[j]);
                }
            }
        }
        let next = match n.checked_mul(10) {
            Some(tens) => tens.checked_add(digit),
            None => None,
        };
        let fits = match next {
            Some(value) => value <= limit,
            None => false,
        };
        if !fits {
            proof {
                if all_digits(digits) {
                    lemma_number_of_grows(digits, i - from + 1);
                }
            }
            return None;
        }
        n = next.unwrap();
        i += 1;
    }
    assert(digits.take(to - from) =~= digits);
    Some(n)
}

/// Decodes one line of a store: the name and the ciphertext that it holds, or
/// `None` where the line is no record.
pub fn read_line<'a>(line: &'a str) -> (record: Option<(&'a str, &'a str)>)
    ensures
        match record {
            Some((name, ciphertext)) => decoded(encode_utf8(line@)) == Some(
                (encode_utf8(name@), encode_utf8(ciphertext@)),
            ),
            None => decoded(encode_utf8(line@)) is None,
        },
{
    let bytes = line.as_bytes();
    if bytes.len() == 0 || bytes[0] != OPENING {
        return None;
    }
    let close = find_from(bytes, 0, CLOSING);
    proof {
        assert(bytes@.skip(0) =~= bytes@);
        lemma_find_byte(bytes@, CLOSING);
    }
    if close >= bytes.len() - 1 {
        return None;
    }
    let start = close + 1;
    let length = match read_length(bytes, 1, close, bytes.len() - start - 1) {
        Some(length) => length,
        None => { return None; },
    };
    let end = start + length;
    if bytes[end] != DELIMITER {
        return None;
    }
    let (_, rest) = cut_around(line, close);
    let (name, ciphertext) = cut_around(rest, length);
    proof {
        let whole = encode_utf8(line@);
        assert(encode_utf8(name@) =~= whole.subrange(start as int, end as int));
        assert(encode_utf8(ciphertext@) =~= whole.subrange(end + 1, whole.len() as int));
    }
    Some((name, ciphertext))
}

/// Appends the decimal digits of `n` to `out`.
fn append_decimal(out: &mut String, n: usize)
    ensures
        encode_utf8(final(out)@) == encode_utf8(old(out)@) + decimal(n as nat),
    decreases n,
{
    if n >= 10 {
        append_decimal(out, n / 10);
    }
    append_text(out, digit_text(n % 10));
    assert(encode_utf8(out@) =~= encode_utf8(old(out)@) + decimal(n as nat));
}

/// Encodes one record: the line that holds `name` and `ciphertext`, from which
/// `read_line` reads them again.
pub fn encode_record(name: &str, ciphertext: &str) -> (line: String)
    ensures
        encode_utf8(line@) == encoded(encode_utf8(name@), encode_utf8(ciphertext@)),
        decoded(encode_utf8(line@)) == Some((encode_utf8(name@), encode_utf8(ciphertext@))),
{
    let mut line = String::new();
    proof {
        reveal_strlit("{");
        reveal_strlit("}");
        reveal_strlit(":");
        lemma_encode_ascii_char("{"@);
        lemma_encode_ascii_char("}"@);
        lemma_encode_ascii_char(":"@);
        assert(encode_utf8("{"@) == seq![OPENING]);
        assert(encode_utf8("}"@) == seq![CLOSING]);
        assert(encode_utf8(":"@) == seq![DELIMITER]);
        assert(encode_utf8(line@) =~= Seq::<u8>::empty());
    }
    append_text(&mut line, "{");
    append_decimal(&mut line, name.as_bytes().len());
    append_text(&mut line, "}");
    append_text(&mut line, name);
    append_text(&mut line, ":");
    append_text(&mut line, ciphertext);
    proof {
        assert(encode_utf8(line@) =~= encoded(encode_utf8(name@), encode_utf8(ciphertext@)));
        law_decode_inverts_encode(encode_utf8(name@), encode_utf8(ciphertext@));
    }
    line
}

} // verus!
