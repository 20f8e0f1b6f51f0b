//! The lines of a store, and the text of a list of lines.
//!
//! A store is read line by line. A line ends at a newline, which is no part of
//! it, nor is a carriage return right before that newline. What follows the
//! last newline is a line too, unless nothing follows it. A store is written
//! with one newline after every line.

use vstd::prelude::*;
use vstd::string::*;
use vstd::utf8::*;
use crate::text::{append_text, cut_around, find_byte, find_from, lemma_encode_ascii_char,
    lemma_find_byte, lemma_find_byte_is};

verus! {

/// The byte that ends a line.
pub const NEWLINE: u8 = 0x0a;

/// The byte that is dropped where it stands right before a newline.
pub const CARRIAGE_RETURN: u8 = 0x0d;

/// `line` without the carriage return at its end, where it has one.
pub open spec fn without_return(line: Seq<u8>) -> Seq<u8> {
    if line.len() > 0 && line.last() == CARRIAGE_RETURN {
        line.drop_last()
    } else {
        line
    }
}

/// The lines of `text`, from the top.
pub open spec fn lines_of(text: Seq<u8>) -> Seq<Seq<u8>>
    decreases text.len(),
{
    let end = find_byte(text, NEWLINE);
    if text.len() == 0 {
        Seq::empty()
    } else if 0 <= end < text.len() {
        seq![without_return(text.take(end))] + lines_of(text.skip(end + 1))
    } else {
        seq![text]
    }
}

/// The text of `lines`: each line, and a newline after it.
pub open spec fn rendered(lines: Seq<Seq<u8>>) -> Seq<u8>
    decreases lines.len(),
{
    if lines.len() == 0 {
        Seq::empty()
    } else {
        rendered(lines.drop_last()) + lines.last() + seq![NEWLINE]
    }
}

/// Whether `text` is empty or ends with a newline, so that what is appended to it
/// starts a line.
pub open spec fn is_terminated(text: Seq<u8>) -> bool {
    text.len() == 0 || text.last() == NEWLINE
}

/// Whether `line` comes back from a written store as it went in: it holds no
/// newline and does not end with a carriage return.
pub open spec fn is_plain(line: Seq<u8>) -> bool {
    &&& forall|i: int| 0 <= i < line.len() ==> #[trigger] line[i] != NEWLINE
    &&& without_return(line) == line
}

/// Whether every line of `lines` is plain.
pub open spec fn all_plain(lines: Seq<Seq<u8>>) -> bool {
    forall|i: int| 0 <= i < lines.len() ==> is_plain(#[trigger] lines[i])
}

/// The bytes of each of `lines`.
pub open spec fn bytes_of(lines: Seq<&str>) -> Seq<Seq<u8>> {
    Seq::new(lines.len(), |i: int| encode_utf8(lines[i]@))
}

/// A text that starts with a line and its newline has that line first, and then
/// the lines of the rest.
pub proof fn lemma_lines_of_first(line: Seq<u8>, rest: Seq<u8>)
    requires
        forall|i: int| 0 <= i < line.len() ==> #[trigger] line[i] != NEWLINE,
    ensures
        lines_of(line + seq![NEWLINE] + rest) == seq![without_return(line)] + lines_of(rest),
{
    let text = line + seq![NEWLINE] + rest;
    let end = line.len() as int;
    assert(text[end] == NEWLINE);
    assert forall|j: int| 0 <= j < end implies text[j] != NEWLINE by {
        assert(text[j] == line[j]);
    }
    lemma_find_byte_is(text, NEWLINE, end);
    assert(text.take(end) =~= line);
    assert(text.skip(end + 1) =~= rest);
}

/// The text of a list of lines starts with the first line and its newline.
pub proof fn lemma_rendered_first(line: Seq<u8>, lines: Seq<Seq<u8>>)
    ensures
        rendered(seq![line] + lines) == line + seq![NEWLINE] + rendered(lines),
    decreases lines.len(),
{
    let all = seq![line] + lines;
    if lines.len() == 0 {
        assert(all.drop_last() =~= Seq::<Seq<u8>>::empty());
        assert(rendered(all.drop_last()) =~= Seq::<u8>::empty());
        assert(rendered(all) =~= line + seq![NEWLINE] + rendered(lines));
    } else {
        lemma_rendered_first(line, lines.drop_last());
        assert(all.drop_last() =~= seq![line] + lines.drop_last());
        assert(all.last() == lines.last());
        assert(rendered(all) =~= line + seq![NEWLINE] + rendered(lines));
    }
}

/// A store that is written and read again holds the lines that were written,
/// where they are plain.
pub proof fn law_lines_of_rendered(lines: Seq<Seq<u8>>)
    requires
        all_plain(lines),
    ensures
        lines_of(rendered(lines)) == lines,
    decreases lines.len(),
{
    if lines.len() == 0 {
    } else {
        let first = lines[0];
        let rest = lines.drop_first();
        assert(lines =~= seq![first] + rest);
        assert(is_plain(first));
        assert forall|i: int| 0 <= i < rest.len() implies is_plain(#[trigger] rest[i]) by {
            assert(rest[i] == lines[i + 1]);
        }
        lemma_rendered_first(first, rest);
        lemma_lines_of_first(first, rendered(rest));
        law_lines_of_rendered(rest);
    }
}

/// A plain line that is appended to a terminated text, with its newline, is
/// the last line of the new text, and the lines before it are those of the old.
pub proof fn lemma_lines_of_appended(text: Seq<u8>, line: Seq<u8>)
    requires
        is_terminated(text),
        is_plain(line),
    ensures
        lines_of(text + line + seq![NEWLINE]) == lines_of(text).push(line),
    decreases text.len(),
{
    if text.len() == 0 {
        assert(text + line + seq![NEWLINE] =~= line + seq![NEWLINE] + Seq::<u8>::empty());
        lemma_lines_of_first(line, Seq::<u8>::empty());
        assert(lines_of(text).push(line) =~= seq![line] + lines_of(Seq::<u8>::empty()));
    } else {
        lemma_find_byte(text, NEWLINE);
        let end = find_byte(text, NEWLINE);
        assert(end < text.len()) by {
            if end == text.len() {
                assert(text[text.len() - 1] != NEWLINE);
            }
        }
        let first = text.take(end);
        let rest = text.skip(end + 1);
        assert(is_terminated(rest)) by {
            if rest.len() > 0 {
                assert(rest.last() == text.last());
            }
        }
        lemma_lines_of_appended(rest, line);
        assert(text + line + seq![NEWLINE] =~= first + seq![NEWLINE] + (rest + line + seq![
            NEWLINE,
        ]));
        lemma_lines_of_first(first, rest + line + seq![NEWLINE]);
        assert(lines_of(text).push(line) =~= seq![without_return(first)] + lines_of(rest).push(
            line,
        ));
    }
}

/// `line` without the carriage return at its end, where it has one.
fn strip_return<'a>(line: &'a str) -> (stripped: &'a str)
    ensures
        encode_utf8(stripped@) == without_return(encode_utf8(line@)),
{
    let bytes = line.as_bytes();
    let len = bytes.len();
    if len > 0 && bytes[len - 1] == CARRIAGE_RETURN {
        let (stripped, _) = cut_around(line, len - 1);
        assert(encode_utf8(stripped@) =~= encode_utf8(line@).drop_last());
        stripped
    } else {
        line
    }
}

/// Splits the text of a store into its lines.
pub fn get_lines<'a>(text: &'a str) -> (lines: Vec<&'a str>)
    ensures
        bytes_of(lines@) == lines_of(encode_utf8(text@)),
{
    let mut lines: Vec<&'a str> = Vec::new();
    let mut rest: &'a str = text;
    proof {
        assert(bytes_of(lines@) + lines_of(encode_utf8(rest@)) =~= lines_of(encode_utf8(text@)));
    }
    loop
        invariant_except_break
            bytes_of(lines@) + lines_of(encode_utf8(rest@)) == lines_of(encode_utf8(text@)),
        ensures
            bytes_of(lines@) == lines_of(encode_utf8(text@)),
        decreases encode_utf8(rest@).len(),
    {
        let bytes = rest.as_bytes();
        let ghost before = lines@;
        let ghost rest_bytes = encode_utf8(rest@);
        if bytes.len() == 0 {
            assert(bytes_of(lines@) + lines_of(rest_bytes) =~= bytes_of(lines@));
            break;
        }
        let end = find_from(bytes, 0, NEWLINE);
        proof {
            assert(bytes@.skip(0) =~= bytes@);
            lemma_find_byte(bytes@, NEWLINE);
        }
        if end == bytes.len() {
            lines.push(rest);
            assert(bytes_of(lines@) =~= bytes_of(before) + lines_of(rest_bytes));
            break;
        }
        let (line, tail) = cut_around(rest, end);
        let line = strip_return(line);
        lines.push(line);
        rest = tail;
        proof {
            assert(rest_bytes.take(end as int) =~= rest_bytes.subrange(0, end as int));
            assert(rest_bytes.skip(end + 1) =~= rest_bytes.subrange(
                end + 1,
                rest_bytes.len() as int,
            ));
            assert(bytes_of(lines@) =~= bytes_of(before).push(encode_utf8(line@)));
            assert(bytes_of(lines@) + lines_of(encode_utf8(rest@)) =~= bytes_of(before)
                + lines_of(rest_bytes));
        }
    }
    lines
}

/// Appends `line` and a newline to `out`.
pub(crate) fn append_line(out: &mut String, line: &str)
    ensures
        encode_utf8(final(out)@) == encode_utf8(old(out)@) + encode_utf8(line@) + seq![NEWLINE],
{
    proof {
        reveal_strlit("\n");
        lemma_encode_ascii_char("\n"@);
    }
    append_text(out, line);
    append_text(out, "\n");
}

} // verus!
