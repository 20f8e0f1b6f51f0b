//! What holds of a store from one operation to the next.
//!
//! The operations are total: they work on any text. The laws here speak of
//! texts that are stores: those that the operations themselves produce, from
//! the empty store on.

use vstd::prelude::*;
use crate::codec::{decoded, encoded, is_digit, law_decode_inverts_encode, CLOSING};
use crate::encrypter::is_ciphertext;
use crate::lines::{is_plain, law_lines_of_rendered, lemma_lines_of_appended, lines_of, rendered,
    NEWLINE};
use crate::model::{all_records, all_valid_records, answer, carries, count, has_distinct_names,
    is_secret_name, is_store, is_valid_record, searched, without, Search};
use crate::text::{find_byte, lemma_find_byte};

verus! {

/// A search that has come to something on the first `k` lines comes to the same
/// on all of them.
pub proof fn lemma_searched_settles(lines: Seq<Seq<u8>>, name: Seq<u8>, k: int)
    requires
        0 <= k <= lines.len(),
        !(searched(lines.take(k), name) is Absent),
    ensures
        searched(lines, name) == searched(lines.take(k), name),
    decreases lines.len(),
{
    if k == lines.len() {
        assert(lines.take(k) =~= lines);
    } else {
        assert(lines.drop_last().take(k) =~= lines.take(k));
        lemma_searched_settles(lines.drop_last(), name, k);
    }
}

/// A record that can stand in a store comes back from a written store as it went in.
pub proof fn lemma_valid_record_is_plain(line: Seq<u8>)
    requires
        is_valid_record(line),
    ensures
        is_plain(line),
{
    lemma_find_byte(line, CLOSING);
    let record = decoded(line).unwrap();
    let close = find_byte(line, CLOSING);
    let digits = line.subrange(1, close);
    let start = close + 1;
    let end = start + record.0.len();
    assert forall|i: int| 0 <= i < line.len() implies #[trigger] line[i] != NEWLINE by {
        if 1 <= i < close {
            assert(is_digit(digits[i - 1]));
        } else if start <= i < end {
            assert(line[i] == record.0[i - start]);
        } else if end < i {
            assert(line[i] == record.1[i - end - 1]);
        }
    }
    if end < line.len() - 1 {
        assert(line.last() == record.1[line.len() - 1 - end - 1]);
    }
}

/// The line of a secret name and a ciphertext is a record that can stand in a store.
pub proof fn lemma_encoded_is_valid_record(name: Seq<u8>, ciphertext: Seq<u8>)
    requires
        is_secret_name(name),
        is_ciphertext(ciphertext),
    ensures
        is_valid_record(encoded(name, ciphertext)),
        carries(encoded(name, ciphertext), name),
        answer(encoded(name, ciphertext), name) == Search::Found(ciphertext),
{
    law_decode_inverts_encode(name, ciphertext);
}

/// A search starts at the top: what the first line says counts, and the lines
/// after it only where it says nothing.
pub proof fn law_search_starts_at_the_top(first: Seq<u8>, rest: Seq<Seq<u8>>, name: Seq<u8>)
    ensures
        searched(seq![first] + rest, name) == match answer(first, name) {
            Search::Absent => searched(rest, name),
            settled => settled,
        },
    decreases rest.len(),
{
    let lines = seq![first] + rest;
    if rest.len() == 0 {
        assert(lines.drop_last() =~= Seq::<Seq<u8>>::empty());
        assert(searched(lines.drop_last(), name) is Absent);
    } else {
        law_search_starts_at_the_top(first, rest.drop_last(), name);
        assert(lines.drop_last() =~= seq![first] + rest.drop_last());
        assert(lines.last() == rest.last());
    }
}

/// A search finds nothing exactly where every line is a record and none has the name.
pub proof fn lemma_absent_is_uncounted(lines: Seq<Seq<u8>>, name: Seq<u8>)
    ensures
        searched(lines, name) is Absent <==> all_records(lines) && count(lines, name) == 0,
    decreases lines.len(),
{
    if lines.len() > 0 {
        let before = lines.drop_last();
        lemma_absent_is_uncounted(before, name);
        if all_records(lines) {
            assert forall|i: int| 0 <= i < before.len() implies decoded(#[trigger] before[i])
                is Some by {
                assert(before[i] == lines[i]);
            }
            assert(decoded(lines[lines.len() - 1]) is Some);
        }
        if all_records(before) && decoded(lines.last()) is Some {
            assert forall|i: int| 0 <= i < lines.len() implies decoded(#[trigger] lines[i])
                is Some by {
                if i < before.len() {
                    assert(before[i] == lines[i]);
                }
            }
        }
    }
}

/// What is left without the records of a name are lines that were there.
pub proof fn lemma_without_keeps_valid(lines: Seq<Seq<u8>>, name: Seq<u8>)
    requires
        all_valid_records(lines),
    ensures
        all_valid_records(without(lines, name)),
    decreases lines.len(),
{
    if lines.len() > 0 {
        let before = lines.drop_last();
        assert forall|i: int| 0 <= i < before.len() implies is_valid_record(
            #[trigger] before[i],
        ) by {
            assert(before[i] == lines[i]);
        }
        lemma_without_keeps_valid(before, name);
        assert(is_valid_record(lines[lines.len() - 1]));
    }
}

/// Without the records of a name, that name has none, and every other name has
/// as many as before.
pub proof fn lemma_without_counts(lines: Seq<Seq<u8>>, name: Seq<u8>, other: Seq<u8>)
    ensures
        count(without(lines, name), other) == if other == name {
            0
        } else {
            count(lines, other)
        },
    decreases lines.len(),
{
    if lines.len() > 0 {
        lemma_without_counts(lines.drop_last(), name, other);
        if !carries(lines.last(), name) {
            let kept = without(lines.drop_last(), name);
            assert(kept.push(lines.last()).drop_last() =~= kept);
        }
    }
}

/// Where a name has no record, nothing is taken out with it.
pub proof fn lemma_without_nothing(lines: Seq<Seq<u8>>, name: Seq<u8>)
    requires
        count(lines, name) == 0,
    ensures
        without(lines, name) == lines,
    decreases lines.len(),
{
    if lines.len() > 0 {
        lemma_without_nothing(lines.drop_last(), name);
        assert(lines.drop_last().push(lines.last()) =~= lines);
    }
}

/// A search for one name comes to the same with and without the records of
/// another name.
pub proof fn law_other_names_untouched(lines: Seq<Seq<u8>>, name: Seq<u8>, other: Seq<u8>)
    requires
        other != name,
    ensures
        searched(without(lines, name), other) == searched(lines, other),
        count(without(lines, name), other) == count(lines, other),
    decreases lines.len(),
{
    lemma_without_counts(lines, name, other);
    if lines.len() > 0 {
        law_other_names_untouched(lines.drop_last(), name, other);
        if !carries(lines.last(), name) {
            let kept = without(lines.drop_last(), name);
            assert(kept.push(lines.last()).drop_last() =~= kept);
        }
    }
}

/// Records that can stand in a store are read back from the text that is
/// written of them, and that text is a store.
pub proof fn lemma_valid_records_come_back(lines: Seq<Seq<u8>>)
    requires
        all_valid_records(lines),
    ensures
        lines_of(rendered(lines)) == lines,
        is_store(rendered(lines)),
{
    assert forall|i: int| 0 <= i < lines.len() implies is_plain(#[trigger] lines[i]) by {
        lemma_valid_record_is_plain(lines[i]);
    }
    law_lines_of_rendered(lines);
}

/// After a secret was added under a name that the store did not have, the
/// store is a store still, with the new record as its last line; a search for
/// the name finds that record, so that the name cannot be added again; and
/// names stay distinct where they were.
pub proof fn law_add_then_found(store: Seq<u8>, name: Seq<u8>, ciphertext: Seq<u8>)
    requires
        is_store(store),
        is_secret_name(name),
        is_ciphertext(ciphertext),
        searched(lines_of(store), name) is Absent,
    ensures
        ({
            let after = store + encoded(name, ciphertext) + seq![NEWLINE];
            &&& is_store(after)
            &&& lines_of(after) == lines_of(store).push(encoded(name, ciphertext))
            &&& searched(lines_of(after), name) == Search::Found(ciphertext)
            &&& count(lines_of(after), name) == 1
            &&& has_distinct_names(lines_of(store)) ==> has_distinct_names(lines_of(after))
        }),
{
    let line = encoded(name, ciphertext);
    let before = lines_of(store);
    let lines = before.push(line);
    lemma_encoded_is_valid_record(name, ciphertext);
    lemma_valid_record_is_plain(line);
    lemma_lines_of_appended(store, line);
    lemma_absent_is_uncounted(before, name);
    assert(lines.drop_last() =~= before);
    assert forall|i: int| 0 <= i < lines.len() implies is_valid_record(#[trigger] lines[i]) by {
        if i < before.len() {
            assert(lines[i] == before[i]);
        }
    }
    if has_distinct_names(before) {
        assert forall|other: Seq<u8>| #[trigger] count(lines, other) <= 1 by {
            assert(count(before, other) <= 1);
        }
    }
}

/// After a secret was set under a name, the store is a store still; it has
/// one record of that name, the new one, which a search for the name finds;
/// every other record stands as it stood, in its order; and names stay
/// distinct where they were.
pub proof fn law_set_leaves_one_record(store: Seq<u8>, name: Seq<u8>, ciphertext: Seq<u8>)
    requires
        is_store(store),
        is_secret_name(name),
        is_ciphertext(ciphertext),
    ensures
        ({
            let after = rendered(without(lines_of(store), name).push(encoded(name, ciphertext)));
            &&& is_store(after)
            &&& lines_of(after) == without(lines_of(store), name).push(encoded(name, ciphertext))
            &&& searched(lines_of(after), name) == Search::Found(ciphertext)
            &&& count(lines_of(after), name) == 1
            &&& without(lines_of(after), name) == without(lines_of(store), name)
            &&& has_distinct_names(lines_of(store)) ==> has_distinct_names(lines_of(after))
        }),
{
    let line = encoded(name, ciphertext);
    let before = lines_of(store);
    let kept = without(before, name);
    let lines = kept.push(line);
    lemma_encoded_is_valid_record(name, ciphertext);
    lemma_without_keeps_valid(before, name);
    assert forall|i: int| 0 <= i < lines.len() implies is_valid_record(#[trigger] lines[i]) by {
        if i < kept.len() {
            assert(lines[i] == kept[i]);
        }
    }
    lemma_valid_records_come_back(lines);
    assert(lines.drop_last() =~= kept);
    lemma_without_counts(before, name, name);
    assert(all_records(kept)) by {
        assert forall|i: int| 0 <= i < kept.len() implies decoded(#[trigger] kept[i]) is Some by {
            assert(is_valid_record(kept[i]));
        }
    }
    lemma_absent_is_uncounted(kept, name);
    lemma_without_nothing(kept, name);
    assert forall|other: Seq<u8>| other != name implies #[trigger] count(lines, other) == count(
        before,
        other,
    ) by {
        lemma_without_counts(before, name, other);
    }
    if has_distinct_names(before) {
        assert forall|other: Seq<u8>| #[trigger] count(lines, other) <= 1 by {
            assert(count(before, other) <= 1);
        }
    }
}

/// After the records of a name were deleted, the store is a store still; it
/// holds the other records, as they stood and in their order; a search for
/// the name finds nothing; and names stay distinct where they were.
pub proof fn law_delete_removes_the_name(store: Seq<u8>, name: Seq<u8>)
    requires
        is_store(store),
    ensures
        ({
            let after = rendered(without(lines_of(store), name));
            &&& is_store(after)
            &&& lines_of(after) == without(lines_of(store), name)
            &&& searched(lines_of(after), name) is Absent
            &&& count(lines_of(after), name) == 0
            &&& has_distinct_names(lines_of(store)) ==> has_distinct_names(lines_of(after))
        }),
{
    let before = lines_of(store);
    let kept = without(before, name);
    lemma_without_keeps_valid(before, name);
    lemma_valid_records_come_back(kept);
    lemma_without_counts(before, name, name);
    assert(all_records(kept)) by {
        assert forall|i: int| 0 <= i < kept.len() implies decoded(#[trigger] kept[i]) is Some by {
            assert(is_valid_record(kept[i]));
        }
    }
    lemma_absent_is_uncounted(kept, name);
    if has_distinct_names(before) {
        assert forall|other: Seq<u8>| #[trigger] count(kept, other) <= 1 by {
            lemma_without_counts(before, name, other);
            assert(count(before, other) <= 1);
        }
    }
}

/// The empty text is a store.
pub proof fn law_empty_is_store()
    ensures
        is_store(Seq::<u8>::empty()),
        has_distinct_names(lines_of(Seq::<u8>::empty())),
{
}

} // verus!
