//! The text form of keys, values, log records and snapshots.
//!
//! `serde_json` encodes and decodes keys and values; the framing of a record
//! and of a snapshot around them is this module's own.

use crate::lines::{single_line, NEWLINE};
use vstd::prelude::*;

verus! {

#[verifier::external_type_specification]
#[verifier::external_body]
pub struct ExValue(serde_json::Value);

/// The compact JSON text of a value: the bytes that `serde_json::to_vec`
/// writes for it.
pub uninterp spec fn json_text(value: serde_json::Value) -> Seq<u8>;

/// The JSON string literal of a key: the bytes that `serde_json::to_vec`
/// writes for that string.
pub uninterp spec fn key_text(key: Seq<char>) -> Seq<u8>;

/// What `serde_json` reads from `text` as a JSON object with a string under
/// the member `name` and a value under the member `other`: that string and
/// the text of that value, or nothing where `text` is no such object.
pub uninterp spec fn members_of(text: Seq<u8>, name: Seq<char>, other: Seq<char>) -> Option<
    (Seq<char>, Seq<u8>),
>;

/// What one line of a log holds: the key, a string under `key`, and the text
/// of the value under `value`, or nothing where the line is no record.
pub open spec fn record_of(line: Seq<u8>) -> Option<(Seq<char>, Seq<u8>)> {
    members_of(line, "key"@, "value"@)
}

/// What `serde_json` reads from the text of a snapshot: the keys in ascending
/// order, each with the text of its value, or nothing where the text is no
/// JSON object.
pub uninterp spec fn snapshot_of(text: Seq<u8>) -> Option<Seq<(Seq<char>, Seq<u8>)>>;

/// The key and the value text of each entry of `entries`.
pub open spec fn entry_texts(entries: Seq<(String, serde_json::Value)>) -> Seq<(Seq<char>, Seq<u8>)> {
    Seq::new(entries.len(), |i: int| (entries[i].0@, json_text(entries[i].1)))
}

/// `serde_json::to_vec` on a value. Claims that the call succeeds, since the
/// output goes to a vector and no part of a value refuses to be written;
/// that it returns the bytes named `json_text`; and that no newline is among
/// them, since the compact form has no white space and strings are written
/// with their control characters escaped.
#[verifier::external_body]
pub(crate) fn encode_value(value: &serde_json::Value) -> (r: Option<Vec<u8>>)
    ensures
        r is Some,
        r matches Some(text) ==> text@ == json_text(*value),
        r matches Some(text) ==> !text@.contains(NEWLINE),
{
    serde_json::to_vec(value).ok()
}

/// `serde_json::to_vec` on a string. Claims that the call succeeds, since the
/// output goes to a vector; that it returns the bytes named `key_text`; and
/// that no newline is among them, since a string is written with its control
/// characters escaped.
#[verifier::external_body]
pub(crate) fn encode_key(key: &str) -> (r: Option<Vec<u8>>)
    ensures
        r is Some,
        r matches Some(text) ==> text@ == key_text(key@),
        r matches Some(text) ==> !text@.contains(NEWLINE),
{
    serde_json::to_vec(key).ok()
}

/// `serde_json::from_slice` on `text`, read as a JSON object from which
/// `serde_json::Map::remove` takes the members `name` and `other`, the first
/// of them a string. Claims only that the result is the one named
/// `members_of`.
#[verifier::external_body]
pub(crate) fn decode_members(text: &[u8], name: &str, other: &str) -> (r: Option<
    (String, serde_json::Value),
>)
    ensures
        match r {
            Some((found, value)) => members_of(text@, name@, other@) == Some(
                (found@, json_text(value)),
            ),
            None => members_of(text@, name@, other@) is None,
        },
{
    match serde_json::from_slice::<serde_json::Value>(text) {
        Ok(serde_json::Value::Object(mut object)) => match (object.remove(name), object.remove(other)) {
            (Some(serde_json::Value::String(found)), Some(value)) => Some((found, value)),
            _ => None,
        },
        _ => None,
    }
}

/// `serde_json::from_slice` on the text of a snapshot, read as a JSON object,
/// whose entries are handed out in the order of `serde_json::Map`. Claims
/// only that the result is the one named `snapshot_of`.
#[verifier::external_body]
pub(crate) fn decode_snapshot(text: &[u8]) -> (r: Option<Vec<(String, serde_json::Value)>>)
    ensures
        match r {
            Some(entries) => snapshot_of(text@) == Some(entry_texts(entries@)),
            None => snapshot_of(text@) is None,
        },
{
    match serde_json::from_slice::<serde_json::Map<String, serde_json::Value>>(text) {
        Ok(object) => Some(object.into_iter().collect()),
        Err(_) => None,
    }
}

/// `Clone::clone` of `serde_json::Value`: the copy equals the value copied.
pub assume_specification[ <serde_json::Value as Clone>::clone ](value: &serde_json::Value) -> (copy: serde_json::Value)
    ensures
        copy == *value,
;

/// Appends `piece` to `target`.
pub(crate) fn append(target: &mut Vec<u8>, piece: &[u8])
    ensures
        final(target)@ == old(target)@ + piece@,
{
    let mut i: usize = 0;
    while i < piece.len()
        invariant
            i <= piece.len(),
            target@ == old(target)@ + piece@.subrange(0, i as int),
        decreases piece.len() - i,
    {
        target.push(piece[i]);
        i += 1;
        assert(target@ =~= old(target)@ + piece@.subrange(0, i as int));
    }
    assert(piece@.subrange(0, i as int) =~= piece@);
}

/// The bytes `{"key":`, with which a record starts.
pub open spec fn record_head() -> Seq<u8> {
    seq![123u8, 34, 107, 101, 121, 34, 58]
}

/// The bytes `,"value":`, which stand between the key and the value of a record.
pub open spec fn record_middle() -> Seq<u8> {
    seq![44u8, 34, 118, 97, 108, 117, 101, 34, 58]
}

/// The line of a record: a JSON object that holds the text of the key under
/// `key` and the text of the value under `value`, in this order and without
/// white space.
pub open spec fn record_text(key_text: Seq<u8>, value_text: Seq<u8>) -> Seq<u8> {
    record_head() + key_text + record_middle() + value_text + seq![125u8]
}

/// Frames the text of a key and the text of a value as the line of a record.
pub fn frame_record(key_text: &[u8], value_text: &[u8]) -> (line: Vec<u8>)
    ensures
        line@ == record_text(key_text@, value_text@),
{
    let head: [u8; 7] = [123, 34, 107, 101, 121, 34, 58];
    let middle: [u8; 9] = [44, 34, 118, 97, 108, 117, 101, 34, 58];
    let mut line: Vec<u8> = Vec::new();
    append(&mut line, &head);
    assert(line@ =~= record_head());
    append(&mut line, key_text);
    append(&mut line, &middle);
    assert(line@ =~= record_head() + key_text@ + record_middle());
    append(&mut line, value_text);
    line.push(125);
    line
}

/// A record is a single line where the text of its key and the text of its
/// value hold no newline.
pub proof fn lemma_record_is_single_line(key_text: Seq<u8>, value_text: Seq<u8>)
    requires
        !key_text.contains(NEWLINE),
        !value_text.contains(NEWLINE),
    ensures
        single_line(record_text(key_text, value_text)),
{
    let front = record_head() + key_text + record_middle();
    let line = record_text(key_text, value_text);
    assert(line.last() == 125u8);
    if line.contains(NEWLINE) {
        let i = choose|i: int| 0 <= i < line.len() && line[i] == NEWLINE;
        if i < record_head().len() {
            assert(line[i] == record_head()[i]);
        } else if i < record_head().len() + key_text.len() {
            assert(line[i] == key_text[i - record_head().len()]);
            assert(key_text.contains(key_text[i - record_head().len()]));
        } else if i < front.len() {
            assert(line[i] == record_middle()[i - record_head().len() - key_text.len()]);
        } else if i < front.len() + value_text.len() {
            assert(line[i] == value_text[i - front.len()]);
            assert(value_text.contains(value_text[i - front.len()]));
        }
    }
}

/// The line that logs a write of `value` under `key`: always there, and a
/// single line.
pub fn record_line(key: &str, value: &serde_json::Value) -> (line: Option<Vec<u8>>)
    ensures
        line matches Some(bytes) && bytes@ == record_text(key_text(key@), json_text(*value)),
        single_line(record_text(key_text(key@), json_text(*value))),
{
    let key_bytes = match encode_key(key) {
        Some(bytes) => bytes,
        None => { return None; },
    };
    let value_bytes = match encode_value(value) {
        Some(bytes) => bytes,
        None => { return None; },
    };
    proof {
        lemma_record_is_single_line(key_bytes@, value_bytes@);
    }
    Some(frame_record(key_bytes.as_slice(), value_bytes.as_slice()))
}

/// Reads the record that one line of a log holds.
pub fn read_record(line: &[u8]) -> (record: Option<(String, serde_json::Value)>)
    ensures
        match record {
            Some((key, value)) => record_of(line@) == Some((key@, json_text(value))),
            None => record_of(line@) is None,
        },
{
    decode_members(line, "key", "value")
}

/// Whether the record of `key` and of a value of text `text` is read back as
/// written: the line holds that key and a value of that text.
pub open spec fn record_reads_back(key: Seq<char>, text: Seq<u8>) -> bool {
    record_of(record_text(key_text(key), text)) == Some((key, text))
}

/// Whether two byte strings are the same.
pub fn same_bytes(first: &[u8], second: &[u8]) -> (same: bool)
    ensures
        same == (first@ == second@),
{
    if first.len() != second.len() {
        return false;
    }
    let mut i: usize = 0;
    while i < first.len()
        invariant
            i <= first.len(),
            first@.len() == second@.len(),
            forall|j: int| 0 <= j < i ==> first@[j] == second@[j],
        decreases first.len() - i,
    {
        if first[i] != second[i] {
            return false;
        }
        i += 1;
    }
    assert(first@ =~= second@);
    true
}

/// Whether a write of `value` under `key` is read back as written: the
/// record is encoded, read, and its key and the text of its value are
/// compared with what was written.
pub fn reads_back(key: &str, value: &serde_json::Value) -> (ok: bool)
    ensures
        ok == record_reads_back(key@, json_text(*value)),
{
    let line = match record_line(key, value) {
        Some(line) => line,
        None => { return false; },
    };
    let text = match encode_value(value) {
        Some(text) => text,
        None => { return false; },
    };
    match read_record(line.as_slice()) {
        Some((found, read)) => {
            let read_text = match encode_value(&read) {
                Some(text) => text,
                None => { return false; },
            };
            let written = key.to_owned();
            found == written && same_bytes(read_text.as_slice(), text.as_slice())
        },
        None => false,
    }
}

/// The contents of the encoded entries held in `entries`.
pub open spec fn pair_views(entries: Seq<(Vec<u8>, Vec<u8>)>) -> Seq<(Seq<u8>, Seq<u8>)> {
    Seq::new(entries.len(), |i: int| (entries[i].0@, entries[i].1@))
}

/// The members of a JSON object, given by the text of each key and of its
/// value: `key:value`, separated by commas.
pub open spec fn members_text(entries: Seq<(Seq<u8>, Seq<u8>)>) -> Seq<u8>
    decreases entries.len(),
{
    if entries.len() == 0 {
        Seq::empty()
    } else {
        let separator = if entries.len() > 1 {
            seq![44u8]
        } else {
            Seq::empty()
        };
        members_text(entries.drop_last()) + separator + entries.last().0 + seq![58u8]
            + entries.last().1
    }
}

/// The text of a snapshot: one JSON object that holds every entry, in the
/// order given and without white space.
pub open spec fn snapshot_text(entries: Seq<(Seq<u8>, Seq<u8>)>) -> Seq<u8> {
    seq![123u8] + members_text(entries) + seq![125u8]
}

/// Frames encoded keys and values as the text of a snapshot.
pub fn frame_snapshot(entries: &Vec<(Vec<u8>, Vec<u8>)>) -> (text: Vec<u8>)
    ensures
        text@ == snapshot_text(pair_views(entries@)),
{
    let ghost all = pair_views(entries@);
    let mut text: Vec<u8> = Vec::new();
    text.push(123);
    let mut i: usize = 0;
    assert(all.subrange(0, 0) =~= Seq::<(Seq<u8>, Seq<u8>)>::empty());
    while i < entries.len()
        invariant
            i <= entries.len(),
            all == pair_views(entries@),
            text@ == seq![123u8] + members_text(all.subrange(0, i as int)),
        decreases entries.len() - i,
    {
        let ghost before = all.subrange(0, i as int);
        let ghost next = all.subrange(0, i + 1);
        assert(next.drop_last() =~= before);
        assert(next.last() == (entries@[i as int].0@, entries@[i as int].1@));
        if i > 0 {
            text.push(44);
        }
        append(&mut text, entries[i].0.as_slice());
        text.push(58);
        append(&mut text, entries[i].1.as_slice());
        i += 1;
        assert(text@ =~= seq![123u8] + members_text(next));
    }
    assert(all.subrange(0, i as int) =~= all);
    text.push(125);
    text
}

} // verus!
