//! The names of the files that a store keeps in its directory.

use crate::decimal::{
    all_digits, decimal, format_version, is_digit, lemma_decimal_denotes, lemma_decimal_injective,
};
use vstd::prelude::*;
use vstd::string::*;

verus! {

/// The character of a byte of ASCII text.
pub open spec fn ascii_chars(text: Seq<u8>) -> Seq<char> {
    Seq::new(text.len(), |i: int| text[i] as char)
}

/// The path of the file `name` inside `directory`: the two joined by one `/`,
/// which is left out where the directory is empty or already ends in one.
pub open spec fn joined(directory: Seq<char>, name: Seq<char>) -> Seq<char> {
    if directory.len() == 0 || directory.last() == '/' {
        directory + name
    } else {
        directory + seq!['/'] + name
    }
}

/// The path of the snapshot of `version`.
pub open spec fn snapshot_path(directory: Seq<char>, version: u64) -> Seq<char> {
    joined(directory, "snapshot."@ + ascii_chars(decimal(version as nat)))
}

/// The path of the log of `version`.
pub open spec fn log_path(directory: Seq<char>, version: u64) -> Seq<char> {
    joined(directory, "log."@ + ascii_chars(decimal(version as nat)))
}

/// The path of the version pointer.
pub open spec fn version_path(directory: Seq<char>) -> Seq<char> {
    joined(directory, "version"@)
}

/// The path of the file in which a new version pointer is staged.
pub open spec fn temp_version_path(directory: Seq<char>) -> Seq<char> {
    joined(directory, "version.tmp"@)
}

fn digit_str(digit: u8) -> (text: &'static str)
    requires
        is_digit(digit),
    ensures
        text@ == seq![digit as char],
{
    proof {
        reveal_strlit("0");
        reveal_strlit("1");
        reveal_strlit("2");
        reveal_strlit("3");
        reveal_strlit("4");
        reveal_strlit("5");
        reveal_strlit("6");
        reveal_strlit("7");
        reveal_strlit("8");
        reveal_strlit("9");
    }
    let text = if digit == 48 {
        "0"
    } else if digit == 49 {
        "1"
    } else if digit == 50 {
        "2"
    } else if digit == 51 {
        "3"
    } else if digit == 52 {
        "4"
    } else if digit == 53 {
        "5"
    } else if digit == 54 {
        "6"
    } else if digit == 55 {
        "7"
    } else if digit == 56 {
        "8"
    } else {
        "9"
    };
    assert(text@ =~= seq![digit as char]);
    text
}

/// The path of `stem` followed by the numeral of `version`, inside `directory`.
fn numbered_file(directory: &str, stem: &str, version: u64) -> (path: String)
    ensures
        path@ == joined(directory@, stem@ + ascii_chars(decimal(version as nat))),
{
    let mut name = stem.to_owned();
    let digits = format_version(version);
    proof {
        lemma_decimal_denotes(version as nat);
    }
    let mut i: usize = 0;
    while i < digits.len()
        invariant
            i <= digits.len(),
            all_digits(digits@),
            name@ == stem@ + ascii_chars(digits@.subrange(0, i as int)),
        decreases digits.len() - i,
    {
        name.append(digit_str(digits[i]));
        i += 1;
        assert(name@ =~= stem@ + ascii_chars(digits@.subrange(0, i as int)));
    }
    assert(digits@.subrange(0, i as int) =~= digits@);
    join(directory, name.as_str())
}

/// The path of the file `name` inside `directory`.
fn join(directory: &str, name: &str) -> (path: String)
    ensures
        path@ == joined(directory@, name@),
{
    let mut path = directory.to_owned();
    let n = directory.unicode_len();
    if n > 0 && directory.get_char(n - 1) != '/' {
        proof {
            reveal_strlit("/");
        }
        path.append("/");
        assert(path@ =~= directory@ + seq!['/']);
    }
    path.append(name);
    path
}

/// The path of the snapshot of `version` in `directory`.
pub fn snapshot_file(directory: &str, version: u64) -> (path: String)
    ensures
        path@ == snapshot_path(directory@, version),
{
    numbered_file(directory, "snapshot.", version)
}

/// The path of the log of `version` in `directory`.
pub fn log_file(directory: &str, version: u64) -> (path: String)
    ensures
        path@ == log_path(directory@, version),
{
    numbered_file(directory, "log.", version)
}

/// The path of the version pointer in `directory`.
pub fn version_file(directory: &str) -> (path: String)
    ensures
        path@ == version_path(directory@),
{
    join(directory, "version")
}

/// The path of the file in which a new version pointer is staged before it
/// replaces the pointer.
pub fn temp_version_file(directory: &str) -> (path: String)
    ensures
        path@ == temp_version_path(directory@),
{
    join(directory, "version.tmp")
}

/// Two names that give the same path in one directory are the same name.
pub proof fn lemma_joined_injective(directory: Seq<char>, first: Seq<char>, second: Seq<char>)
    requires
        joined(directory, first) == joined(directory, second),
    ensures
        first == second,
{
    let prefix = if directory.len() == 0 || directory.last() == '/' {
        directory
    } else {
        directory + seq!['/']
    };
    assert(joined(directory, first) =~= prefix + first);
    assert(joined(directory, second) =~= prefix + second);
    assert(first =~= (prefix + first).subrange(prefix.len() as int, (prefix + first).len() as int));
    assert(second =~= (prefix + second).subrange(
        prefix.len() as int,
        (prefix + second).len() as int,
    ));
}

/// Two numerals that read the same as text are the same numeral.
proof fn lemma_ascii_chars_injective(first: Seq<u8>, second: Seq<u8>)
    requires
        ascii_chars(first) == ascii_chars(second),
    ensures
        first == second,
{
    assert(ascii_chars(first).len() == first.len());
    assert(ascii_chars(second).len() == second.len());
    assert forall|i: int| 0 <= i < first.len() implies first[i] == second[i] by {
        assert(ascii_chars(first)[i] == first[i] as char);
        assert(ascii_chars(second)[i] == second[i] as char);
    }
    assert(first =~= second);
}

/// The files of a store are distinct: no two versions share a snapshot or a
/// log, and no snapshot, log, pointer or staging file shares its path with
/// a file of another kind.
pub proof fn lemma_files_are_distinct(directory: Seq<char>, a: u64, b: u64)
    ensures
        a != b ==> snapshot_path(directory, a) != snapshot_path(directory, b),
        a != b ==> log_path(directory, a) != log_path(directory, b),
        snapshot_path(directory, a) != log_path(directory, b),
        snapshot_path(directory, a) != version_path(directory),
        snapshot_path(directory, a) != temp_version_path(directory),
        log_path(directory, a) != version_path(directory),
        log_path(directory, a) != temp_version_path(directory),
        version_path(directory) != temp_version_path(directory),
{
    reveal_strlit("snapshot.");
    reveal_strlit("log.");
    reveal_strlit("version");
    reveal_strlit("version.tmp");
    let first = ascii_chars(decimal(a as nat));
    let second = ascii_chars(decimal(b as nat));
    let snapshot = "snapshot."@ + first;
    let log = "log."@ + second;
    let log_a = "log."@ + first;
    assert(snapshot[0] == 's');
    assert(log[0] == 'l');
    assert(log_a[0] == 'l');
    assert("version"@[0] == 'v');
    assert("version.tmp"@[0] == 'v');
    assert("version"@.len() == 7);
    assert("version.tmp"@.len() == 11);
    if snapshot_path(directory, a) == snapshot_path(directory, b) {
        lemma_joined_injective(directory, snapshot, "snapshot."@ + second);
        assert(first =~= snapshot.subrange(9, snapshot.len() as int));
        assert(second =~= ("snapshot."@ + second).subrange(9, 9 + second.len() as int));
        lemma_ascii_chars_injective(decimal(a as nat), decimal(b as nat));
        lemma_decimal_injective(a as nat, b as nat);
    }
    if log_path(directory, a) == log_path(directory, b) {
        lemma_joined_injective(directory, log_a, log);
        assert(first =~= log_a.subrange(4, log_a.len() as int));
        assert(second =~= log.subrange(4, log.len() as int));
        lemma_ascii_chars_injective(decimal(a as nat), decimal(b as nat));
        lemma_decimal_injective(a as nat, b as nat);
    }
    if snapshot_path(directory, a) == log_path(directory, b) {
        lemma_joined_injective(directory, snapshot, log);
    }
    if snapshot_path(directory, a) == version_path(directory) {
        lemma_joined_injective(directory, snapshot, "version"@);
    }
    if snapshot_path(directory, a) == temp_version_path(directory) {
        lemma_joined_injective(directory, snapshot, "version.tmp"@);
    }
    if log_path(directory, a) == version_path(directory) {
        lemma_joined_injective(directory, log_a, "version"@);
    }
    if log_path(directory, a) == temp_version_path(directory) {
        lemma_joined_injective(directory, log_a, "version.tmp"@);
    }
    if version_path(directory) == temp_version_path(directory) {
        lemma_joined_injective(directory, "version"@, "version.tmp"@);
    }
}

} // verus!
