//! Line framing of a log: every record is one line, ended by a newline.

use vstd::prelude::*;
use vstd::slice::{slice_subrange, slice_to_vec};

verus! {

/// The newline byte that ends a record.
pub const NEWLINE: u8 = 10;

/// The carriage return that may precede a newline.
pub const CARRIAGE_RETURN: u8 = 13;

/// The position of the first newline in `text`, or its length if it has none.
pub open spec fn first_newline(text: Seq<u8>) -> int
    decreases text.len(),
{
    if text.len() == 0 {
        0
    } else if text[0] == NEWLINE {
        0
    } else {
        1 + first_newline(text.drop_first())
    }
}

/// `line` without the carriage return that it may end in.
pub open spec fn without_return(line: Seq<u8>) -> Seq<u8> {
    if line.len() > 0 && line.last() == CARRIAGE_RETURN {
        line.drop_last()
    } else {
        line
    }
}

/// The lines of `text`, in order. A line ends at a newline; the newline, and
/// a carriage return just before it, are no part of the line. What follows
/// the last newline is a line of its own unless it is empty.
pub open spec fn lines(text: Seq<u8>) -> Seq<Seq<u8>>
    decreases text.len(),
{
    if text.len() == 0 {
        Seq::empty()
    } else {
        let end = first_newline(text);
        if 0 <= end < text.len() {
            seq![without_return(text.subrange(0, end))] + lines(text.subrange(end + 1, text.len() as int))
        } else {
            seq![text]
        }
    }
}

/// Whether `text` is empty or ends in a newline, so that what is appended to
/// it starts a new line.
pub open spec fn terminated(text: Seq<u8>) -> bool {
    text.len() == 0 || text.last() == NEWLINE
}

/// Whether `line` can stand as one line of a log: it holds no newline and
/// does not end in a carriage return.
pub open spec fn single_line(line: Seq<u8>) -> bool {
    &&& !line.contains(NEWLINE)
    &&& !(line.len() > 0 && line.last() == CARRIAGE_RETURN)
}

/// The contents of the lines held in `lines`.
pub open spec fn line_views(lines: Seq<Vec<u8>>) -> Seq<Seq<u8>> {
    Seq::new(lines.len(), |i: int| lines[i]@)
}

/// `first_newline` is the least position that holds a newline.
pub proof fn lemma_first_newline(text: Seq<u8>, k: int)
    requires
        0 <= k <= text.len(),
        forall|i: int| 0 <= i < k ==> text[i] != NEWLINE,
        k < text.len() ==> text[k] == NEWLINE,
    ensures
        first_newline(text) == k,
    decreases text.len(),
{
    if text.len() > 0 && k > 0 {
        lemma_first_newline(text.drop_first(), k - 1);
    }
}

/// `first_newline` stays within the text, and no newline stands before it.
pub proof fn lemma_first_newline_bounds(text: Seq<u8>)
    ensures
        0 <= first_newline(text) <= text.len(),
        forall|i: int| 0 <= i < first_newline(text) ==> text[i] != NEWLINE,
        first_newline(text) < text.len() ==> text[first_newline(text)] == NEWLINE,
    decreases text.len(),
{
    if text.len() > 0 && text[0] != NEWLINE {
        let rest = text.drop_first();
        lemma_first_newline_bounds(rest);
        assert forall|i: int| 0 <= i < first_newline(text) implies text[i] != NEWLINE by {
            if i > 0 {
                assert(text[i] == rest[i - 1]);
            }
        }
    }
}

/// Appending one terminated line to a terminated text appends that line to
/// its lines and changes none of the others.
pub proof fn lemma_lines_append(text: Seq<u8>, line: Seq<u8>)
    requires
        terminated(text),
        single_line(line),
    ensures
        lines(text + line.push(NEWLINE)) == lines(text).push(line),
        terminated(text + line.push(NEWLINE)),
    decreases text.len(),
{
    let added = line.push(NEWLINE);
    let whole = text + added;
    if text.len() == 0 {
        assert(whole =~= added);
        assert forall|i: int| 0 <= i < line.len() implies added[i] != NEWLINE by {
            assert(line.contains(line[i]));
        }
        lemma_first_newline(added, line.len() as int);
        assert(added.subrange(0, line.len() as int) =~= line);
        assert(added.subrange(line.len() as int + 1, added.len() as int) =~= Seq::<u8>::empty());
        assert(lines(Seq::<u8>::empty()) =~= Seq::<Seq<u8>>::empty());
        assert(without_return(line) == line);
        assert(lines(added) =~= seq![line]);
        assert(lines(text).push(line) =~= seq![line]);
    } else {
        lemma_first_newline_bounds(text);
        let end = first_newline(text);
        assert(end < text.len()) by {
            if end == text.len() {
                assert(text[text.len() - 1] != NEWLINE);
            }
        }
        assert forall|i: int| 0 <= i < end implies whole[i] != NEWLINE by {
            assert(whole[i] == text[i]);
        }
        lemma_first_newline(whole, end);
        let rest = text.subrange(end + 1, text.len() as int);
        assert(whole.subrange(0, end) =~= text.subrange(0, end));
        assert(whole.subrange(end + 1, whole.len() as int) =~= rest + added);
        if rest.len() > 0 {
            assert(rest.last() == text.last());
        }
        lemma_lines_append(rest, line);
        assert(lines(whole) =~= lines(text).push(line));
    }
    assert(whole.last() == NEWLINE);
}

/// Splits the text of a log into its lines.
pub fn split_lines(text: &[u8]) -> (result: Vec<Vec<u8>>)
    ensures
        line_views(result@) == lines(text@),
{
    let n = text.len();
    let mut result: Vec<Vec<u8>> = Vec::new();
    let mut start: usize = 0;
    assert(text@.subrange(0, n as int) =~= text@);
    while start < n
        invariant
            start <= n,
            n == text@.len(),
            lines(text@) == line_views(result@) + lines(text@.subrange(start as int, n as int)),
        decreases n - start,
    {
        let ghost rest = text@.subrange(start as int, n as int);
        let mut end: usize = start;
        while end < n && text[end] != NEWLINE
            invariant
                start <= end <= n,
                n == text@.len(),
                forall|i: int| start <= i < end ==> text@[i] != NEWLINE,
            decreases n - end,
        {
            end += 1;
        }
        proof {
            assert forall|i: int| 0 <= i < end - start implies rest[i] != NEWLINE by {
                assert(rest[i] == text@[start + i]);
            }
            lemma_first_newline(rest, end - start);
        }
        let ghost before = line_views(result@);
        if end == n {
            let line = slice_to_vec(slice_subrange(text, start, n));
            result.push(line);
            proof {
                assert(text@.subrange(n as int, n as int) =~= Seq::<u8>::empty());
                assert(line_views(result@) =~= before.push(rest));
                assert(lines(rest) =~= seq![rest]);
            }
            start = n;
        } else {
            let stop: usize = if end > start && text[end - 1] == CARRIAGE_RETURN {
                end - 1
            } else {
                end
            };
            let line = slice_to_vec(slice_subrange(text, start, stop));
            result.push(line);
            proof {
                let found = rest.subrange(0, end - start);
                assert(found =~= text@.subrange(start as int, end as int));
                if found.len() > 0 {
                    assert(found.last() == text@[end - 1]);
                }
                assert(line@ =~= without_return(found));
                assert(rest.subrange(end - start + 1, rest.len() as int) =~= text@.subrange(
                    end + 1,
                    n as int,
                ));
                assert(line_views(result@) =~= before.push(without_return(found)));
            }
            start = end + 1;
        }
    }
    proof {
        assert(text@.subrange(n as int, n as int) =~= Seq::<u8>::empty());
        assert(lines(text@) =~= line_views(result@));
    }
    result
}

} // verus!
