//! Helpers for checking.
use vstd::prelude::*;

use crate::text::chars_of;

verus! {

/// The number of newlines in `s`.
pub open spec fn newlines(s: Seq<char>) -> nat
    decreases s.len(),
{
    if s.len() == 0 {
        0
    } else {
        newlines(s.drop_last()) + if s.last() == '\n' {
            1nat
        } else {
            0nat
        }
    }
}

/// The line and column that `offset_to_line_column` gives for `start`:
/// one more than the newlines up to and including the character after
/// index `start`, and the distance from `start` to that character.
pub open spec fn line_column_of(content: Seq<char>, start: int) -> (usize, usize) {
    ((1 + newlines(content.take(start + 2))) as usize, 1)
}

proof fn lemma_newlines_bound(s: Seq<char>)
    ensures
        newlines(s) <= s.len(),
    decreases s.len(),
{
    if s.len() > 0 {
        lemma_newlines_bound(s.drop_last());
    }
}

/// Converts the start offset of a location to a line and a column, counting
/// characters from zero and lines from one.
pub fn offset_to_line_column(content: &str, start: usize) -> (res: (usize, usize))
    requires
        start + 1 < content@.len(),
        content@.len() < usize::MAX,
    ensures
        res == line_column_of(content@, start as int),
{
    let v = chars_of(content);
    let mut line_counter: usize = 1;
    let mut offset: usize = 0;
    assert(v@.take(0) =~= Seq::<char>::empty());
    while offset < v.len()
        invariant
            v@ == content@,
            start + 1 < v@.len(),
            v@.len() < usize::MAX,
            offset <= start + 1,
            line_counter == 1 + newlines(v@.take(offset as int)),
        decreases v@.len() - offset,
    {
        proof {
            lemma_newlines_bound(v@.take(offset as int));
        }
        assert(v@.take(offset + 1).drop_last() =~= v@.take(offset as int));
        if v[offset] == '\n' {
            line_counter = line_counter + 1;
        }
        if offset > start {
            return (line_counter, offset - start);
        }
        offset = offset + 1;
    }
    (line_counter, 0)
}

} // verus!
