use vstd::prelude::*;
use vstd::slice::{slice_subrange, slice_to_vec};

use crate::measure::NEWLINE;

verus! {

/// The byte `\r`.
pub const CARRIAGE_RETURN: u8 = 13;

/// The byte `/`.
pub const SLASH: u8 = 47;

/// Position of the first `\n` at or after `i`, or the length of `s`.
pub open spec fn next_newline(s: Seq<u8>, i: int) -> int
    decreases s.len() - i,
{
    if i < 0 || i >= s.len() {
        s.len() as int
    } else if s[i] == NEWLINE {
        i
    } else {
        next_newline(s, i + 1)
    }
}

/// One pattern from the line `s[i..j]`: a `\r` before the line's `\n` is
/// dropped, then one leading `/`.
pub open spec fn pattern_of(s: Seq<u8>, i: int, j: int) -> Seq<u8> {
    let line = if j < s.len() && j > i && s[j - 1] == CARRIAGE_RETURN {
        s.subrange(i, j - 1)
    } else {
        s.subrange(i, j)
    };
    if line.len() > 0 && line[0] == SLASH {
        line.drop_first()
    } else {
        line
    }
}

/// The patterns of the lines of `s` from position `i` on. A line ends at
/// `\n`; a last line without one still counts, an empty rest does not.
pub open spec fn patterns_from(s: Seq<u8>, i: int) -> Seq<Seq<u8>>
    decreases s.len() + 1 - i,
{
    if i < 0 || i >= s.len() {
        Seq::empty()
    } else {
        let j = next_newline(s, i);
        if j < i || j > s.len() {
            Seq::empty()
        } else {
            seq![pattern_of(s, i, j)] + patterns_from(s, j + 1)
        }
    }
}

proof fn lemma_next_newline_bounds(s: Seq<u8>, i: int)
    requires
        0 <= i <= s.len(),
    ensures
        i <= next_newline(s, i) <= s.len(),
        next_newline(s, i) < s.len() ==> s[next_newline(s, i)] == NEWLINE,
    decreases s.len() - i,
{
    if i < s.len() && s[i] != NEWLINE {
        lemma_next_newline_bounds(s, i + 1);
    }
}

/// The names listed in the content of a `.gitignore` file, one per line,
/// each without a leading `/`.
pub fn gitignore_patterns(contents: &[u8]) -> (r: Vec<Vec<u8>>)
    ensures
        r@.map_values(|p: Vec<u8>| p@) == patterns_from(contents@, 0),
{
    let n = contents.len();
    let mut out: Vec<Vec<u8>> = Vec::new();
    let mut i: usize = 0;
    while i < n
        invariant
            n == contents@.len(),
            i <= n,
            out@.map_values(|p: Vec<u8>| p@) + patterns_from(contents@, i as int) == patterns_from(
                contents@,
                0,
            ),
        decreases n - i,
    {
        let mut j: usize = i;
        while j < n && contents[j] != NEWLINE
            invariant
                n == contents@.len(),
                i <= j <= n,
                next_newline(contents@, i as int) == next_newline(contents@, j as int),
            decreases n - j,
        {
            j = j + 1;
        }
        proof {
            lemma_next_newline_bounds(contents@, i as int);
        }
        let mut end = j;
        if j < n && j > i && contents[j - 1] == CARRIAGE_RETURN {
            end = j - 1;
        }
        let mut start = i;
        if end > start && contents[start] == SLASH {
            start = start + 1;
        }
        let pattern = slice_to_vec(slice_subrange(contents, start, end));
        let ghost before = out@.map_values(|p: Vec<u8>| p@);
        assert(pattern@ =~= pattern_of(contents@, i as int, j as int));
        out.push(pattern);
        assert(out@.map_values(|p: Vec<u8>| p@) =~= before.push(pattern@));
        assert(out@.map_values(|p: Vec<u8>| p@) + patterns_from(contents@, j as int + 1) =~= before
            + patterns_from(contents@, i as int));
        if j == n {
            i = n;
            assert(patterns_from(contents@, n as int + 1) =~= Seq::<Seq<u8>>::empty());
        } else {
            i = j + 1;
        }
    }
    assert(patterns_from(contents@, n as int) =~= Seq::<Seq<u8>>::empty());
    assert(out@.map_values(|p: Vec<u8>| p@) =~= patterns_from(contents@, 0));
    out
}

} // verus!
