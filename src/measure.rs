use vstd::prelude::*;

verus! {

/// The byte `\n`, which ends a line.
pub const NEWLINE: u8 = 10;

/// Lines and bytes counted for one file or one subtree.
#[derive(Clone, Copy, Debug, PartialEq, Eq, Structural)]
pub struct Measurement {
    pub lines: u128,
    pub bytes: u128,
}

/// Number of `\n` bytes in `s`.
pub open spec fn newline_count(s: Seq<u8>) -> nat
    decreases s.len(),
{
    if s.len() == 0 {
        0
    } else {
        newline_count(s.drop_last()) + if s.last() == NEWLINE { 1nat } else { 0nat }
    }
}

/// Number of lines in `s`: one per `\n`, plus one for a final line that has
/// no terminator. Empty content has no lines.
pub open spec fn line_count(s: Seq<u8>) -> nat {
    newline_count(s) + if s.len() > 0 && s.last() != NEWLINE { 1nat } else { 0nat }
}

proof fn lemma_newline_count_bound(s: Seq<u8>)
    ensures
        newline_count(s) <= s.len(),
    decreases s.len(),
{
    if s.len() > 0 {
        lemma_newline_count_bound(s.drop_last());
    }
}

/// Counts the lines of a file's content.
///
/// A line ends at `\n`; a trailing `\r` stays part of the line and a final
/// unterminated line still counts. Only `\n` bytes matter, so content that is
/// not valid text counts as its lossy decoding would.
pub fn count_lines(content: &[u8]) -> (r: u128)
    ensures
        r == line_count(content@),
{
    let n = content.len();
    let mut newlines: u128 = 0;
    let mut i: usize = 0;
    while i < n
        invariant
            n == content@.len(),
            i <= n,
            newlines == newline_count(content@.subrange(0, i as int)),
        decreases n - i,
    {
        proof {
            let s = content@.subrange(0, i as int + 1);
            assert(s.drop_last() =~= content@.subrange(0, i as int));
            lemma_newline_count_bound(content@.subrange(0, i as int));
        }
        if content[i] == NEWLINE {
            newlines = newlines + 1;
        }
        i = i + 1;
    }
    assert(content@.subrange(0, n as int) =~= content@);
    proof {
        lemma_newline_count_bound(content@);
    }
    if n > 0 && content[n - 1] != NEWLINE {
        newlines + 1
    } else {
        newlines
    }
}

/// Measures one file's content: its line count and its size in bytes.
pub fn measure(content: &[u8]) -> (r: Measurement)
    ensures
        r.lines == line_count(content@),
        r.bytes == content@.len(),
{
    Measurement { lines: count_lines(content), bytes: content.len() as u128 }
}

} // verus!
