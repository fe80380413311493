use vstd::prelude::*;

use crate::measure::Measurement;

verus! {

/// A regular file, measured when the tree was read.
#[derive(Debug, PartialEq, Eq)]
pub struct FileEntry {
    /// The file's name as raw bytes; it need not be valid text.
    pub name: Vec<u8>,
    /// Whether any of the Unix execute permission bits is set.
    pub executable: bool,
    pub size: Measurement,
}

/// A directory that was listed, with its entries in listing order.
#[derive(Debug, PartialEq, Eq)]
pub struct Directory {
    pub name: Vec<u8>,
    pub entries: Vec<Entry>,
}

/// One entry of a listed directory, as the walk found it.
#[derive(Debug, PartialEq, Eq)]
pub enum Entry {
    File(FileEntry),
    Dir(Directory),
    /// A subdirectory that could not be listed.
    Unlisted(Vec<u8>),
    /// An entry whose metadata or content could not be read.
    Unreadable(Vec<u8>),
    /// An entry that is neither a regular file nor a directory.
    Other(Vec<u8>),
}

/// Why a directory has no total.
#[derive(Clone, Copy, Debug, PartialEq, Eq, Structural)]
pub enum CountError {
    /// One of the directory's own entries could not be read.
    UnreadableEntry,
    /// A total does not fit in 128 bits.
    Overflow,
}

/// A directory fails when one of its own entries could not be read.
pub open spec fn fails(d: Directory) -> bool {
    exists|i: int| 0 <= i < d.entries@.len() && (#[trigger] d.entries@[i]) is Unreadable
}

/// What one entry adds to its directory's (lines, bytes): a file its size, a
/// subdirectory its own total unless it fails, anything else nothing.
pub open spec fn entry_count(e: Entry) -> (int, int)
    decreases e, 0int,
{
    match e {
        Entry::File(f) => (f.size.lines as int, f.size.bytes as int),
        Entry::Dir(d) => if fails(d) {
            (0, 0)
        } else {
            entries_count(d.entries@)
        },
        _ => (0, 0),
    }
}

/// The sum of `entry_count` over a sequence of entries.
pub open spec fn entries_count(s: Seq<Entry>) -> (int, int)
    decreases s, 1int,
{
    if s.len() == 0 {
        (0, 0)
    } else {
        let rest = entries_count(s.drop_last());
        let last = entry_count(s.last());
        (rest.0 + last.0, rest.1 + last.1)
    }
}

/// The (lines, bytes) total of a directory that does not fail.
pub open spec fn dir_count(d: Directory) -> (int, int) {
    entries_count(d.entries@)
}

/// What counting a directory gives: its total when it does not fail and the
/// total fits, else the reason.
pub open spec fn outcome(d: Directory) -> Result<Measurement, CountError> {
    if fails(d) {
        Err(CountError::UnreadableEntry)
    } else if !fits(dir_count(d)) {
        Err(CountError::Overflow)
    } else {
        Ok(Measurement { lines: dir_count(d).0 as u128, bytes: dir_count(d).1 as u128 })
    }
}

proof fn lemma_entries_count_nonneg(s: Seq<Entry>)
    ensures
        entries_count(s).0 >= 0,
        entries_count(s).1 >= 0,
    decreases s, 1int,
{
    if s.len() > 0 {
        lemma_entries_count_nonneg(s.drop_last());
        lemma_entry_count_nonneg(s.last());
    }
}

proof fn lemma_entry_count_nonneg(e: Entry)
    ensures
        entry_count(e).0 >= 0,
        entry_count(e).1 >= 0,
    decreases e, 0int,
{
    if let Entry::Dir(d) = e {
        lemma_entries_count_nonneg(d.entries@);
    }
}

/// Whether a (lines, bytes) pair fits in the 128-bit counters.
pub open spec fn fits(c: (int, int)) -> bool {
    c.0 <= u128::MAX && c.1 <= u128::MAX
}

/// A running (lines, bytes) total. Once a sum would pass the 128-bit
/// counters it is marked as overflowed and stays so, with both counters 0.
pub struct Tally {
    pub lines: u128,
    pub bytes: u128,
    pub overflowed: bool,
}

impl Tally {
    pub open spec fn wf(&self) -> bool {
        self.overflowed ==> self.lines == 0 && self.bytes == 0
    }

    /// The tally of a true total `c`: its value when it fits, else overflowed.
    pub open spec fn holds(&self, c: (int, int)) -> bool {
        &&& self.wf()
        &&& self.overflowed == !fits(c)
        &&& !self.overflowed ==> self.lines == c.0 && self.bytes == c.1
    }

    pub fn new() -> (r: Tally)
        ensures
            r.holds((0, 0)),
    {
        Tally { lines: 0, bytes: 0, overflowed: false }
    }

    /// Adds one measurement.
    pub fn add(&mut self, m: Measurement)
        requires
            old(self).wf(),
        ensures
            final(self).wf(),
            forall|c: (int, int)|
                0 <= c.0 && 0 <= c.1 && #[trigger] old(self).holds(c) ==> final(self).holds(
                    (c.0 + m.lines, c.1 + m.bytes),
                ),
    {
        if self.overflowed {
            return;
        }
        if self.lines > u128::MAX - m.lines || self.bytes > u128::MAX - m.bytes {
            *self = Tally { lines: 0, bytes: 0, overflowed: true };
        } else {
            self.lines = self.lines + m.lines;
            self.bytes = self.bytes + m.bytes;
        }
    }

    /// Merges a subtree's result: its total when it has one, nothing when it
    /// failed, and an overflow when its own total overflowed.
    pub fn merge(&mut self, r: Result<Measurement, CountError>)
        requires
            old(self).wf(),
        ensures
            final(self).wf(),
            r matches Ok(m) ==> forall|c: (int, int)|
                0 <= c.0 && 0 <= c.1 && #[trigger] old(self).holds(c) ==> final(self).holds(
                    (c.0 + m.lines, c.1 + m.bytes),
                ),
            r == Err::<Measurement, CountError>(CountError::UnreadableEntry) ==> *final(self)
                == *old(self),
            r == Err::<Measurement, CountError>(CountError::Overflow) ==> final(self).overflowed,
    {
        match r {
            Ok(m) => self.add(m),
            Err(CountError::UnreadableEntry) => {},
            Err(CountError::Overflow) => {
                *self = Tally { lines: 0, bytes: 0, overflowed: true };
            },
        }
    }
}

/// The totals a tally holds, or `Overflow` when a sum passed the counters.
pub fn get_totals(tally: &Tally) -> (r: Result<(u128, u128), CountError>)
    requires
        tally.wf(),
    ensures
        tally.overflowed ==> r == Err::<(u128, u128), CountError>(CountError::Overflow),
        !tally.overflowed ==> r == Ok::<(u128, u128), CountError>((tally.lines, tally.bytes)),
{
    if tally.overflowed {
        Err(CountError::Overflow)
    } else {
        Ok((tally.lines, tally.bytes))
    }
}


/// Every regular file reachable through `s`, in walk order: the entries in
/// order, each subdirectory's files in place of the subdirectory.
pub open spec fn files_in(s: Seq<Entry>) -> Seq<FileEntry>
    decreases s,
{
    if s.len() == 0 {
        Seq::empty()
    } else {
        files_in(s.drop_last()) + match s.last() {
            Entry::File(f) => seq![f],
            Entry::Dir(d) => files_in(d.entries@),
            _ => Seq::empty(),
        }
    }
}

pub open spec fn sum_lines(fs: Seq<FileEntry>) -> int
    decreases fs.len(),
{
    if fs.len() == 0 {
        0
    } else {
        sum_lines(fs.drop_last()) + fs.last().size.lines
    }
}

pub open spec fn sum_bytes(fs: Seq<FileEntry>) -> int
    decreases fs.len(),
{
    if fs.len() == 0 {
        0
    } else {
        sum_bytes(fs.drop_last()) + fs.last().size.bytes
    }
}

/// Nothing under `s` is skipped: no entry is unreadable and every
/// subdirectory was listed, down to the leaves.
pub open spec fn all_readable(s: Seq<Entry>) -> bool
    decreases s,
{
    if s.len() == 0 {
        true
    } else {
        all_readable(s.drop_last()) && match s.last() {
            Entry::Unreadable(_) => false,
            Entry::Unlisted(_) => false,
            Entry::Dir(d) => all_readable(d.entries@),
            _ => true,
        }
    }
}

/// A subdirectory that counting skips: it could not be listed, or one of its
/// own entries could not be read.
pub open spec fn skipped(e: Entry) -> bool {
    match e {
        Entry::Unlisted(_) => true,
        Entry::Dir(d) => fails(d),
        _ => false,
    }
}

/// What counting gives for a total that is the sum over the files `fs`.
pub open spec fn sum_outcome(fs: Seq<FileEntry>) -> Result<Measurement, CountError> {
    if fits((sum_lines(fs), sum_bytes(fs))) {
        Ok(Measurement { lines: sum_lines(fs) as u128, bytes: sum_bytes(fs) as u128 })
    } else {
        Err(CountError::Overflow)
    }
}

proof fn lemma_entries_count_concat(a: Seq<Entry>, b: Seq<Entry>)
    ensures
        entries_count(a + b) == (
            entries_count(a).0 + entries_count(b).0,
            entries_count(a).1 + entries_count(b).1,
        ),
    decreases b.len(),
{
    if b.len() == 0 {
        assert(a + b =~= a);
    } else {
        assert((a + b).drop_last() =~= a + b.drop_last());
        assert((a + b).last() == b.last());
        lemma_entries_count_concat(a, b.drop_last());
    }
}

proof fn lemma_entries_count_remove(s: Seq<Entry>, k: int)
    requires
        0 <= k < s.len(),
    ensures
        entries_count(s) == (
            entries_count(s.remove(k)).0 + entry_count(s[k]).0,
            entries_count(s.remove(k)).1 + entry_count(s[k]).1,
        ),
{
    let front = s.subrange(0, k);
    let back = s.subrange(k + 1, s.len() as int);
    assert(s =~= front.push(s[k]) + back);
    assert(s.remove(k) =~= front + back);
    assert(front.push(s[k]).drop_last() =~= front);
    lemma_entries_count_concat(front.push(s[k]), back);
    lemma_entries_count_concat(front, back);
}

proof fn lemma_entries_count_permutation(a: Seq<Entry>, b: Seq<Entry>)
    requires
        a.to_multiset() == b.to_multiset(),
    ensures
        entries_count(a) == entries_count(b),
    decreases a.len(),
{
    broadcast use vstd::seq_lib::group_to_multiset_ensures;

    if a.len() == 0 {
        assert(b.to_multiset().len() == 0);
        assert(b =~= a);
    } else {
        let x = a.last();
        let rest = a.drop_last();
        assert(rest.push(x) =~= a);
        assert(a.to_multiset() =~= rest.to_multiset().insert(x));
        assert(b.to_multiset().count(x) > 0);
        assert(b.contains(x));
        let k = choose|k: int| 0 <= k < b.len() && b[k] == x;
        assert(b.remove(k).to_multiset() =~= rest.to_multiset());
        lemma_entries_count_permutation(rest, b.remove(k));
        lemma_entries_count_remove(b, k);
    }
}

proof fn lemma_sums_concat(a: Seq<FileEntry>, b: Seq<FileEntry>)
    ensures
        sum_lines(a + b) == sum_lines(a) + sum_lines(b),
        sum_bytes(a + b) == sum_bytes(a) + sum_bytes(b),
    decreases b.len(),
{
    if b.len() == 0 {
        assert(a + b =~= a);
    } else {
        assert((a + b).drop_last() =~= a + b.drop_last());
        lemma_sums_concat(a, b.drop_last());
    }
}

proof fn lemma_readable_count(s: Seq<Entry>)
    requires
        all_readable(s),
    ensures
        entries_count(s) == (sum_lines(files_in(s)), sum_bytes(files_in(s))),
        forall|i: int| 0 <= i < s.len() ==> !(#[trigger] s[i] is Unreadable),
    decreases s,
{
    if s.len() > 0 {
        let rest = s.drop_last();
        lemma_readable_count(rest);
        let tail: Seq<FileEntry> = match s.last() {
            Entry::File(f) => seq![f],
            Entry::Dir(d) => files_in(d.entries@),
            _ => Seq::empty(),
        };
        lemma_sums_concat(files_in(rest), tail);
        match s.last() {
            Entry::File(f) => {
                assert(tail.drop_last() =~= Seq::<FileEntry>::empty());
                assert(sum_lines(tail.drop_last()) == 0);
                assert(sum_bytes(tail.drop_last()) == 0);
            },
            Entry::Dir(d) => {
                lemma_readable_count(d.entries@);
                assert(!fails(d));
            },
            _ => {
                assert(tail =~= Seq::<FileEntry>::empty());
            },
        }
        assert(files_in(s) == files_in(rest) + tail);
        assert(entries_count(s).0 == entries_count(rest).0 + entry_count(s.last()).0);
        assert(entry_count(s.last()).0 == sum_lines(tail));
        assert(entry_count(s.last()).1 == sum_bytes(tail));
        assert forall|i: int| 0 <= i < s.len() implies !(#[trigger] s[i] is Unreadable) by {
            if i < s.len() - 1 {
                assert(s[i] == rest[i]);
            }
        }
    }
}

/// When nothing under `d` is skipped, its total is the sum of the line and
/// byte counts of every regular file reachable from it, so counting returns
/// that sum, or `Overflow` when it does not fit the 128-bit counters.
pub proof fn lemma_total_is_sum_of_files(d: Directory)
    requires
        all_readable(d.entries@),
    ensures
        !fails(d),
        dir_count(d) == (sum_lines(files_in(d.entries@)), sum_bytes(files_in(d.entries@))),
        outcome(d) == sum_outcome(files_in(d.entries@)),
{
    lemma_readable_count(d.entries@);
}

/// Counting does not depend on the order in which a directory's entries are
/// merged: two directories whose entries are the same up to order fail alike
/// and have the same total, so a walk that finishes its subtrees in any order
/// (one task per subdirectory, say) counts what a sequential walk counts.
pub proof fn lemma_count_order_independent(d1: Directory, d2: Directory)
    requires
        d1.entries@.to_multiset() == d2.entries@.to_multiset(),
    ensures
        fails(d1) == fails(d2),
        dir_count(d1) == dir_count(d2),
        outcome(d1) == outcome(d2),
{
    broadcast use vstd::seq_lib::group_to_multiset_ensures;

    lemma_entries_count_permutation(d1.entries@, d2.entries@);
    let a = d1.entries@;
    let b = d2.entries@;
    if fails(d1) {
        let i = choose|i: int| 0 <= i < a.len() && (#[trigger] a[i]) is Unreadable;
        assert(a.contains(a[i]));
        assert(a.to_multiset().count(a[i]) > 0);
        assert(b.contains(a[i]));
    }
    if fails(d2) {
        let i = choose|i: int| 0 <= i < b.len() && (#[trigger] b[i]) is Unreadable;
        assert(b.contains(b[i]));
        assert(b.to_multiset().count(b[i]) > 0);
        assert(a.contains(b[i]));
    }
}

/// A directory with one skipped subdirectory and every other entry readable
/// still has a total: the sum over the files of the other entries alone, so
/// counting succeeds with that sum whenever it fits the 128-bit counters.
pub proof fn lemma_skip_unreadable_subdir(d: Directory, k: int)
    requires
        0 <= k < d.entries@.len(),
        skipped(d.entries@[k]),
        all_readable(d.entries@.remove(k)),
    ensures
        !fails(d),
        dir_count(d) == (
            sum_lines(files_in(d.entries@.remove(k))),
            sum_bytes(files_in(d.entries@.remove(k))),
        ),
        outcome(d) == sum_outcome(files_in(d.entries@.remove(k))),
{
    let s = d.entries@;
    lemma_readable_count(s.remove(k));
    lemma_entries_count_remove(s, k);
    assert forall|i: int| 0 <= i < s.len() implies !(#[trigger] s[i] is Unreadable) by {
        if i < k {
            assert(s[i] == s.remove(k)[i]);
        } else if i > k {
            assert(s[i] == s.remove(k)[i - 1]);
        }
    }
}

/// Whether one of the directory's own entries could not be read.
pub fn has_unreadable_entry(d: &Directory) -> (r: bool)
    ensures
        r == fails(*d),
{
    let n = d.entries.len();
    let mut i: usize = 0;
    while i < n
        invariant
            n == d.entries@.len(),
            i <= n,
            forall|j: int| 0 <= j < i ==> !(#[trigger] d.entries@[j] is Unreadable),
        decreases n - i,
    {
        if let Entry::Unreadable(_) = &d.entries[i] {
            return true;
        }
        i = i + 1;
    }
    false
}

/// Totals the lines and bytes of every file under `root`.
///
/// Fails with `UnreadableEntry` when one of `root`'s own entries could not be
/// read. A subdirectory that could not be listed, or that fails itself, is
/// skipped and adds nothing. Entries that are neither files nor directories
/// add nothing.
pub fn aggregate(root: &Directory) -> (r: Result<Measurement, CountError>)
    ensures
        r == outcome(*root),
    decreases root,
{
    if has_unreadable_entry(root) {
        return Err(CountError::UnreadableEntry);
    }
    let n = root.entries.len();
    let mut tally = Tally::new();
    let mut i: usize = 0;
    while i < n
        invariant
            n == root.entries@.len(),
            i <= n,
            !fails(*root),
            tally.holds(entries_count(root.entries@.subrange(0, i as int))),
        decreases n - i,
    {
        let ghost before = root.entries@.subrange(0, i as int);
        let ghost after = root.entries@.subrange(0, i as int + 1);
        proof {
            assert(after.drop_last() =~= before);
            lemma_entries_count_nonneg(before);
            let e = root.entries@[i as int];
            assert(after.last() == e);
            assert(entries_count(after) == (
                entries_count(before).0 + entry_count(e).0,
                entries_count(before).1 + entry_count(e).1,
            ));
        }
        match &root.entries[i] {
            Entry::File(f) => tally.add(f.size),
            Entry::Dir(sub) => {
                let res = aggregate(sub);
                proof {
                    lemma_entries_count_nonneg(sub.entries@);
                }
                tally.merge(res);
            },
            _ => {},
        }
        i = i + 1;
    }
    assert(root.entries@.subrange(0, n as int) =~= root.entries@);
    match get_totals(&tally) {
        Ok((lines, bytes)) => Ok(Measurement { lines, bytes }),
        Err(e) => Err(e),
    }
}

} // verus!
