use vstd::prelude::*;

use crate::classify::{is_visible, visible};
use crate::tree::Entry;

verus! {

/// Byte-wise lexicographic order: `a` sorts strictly before `b`.
pub open spec fn lex_lt(a: Seq<u8>, b: Seq<u8>) -> bool
    decreases a.len(),
{
    if b.len() == 0 {
        false
    } else if a.len() == 0 {
        true
    } else if a[0] != b[0] {
        a[0] < b[0]
    } else {
        lex_lt(a.drop_first(), b.drop_first())
    }
}

proof fn lemma_lex_irreflexive(a: Seq<u8>)
    ensures
        !lex_lt(a, a),
    decreases a.len(),
{
    if a.len() > 0 {
        lemma_lex_irreflexive(a.drop_first());
    }
}

proof fn lemma_lex_asymmetric(a: Seq<u8>, b: Seq<u8>)
    ensures
        !(lex_lt(a, b) && lex_lt(b, a)),
    decreases a.len(),
{
    if a.len() > 0 && b.len() > 0 && a[0] == b[0] {
        lemma_lex_asymmetric(a.drop_first(), b.drop_first());
    }
}

proof fn lemma_lex_total(a: Seq<u8>, b: Seq<u8>)
    requires
        a != b,
    ensures
        lex_lt(a, b) || lex_lt(b, a),
    decreases a.len(),
{
    if a.len() == 0 {
        if b.len() == 0 {
            assert(a =~= b);
        }
    } else if b.len() == 0 {
    } else if a[0] == b[0] {
        assert(a =~= seq![a[0]] + a.drop_first());
        assert(b =~= seq![b[0]] + b.drop_first());
        lemma_lex_total(a.drop_first(), b.drop_first());
    }
}

proof fn lemma_lex_transitive(a: Seq<u8>, b: Seq<u8>, c: Seq<u8>)
    requires
        lex_lt(a, b),
        lex_lt(b, c),
    ensures
        lex_lt(a, c),
    decreases a.len(),
{
    if a.len() > 0 && a[0] == b[0] && b[0] == c[0] {
        lemma_lex_transitive(a.drop_first(), b.drop_first(), c.drop_first());
    }
}

/// The name of an entry.
pub open spec fn entry_name(e: Entry) -> Seq<u8> {
    match e {
        Entry::File(f) => f.name@,
        Entry::Dir(d) => d.name@,
        Entry::Unlisted(n) => n@,
        Entry::Unreadable(n) => n@,
        Entry::Other(n) => n@,
    }
}

/// Whether an entry gets a place in the rendered listing: a visible file or
/// a visible listed directory.
pub open spec fn shown(e: Entry) -> bool {
    (e is File || e is Dir) && visible(entry_name(e))
}

/// Files are listed before directories.
pub open spec fn group(e: Entry) -> int {
    if e is File {
        0
    } else {
        1
    }
}

/// The listing order of the entries at positions `i` and `j` of `s`: files
/// before directories, then by name, then by position (so that equal names
/// keep their listing order).
pub open spec fn precedes(s: Seq<Entry>, i: int, j: int) -> bool {
    ||| group(s[i]) < group(s[j])
    ||| group(s[i]) == group(s[j]) && lex_lt(entry_name(s[i]), entry_name(s[j]))
    ||| group(s[i]) == group(s[j]) && entry_name(s[i]) == entry_name(s[j]) && i < j
}

/// Each position in `o` comes before every later one in listing order.
pub open spec fn sorted_by_precedes(s: Seq<Entry>, o: Seq<usize>) -> bool {
    forall|k1: int, k2: int|
        0 <= k1 < k2 < o.len() ==> precedes(s, #[trigger] o[k1] as int, #[trigger] o[k2] as int)
}

/// `o` lists the positions of exactly the shown entries of `s`, each once,
/// files first and directories after, each group in ascending name order.
pub open spec fn is_display_order(s: Seq<Entry>, o: Seq<usize>) -> bool {
    &&& forall|k: int| 0 <= k < o.len() ==> #[trigger] o[k] < s.len() && shown(s[o[k] as int])
    &&& forall|i: int| 0 <= i < s.len() && #[trigger] shown(s[i]) ==> o.contains(i as usize)
    &&& sorted_by_precedes(s, o)
}

proof fn lemma_precedes_asymmetric(s: Seq<Entry>, i: int, j: int)
    ensures
        !(precedes(s, i, j) && precedes(s, j, i)),
{
    lemma_lex_asymmetric(entry_name(s[i]), entry_name(s[j]));
    lemma_lex_irreflexive(entry_name(s[i]));
}

proof fn lemma_precedes_total(s: Seq<Entry>, i: int, j: int)
    requires
        i != j,
    ensures
        precedes(s, i, j) || precedes(s, j, i),
{
    if entry_name(s[i]) != entry_name(s[j]) {
        lemma_lex_total(entry_name(s[i]), entry_name(s[j]));
    }
}

proof fn lemma_precedes_transitive(s: Seq<Entry>, i: int, j: int, k: int)
    requires
        precedes(s, i, j),
        precedes(s, j, k),
    ensures
        precedes(s, i, k),
{
    let (a, b, c) = (entry_name(s[i]), entry_name(s[j]), entry_name(s[k]));
    if lex_lt(a, b) && lex_lt(b, c) {
        lemma_lex_transitive(a, b, c);
    }
}

proof fn lemma_sorted_unique(s: Seq<Entry>, a: Seq<usize>, b: Seq<usize>)
    requires
        forall|k1: int, k2: int|
            0 <= k1 < k2 < a.len() ==> precedes(s, #[trigger] a[k1] as int, #[trigger] a[k2] as int),
        forall|k1: int, k2: int|
            0 <= k1 < k2 < b.len() ==> precedes(s, #[trigger] b[k1] as int, #[trigger] b[k2] as int),
        forall|x: usize| a.contains(x) <==> b.contains(x),
    ensures
        a == b,
    decreases a.len() + b.len(),
{
    if a.len() == 0 {
        if b.len() > 0 {
            assert(b.contains(b[0]));
        }
        assert(b =~= a);
    } else if b.len() == 0 {
        assert(a.contains(a[0]));
    } else {
        assert(a.contains(a[0]));
        assert(b.contains(b[0]));
        let j = choose|j: int| 0 <= j < b.len() && b[j] == a[0];
        let i = choose|i: int| 0 <= i < a.len() && a[i] == b[0];
        if a[0] != b[0] {
            assert(i > 0 && j > 0);
            assert(precedes(s, a[0] as int, a[i] as int));
            assert(precedes(s, b[0] as int, b[j] as int));
            lemma_precedes_asymmetric(s, a[0] as int, b[0] as int);
        }
        let (ta, tb) = (a.drop_first(), b.drop_first());
        assert forall|x: usize| ta.contains(x) <==> tb.contains(x) by {
            if ta.contains(x) {
                let k = choose|k: int| 0 <= k < ta.len() && ta[k] == x;
                assert(precedes(s, a[0] as int, a[k + 1] as int));
                lemma_precedes_asymmetric(s, a[0] as int, a[0] as int);
                assert(a.contains(x));
                let m = choose|m: int| 0 <= m < b.len() && b[m] == x;
                assert(m != 0);
                assert(tb[m - 1] == x);
            }
            if tb.contains(x) {
                let k = choose|k: int| 0 <= k < tb.len() && tb[k] == x;
                assert(precedes(s, b[0] as int, b[k + 1] as int));
                lemma_precedes_asymmetric(s, b[0] as int, b[0] as int);
                assert(b.contains(x));
                let m = choose|m: int| 0 <= m < a.len() && a[m] == x;
                assert(m != 0);
                assert(ta[m - 1] == x);
            }
        }
        assert forall|k1: int, k2: int| 0 <= k1 < k2 < ta.len() implies precedes(
            s,
            #[trigger] ta[k1] as int,
            #[trigger] ta[k2] as int,
        ) by {
            assert(ta[k1] == a[k1 + 1] && ta[k2] == a[k2 + 1]);
        }
        assert forall|k1: int, k2: int| 0 <= k1 < k2 < tb.len() implies precedes(
            s,
            #[trigger] tb[k1] as int,
            #[trigger] tb[k2] as int,
        ) by {
            assert(tb[k1] == b[k1 + 1] && tb[k2] == b[k2 + 1]);
        }
        lemma_sorted_unique(s, ta, tb);
        assert(a =~= seq![a[0]] + ta);
        assert(b =~= seq![b[0]] + tb);
    }
}

/// There is one display order of a given sequence of entries.
pub proof fn lemma_display_order_unique(s: Seq<Entry>, o1: Seq<usize>, o2: Seq<usize>)
    requires
        is_display_order(s, o1),
        is_display_order(s, o2),
    ensures
        o1 == o2,
{
    assert forall|x: usize| o1.contains(x) <==> o2.contains(x) by {
        if o1.contains(x) {
            let k = choose|k: int| 0 <= k < o1.len() && o1[k] == x;
            assert(shown(s[o1[k] as int]));
        }
        if o2.contains(x) {
            let k = choose|k: int| 0 <= k < o2.len() && o2[k] == x;
            assert(shown(s[o2[k] as int]));
        }
    }
    lemma_sorted_unique(s, o1, o2);
}

/// The display order of `s`.
pub open spec fn display_order_of(s: Seq<Entry>) -> Seq<usize> {
    choose|o: Seq<usize>| is_display_order(s, o)
}

/// `o` with `x` placed before its first element that `x` precedes.
pub open spec fn insert_in_order(s: Seq<Entry>, o: Seq<usize>, x: usize) -> Seq<usize>
    decreases o.len(),
{
    if o.len() == 0 {
        seq![x]
    } else if precedes(s, x as int, o[0] as int) {
        seq![x] + o
    } else {
        seq![o[0]] + insert_in_order(s, o.drop_first(), x)
    }
}

proof fn lemma_insert_in_order(s: Seq<Entry>, o: Seq<usize>, x: usize)
    requires
        sorted_by_precedes(s, o),
        forall|k: int| 0 <= k < o.len() ==> #[trigger] o[k] < x,
    ensures
        sorted_by_precedes(s, insert_in_order(s, o, x)),
        forall|y: usize| #[trigger]
            insert_in_order(s, o, x).contains(y) <==> (o.contains(y) || y == x),
    decreases o.len(),
{
    let r = insert_in_order(s, o, x);
    if o.len() == 0 {
        assert forall|y: usize| #[trigger] r.contains(y) <==> (o.contains(y) || y == x) by {
            if r.contains(y) {
                assert(r[0] == y);
            }
            if y == x {
                assert(r[0] == x);
            }
        }
    } else if precedes(s, x as int, o[0] as int) {
        assert forall|k1: int, k2: int| 0 <= k1 < k2 < r.len() implies precedes(
            s,
            #[trigger] r[k1] as int,
            #[trigger] r[k2] as int,
        ) by {
            if k1 == 0 {
                if k2 > 1 {
                    lemma_precedes_transitive(s, x as int, o[0] as int, o[k2 - 1] as int);
                }
            } else {
                assert(r[k1] == o[k1 - 1] && r[k2] == o[k2 - 1]);
            }
        }
        assert forall|y: usize| #[trigger] r.contains(y) <==> (o.contains(y) || y == x) by {
            if r.contains(y) {
                let k = choose|k: int| 0 <= k < r.len() && r[k] == y;
                if k > 0 {
                    assert(o[k - 1] == y);
                }
            }
            if o.contains(y) {
                let k = choose|k: int| 0 <= k < o.len() && o[k] == y;
                assert(r[k + 1] == y);
            }
            if y == x {
                assert(r[0] == x);
            }
        }
    } else {
        let t = o.drop_first();
        assert forall|k1: int, k2: int| 0 <= k1 < k2 < t.len() implies precedes(
            s,
            #[trigger] t[k1] as int,
            #[trigger] t[k2] as int,
        ) by {
            assert(t[k1] == o[k1 + 1] && t[k2] == o[k2 + 1]);
        }
        lemma_insert_in_order(s, t, x);
        let rt = insert_in_order(s, t, x);
        lemma_precedes_total(s, x as int, o[0] as int);
        assert forall|k1: int, k2: int| 0 <= k1 < k2 < r.len() implies precedes(
            s,
            #[trigger] r[k1] as int,
            #[trigger] r[k2] as int,
        ) by {
            if k1 == 0 {
                assert(r[k2] == rt[k2 - 1]);
                assert(rt.contains(rt[k2 - 1]));
                if rt[k2 - 1] != x {
                    let m = choose|m: int| 0 <= m < t.len() && t[m] == rt[k2 - 1];
                    assert(t[m] == o[m + 1]);
                }
            } else {
                assert(r[k1] == rt[k1 - 1] && r[k2] == rt[k2 - 1]);
            }
        }
        assert forall|y: usize| #[trigger] r.contains(y) <==> (o.contains(y) || y == x) by {
            if r.contains(y) {
                let k = choose|k: int| 0 <= k < r.len() && r[k] == y;
                if k > 0 {
                    assert(rt[k - 1] == y);
                    assert(rt.contains(y));
                    if t.contains(y) {
                        let m = choose|m: int| 0 <= m < t.len() && t[m] == y;
                        assert(o[m + 1] == y);
                    }
                } else {
                    assert(o[0] == y);
                }
            }
            if o.contains(y) {
                let k = choose|k: int| 0 <= k < o.len() && o[k] == y;
                if k == 0 {
                    assert(r[0] == y);
                } else {
                    assert(t[k - 1] == y);
                    assert(rt.contains(y));
                    let m = choose|m: int| 0 <= m < rt.len() && rt[m] == y;
                    assert(r[m + 1] == y);
                }
            }
            if y == x {
                assert(rt.contains(x));
                let m = choose|m: int| 0 <= m < rt.len() && rt[m] == x;
                assert(r[m + 1] == x);
            }
        }
    }
}

/// A display order of the first `n` entries of `s`.
proof fn lemma_prefix_order(s: Seq<Entry>, n: int) -> (o: Seq<usize>)
    requires
        0 <= n <= s.len() <= usize::MAX,
    ensures
        forall|k: int| 0 <= k < o.len() ==> #[trigger] o[k] < n && shown(s[o[k] as int]),
        forall|i: int| 0 <= i < n && #[trigger] shown(s[i]) ==> o.contains(i as usize),
        sorted_by_precedes(s, o),
    decreases n,
{
    if n == 0 {
        Seq::empty()
    } else {
        let o = lemma_prefix_order(s, n - 1);
        let x = (n - 1) as usize;
        if shown(s[n - 1]) {
            lemma_insert_in_order(s, o, x);
            let r = insert_in_order(s, o, x);
            assert forall|k: int| 0 <= k < r.len() implies #[trigger] r[k] < n && shown(
                s[r[k] as int],
            ) by {
                assert(r.contains(r[k]));
                if r[k] != x {
                    let m = choose|m: int| 0 <= m < o.len() && o[m] == r[k];
                }
            }
            r
        } else {
            o
        }
    }
}

/// Every sequence of entries that a vector can hold has a display order, so
/// a rendering lists, at every level, the visible files first and the
/// visible directories after, each group in ascending name order.
pub proof fn lemma_display_order_exists(s: Seq<Entry>)
    requires
        s.len() <= usize::MAX,
    ensures
        is_display_order(s, display_order_of(s)),
{
    let o = lemma_prefix_order(s, s.len() as int);
    assert(is_display_order(s, o));
}

/// Whether `a` sorts strictly before `b`, byte by byte.
pub fn name_lt(a: &[u8], b: &[u8]) -> (r: bool)
    ensures
        r == lex_lt(a@, b@),
{
    let mut i: usize = 0;
    assert(a@.subrange(0, a@.len() as int) =~= a@);
    assert(b@.subrange(0, b@.len() as int) =~= b@);
    while i < a.len() && i < b.len()
        invariant
            i <= a@.len(),
            i <= b@.len(),
            lex_lt(a@, b@) == lex_lt(
                a@.subrange(i as int, a@.len() as int),
                b@.subrange(i as int, b@.len() as int),
            ),
        decreases a@.len() - i,
    {
        let ghost (ta, tb) = (
            a@.subrange(i as int, a@.len() as int),
            b@.subrange(i as int, b@.len() as int),
        );
        assert(ta.drop_first() =~= a@.subrange(i as int + 1, a@.len() as int));
        assert(tb.drop_first() =~= b@.subrange(i as int + 1, b@.len() as int));
        if a[i] != b[i] {
            return a[i] < b[i];
        }
        i = i + 1;
    }
    a.len() < b.len()
}

fn name_of(e: &Entry) -> (r: &Vec<u8>)
    ensures
        r@ == entry_name(*e),
{
    match e {
        Entry::File(f) => &f.name,
        Entry::Dir(d) => &d.name,
        Entry::Unlisted(n) => n,
        Entry::Unreadable(n) => n,
        Entry::Other(n) => n,
    }
}

fn precedes_exec(s: &Vec<Entry>, i: usize, j: usize) -> (r: bool)
    requires
        i < s@.len(),
        j < s@.len(),
    ensures
        r == precedes(s@, i as int, j as int),
{
    let gi: u8 = if let Entry::File(_) = &s[i] { 0 } else { 1 };
    let gj: u8 = if let Entry::File(_) = &s[j] { 0 } else { 1 };
    if gi != gj {
        return gi < gj;
    }
    let (a, b) = (name_of(&s[i]), name_of(&s[j]));
    if name_lt(a.as_slice(), b.as_slice()) {
        return true;
    }
    if name_lt(b.as_slice(), a.as_slice()) {
        proof {
            lemma_lex_asymmetric(a@, b@);
        }
        return false;
    }
    proof {
        if a@ != b@ {
            lemma_lex_total(a@, b@);
        }
    }
    i < j
}

/// The order in which a directory's entries are rendered: the positions of
/// its visible files in ascending name order, then those of its visible
/// directories in ascending name order.
pub fn display_order(entries: &Vec<Entry>) -> (r: Vec<usize>)
    ensures
        is_display_order(entries@, r@),
        r@ == display_order_of(entries@),
{
    let n = entries.len();
    let mut o: Vec<usize> = Vec::new();
    let mut i: usize = 0;
    while i < n
        invariant
            n == entries@.len(),
            i <= n,
            forall|k: int| 0 <= k < o@.len() ==> #[trigger] o@[k] < i && shown(entries@[o@[k] as int]),
            forall|j: int| 0 <= j < i && #[trigger] shown(entries@[j]) ==> o@.contains(j as usize),
            forall|k1: int, k2: int|
                0 <= k1 < k2 < o@.len() ==> precedes(
                    entries@,
                    #[trigger] o@[k1] as int,
                    #[trigger] o@[k2] as int,
                ),
        decreases n - i,
    {
        let e = &entries[i];
        let listed = match e {
            Entry::File(f) => is_visible(f.name.as_slice()),
            Entry::Dir(d) => is_visible(d.name.as_slice()),
            _ => false,
        };
        if listed {
            let mut p: usize = 0;
            while p < o.len() && !precedes_exec(entries, i, o[p])
                invariant
                    n == entries@.len(),
                    i < n,
                    p <= o@.len(),
                    forall|k: int| 0 <= k < o@.len() ==> #[trigger] o@[k] < i,
                    forall|k: int| 0 <= k < p ==> precedes(entries@, #[trigger] o@[k] as int, i as int),
                decreases o@.len() - p,
            {
                proof {
                    lemma_precedes_total(entries@, i as int, o@[p as int] as int);
                }
                p = p + 1;
            }
            let ghost old_o = o@;
            proof {
                assert forall|k: int| p <= k < old_o.len() implies precedes(
                    entries@,
                    i as int,
                    #[trigger] old_o[k] as int,
                ) by {
                    if k > p {
                        lemma_precedes_transitive(entries@, i as int, old_o[p as int] as int, old_o[k] as int);
                    }
                }
            }
            o.insert(p, i);
            proof {
                assert forall|k1: int, k2: int| 0 <= k1 < k2 < o@.len() implies precedes(
                    entries@,
                    #[trigger] o@[k1] as int,
                    #[trigger] o@[k2] as int,
                ) by {
                    if k2 < p {
                        assert(o@[k1] == old_o[k1] && o@[k2] == old_o[k2]);
                    } else if k2 == p {
                        assert(o@[k1] == old_o[k1]);
                    } else if k1 == p {
                        assert(o@[k2] == old_o[k2 - 1]);
                    } else if k1 < p {
                        assert(o@[k1] == old_o[k1] && o@[k2] == old_o[k2 - 1]);
                    } else {
                        assert(o@[k1] == old_o[k1 - 1] && o@[k2] == old_o[k2 - 1]);
                    }
                }
                assert forall|j: int| 0 <= j <= i && #[trigger] shown(entries@[j]) implies o@.contains(
                    j as usize,
                ) by {
                    if j == i {
                        assert(o@[p as int] == i);
                    } else {
                        assert(old_o.contains(j as usize));
                        let k = choose|k: int| 0 <= k < old_o.len() && old_o[k] == j as usize;
                        if k < p {
                            assert(o@[k] == j as usize);
                        } else {
                            assert(o@[k + 1] == j as usize);
                        }
                    }
                }
                assert forall|k: int| 0 <= k < o@.len() implies #[trigger] o@[k] < i + 1 && shown(
                    entries@[o@[k] as int],
                ) by {
                    if k < p {
                        assert(o@[k] == old_o[k]);
                    } else if k > p {
                        assert(o@[k] == old_o[k - 1]);
                    }
                }
            }
        }
        i = i + 1;
    }
    proof {
        assert(is_display_order(entries@, o@));
        lemma_display_order_unique(entries@, o@, display_order_of(entries@));
    }
    o
}

} // verus!
