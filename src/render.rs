use vstd::prelude::*;
use vstd::slice::slice_to_vec;
use vstd::utf8::{is_continuation_byte, valid_utf8};

use crate::classify::{category, is_utf8, text_extension, Classifier, ContentType};
use crate::measure::Measurement;
use crate::order::{display_order, display_order_of, is_display_order};
use crate::tree::{
    aggregate, fails, has_unreadable_entry, outcome, CountError, Directory, Entry, FileEntry,
};

verus! {

/// Names longer than this many bytes are cut and marked with `...`.
pub const NAME_LIMIT: usize = 60;

/// File names are padded to this many characters.
pub const NAME_WIDTH: usize = 20;

/// What a rendered line shows, which decides how it is highlighted.
#[derive(Clone, Copy, Debug, PartialEq, Eq, Structural)]
pub enum LineKind {
    Directory,
    File(ContentType),
}

/// One rendered line: `lead`, then `label` (the part a terminal may
/// highlight), then `pad` spaces, then `tail`. All text is UTF-8.
#[derive(Debug, PartialEq, Eq)]
pub struct TreeLine {
    pub lead: Vec<u8>,
    pub label: Vec<u8>,
    pub pad: usize,
    pub tail: Vec<u8>,
    pub kind: LineKind,
}

/// The contents of a rendered line.
pub struct LineModel {
    pub lead: Seq<u8>,
    pub label: Seq<u8>,
    pub pad: nat,
    pub tail: Seq<u8>,
    pub kind: LineKind,
}

impl TreeLine {
    pub open spec fn model(&self) -> LineModel {
        LineModel {
            lead: self.lead@,
            label: self.label@,
            pad: self.pad as nat,
            tail: self.tail@,
            kind: self.kind,
        }
    }
}

pub open spec fn models(v: Seq<TreeLine>) -> Seq<LineModel> {
    v.map_values(|l: TreeLine| l.model())
}

/// `├` in UTF-8.
pub open spec fn tee() -> Seq<u8> {
    seq![0xe2, 0x94, 0x9c]
}

/// `└` in UTF-8.
pub open spec fn corner() -> Seq<u8> {
    seq![0xe2, 0x94, 0x94]
}

/// `─` in UTF-8.
pub open spec fn dash() -> Seq<u8> {
    seq![0xe2, 0x94, 0x80]
}

pub open spec fn repeat(s: Seq<u8>, n: nat) -> Seq<u8>
    decreases n,
{
    if n == 0 {
        Seq::empty()
    } else {
        repeat(s, (n - 1) as nat) + s
    }
}

/// What precedes a directory's name at the given indent.
pub open spec fn dir_lead(indent: nat) -> Seq<u8> {
    if indent == 0 {
        Seq::empty()
    } else {
        tee() + repeat(dash(), indent)
    }
}

/// What precedes a file's connector at the given indent.
pub open spec fn file_margin(indent: nat) -> Seq<u8> {
    if indent == 0 {
        Seq::empty()
    } else {
        seq![0x7cu8] + repeat(seq![0x20u8], indent + 1)
    }
}

/// What precedes a file's name: the margin, `└` for the last file of its
/// directory and `├` otherwise, then two dashes.
pub open spec fn file_lead(indent: nat, last: bool) -> Seq<u8> {
    file_margin(indent) + (if last {
        corner()
    } else {
        tee()
    }) + dash() + dash()
}

/// The decimal digits of `n`.
pub open spec fn decimal(n: nat) -> Seq<u8>
    decreases n,
{
    if n < 10 {
        seq![(48 + n) as u8]
    } else {
        decimal(n / 10).push((48 + n % 10) as u8)
    }
}

/// The number of characters that UTF-8 text `s` holds.
pub open spec fn char_count(s: Seq<u8>) -> nat
    decreases s.len(),
{
    if s.len() == 0 {
        0
    } else {
        char_count(s.drop_last()) + if is_continuation_byte(s.last()) {
            0nat
        } else {
            1nat
        }
    }
}

/// The largest position at most `k` where `s` may be cut between characters.
pub open spec fn cut_at(s: Seq<u8>, k: int) -> int
    decreases k,
{
    if k <= 0 || k >= s.len() || !is_continuation_byte(s[k]) {
        k
    } else {
        cut_at(s, k - 1)
    }
}

/// How a file's name is shown: `?` when it is not text; cut to at most
/// `NAME_LIMIT` bytes on a character boundary and marked `...` when longer.
pub open spec fn file_label(name: Seq<u8>) -> Seq<u8> {
    if !valid_utf8(name) {
        seq![0x3fu8]
    } else if name.len() > NAME_LIMIT {
        name.subrange(0, cut_at(name, NAME_LIMIT as int)) + seq![0x2eu8, 0x2e, 0x2e]
    } else {
        name
    }
}

/// How a directory's name is shown: empty when it is not text.
pub open spec fn dir_label(name: Seq<u8>) -> Seq<u8> {
    if valid_utf8(name) {
        name
    } else {
        Seq::empty()
    }
}

/// Spaces that bring a label to `NAME_WIDTH` characters.
pub open spec fn pad_for(label: Seq<u8>) -> nat {
    if char_count(label) < NAME_WIDTH {
        (NAME_WIDTH - char_count(label)) as nat
    } else {
        0
    }
}

/// ` (<lines>L, <bytes>B)`.
pub open spec fn size_tail(m: Measurement) -> Seq<u8> {
    seq![0x20u8, 0x28] + decimal(m.lines as nat) + seq![0x4cu8, 0x2c, 0x20] + decimal(
        m.bytes as nat,
    ) + seq![0x42u8, 0x29]
}

pub open spec fn header_line(name: Seq<u8>, indent: nat) -> LineModel {
    LineModel {
        lead: dir_lead(indent),
        label: dir_label(name),
        pad: 0,
        tail: seq![0x2fu8],
        kind: LineKind::Directory,
    }
}

pub open spec fn file_line(f: FileEntry, indent: nat, last: bool) -> LineModel {
    LineModel {
        lead: file_lead(indent, last),
        label: file_label(f.name@),
        pad: pad_for(file_label(f.name@)),
        tail: size_tail(f.size),
        kind: LineKind::File(category(text_extension(f.name@), f.name@, f.executable)),
    }
}

/// The lines of a directory rendered at `indent`: its header, then each
/// shown entry in display order. A file is one line; a subdirectory is its
/// own rendering two steps deeper, or nothing when it fails.
pub open spec fn dir_lines(d: Directory, indent: nat) -> Seq<LineModel>
    decreases d, 0int,
{
    seq![header_line(d.name@, indent)] + listing(
        d.entries@,
        display_order_of(d.entries@),
        0,
        indent,
    )
}

/// Whether the entry at place `k` of order `o` is the last file listed.
pub open spec fn last_file(s: Seq<Entry>, o: Seq<usize>, k: int) -> bool {
    k + 1 >= o.len() || !(s[o[k + 1] as int] is File)
}

/// The lines of the entries at places `k..` of order `o`.
pub open spec fn listing(s: Seq<Entry>, o: Seq<usize>, k: int, indent: nat) -> Seq<LineModel>
    decreases s, o.len() - k,
{
    if k < 0 || k >= o.len() || o[k] >= s.len() {
        Seq::empty()
    } else {
        let here: Seq<LineModel> = match s[o[k] as int] {
            Entry::File(f) => seq![file_line(f, indent, last_file(s, o, k))],
            Entry::Dir(sub) => if fails(sub) {
                Seq::empty()
            } else {
                dir_lines(sub, indent + 2)
            },
            _ => Seq::empty(),
        };
        here + listing(s, o, k + 1, indent)
    }
}


proof fn lemma_models_push(v: Seq<TreeLine>, x: TreeLine)
    ensures
        models(v.push(x)) == models(v).push(x.model()),
{
    assert(models(v.push(x)) =~= models(v).push(x.model()));
}

proof fn lemma_repeat_two_more(s: Seq<u8>, n: nat)
    ensures
        repeat(s, n + 2) == repeat(s, n) + s + s,
{
    assert(repeat(s, n + 2) == repeat(s, n + 1) + s);
    assert(repeat(s, n + 1) == repeat(s, n) + s);
    assert(repeat(s, n + 2) =~= repeat(s, n) + s + s);
}

fn extend(out: &mut Vec<u8>, b: &[u8])
    ensures
        final(out)@ == old(out)@ + b@,
{
    let ghost start = out@;
    let mut i: usize = 0;
    while i < b.len()
        invariant
            i <= b@.len(),
            out@ == start + b@.subrange(0, i as int),
        decreases b@.len() - i,
    {
        out.push(b[i]);
        i = i + 1;
        assert(out@ =~= start + b@.subrange(0, i as int));
    }
    assert(b@.subrange(0, b@.len() as int) =~= b@);
}

fn push_tee(out: &mut Vec<u8>)
    ensures
        final(out)@ == old(out)@ + tee(),
{
    out.push(0xe2);
    out.push(0x94);
    out.push(0x9c);
    assert(out@ =~= old(out)@ + tee());
}

fn push_corner(out: &mut Vec<u8>)
    ensures
        final(out)@ == old(out)@ + corner(),
{
    out.push(0xe2);
    out.push(0x94);
    out.push(0x94);
    assert(out@ =~= old(out)@ + corner());
}

fn push_dash(out: &mut Vec<u8>)
    ensures
        final(out)@ == old(out)@ + dash(),
{
    out.push(0xe2);
    out.push(0x94);
    out.push(0x80);
    assert(out@ =~= old(out)@ + dash());
}

/// Appends the decimal digits of `n`.
fn push_decimal(out: &mut Vec<u8>, n: u128)
    ensures
        final(out)@ == old(out)@ + decimal(n as nat),
    decreases n,
{
    if n >= 10 {
        push_decimal(out, n / 10);
    }
    let digit: u8 = (n % 10) as u8;
    out.push(48 + digit);
    assert(out@ =~= old(out)@ + decimal(n as nat));
}

fn count_chars(s: &[u8]) -> (r: usize)
    ensures
        r == char_count(s@),
{
    let mut count: usize = 0;
    let mut i: usize = 0;
    while i < s.len()
        invariant
            i <= s@.len(),
            count <= i,
            count == char_count(s@.subrange(0, i as int)),
        decreases s@.len() - i,
    {
        assert(s@.subrange(0, i as int + 1).drop_last() =~= s@.subrange(0, i as int));
        if !(0x80 <= s[i] && s[i] <= 0xbf) {
            count = count + 1;
        }
        i = i + 1;
    }
    assert(s@.subrange(0, s@.len() as int) =~= s@);
    count
}

fn cut_point(s: &[u8], k: usize) -> (r: usize)
    requires
        k < s@.len(),
    ensures
        r == cut_at(s@, k as int),
        r <= k,
{
    let mut j: usize = k;
    while j > 0 && 0x80 <= s[j] && s[j] <= 0xbf
        invariant
            j <= k < s@.len(),
            cut_at(s@, k as int) == cut_at(s@, j as int),
        decreases j,
    {
        j = j - 1;
    }
    j
}

fn file_label_of(name: &[u8]) -> (r: Vec<u8>)
    ensures
        r@ == file_label(name@),
{
    if !is_utf8(name) {
        vec![0x3f]
    } else if name.len() > NAME_LIMIT {
        let cut = cut_point(name, NAME_LIMIT);
        let mut label = slice_to_vec(vstd::slice::slice_subrange(name, 0, cut));
        label.push(0x2e);
        label.push(0x2e);
        label.push(0x2e);
        assert(label@ =~= file_label(name@));
        label
    } else {
        slice_to_vec(name)
    }
}

fn size_tail_of(m: Measurement) -> (r: Vec<u8>)
    ensures
        r@ == size_tail(m),
{
    let mut tail: Vec<u8> = vec![0x20, 0x28];
    push_decimal(&mut tail, m.lines);
    extend(&mut tail, vec![0x4cu8, 0x2c, 0x20].as_slice());
    push_decimal(&mut tail, m.bytes);
    extend(&mut tail, vec![0x42u8, 0x29].as_slice());
    assert(tail@ =~= size_tail(m));
    tail
}

/// The leads of one indent level.
struct Margin {
    dir_lead: Vec<u8>,
    file_margin: Vec<u8>,
    top: bool,
}

impl Margin {
    spec fn wf(&self, indent: nat) -> bool {
        &&& self.dir_lead@ == dir_lead(indent)
        &&& self.file_margin@ == file_margin(indent)
        &&& self.top == (indent == 0)
    }

    fn top() -> (r: Margin)
        ensures
            r.wf(0),
    {
        Margin { dir_lead: Vec::new(), file_margin: Vec::new(), top: true }
    }

    /// The margin two steps deeper.
    fn deeper(&self, Ghost(indent): Ghost<nat>) -> (r: Margin)
        requires
            self.wf(indent),
        ensures
            r.wf(indent + 2),
    {
        proof {
            lemma_repeat_two_more(dash(), indent);
            lemma_repeat_two_more(seq![0x20u8], indent + 1);
        }
        let mut dl = Vec::new();
        let mut fm = Vec::new();
        if self.top {
            push_tee(&mut dl);
            fm.push(0x7c);
            extend(&mut fm, vec![0x20u8, 0x20, 0x20].as_slice());
            proof {
                assert(repeat(dash(), 0) =~= Seq::<u8>::empty());
                assert(repeat(seq![0x20u8], 0) =~= Seq::<u8>::empty());
                assert(repeat(seq![0x20u8], 1) =~= seq![0x20u8]);
            }
        } else {
            dl = slice_to_vec(self.dir_lead.as_slice());
            fm = slice_to_vec(self.file_margin.as_slice());
            extend(&mut fm, vec![0x20u8, 0x20].as_slice());
        }
        push_dash(&mut dl);
        push_dash(&mut dl);
        assert(dl@ =~= dir_lead(indent + 2));
        assert(fm@ =~= file_margin(indent + 2));
        Margin { dir_lead: dl, file_margin: fm, top: false }
    }
}

fn header_of(d: &Directory, margin: &Margin, Ghost(indent): Ghost<nat>) -> (r: TreeLine)
    requires
        margin.wf(indent),
    ensures
        r.model() == header_line(d.name@, indent),
{
    let label = if is_utf8(d.name.as_slice()) {
        slice_to_vec(d.name.as_slice())
    } else {
        Vec::new()
    };
    let line = TreeLine {
        lead: slice_to_vec(margin.dir_lead.as_slice()),
        label,
        pad: 0,
        tail: vec![0x2f],
        kind: LineKind::Directory,
    };
    assert(line.model().tail =~= seq![0x2fu8]);
    line
}

fn file_line_of(
    f: &FileEntry,
    margin: &Margin,
    Ghost(indent): Ghost<nat>,
    last: bool,
    classifier: &Classifier,
) -> (r: TreeLine)
    requires
        margin.wf(indent),
        classifier.wf(),
    ensures
        r.model() == file_line(*f, indent, last),
{
    let mut lead = slice_to_vec(margin.file_margin.as_slice());
    if last {
        push_corner(&mut lead);
    } else {
        push_tee(&mut lead);
    }
    push_dash(&mut lead);
    push_dash(&mut lead);
    let label = file_label_of(f.name.as_slice());
    let chars = count_chars(label.as_slice());
    let pad = if chars < NAME_WIDTH {
        NAME_WIDTH - chars
    } else {
        0
    };
    let kind = LineKind::File(classifier.content_type(f.name.as_slice(), f.executable));
    TreeLine { lead, label, pad, tail: size_tail_of(f.size), kind }
}

/// Appends the lines of `d` rendered at `indent`.
fn render_lines(
    d: &Directory,
    margin: &Margin,
    Ghost(indent): Ghost<nat>,
    classifier: &Classifier,
    out: &mut Vec<TreeLine>,
)
    requires
        margin.wf(indent),
        classifier.wf(),
    ensures
        models(final(out)@) == models(old(out)@) + dir_lines(*d, indent),
    decreases d,
{
    let ghost s = d.entries@;
    let ghost start = models(out@);
    let header = header_of(d, margin, Ghost(indent));
    proof {
        lemma_models_push(out@, header);
    }
    out.push(header);
    let order = display_order(&d.entries);
    let ghost o = order@;
    let ghost head = start.push(header_line(d.name@, indent));
    let mut k: usize = 0;
    while k < order.len()
        invariant
            margin.wf(indent),
            classifier.wf(),
            s == d.entries@,
            o == order@,
            o == display_order_of(s),
            is_display_order(s, o),
            k <= o.len(),
            models(out@) + listing(s, o, k as int, indent) == head + listing(s, o, 0, indent),
        decreases o.len() - k,
    {
        let ghost before = models(out@);
        let idx = order[k];
        match &d.entries[idx] {
            Entry::File(f) => {
                let last = k + 1 >= order.len() || !matches!(&d.entries[order[k + 1]], Entry::File(_));
                let line = file_line_of(f, margin, Ghost(indent), last, classifier);
                proof {
                    lemma_models_push(out@, line);
                }
                out.push(line);
            },
            Entry::Dir(sub) => {
                if !has_unreadable_entry(sub) {
                    let deeper = margin.deeper(Ghost(indent));
                    render_lines(sub, &deeper, Ghost(indent + 2), classifier, out);
                }
            },
            _ => {},
        }
        assert(models(out@) + listing(s, o, k as int + 1, indent) =~= before + listing(
            s,
            o,
            k as int,
            indent,
        ));
        k = k + 1;
    }
    assert(listing(s, o, k as int, indent) =~= Seq::<LineModel>::empty());
    assert(models(out@) =~= start + dir_lines(*d, indent));
}

/// A rendered tree and its total.
pub struct Rendering {
    pub lines: Vec<TreeLine>,
    pub total: Measurement,
}

/// Renders the tree under `root` as ordered lines, with its total.
///
/// Fails exactly when counting fails (see `aggregate`). The root's header
/// comes first; in every directory its visible files follow in ascending
/// name order, then its visible subdirectories in ascending name order, each
/// rendered two steps deeper. Skipped subdirectories show no lines; hidden
/// entries (a hidden directory with all it holds) show none either, though
/// they still count.
pub fn render(root: &Directory) -> (r: Result<Rendering, CountError>)
    ensures
        match r {
            Ok(x) => outcome(*root) == Ok::<Measurement, CountError>(x.total) && models(x.lines@)
                == dir_lines(*root, 0),
            Err(e) => outcome(*root) == Err::<Measurement, CountError>(e),
        },
{
    let total = match aggregate(root) {
        Ok(m) => m,
        Err(e) => {
            return Err(e);
        },
    };
    let classifier = Classifier::new();
    let margin = Margin::top();
    let mut lines: Vec<TreeLine> = Vec::new();
    render_lines(root, &margin, Ghost(0), &classifier, &mut lines);
    assert(models(Seq::<TreeLine>::empty()) =~= Seq::<LineModel>::empty());
    assert(Seq::<LineModel>::empty() + dir_lines(*root, 0) =~= dir_lines(*root, 0));
    Ok(Rendering { lines, total })
}

} // verus!
