use lc::{
    aggregate, count_lines, get_totals, has_unreadable_entry, measure, CountError, Directory,
    Entry, FileEntry, Measurement, Tally,
};

fn file(name: &str, content: &str) -> Entry {
    Entry::File(FileEntry {
        name: name.as_bytes().to_vec(),
        executable: false,
        size: measure(content.as_bytes()),
    })
}

fn dir(name: &str, entries: Vec<Entry>) -> Directory {
    Directory { name: name.as_bytes().to_vec(), entries }
}

fn m(lines: u128, bytes: u128) -> Measurement {
    Measurement { lines, bytes }
}

#[test]
fn empty_content_has_no_lines_or_bytes() {
    assert_eq!(measure(b""), m(0, 0));
}

#[test]
fn final_unterminated_line_counts() {
    assert_eq!(count_lines(b"a\nb"), 2);
    assert_eq!(measure(b"a\nb"), m(2, 3));
}

#[test]
fn terminated_lines_count_once() {
    assert_eq!(count_lines(b"a\nb\n"), 2);
    assert_eq!(count_lines(b"\n"), 1);
    assert_eq!(count_lines(b"\n\n\n"), 3);
    assert_eq!(count_lines(b"abc"), 1);
}

#[test]
fn carriage_returns_do_not_end_lines() {
    assert_eq!(count_lines(b"a\r\nb\r\n"), 2);
    assert_eq!(count_lines(b"a\rb\r"), 1);
}

#[test]
fn invalid_text_counts_raw_bytes() {
    let content: Vec<u8> = vec![0xff, 0xfe, 10, 0xc3];
    assert_eq!(measure(&content), m(2, 4));
}

#[test]
fn file_and_subdirectory_aggregate() {
    let root = dir(
        "root",
        vec![
            file("x.rs", "a\nb\nc\n"),
            Entry::Dir(dir("sub", vec![file("y.md", "hi\n")])),
        ],
    );
    assert_eq!(aggregate(&root), Ok(m(4, 9)));
}

#[test]
fn nested_tree_sums_every_file() {
    let root = dir(
        "root",
        vec![
            file("a", "1\n2\n"),
            Entry::Dir(dir(
                "b",
                vec![
                    file("c", "x"),
                    Entry::Dir(dir("d", vec![file("e", "p\nq\nr"), file(".f", "\n")])),
                    Entry::Other(b"socket".to_vec()),
                ],
            )),
            Entry::Dir(dir("empty", vec![])),
        ],
    );
    assert_eq!(aggregate(&root), Ok(m(2 + 1 + 3 + 1, 4 + 1 + 5 + 1)));
}

#[test]
fn entry_order_does_not_change_totals() {
    let forward = dir(
        "r",
        vec![
            file("a", "1\n"),
            Entry::Dir(dir("s", vec![file("b", "22\n33\n")])),
            file("c", "444"),
            Entry::Unlisted(b"locked".to_vec()),
        ],
    );
    let backward = dir(
        "r",
        vec![
            Entry::Unlisted(b"locked".to_vec()),
            file("c", "444"),
            Entry::Dir(dir("s", vec![file("b", "22\n33\n")])),
            file("a", "1\n"),
        ],
    );
    assert_eq!(aggregate(&forward), aggregate(&backward));
    assert_eq!(aggregate(&forward), Ok(m(4, 11)));
}

#[test]
fn unreadable_subdirectories_are_skipped() {
    let root = dir(
        "root",
        vec![
            file("a.rs", "x\ny\n"),
            Entry::Unlisted(b"private".to_vec()),
            Entry::Dir(dir("ok", vec![file("b", "z\n")])),
        ],
    );
    assert_eq!(aggregate(&root), Ok(m(3, 6)));

    let broken = dir("broken", vec![file("c", "1\n2\n3\n"), Entry::Unreadable(b"d".to_vec())]);
    let root = dir("root", vec![file("a.rs", "x\ny\n"), Entry::Dir(broken)]);
    assert_eq!(aggregate(&root), Ok(m(2, 4)));
}

#[test]
fn unreadable_entry_fails_its_directory() {
    let root = dir("root", vec![file("a", "x\n"), Entry::Unreadable(b"b".to_vec())]);
    assert!(has_unreadable_entry(&root));
    assert_eq!(aggregate(&root), Err(CountError::UnreadableEntry));
}

#[test]
fn totals_past_128_bits_overflow() {
    let big = |name: &str| {
        Entry::File(FileEntry {
            name: name.as_bytes().to_vec(),
            executable: false,
            size: m(u128::MAX, 1),
        })
    };
    let root = dir("root", vec![big("a"), big("b")]);
    assert_eq!(aggregate(&root), Err(CountError::Overflow));
    let nested = dir("root", vec![file("a", "1\n"), Entry::Dir(dir("s", vec![big("b")]))]);
    assert_eq!(aggregate(&nested), Err(CountError::Overflow));
    let single = dir("root", vec![big("a")]);
    assert_eq!(aggregate(&single), Ok(m(u128::MAX, 1)));
}

#[test]
fn tally_merges_subtree_results() {
    let mut tally = Tally::new();
    tally.add(m(2, 10));
    tally.merge(Ok(m(3, 5)));
    tally.merge(Err(CountError::UnreadableEntry));
    assert_eq!(get_totals(&tally), Ok((5, 15)));
    tally.merge(Err(CountError::Overflow));
    assert_eq!(get_totals(&tally), Err(CountError::Overflow));
    tally.add(m(1, 1));
    assert_eq!(get_totals(&tally), Err(CountError::Overflow));
}
