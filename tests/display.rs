use lc::{
    display_order, extension_start, format_byte_count, gitignore_patterns, is_unix_executable,
    is_visible, name_lt, render, Classifier, ContentType, CountError, Directory, Entry, FileEntry,
    LineKind, Measurement, TreeLine,
};

fn file(name: &str, content: &str) -> Entry {
    Entry::File(FileEntry {
        name: name.as_bytes().to_vec(),
        executable: false,
        size: lc::measure(content.as_bytes()),
    })
}

fn dir(name: &str, entries: Vec<Entry>) -> Directory {
    Directory { name: name.as_bytes().to_vec(), entries }
}

fn text(line: &TreeLine) -> String {
    let mut bytes = line.lead.clone();
    bytes.extend_from_slice(&line.label);
    bytes.extend(std::iter::repeat(b' ').take(line.pad));
    bytes.extend_from_slice(&line.tail);
    String::from_utf8(bytes).unwrap()
}

#[test]
fn seven_categories() {
    let c = Classifier::new();
    assert_eq!(c.content_type(b"main.rs", false), ContentType::Code);
    assert_eq!(c.content_type(b"photo.png", false), ContentType::Media);
    assert_eq!(c.content_type(b"build.sh", false), ContentType::Executable);
    assert_eq!(c.content_type(b"notes.txt", false), ContentType::Text);
    assert_eq!(c.content_type(b"LICENSE", false), ContentType::License);
    assert_eq!(c.content_type(b"Makefile", false), ContentType::Makefile);
    assert_eq!(c.content_type(b"data.xyz", false), ContentType::Normal);
}

#[test]
fn classification_is_repeatable() {
    let c = Classifier::new();
    for (name, exec) in [(&b"a.rs"[..], false), (b"b.mp4", true), (b"c.weird", true), (b"README", false)] {
        assert_eq!(c.content_type(name, exec), c.content_type(name, exec));
        assert_eq!(Classifier::new().content_type(name, exec), c.content_type(name, exec));
    }
}

#[test]
fn first_matching_rule_wins() {
    let c = Classifier::new();
    assert_eq!(c.content_type(b"lib.jar", false), ContentType::Code);
    assert_eq!(c.content_type(b"README.md", true), ContentType::Code);
    assert_eq!(c.content_type(b"clip.mp4", true), ContentType::Media);
}

#[test]
fn execute_bit_marks_executables() {
    let c = Classifier::new();
    assert_eq!(c.content_type(b"tool.xyz", true), ContentType::Executable);
    assert_eq!(c.content_type(b"notes.txt", true), ContentType::Text);
    assert_eq!(c.content_type(b"tool", true), ContentType::Executable);
    assert_eq!(c.content_type(b"tool", false), ContentType::Normal);
    assert_eq!(c.content_type(b"LICENSE", true), ContentType::Executable);
    assert_eq!(c.content_type(b"Makefile", true), ContentType::Executable);
}

#[test]
fn extension_needs_a_stem_and_valid_text() {
    let c = Classifier::new();
    assert_eq!(extension_start(b"a.tar.gz"), Some(6));
    assert_eq!(extension_start(b".gitignore"), None);
    assert_eq!(extension_start(b"noext"), None);
    assert_eq!(extension_start(b"trailing."), Some(9));
    assert_eq!(extension_start(b".."), None);
    assert_eq!(c.content_type(b".gitignore", false), ContentType::Normal);
    assert_eq!(c.content_type(b"x.gitignore", false), ContentType::Code);
    let bad: Vec<u8> = vec![b'a', b'.', 0xff];
    assert_eq!(c.content_type(&bad, true), ContentType::Executable);
    assert_eq!(c.content_type(&bad, false), ContentType::Normal);
    let good: Vec<u8> = vec![b'a', b'.', 0xc3, 0xa9];
    assert_eq!(c.content_type(&good, true), ContentType::Executable);
}

#[test]
fn classify_takes_extension_name_and_bit() {
    let c = Classifier::new();
    assert_eq!(c.classify(Some(b"py"), b"x.py", false), ContentType::Code);
    assert_eq!(c.classify(None, b"Makefile", false), ContentType::Makefile);
    assert_eq!(c.classify(None, b"Makefile", true), ContentType::Executable);
    assert_eq!(c.classify(Some(b"bin"), b"x.bin", false), ContentType::Executable);
    assert_eq!(c.classify(None, b"x", false), ContentType::Normal);
}

#[test]
fn any_execute_bit_counts() {
    assert!(is_unix_executable(0o755));
    assert!(is_unix_executable(0o100));
    assert!(is_unix_executable(0o001));
    assert!(!is_unix_executable(0o644));
    assert!(!is_unix_executable(0o40644));
}

#[test]
fn hidden_names_begin_with_a_dot() {
    assert!(!is_visible(b".git"));
    assert!(is_visible(b"src"));
    assert!(is_visible(b""));
}

#[test]
fn names_compare_bytewise() {
    assert!(name_lt(b"B", b"a"));
    assert!(name_lt(b"a", b"ab"));
    assert!(!name_lt(b"ab", b"ab"));
    assert!(!name_lt(b"b", b"ab"));
}

#[test]
fn files_before_directories_each_sorted() {
    let entries = vec![
        Entry::Dir(dir("zeta", vec![])),
        file("b.rs", ""),
        Entry::Dir(dir("alpha", vec![])),
        file(".hidden", ""),
        file("a.rs", ""),
        Entry::Other(b"fifo".to_vec()),
        Entry::Unlisted(b"locked".to_vec()),
        Entry::Dir(dir(".git", vec![])),
    ];
    assert_eq!(display_order(&entries), vec![4, 1, 2, 0]);
}

#[test]
fn renders_tree_in_display_order() {
    let root = dir(
        "proj",
        vec![
            Entry::Dir(dir("sub", vec![file("b.md", "hi\n")])),
            file("x.rs", "a\nb\nc\n"),
            file(".hidden", "zz\n"),
            file("a.txt", ""),
        ],
    );
    let r = render(&root).unwrap();
    assert_eq!(r.total, Measurement { lines: 5, bytes: 12 });
    let lines: Vec<String> = r.lines.iter().map(text).collect();
    assert_eq!(
        lines,
        vec![
            "proj/".to_string(),
            "├──a.txt                (0L, 0B)".to_string(),
            "└──x.rs                 (3L, 6B)".to_string(),
            "├──sub/".to_string(),
            "|   └──b.md                 (1L, 3B)".to_string(),
        ]
    );
    let kinds: Vec<LineKind> = r.lines.iter().map(|l| l.kind).collect();
    assert_eq!(
        kinds,
        vec![
            LineKind::Directory,
            LineKind::File(ContentType::Text),
            LineKind::File(ContentType::Code),
            LineKind::Directory,
            LineKind::File(ContentType::Code),
        ]
    );
    assert_eq!(r.lines[1].label, b"a.txt".to_vec());
    assert_eq!(r.lines[1].pad, 15);
}

#[test]
fn deeper_levels_indent_two_more() {
    let root = dir(
        "r",
        vec![Entry::Dir(dir("a", vec![Entry::Dir(dir("b", vec![file("f", "1\n")]))]))],
    );
    let lines: Vec<String> = render(&root).unwrap().lines.iter().map(text).collect();
    assert_eq!(
        lines,
        vec![
            "r/".to_string(),
            "├──a/".to_string(),
            "├────b/".to_string(),
            "|     └──f                    (1L, 2B)".to_string(),
        ]
    );
}

#[test]
fn skipped_subtrees_render_nothing() {
    let broken = dir("broken", vec![file("c", "1\n"), Entry::Unreadable(b"d".to_vec())]);
    let root = dir("r", vec![Entry::Dir(broken), Entry::Unlisted(b"locked".to_vec()), file("a", "x")]);
    let r = render(&root).unwrap();
    let lines: Vec<String> = r.lines.iter().map(text).collect();
    assert_eq!(lines, vec!["r/".to_string(), "└──a                    (1L, 1B)".to_string()]);
    assert_eq!(r.total, Measurement { lines: 1, bytes: 1 });
    let failing = dir("r", vec![Entry::Unreadable(b"x".to_vec())]);
    assert_eq!(render(&failing).err(), Some(CountError::UnreadableEntry));
}

#[test]
fn long_and_invalid_names_are_shortened() {
    let long = "n".repeat(70);
    let bad = Entry::File(FileEntry {
        name: vec![b'z', 0xff],
        executable: false,
        size: Measurement { lines: 0, bytes: 0 },
    });
    let root = dir("r", vec![file(&long, ""), bad]);
    let r = render(&root).unwrap();
    assert_eq!(r.lines[1].label, format!("{}...", "n".repeat(60)).into_bytes());
    assert_eq!(r.lines[1].pad, 0);
    assert_eq!(r.lines[2].label, b"?".to_vec());
    let accented = "é".repeat(31);
    let root = dir("r", vec![file(&accented, "")]);
    let r = render(&root).unwrap();
    assert_eq!(r.lines[1].label, format!("{}...", "é".repeat(30)).into_bytes());
}

#[test]
fn byte_counts_for_people() {
    assert_eq!(format_byte_count(0), "0 B");
    assert_eq!(format_byte_count(1999), "1999 B");
    assert_eq!(format_byte_count(2000), "2 KB");
    assert_eq!(format_byte_count(2500), "2.5 KB");
    assert_eq!(format_byte_count(1_999_999), "1999.999 KB");
    assert_eq!(format_byte_count(2_500_000), "2.5 MB");
    assert_eq!(format_byte_count(12_345_678), "12.345678 MB");
    assert_eq!(format_byte_count(3_000_000_000), "3 GB");
    assert_eq!(format_byte_count(2_000_000_001), "2.000000001 GB");
    assert_eq!(format_byte_count(2_050_000_000), "2.05 GB");
}

#[test]
fn gitignore_lines_become_patterns() {
    let p = gitignore_patterns(b"/target\nnode_modules\r\n*.log");
    assert_eq!(p, vec![b"target".to_vec(), b"node_modules".to_vec(), b"*.log".to_vec()]);
    assert_eq!(gitignore_patterns(b""), Vec::<Vec<u8>>::new());
    let p = gitignore_patterns(b"a\n\n/b\n");
    assert_eq!(p, vec![b"a".to_vec(), b"".to_vec(), b"b".to_vec()]);
    let p = gitignore_patterns(b"x\r");
    assert_eq!(p, vec![b"x\r".to_vec()]);
}
