use vstd::prelude::*;
use vstd::slice::slice_subrange;
use vstd::string::StringSliceAdditionalSpecFns;
use vstd::utf8::valid_utf8;

verus! {

/// The byte `.`.
pub const DOT: u8 = 46;

/// A display-only category of a file's likely purpose.
#[derive(Clone, Copy, Debug, PartialEq, Eq, Structural)]
pub enum ContentType {
    Code,
    Media,
    Executable,
    Text,
    License,
    Makefile,
    Normal,
}

/// Extensions of source code, markup, configuration and build files.
pub open spec fn code_extensions() -> Seq<&'static str> {
    seq![
        "c", "h", "cpp", "hpp", "cc", "cxx", "hh", "hxx", "cs", "java", "class", "jar", "kt",
        "kts", "js", "jsx", "mjs", "cjs", "ts", "tsx", "py", "pyc", "pyd", "pyo", "rb", "erb",
        "php", "phar", "go", "rs", "rlib", "swift", "dart", "scala", "lua", "r", "pl", "pm", "sql",
        "html", "htm", "xhtml", "xml", "css", "scss", "sass", "json", "yaml", "yml", "toml",
        "env", "ini", "cfg", "md", "rst", "cmake", "mk", "dockerfile", "dockerignore",
        "gitignore", "gitattributes",
    ]
}

/// Extensions of images, audio and video.
pub open spec fn media_extensions() -> Seq<&'static str> {
    seq![
        "png", "jpg", "jpeg", "gif", "bmp", "tiff", "tif", "webp", "svg", "ico", "heic", "avif",
        "mp3", "wav", "flac", "aac", "ogg", "opus", "m4a", "wma", "aiff", "alac", "amr",
        "mp4", "mkv", "avi", "mov", "wmv", "flv", "webm", "m4v", "mpeg", "mpg", "3gp", "ogv",
    ]
}

/// Extensions of programs and scripts.
pub open spec fn executable_extensions() -> Seq<&'static str> {
    seq![
        "exe", "bat", "cmd", "msi", "run", "out", "bin", "app", "jar", "sh", "bash", "zsh",
        "ps1", "psm1", "psd1",
    ]
}

/// Extensions of plain text, logs and documents.
pub open spec fn text_extensions() -> Seq<&'static str> {
    seq!["txt", "md", "rtf", "csv", "log", "pdf", "doc", "docx", "odt", "tex", "pages"]
}

/// Whether `word` spells one of the entries of `table`.
pub open spec fn listed(table: Seq<&'static str>, word: Seq<u8>) -> bool {
    exists|i: int| 0 <= i < table.len() && (#[trigger] table[i]).spec_bytes() == word
}

/// The category of a file with the given textual extension, name and
/// execute bit. The first rule that applies wins.
pub open spec fn category(extension: Option<Seq<u8>>, file_name: Seq<u8>, executable: bool) -> ContentType {
    if in_table(code_extensions(), extension) {
        ContentType::Code
    } else if in_table(media_extensions(), extension) {
        ContentType::Media
    } else if in_table(executable_extensions(), extension) || (executable && !in_table(
        text_extensions(),
        extension,
    )) {
        ContentType::Executable
    } else if in_table(text_extensions(), extension) {
        ContentType::Text
    } else if file_name == "LICENSE".spec_bytes() {
        ContentType::License
    } else if file_name == "Makefile".spec_bytes() {
        ContentType::Makefile
    } else {
        ContentType::Normal
    }
}

/// Whether an extension is present and in `table`; a missing extension is
/// in no table.
pub open spec fn in_table(table: Seq<&'static str>, extension: Option<Seq<u8>>) -> bool {
    match extension {
        Some(ext) => listed(table, ext),
        None => false,
    }
}

/// Position of the last `.` in `s`, or -1.
pub open spec fn last_dot(s: Seq<u8>) -> int
    decreases s.len(),
{
    if s.len() == 0 {
        -1
    } else if s.last() == DOT {
        s.len() - 1
    } else {
        last_dot(s.drop_last())
    }
}

/// The extension of a file name: what follows its last `.`, provided that
/// something precedes that dot. The name `..` has none.
pub open spec fn extension_of(name: Seq<u8>) -> Option<Seq<u8>> {
    if last_dot(name) > 0 && name != seq![DOT, DOT] {
        Some(name.subrange(last_dot(name) + 1, name.len() as int))
    } else {
        None
    }
}

/// The extension of a file name when it exists and is valid text.
pub open spec fn text_extension(name: Seq<u8>) -> Option<Seq<u8>> {
    match extension_of(name) {
        Some(ext) if valid_utf8(ext) => Some(ext),
        _ => None,
    }
}

/// Whether an entry is shown: its name does not begin with `.`.
pub open spec fn visible(name: Seq<u8>) -> bool {
    !(name.len() > 0 && name[0] == DOT)
}

/// Relies on std::str::from_utf8, which accepts exactly the well-formed
/// UTF-8 byte strings.
#[verifier::external_body]
pub(crate) fn is_utf8(b: &[u8]) -> (r: bool)
    ensures
        r == valid_utf8(b@),
{
    std::str::from_utf8(b).is_ok()
}

fn bytes_eq(a: &[u8], b: &[u8]) -> (r: bool)
    ensures
        r == (a@ == b@),
{
    if a.len() != b.len() {
        return false;
    }
    let mut i: usize = 0;
    while i < a.len()
        invariant
            a@.len() == b@.len(),
            i <= a@.len(),
            forall|j: int| 0 <= j < i ==> a@[j] == b@[j],
        decreases a@.len() - i,
    {
        if a[i] != b[i] {
            return false;
        }
        i = i + 1;
    }
    assert(a@ =~= b@);
    true
}

fn table_contains(table: &Vec<&'static str>, word: &[u8]) -> (r: bool)
    ensures
        r == listed(table@, word@),
{
    let mut i: usize = 0;
    while i < table.len()
        invariant
            i <= table@.len(),
            forall|j: int| 0 <= j < i ==> (#[trigger] table@[j]).spec_bytes() != word@,
        decreases table@.len() - i,
    {
        if bytes_eq(table[i].as_bytes(), word) {
            return true;
        }
        i = i + 1;
    }
    false
}

/// The extension tables, built once and shared by every classification.
pub struct Classifier {
    code: Vec<&'static str>,
    media: Vec<&'static str>,
    executables: Vec<&'static str>,
    text: Vec<&'static str>,
}

impl Classifier {
    pub closed spec fn wf(&self) -> bool {
        &&& self.code@ == code_extensions()
        &&& self.media@ == media_extensions()
        &&& self.executables@ == executable_extensions()
        &&& self.text@ == text_extensions()
    }

    pub fn new() -> (r: Classifier)
        ensures
            r.wf(),
    {
        let code = vec![
            "c", "h", "cpp", "hpp", "cc", "cxx", "hh", "hxx", "cs", "java", "class", "jar", "kt",
            "kts", "js", "jsx", "mjs", "cjs", "ts", "tsx", "py", "pyc", "pyd", "pyo", "rb", "erb",
            "php", "phar", "go", "rs", "rlib", "swift", "dart", "scala", "lua", "r", "pl", "pm",
            "sql", "html", "htm", "xhtml", "xml", "css", "scss", "sass", "json", "yaml", "yml",
            "toml", "env", "ini", "cfg", "md", "rst", "cmake", "mk", "dockerfile", "dockerignore",
            "gitignore", "gitattributes",
        ];
        let media = vec![
            "png", "jpg", "jpeg", "gif", "bmp", "tiff", "tif", "webp", "svg", "ico", "heic",
            "avif", "mp3", "wav", "flac", "aac", "ogg", "opus", "m4a", "wma", "aiff", "alac",
            "amr", "mp4", "mkv", "avi", "mov", "wmv", "flv", "webm", "m4v", "mpeg", "mpg", "3gp",
            "ogv",
        ];
        let executables = vec![
            "exe", "bat", "cmd", "msi", "run", "out", "bin", "app", "jar", "sh", "bash", "zsh",
            "ps1", "psm1", "psd1",
        ];
        let text = vec![
            "txt", "md", "rtf", "csv", "log", "pdf", "doc", "docx", "odt", "tex", "pages",
        ];
        assert(code@ =~= code_extensions());
        assert(media@ =~= media_extensions());
        assert(executables@ =~= executable_extensions());
        assert(text@ =~= text_extensions());
        Classifier { code, media, executables, text }
    }

    /// The category of a file from its textual extension (if any), its name
    /// and its execute bit.
    pub fn classify(&self, extension: Option<&[u8]>, file_name: &[u8], executable: bool) -> (r:
        ContentType)
        requires
            self.wf(),
        ensures
            r == category(
                match extension {
                    Some(e) => Some(e@),
                    None => None,
                },
                file_name@,
                executable,
            ),
    {
        let code = match extension {
            Some(ext) => table_contains(&self.code, ext),
            None => false,
        };
        if code {
            return ContentType::Code;
        }
        let media = match extension {
            Some(ext) => table_contains(&self.media, ext),
            None => false,
        };
        if media {
            return ContentType::Media;
        }
        let (program, text) = match extension {
            Some(ext) => (table_contains(&self.executables, ext), table_contains(&self.text, ext)),
            None => (false, false),
        };
        if program || (executable && !text) {
            return ContentType::Executable;
        }
        if text {
            return ContentType::Text;
        }
        if bytes_eq(file_name, "LICENSE".as_bytes()) {
            ContentType::License
        } else if bytes_eq(file_name, "Makefile".as_bytes()) {
            ContentType::Makefile
        } else {
            ContentType::Normal
        }
    }

    /// The category of a file from its name and its execute bit.
    pub fn content_type(&self, name: &[u8], executable: bool) -> (r: ContentType)
        requires
            self.wf(),
        ensures
            r == category(text_extension(name@), name@, executable),
    {
        match extension_start(name) {
            Some(start) => {
                let ext = slice_subrange(name, start, name.len());
                if is_utf8(ext) {
                    self.classify(Some(ext), name, executable)
                } else {
                    self.classify(None, name, executable)
                }
            },
            None => self.classify(None, name, executable),
        }
    }
}

/// Where a file name's extension starts, if it has one.
pub fn extension_start(name: &[u8]) -> (r: Option<usize>)
    ensures
        match extension_of(name@) {
            Some(ext) => r matches Some(start) && start <= name@.len() && ext == name@.subrange(
                start as int,
                name@.len() as int,
            ),
            None => r is None,
        },
{
    let n = name.len();
    let mut i: usize = n;
    assert(name@.subrange(0, n as int) =~= name@);
    while i > 0
        invariant
            n == name@.len(),
            i <= n,
            last_dot(name@) == last_dot(name@.subrange(0, i as int)),
            forall|j: int| i <= j < n ==> name@[j] != DOT,
        decreases i,
    {
        assert(name@.subrange(0, i as int).drop_last() =~= name@.subrange(0, i as int - 1));
        if name[i - 1] == DOT {
            if i == 1 || (n == 2 && name[0] == DOT) {
                proof {
                    if i == 2 && n == 2 && name@[0] == DOT {
                        assert(name@ =~= seq![DOT, DOT]);
                    }
                }
                return None;
            }
            proof {
                if name@ == seq![DOT, DOT] {
                    assert(name@[0] == DOT);
                }
            }
            return Some(i);
        }
        i = i - 1;
    }
    assert(name@.subrange(0, 0) =~= Seq::<u8>::empty());
    None
}

/// Whether a Unix permission mode has any of the execute bits set.
pub fn is_unix_executable(mode: u32) -> (r: bool)
    ensures
        r == (mode & 0o111 != 0),
{
    mode & 0o111 != 0
}

/// Whether an entry with this name is shown when rendering.
pub fn is_visible(name: &[u8]) -> (r: bool)
    ensures
        r == visible(name@),
{
    !(name.len() > 0 && name[0] == DOT)
}

} // verus!
