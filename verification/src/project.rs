//! Projects under watch: their kind, per-file statistics, the keys under
//! which those statistics are stored, and reading those keys back.

use vstd::prelude::*;
use vstd::string::*;
use vstd::utf8::*;
use crate::db::{concat_all, key_views, lemma_concat_all_six, make_key, Key};
use crate::text::{
    chars_of,
    decode,
    lemma_encode_utf8_concat,
    lemma_split_fields_append,
    lemma_split_fields_nonempty,
    lemma_split_fields_no_sep,
    split_fields,
    split_on,
};
use crate::timestamp::{lemma_rfc3339_chars, DateTimeSpec, UtcDateTime};

verus! {

/// The kind of a project directory.
#[derive(Debug, Clone, Copy, PartialEq, Eq, Structural)]
pub enum ProjectType {
    Rust,
    Go,
}

/// The kind of a project, told by whether its directory holds a
/// `Cargo.toml` manifest: with one it is a Rust project, else a Go project.
pub fn guess_type(has_cargo_manifest: bool) -> (r: ProjectType)
    ensures
        r == (if has_cargo_manifest { ProjectType::Rust } else { ProjectType::Go }),
{
    if has_cargo_manifest {
        ProjectType::Rust
    } else {
        ProjectType::Go
    }
}

/// Whether a scan of a configured project directory analyses it: only an
/// existing directory of a Go project is analysed.
pub fn should_analyze(dir_exists: bool, kind: ProjectType) -> (r: bool)
    ensures
        r == (dir_exists && kind == ProjectType::Go),
{
    if dir_exists {
        match kind {
            ProjectType::Go => true,
            ProjectType::Rust => false,
        }
    } else {
        false
    }
}

/// A project directory and the statistics of its files.
pub struct Project {
    path: String,
    files: Vec<FileInfo>,
}

/// The statistics of one file.
#[derive(Debug, Clone)]
pub struct FileInfo {
    pub path: String,
    pub lines: i32,
    pub extension: String,
}

/// What a file is taken to be.
#[derive(Debug, Clone, Copy, PartialEq, Eq, Structural)]
pub enum FileType {
    Unknown,
    Rust,
    Go,
    ELF,
    Text,
    Markdown,
}

/// Files larger than this many bytes are not read.
pub const MAX_READ_SIZE: u64 = 5_000_000;

/// The number of newline bytes in `b`.
pub open spec fn newline_count(b: Seq<u8>) -> nat
    decreases b.len(),
{
    if b.len() == 0 {
        0
    } else {
        newline_count(b.drop_last()) + if b.last() == 10 { 1nat } else { 0nat }
    }
}

/// The number of lines of `b`, as `BufRead::lines` yields them: one per
/// newline, and one more for text after the last newline.
pub open spec fn line_count(b: Seq<u8>) -> nat {
    newline_count(b) + if b.len() > 0 && b.last() != 10 { 1nat } else { 0nat }
}

/// Every byte of a text counts: the newlines of joined texts are those of
/// each, a single byte is a newline or not, and a text that follows a
/// complete line (or nothing) adds exactly its own lines.
pub proof fn law_line_count_concat(a: Seq<u8>, b: Seq<u8>, x: u8)
    ensures
        newline_count(a + b) == newline_count(a) + newline_count(b),
        newline_count(seq![x]) == (if x == 10 { 1nat } else { 0nat }),
        line_count(seq![x]) == 1,
        line_count(Seq::<u8>::empty()) == 0,
        (a.len() == 0 || a.last() == 10) ==> line_count(a + b) == line_count(a) + line_count(b),
    decreases b.len(),
{
    assert(seq![x].drop_last() =~= Seq::<u8>::empty());
    assert(seq![x].last() == x);
    assert(seq![x].len() == 1);
    assert(newline_count(Seq::<u8>::empty()) == 0);
    assert(newline_count(seq![x]) == newline_count(seq![x].drop_last()) + if seq![x].last() == 10 {
        1nat
    } else {
        0nat
    });
    if b.len() == 0 {
        assert(a + b =~= a);
    } else {
        law_line_count_concat(a, b.drop_last(), x);
        assert((a + b).drop_last() =~= a + b.drop_last());
        assert((a + b).last() == b.last());
        if a.len() == 0 || a.last() == 10 {
            assert((a + b).len() > 0);
        }
    }
}

proof fn lemma_newline_count_bound(b: Seq<u8>)
    ensures
        newline_count(b) <= b.len(),
    decreases b.len(),
{
    if b.len() > 0 {
        lemma_newline_count_bound(b.drop_last());
    }
}

/// The number of lines of `contents`.
pub fn count_lines(contents: &[u8]) -> (r: i32)
    requires
        contents@.len() <= i32::MAX,
    ensures
        r == line_count(contents@),
{
    let n = contents.len();
    let mut count: i32 = 0;
    let mut i: usize = 0;
    assert(contents@.take(0) =~= Seq::<u8>::empty());
    while i < n
        invariant
            n == contents@.len(),
            n <= i32::MAX,
            i <= n,
            count == newline_count(contents@.take(i as int)),
        decreases n - i,
    {
        proof {
            assert(contents@.take(i + 1).drop_last() =~= contents@.take(i as int));
            lemma_newline_count_bound(contents@.take(i + 1));
        }
        if contents[i] == 10 {
            count = count + 1;
        }
        i = i + 1;
    }
    assert(contents@.take(n as int) =~= contents@);
    proof {
        if n > 0 {
            lemma_newline_count_bound(contents@.drop_last());
        }
    }
    if n > 0 && contents[n - 1] != 10 {
        count = count + 1;
    }
    count
}

impl FileInfo {
    /// The statistics recorded for a file that could not be measured.
    pub fn blank() -> (r: FileInfo)
        ensures
            r.path@ == "error"@,
            r.lines == 0,
            r.extension@ == Seq::<char>::empty(),
    {
        FileInfo { path: String::from_str("error"), lines: 0, extension: String::new() }
    }

    /// The statistics of the file at `path` with extension `extension` and
    /// size `size` in bytes, whose contents are `contents`: files larger than
    /// `MAX_READ_SIZE` are recorded as blank, the others by their line count.
    pub fn from_contents(path: String, extension: String, size: u64, contents: &[u8]) -> (r: FileInfo)
        requires
            size <= MAX_READ_SIZE ==> contents@.len() <= i32::MAX,
        ensures
            size > MAX_READ_SIZE ==> r.path@ == "error"@ && r.lines == 0 && r.extension@
                == Seq::<char>::empty(),
            size <= MAX_READ_SIZE ==> r.path@ == path@ && r.lines == line_count(contents@)
                && r.extension@ == extension@,
    {
        if size > MAX_READ_SIZE {
            return FileInfo::blank();
        }
        let count = count_lines(contents);
        FileInfo { path, lines: count, extension }
    }
}

/// Whether a directory entry with file name `name` is hidden: its name is
/// text that starts with a dot.
pub fn is_hidden(name: Option<&str>) -> (r: bool)
    ensures
        r == (name matches Some(s) && s@.len() > 0 && s@[0] == '.'),
{
    match name {
        Some(s) => {
            let cs = chars_of(s);
            cs.len() > 0 && cs[0] == '.'
        },
        None => false,
    }
}

/// Whether a directory entry with file name `name` is walked into: its
/// name is text other than `vendor`.
pub fn golang_files(name: Option<&str>) -> (r: bool)
    ensures
        r == (name matches Some(s) && s@ != "vendor"@),
{
    proof {
        reveal_strlit("vendor");
    }
    match name {
        Some(s) => {
            let cs = chars_of(s);
            let is_vendor = cs.len() == 6 && cs[0] == 'v' && cs[1] == 'e' && cs[2] == 'n' && cs[3] == 'd'
                && cs[4] == 'o' && cs[5] == 'r';
            assert(is_vendor <==> s@ =~= "vendor"@);
            !is_vendor
        },
        None => false,
    }
}

/// Whether the walk of a Go project visits a directory entry with file name
/// `name`: it is neither hidden nor named `vendor`.
pub fn walk_visits(name: Option<&str>) -> (r: bool)
    ensures
        r == (!(name matches Some(s) && s@.len() > 0 && s@[0] == '.') && (name matches Some(s) && s@
            != "vendor"@)),
{
    !is_hidden(name) && golang_files(name)
}

/// The text of the key of a file's statistics: `projects!`, the project
/// directory, `!`, the time of the scan, `!`, the file's path.
pub open spec fn file_key_text(project: Seq<char>, batch: DateTimeSpec, path: Seq<char>) -> Seq<char> {
    "projects!"@ + project + "!"@ + batch.rfc3339() + "!"@ + path
}

proof fn lemma_concat_six_encodings(
    a: Seq<char>,
    b: Seq<char>,
    c: Seq<char>,
    d: Seq<char>,
    e: Seq<char>,
    f: Seq<char>,
)
    ensures
        concat_all(seq![
            encode_utf8(a),
            encode_utf8(b),
            encode_utf8(c),
            encode_utf8(d),
            encode_utf8(e),
            encode_utf8(f),
        ]) == encode_utf8(a + b + c + d + e + f),
{
    lemma_concat_all_six(encode_utf8(a), encode_utf8(b), encode_utf8(c), encode_utf8(d), encode_utf8(e), encode_utf8(f));
    lemma_encode_utf8_concat(a, b);
    lemma_encode_utf8_concat(a + b, c);
    lemma_encode_utf8_concat(a + b + c, d);
    lemma_encode_utf8_concat(a + b + c + d, e);
    lemma_encode_utf8_concat(a + b + c + d + e, f);
}

/// The key under which the statistics of the file at `path`, found in the
/// scan of `project` that started at `batch`, are stored.
pub fn file_key(project: &str, batch: &UtcDateTime, path: &str) -> (r: Key)
    ensures
        r@ == encode_utf8(file_key_text(project@, batch@, path@)),
{
    let parts = [
        Key::from("projects!"),
        Key::from(project),
        Key::from("!"),
        Key::from(*batch),
        Key::from("!"),
        Key::from(path),
    ];
    let k = make_key(&parts);
    proof {
        assert(parts@[0]@ == encode_utf8("projects!"@));
        assert(parts@[5]@ == encode_utf8(path@));
        assert(key_views(parts@) =~= seq![
            encode_utf8("projects!"@),
            encode_utf8(project@),
            encode_utf8("!"@),
            encode_utf8(batch@.rfc3339()),
            encode_utf8("!"@),
            encode_utf8(path@),
        ]);
        lemma_concat_six_encodings("projects!"@, project@, "!"@, batch@.rfc3339(), "!"@, path@);
    }
    k
}

/// The second `!`-separated field of a stored key, taken as the project
/// directory; `unknown project` where the key has no second field.  The
/// key must be UTF-8 text.
pub fn get_projects(kv: (Box<[u8]>, Box<[u8]>)) -> (r: String)
    requires
        valid_utf8(kv.0@),
    ensures
        r@ == (if split_fields(decode_utf8(kv.0@), '!').len() > 1 {
            split_fields(decode_utf8(kv.0@), '!')[1]
        } else {
            "unknown project"@
        }),
{
    let key: &[u8] = &kv.0;
    let s = decode(key).unwrap();
    let mut fields = split_on(s.as_str(), '!');
    if fields.len() > 1 {
        fields.swap_remove(1)
    } else {
        String::from_str("unknown project")
    }
}

/// The third `!`-separated field of a stored key, taken as the time of the
/// scan that stored it.  The key must be UTF-8 text with at least three
/// fields.
pub fn get_timestamps(kv: (Box<[u8]>, Box<[u8]>)) -> (r: String)
    requires
        valid_utf8(kv.0@),
        split_fields(decode_utf8(kv.0@), '!').len() > 2,
    ensures
        r@ == split_fields(decode_utf8(kv.0@), '!')[2],
{
    let key: &[u8] = &kv.0;
    let s = decode(key).unwrap();
    let mut fields = split_on(s.as_str(), '!');
    fields.swap_remove(2)
}

/// Reading back the key of a file's statistics: when the project directory
/// holds no `!`, the key is UTF-8 text whose second field is the project
/// directory and whose third field is the RFC 3339 time of the scan, which
/// is what `get_projects` and `get_timestamps` return for it.
pub proof fn law_file_key_fields(project: Seq<char>, batch: DateTimeSpec, path: Seq<char>)
    requires
        !project.contains('!'),
    ensures
        valid_utf8(encode_utf8(file_key_text(project, batch, path))),
        decode_utf8(encode_utf8(file_key_text(project, batch, path))) == file_key_text(project, batch, path),
        split_fields(file_key_text(project, batch, path), '!').len() > 2,
        split_fields(file_key_text(project, batch, path), '!')[1] == project,
        split_fields(file_key_text(project, batch, path), '!')[2] == batch.rfc3339(),
{
    broadcast use vstd::utf8::group_utf8_lib;

    reveal_strlit("projects!");
    reveal_strlit("!");
    let head = seq!['p', 'r', 'o', 'j', 'e', 'c', 't', 's'];
    let bang = seq!['!'];
    let t = batch.rfc3339();
    lemma_rfc3339_chars(batch.year, batch.month, batch.day, batch.hour, batch.minute, batch.second, batch.nano);
    let r2 = t + bang + path;
    let r1 = project + bang + r2;
    let whole = head + bang + r1;
    assert(file_key_text(project, batch, path) =~= whole);
    assert(!head.contains('!')) by {
        if head.contains('!') {
            let i = choose|i: int| 0 <= i < head.len() && head[i] == '!';
            assert(head[i] != '!');
        }
    }
    lemma_split_fields_append(t, path, '!');
    lemma_split_fields_append(project, r2, '!');
    lemma_split_fields_append(head, r1, '!');
    lemma_split_fields_no_sep(head, '!');
    lemma_split_fields_no_sep(project, '!');
    lemma_split_fields_no_sep(t, '!');
    lemma_split_fields_nonempty(path, '!');
    let f = split_fields(whole, '!');
    assert(f == seq![head] + (seq![project] + (seq![t] + split_fields(path, '!'))));
    assert(f[1] == project);
    assert(f[2] == t);
}

/// The line count of stored statistics, or -1 where the stored value could
/// not be decoded.
pub fn yield_lines(decoded: Option<FileInfo>) -> (r: i32)
    ensures
        r == (match decoded {
            Some(fi) => fi.lines,
            None => -1i32,
        }),
{
    let fi = match decoded {
        Some(x) => x,
        None => FileInfo {
            extension: String::from_str("blah"),
            lines: -1,
            path: String::from_str("/foo/baz"),
        },
    };
    fi.lines
}

/// The change in line counts since `then`; no change is ever measured.
pub fn diff_since(then: UtcDateTime) -> (r: Option<i32>)
    ensures
        r == Some(0i32),
{
    Some(0)
}

} // verus!
