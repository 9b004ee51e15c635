//! Unified-diff viewer state: files and hunks parsed from `git diff` or
//! `diff -u` output, collapse, and a cursor over the flattened rows in a
//! unified or side-by-side layout.
//!
//! The model owns structure and navigation only; a renderer maps
//! [`LineKind`] to a colour. Old and new line numbers are assigned once,
//! while a hunk is read: a removed line advances only the old counter, an
//! added line only the new one.
use vstd::prelude::*;
use crate::diff_text::{
    chars_eq, git_header_path, git_path, has_prefix, hunk_lengths, hunk_starts, parse_hunk_header,
    parse_hunk_lengths,
    starts_with, strip_ab, strip_ab_prefix,
};
use crate::strings::{chars_of, lines_of, lines_spec, string_of};

verus! {

/// What a single diff row is. A renderer maps this to a colour.
#[derive(Debug, Clone, Copy, PartialEq, Eq, Structural)]
pub enum LineKind {
    /// Unchanged, present on both sides.
    Context,
    /// Present only in the new file.
    Added,
    /// Present only in the old file.
    Removed,
    /// `\ No newline at end of file`: metadata, on neither side.
    NoNewline,
}

/// One row inside a hunk.
#[derive(Debug)]
pub struct DiffLine {
    kind: LineKind,
    old_lineno: Option<u32>,
    new_lineno: Option<u32>,
    text: String,
}

/// What a [`DiffLine`] holds.
pub struct LineModel {
    pub kind: LineKind,
    pub old_lineno: Option<u32>,
    pub new_lineno: Option<u32>,
    pub text: Seq<char>,
}

impl View for DiffLine {
    type V = LineModel;

    closed spec fn view(&self) -> LineModel {
        LineModel {
            kind: self.kind,
            old_lineno: self.old_lineno,
            new_lineno: self.new_lineno,
            text: self.text@,
        }
    }
}

impl DiffLine {
    pub fn kind(&self) -> (r: LineKind)
        ensures
            r == self@.kind,
    {
        self.kind
    }

    /// Line number on the old side, or `None` for an added line.
    pub fn old_lineno(&self) -> (r: Option<u32>)
        ensures
            r == self@.old_lineno,
    {
        self.old_lineno
    }

    /// Line number on the new side, or `None` for a removed line.
    pub fn new_lineno(&self) -> (r: Option<u32>)
        ensures
            r == self@.new_lineno,
    {
        self.new_lineno
    }

    /// The line's content, without its leading `+`/`-`/space marker.
    pub fn text(&self) -> (r: &str)
        ensures
            r@ == self@.text,
    {
        self.text.as_str()
    }
}

/// The models of a sequence of lines.
pub open spec fn lines_model(v: Seq<DiffLine>) -> Seq<LineModel> {
    v.map_values(|l: DiffLine| l@)
}

/// How many of `lines` are of kind `k`.
pub open spec fn count_kind(lines: Seq<LineModel>, k: LineKind) -> nat
    decreases lines.len(),
{
    if lines.len() == 0 {
        0
    } else {
        count_kind(lines.drop_last(), k) + if lines.last().kind == k {
            1nat
        } else {
            0nat
        }
    }
}

proof fn lemma_count_kind_le(lines: Seq<LineModel>, k: LineKind)
    ensures
        count_kind(lines, k) <= lines.len(),
    decreases lines.len(),
{
    if lines.len() > 0 {
        lemma_count_kind_le(lines.drop_last(), k);
    }
}

/// One `@@ … @@` block.
#[derive(Debug)]
pub struct Hunk {
    header: String,
    old_start: u32,
    new_start: u32,
    lines: Vec<DiffLine>,
    collapsed: bool,
}

/// What a [`Hunk`] holds.
pub struct HunkModel {
    pub header: Seq<char>,
    pub old_start: u32,
    pub new_start: u32,
    pub lines: Seq<LineModel>,
    pub collapsed: bool,
}

impl View for Hunk {
    type V = HunkModel;

    closed spec fn view(&self) -> HunkModel {
        HunkModel {
            header: self.header@,
            old_start: self.old_start,
            new_start: self.new_start,
            lines: lines_model(self.lines@),
            collapsed: self.collapsed,
        }
    }
}

impl Hunk {
    /// The raw `@@ -a,b +c,d @@ trailing` header line.
    pub fn header(&self) -> (r: &str)
        ensures
            r@ == self@.header,
    {
        self.header.as_str()
    }

    pub fn old_start(&self) -> (r: u32)
        ensures
            r == self@.old_start,
    {
        self.old_start
    }

    pub fn new_start(&self) -> (r: u32)
        ensures
            r == self@.new_start,
    {
        self.new_start
    }

    pub fn lines(&self) -> (r: &[DiffLine])
        ensures
            lines_model(r@) == self@.lines,
    {
        self.lines.as_slice()
    }

    pub fn is_collapsed(&self) -> (r: bool)
        ensures
            r == self@.collapsed,
    {
        self.collapsed
    }

    /// `(added, removed)` for this hunk.
    pub fn stats(&self) -> (r: (usize, usize))
        ensures
            r.0 == count_kind(self@.lines, LineKind::Added),
            r.1 == count_kind(self@.lines, LineKind::Removed),
    {
        let mut a: usize = 0;
        let mut d: usize = 0;
        let mut i: usize = 0;
        while i < self.lines.len()
            invariant
                i <= self.lines@.len(),
                a == count_kind(lines_model(self.lines@.take(i as int)), LineKind::Added),
                d == count_kind(lines_model(self.lines@.take(i as int)), LineKind::Removed),
            decreases self.lines@.len() - i,
        {
            let ghost prev = lines_model(self.lines@.take(i as int));
            assert(lines_model(self.lines@.take(i + 1)).drop_last() =~= prev);
            assert(lines_model(self.lines@.take(i + 1)).last() == self.lines@[i as int]@);
            proof {
                lemma_count_kind_le(prev, LineKind::Added);
                lemma_count_kind_le(prev, LineKind::Removed);
            }
            if self.lines[i].kind == LineKind::Added {
                a += 1;
            }
            if self.lines[i].kind == LineKind::Removed {
                d += 1;
            }
            i += 1;
        }
        assert(self.lines@.take(self.lines@.len() as int) =~= self.lines@);
        (a, d)
    }
}

/// All hunks for one path.
#[derive(Debug)]
pub struct FileDiff {
    path: String,
    old_path: Option<String>,
    hunks: Vec<Hunk>,
    collapsed: bool,
    binary: bool,
}

/// What a [`FileDiff`] holds.
pub struct FileModel {
    pub path: Seq<char>,
    pub old_path: Option<Seq<char>>,
    pub hunks: Seq<HunkModel>,
    pub collapsed: bool,
    pub binary: bool,
}

pub open spec fn opt_view(o: Option<String>) -> Option<Seq<char>> {
    match o {
        Some(s) => Some(s@),
        None => None,
    }
}

pub open spec fn hunks_model(v: Seq<Hunk>) -> Seq<HunkModel> {
    v.map_values(|h: Hunk| h@)
}

impl View for FileDiff {
    type V = FileModel;

    closed spec fn view(&self) -> FileModel {
        FileModel {
            path: self.path@,
            old_path: opt_view(self.old_path),
            hunks: hunks_model(self.hunks@),
            collapsed: self.collapsed,
            binary: self.binary,
        }
    }
}

/// Added (or removed) lines over a sequence of hunks.
pub open spec fn hunks_count(hunks: Seq<HunkModel>, k: LineKind) -> nat
    decreases hunks.len(),
{
    if hunks.len() == 0 {
        0
    } else {
        hunks_count(hunks.drop_last(), k) + count_kind(hunks.last().lines, k)
    }
}

/// Added (or removed) lines over a sequence of files.
pub open spec fn files_count(files: Seq<FileModel>, k: LineKind) -> nat
    decreases files.len(),
{
    if files.len() == 0 {
        0
    } else {
        files_count(files.drop_last(), k) + hunks_count(files.last().hunks, k)
    }
}

impl FileDiff {
    /// Path in the new tree; for a delete, the old path.
    pub fn path(&self) -> (r: &str)
        ensures
            r@ == self@.path,
    {
        self.path.as_str()
    }

    /// Set only when the path differs across a rename.
    pub fn old_path(&self) -> (r: Option<&str>)
        ensures
            r is Some == self@.old_path is Some,
            r matches Some(p) ==> p@ == self@.old_path->0,
    {
        match &self.old_path {
            Some(p) => Some(p.as_str()),
            None => None,
        }
    }

    pub fn hunks(&self) -> (r: &[Hunk])
        ensures
            hunks_model(r@) == self@.hunks,
    {
        self.hunks.as_slice()
    }

    pub fn is_collapsed(&self) -> (r: bool)
        ensures
            r == self@.collapsed,
    {
        self.collapsed
    }

    /// A binary file has no hunks and must not read as "no changes".
    pub fn is_binary(&self) -> (r: bool)
        ensures
            r == self@.binary,
    {
        self.binary
    }

    /// `(added, removed)` across every hunk.
    pub fn stats(&self) -> (r: (usize, usize))
        requires
            hunks_count(self@.hunks, LineKind::Added) <= usize::MAX,
            hunks_count(self@.hunks, LineKind::Removed) <= usize::MAX,
        ensures
            r.0 == hunks_count(self@.hunks, LineKind::Added),
            r.1 == hunks_count(self@.hunks, LineKind::Removed),
    {
        let mut a: usize = 0;
        let mut d: usize = 0;
        let mut i: usize = 0;
        while i < self.hunks.len()
            invariant
                i <= self.hunks@.len(),
                hunks_count(self@.hunks, LineKind::Added) <= usize::MAX,
                hunks_count(self@.hunks, LineKind::Removed) <= usize::MAX,
                a == hunks_count(hunks_model(self.hunks@.take(i as int)), LineKind::Added),
                d == hunks_count(hunks_model(self.hunks@.take(i as int)), LineKind::Removed),
            decreases self.hunks@.len() - i,
        {
            let ghost prev = hunks_model(self.hunks@.take(i as int));
            assert(hunks_model(self.hunks@.take(i + 1)).drop_last() =~= prev);
            assert(hunks_model(self.hunks@.take(i + 1)).last() == self.hunks@[i as int]@);
            proof {
                lemma_hunks_count_prefix(self@.hunks, i + 1, LineKind::Added);
                lemma_hunks_count_prefix(self@.hunks, i + 1, LineKind::Removed);
                assert(self@.hunks.take(i + 1) =~= hunks_model(self.hunks@.take(i + 1)));
            }
            let (ha, hr) = self.hunks[i].stats();
            a = a + ha;
            d = d + hr;
            i += 1;
        }
        assert(self.hunks@.take(self.hunks@.len() as int) =~= self.hunks@);
        (a, d)
    }
}

proof fn lemma_hunks_count_prefix(hunks: Seq<HunkModel>, n: int, k: LineKind)
    requires
        0 <= n <= hunks.len(),
    ensures
        hunks_count(hunks.take(n), k) <= hunks_count(hunks, k),
    decreases hunks.len(),
{
    if n < hunks.len() {
        assert(hunks.drop_last().take(n) =~= hunks.take(n));
        lemma_hunks_count_prefix(hunks.drop_last(), n, k);
    } else {
        assert(hunks.take(n) =~= hunks);
    }
}

proof fn lemma_files_count_prefix(files: Seq<FileModel>, n: int, k: LineKind)
    requires
        0 <= n <= files.len(),
    ensures
        files_count(files.take(n), k) <= files_count(files, k),
    decreases files.len(),
{
    if n < files.len() {
        assert(files.drop_last().take(n) =~= files.take(n));
        lemma_files_count_prefix(files.drop_last(), n, k);
    } else {
        assert(files.take(n) =~= files);
    }
}

pub open spec fn files_model(v: Seq<FileDiff>) -> Seq<FileModel> {
    v.map_values(|f: FileDiff| f@)
}

/// How the caller wants the diff laid out. The model is the same either way.
#[derive(Debug, Clone, Copy, PartialEq, Eq, Structural)]
pub enum DiffMode {
    /// One column, `+`/`-` interleaved.
    Unified,
    /// Two columns, removed on the left and added on the right.
    SideBySide,
}

impl Default for DiffMode {
    fn default() -> (r: Self)
        ensures
            r == DiffMode::Unified,
    {
        DiffMode::Unified
    }
}

// ---------------------------------------------------------------------------
// Copies and comparisons, by value.
// ---------------------------------------------------------------------------

fn opt_u32_eq(a: Option<u32>, b: Option<u32>) -> (r: bool)
    ensures
        r == (a == b),
{
    match (a, b) {
        (Some(x), Some(y)) => x == y,
        (None, None) => true,
        _ => false,
    }
}

/// Whether two lines hold the same kind, numbers and text.
pub fn line_eq(a: &DiffLine, b: &DiffLine) -> (r: bool)
    ensures
        r == (a@ == b@),
{
    a.kind == b.kind && opt_u32_eq(a.old_lineno, b.old_lineno) && opt_u32_eq(
        a.new_lineno,
        b.new_lineno,
    ) && a.text == b.text
}

fn lines_eq(a: &Vec<DiffLine>, b: &Vec<DiffLine>) -> (r: bool)
    ensures
        r == (lines_model(a@) == lines_model(b@)),
{
    if a.len() != b.len() {
        assert(lines_model(a@).len() != lines_model(b@).len());
        return false;
    }
    let mut i: usize = 0;
    while i < a.len()
        invariant
            a@.len() == b@.len(),
            i <= a@.len(),
            forall|j: int| 0 <= j < i ==> a@[j]@ == b@[j]@,
        decreases a@.len() - i,
    {
        if !line_eq(&a[i], &b[i]) {
            assert(lines_model(a@)[i as int] != lines_model(b@)[i as int]);
            return false;
        }
        i += 1;
    }
    assert(lines_model(a@) =~= lines_model(b@));
    true
}

/// Whether two hunks hold the same header, starts, lines and collapse state.
pub fn hunk_eq(a: &Hunk, b: &Hunk) -> (r: bool)
    ensures
        r == (a@ == b@),
{
    a.header == b.header && a.old_start == b.old_start && a.new_start == b.new_start
        && a.collapsed == b.collapsed && lines_eq(&a.lines, &b.lines)
}

fn hunks_eq(a: &Vec<Hunk>, b: &Vec<Hunk>) -> (r: bool)
    ensures
        r == (hunks_model(a@) == hunks_model(b@)),
{
    if a.len() != b.len() {
        assert(hunks_model(a@).len() != hunks_model(b@).len());
        return false;
    }
    let mut i: usize = 0;
    while i < a.len()
        invariant
            a@.len() == b@.len(),
            i <= a@.len(),
            forall|j: int| 0 <= j < i ==> a@[j]@ == b@[j]@,
        decreases a@.len() - i,
    {
        if !hunk_eq(&a[i], &b[i]) {
            assert(hunks_model(a@)[i as int] != hunks_model(b@)[i as int]);
            return false;
        }
        i += 1;
    }
    assert(hunks_model(a@) =~= hunks_model(b@));
    true
}

/// Whether two files hold the same paths, hunks and flags.
pub fn file_eq(a: &FileDiff, b: &FileDiff) -> (r: bool)
    ensures
        r == (a@ == b@),
{
    let same_old = match (&a.old_path, &b.old_path) {
        (Some(x), Some(y)) => *x == *y,
        (None, None) => true,
        _ => false,
    };
    a.path == b.path && same_old && a.collapsed == b.collapsed && a.binary == b.binary
        && hunks_eq(&a.hunks, &b.hunks)
}

impl PartialEq for DiffLine {
    fn eq(&self, other: &Self) -> (r: bool) {
        line_eq(self, other)
    }
}

impl vstd::std_specs::cmp::PartialEqSpecImpl for DiffLine {
    open spec fn obeys_eq_spec() -> bool {
        true
    }

    open spec fn eq_spec(&self, other: &Self) -> bool {
        self@ == other@
    }
}

impl PartialEq for Hunk {
    fn eq(&self, other: &Self) -> (r: bool) {
        hunk_eq(self, other)
    }
}

impl vstd::std_specs::cmp::PartialEqSpecImpl for Hunk {
    open spec fn obeys_eq_spec() -> bool {
        true
    }

    open spec fn eq_spec(&self, other: &Self) -> bool {
        self@ == other@
    }
}

impl PartialEq for FileDiff {
    fn eq(&self, other: &Self) -> (r: bool) {
        file_eq(self, other)
    }
}

impl vstd::std_specs::cmp::PartialEqSpecImpl for FileDiff {
    open spec fn obeys_eq_spec() -> bool {
        true
    }

    open spec fn eq_spec(&self, other: &Self) -> bool {
        self@ == other@
    }
}

impl Clone for DiffLine {
    fn clone(&self) -> (r: Self)
        ensures
            r@ == self@,
    {
        copy_line(self)
    }
}

fn copy_line(l: &DiffLine) -> (r: DiffLine)
    ensures
        r@ == l@,
{
    let self_ = l;
    {
        DiffLine {
            kind: self_.kind,
            old_lineno: self_.old_lineno,
            new_lineno: self_.new_lineno,
            text: self_.text.clone(),
        }
    }
}

impl Clone for Hunk {
    fn clone(&self) -> (r: Self)
        ensures
            r@ == self@,
    {
        copy_hunk(self)
    }
}

fn copy_hunk(h: &Hunk) -> (r: Hunk)
    ensures
        r@ == h@,
{
    let s = h;
    {
        let mut lines: Vec<DiffLine> = Vec::new();
        let mut i: usize = 0;
        while i < s.lines.len()
            invariant
                i <= s.lines@.len(),
                lines_model(lines@) == lines_model(s.lines@.take(i as int)),
            decreases s.lines@.len() - i,
        {
            let ghost before = lines@;
            let l = copy_line(&s.lines[i]);
            lines.push(l);
            assert(lines_model(lines@) =~= lines_model(before).push(l@));
            assert(lines_model(s.lines@.take(i + 1)) =~= lines_model(s.lines@.take(i as int)).push(
                s.lines@[i as int]@,
            ));
            i += 1;
        }
        assert(s.lines@.take(s.lines@.len() as int) =~= s.lines@);
        Hunk {
            header: s.header.clone(),
            old_start: s.old_start,
            new_start: s.new_start,
            lines,
            collapsed: s.collapsed,
        }
    }
}

impl Clone for FileDiff {
    fn clone(&self) -> (r: Self)
        ensures
            r@ == self@,
    {
        copy_file(self)
    }
}

fn copy_file(f: &FileDiff) -> (r: FileDiff)
    ensures
        r@ == f@,
{
    let s = f;
    {
        let mut hunks: Vec<Hunk> = Vec::new();
        let mut i: usize = 0;
        while i < s.hunks.len()
            invariant
                i <= s.hunks@.len(),
                hunks_model(hunks@) == hunks_model(s.hunks@.take(i as int)),
            decreases s.hunks@.len() - i,
        {
            let ghost before = hunks@;
            let h = copy_hunk(&s.hunks[i]);
            hunks.push(h);
            assert(hunks_model(hunks@) =~= hunks_model(before).push(h@));
            assert(hunks_model(s.hunks@.take(i + 1)) =~= hunks_model(s.hunks@.take(i as int)).push(
                s.hunks@[i as int]@,
            ));
            i += 1;
        }
        assert(s.hunks@.take(s.hunks@.len() as int) =~= s.hunks@);
        let old_path = match &s.old_path {
            Some(p) => Some(p.clone()),
            None => None,
        };
        FileDiff {
            path: s.path.clone(),
            old_path,
            hunks,
            collapsed: s.collapsed,
            binary: s.binary,
        }
    }
}

fn clone_files(v: &Vec<FileDiff>) -> (r: Vec<FileDiff>)
    ensures
        files_model(r@) == files_model(v@),
{
    let mut r: Vec<FileDiff> = Vec::new();
    let mut i: usize = 0;
    while i < v.len()
        invariant
            i <= v@.len(),
            files_model(r@) == files_model(v@.take(i as int)),
        decreases v@.len() - i,
    {
        let ghost before = r@;
        let f = copy_file(&v[i]);
        r.push(f);
        assert(files_model(r@) =~= files_model(before).push(f@));
        assert(files_model(v@.take(i + 1)) =~= files_model(v@.take(i as int)).push(v@[i as int]@));
        i += 1;
    }
    assert(v@.take(v@.len() as int) =~= v@);
    r
}

// ---------------------------------------------------------------------------
// Reading a unified diff, one line at a time.
// ---------------------------------------------------------------------------

/// The parser's state after some lines: the files so far, the two line
/// counters of the open hunk, and how many lines of each side its header
/// announced that are still to come. `overflow` records that a counter
/// would have passed `u32::MAX`.
pub struct ParseModel {
    pub files: Seq<FileModel>,
    pub old_ln: u32,
    pub new_ln: u32,
    pub old_left: u32,
    pub new_left: u32,
    pub overflow: bool,
}

/// A hunk is open and its header announced lines still to come: every
/// marked line is then content, even one that looks like a header (a removed
/// `-- note` reads `--- note`).
pub open spec fn in_body(st: ParseModel) -> bool {
    &&& st.files.len() > 0
    &&& st.files.last().hunks.len() > 0
    &&& (st.old_left > 0 || st.new_left > 0)
}

pub open spec fn blank_file(path: Seq<char>) -> FileModel {
    FileModel { path, old_path: None, hunks: Seq::empty(), collapsed: false, binary: false }
}

/// The files a `---` or `+++` header applies to: a new unnamed file when
/// there is none yet or the last one already has hunks (a bare `---`/`+++`
/// pair, as plain `diff -u` writes for each file, opens a file by itself),
/// else `files`, whose last file the header names.
pub open spec fn ensure_file(files: Seq<FileModel>) -> Seq<FileModel> {
    if files.len() == 0 || files.last().hunks.len() > 0 {
        files.push(blank_file(Seq::empty()))
    } else {
        files
    }
}

pub open spec fn set_last(files: Seq<FileModel>, f: FileModel) -> Seq<FileModel> {
    files.drop_last().push(f)
}

/// A `--- p` header: `p` is the old path unless it is `/dev/null`.
pub open spec fn with_old_header(f: FileModel, p: Seq<char>) -> FileModel {
    if p == "/dev/null"@ {
        f
    } else {
        FileModel { old_path: Some(p), ..f }
    }
}

/// A `+++ p` header: `p` is the path, except that a delete (`/dev/null`)
/// keeps the name the file had; the old path is kept only for a real rename.
pub open spec fn with_new_header(f: FileModel, p: Seq<char>) -> FileModel {
    let path = if p != "/dev/null"@ {
        p
    } else if f.old_path is Some {
        f.old_path->0
    } else {
        f.path
    };
    FileModel {
        path,
        old_path: if f.old_path == Some(path) {
            None
        } else {
            f.old_path
        },
        ..f
    }
}

/// The kind of a content line inside a hunk, from its first character;
/// an empty line is context whose single space was elided.
pub open spec fn kind_of(raw: Seq<char>) -> Option<LineKind> {
    if raw.len() == 0 {
        Some(LineKind::Context)
    } else if raw[0] == '+' {
        Some(LineKind::Added)
    } else if raw[0] == '-' {
        Some(LineKind::Removed)
    } else if raw[0] == '\\' {
        Some(LineKind::NoNewline)
    } else if raw[0] == ' ' {
        Some(LineKind::Context)
    } else {
        None
    }
}

/// A content line's text: the marker is dropped, a `\` line is kept whole.
pub open spec fn text_of(raw: Seq<char>) -> Seq<char> {
    if raw.len() > 0 && raw[0] != '\\' {
        raw.skip(1)
    } else {
        raw
    }
}

pub open spec fn uses_old(k: LineKind) -> bool {
    k == LineKind::Removed || k == LineKind::Context
}

pub open spec fn uses_new(k: LineKind) -> bool {
    k == LineKind::Added || k == LineKind::Context
}

/// `files` with `l` appended to the last hunk of the last file.
pub open spec fn push_line(files: Seq<FileModel>, l: LineModel) -> Seq<FileModel> {
    let f = files.last();
    let h = f.hunks.last();
    set_last(files, FileModel { hunks: f.hunks.drop_last().push(HunkModel { lines: h.lines.push(l), ..h }), ..f })
}

/// A content line read into the open hunk, numbered by the counters.
pub open spec fn content_step(st: ParseModel, raw: Seq<char>, k: LineKind) -> ParseModel {
    let l = LineModel {
        kind: k,
        old_lineno: if uses_old(k) {
            Some(st.old_ln)
        } else {
            None
        },
        new_lineno: if uses_new(k) {
            Some(st.new_ln)
        } else {
            None
        },
        text: text_of(raw),
    };
    ParseModel {
        files: push_line(st.files, l),
        old_ln: if uses_old(k) && st.old_ln < u32::MAX {
            (st.old_ln + 1) as u32
        } else {
            st.old_ln
        },
        new_ln: if uses_new(k) && st.new_ln < u32::MAX {
            (st.new_ln + 1) as u32
        } else {
            st.new_ln
        },
        old_left: if uses_old(k) && st.old_left > 0 {
            (st.old_left - 1) as u32
        } else {
            st.old_left
        },
        new_left: if uses_new(k) && st.new_left > 0 {
            (st.new_left - 1) as u32
        } else {
            st.new_left
        },
        overflow: st.overflow || (uses_old(k) && st.old_ln == u32::MAX) || (uses_new(k)
            && st.new_ln == u32::MAX),
    }
}

/// One line of a unified diff. Inside the lines a hunk's header announced,
/// a marked line is content; otherwise headers are recognised first, anything
/// not recognised is skipped, and content lines count only once a hunk is
/// open.
pub open spec fn parse_step(st: ParseModel, raw: Seq<char>) -> ParseModel {
    if in_body(st) && kind_of(raw) is Some {
        content_step(st, raw, kind_of(raw)->0)
    } else if starts_with(raw, "diff --git "@) {
        ParseModel {
            files: st.files.push(blank_file(git_header_path(raw.skip("diff --git "@.len() as int)))),
            ..st
        }
    } else if starts_with(raw, "Binary files "@) || starts_with(raw, "GIT binary patch"@) {
        if st.files.len() == 0 {
            st
        } else {
            ParseModel { files: set_last(st.files, FileModel { binary: true, ..st.files.last() }), ..st }
        }
    } else if starts_with(raw, "--- "@) {
        let fs = ensure_file(st.files);
        ParseModel {
            files: set_last(fs, with_old_header(fs.last(), strip_ab(raw.skip("--- "@.len() as int)))),
            ..st
        }
    } else if starts_with(raw, "+++ "@) {
        let fs = ensure_file(st.files);
        ParseModel {
            files: set_last(fs, with_new_header(fs.last(), strip_ab(raw.skip("+++ "@.len() as int)))),
            ..st
        }
    } else if starts_with(raw, "@@"@) {
        let (os, ns) = hunk_starts(raw);
        let (ol, nl) = hunk_lengths(raw);
        let h = HunkModel { header: raw, old_start: os, new_start: ns, lines: Seq::empty(), collapsed: false };
        ParseModel {
            files: if st.files.len() == 0 {
                st.files
            } else {
                set_last(st.files, FileModel { hunks: st.files.last().hunks.push(h), ..st.files.last() })
            },
            old_ln: os,
            new_ln: ns,
            old_left: ol,
            new_left: nl,
            overflow: st.overflow,
        }
    } else if st.files.len() == 0 || st.files.last().hunks.len() == 0 || kind_of(raw) is None {
        st
    } else {
        content_step(st, raw, kind_of(raw)->0)
    }
}

pub open spec fn parse_start() -> ParseModel {
    ParseModel { files: Seq::empty(), old_ln: 0, new_ln: 0, old_left: 0, new_left: 0, overflow: false }
}

/// The files of `diff`, or `None` when a line number would pass `u32::MAX`.
fn parse_files(diff: &str) -> (r: Option<Vec<FileDiff>>)
    ensures
        r is None == parse_model(diff@).overflow,
        r matches Some(fs) ==> files_model(fs@) == parse_model(diff@).files,
{
    let lines = lines_of(diff);
    let ghost ls = lines_spec(diff@);
    let m = Markers::new();
    let mut files: Vec<FileDiff> = Vec::new();
    let mut old_ln: u32 = 0;
    let mut new_ln: u32 = 0;
    let mut old_left: u32 = 0;
    let mut new_left: u32 = 0;
    let mut i: usize = 0;
    assert(files_model(files@) =~= Seq::<FileModel>::empty());
    while i < lines.len()
        invariant
            m.ok(),
            ls == lines_spec(diff@),
            lines@.map_values(|l: &str| l@) == ls,
            i <= lines@.len(),
            parse_upto(ls, i as int) == (ParseModel {
                files: files_model(files@),
                old_ln,
                new_ln,
                old_left,
                new_left,
                overflow: false,
            }),
        decreases lines@.len() - i,
    {
        let raw = chars_of(lines[i]);
        assert(raw@ == ls[i as int]);
        let ok = parse_line(&mut files, &mut old_ln, &mut new_ln, &mut old_left, &mut new_left, raw.as_slice(), &m);
        if !ok {
            proof {
                lemma_overflow_sticks(ls, i + 1, ls.len() as int);
            }
            return None;
        }
        i += 1;
    }
    Some(files)
}

/// The parser's state after the first `k` lines.
pub open spec fn parse_upto(lines: Seq<Seq<char>>, k: int) -> ParseModel
    decreases k,
{
    if k <= 0 {
        parse_start()
    } else {
        parse_step(parse_upto(lines, k - 1), lines[k - 1])
    }
}

/// The parser's state after every line of `diff`.
pub open spec fn parse_model(diff: Seq<char>) -> ParseModel {
    parse_upto(lines_spec(diff), lines_spec(diff).len() as int)
}

/// Once a line counter has overflowed, it stays overflowed.
proof fn lemma_overflow_sticks(lines: Seq<Seq<char>>, i: int, j: int)
    requires
        0 <= i <= j,
        parse_upto(lines, i).overflow,
    ensures
        parse_upto(lines, j).overflow,
    decreases j - i,
{
    if i < j {
        lemma_overflow_sticks(lines, i, j - 1);
    }
}

/// The fixed strings the parser looks for, as characters.
struct Markers {
    git: Vec<char>,
    binary: Vec<char>,
    binary_patch: Vec<char>,
    old: Vec<char>,
    new: Vec<char>,
    hunk: Vec<char>,
    dev_null: Vec<char>,
}

impl Markers {
    spec fn ok(&self) -> bool {
        &&& self.git@ == "diff --git "@
        &&& self.binary@ == "Binary files "@
        &&& self.binary_patch@ == "GIT binary patch"@
        &&& self.old@ == "--- "@
        &&& self.new@ == "+++ "@
        &&& self.hunk@ == "@@"@
        &&& self.dev_null@ == "/dev/null"@
    }

    fn new() -> (m: Self)
        ensures
            m.ok(),
    {
        Markers {
            git: chars_of("diff --git "),
            binary: chars_of("Binary files "),
            binary_patch: chars_of("GIT binary patch"),
            old: chars_of("--- "),
            new: chars_of("+++ "),
            hunk: chars_of("@@"),
            dev_null: chars_of("/dev/null"),
        }
    }
}

fn blank(path: Vec<char>) -> (f: FileDiff)
    ensures
        f@ == blank_file(path@),
{
    let f = FileDiff {
        path: string_of(path.as_slice()),
        old_path: None,
        hunks: Vec::new(),
        collapsed: false,
        binary: false,
    };
    assert(hunks_model(f.hunks@) =~= Seq::empty());
    f
}

proof fn lemma_files_push(v: Seq<FileDiff>, f: FileDiff)
    ensures
        files_model(v.push(f)) == files_model(v).push(f@),
{
    assert(files_model(v.push(f)) =~= files_model(v).push(f@));
}

proof fn lemma_files_pop(v: Seq<FileDiff>)
    requires
        v.len() > 0,
    ensures
        files_model(v.subrange(0, v.len() - 1)) == files_model(v).drop_last(),
        files_model(v).last() == v.last()@,
{
    assert(files_model(v.subrange(0, v.len() - 1)) =~= files_model(v).drop_last());
}

/// Removes the last file, which exists, and returns it.
fn pop_file(files: &mut Vec<FileDiff>) -> (f: FileDiff)
    requires
        old(files)@.len() > 0,
    ensures
        files_model(final(files)@) == files_model(old(files)@).drop_last(),
        f@ == files_model(old(files)@).last(),
{
    proof {
        lemma_files_pop(files@);
    }
    match files.pop() {
        Some(f) => f,
        None => {
            assert(false);
            blank(Vec::new())
        },
    }
}

fn push_file(files: &mut Vec<FileDiff>, f: FileDiff)
    ensures
        files_model(final(files)@) == files_model(old(files)@).push(f@),
{
    proof {
        lemma_files_push(files@, f);
    }
    files.push(f);
}

/// The kind of a content line; see [`kind_of`].
fn line_kind(raw: &[char]) -> (r: Option<LineKind>)
    ensures
        r == kind_of(raw@),
{
    if raw.len() == 0 {
        Some(LineKind::Context)
    } else if raw[0] == '+' {
        Some(LineKind::Added)
    } else if raw[0] == '-' {
        Some(LineKind::Removed)
    } else if raw[0] == '\\' {
        Some(LineKind::NoNewline)
    } else if raw[0] == ' ' {
        Some(LineKind::Context)
    } else {
        None
    }
}

/// Reads a content line of kind `kind` into the open hunk.
fn push_content(
    files: &mut Vec<FileDiff>,
    old_ln: &mut u32,
    new_ln: &mut u32,
    old_left: &mut u32,
    new_left: &mut u32,
    raw: &[char],
    kind: LineKind,
) -> (ok: bool)
    requires
        old(files)@.len() > 0,
        old(files)@.last().hunks@.len() > 0,
        kind_of(raw@) == Some(kind),
    ensures
        ok == !content_step(
            ParseModel {
                files: files_model(old(files)@),
                old_ln: *old(old_ln),
                new_ln: *old(new_ln),
                old_left: *old(old_left),
                new_left: *old(new_left),
                overflow: false,
            },
            raw@,
            kind,
        ).overflow,
        ok ==> content_step(
            ParseModel {
                files: files_model(old(files)@),
                old_ln: *old(old_ln),
                new_ln: *old(new_ln),
                old_left: *old(old_left),
                new_left: *old(new_left),
                overflow: false,
            },
            raw@,
            kind,
        ) == (ParseModel {
            files: files_model(final(files)@),
            old_ln: *final(old_ln),
            new_ln: *final(new_ln),
            old_left: *final(old_left),
            new_left: *final(new_left),
            overflow: false,
        }),
{
    if ((kind == LineKind::Removed || kind == LineKind::Context) && *old_ln == u32::MAX) || ((kind
        == LineKind::Added || kind == LineKind::Context) && *new_ln == u32::MAX) {
        return false;
    }
    if (kind == LineKind::Removed || kind == LineKind::Context) && *old_left > 0 {
        *old_left = *old_left - 1;
    }
    if (kind == LineKind::Added || kind == LineKind::Context) && *new_left > 0 {
        *new_left = *new_left - 1;
    }
    proof {
        assert(files_model(files@).last() == files@.last()@);
    }
    let text = if raw.len() > 0 && raw[0] != '\\' {
        let t = vstd::slice::slice_subrange(raw, 1, raw.len());
        assert(t@ =~= raw@.skip(1));
        string_of(t)
    } else {
        string_of(raw)
    };
    let o = if kind == LineKind::Removed || kind == LineKind::Context {
        let o = *old_ln;
        *old_ln = o + 1;
        Some(o)
    } else {
        None
    };
    let n = if kind == LineKind::Added || kind == LineKind::Context {
        let n = *new_ln;
        *new_ln = n + 1;
        Some(n)
    } else {
        None
    };
    let line = DiffLine { kind, old_lineno: o, new_lineno: n, text };
    let ghost last_f = files@.last();
    proof {
        assert(files_model(files@).last() == last_f@);
        assert(last_f@.hunks.len() == last_f.hunks@.len());
    }
    let mut f = pop_file(files);
    assert(f@.hunks.len() == f.hunks@.len());
    let ghost hs = f.hunks@;
    let mut h = match f.hunks.pop() {
        Some(h) => h,
        None => {
            assert(false);
            return false;
        },
    };
    assert(hunks_model(f.hunks@) =~= hunks_model(hs).drop_last());
    let ghost ls = h.lines@;
    h.lines.push(line);
    assert(lines_model(h.lines@) =~= lines_model(ls).push(line@));
    let ghost hs2 = f.hunks@;
    f.hunks.push(h);
    assert(hunks_model(f.hunks@) =~= hunks_model(hs2).push(h@));
    push_file(files, f);
    true
}

/// Reads one line into `files`, the two counters and the lines the open
/// hunk still has to come.
fn parse_line(
    files: &mut Vec<FileDiff>,
    old_ln: &mut u32,
    new_ln: &mut u32,
    old_left: &mut u32,
    new_left: &mut u32,
    raw: &[char],
    m: &Markers,
) -> (ok: bool)
    requires
        m.ok(),
    ensures
        ok == !parse_step(
            ParseModel {
                files: files_model(old(files)@),
                old_ln: *old(old_ln),
                new_ln: *old(new_ln),
                old_left: *old(old_left),
                new_left: *old(new_left),
                overflow: false,
            },
            raw@,
        ).overflow,
        ok ==> parse_step(
            ParseModel {
                files: files_model(old(files)@),
                old_ln: *old(old_ln),
                new_ln: *old(new_ln),
                old_left: *old(old_left),
                new_left: *old(new_left),
                overflow: false,
            },
            raw@,
        ) == (ParseModel {
            files: files_model(final(files)@),
            old_ln: *final(old_ln),
            new_ln: *final(new_ln),
            old_left: *final(old_left),
            new_left: *final(new_left),
            overflow: false,
        }),
{
    let ghost fs0 = files_model(files@);
    let kind0 = line_kind(raw);
    if (*old_left > 0 || *new_left > 0) && files.len() > 0 && files[files.len() - 1].hunks.len() > 0 {
        proof {
            assert(fs0.last() == files@.last()@);
        }
        match kind0 {
            Some(k) => {
                return push_content(files, old_ln, new_ln, old_left, new_left, raw, k);
            },
            None => {},
        }
    }
    proof {
        if files@.len() > 0 {
            assert(fs0.last() == files@.last()@);
        }
    }
    if has_prefix(raw, m.git.as_slice()) {
        let rest = vstd::slice::slice_subrange(raw, m.git.len(), raw.len());
        assert(rest@ =~= raw@.skip("diff --git "@.len() as int));
        let path = git_path(rest);
        push_file(files, blank(path));
        return true;
    }
    if has_prefix(raw, m.binary.as_slice()) || has_prefix(raw, m.binary_patch.as_slice()) {
        if files.len() > 0 {
            let mut f = pop_file(files);
            f.binary = true;
            push_file(files, f);
        }
        return true;
    }
    if has_prefix(raw, m.old.as_slice()) {
        if files.len() == 0 || files[files.len() - 1].hunks.len() > 0 {
            push_file(files, blank(Vec::new()));
            assert(files_model(files@) =~= ensure_file(fs0));
        }
        let rest = vstd::slice::slice_subrange(raw, m.old.len(), raw.len());
        assert(rest@ =~= raw@.skip("--- "@.len() as int));
        let p = strip_ab_prefix(rest);
        let mut f = pop_file(files);
        if !chars_eq(p.as_slice(), m.dev_null.as_slice()) {
            f.old_path = Some(string_of(p.as_slice()));
        }
        push_file(files, f);
        return true;
    }
    if has_prefix(raw, m.new.as_slice()) {
        if files.len() == 0 || files[files.len() - 1].hunks.len() > 0 {
            push_file(files, blank(Vec::new()));
            assert(files_model(files@) =~= ensure_file(fs0));
        }
        let rest = vstd::slice::slice_subrange(raw, m.new.len(), raw.len());
        assert(rest@ =~= raw@.skip("+++ "@.len() as int));
        let p = strip_ab_prefix(rest);
        let mut f = pop_file(files);
        if !chars_eq(p.as_slice(), m.dev_null.as_slice()) {
            f.path = string_of(p.as_slice());
        } else {
            match &f.old_path {
                Some(o) => {
                    let o2 = string_of(chars_of(o.as_str()).as_slice());
                    f.path = o2;
                },
                None => {},
            }
        }
        let same = match &f.old_path {
            Some(o) => crate::strings::str_eq(o.as_str(), f.path.as_str()),
            None => false,
        };
        if same {
            f.old_path = None;
        }
        push_file(files, f);
        return true;
    }
    if has_prefix(raw, m.hunk.as_slice()) {
        let (os, ns) = parse_hunk_header(raw);
        let (ol, nl) = parse_hunk_lengths(raw);
        *old_ln = os;
        *new_ln = ns;
        *old_left = ol;
        *new_left = nl;
        if files.len() > 0 {
            let mut f = pop_file(files);
            let h = Hunk {
                header: string_of(raw),
                old_start: os,
                new_start: ns,
                lines: Vec::new(),
                collapsed: false,
            };
            assert(lines_model(h.lines@) =~= Seq::empty());
            let ghost hs = f.hunks@;
            f.hunks.push(h);
            assert(hunks_model(f.hunks@) =~= hunks_model(hs).push(h@));
            push_file(files, f);
        }
        return true;
    }
    if files.len() == 0 {
        return true;
    }
    let last = files.len() - 1;
    if files[last].hunks.len() == 0 {
        return true;
    }
    match kind0 {
        Some(k) => push_content(files, old_ln, new_ln, old_left, new_left, raw, k),
        None => true,
    }
}

// ---------------------------------------------------------------------------
// Rows: the flattened sequence a renderer walks.
// ---------------------------------------------------------------------------

/// One renderable row. The cursor indexes into the sequence of these.
#[derive(Debug)]
pub enum Row<'a> {
    /// A file's header row; always emitted, even when the file is collapsed.
    File(&'a FileDiff),
    /// A hunk's `@@` header; emitted whenever its file is expanded.
    HunkHeader { file: &'a FileDiff, hunk: &'a Hunk },
    /// A content line, unified layout.
    Line { file: &'a FileDiff, hunk: &'a Hunk, line: &'a DiffLine },
    /// A content line, side-by-side; either side may be absent.
    SideBySide {
        file: &'a FileDiff,
        hunk: &'a Hunk,
        left: Option<&'a DiffLine>,
        right: Option<&'a DiffLine>,
    },
}

/// What a [`Row`] shows.
pub enum RowView {
    File(FileModel),
    HunkHeader(FileModel, HunkModel),
    Line(FileModel, HunkModel, LineModel),
    SideBySide(FileModel, HunkModel, Option<LineModel>, Option<LineModel>),
}

pub open spec fn opt_line_view(o: Option<&DiffLine>) -> Option<LineModel> {
    match o {
        Some(l) => Some(l@),
        None => None,
    }
}

impl<'a> View for Row<'a> {
    type V = RowView;

    open spec fn view(&self) -> RowView {
        match *self {
            Row::File(f) => RowView::File(f@),
            Row::HunkHeader { file, hunk } => RowView::HunkHeader(file@, hunk@),
            Row::Line { file, hunk, line } => RowView::Line(file@, hunk@, line@),
            Row::SideBySide { file, hunk, left, right } => RowView::SideBySide(
                file@,
                hunk@,
                opt_line_view(left),
                opt_line_view(right),
            ),
        }
    }
}

pub open spec fn rows_view<'a>(v: Seq<Row<'a>>) -> Seq<RowView> {
    v.map_values(|r: Row<'a>| r@)
}

/// Index of the first line at or after `i` that is not of kind `k`.
pub open spec fn run_end(lines: Seq<LineModel>, i: int, k: LineKind) -> int
    decreases lines.len() - i,
{
    if 0 <= i < lines.len() && lines[i].kind == k {
        run_end(lines, i + 1, k)
    } else {
        i
    }
}

pub proof fn lemma_run_end(lines: Seq<LineModel>, i: int, k: LineKind)
    requires
        0 <= i <= lines.len(),
    ensures
        i <= run_end(lines, i, k) <= lines.len(),
        i < lines.len() && lines[i].kind == k ==> run_end(lines, i, k) > i,
        run_end(lines, i, k) < lines.len() ==> lines[run_end(lines, i, k)].kind != k,
    decreases lines.len() - i,
{
    if i < lines.len() && lines[i].kind == k {
        lemma_run_end(lines, i + 1, k);
    }
}

/// A removed run `[rs, re)` set against an added run `[as_, ae)`, row by
/// row; the shorter side runs out into `None`.
pub open spec fn zip_runs(rs: int, re: int, as_: int, ae: int) -> Seq<(Option<int>, Option<int>)> {
    let n = if re - rs >= ae - as_ {
        re - rs
    } else {
        ae - as_
    };
    Seq::new(
        n as nat,
        |k: int|
            (
                if k < re - rs {
                    Some(rs + k)
                } else {
                    None
                },
                if k < ae - as_ {
                    Some(as_ + k)
                } else {
                    None
                },
            ),
    )
}

/// Side-by-side pairing of `lines[i..]`, by line index. Context and
/// no-newline lines stand on both sides; a run of removed lines followed by a
/// run of added lines is paired row by row, per run, never across runs.
pub open spec fn pair_from(lines: Seq<LineModel>, i: int) -> Seq<(Option<int>, Option<int>)>
    decreases lines.len() - i,
{
    if i < 0 || i >= lines.len() {
        Seq::empty()
    } else if lines[i].kind == LineKind::Context || lines[i].kind == LineKind::NoNewline {
        seq![(Some(i), Some(i))] + pair_from(lines, i + 1)
    } else {
        let re = run_end(lines, i, LineKind::Removed);
        let ae = run_end(lines, re, LineKind::Added);
        proof {
            lemma_run_end(lines, i, LineKind::Removed);
            lemma_run_end(lines, re, LineKind::Added);
        }
        zip_runs(i, re, re, ae) + pair_from(lines, ae)
    }
}

pub open spec fn opt_line(lines: Seq<LineModel>, o: Option<int>) -> Option<LineModel> {
    match o {
        Some(i) => Some(lines[i]),
        None => None,
    }
}

/// Unified rows for the lines `ls` of hunk `h`.
pub open spec fn line_rows(f: FileModel, h: HunkModel, ls: Seq<LineModel>) -> Seq<RowView> {
    ls.map_values(|l: LineModel| RowView::Line(f, h, l))
}

/// Side-by-side rows for the pairs `ps` of line indices of hunk `h`.
pub open spec fn pair_rows_model(f: FileModel, h: HunkModel, ps: Seq<(Option<int>, Option<int>)>) -> Seq<RowView> {
    ps.map_values(
        |p: (Option<int>, Option<int>)|
            RowView::SideBySide(f, h, opt_line(h.lines, p.0), opt_line(h.lines, p.1)),
    )
}

/// The rows of an expanded hunk's lines.
pub open spec fn body_rows(f: FileModel, h: HunkModel, mode: DiffMode) -> Seq<RowView> {
    match mode {
        DiffMode::Unified => line_rows(f, h, h.lines),
        DiffMode::SideBySide => pair_rows_model(f, h, pair_from(h.lines, 0)),
    }
}

/// A hunk's rows: its header, then its lines unless it is collapsed.
pub open spec fn hunk_rows(f: FileModel, h: HunkModel, mode: DiffMode) -> Seq<RowView> {
    seq![RowView::HunkHeader(f, h)] + if h.collapsed {
        Seq::empty()
    } else {
        body_rows(f, h, mode)
    }
}

/// The rows of the first `n` hunks of `f`.
pub open spec fn hunks_rows(f: FileModel, mode: DiffMode, n: int) -> Seq<RowView>
    decreases n,
{
    if n <= 0 {
        Seq::empty()
    } else {
        hunks_rows(f, mode, n - 1) + hunk_rows(f, f.hunks[n - 1], mode)
    }
}

/// A file's rows: its header, then its hunks unless it is collapsed.
pub open spec fn file_rows(f: FileModel, mode: DiffMode) -> Seq<RowView> {
    seq![RowView::File(f)] + if f.collapsed {
        Seq::empty()
    } else {
        hunks_rows(f, mode, f.hunks.len() as int)
    }
}

/// The rows of the first `n` files.
pub open spec fn files_rows(files: Seq<FileModel>, mode: DiffMode, n: int) -> Seq<RowView>
    decreases n,
{
    if n <= 0 {
        Seq::empty()
    } else {
        files_rows(files, mode, n - 1) + file_rows(files[n - 1], mode)
    }
}

/// Every row of `files` in `mode`, in order.
pub open spec fn rows_model(files: Seq<FileModel>, mode: DiffMode) -> Seq<RowView> {
    files_rows(files, mode, files.len() as int)
}

proof fn lemma_rows_push<'a>(v: Seq<Row<'a>>, r: Row<'a>)
    ensures
        rows_view(v.push(r)) == rows_view(v).push(r@),
{
    assert(rows_view(v.push(r)) =~= rows_view(v).push(r@));
}

fn push_row<'a>(out: &mut Vec<Row<'a>>, r: Row<'a>)
    ensures
        rows_view(final(out)@) == rows_view(old(out)@).push(r@),
{
    proof {
        lemma_rows_push(out@, r);
    }
    out.push(r);
}

/// Appends the side-by-side rows of an expanded hunk.
fn pair_rows<'a>(f: &'a FileDiff, h: &'a Hunk, out: &mut Vec<Row<'a>>)
    ensures
        rows_view(final(out)@) == rows_view(old(out)@) + body_rows(f@, h@, DiffMode::SideBySide),
{
    let ghost lines = h@.lines;
    let ghost base = rows_view(out@);
    let ghost mut done: Seq<(Option<int>, Option<int>)> = Seq::empty();
    let n = h.lines.len();
    let mut i: usize = 0;
    assert(done + pair_from(lines, 0) =~= pair_from(lines, 0));
    assert(rows_view(out@) =~= base + pair_rows_model(f@, h@, done));
    while i < n
        invariant
            n == h.lines@.len() == lines.len(),
            lines == lines_model(h.lines@),
            i <= n,
            done + pair_from(lines, i as int) == pair_from(lines, 0),
            rows_view(out@) == base + pair_rows_model(f@, h@, done),
        decreases n - i,
    {
        let k = h.lines[i].kind;
        assert(lines[i as int] == h.lines@[i as int]@);
        if k == LineKind::Context || k == LineKind::NoNewline {
            let ghost p = (Some(i as int), Some(i as int));
            push_row(
                out,
                Row::SideBySide { file: f, hunk: h, left: Some(&h.lines[i]), right: Some(&h.lines[i]) },
            );
            assert(done.push(p) + pair_from(lines, i + 1) =~= done + pair_from(lines, i as int));
            assert(pair_rows_model(f@, h@, done.push(p)) =~= pair_rows_model(f@, h@, done).push(
                RowView::SideBySide(f@, h@, Some(lines[i as int]), Some(lines[i as int])),
            ));
            assert(rows_view(out@) =~= base + pair_rows_model(f@, h@, done.push(p)));
            proof {
                done = done.push(p);
            }
            i += 1;
        } else {
            let start = i;
            proof {
                lemma_run_end(lines, i as int, LineKind::Removed);
            }
            while i < n && h.lines[i].kind == LineKind::Removed
                invariant
                    n == h.lines@.len() == lines.len(),
                    lines == lines_model(h.lines@),
                    start <= i <= n,
                    run_end(lines, start as int, LineKind::Removed) == run_end(
                        lines,
                        i as int,
                        LineKind::Removed,
                    ),
                decreases n - i,
            {
                assert(lines[i as int] == h.lines@[i as int]@);
                i += 1;
            }
            proof {
                if i < n {
                    assert(lines[i as int] == h.lines@[i as int]@);
                }
            }
            let add_start = i;
            assert(run_end(lines, start as int, LineKind::Removed) == add_start);
            while i < n && h.lines[i].kind == LineKind::Added
                invariant
                    n == h.lines@.len() == lines.len(),
                    lines == lines_model(h.lines@),
                    add_start <= i <= n,
                    run_end(lines, add_start as int, LineKind::Added) == run_end(
                        lines,
                        i as int,
                        LineKind::Added,
                    ),
                decreases n - i,
            {
                assert(lines[i as int] == h.lines@[i as int]@);
                i += 1;
            }
            proof {
                if i < n {
                    assert(lines[i as int] == h.lines@[i as int]@);
                }
            }
            let add_end = i;
            assert(run_end(lines, add_start as int, LineKind::Added) == add_end);
            let removed = add_start - start;
            let added = add_end - add_start;
            let m = if removed >= added {
                removed
            } else {
                added
            };
            let ghost z = zip_runs(start as int, add_start as int, add_start as int, add_end as int);
            assert(z.len() == m);
            let mut k: usize = 0;
            while k < m
                invariant
                    n == h.lines@.len() == lines.len(),
                    lines == lines_model(h.lines@),
                    start <= add_start <= add_end <= n,
                    removed == add_start - start,
                    added == add_end - add_start,
                    z == zip_runs(start as int, add_start as int, add_start as int, add_end as int),
                    z.len() == m,
                    k <= m,
                    rows_view(out@) == base + pair_rows_model(f@, h@, done + z.take(k as int)),
                decreases m - k,
            {
                let left = if k < removed {
                    assert(lines[start + k] == h.lines@[start + k]@);
                    Some(&h.lines[start + k])
                } else {
                    None
                };
                let right = if k < added {
                    assert(lines[add_start + k] == h.lines@[add_start + k]@);
                    Some(&h.lines[add_start + k])
                } else {
                    None
                };
                let r = Row::SideBySide { file: f, hunk: h, left, right };
                let ghost zk = z[k as int];
                assert(opt_line_view(left) == opt_line(lines, zk.0));
                assert(opt_line_view(right) == opt_line(lines, zk.1));
                push_row(out, r);
                assert(pair_rows_model(f@, h@, done + z.take(k + 1)) =~= pair_rows_model(
                    f@,
                    h@,
                    done + z.take(k as int),
                ).push(r@));
                k += 1;
            }
            assert(z.take(m as int) =~= z);
            assert((done + z) + pair_from(lines, add_end as int) =~= done + (z + pair_from(
                lines,
                add_end as int,
            )));
            proof {
                done = done + z;
            }
        }
    }
    assert(pair_from(lines, n as int) =~= Seq::<(Option<int>, Option<int>)>::empty());
    assert(done =~= pair_from(lines, 0));
}

/// The rows of `files` in `mode`.
/// Appends the rows of hunk `h` of file `f`: its header, then its lines
/// unless it is collapsed.
fn push_hunk_rows<'a>(f: &'a FileDiff, h: &'a Hunk, mode: DiffMode, out: &mut Vec<Row<'a>>)
    ensures
        rows_view(final(out)@) == rows_view(old(out)@) + hunk_rows(f@, h@, mode),
{
    let ghost mid = rows_view(out@);
    push_row(out, Row::HunkHeader { file: f, hunk: h });
    if !h.collapsed {
        match mode {
            DiffMode::Unified => {
                let mut li: usize = 0;
                assert(line_rows(f@, h@, h@.lines.take(0)) =~= Seq::<RowView>::empty());
                assert(rows_view(out@) =~= mid.push(RowView::HunkHeader(f@, h@)) + line_rows(
                    f@,
                    h@,
                    h@.lines.take(0),
                ));
                while li < h.lines.len()
                    invariant
                        li <= h.lines@.len(),
                        h@.lines == lines_model(h.lines@),
                        rows_view(out@) == mid.push(RowView::HunkHeader(f@, h@)) + line_rows(
                            f@,
                            h@,
                            h@.lines.take(li as int),
                        ),
                    decreases h.lines@.len() - li,
                {
                    let line = &h.lines[li];
                    assert(h@.lines[li as int] == line@);
                    push_row(out, Row::Line { file: f, hunk: h, line });
                    assert(line_rows(f@, h@, h@.lines.take(li + 1)) =~= line_rows(
                        f@,
                        h@,
                        h@.lines.take(li as int),
                    ).push(RowView::Line(f@, h@, line@)));
                    assert(rows_view(out@) =~= mid.push(RowView::HunkHeader(f@, h@)) + line_rows(
                        f@,
                        h@,
                        h@.lines.take(li + 1),
                    ));
                    li += 1;
                }
                assert(h@.lines.take(h@.lines.len() as int) =~= h@.lines);
            },
            DiffMode::SideBySide => {
                pair_rows(f, h, out);
            },
        }
    }
    assert(rows_view(out@) =~= mid + hunk_rows(f@, h@, mode));
}

/// Appends the rows of file `f`: its header, then its hunks unless it is
/// collapsed.
fn push_file_rows<'a>(f: &'a FileDiff, mode: DiffMode, out: &mut Vec<Row<'a>>)
    ensures
        rows_view(final(out)@) == rows_view(old(out)@) + file_rows(f@, mode),
{
    let ghost before = rows_view(out@);
    push_row(out, Row::File(f));
    if !f.collapsed {
        let mut hi: usize = 0;
        assert(rows_view(out@) =~= before + (seq![RowView::File(f@)] + hunks_rows(f@, mode, 0)));
        while hi < f.hunks.len()
            invariant
                !f.collapsed,
                hi <= f.hunks@.len(),
                rows_view(out@) == before + (seq![RowView::File(f@)] + hunks_rows(f@, mode, hi as int)),
            decreases f.hunks@.len() - hi,
        {
            let h = &f.hunks[hi];
            assert(f@.hunks[hi as int] == h@);
            push_hunk_rows(f, h, mode, out);
            assert(rows_view(out@) =~= before + (seq![RowView::File(f@)] + hunks_rows(f@, mode, hi + 1)));
            hi += 1;
        }
    }
    assert(rows_view(out@) =~= before + file_rows(f@, mode));
}

fn build_rows<'a>(files: &'a Vec<FileDiff>, mode: DiffMode) -> (out: Vec<Row<'a>>)
    ensures
        rows_view(out@) == rows_model(files_model(files@), mode),
{
    let ghost fs = files_model(files@);
    let mut out: Vec<Row<'a>> = Vec::new();
    let mut fi: usize = 0;
    assert(rows_view(out@) =~= files_rows(fs, mode, 0));
    while fi < files.len()
        invariant
            fs == files_model(files@),
            fi <= files@.len(),
            rows_view(out@) == files_rows(fs, mode, fi as int),
        decreases files@.len() - fi,
    {
        let f = &files[fi];
        assert(fs[fi as int] == f@);
        push_file_rows(f, mode, &mut out);
        fi += 1;
    }
    out
}

// ---------------------------------------------------------------------------
// The view: files, a layout, and a cursor over the rows.
// ---------------------------------------------------------------------------

/// `c` brought into `[0, n)`, or 0 when there are no rows.
pub open spec fn clamp_to(c: int, n: int) -> int {
    if n <= 0 {
        0
    } else if c >= n {
        n - 1
    } else {
        c
    }
}

/// Is `r` a row that `next_hunk`/`prev_hunk` (`hunk`) or
/// `next_file`/`prev_file` (`!hunk`) stop at?
pub open spec fn is_stop(r: RowView, hunk: bool) -> bool {
    if hunk {
        r is HunkHeader
    } else {
        r is File
    }
}

/// The first stop at or after `i`, or `rows.len()` when there is none.
pub open spec fn first_stop(rows: Seq<RowView>, hunk: bool, i: int) -> int
    decreases rows.len() - i,
{
    if i < 0 || i >= rows.len() {
        rows.len() as int
    } else if is_stop(rows[i], hunk) {
        i
    } else {
        first_stop(rows, hunk, i + 1)
    }
}

/// The last stop before `i` (which is at most `rows.len()`), or -1.
pub open spec fn last_stop(rows: Seq<RowView>, hunk: bool, i: int) -> int
    decreases i,
{
    if i <= 0 || i > rows.len() {
        -1
    } else if is_stop(rows[i - 1], hunk) {
        i - 1
    } else {
        last_stop(rows, hunk, i - 1)
    }
}

/// The file, at or after `fi`, whose rows hold row `row` of all the rows
/// (`files.len()` past the last file).
pub open spec fn file_at(files: Seq<FileModel>, mode: DiffMode, row: int, fi: int) -> int
    decreases files.len() - fi,
{
    if fi < 0 || fi >= files.len() {
        files.len() as int
    } else if row < files_rows(files, mode, fi + 1).len() {
        fi
    } else {
        file_at(files, mode, row, fi + 1)
    }
}

/// The hunk of `f`, at or after `hi`, whose rows hold row `off` of the rows
/// of `f`'s hunks (`f.hunks.len()` past the last hunk).
pub open spec fn hunk_at(f: FileModel, mode: DiffMode, off: int, hi: int) -> int
    decreases f.hunks.len() - hi,
{
    if hi < 0 || hi >= f.hunks.len() {
        f.hunks.len() as int
    } else if off < hunks_rows(f, mode, hi + 1).len() {
        hi
    } else {
        hunk_at(f, mode, off, hi + 1)
    }
}

/// `(file index, hunk index)` of the place row `row` belongs to, by
/// position: the file whose rows hold it, and, unless it is that file's
/// header row, the hunk whose rows hold it.
pub open spec fn locate_model(files: Seq<FileModel>, mode: DiffMode, row: int) -> Option<(int, Option<int>)> {
    if row < 0 || row >= rows_model(files, mode).len() {
        None
    } else {
        let fi = file_at(files, mode, row, 0);
        let off = row - files_rows(files, mode, fi).len();
        if off == 0 {
            Some((fi, None))
        } else {
            Some((fi, Some(hunk_at(files[fi], mode, off - 1, 0))))
        }
    }
}

/// `files` with file `fi` (and, given, its hunk `hi`) collapsed or expanded
/// the other way.
pub open spec fn toggled(files: Seq<FileModel>, fi: int, hi: Option<int>) -> Seq<FileModel> {
    let f = files[fi];
    match hi {
        None => files.update(fi, FileModel { collapsed: !f.collapsed, ..f }),
        Some(h) => files.update(
            fi,
            FileModel {
                hunks: f.hunks.update(h, HunkModel { collapsed: !f.hunks[h].collapsed, ..f.hunks[h] }),
                ..f
            },
        ),
    }
}

/// A parsed unified diff plus a cursor over its visible rows.
#[derive(Debug)]
pub struct DiffView {
    files: Vec<FileDiff>,
    cursor: usize,
    mode: DiffMode,
}

impl DiffView {
    /// The cursor is on a row, or 0 when there are none.
    #[verifier::type_invariant]
    spec fn inv(self) -> bool {
        self.cursor == 0 || self.cursor < rows_model(files_model(self.files@), self.mode).len()
    }

    pub closed spec fn files_spec(&self) -> Seq<FileModel> {
        files_model(self.files@)
    }

    pub closed spec fn cursor_spec(&self) -> int {
        self.cursor as int
    }

    pub closed spec fn mode_spec(&self) -> DiffMode {
        self.mode
    }

    pub open spec fn rows_spec(&self) -> Seq<RowView> {
        rows_model(self.files_spec(), self.mode_spec())
    }

    /// The cursor is on a row, or 0 when there are none.
    pub open spec fn cursor_ok(&self) -> bool {
        self.cursor_spec() == 0 || 0 <= self.cursor_spec() < self.rows_spec().len()
    }

    /// Parse a unified diff (`git diff` / `diff -u` output). Lenient: lines
    /// it does not recognise are skipped. The line counters are `u32`, so
    /// no hunk may number a line past `u32::MAX`.
    pub fn parse(diff: &str) -> (r: Self)
        requires
            !parse_model(diff@).overflow,
        ensures
            r.files_spec() == parse_model(diff@).files,
            r.cursor_spec() == 0,
            r.mode_spec() == DiffMode::Unified,
    {
        match parse_files(diff) {
            Some(files) => DiffView { files, cursor: 0, mode: DiffMode::Unified },
            None => {
                assert(false);
                DiffView { files: Vec::new(), cursor: 0, mode: DiffMode::Unified }
            },
        }
    }

    /// [`DiffView::parse`] for any text: `None` exactly when a line number
    /// would pass `u32::MAX`.
    pub fn try_parse(diff: &str) -> (r: Option<Self>)
        ensures
            r is None == parse_model(diff@).overflow,
            r matches Some(v) ==> v.files_spec() == parse_model(diff@).files && v.cursor_spec() == 0
                && v.mode_spec() == DiffMode::Unified,
    {
        match parse_files(diff) {
            Some(files) => Some(DiffView { files, cursor: 0, mode: DiffMode::Unified }),
            None => None,
        }
    }

    pub fn files(&self) -> (r: &[FileDiff])
        ensures
            files_model(r@) == self.files_spec(),
    {
        self.files.as_slice()
    }

    pub fn mode(&self) -> (r: DiffMode)
        ensures
            r == self.mode_spec(),
    {
        self.mode
    }

    pub fn cursor(&self) -> (r: usize)
        ensures
            r == self.cursor_spec(),
            self.cursor_ok(),
    {
        proof {
            use_type_invariant(self);
        }
        self.cursor
    }

    /// `(added, removed)` across the whole diff.
    pub fn stats(&self) -> (r: (usize, usize))
        requires
            files_count(self.files_spec(), LineKind::Added) <= usize::MAX,
            files_count(self.files_spec(), LineKind::Removed) <= usize::MAX,
        ensures
            r.0 == files_count(self.files_spec(), LineKind::Added),
            r.1 == files_count(self.files_spec(), LineKind::Removed),
    {
        let ghost fs = self.files_spec();
        let mut a: usize = 0;
        let mut d: usize = 0;
        let mut i: usize = 0;
        while i < self.files.len()
            invariant
                fs == files_model(self.files@),
                i <= self.files@.len(),
                files_count(fs, LineKind::Added) <= usize::MAX,
                files_count(fs, LineKind::Removed) <= usize::MAX,
                a == files_count(files_model(self.files@.take(i as int)), LineKind::Added),
                d == files_count(files_model(self.files@.take(i as int)), LineKind::Removed),
            decreases self.files@.len() - i,
        {
            let ghost prev = files_model(self.files@.take(i as int));
            assert(files_model(self.files@.take(i + 1)).drop_last() =~= prev);
            assert(files_model(self.files@.take(i + 1)).last() == self.files@[i as int]@);
            proof {
                lemma_files_count_prefix(fs, i + 1, LineKind::Added);
                lemma_files_count_prefix(fs, i + 1, LineKind::Removed);
                assert(fs.take(i + 1) =~= files_model(self.files@.take(i + 1)));
                lemma_hunks_count_prefix(self.files@[i as int]@.hunks, self.files@[i as int]@.hunks.len() as int, LineKind::Added);
            }
            let (fa, fr) = self.files[i].stats();
            a = a + fa;
            d = d + fr;
            i += 1;
        }
        assert(self.files@.take(self.files@.len() as int) =~= self.files@);
        (a, d)
    }

    /// The flattened row sequence, honouring collapse and layout; the cursor
    /// indexes it.
    pub fn rows(&self) -> (r: Vec<Row<'_>>)
        ensures
            rows_view(r@) == self.rows_spec(),
    {
        build_rows(&self.files, self.mode)
    }

    pub fn row_count(&self) -> (r: usize)
        ensures
            r == self.rows_spec().len(),
    {
        let rows = self.rows();
        rows.len()
    }
}

/// The cursor `c` clamped to the rows of `files` in `mode`.
fn clamp_cursor(files: &Vec<FileDiff>, mode: DiffMode, c: usize) -> (r: usize)
    ensures
        r == clamp_to(c as int, rows_model(files_model(files@), mode).len() as int),
{
    let n = build_rows(files, mode).len();
    if n == 0 {
        0
    } else if c >= n {
        n - 1
    } else {
        c
    }
}

impl DiffView {
    /// Switch layout; the cursor keeps its row index, clamped to the rows.
    pub fn set_mode(&mut self, mode: DiffMode)
        ensures
            final(self).files_spec() == old(self).files_spec(),
            final(self).mode_spec() == mode,
            final(self).cursor_spec() == clamp_to(
                old(self).cursor_spec(),
                rows_model(old(self).files_spec(), mode).len() as int,
            ),
    {
        let c = clamp_cursor(&self.files, mode, self.cursor);
        self.cursor = 0;
        self.mode = mode;
        self.cursor = c;
    }

    /// Unified becomes side-by-side and back.
    pub fn toggle_mode(&mut self)
        ensures
            final(self).files_spec() == old(self).files_spec(),
            final(self).mode_spec() == (match old(self).mode_spec() {
                DiffMode::Unified => DiffMode::SideBySide,
                DiffMode::SideBySide => DiffMode::Unified,
            }),
            final(self).cursor_spec() == clamp_to(
                old(self).cursor_spec(),
                final(self).rows_spec().len() as int,
            ),
    {
        let m = match self.mode {
            DiffMode::Unified => DiffMode::SideBySide,
            DiffMode::SideBySide => DiffMode::Unified,
        };
        self.set_mode(m);
    }

    /// Put the cursor on row `i`, clamped to the rows.
    pub fn set_cursor(&mut self, i: usize)
        ensures
            final(self).files_spec() == old(self).files_spec(),
            final(self).mode_spec() == old(self).mode_spec(),
            final(self).cursor_spec() == clamp_to(i as int, old(self).rows_spec().len() as int),
    {
        let c = clamp_cursor(&self.files, self.mode, i);
        self.cursor = c;
    }

    /// One row down, stopping at the last row.
    pub fn move_down(&mut self)
        ensures
            final(self).files_spec() == old(self).files_spec(),
            final(self).mode_spec() == old(self).mode_spec(),
            final(self).cursor_spec() == clamp_to(
                old(self).cursor_spec() + 1,
                old(self).rows_spec().len() as int,
            ),
    {
        proof {
            use_type_invariant(&*self);
        }
        let n = self.row_count();
        let next = self.cursor.saturating_add(1);
        let c = clamp_cursor(&self.files, self.mode, next);
        self.cursor = c;
    }

    /// One row up, stopping at the first row.
    pub fn move_up(&mut self)
        ensures
            final(self).files_spec() == old(self).files_spec(),
            final(self).mode_spec() == old(self).mode_spec(),
            final(self).cursor_spec() == if old(self).cursor_spec() > 0 {
                old(self).cursor_spec() - 1
            } else {
                0
            },
    {
        proof {
            use_type_invariant(&*self);
        }
        self.cursor = self.cursor.saturating_sub(1);
    }

    /// The next (`forward`) or previous stop row from the cursor; `hunk`
    /// picks hunk headers, otherwise file headers.
    fn find_stop(&self, hunk: bool, forward: bool) -> (r: Option<usize>)
        ensures
            ({
                let rows = self.rows_spec();
                let j = if forward {
                    first_stop(rows, hunk, self.cursor_spec() + 1)
                } else {
                    last_stop(rows, hunk, self.cursor_spec())
                };
                &&& r is Some == (0 <= j < rows.len())
                &&& r matches Some(k) ==> k == j
            }),
    {
        proof {
            use_type_invariant(self);
        }
        let rows = self.rows();
        let ghost rv = rows_view(rows@);
        let n = rows.len();
        let c = self.cursor;
        if forward {
            if c + 1 >= n {
                return None;
            }
            let mut i: usize = c + 1;
            while i < n
                invariant
                    rv == rows_view(rows@),
                    rv == self.rows_spec(),
                    c == self.cursor_spec(),
                    n == rows@.len() == rv.len(),
                    c + 1 <= i <= n,
                    forward,
                    first_stop(rv, hunk, c + 1) == first_stop(rv, hunk, i as int),
                decreases n - i,
            {
                let row = &rows[i];
                let stop = match row {
                    Row::HunkHeader { .. } => hunk,
                    Row::File(_) => !hunk,
                    _ => false,
                };
                assert(stop == is_stop(row@, hunk));
                assert(rv[i as int] == rows@[i as int]@);
                if stop {
                    return Some(i);
                }
                i += 1;
            }
            None
        } else {
            let mut i: usize = c;
            while i > 0
                invariant
                    rv == rows_view(rows@),
                    rv == self.rows_spec(),
                    c == self.cursor_spec(),
                    n == rows@.len() == rv.len(),
                    i <= c,
                    !forward,
                    c == 0 || c < n,
                    last_stop(rv, hunk, c as int) == last_stop(rv, hunk, i as int),
                decreases i,
            {
                let row = &rows[i - 1];
                let stop = match row {
                    Row::HunkHeader { .. } => hunk,
                    Row::File(_) => !hunk,
                    _ => false,
                };
                assert(stop == is_stop(row@, hunk));
                assert(rv[i - 1] == rows@[i - 1]@);
                if stop {
                    return Some(i - 1);
                }
                i -= 1;
            }
            None
        }
    }

    fn jump(&mut self, hunk: bool, forward: bool) -> (found: bool)
        ensures
            final(self).files_spec() == old(self).files_spec(),
            final(self).mode_spec() == old(self).mode_spec(),
            ({
                let rows = old(self).rows_spec();
                let j = if forward {
                    first_stop(rows, hunk, old(self).cursor_spec() + 1)
                } else {
                    last_stop(rows, hunk, old(self).cursor_spec())
                };
                &&& found == (0 <= j < rows.len())
                &&& found ==> final(self).cursor_spec() == j
                &&& !found ==> final(self).cursor_spec() == old(self).cursor_spec()
            }),
    {
        match self.find_stop(hunk, forward) {
            Some(j) => {
                self.cursor = j;
                true
            },
            None => false,
        }
    }

    /// Jump to the next `@@` header; false when there is none below.
    pub fn next_hunk(&mut self) -> (found: bool)
        ensures
            final(self).files_spec() == old(self).files_spec(),
            final(self).mode_spec() == old(self).mode_spec(),
            ({
                let j = first_stop(old(self).rows_spec(), true, old(self).cursor_spec() + 1);
                &&& found == (j < old(self).rows_spec().len())
                &&& final(self).cursor_spec() == if found {
                    j
                } else {
                    old(self).cursor_spec()
                }
            }),
    {
        proof {
            use_type_invariant(&*self);
            lemma_first_stop(self.rows_spec(), true, self.cursor_spec() + 1);
        }
        self.jump(true, true)
    }

    /// Jump to the previous `@@` header; false when there is none above.
    pub fn prev_hunk(&mut self) -> (found: bool)
        ensures
            final(self).files_spec() == old(self).files_spec(),
            final(self).mode_spec() == old(self).mode_spec(),
            ({
                let j = last_stop(old(self).rows_spec(), true, old(self).cursor_spec());
                &&& found == (j >= 0)
                &&& final(self).cursor_spec() == if found {
                    j
                } else {
                    old(self).cursor_spec()
                }
            }),
    {
        proof {
            use_type_invariant(&*self);
            lemma_last_stop(self.rows_spec(), true, self.cursor_spec());
        }
        self.jump(true, false)
    }

    /// Jump to the next file header; false when there is none below.
    pub fn next_file(&mut self) -> (found: bool)
        ensures
            final(self).files_spec() == old(self).files_spec(),
            final(self).mode_spec() == old(self).mode_spec(),
            ({
                let j = first_stop(old(self).rows_spec(), false, old(self).cursor_spec() + 1);
                &&& found == (j < old(self).rows_spec().len())
                &&& final(self).cursor_spec() == if found {
                    j
                } else {
                    old(self).cursor_spec()
                }
            }),
    {
        proof {
            use_type_invariant(&*self);
            lemma_first_stop(self.rows_spec(), false, self.cursor_spec() + 1);
        }
        self.jump(false, true)
    }

    /// Jump to the previous file header; false when there is none above.
    pub fn prev_file(&mut self) -> (found: bool)
        ensures
            final(self).files_spec() == old(self).files_spec(),
            final(self).mode_spec() == old(self).mode_spec(),
            ({
                let j = last_stop(old(self).rows_spec(), false, old(self).cursor_spec());
                &&& found == (j >= 0)
                &&& final(self).cursor_spec() == if found {
                    j
                } else {
                    old(self).cursor_spec()
                }
            }),
    {
        proof {
            use_type_invariant(&*self);
            lemma_last_stop(self.rows_spec(), false, self.cursor_spec());
        }
        self.jump(false, false)
    }
}

proof fn lemma_first_stop(rows: Seq<RowView>, hunk: bool, i: int)
    requires
        0 <= i,
    ensures
        first_stop(rows, hunk, i) <= rows.len(),
        first_stop(rows, hunk, i) >= 0,
    decreases rows.len() - i,
{
    if i < rows.len() && !is_stop(rows[i], hunk) {
        lemma_first_stop(rows, hunk, i + 1);
    }
}

proof fn lemma_last_stop(rows: Seq<RowView>, hunk: bool, i: int)
    ensures
        -1 <= last_stop(rows, hunk, i) < rows.len(),
        last_stop(rows, hunk, i) < i || last_stop(rows, hunk, i) == -1,
    decreases i,
{
    if 0 < i <= rows.len() && !is_stop(rows[i - 1], hunk) {
        lemma_last_stop(rows, hunk, i - 1);
    }
}

/// `f` collapsed.
pub open spec fn collapsed_file(f: FileModel) -> FileModel {
    FileModel { collapsed: true, ..f }
}

/// `f` and all of its hunks expanded.
pub open spec fn expanded_file(f: FileModel) -> FileModel {
    FileModel {
        collapsed: false,
        hunks: f.hunks.map_values(|h: HunkModel| HunkModel { collapsed: false, ..h }),
        ..f
    }
}

impl DiffView {
    /// `(file index, hunk index)` for row `row`; see [`locate_model`].
    fn locate(&self, row: usize) -> (r: Option<(usize, Option<usize>)>)
        ensures
            r is None == locate_model(self.files_spec(), self.mode_spec(), row as int) is None,
            r matches Some((fi, hi)) ==> locate_model(self.files_spec(), self.mode_spec(), row as int)
                == Some(
                (
                    fi as int,
                    match hi {
                        Some(h) => Some(h as int),
                        None => None,
                    },
                ),
            ) && fi < self.files_spec().len() && (hi matches Some(h) ==> h < self.files_spec()[fi as int].hunks.len()),
    {
        let ghost fs = self.files_spec();
        let mode = self.mode;
        let total = build_rows(&self.files, mode).len();
        if row >= total {
            return None;
        }
        let mut start: usize = 0;
        let mut fi: usize = 0;
        while fi < self.files.len()
            invariant
                fs == files_model(self.files@),
                mode == self.mode,
                fi <= self.files@.len(),
                start == files_rows(fs, mode, fi as int).len(),
                row < total == rows_model(fs, mode).len(),
                start <= row,
                file_at(fs, mode, row as int, 0) == file_at(fs, mode, row as int, fi as int),
            decreases self.files@.len() - fi,
        {
            let f = &self.files[fi];
            assert(fs[fi as int] == f@);
            let mut scratch: Vec<Row> = Vec::new();
            push_file_rows(f, mode, &mut scratch);
            proof {
                lemma_files_rows_grow(fs, mode, fi + 1, fs.len() as int);
                assert(files_rows(fs, mode, fi + 1) == files_rows(fs, mode, fi as int) + file_rows(f@, mode));
            }
            if row < start + scratch.len() {
                assert(file_at(fs, mode, row as int, fi as int) == fi);
                if row == start {
                    assert(locate_model(fs, mode, row as int) == Some((fi as int, None::<int>)));
                    return Some((fi, None));
                }
                let off = row - start - 1;
                assert(!f.collapsed);
                let ghost hall = hunks_rows(f@, mode, f@.hunks.len() as int);
                assert(off < hall.len());
                assert(hall.len() <= total);
                let mut hstart: usize = 0;
                let mut hi: usize = 0;
                while hi < f.hunks.len()
                    invariant
                        fs == files_model(self.files@),
                        mode == self.mode,
                        row < total == rows_model(fs, mode).len(),
                        fi < self.files@.len(),
                        f == self.files@[fi as int],
                        hall == hunks_rows(f@, mode, f@.hunks.len() as int),
                        hi <= f.hunks@.len(),
                        hstart == hunks_rows(f@, mode, hi as int).len(),
                        hstart <= off < hall.len(),
                        hall.len() <= total,
                        row as int == files_rows(fs, mode, fi as int).len() + 1 + off,
                        file_at(fs, mode, row as int, 0) == fi,
                        hunk_at(f@, mode, off as int, 0) == hunk_at(f@, mode, off as int, hi as int),
                    decreases f.hunks@.len() - hi,
                {
                    let h = &f.hunks[hi];
                    assert(f@.hunks[hi as int] == h@);
                    let mut sc: Vec<Row> = Vec::new();
                    push_hunk_rows(f, h, mode, &mut sc);
                    proof {
                        lemma_hunks_rows_grow(f@, mode, hi + 1, f@.hunks.len() as int);
                        assert(hunks_rows(f@, mode, hi + 1) == hunks_rows(f@, mode, hi as int) + hunk_rows(f@, h@, mode));
                    }
                    if off < hstart + sc.len() {
                        assert(hunk_at(f@, mode, off as int, hi as int) == hi);
                        return Some((fi, Some(hi)));
                    }
                    hstart += sc.len();
                    hi += 1;
                }
                return None;
            }
            start += scratch.len();
            fi += 1;
        }
        None
    }

    /// Collapse or expand what the cursor is on: a file row toggles the file,
    /// any row inside a hunk toggles that hunk. The cursor is clamped
    /// afterwards, since collapsing removes rows beneath it.
    pub fn toggle_collapse(&mut self)
        ensures
            final(self).mode_spec() == old(self).mode_spec(),
            match locate_model(old(self).files_spec(), old(self).mode_spec(), old(self).cursor_spec()) {
                None => final(self).files_spec() == old(self).files_spec() && final(self).cursor_spec()
                    == old(self).cursor_spec(),
                Some((fi, hi)) => final(self).files_spec() == toggled(old(self).files_spec(), fi, hi)
                    && final(self).cursor_spec() == clamp_to(
                    old(self).cursor_spec(),
                    final(self).rows_spec().len() as int,
                ),
            },
    {
        let loc = self.locate(self.cursor);
        match loc {
            None => {},
            Some((fi, hi)) => {
                let ghost fs = self.files_spec();
                let c = self.cursor;
                let mode = self.mode;
                self.cursor = 0;
                let mut files: Vec<FileDiff> = Vec::new();
                std::mem::swap(&mut files, &mut self.files);
                assert(files_model(files@) == fs);
                match hi {
                    None => {
                        let b = files[fi].collapsed;
                        files[fi].collapsed = !b;
                        assert(files_model(files@) =~= toggled(fs, fi as int, None));
                    },
                    Some(h) => {
                        let ghost hs = files@[fi as int].hunks@;
                        let b = files[fi].hunks[h].collapsed;
                        files[fi].hunks[h].collapsed = !b;
                        assert(hunks_model(files@[fi as int].hunks@) =~= fs[fi as int].hunks.update(
                            h as int,
                            HunkModel { collapsed: !b, ..fs[fi as int].hunks[h as int] },
                        ));
                        assert(files_model(files@) =~= toggled(fs, fi as int, Some(h as int)));
                    },
                }
                let nc = clamp_cursor(&files, mode, c);
                self.files = files;
                self.cursor = nc;
            },
        }
    }

    /// Collapse every file; the cursor is clamped to what remains.
    pub fn collapse_all_files(&mut self)
        ensures
            final(self).mode_spec() == old(self).mode_spec(),
            final(self).files_spec() == old(self).files_spec().map_values(
                |f: FileModel| collapsed_file(f),
            ),
            final(self).cursor_spec() == clamp_to(
                old(self).cursor_spec(),
                final(self).rows_spec().len() as int,
            ),
    {
        let ghost fs = self.files_spec();
        let c = self.cursor;
        let mode = self.mode;
        self.cursor = 0;
        let mut files: Vec<FileDiff> = Vec::new();
        std::mem::swap(&mut files, &mut self.files);
        let mut i: usize = 0;
        while i < files.len()
            invariant
                i <= files@.len() == fs.len(),
                forall|j: int| 0 <= j < i ==> files@[j]@ == collapsed_file(fs[j]),
                forall|j: int| i <= j < files@.len() ==> files@[j]@ == fs[j],
            decreases files@.len() - i,
        {
            files[i].collapsed = true;
            assert(files@[i as int]@ == collapsed_file(fs[i as int]));
            i += 1;
        }
        assert(files_model(files@) =~= fs.map_values(|f: FileModel| collapsed_file(f)));
        let nc = clamp_cursor(&files, mode, c);
        self.files = files;
        self.cursor = nc;
    }

    /// Expand every file and every hunk; the cursor is clamped.
    pub fn expand_all(&mut self)
        ensures
            final(self).mode_spec() == old(self).mode_spec(),
            final(self).files_spec() == old(self).files_spec().map_values(
                |f: FileModel| expanded_file(f),
            ),
            final(self).cursor_spec() == clamp_to(
                old(self).cursor_spec(),
                final(self).rows_spec().len() as int,
            ),
    {
        let ghost fs = self.files_spec();
        let c = self.cursor;
        let mode = self.mode;
        self.cursor = 0;
        let mut files: Vec<FileDiff> = Vec::new();
        std::mem::swap(&mut files, &mut self.files);
        let mut i: usize = 0;
        while i < files.len()
            invariant
                i <= files@.len() == fs.len(),
                forall|j: int| 0 <= j < i ==> files@[j]@ == expanded_file(fs[j]),
                forall|j: int| i <= j < files@.len() ==> files@[j]@ == fs[j],
            decreases files@.len() - i,
        {
            let ghost f0 = files@[i as int];
            assert(f0@ == fs[i as int]);
            files[i].collapsed = false;
            let mut k: usize = 0;
            while k < files[i].hunks.len()
                invariant
                    i < files@.len() == fs.len(),
                    f0@ == fs[i as int],
                    files@[i as int].hunks@.len() == f0.hunks@.len(),
                    files@[i as int].path == f0.path,
                    files@[i as int].old_path == f0.old_path,
                    files@[i as int].binary == f0.binary,
                    !files@[i as int].collapsed,
                    k <= f0.hunks@.len(),
                    forall|j: int| 0 <= j < k ==> files@[i as int].hunks@[j]@ == (HunkModel {
                        collapsed: false,
                        ..f0.hunks@[j]@
                    }),
                    forall|j: int| k <= j < f0.hunks@.len() ==> files@[i as int].hunks@[j]@
                        == f0.hunks@[j]@,
                    forall|j: int| 0 <= j < i ==> files@[j]@ == expanded_file(fs[j]),
                    forall|j: int| i < j < files@.len() ==> files@[j]@ == fs[j],
                decreases f0.hunks@.len() - k,
            {
                files[i].hunks[k].collapsed = false;
                k += 1;
            }
            assert(hunks_model(files@[i as int].hunks@) =~= fs[i as int].hunks.map_values(
                |h: HunkModel| HunkModel { collapsed: false, ..h },
            ));
            assert(files@[i as int]@ == expanded_file(fs[i as int]));
            i += 1;
        }
        assert(files_model(files@) =~= fs.map_values(|f: FileModel| expanded_file(f)));
        let nc = clamp_cursor(&files, mode, c);
        self.files = files;
        self.cursor = nc;
    }
}

/// Earlier files come first: the rows of the first `k` files are no more
/// than those of the first `n`.
proof fn lemma_files_rows_grow(files: Seq<FileModel>, mode: DiffMode, k: int, n: int)
    requires
        0 <= k <= n <= files.len(),
    ensures
        files_rows(files, mode, k).len() <= files_rows(files, mode, n).len(),
    decreases n - k,
{
    if k < n {
        lemma_files_rows_grow(files, mode, k, n - 1);
    }
}

/// The same within a file's hunks.
proof fn lemma_hunks_rows_grow(f: FileModel, mode: DiffMode, k: int, n: int)
    requires
        0 <= k <= n <= f.hunks.len(),
    ensures
        hunks_rows(f, mode, k).len() <= hunks_rows(f, mode, n).len(),
    decreases n - k,
{
    if k < n {
        lemma_hunks_rows_grow(f, mode, k, n - 1);
    }
}

// ---------------------------------------------------------------------------
// Laws.
// ---------------------------------------------------------------------------

/// Collapsing a file never makes it vanish: a collapsed file is exactly its
/// header row.
pub proof fn law_collapsed_file_is_its_header(f: FileModel, mode: DiffMode)
    requires
        f.collapsed,
    ensures
        file_rows(f, mode) == seq![RowView::File(f)],
{
    assert(file_rows(f, mode) =~= seq![RowView::File(f)]);
}

/// Every file has its header row among the rows, whatever is collapsed and
/// whatever the layout.
pub proof fn law_every_file_has_a_header_row(files: Seq<FileModel>, mode: DiffMode, i: int)
    requires
        0 <= i < files.len(),
    ensures
        rows_model(files, mode).contains(RowView::File(files[i])),
{
    lemma_header_in_prefix(files, mode, files.len() as int, i);
}

proof fn lemma_header_in_prefix(files: Seq<FileModel>, mode: DiffMode, n: int, i: int)
    requires
        0 <= i < n <= files.len(),
    ensures
        files_rows(files, mode, n).contains(RowView::File(files[i])),
    decreases n,
{
    let before = files_rows(files, mode, n - 1);
    let here = file_rows(files[n - 1], mode);
    if i < n - 1 {
        lemma_header_in_prefix(files, mode, n - 1, i);
        let j = choose|j: int| 0 <= j < before.len() && before[j] == RowView::File(files[i]);
        assert((before + here)[j] == RowView::File(files[i]));
    } else {
        assert((before + here)[before.len() as int] == RowView::File(files[i]));
    }
}

/// The pairs from line `i` on are no more than the lines from `i` on.
proof fn lemma_pairs_no_more_than_lines(lines: Seq<LineModel>, i: int)
    requires
        0 <= i <= lines.len(),
    ensures
        pair_from(lines, i).len() <= lines.len() - i,
    decreases lines.len() - i,
{
    if i < lines.len() {
        if lines[i].kind == LineKind::Context || lines[i].kind == LineKind::NoNewline {
            lemma_pairs_no_more_than_lines(lines, i + 1);
        } else {
            let re = run_end(lines, i, LineKind::Removed);
            lemma_run_end(lines, i, LineKind::Removed);
            lemma_run_end(lines, re, LineKind::Added);
            let ae = run_end(lines, re, LineKind::Added);
            lemma_pairs_no_more_than_lines(lines, ae);
        }
    }
}

proof fn lemma_hunks_rows_shorter(f: FileModel, n: int)
    requires
        0 <= n <= f.hunks.len(),
    ensures
        hunks_rows(f, DiffMode::SideBySide, n).len() <= hunks_rows(f, DiffMode::Unified, n).len(),
    decreases n,
{
    if n > 0 {
        lemma_hunks_rows_shorter(f, n - 1);
        lemma_pairs_no_more_than_lines(f.hunks[n - 1].lines, 0);
    }
}

proof fn lemma_files_rows_shorter(files: Seq<FileModel>, n: int)
    requires
        0 <= n <= files.len(),
    ensures
        files_rows(files, DiffMode::SideBySide, n).len() <= files_rows(files, DiffMode::Unified, n).len(),
    decreases n,
{
    if n > 0 {
        lemma_files_rows_shorter(files, n - 1);
        lemma_hunks_rows_shorter(files[n - 1], files[n - 1].hunks.len() as int);
    }
}

/// Side-by-side only merges paired lines: it never has more rows than the
/// unified layout of the same files.
pub proof fn law_side_by_side_never_longer(files: Seq<FileModel>)
    ensures
        rows_model(files, DiffMode::SideBySide).len() <= rows_model(files, DiffMode::Unified).len(),
{
    lemma_files_rows_shorter(files, files.len() as int);
}

proof fn lemma_run_end_at(lines: Seq<LineModel>, i: int, j: int, k: LineKind)
    requires
        0 <= i <= j <= lines.len(),
        forall|q: int| i <= q < j ==> lines[q].kind == k,
        j == lines.len() || lines[j].kind != k,
    ensures
        run_end(lines, i, k) == j,
    decreases j - i,
{
    if i < j {
        lemma_run_end_at(lines, i + 1, j, k);
    }
}

/// Pairing is per run: `r` removed lines followed by the rest added pair row
/// by row into `max(r, added)` rows, the shorter side padded with nothing.
pub proof fn law_pairing_is_per_run(lines: Seq<LineModel>, r: int)
    requires
        0 <= r <= lines.len(),
        lines.len() > 0,
        forall|q: int| 0 <= q < r ==> lines[q].kind == LineKind::Removed,
        forall|q: int| r <= q < lines.len() ==> lines[q].kind == LineKind::Added,
    ensures
        pair_from(lines, 0) == zip_runs(0, r, r, lines.len() as int),
{
    let n = lines.len() as int;
    if r < n {
        assert(lines[r].kind != LineKind::Removed);
    }
    lemma_run_end_at(lines, 0, r, LineKind::Removed);
    lemma_run_end_at(lines, r, n, LineKind::Added);
    assert(pair_from(lines, n) =~= Seq::<(Option<int>, Option<int>)>::empty());
    assert(pair_from(lines, 0) =~= zip_runs(0, r, r, n));
}

/// Line numbers are assigned per side: in an open hunk a removed line takes
/// the old counter and advances only it, an added line takes the new counter
/// and advances only it, a context line takes and advances both, and a
/// no-newline marker takes neither.
pub proof fn law_line_numbers_per_side(st: ParseModel, raw: Seq<char>, k: LineKind)
    requires
        st.old_ln < u32::MAX,
        st.new_ln < u32::MAX,
    ensures
        content_step(st, raw, k).old_ln == st.old_ln + if uses_old(k) {
            1int
        } else {
            0int
        },
        content_step(st, raw, k).new_ln == st.new_ln + if uses_new(k) {
            1int
        } else {
            0int
        },
        k == LineKind::Removed ==> !uses_new(k) && uses_old(k),
        k == LineKind::Added ==> uses_new(k) && !uses_old(k),
        k == LineKind::NoNewline ==> !uses_new(k) && !uses_old(k),
{
}

/// Only a real rename keeps an old path: after a `+++` header the old path,
/// when there is one, differs from the path.
pub proof fn law_old_path_only_for_a_rename(f: FileModel, p: Seq<char>)
    ensures
        with_new_header(f, p).old_path != Some(with_new_header(f, p).path),
{
}

/// A deleted file (`+++ /dev/null`) keeps the name it had.
pub proof fn law_deleted_file_keeps_its_name(f: FileModel, old: Seq<char>)
    requires
        f.old_path == Some(old),
    ensures
        with_new_header(f, "/dev/null"@).path == old,
{
}

/// Text outside a hunk is not content: a line that is no header, read while
/// no hunk is open, changes nothing.
pub proof fn law_preamble_is_not_content(st: ParseModel, raw: Seq<char>)
    requires
        st.files.len() == 0 || st.files.last().hunks.len() == 0,
        !starts_with(raw, "diff --git "@),
        !starts_with(raw, "Binary files "@),
        !starts_with(raw, "GIT binary patch"@),
        !starts_with(raw, "--- "@),
        !starts_with(raw, "+++ "@),
        !starts_with(raw, "@@"@),
    ensures
        parse_step(st, raw) == st,
{
}

/// Inside the lines a hunk's header announced, a marked line is content,
/// whatever it looks like: a removed `-- note` (`--- note`) or an added
/// `++ x` (`+++ x`) is a line of the hunk, not a file header.
pub proof fn law_announced_lines_are_content(st: ParseModel, raw: Seq<char>)
    requires
        in_body(st),
        kind_of(raw) is Some,
    ensures
        parse_step(st, raw) == content_step(st, raw, kind_of(raw)->0),
        parse_step(st, raw).files.len() == st.files.len(),
{
}

/// A bare `---` header after a file's hunks opens the next file: plain
/// `diff -u` output for two files gives two files.
pub proof fn law_bare_header_opens_a_file(st: ParseModel, raw: Seq<char>)
    requires
        !in_body(st),
        st.files.len() > 0,
        st.files.last().hunks.len() > 0,
        starts_with(raw, "--- "@),
        !starts_with(raw, "diff --git "@),
        !starts_with(raw, "Binary files "@),
        !starts_with(raw, "GIT binary patch"@),
    ensures
        parse_step(st, raw).files.len() == st.files.len() + 1,
        parse_step(st, raw).files.take(st.files.len() as int) == st.files,
{
    let fs = ensure_file(st.files);
    assert(fs == st.files.push(blank_file(Seq::empty())));
    assert(set_last(fs, with_old_header(fs.last(), strip_ab(raw.skip("--- "@.len() as int)))).take(
        st.files.len() as int,
    ) =~= st.files);
}

/// Rows a hunk takes in the unified layout: its header, then a row per line
/// unless it is collapsed.
pub open spec fn hunk_row_count(h: HunkModel) -> int {
    1 + if h.collapsed {
        0
    } else {
        h.lines.len() as int
    }
}

/// Rows the hunks `hs` take in the unified layout.
pub open spec fn hunks_row_count(hs: Seq<HunkModel>) -> int
    decreases hs.len(),
{
    if hs.len() == 0 {
        0
    } else {
        hunks_row_count(hs.drop_last()) + hunk_row_count(hs.last())
    }
}

/// Rows a file takes in the unified layout: its header, then its hunks
/// unless it is collapsed.
pub open spec fn file_row_count(f: FileModel) -> int {
    1 + if f.collapsed {
        0
    } else {
        hunks_row_count(f.hunks)
    }
}

/// Rows the files `fs` take in the unified layout.
pub open spec fn files_row_count(fs: Seq<FileModel>) -> int
    decreases fs.len(),
{
    if fs.len() == 0 {
        0
    } else {
        files_row_count(fs.drop_last()) + file_row_count(fs.last())
    }
}

proof fn lemma_hunks_row_count(f: FileModel, n: int)
    requires
        0 <= n <= f.hunks.len(),
    ensures
        hunks_rows(f, DiffMode::Unified, n).len() == hunks_row_count(f.hunks.take(n)),
    decreases n,
{
    if n > 0 {
        lemma_hunks_row_count(f, n - 1);
        assert(f.hunks.take(n).drop_last() =~= f.hunks.take(n - 1));
    } else {
        assert(f.hunks.take(0) =~= Seq::<HunkModel>::empty());
    }
}

proof fn lemma_files_row_count(files: Seq<FileModel>, n: int)
    requires
        0 <= n <= files.len(),
    ensures
        files_rows(files, DiffMode::Unified, n).len() == files_row_count(files.take(n)),
    decreases n,
{
    if n > 0 {
        lemma_files_row_count(files, n - 1);
        assert(files.take(n).drop_last() =~= files.take(n - 1));
        let f = files[n - 1];
        lemma_hunks_row_count(f, f.hunks.len() as int);
        assert(f.hunks.take(f.hunks.len() as int) =~= f.hunks);
    } else {
        assert(files.take(0) =~= Seq::<FileModel>::empty());
    }
}

/// The unified layout's row count in closed form: per file its header row,
/// then, unless the file is collapsed, per hunk its header row and, unless
/// the hunk is collapsed, one row per line.
pub proof fn law_unified_row_count(files: Seq<FileModel>)
    ensures
        rows_model(files, DiffMode::Unified).len() == files_row_count(files),
{
    lemma_files_row_count(files, files.len() as int);
    assert(files.take(files.len() as int) =~= files);
}

proof fn lemma_collapsed_rows(files: Seq<FileModel>, mode: DiffMode, n: int)
    requires
        0 <= n <= files.len(),
        forall|i: int| 0 <= i < files.len() ==> (#[trigger] files[i]).collapsed,
    ensures
        files_rows(files, mode, n).len() == n,
    decreases n,
{
    if n > 0 {
        lemma_collapsed_rows(files, mode, n - 1);
        assert(files[n - 1].collapsed);
    }
}

/// Once every file is collapsed, each file is a single row: the row count is
/// the file count, in either layout.
pub proof fn law_all_collapsed_rows(files: Seq<FileModel>, mode: DiffMode)
    ensures
        rows_model(files.map_values(|f: FileModel| collapsed_file(f)), mode).len() == files.len(),
{
    let cf = files.map_values(|f: FileModel| collapsed_file(f));
    lemma_collapsed_rows(cf, mode, cf.len() as int);
}

/// The old-side numbers the lines carry, in order.
pub open spec fn old_numbers(ls: Seq<LineModel>) -> Seq<u32>
    decreases ls.len(),
{
    if ls.len() == 0 {
        Seq::empty()
    } else {
        let r = old_numbers(ls.drop_last());
        match ls.last().old_lineno {
            Some(v) => r.push(v),
            None => r,
        }
    }
}

/// The new-side numbers the lines carry, in order.
pub open spec fn new_numbers(ls: Seq<LineModel>) -> Seq<u32>
    decreases ls.len(),
{
    if ls.len() == 0 {
        Seq::empty()
    } else {
        let r = new_numbers(ls.drop_last());
        match ls.last().new_lineno {
            Some(v) => r.push(v),
            None => r,
        }
    }
}

/// `ns` counts up by one from `start`.
pub open spec fn counts_from(ns: Seq<u32>, start: u32) -> bool {
    forall|i: int| 0 <= i < ns.len() ==> #[trigger] ns[i] == start + i
}

/// A hunk's lines are numbered per side: a line carries an old number
/// exactly when it is context or removed, a new number exactly when it is
/// context or added, and the numbers on each side run consecutively from the
/// hunk's start on that side.
pub open spec fn numbered(h: HunkModel) -> bool {
    &&& counts_from(old_numbers(h.lines), h.old_start)
    &&& counts_from(new_numbers(h.lines), h.new_start)
    &&& forall|i: int| 0 <= i < h.lines.len() ==> ((#[trigger] h.lines[i]).old_lineno is Some <==> uses_old(h.lines[i].kind))
        && (h.lines[i].new_lineno is Some <==> uses_new(h.lines[i].kind))
}

/// Every hunk of every file is numbered.
pub open spec fn all_numbered(files: Seq<FileModel>) -> bool {
    forall|fi: int, hi: int|
        0 <= fi < files.len() && 0 <= hi < files[fi].hunks.len() ==> #[trigger] numbered(files[fi].hunks[hi])
}

/// What reading keeps: hunks are numbered, and the counters stand just past
/// the numbers the open hunk has given out.
pub open spec fn parse_inv(st: ParseModel) -> bool {
    &&& all_numbered(st.files)
    &&& st.files.len() > 0 && st.files.last().hunks.len() > 0 ==> {
        let h = st.files.last().hunks.last();
        &&& st.old_ln == h.old_start + old_numbers(h.lines).len()
        &&& st.new_ln == h.new_start + new_numbers(h.lines).len()
    }
}

proof fn lemma_content_numbered(st: ParseModel, raw: Seq<char>, k: LineKind)
    requires
        parse_inv(st),
        st.files.len() > 0,
        st.files.last().hunks.len() > 0,
        !content_step(st, raw, k).overflow,
    ensures
        parse_inv(content_step(st, raw, k)),
{
    let nst = content_step(st, raw, k);
    let f = st.files.last();
    let h = f.hunks.last();
    let l = nst.files.last().hunks.last().lines.last();
    let nh = HunkModel { lines: h.lines.push(l), ..h };
    assert(nh.lines.drop_last() =~= h.lines);
    assert(numbered(nh)) by {
        assert forall|i: int| 0 <= i < nh.lines.len() implies ((#[trigger] nh.lines[i]).old_lineno is Some <==> uses_old(nh.lines[i].kind))
            && (nh.lines[i].new_lineno is Some <==> uses_new(nh.lines[i].kind)) by {
            if i < h.lines.len() {
                assert(nh.lines[i] == h.lines[i]);
                assert(numbered(st.files[st.files.len() - 1].hunks[f.hunks.len() - 1]));
            }
        }
        assert(numbered(st.files[st.files.len() - 1].hunks[f.hunks.len() - 1]));
    }
    let nf = FileModel { hunks: f.hunks.drop_last().push(nh), ..f };
    assert(nst.files == st.files.drop_last().push(nf));
    assert forall|fi: int, hi: int|
        0 <= fi < nst.files.len() && 0 <= hi < nst.files[fi].hunks.len() implies #[trigger] numbered(
        nst.files[fi].hunks[hi],
    ) by {
        if fi < st.files.len() - 1 {
            assert(nst.files[fi] == st.files[fi]);
        } else if hi < f.hunks.len() - 1 {
            assert(nst.files[fi].hunks[hi] == f.hunks[hi]);
            assert(numbered(st.files[st.files.len() - 1].hunks[hi]));
        } else {
            assert(nst.files[fi].hunks[hi] == nh);
        }
    }
}

proof fn lemma_step_numbered(st: ParseModel, raw: Seq<char>)
    requires
        parse_inv(st),
        !parse_step(st, raw).overflow,
    ensures
        parse_inv(parse_step(st, raw)),
{
    let nst = parse_step(st, raw);
    if in_body(st) && kind_of(raw) is Some {
        lemma_content_numbered(st, raw, kind_of(raw)->0);
    } else if starts_with(raw, "diff --git "@) {
        assert forall|fi: int, hi: int|
            0 <= fi < nst.files.len() && 0 <= hi < nst.files[fi].hunks.len() implies #[trigger] numbered(
            nst.files[fi].hunks[hi],
        ) by {
            assert(fi < st.files.len());
            assert(nst.files[fi] == st.files[fi]);
        }
    } else if starts_with(raw, "Binary files "@) || starts_with(raw, "GIT binary patch"@) {
        if st.files.len() > 0 {
            assert forall|fi: int, hi: int|
                0 <= fi < nst.files.len() && 0 <= hi < nst.files[fi].hunks.len() implies #[trigger] numbered(
                nst.files[fi].hunks[hi],
            ) by {
                assert(nst.files[fi].hunks == st.files[fi].hunks);
            }
        }
    } else if starts_with(raw, "--- "@) || starts_with(raw, "+++ "@) {
        let fs = ensure_file(st.files);
        assert forall|fi: int, hi: int|
            0 <= fi < nst.files.len() && 0 <= hi < nst.files[fi].hunks.len() implies #[trigger] numbered(
            nst.files[fi].hunks[hi],
        ) by {
            assert(nst.files[fi].hunks == fs[fi].hunks);
            if fi < st.files.len() {
                assert(fs[fi] == st.files[fi]);
            }
        }
        if nst.files.len() > 0 && nst.files.last().hunks.len() > 0 {
            assert(fs.len() == st.files.len());
            assert(nst.files.last().hunks == st.files.last().hunks);
        }
    } else if starts_with(raw, "@@"@) {
        if st.files.len() > 0 {
            let f = st.files.last();
            let h = nst.files.last().hunks.last();
            assert(h.lines.len() == 0);
            assert(old_numbers(h.lines) =~= Seq::<u32>::empty());
            assert(new_numbers(h.lines) =~= Seq::<u32>::empty());
            assert forall|fi: int, hi: int|
                0 <= fi < nst.files.len() && 0 <= hi < nst.files[fi].hunks.len() implies #[trigger] numbered(
                nst.files[fi].hunks[hi],
            ) by {
                if fi < st.files.len() - 1 {
                    assert(nst.files[fi] == st.files[fi]);
                } else if hi < f.hunks.len() {
                    assert(nst.files[fi].hunks[hi] == f.hunks[hi]);
                    assert(numbered(st.files[st.files.len() - 1].hunks[hi]));
                } else {
                    assert(nst.files[fi].hunks[hi] == h);
                }
            }
        }
    } else if st.files.len() == 0 || st.files.last().hunks.len() == 0 || kind_of(raw) is None {
    } else {
        lemma_content_numbered(st, raw, kind_of(raw)->0);
    }
}

proof fn lemma_upto_numbered(lines: Seq<Seq<char>>, k: int)
    requires
        0 <= k <= lines.len(),
        !parse_upto(lines, lines.len() as int).overflow,
    ensures
        parse_inv(parse_upto(lines, k)),
        !parse_upto(lines, k).overflow,
    decreases k,
{
    if parse_upto(lines, k).overflow {
        lemma_overflow_sticks(lines, k, lines.len() as int);
    }
    if k > 0 {
        lemma_upto_numbered(lines, k - 1);
        lemma_step_numbered(parse_upto(lines, k - 1), lines[k - 1]);
    }
}

/// Line numbers run per side: in every hunk [`DiffView::parse`] reads, a
/// line carries an old number exactly when it is context or removed and a
/// new number exactly when it is context or added, and the numbers on each
/// side count up by one from the hunk's start on that side.
pub proof fn law_parsed_lines_are_numbered(diff: Seq<char>)
    requires
        !parse_model(diff).overflow,
    ensures
        all_numbered(parse_model(diff).files),
{
    lemma_upto_numbered(lines_spec(diff), lines_spec(diff).len() as int);
}

impl Default for DiffView {
    fn default() -> (r: Self)
        ensures
            r.files_spec() == Seq::<FileModel>::empty(),
            r.cursor_spec() == 0,
            r.mode_spec() == DiffMode::Unified,
    {
        let files: Vec<FileDiff> = Vec::new();
        assert(files_model(files@) =~= Seq::<FileModel>::empty());
        DiffView { files, cursor: 0, mode: DiffMode::Unified }
    }
}

impl Clone for DiffView {
    fn clone(&self) -> (r: Self)
        ensures
            r.files_spec() == self.files_spec(),
            r.cursor_spec() == self.cursor_spec(),
            r.mode_spec() == self.mode_spec(),
    {
        proof {
            use_type_invariant(self);
        }
        DiffView { files: clone_files(&self.files), cursor: self.cursor, mode: self.mode }
    }
}

/// The file and hunk header rows of `rows`, in order.
pub open spec fn headers(rows: Seq<RowView>) -> Seq<RowView>
    decreases rows.len(),
{
    if rows.len() == 0 {
        Seq::empty()
    } else {
        let rest = headers(rows.drop_last());
        match rows.last() {
            RowView::File(_) => rest.push(rows.last()),
            RowView::HunkHeader(_, _) => rest.push(rows.last()),
            _ => rest,
        }
    }
}

proof fn lemma_headers_concat(a: Seq<RowView>, b: Seq<RowView>)
    ensures
        headers(a + b) == headers(a) + headers(b),
    decreases b.len(),
{
    if b.len() == 0 {
        assert(a + b =~= a);
        assert(headers(a) + headers(b) =~= headers(a));
    } else {
        assert((a + b).drop_last() =~= a + b.drop_last());
        lemma_headers_concat(a, b.drop_last());
        assert((a + b).last() == b.last());
        match b.last() {
            RowView::File(_) => {
                assert(headers(a) + headers(b) =~= (headers(a) + headers(b.drop_last())).push(b.last()));
            },
            RowView::HunkHeader(_, _) => {
                assert(headers(a) + headers(b) =~= (headers(a) + headers(b.drop_last())).push(b.last()));
            },
            _ => {},
        }
    }
}

/// Rows that are all line rows hold no header.
proof fn lemma_no_headers(rows: Seq<RowView>)
    requires
        forall|i: int| 0 <= i < rows.len() ==> (#[trigger] rows[i]) is Line || rows[i] is SideBySide,
    ensures
        headers(rows) == Seq::<RowView>::empty(),
    decreases rows.len(),
{
    if rows.len() > 0 {
        lemma_no_headers(rows.drop_last());
        assert(rows.last() == rows[rows.len() - 1]);
    }
}

proof fn lemma_hunk_headers(f: FileModel, h: HunkModel, mode: DiffMode)
    ensures
        headers(hunk_rows(f, h, mode)) == seq![RowView::HunkHeader(f, h)],
{
    let body = if h.collapsed {
        Seq::empty()
    } else {
        body_rows(f, h, mode)
    };
    lemma_no_headers(body);
    lemma_headers_concat(seq![RowView::HunkHeader(f, h)], body);
    let one = seq![RowView::HunkHeader(f, h)];
    assert(one.drop_last() =~= Seq::<RowView>::empty());
    assert(headers(one) == headers(Seq::<RowView>::empty()).push(one.last()));
    assert(headers(one) =~= one);
}

proof fn lemma_hunks_headers(f: FileModel, n: int)
    ensures
        headers(hunks_rows(f, DiffMode::SideBySide, n)) == headers(hunks_rows(f, DiffMode::Unified, n)),
    decreases n,
{
    if n > 0 {
        lemma_hunks_headers(f, n - 1);
        lemma_headers_concat(hunks_rows(f, DiffMode::SideBySide, n - 1), hunk_rows(f, f.hunks[n - 1], DiffMode::SideBySide));
        lemma_headers_concat(hunks_rows(f, DiffMode::Unified, n - 1), hunk_rows(f, f.hunks[n - 1], DiffMode::Unified));
        lemma_hunk_headers(f, f.hunks[n - 1], DiffMode::SideBySide);
        lemma_hunk_headers(f, f.hunks[n - 1], DiffMode::Unified);
    }
}

proof fn lemma_files_headers(files: Seq<FileModel>, n: int)
    ensures
        headers(files_rows(files, DiffMode::SideBySide, n)) == headers(files_rows(files, DiffMode::Unified, n)),
    decreases n,
{
    if n > 0 {
        let f = files[n - 1];
        lemma_files_headers(files, n - 1);
        lemma_headers_concat(files_rows(files, DiffMode::SideBySide, n - 1), file_rows(f, DiffMode::SideBySide));
        lemma_headers_concat(files_rows(files, DiffMode::Unified, n - 1), file_rows(f, DiffMode::Unified));
        let one = seq![RowView::File(f)];
        let hs = hunks_rows(f, DiffMode::SideBySide, f.hunks.len() as int);
        let hu = hunks_rows(f, DiffMode::Unified, f.hunks.len() as int);
        lemma_hunks_headers(f, f.hunks.len() as int);
        if f.collapsed {
            assert(file_rows(f, DiffMode::SideBySide) =~= one + Seq::<RowView>::empty());
            assert(file_rows(f, DiffMode::Unified) =~= one + Seq::<RowView>::empty());
        } else {
            lemma_headers_concat(one, hs);
            lemma_headers_concat(one, hu);
        }
    }
}

/// Switching layout never reorders files or hunks: the file and hunk header
/// rows come in the same order side by side as unified (the layouts differ
/// only in how they lay out a hunk's lines).
pub proof fn law_layouts_keep_the_headers(files: Seq<FileModel>)
    ensures
        headers(rows_model(files, DiffMode::SideBySide)) == headers(rows_model(files, DiffMode::Unified)),
{
    lemma_files_headers(files, files.len() as int);
}

} // verus!
