//! Hunks as descriptions of a computed diff, and the two ways of replaying
//! them on live file content: applying a hunk's patch to the base it was
//! computed against, and copying a line range into another file version.
use vstd::prelude::*;

use crate::bytes::{bytes_eq, copy_bytes, copy_range};
use crate::text::{
    ends_with_newline, join_with_newlines, lines_of, lines_view, rebuild, split_lines, trim_end,
    trimmed_end, NL,
};

verus! {

/// A 1-based line range of one side of a diff.
#[derive(Clone, Copy, Debug, PartialEq, Eq, Structural)]
pub struct FileRange {
    pub start: usize,
    pub len: usize,
}

/// Where a hunk lies in the old (`from_file`) and new (`to_file`) file.
#[derive(Clone, Copy, Debug, PartialEq, Eq, Structural)]
pub struct HunkLocation {
    pub from_file: FileRange,
    pub to_file: FileRange,
}

/// A hunk: its location and its lines, each tagged by its first byte
/// (`' '` context, `'-'` removed, `'+'` added).
pub struct ChangeHunk {
    pub location: HunkLocation,
    pub lines: Vec<Vec<u8>>,
}

/// Mathematical value of a hunk.
pub struct HunkView {
    pub location: HunkLocation,
    pub lines: Seq<Seq<u8>>,
}

impl ChangeHunk {
    pub open spec fn view(&self) -> HunkView {
        HunkView { location: self.location, lines: lines_view(self.lines@) }
    }
}

pub const TAG_CONTEXT: u8 = 32;

pub const TAG_REMOVED: u8 = 45;

pub const TAG_ADDED: u8 = 43;

pub open spec fn is_context(l: Seq<u8>) -> bool {
    l.len() > 0 && l[0] == TAG_CONTEXT
}

pub open spec fn is_removed(l: Seq<u8>) -> bool {
    l.len() > 0 && l[0] == TAG_REMOVED
}

pub open spec fn is_added(l: Seq<u8>) -> bool {
    l.len() > 0 && l[0] == TAG_ADDED
}

/// `l` without its trailing newline bytes.
pub open spec fn trim_newlines(l: Seq<u8>) -> Seq<u8>
    decreases l.len(),
{
    if l.len() > 0 && l.last() == NL {
        trim_newlines(l.drop_last())
    } else {
        l
    }
}

/// `n - 1`, or 0 for 0: a 1-based start as a 0-based index.
pub open spec fn index_of_start(n: usize) -> int {
    if n == 0 {
        0
    } else {
        n - 1
    }
}

/// Why a hunk could not be replayed.
pub enum HunkError {
    /// The destination range lies beyond the destination's `available` lines.
    OutOfBounds { available: usize, start: usize, len: usize },
    /// The source range lies beyond the source's `available` lines.
    SourceOutOfBounds { available: usize, start: usize, len: usize },
    /// The destination range holds `found` lines where the hunk expects `expected`.
    CountMismatch { expected: usize, found: usize },
    /// The line at 0-based `index` is not the one the hunk expects; `found` is
    /// `None` past the end of the file. Both are compared without trailing
    /// whitespace.
    Mismatch { index: usize, expected: Vec<u8>, found: Option<Vec<u8>> },
    /// A hunk line carries no known tag.
    Malformed { line: Vec<u8> },
}

/// Mathematical value of a `HunkError`.
pub enum HunkErrorView {
    OutOfBounds { available: usize, start: usize, len: usize },
    SourceOutOfBounds { available: usize, start: usize, len: usize },
    CountMismatch { expected: usize, found: usize },
    Mismatch { index: int, expected: Seq<u8>, found: Option<Seq<u8>> },
    Malformed { line: Seq<u8> },
}

impl HunkError {
    pub open spec fn view(&self) -> HunkErrorView {
        match self {
            HunkError::OutOfBounds { available, start, len } => HunkErrorView::OutOfBounds {
                available: *available,
                start: *start,
                len: *len,
            },
            HunkError::SourceOutOfBounds { available, start, len } => HunkErrorView::SourceOutOfBounds {
                available: *available,
                start: *start,
                len: *len,
            },
            HunkError::CountMismatch { expected, found } => HunkErrorView::CountMismatch {
                expected: *expected,
                found: *found,
            },
            HunkError::Mismatch { index, expected, found } => HunkErrorView::Mismatch {
                index: *index as int,
                expected: expected@,
                found: match found {
                    Some(f) => Some(f@),
                    None => None,
                },
            },
            HunkError::Malformed { line } => HunkErrorView::Malformed { line: line@ },
        }
    }

    /// Whether the error is one the user can act on (a range out of bounds),
    /// rather than a sign that the hunk is stale.
    pub fn is_precondition(&self) -> (r: bool)
        ensures
            r == (self.view() is OutOfBounds || self.view() is SourceOutOfBounds),
    {
        match self {
            HunkError::OutOfBounds { .. } => true,
            HunkError::SourceOutOfBounds { .. } => true,
            _ => false,
        }
    }
}

// ---------------------------------------------------------------------------
// Applying a hunk to its base.

/// Progress of replaying a hunk on base lines: the output so far and the
/// index of the next base line.
pub struct ApplyState {
    pub out: Seq<Seq<u8>>,
    pub idx: int,
}

/// One hunk line replayed on `base`.
pub open spec fn apply_step(st: Result<ApplyState, HunkErrorView>, base: Seq<Seq<u8>>, l: Seq<u8>) -> Result<ApplyState, HunkErrorView> {
    match st {
        Err(e) => Err(e),
        Ok(s) => if is_context(l) || is_removed(l) {
            let expected = trim_end(l.drop_first());
            if 0 <= s.idx < base.len() && trim_end(base[s.idx]) == expected {
                Ok(ApplyState {
                    out: if is_context(l) { s.out.push(base[s.idx]) } else { s.out },
                    idx: s.idx + 1,
                })
            } else {
                Err(HunkErrorView::Mismatch {
                    index: s.idx,
                    expected,
                    found: if 0 <= s.idx < base.len() { Some(trim_end(base[s.idx])) } else { None },
                })
            }
        } else if is_added(l) {
            Ok(ApplyState { out: s.out.push(trim_newlines(l.drop_first())), idx: s.idx })
        } else {
            Err(HunkErrorView::Malformed { line: l })
        },
    }
}

/// The hunk lines replayed in order, after copying the base lines before `start`.
pub open spec fn apply_fold(base: Seq<Seq<u8>>, start: int, ls: Seq<Seq<u8>>) -> Result<ApplyState, HunkErrorView>
    decreases ls.len(),
{
    if ls.len() == 0 {
        Ok(ApplyState { out: base.take(start), idx: start })
    } else {
        apply_step(apply_fold(base, start, ls.drop_last()), base, ls.last())
    }
}

/// The base content with the hunk's patch applied: the lines before the hunk,
/// its context lines checked against the base, its removed lines checked and
/// dropped, its added lines inserted, then the rest of the base.
pub open spec fn patched(base_content: Seq<u8>, hunk: HunkView) -> Result<Seq<u8>, HunkErrorView> {
    let base = lines_of(base_content);
    let start = index_of_start(hunk.location.from_file.start);
    if start > base.len() {
        Err(HunkErrorView::OutOfBounds {
            available: base.len() as usize,
            start: hunk.location.from_file.start,
            len: hunk.location.from_file.len,
        })
    } else {
        match apply_fold(base, start, hunk.lines) {
            Err(e) => Err(e),
            Ok(s) => Ok(rebuild(s.out + base.skip(s.idx), ends_with_newline(base_content))),
        }
    }
}

proof fn lemma_apply_fold_idx(base: Seq<Seq<u8>>, start: int, ls: Seq<Seq<u8>>)
    requires
        0 <= start <= base.len(),
    ensures
        apply_fold(base, start, ls) is Ok ==> start <= apply_fold(base, start, ls)->Ok_0.idx <= base.len(),
    decreases ls.len(),
{
    if ls.len() > 0 {
        lemma_apply_fold_idx(base, start, ls.drop_last());
    }
}

proof fn lemma_apply_fold_err(base: Seq<Seq<u8>>, start: int, ls: Seq<Seq<u8>>, k: int)
    requires
        0 <= k <= ls.len(),
        apply_fold(base, start, ls.take(k)) is Err,
    ensures
        apply_fold(base, start, ls) == apply_fold(base, start, ls.take(k)),
    decreases ls.len() - k,
{
    if k == ls.len() {
        assert(ls.take(k) =~= ls);
    } else {
        assert(ls.drop_last().take(k) =~= ls.take(k));
        lemma_apply_fold_err(base, start, ls.drop_last(), k);
    }
}

/// `l` without its trailing newline bytes.
fn without_newlines(l: &[u8]) -> (r: Vec<u8>)
    ensures
        r@ == trim_newlines(l@),
{
    let mut n: usize = l.len();
    assert(l@.take(l@.len() as int) =~= l@);
    while n > 0 && l[n - 1] == NL
        invariant
            n <= l@.len(),
            trim_newlines(l@.take(n as int)) == trim_newlines(l@),
        decreases n,
    {
        assert(l@.take(n as int).drop_last() =~= l@.take(n - 1));
        n = n - 1;
    }
    assert(trim_newlines(l@.take(n as int)) == l@.take(n as int));
    copy_range(l, 0, n)
}

/// Copies `src[start..end]` into a new vector of lines.
fn copy_lines(src: &Vec<Vec<u8>>, start: usize, end: usize) -> (r: Vec<Vec<u8>>)
    requires
        start <= end <= src@.len(),
    ensures
        lines_view(r@) == lines_view(src@).subrange(start as int, end as int),
{
    let mut r: Vec<Vec<u8>> = Vec::new();
    let mut i: usize = start;
    while i < end
        invariant
            start <= i <= end,
            end <= src@.len(),
            lines_view(r@) == lines_view(src@).subrange(start as int, i as int),
        decreases end - i,
    {
        let ghost before = lines_view(r@);
        let c = copy_bytes(src[i].as_slice());
        r.push(c);
        assert(lines_view(r@) =~= before.push(src@[i as int]@));
        i = i + 1;
        assert(lines_view(r@) =~= lines_view(src@).subrange(start as int, i as int));
    }
    r
}

/// Appends copies of `src[start..end]` to `dst`.
fn extend_lines(dst: &mut Vec<Vec<u8>>, src: &Vec<Vec<u8>>, start: usize, end: usize)
    requires
        start <= end <= src@.len(),
    ensures
        lines_view(final(dst)@) == lines_view(old(dst)@) + lines_view(src@).subrange(start as int, end as int),
{
    let mut i: usize = start;
    while i < end
        invariant
            start <= i <= end,
            end <= src@.len(),
            lines_view(dst@) == lines_view(old(dst)@) + lines_view(src@).subrange(start as int, i as int),
        decreases end - i,
    {
        let ghost before = lines_view(dst@);
        let c = copy_bytes(src[i].as_slice());
        dst.push(c);
        assert(lines_view(dst@) =~= before.push(src@[i as int]@));
        i = i + 1;
        assert(lines_view(dst@) =~= lines_view(old(dst)@) + lines_view(src@).subrange(start as int, i as int));
    }
}

/// Rebuilds the content a hunk was computed to: `base_content` with the
/// hunk's patch applied at its recorded location. Every context and removed
/// line must equal (without trailing whitespace) the base line at the running
/// offset; the result ends in a newline where the base did.
pub fn apply_hunk_to_base(base_content: &[u8], hunk: &ChangeHunk) -> (r: Result<Vec<u8>, HunkError>)
    ensures
        match r {
            Ok(v) => patched(base_content@, hunk.view()) == Ok::<Seq<u8>, HunkErrorView>(v@),
            Err(e) => patched(base_content@, hunk.view()) == Err::<Seq<u8>, HunkErrorView>(e.view()),
        },
{
    let base_lines = split_lines(base_content);
    let ghost base = lines_view(base_lines@);
    let ghost hv = hunk.view();
    let newline_at_end = base_content.len() > 0 && base_content[base_content.len() - 1] == NL;
    let hunk_start: usize = if hunk.location.from_file.start == 0 {
        0
    } else {
        hunk.location.from_file.start - 1
    };
    if hunk_start > base_lines.len() {
        return Err(HunkError::OutOfBounds {
            available: base_lines.len(),
            start: hunk.location.from_file.start,
            len: hunk.location.from_file.len,
        });
    }
    let mut result_lines = copy_lines(&base_lines, 0, hunk_start);
    let mut base_idx: usize = hunk_start;
    let mut i: usize = 0;
    proof {
        assert(hv.lines.take(0) =~= Seq::<Seq<u8>>::empty());
        assert(base.subrange(0, hunk_start as int) =~= base.take(hunk_start as int));
    }
    while i < hunk.lines.len()
        invariant
            base == lines_view(base_lines@),
            base == lines_of(base_content@),
            hunk_start == index_of_start(hunk.location.from_file.start),
            newline_at_end == ends_with_newline(base_content@),
            hv == hunk.view(),
            i <= hv.lines.len(),
            hunk_start <= base_idx <= base.len(),
            apply_fold(base, hunk_start as int, hv.lines.take(i as int)) == Ok::<ApplyState, HunkErrorView>(
                ApplyState { out: lines_view(result_lines@), idx: base_idx as int },
            ),
        decreases hv.lines.len() - i,
    {
        assert(hv.lines.take(i + 1).drop_last() =~= hv.lines.take(i as int));
        assert(hv.lines.take(i + 1).last() == hunk.lines@[i as int]@);
        let line = &hunk.lines[i];
        let n = line.len();
        let tag: u8 = if n > 0 { line[0] } else { 0 };
        if n > 0 && (tag == TAG_CONTEXT || tag == TAG_REMOVED) {
            let body = copy_range(line.as_slice(), 1, n);
            assert(body@ =~= line@.drop_first());
            let expected = trimmed_end(body.as_slice());
            if base_idx < base_lines.len() {
                let found = trimmed_end(base_lines[base_idx].as_slice());
                if bytes_eq(found.as_slice(), expected.as_slice()) {
                    if tag == TAG_CONTEXT {
                        let ghost before = lines_view(result_lines@);
                        result_lines.push(copy_bytes(base_lines[base_idx].as_slice()));
                        assert(lines_view(result_lines@) =~= before.push(base[base_idx as int]));
                    }
                    base_idx = base_idx + 1;
                } else {
                    let err = HunkError::Mismatch { index: base_idx, expected, found: Some(found) };
                    proof {
                        lemma_apply_fold_err(base, hunk_start as int, hv.lines, i + 1);
                    }
                    return Err(err);
                }
            } else {
                proof {
                    lemma_apply_fold_err(base, hunk_start as int, hv.lines, i + 1);
                }
                return Err(HunkError::Mismatch { index: base_idx, expected, found: None });
            }
        } else if n > 0 && tag == TAG_ADDED {
            let body = copy_range(line.as_slice(), 1, n);
            assert(body@ =~= line@.drop_first());
            let added = without_newlines(body.as_slice());
            let ghost before = lines_view(result_lines@);
            result_lines.push(added);
            assert(lines_view(result_lines@) =~= before.push(trim_newlines(line@.drop_first())));
        } else {
            proof {
                lemma_apply_fold_err(base, hunk_start as int, hv.lines, i + 1);
            }
            return Err(HunkError::Malformed { line: copy_bytes(line.as_slice()) });
        }
        i = i + 1;
    }
    assert(hv.lines.take(hv.lines.len() as int) =~= hv.lines);
    let ghost before = lines_view(result_lines@);
    extend_lines(&mut result_lines, &base_lines, base_idx, base_lines.len());
    assert(base.subrange(base_idx as int, base.len() as int) =~= base.skip(base_idx as int));
    Ok(join_with_newlines(&result_lines, newline_at_end))
}

// ---------------------------------------------------------------------------
// Copying a hunk's line range between file versions.

/// What the hunk expects in the new file: its context and added lines,
/// without tag and trailing whitespace.
pub open spec fn expected_lines(ls: Seq<Seq<u8>>) -> Seq<Seq<u8>>
    decreases ls.len(),
{
    if ls.len() == 0 {
        seq![]
    } else if is_context(ls.last()) || is_added(ls.last()) {
        expected_lines(ls.drop_last()).push(trim_end(ls.last().drop_first()))
    } else {
        expected_lines(ls.drop_last())
    }
}

/// The first index where `a` and `b` differ, or the length of `a` when none does.
pub open spec fn first_difference(a: Seq<Seq<u8>>, b: Seq<Seq<u8>>) -> int
    decreases a.len(),
{
    if a.len() == 0 || b.len() == 0 || a[0] != b[0] {
        0
    } else {
        1 + first_difference(a.drop_first(), b.drop_first())
    }
}

proof fn lemma_first_difference(a: Seq<Seq<u8>>, b: Seq<Seq<u8>>, i: int)
    requires
        a.len() == b.len(),
        0 <= i <= a.len(),
        forall|j: int| 0 <= j < i ==> a[j] == b[j],
        i < a.len() ==> a[i] != b[i],
    ensures
        first_difference(a, b) == i,
    decreases a.len(),
{
    if i > 0 {
        assert forall|j: int| 0 <= j < i - 1 implies a.drop_first()[j] == b.drop_first()[j] by {
            assert(a.drop_first()[j] == a[j + 1]);
        }
        lemma_first_difference(a.drop_first(), b.drop_first(), i - 1);
    }
}

/// Result of copying the source range of a hunk over its destination range:
/// `Ok(None)` where the destination would not change, `Ok(Some(content))` for
/// the new destination content.
///
/// The destination range is checked first: it must lie within the
/// destination, and its lines (without trailing whitespace) must be exactly
/// the hunk's context and added lines; the first line that differs is
/// reported. Then the source range must lie within the source.
pub open spec fn copied(to_content: Seq<u8>, from_content: Seq<u8>, hunk: HunkView) -> Result<Option<Seq<u8>>, HunkErrorView> {
    let to_lines = lines_of(to_content);
    let to_range = hunk.location.to_file;
    let ts = index_of_start(to_range.start);
    let te = ts + to_range.len;
    let expected = expected_lines(hunk.lines);
    let actual = to_lines.subrange(ts, te).map_values(|l: Seq<u8>| trim_end(l));
    let from_lines = lines_of(from_content);
    let from_range = hunk.location.from_file;
    let fs = index_of_start(from_range.start);
    let fe = fs + from_range.len;
    if te > to_lines.len() {
        Err(HunkErrorView::OutOfBounds { available: to_lines.len() as usize, start: to_range.start, len: to_range.len })
    } else if expected.len() != actual.len() {
        Err(HunkErrorView::CountMismatch { expected: expected.len() as usize, found: actual.len() as usize })
    } else if first_difference(expected, actual) < expected.len() {
        let i = first_difference(expected, actual);
        Err(HunkErrorView::Mismatch { index: ts + i, expected: expected[i], found: Some(actual[i]) })
    } else if fe > from_lines.len() {
        Err(HunkErrorView::SourceOutOfBounds {
            available: from_lines.len() as usize,
            start: from_range.start,
            len: from_range.len,
        })
    } else {
        let new_content = rebuild(
            to_lines.take(ts) + from_lines.subrange(fs, fe) + to_lines.skip(te),
            ends_with_newline(to_content),
        );
        if new_content == to_content {
            Ok(None)
        } else {
            Ok(Some(new_content))
        }
    }
}

/// The hunk's context and added lines, without tag and trailing whitespace.
fn hunk_expected_lines(hunk: &ChangeHunk) -> (r: Vec<Vec<u8>>)
    ensures
        lines_view(r@) == expected_lines(hunk.view().lines),
{
    let ghost hl = hunk.view().lines;
    let mut r: Vec<Vec<u8>> = Vec::new();
    let mut i: usize = 0;
    assert(hl.take(0) =~= Seq::<Seq<u8>>::empty());
    while i < hunk.lines.len()
        invariant
            hl == hunk.view().lines,
            i <= hl.len(),
            lines_view(r@) == expected_lines(hl.take(i as int)),
        decreases hl.len() - i,
    {
        assert(hl.take(i + 1).drop_last() =~= hl.take(i as int));
        assert(hl.take(i + 1).last() == hunk.lines@[i as int]@);
        let line = &hunk.lines[i];
        let n = line.len();
        if n > 0 && (line[0] == TAG_CONTEXT || line[0] == TAG_ADDED) {
            let body = copy_range(line.as_slice(), 1, n);
            assert(body@ =~= line@.drop_first());
            let t = trimmed_end(body.as_slice());
            let ghost before = lines_view(r@);
            r.push(t);
            assert(lines_view(r@) =~= before.push(t@));
        }
        i = i + 1;
    }
    assert(hl.take(hl.len() as int) =~= hl);
    r
}

/// `ls[start..end]`, each line without trailing whitespace.
fn trimmed_range(ls: &Vec<Vec<u8>>, start: usize, end: usize) -> (r: Vec<Vec<u8>>)
    requires
        start <= end <= ls@.len(),
    ensures
        lines_view(r@) == lines_view(ls@).subrange(start as int, end as int).map_values(|l: Seq<u8>| trim_end(l)),
{
    let mut r: Vec<Vec<u8>> = Vec::new();
    let mut i: usize = start;
    while i < end
        invariant
            start <= i <= end,
            end <= ls@.len(),
            lines_view(r@) == lines_view(ls@).subrange(start as int, i as int).map_values(|l: Seq<u8>| trim_end(l)),
        decreases end - i,
    {
        let ghost before = lines_view(r@);
        let t = trimmed_end(ls[i].as_slice());
        r.push(t);
        assert(lines_view(r@) =~= before.push(trim_end(ls@[i as int]@)));
        i = i + 1;
        assert(lines_view(r@) =~= lines_view(ls@).subrange(start as int, i as int).map_values(|l: Seq<u8>| trim_end(l)));
    }
    r
}

/// Copies the hunk's source line range (`from_file`, in `from_content`) over
/// its destination line range (`to_file`, in `to_content`), after checking
/// that the destination still holds what the hunk expects there. The result
/// keeps the destination's final newline; `Ok(None)` means the destination
/// would not change.
pub fn copy_hunk_content(to_content: &[u8], from_content: &[u8], hunk: &ChangeHunk) -> (r: Result<Option<Vec<u8>>, HunkError>)
    ensures
        match r {
            Ok(Some(v)) => copied(to_content@, from_content@, hunk.view()) == Ok::<Option<Seq<u8>>, HunkErrorView>(Some(v@)),
            Ok(None) => copied(to_content@, from_content@, hunk.view()) == Ok::<Option<Seq<u8>>, HunkErrorView>(None),
            Err(e) => copied(to_content@, from_content@, hunk.view()) == Err::<Option<Seq<u8>>, HunkErrorView>(e.view()),
        },
{
    let to_lines = split_lines(to_content);
    let ghost tl = lines_view(to_lines@);
    let to_range = hunk.location.to_file;
    let to_start: usize = if to_range.start == 0 {
        0
    } else {
        to_range.start - 1
    };
    if to_range.len > to_lines.len() || to_start > to_lines.len() - to_range.len {
        return Err(HunkError::OutOfBounds { available: to_lines.len(), start: to_range.start, len: to_range.len });
    }
    let to_end = to_start + to_range.len;
    let expected = hunk_expected_lines(hunk);
    let actual = trimmed_range(&to_lines, to_start, to_end);
    let ghost ev = lines_view(expected@);
    let ghost av = lines_view(actual@);
    if expected.len() != actual.len() {
        return Err(HunkError::CountMismatch { expected: expected.len(), found: actual.len() });
    }
    let mut i: usize = 0;
    while i < expected.len()
        invariant
            ev == lines_view(expected@),
            av == lines_view(actual@),
            ev.len() == av.len(),
            i <= ev.len(),
            tl == lines_view(to_lines@),
            tl == lines_of(to_content@),
            ev == expected_lines(hunk.view().lines),
            av == tl.subrange(to_start as int, to_end as int).map_values(|l: Seq<u8>| trim_end(l)),
            to_start <= to_end <= tl.len(),
            to_start == index_of_start(hunk.location.to_file.start),
            to_end == to_start + hunk.location.to_file.len,
            forall|j: int| 0 <= j < i ==> ev[j] == av[j],
        decreases ev.len() - i,
    {
        if !bytes_eq(expected[i].as_slice(), actual[i].as_slice()) {
            proof {
                lemma_first_difference(ev, av, i as int);
            }
            return Err(HunkError::Mismatch {
                index: to_start + i,
                expected: copy_bytes(expected[i].as_slice()),
                found: Some(copy_bytes(actual[i].as_slice())),
            });
        }
        i = i + 1;
    }
    proof {
        lemma_first_difference(ev, av, i as int);
    }
    let from_lines = split_lines(from_content);
    let from_range = hunk.location.from_file;
    let from_start: usize = if from_range.start == 0 {
        0
    } else {
        from_range.start - 1
    };
    if from_range.len > from_lines.len() || from_start > from_lines.len() - from_range.len {
        return Err(HunkError::SourceOutOfBounds {
            available: from_lines.len(),
            start: from_range.start,
            len: from_range.len,
        });
    }
    let from_end = from_start + from_range.len;
    let mut new_lines = copy_lines(&to_lines, 0, to_start);
    extend_lines(&mut new_lines, &from_lines, from_start, from_end);
    extend_lines(&mut new_lines, &to_lines, to_end, to_lines.len());
    proof {
        assert(tl.subrange(0, to_start as int) =~= tl.take(to_start as int));
        assert(tl.subrange(to_end as int, tl.len() as int) =~= tl.skip(to_end as int));
    }
    let newline_at_end = to_content.len() > 0 && to_content[to_content.len() - 1] == NL;
    let new_content = join_with_newlines(&new_lines, newline_at_end);
    if bytes_eq(new_content.as_slice(), to_content) {
        Ok(None)
    } else {
        Ok(Some(new_content))
    }
}

/// A copy is refused, before any content is produced, as soon as the
/// destination range differs from what the hunk expects: when the range
/// holds as many lines as expected and the first `i` of them agree but line
/// `i` differs (without trailing whitespace), the error names that line's
/// index in the destination file.
pub proof fn lemma_copy_names_first_difference(to_content: Seq<u8>, from_content: Seq<u8>, hunk: HunkView, i: int)
    requires
        index_of_start(hunk.location.to_file.start) + hunk.location.to_file.len <= lines_of(to_content).len(),
        expected_lines(hunk.lines).len() == hunk.location.to_file.len,
        0 <= i < hunk.location.to_file.len,
        forall|j: int| 0 <= j < i ==> expected_lines(hunk.lines)[j] == trim_end(
            lines_of(to_content)[index_of_start(hunk.location.to_file.start) + j],
        ),
        expected_lines(hunk.lines)[i] != trim_end(lines_of(to_content)[index_of_start(hunk.location.to_file.start) + i]),
    ensures
        copied(to_content, from_content, hunk) == Err::<Option<Seq<u8>>, HunkErrorView>(
            HunkErrorView::Mismatch {
                index: index_of_start(hunk.location.to_file.start) + i,
                expected: expected_lines(hunk.lines)[i],
                found: Some(trim_end(lines_of(to_content)[index_of_start(hunk.location.to_file.start) + i])),
            },
        ),
{
    let ts = index_of_start(hunk.location.to_file.start);
    let te = ts + hunk.location.to_file.len;
    let actual = lines_of(to_content).subrange(ts, te).map_values(|l: Seq<u8>| trim_end(l));
    let expected = expected_lines(hunk.lines);
    assert forall|j: int| 0 <= j < i implies expected[j] == actual[j] by {}
    lemma_first_difference(expected, actual, i);
}

} // verus!
