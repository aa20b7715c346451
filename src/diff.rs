//! Unified diff hunks: a line diff of two buffers, grouped into hunks of
//! changed lines padded with context.
use vstd::prelude::*;

use core::ops::Range;

use crate::bytes::{bytes_eq, copy_bytes};
use crate::hunk::{ChangeHunk, FileRange, HunkLocation, HunkView, TAG_ADDED, TAG_CONTEXT, TAG_REMOVED};
use crate::text::{lines_view, NL};

use jj_lib::diff::{find_line_ranges, CompareBytesExactly, ContentDiff, DiffHunkKind};

verus! {

/// One region of a diff: matching or different, with the text of each side.
pub struct DiffRegion {
    pub matching: bool,
    pub left: Vec<u8>,
    pub right: Vec<u8>,
}

impl DiffRegion {
    pub open spec fn view(&self) -> (bool, Seq<u8>, Seq<u8>) {
        (self.matching, self.left@, self.right@)
    }
}

pub open spec fn regions_view(rs: Seq<DiffRegion>) -> Seq<(bool, Seq<u8>, Seq<u8>)> {
    rs.map_values(|r: DiffRegion| r.view())
}

/// The left sides of the regions, concatenated.
pub open spec fn left_text(rs: Seq<(bool, Seq<u8>, Seq<u8>)>) -> Seq<u8>
    decreases rs.len(),
{
    if rs.len() == 0 {
        seq![]
    } else {
        left_text(rs.drop_last()) + rs.last().1
    }
}

/// The right sides of the regions, concatenated.
pub open spec fn right_text(rs: Seq<(bool, Seq<u8>, Seq<u8>)>) -> Seq<u8>
    decreases rs.len(),
{
    if rs.len() == 0 {
        seq![]
    } else {
        right_text(rs.drop_last()) + rs.last().2
    }
}

/// Regions that cover both inputs in order, and whose matching regions hold
/// the same text on both sides.
pub open spec fn regions_cover(rs: Seq<(bool, Seq<u8>, Seq<u8>)>, left: Seq<u8>, right: Seq<u8>) -> bool {
    &&& left_text(rs) == left
    &&& right_text(rs) == right
    &&& forall|i: int| 0 <= i < rs.len() && (#[trigger] rs[i]).0 ==> rs[i].1 == rs[i].2
}

/// The regions of the line diff of `left` and `right`.
pub uninterp spec fn line_diff_of(left: Seq<u8>, right: Seq<u8>) -> Seq<(bool, Seq<u8>, Seq<u8>)>;

/// The regions of the word diff of `left` and `right`.
pub uninterp spec fn word_diff_of(left: Seq<u8>, right: Seq<u8>) -> Seq<(bool, Seq<u8>, Seq<u8>)>;

/// Relies on jj_lib's `ContentDiff::for_tokenizer` with `find_line_ranges`
/// and `CompareBytesExactly`, and on its `hunks()`: the hunks cover both
/// inputs in order, and a matching hunk holds equal bytes on both sides.
#[verifier::external_body]
fn line_diff(left: &[u8], right: &[u8]) -> (r: Vec<DiffRegion>)
    ensures
        regions_view(r@) == line_diff_of(left@, right@),
        regions_cover(regions_view(r@), left@, right@),
{
    let diff = ContentDiff::for_tokenizer([left, right], find_line_ranges, CompareBytesExactly);
    diff.hunks()
        .map(|h| DiffRegion {
            matching: match h.kind {
                DiffHunkKind::Matching => true,
                DiffHunkKind::Different => false,
            },
            left: h.contents[0].to_vec(),
            right: h.contents[1].to_vec(),
        })
        .collect()
}

/// Relies on jj_lib's `ContentDiff::by_word` and its `hunks()`: the hunks
/// cover both inputs in order, and a matching hunk holds equal bytes on both
/// sides.
#[verifier::external_body]
fn word_diff(left: &[u8], right: &[u8]) -> (r: Vec<DiffRegion>)
    ensures
        regions_view(r@) == word_diff_of(left@, right@),
        regions_cover(regions_view(r@), left@, right@),
{
    let diff = ContentDiff::by_word([left, right]);
    diff.hunks()
        .map(|h| DiffRegion {
            matching: match h.kind {
                DiffHunkKind::Matching => true,
                DiffHunkKind::Different => false,
            },
            left: h.contents[0].to_vec(),
            right: h.contents[1].to_vec(),
        })
        .collect()
}

// ---------------------------------------------------------------------------
// Lines that keep their terminator.

/// The lines of `b`, each with its `\n` (the last may lack one).
pub open spec fn incl_lines(b: Seq<u8>) -> Seq<Seq<u8>>
    decreases b.len(),
{
    if b.len() == 0 {
        seq![]
    } else {
        let p = incl_lines(b.drop_last());
        if p.len() == 0 || p.last().last() == NL {
            p.push(seq![b.last()])
        } else {
            p.update(p.len() - 1, p.last().push(b.last()))
        }
    }
}

proof fn lemma_incl_push(a: Seq<u8>, x: u8)
    ensures
        incl_lines(a.push(x)) == (if incl_lines(a).len() == 0 || incl_lines(a).last().last() == NL {
            incl_lines(a).push(seq![x])
        } else {
            incl_lines(a).update(incl_lines(a).len() - 1, incl_lines(a).last().push(x))
        }),
{
    assert(a.push(x).drop_last() =~= a);
}

proof fn lemma_incl_lines_shape(b: Seq<u8>)
    ensures
        incl_lines(b).len() <= b.len(),
        forall|i: int| 0 <= i < incl_lines(b).len() ==> (#[trigger] incl_lines(b)[i]).len() > 0,
        forall|i: int| 0 <= i < incl_lines(b).len() - 1 ==> (#[trigger] incl_lines(b)[i]).last() == NL,
        b.len() > 0 ==> incl_lines(b).len() > 0 && incl_lines(b).last().last() == b.last(),
    decreases b.len(),
{
    if b.len() > 0 {
        lemma_incl_lines_shape(b.drop_last());
        let p = incl_lines(b.drop_last());
        if p.len() == 0 || p.last().last() == NL {
        } else {
            assert forall|i: int| 0 <= i < incl_lines(b).len() - 1 implies (#[trigger] incl_lines(b)[i]).last() == NL by {
                assert(incl_lines(b)[i] == p[i]);
            }
        }
    }
}

/// Splits `b` after each `\n`.
fn split_inclusive(b: &[u8]) -> (r: Vec<Vec<u8>>)
    ensures
        lines_view(r@) == incl_lines(b@),
{
    let mut done: Vec<Vec<u8>> = Vec::new();
    let mut cur: Vec<u8> = Vec::new();
    let mut i: usize = 0;
    assert(b@.take(0) =~= Seq::<u8>::empty());
    while i < b.len()
        invariant
            i <= b@.len(),
            cur@.len() == 0 ==> lines_view(done@) == incl_lines(b@.take(i as int)),
            cur@.len() > 0 ==> lines_view(done@).push(cur@) == incl_lines(b@.take(i as int)),
            cur@.len() > 0 ==> cur@.last() != NL,
            forall|k: int| 0 <= k < done@.len() ==> (#[trigger] done@[k])@.len() > 0 && done@[k]@.last() == NL,
        decreases b@.len() - i,
    {
        assert(b@.take(i + 1).drop_last() =~= b@.take(i as int));
        assert(b@.take(i + 1).last() == b@[i as int]);
        proof {
            lemma_incl_lines_shape(b@.take(i as int));
        }
        let ghost before_done = lines_view(done@);
        let ghost before_cur = cur@;
        cur.push(b[i]);
        assert(cur@ =~= before_cur.push(b@[i as int]));
        let ghost c = cur@;
        if b[i] == NL {
            done.push(cur);
            cur = Vec::new();
            proof {
                assert(lines_view(done@) =~= before_done.push(c));
                if before_cur.len() == 0 {
                    assert(c =~= seq![b@[i as int]]);
                } else {
                    assert(lines_view(done@) =~= before_done.push(before_cur.push(b@[i as int])));
                    assert(incl_lines(b@.take(i + 1)) =~= before_done.push(before_cur.push(b@[i as int])));
                }
            }
        } else {
            proof {
                if before_cur.len() == 0 {
                    assert(cur@ =~= seq![b@[i as int]]);
                } else {
                    assert(lines_view(done@).push(cur@) =~= incl_lines(b@.take(i + 1)));
                }
            }
        }
        i = i + 1;
    }
    assert(b@.take(b@.len() as int) =~= b@);
    if cur.len() > 0 {
        done.push(cur);
    }
    done
}

// ---------------------------------------------------------------------------
// Lines of a hunk, split into tokens.

/// Whether a hunk line is context, removed or added.
#[derive(Clone, Copy, Debug, PartialEq, Eq, Structural)]
pub enum DiffLineType {
    Context,
    Removed,
    Added,
}

/// Whether a token of a changed line also occurs on the other side.
#[derive(Clone, Copy, Debug, PartialEq, Eq, Structural)]
pub enum DiffTokenType {
    Matching,
    Different,
}

/// The text of a line given as tokens.
pub open spec fn tokens_text(ts: Seq<(DiffTokenType, Vec<u8>)>) -> Seq<u8>
    decreases ts.len(),
{
    if ts.len() == 0 {
        seq![]
    } else {
        tokens_text(ts.drop_last()) + ts.last().1@
    }
}

pub open spec fn token_lines_text(ls: Seq<Vec<(DiffTokenType, Vec<u8>)>>) -> Seq<Seq<u8>> {
    ls.map_values(|l: Vec<(DiffTokenType, Vec<u8>)>| tokens_text(l@))
}

/// A hunk line as its type and text.
pub open spec fn tagged_lines_text(ls: Seq<(DiffLineType, Vec<(DiffTokenType, Vec<u8>)>)>) -> Seq<(DiffLineType, Seq<u8>)> {
    ls.map_values(|l: (DiffLineType, Vec<(DiffTokenType, Vec<u8>)>)| (l.0, tokens_text(l.1@)))
}

pub open spec fn tag_all(ls: Seq<Seq<u8>>, t: DiffLineType) -> Seq<(DiffLineType, Seq<u8>)> {
    ls.map_values(|l: Seq<u8>| (t, l))
}

/// A token as its tag and bytes.
pub open spec fn token_view(t: (DiffTokenType, Vec<u8>)) -> (DiffTokenType, Seq<u8>) {
    (t.0, t.1@)
}

pub open spec fn tokens_view(ts: Seq<(DiffTokenType, Vec<u8>)>) -> Seq<(DiffTokenType, Seq<u8>)> {
    ts.map_values(|t: (DiffTokenType, Vec<u8>)| token_view(t))
}

pub open spec fn token_lines_view(ls: Seq<Vec<(DiffTokenType, Vec<u8>)>>) -> Seq<Seq<(DiffTokenType, Seq<u8>)>> {
    ls.map_values(|l: Vec<(DiffTokenType, Vec<u8>)>| tokens_view(l@))
}

/// Pieces of text tagged `kind`.
pub open spec fn tag_tokens(ps: Seq<Seq<u8>>, kind: DiffTokenType) -> Seq<(DiffTokenType, Seq<u8>)> {
    ps.map_values(|p: Seq<u8>| (kind, p))
}

/// The tag of a region's tokens.
pub open spec fn region_tag(matching: bool) -> DiffTokenType {
    if matching {
        DiffTokenType::Matching
    } else {
        DiffTokenType::Different
    }
}

/// The tokens of one side of the regions: each region's text on that side
/// (a matching region's left text on both sides) split after each `\n`,
/// tagged Matching exactly when the region matches.
pub open spec fn side_tokens(rs: Seq<(bool, Seq<u8>, Seq<u8>)>, right: bool) -> Seq<(DiffTokenType, Seq<u8>)>
    decreases rs.len(),
{
    if rs.len() == 0 {
        seq![]
    } else {
        let r = rs.last();
        side_tokens(rs.drop_last(), right) + tag_tokens(
            incl_lines(if right && !r.0 { r.2 } else { r.1 }),
            region_tag(r.0),
        )
    }
}

pub open spec fn ends_nl(x: Seq<u8>) -> bool {
    x.len() > 0 && x.last() == NL
}

/// Tokens grouped into lines: a line ends after a token that ends in `\n`.
pub open spec fn group_lines(ts: Seq<(DiffTokenType, Seq<u8>)>) -> Seq<Seq<(DiffTokenType, Seq<u8>)>>
    decreases ts.len(),
{
    if ts.len() == 0 {
        seq![]
    } else {
        let g = group_lines(ts.drop_last());
        if g.len() == 0 || ends_nl(g.last().last().1) {
            g.push(seq![ts.last()])
        } else {
            g.update(g.len() - 1, g.last().push(ts.last()))
        }
    }
}

/// The line under construction, as a list of at most one line.
pub open spec fn open_line(cur: Seq<(DiffTokenType, Seq<u8>)>) -> Seq<Seq<(DiffTokenType, Seq<u8>)>> {
    if cur.len() > 0 {
        seq![cur]
    } else {
        seq![]
    }
}

proof fn lemma_group_last(ts: Seq<(DiffTokenType, Seq<u8>)>)
    ensures
        ts.len() > 0 ==> group_lines(ts).len() > 0 && group_lines(ts).last().len() > 0
            && group_lines(ts).last().last() == ts.last(),
    decreases ts.len(),
{
    if ts.len() > 0 {
        lemma_group_last(ts.drop_last());
    }
}

proof fn lemma_group_step(
    t: Seq<(DiffTokenType, Seq<u8>)>,
    done_v: Seq<Seq<(DiffTokenType, Seq<u8>)>>,
    cur_v: Seq<(DiffTokenType, Seq<u8>)>,
    tok: (DiffTokenType, Seq<u8>),
)
    requires
        group_lines(t) == done_v + open_line(cur_v),
        cur_v.len() == 0 ==> t.len() == 0 || ends_nl(t.last().1),
        cur_v.len() > 0 ==> !ends_nl(cur_v.last().1),
    ensures
        group_lines(t.push(tok)) == done_v + open_line(cur_v.push(tok)),
{
    assert(t.push(tok).drop_last() =~= t);
    lemma_group_last(t);
    let g = group_lines(t);
    if cur_v.len() == 0 {
        assert(g =~= done_v);
        assert(cur_v.push(tok) =~= seq![tok]);
        assert(open_line(cur_v.push(tok)) =~= seq![seq![tok]]);
        assert(done_v + open_line(cur_v.push(tok)) =~= g.push(seq![tok]));
    } else {
        assert(g.last() == cur_v);
        assert(done_v + open_line(cur_v.push(tok)) =~= g.update(g.len() - 1, g.last().push(tok)));
    }
}

proof fn lemma_incl_piece(b: Seq<u8>, start: int, e: int)
    requires
        0 <= start < e <= b.len(),
        start == 0 || b[start - 1] == NL,
        forall|j: int| start <= j < e - 1 ==> b[j] != NL,
    ensures
        incl_lines(b.take(e)) == incl_lines(b.take(start)).push(b.subrange(start, e)),
    decreases e - start,
{
    assert(b.take(e).drop_last() =~= b.take(e - 1));
    assert(b.take(e).last() == b[e - 1]);
    lemma_incl_push(b.take(e - 1), b[e - 1]);
    if e == start + 1 {
        lemma_incl_lines_shape(b.take(start));
        if start > 0 {
            assert(b.take(start).last() == b[start - 1]);
        }
        assert(seq![b[e - 1]] =~= b.subrange(start, e));
    } else {
        lemma_incl_piece(b, start, e - 1);
        let p = incl_lines(b.take(start));
        assert(incl_lines(b.take(e - 1)).last() == b.subrange(start, e - 1));
        assert(b.subrange(start, e - 1).last() == b[e - 2]);
        assert(b.subrange(start, e - 1).push(b[e - 1]) =~= b.subrange(start, e));
        assert(incl_lines(b.take(e)) =~= p.push(b.subrange(start, e)));
    }
}

/// Appends `b[start..end]` as one token.
fn push_token(line: &mut Vec<(DiffTokenType, Vec<u8>)>, kind: DiffTokenType, b: &[u8], start: usize, end: usize)
    requires
        start <= end <= b@.len(),
    ensures
        tokens_text(final(line)@) == tokens_text(old(line)@) + b@.subrange(start as int, end as int),
        tokens_view(final(line)@) == tokens_view(old(line)@).push((kind, b@.subrange(start as int, end as int))),
        final(line)@.len() == old(line)@.len() + 1,
        final(line)@.drop_last() == old(line)@,
        final(line)@.last().1@ == b@.subrange(start as int, end as int),
{
    let tok = crate::bytes::copy_range(b, start, end);
    let ghost before = line@;
    line.push((kind, tok));
    assert(line@.drop_last() =~= before);
    assert(tokens_view(line@) =~= tokens_view(before).push((kind, b@.subrange(start as int, end as int))));
}

/// Splits `b` after each `\n` into tokens of type `kind`, continuing the line
/// under construction `cur` and completing lines into `done`.
#[verifier::rlimit(100)]
fn push_tokens(
    done: &mut Vec<Vec<(DiffTokenType, Vec<u8>)>>,
    cur: &mut Vec<(DiffTokenType, Vec<u8>)>,
    kind: DiffTokenType,
    b: &[u8],
    Ghost(t_old): Ghost<Seq<(DiffTokenType, Seq<u8>)>>,
)
    requires
        group_lines(t_old) == token_lines_view(old(done)@) + open_line(tokens_view(old(cur)@)),
        old(cur)@.len() == 0 ==> t_old.len() == 0 || ends_nl(t_old.last().1),
        old(cur)@.len() > 0 ==> !ends_nl(old(cur)@.last().1@),
        forall|k: int| 0 <= k < old(cur)@.len() ==> (#[trigger] old(cur)@[k]).1@.len() > 0,
        forall|k: int| 0 <= k < t_old.len() ==> (#[trigger] t_old[k]).1.len() > 0,
        tokens_text(old(cur)@).len() == 0 ==> token_lines_text(old(done)@) == incl_lines(tokens_text_all(old(done)@)),
        tokens_text(old(cur)@).len() > 0 ==> token_lines_text(old(done)@).push(tokens_text(old(cur)@)) == incl_lines(tokens_text_all(old(done)@) + tokens_text(old(cur)@)),
        tokens_text(old(cur)@).len() > 0 ==> tokens_text(old(cur)@).last() != NL,
        tokens_text_all(old(done)@).len() > 0 ==> tokens_text_all(old(done)@).last() == NL,
    ensures
        tokens_text_all(final(done)@).len() > 0 ==> tokens_text_all(final(done)@).last() == NL,
        tokens_text(final(cur)@).len() == 0 ==> token_lines_text(final(done)@) == incl_lines(tokens_text_all(final(done)@)),
        tokens_text(final(cur)@).len() > 0 ==> token_lines_text(final(done)@).push(tokens_text(final(cur)@)) == incl_lines(tokens_text_all(final(done)@) + tokens_text(final(cur)@)),
        tokens_text(final(cur)@).len() > 0 ==> tokens_text(final(cur)@).last() != NL,
        tokens_text_all(final(done)@) + tokens_text(final(cur)@) == tokens_text_all(old(done)@) + tokens_text(old(cur)@) + b@,
        ({
            let t = t_old + tag_tokens(incl_lines(b@), kind);
            &&& group_lines(t) == token_lines_view(final(done)@) + open_line(tokens_view(final(cur)@))
            &&& final(cur)@.len() == 0 ==> t.len() == 0 || ends_nl(t.last().1)
            &&& final(cur)@.len() > 0 ==> !ends_nl(final(cur)@.last().1@)
            &&& forall|k: int| 0 <= k < final(cur)@.len() ==> (#[trigger] final(cur)@[k]).1@.len() > 0
            &&& forall|k: int| 0 <= k < t.len() ==> (#[trigger] t[k]).1.len() > 0
        }),
{
    let mut start: usize = 0;
    let mut i: usize = 0;
    let ghost base = tokens_text_all(old(done)@) + tokens_text(old(cur)@);
    assert(base + b@.take(0) =~= base);
    assert(b@.take(0) =~= Seq::<u8>::empty());
    assert(t_old + tag_tokens(incl_lines(b@.take(0)), kind) =~= t_old);
    while i < b.len()
        invariant
            start <= i <= b@.len(),
            start == 0 || b@[start - 1] == NL,
            forall|j: int| start <= j < i ==> b@[j] != NL,
            ({
                let t = t_old + tag_tokens(incl_lines(b@.take(start as int)), kind);
                &&& group_lines(t) == token_lines_view(done@) + open_line(tokens_view(cur@))
                &&& cur@.len() == 0 ==> t.len() == 0 || ends_nl(t.last().1)
                &&& cur@.len() > 0 ==> !ends_nl(cur@.last().1@)
                &&& forall|k: int| 0 <= k < cur@.len() ==> (#[trigger] cur@[k]).1@.len() > 0
                &&& forall|k: int| 0 <= k < t.len() ==> (#[trigger] t[k]).1.len() > 0
            }),
            base == tokens_text_all(old(done)@) + tokens_text(old(cur)@),
            tokens_text_all(done@).len() > 0 ==> tokens_text_all(done@).last() == NL,
            tokens_text_all(done@) + tokens_text(cur@) + b@.subrange(start as int, i as int) == base + b@.take(i as int),
            ({
                let t = tokens_text(cur@) + b@.subrange(start as int, i as int);
                &&& t.len() == 0 ==> token_lines_text(done@) == incl_lines(tokens_text_all(done@))
                &&& t.len() > 0 ==> token_lines_text(done@).push(t) == incl_lines(tokens_text_all(done@) + t)
                &&& t.len() > 0 ==> t.last() != NL
            }),
        decreases b@.len() - i,
    {
        let ghost t0 = tokens_text(cur@) + b@.subrange(start as int, i as int);
        let ghost all0 = tokens_text_all(done@) + t0;
        assert(all0 =~= tokens_text_all(done@) + tokens_text(cur@) + b@.subrange(start as int, i as int));
        assert(b@.take(i + 1) =~= b@.take(i as int).push(b@[i as int]));
        assert(base + b@.take(i + 1) =~= all0.push(b@[i as int]));
        proof {
            if t0.len() == 0 {
                assert(all0 =~= tokens_text_all(done@));
            }
        }
        proof {
            lemma_incl_lines_shape(all0);
            lemma_incl_push(all0, b@[i as int]);
            if t0.len() > 0 {
                assert(all0.last() == t0.last());
            }
        }
        let ghost t1 = t0.push(b@[i as int]);
        proof {
            if t0.len() == 0 {
                assert(t1 =~= seq![b@[i as int]]);
                assert(incl_lines(all0.push(b@[i as int])) =~= incl_lines(all0).push(t1));
            } else {
                assert(incl_lines(all0.push(b@[i as int])) =~= token_lines_text(done@).push(t1));
            }
        }
        if b[i] == NL {
            let ghost tt = t_old + tag_tokens(incl_lines(b@.take(start as int)), kind);
            let ghost cur_before = cur@;
            let ghost tok = (kind, b@.subrange(start as int, i + 1));
            proof {
                lemma_group_step(tt, token_lines_view(done@), tokens_view(cur@), tok);
                lemma_incl_piece(b@, start as int, i + 1);
                assert(tt.push(tok) =~= t_old + tag_tokens(incl_lines(b@.take(i + 1)), kind));
                assert(tokens_view(cur@).len() == cur@.len());
            }
            push_token(cur, kind, b, start, i + 1);
            proof {
                assert(tokens_view(cur@).len() > 0);
            }
            let mut line: Vec<(DiffTokenType, Vec<u8>)> = Vec::new();
            core::mem::swap(&mut line, cur);
            let ghost before = done@;
            done.push(line);
            proof {
                assert(token_lines_view(done@) =~= token_lines_view(before).push(tokens_view(line@)));
                assert(token_lines_view(done@) + open_line(tokens_view(cur@)) =~= token_lines_view(before) + open_line(tokens_view(line@)));
                assert(tok.1.last() == NL);
                assert forall|k: int| 0 <= k < tt.push(tok).len() implies (#[trigger] tt.push(tok)[k]).1.len() > 0 by {
                    if k < tt.len() {
                        assert(tt.push(tok)[k] == tt[k]);
                    }
                }
                assert(b@.take(i + 1)[i as int] == NL);
                assert(tokens_text(line@) =~= t1);
                assert(token_lines_text(done@) =~= token_lines_text(before).push(t1));
                lemma_tokens_text_all_push(before, line);
                assert(tokens_text(cur@) =~= Seq::<u8>::empty());
                assert(b@.subrange(i + 1, i + 1) =~= Seq::<u8>::empty());
                assert(tokens_text_all(done@) + tokens_text(cur@) + b@.subrange(i + 1, i + 1) =~= all0.push(b@[i as int]));
            }
            start = i + 1;
        } else {
            proof {
                assert(b@[i as int] != NL);
                assert(tokens_text(cur@) + b@.subrange(start as int, i + 1) =~= t1);
                assert(tokens_text_all(done@) + t1 =~= all0.push(b@[i as int]));
            }
        }
        i = i + 1;
    }
    assert(b@.take(b@.len() as int) =~= b@);
    let ghost tt = t_old + tag_tokens(incl_lines(b@.take(start as int)), kind);
    if start < b.len() {
        let ghost tok = (kind, b@.subrange(start as int, b@.len() as int));
        proof {
            lemma_group_step(tt, token_lines_view(done@), tokens_view(cur@), tok);
            lemma_incl_piece(b@, start as int, b@.len() as int);
            assert(tt.push(tok) =~= t_old + tag_tokens(incl_lines(b@), kind));
            assert(tokens_view(cur@).len() == cur@.len());
        }
        push_token(cur, kind, b, start, b.len());
        proof {
            assert(b@.subrange(start as int, b@.len() as int).last() == b@[b@.len() - 1]);
            assert forall|k: int| 0 <= k < tt.push(tok).len() implies (#[trigger] tt.push(tok)[k]).1.len() > 0 by {
                if k < tt.len() {
                    assert(tt.push(tok)[k] == tt[k]);
                }
            }
            assert forall|k: int| 0 <= k < cur@.len() implies (#[trigger] cur@[k]).1@.len() > 0 by {
                if k < cur@.len() - 1 {
                    assert(cur@[k] == cur@.drop_last()[k]);
                }
            }
        }
    } else {
        assert(b@.subrange(start as int, b@.len() as int) =~= Seq::<u8>::empty());
    }
}

/// The texts of complete lines, concatenated.
pub open spec fn tokens_text_all(ls: Seq<Vec<(DiffTokenType, Vec<u8>)>>) -> Seq<u8>
    decreases ls.len(),
{
    if ls.len() == 0 {
        seq![]
    } else {
        tokens_text_all(ls.drop_last()) + tokens_text(ls.last()@)
    }
}

proof fn lemma_tokens_text_single(t: (DiffTokenType, Vec<u8>))
    ensures
        tokens_text(seq![t]) == t.1@,
{
    assert(seq![t].drop_last() =~= Seq::<(DiffTokenType, Vec<u8>)>::empty());
    assert(tokens_text(Seq::<(DiffTokenType, Vec<u8>)>::empty()) == Seq::<u8>::empty());
    assert(seq![t].last() == t);
    assert(Seq::<u8>::empty() + t.1@ =~= t.1@);
}

proof fn lemma_tokens_text_all_push(ls: Seq<Vec<(DiffTokenType, Vec<u8>)>>, l: Vec<(DiffTokenType, Vec<u8>)>)
    ensures
        tokens_text_all(ls.push(l)) == tokens_text_all(ls) + tokens_text(l@),
{
    assert(ls.push(l).drop_last() =~= ls);
}


proof fn lemma_tokens_text_empty(ts: Seq<(DiffTokenType, Vec<u8>)>)
    ensures
        tokens_text(ts).len() == 0 <==> forall|k: int| 0 <= k < ts.len() ==> (#[trigger] ts[k]).1@.len() == 0,
    decreases ts.len(),
{
    if ts.len() > 0 {
        lemma_tokens_text_empty(ts.drop_last());
        if tokens_text(ts).len() == 0 {
            assert forall|k: int| 0 <= k < ts.len() implies (#[trigger] ts[k]).1@.len() == 0 by {
                if k < ts.len() - 1 {
                    assert(ts.drop_last()[k] == ts[k]);
                }
            }
        } else if forall|k: int| 0 <= k < ts.len() ==> (#[trigger] ts[k]).1@.len() == 0 {
            assert forall|k: int| 0 <= k < ts.drop_last().len() implies (#[trigger] ts.drop_last()[k]).1@.len() == 0 by {
                assert(ts.drop_last()[k] == ts[k]);
            }
            assert(ts[ts.len() - 1].1@.len() == 0);
        }
    }
}

/// Whether a line under construction holds no text.
fn has_no_text(ts: &Vec<(DiffTokenType, Vec<u8>)>) -> (r: bool)
    ensures
        r == (tokens_text(ts@).len() == 0),
{
    proof {
        lemma_tokens_text_empty(ts@);
    }
    let mut k: usize = 0;
    while k < ts.len()
        invariant
            k <= ts@.len(),
            forall|j: int| 0 <= j < k ==> (#[trigger] ts@[j]).1@.len() == 0,
        decreases ts@.len() - k,
    {
        if ts[k].1.len() > 0 {
            proof {
                lemma_tokens_text_empty(ts@);
            }
            return false;
        }
        k = k + 1;
    }
    true
}

/// Splits the regions of a word diff into the lines of each side, each line
/// as tokens tagged matching or different.
#[verifier::spinoff_prover]
#[verifier::rlimit(100)]
fn unzip_diff_hunks_to_lines(regions: &Vec<DiffRegion>) -> (r: (Vec<Vec<(DiffTokenType, Vec<u8>)>>, Vec<Vec<(DiffTokenType, Vec<u8>)>>))
    requires
        forall|i: int| 0 <= i < regions@.len() && (#[trigger] regions_view(regions@)[i]).0 ==> regions_view(regions@)[i].1 == regions_view(regions@)[i].2,
    ensures
        token_lines_text(r.0@) == incl_lines(left_text(regions_view(regions@))),
        token_lines_text(r.1@) == incl_lines(right_text(regions_view(regions@))),
        token_lines_view(r.0@) == group_lines(side_tokens(regions_view(regions@), false)),
        token_lines_view(r.1@) == group_lines(side_tokens(regions_view(regions@), true)),
{
    let ghost rv = regions_view(regions@);
    let mut left_lines: Vec<Vec<(DiffTokenType, Vec<u8>)>> = Vec::new();
    let mut right_lines: Vec<Vec<(DiffTokenType, Vec<u8>)>> = Vec::new();
    let mut left_tokens: Vec<(DiffTokenType, Vec<u8>)> = Vec::new();
    let mut right_tokens: Vec<(DiffTokenType, Vec<u8>)> = Vec::new();
    let mut i: usize = 0;
    assert(rv.take(0) =~= Seq::<(bool, Seq<u8>, Seq<u8>)>::empty());
    assert(token_lines_text(left_lines@) =~= incl_lines(tokens_text_all(left_lines@)));
    assert(token_lines_text(right_lines@) =~= incl_lines(tokens_text_all(right_lines@)));
    assert(token_lines_view(left_lines@) + open_line(tokens_view(left_tokens@)) =~= Seq::<Seq<(DiffTokenType, Seq<u8>)>>::empty());
    assert(token_lines_view(right_lines@) + open_line(tokens_view(right_tokens@)) =~= Seq::<Seq<(DiffTokenType, Seq<u8>)>>::empty());
    while i < regions.len()
        invariant
            rv == regions_view(regions@),
            forall|j: int| 0 <= j < regions@.len() && (#[trigger] rv[j]).0 ==> rv[j].1 == rv[j].2,
            i <= regions@.len(),
            tokens_text(left_tokens@).len() == 0 ==> token_lines_text(left_lines@) == incl_lines(tokens_text_all(left_lines@)),
            tokens_text(left_tokens@).len() > 0 ==> token_lines_text(left_lines@).push(tokens_text(left_tokens@)) == incl_lines(tokens_text_all(left_lines@) + tokens_text(left_tokens@)),
            tokens_text(left_tokens@).len() > 0 ==> tokens_text(left_tokens@).last() != NL,
            tokens_text_all(left_lines@).len() > 0 ==> tokens_text_all(left_lines@).last() == NL,
            tokens_text_all(left_lines@) + tokens_text(left_tokens@) == left_text(rv.take(i as int)),
            tokens_text(right_tokens@).len() == 0 ==> token_lines_text(right_lines@) == incl_lines(tokens_text_all(right_lines@)),
            tokens_text(right_tokens@).len() > 0 ==> token_lines_text(right_lines@).push(tokens_text(right_tokens@)) == incl_lines(tokens_text_all(right_lines@) + tokens_text(right_tokens@)),
            tokens_text(right_tokens@).len() > 0 ==> tokens_text(right_tokens@).last() != NL,
            tokens_text_all(right_lines@).len() > 0 ==> tokens_text_all(right_lines@).last() == NL,
            tokens_text_all(right_lines@) + tokens_text(right_tokens@) == right_text(rv.take(i as int)),
            ({
                let t = side_tokens(rv.take(i as int), false);
                &&& group_lines(t) == token_lines_view(left_lines@) + open_line(tokens_view(left_tokens@))
                &&& left_tokens@.len() == 0 ==> t.len() == 0 || ends_nl(t.last().1)
                &&& left_tokens@.len() > 0 ==> !ends_nl(left_tokens@.last().1@)
                &&& forall|k: int| 0 <= k < left_tokens@.len() ==> (#[trigger] left_tokens@[k]).1@.len() > 0
                &&& forall|k: int| 0 <= k < t.len() ==> (#[trigger] t[k]).1.len() > 0
            }),
            ({
                let t = side_tokens(rv.take(i as int), true);
                &&& group_lines(t) == token_lines_view(right_lines@) + open_line(tokens_view(right_tokens@))
                &&& right_tokens@.len() == 0 ==> t.len() == 0 || ends_nl(t.last().1)
                &&& right_tokens@.len() > 0 ==> !ends_nl(right_tokens@.last().1@)
                &&& forall|k: int| 0 <= k < right_tokens@.len() ==> (#[trigger] right_tokens@[k]).1@.len() > 0
                &&& forall|k: int| 0 <= k < t.len() ==> (#[trigger] t[k]).1.len() > 0
            }),
        decreases regions@.len() - i,
    {
        assert(rv.take(i + 1).drop_last() =~= rv.take(i as int));
        assert(rv.take(i + 1).last() == regions@[i as int].view());
        let region = &regions[i];
        assert(rv[i as int] == region.view());
        let ghost tl = side_tokens(rv.take(i as int), false);
        let ghost tr = side_tokens(rv.take(i as int), true);
        if region.matching {
            push_tokens(&mut left_lines, &mut left_tokens, DiffTokenType::Matching, region.left.as_slice(), Ghost(tl));
            push_tokens(&mut right_lines, &mut right_tokens, DiffTokenType::Matching, region.left.as_slice(), Ghost(tr));
        } else {
            push_tokens(&mut left_lines, &mut left_tokens, DiffTokenType::Different, region.left.as_slice(), Ghost(tl));
            push_tokens(&mut right_lines, &mut right_tokens, DiffTokenType::Different, region.right.as_slice(), Ghost(tr));
        }
        i = i + 1;
    }
    assert(rv.take(regions@.len() as int) =~= rv);
    proof {
        lemma_tokens_text_empty(left_tokens@);
        lemma_tokens_text_empty(right_tokens@);
        if left_tokens@.len() > 0 {
            assert(left_tokens@[0].1@.len() > 0);
        }
        if right_tokens@.len() > 0 {
            assert(right_tokens@[0].1@.len() > 0);
        }
    }
    if !has_no_text(&left_tokens) {
        let ghost before = left_lines@;
        left_lines.push(left_tokens);
        proof {
            assert(token_lines_view(left_lines@) =~= token_lines_view(before) + open_line(tokens_view(left_tokens@)));
            lemma_tokens_text_all_push(before, left_tokens);
            assert(token_lines_text(left_lines@) =~= token_lines_text(before).push(tokens_text(left_tokens@)));
        }
    } else {
        assert(tokens_text_all(left_lines@) + tokens_text(left_tokens@) =~= tokens_text_all(left_lines@));
        assert(token_lines_view(left_lines@) + open_line(tokens_view(left_tokens@)) =~= token_lines_view(left_lines@));
    }
    if !has_no_text(&right_tokens) {
        let ghost before = right_lines@;
        right_lines.push(right_tokens);
        proof {
            assert(token_lines_view(right_lines@) =~= token_lines_view(before) + open_line(tokens_view(right_tokens@)));
            lemma_tokens_text_all_push(before, right_tokens);
            assert(token_lines_text(right_lines@) =~= token_lines_text(before).push(tokens_text(right_tokens@)));
        }
    } else {
        assert(tokens_text_all(right_lines@) + tokens_text(right_tokens@) =~= tokens_text_all(right_lines@));
        assert(token_lines_view(right_lines@) + open_line(tokens_view(right_tokens@)) =~= token_lines_view(right_lines@));
    }
    (left_lines, right_lines)
}

// ---------------------------------------------------------------------------
// Unified hunks.

/// Options of the unified diff: the number of context lines around changes.
#[derive(Clone, Copy, Debug, PartialEq, Eq, Structural)]
pub struct UnifiedDiffOptions {
    pub context: usize,
}

/// A hunk under construction: its half-open, 1-based line ranges on each
/// side and its lines.
pub struct UnifiedDiffHunk {
    pub left_line_range: Range<usize>,
    pub right_line_range: Range<usize>,
    pub lines: Vec<(DiffLineType, Vec<(DiffTokenType, Vec<u8>)>)>,
}

/// Mathematical value of a unified hunk.
pub struct UnifiedHunkView {
    pub left_start: int,
    pub left_end: int,
    pub right_start: int,
    pub right_end: int,
    pub lines: Seq<(DiffLineType, Seq<u8>)>,
    pub tokens: Seq<(DiffLineType, Seq<(DiffTokenType, Seq<u8>)>)>,
}

/// Each line of a hunk as its type and its tokens.
pub open spec fn hunk_tokens_view(
    ls: Seq<(DiffLineType, Vec<(DiffTokenType, Vec<u8>)>)>,
) -> Seq<(DiffLineType, Seq<(DiffTokenType, Seq<u8>)>)> {
    ls.map_values(|l: (DiffLineType, Vec<(DiffTokenType, Vec<u8>)>)| (l.0, tokens_view(l.1@)))
}

/// Unchanged lines, each a context line of one matching token.
pub open spec fn context_tokens(ls: Seq<Seq<u8>>) -> Seq<(DiffLineType, Seq<(DiffTokenType, Seq<u8>)>)> {
    ls.map_values(|l: Seq<u8>| (DiffLineType::Context, seq![(DiffTokenType::Matching, l)]))
}

/// Lines of tokens, each given the type `t`.
pub open spec fn tag_token_lines(
    ls: Seq<Seq<(DiffTokenType, Seq<u8>)>>,
    t: DiffLineType,
) -> Seq<(DiffLineType, Seq<(DiffTokenType, Seq<u8>)>)> {
    ls.map_values(|l: Seq<(DiffTokenType, Seq<u8>)>| (t, l))
}

impl UnifiedDiffHunk {
    pub open spec fn view(&self) -> UnifiedHunkView {
        UnifiedHunkView {
            left_start: self.left_line_range.start as int,
            left_end: self.left_line_range.end as int,
            right_start: self.right_line_range.start as int,
            right_end: self.right_line_range.end as int,
            lines: tagged_lines_text(self.lines@),
            tokens: hunk_tokens_view(self.lines@),
        }
    }

    /// Appends unchanged lines, which advance both ranges.
    pub fn extend_context_lines(&mut self, lines: Vec<Vec<u8>>)
        requires
            old(self).left_line_range.end + lines@.len() <= usize::MAX,
            old(self).right_line_range.end + lines@.len() <= usize::MAX,
        ensures
            final(self).view() == (UnifiedHunkView {
                left_end: old(self).view().left_end + lines@.len(),
                right_end: old(self).view().right_end + lines@.len(),
                lines: old(self).view().lines + tag_all(lines_view(lines@), DiffLineType::Context),
                tokens: old(self).view().tokens + context_tokens(lines_view(lines@)),
                ..old(self).view()
            }),
    {
        let old_len = self.lines.len();
        let ghost before = self.lines@;
        let mut i: usize = 0;
        while i < lines.len()
            invariant
                i <= lines@.len(),
                old_len == before.len(),
                self.left_line_range == old(self).left_line_range,
                self.right_line_range == old(self).right_line_range,
                before == old(self).lines@,
                tagged_lines_text(self.lines@) == tagged_lines_text(before) + tag_all(lines_view(lines@).take(i as int), DiffLineType::Context),
                hunk_tokens_view(self.lines@) == hunk_tokens_view(before) + context_tokens(lines_view(lines@).take(i as int)),
                self.lines@.len() == old_len + i,
            decreases lines@.len() - i,
        {
            let line = copy_bytes(lines[i].as_slice());
            let ghost prev = self.lines@;
            let mut tokens: Vec<(DiffTokenType, Vec<u8>)> = Vec::new();
            tokens.push((DiffTokenType::Matching, line));
            proof {
                assert(tokens@ =~= seq![(DiffTokenType::Matching, line)]);
                lemma_tokens_text_single((DiffTokenType::Matching, line));
            }
            self.lines.push((DiffLineType::Context, tokens));
            assert(tagged_lines_text(self.lines@) =~= tagged_lines_text(prev).push((DiffLineType::Context, line@)));
            assert(lines_view(lines@).take(i + 1) =~= lines_view(lines@).take(i as int).push(lines@[i as int]@));
            assert(tokens_view(tokens@) =~= seq![(DiffTokenType::Matching, line@)]);
            assert(hunk_tokens_view(self.lines@) =~= hunk_tokens_view(prev).push((DiffLineType::Context, seq![(DiffTokenType::Matching, line@)])));
            i = i + 1;
            assert(tagged_lines_text(self.lines@) =~= tagged_lines_text(before) + tag_all(lines_view(lines@).take(i as int), DiffLineType::Context));
            assert(hunk_tokens_view(self.lines@) =~= hunk_tokens_view(before) + context_tokens(lines_view(lines@).take(i as int)));
        }
        assert(lines_view(lines@).take(lines@.len() as int) =~= lines_view(lines@));
        let added = self.lines.len() - old_len;
        self.left_line_range.end = self.left_line_range.end + added;
        self.right_line_range.end = self.right_line_range.end + added;
    }

    /// Appends removed lines, which advance the left range.
    pub fn extend_removed_lines(&mut self, lines: Vec<Vec<(DiffTokenType, Vec<u8>)>>)
        requires
            old(self).left_line_range.end + lines@.len() <= usize::MAX,
        ensures
            final(self).view() == (UnifiedHunkView {
                left_end: old(self).view().left_end + lines@.len(),
                lines: old(self).view().lines + tag_all(token_lines_text(lines@), DiffLineType::Removed),
                tokens: old(self).view().tokens + tag_token_lines(token_lines_view(lines@), DiffLineType::Removed),
                ..old(self).view()
            }),
    {
        let old_len = self.lines.len();
        self.append_tagged(lines, DiffLineType::Removed);
        let added = self.lines.len() - old_len;
        self.left_line_range.end = self.left_line_range.end + added;
    }

    /// Appends added lines, which advance the right range.
    pub fn extend_added_lines(&mut self, lines: Vec<Vec<(DiffTokenType, Vec<u8>)>>)
        requires
            old(self).right_line_range.end + lines@.len() <= usize::MAX,
        ensures
            final(self).view() == (UnifiedHunkView {
                right_end: old(self).view().right_end + lines@.len(),
                lines: old(self).view().lines + tag_all(token_lines_text(lines@), DiffLineType::Added),
                tokens: old(self).view().tokens + tag_token_lines(token_lines_view(lines@), DiffLineType::Added),
                ..old(self).view()
            }),
    {
        let old_len = self.lines.len();
        self.append_tagged(lines, DiffLineType::Added);
        let added = self.lines.len() - old_len;
        self.right_line_range.end = self.right_line_range.end + added;
    }

    fn append_tagged(&mut self, lines: Vec<Vec<(DiffTokenType, Vec<u8>)>>, kind: DiffLineType)
        ensures
            final(self).left_line_range == old(self).left_line_range,
            final(self).right_line_range == old(self).right_line_range,
            final(self).lines@.len() == old(self).lines@.len() + lines@.len(),
            tagged_lines_text(final(self).lines@) == tagged_lines_text(old(self).lines@) + tag_all(token_lines_text(lines@), kind),
            hunk_tokens_view(final(self).lines@) == hunk_tokens_view(old(self).lines@) + tag_token_lines(token_lines_view(lines@), kind),
    {
        let mut lines = lines;
        let ghost all = lines@;
        let ghost before = self.lines@;
        let count = lines.len();
        let mut i: usize = 0;
        while i < count
            invariant
                i <= all.len(),
                self.left_line_range == old(self).left_line_range,
                self.right_line_range == old(self).right_line_range,
                before == old(self).lines@,
                lines@.len() == all.len(),
                count == all.len(),
                forall|j: int| i <= j < all.len() ==> lines@[j] == all[j],
                self.lines@.len() == before.len() + i,
                tagged_lines_text(self.lines@) == tagged_lines_text(before) + tag_all(token_lines_text(all).take(i as int), kind),
                hunk_tokens_view(self.lines@) == hunk_tokens_view(before) + tag_token_lines(token_lines_view(all).take(i as int), kind),
            decreases all.len() - i,
        {
            let mut line: Vec<(DiffTokenType, Vec<u8>)> = Vec::new();
            core::mem::swap(&mut line, &mut lines[i]);
            assert(line == all[i as int]);
            let ghost prev = self.lines@;
            self.lines.push((kind, line));
            assert(tagged_lines_text(self.lines@) =~= tagged_lines_text(prev).push((kind, tokens_text(line@))));
            assert(token_lines_text(all).take(i + 1) =~= token_lines_text(all).take(i as int).push(tokens_text(all[i as int]@)));
            assert(hunk_tokens_view(self.lines@) =~= hunk_tokens_view(prev).push((kind, tokens_view(line@))));
            assert(token_lines_view(all).take(i + 1) =~= token_lines_view(all).take(i as int).push(tokens_view(all[i as int]@)));
            i = i + 1;
            assert(tagged_lines_text(self.lines@) =~= tagged_lines_text(before) + tag_all(token_lines_text(all).take(i as int), kind));
            assert(hunk_tokens_view(self.lines@) =~= hunk_tokens_view(before) + tag_token_lines(token_lines_view(all).take(i as int), kind));
        }
        assert(token_lines_text(all).take(all.len() as int) =~= token_lines_text(all));
        assert(token_lines_view(all).take(all.len() as int) =~= token_lines_view(all));
    }
}

pub open spec fn ext_context(h: UnifiedHunkView, ls: Seq<Seq<u8>>) -> UnifiedHunkView {
    UnifiedHunkView {
        left_end: h.left_end + ls.len(),
        right_end: h.right_end + ls.len(),
        lines: h.lines + tag_all(ls, DiffLineType::Context),
        tokens: h.tokens + context_tokens(ls),
        ..h
    }
}

pub open spec fn ext_changed(h: UnifiedHunkView, removed: Seq<Seq<u8>>, added: Seq<Seq<u8>>) -> UnifiedHunkView {
    UnifiedHunkView {
        left_end: h.left_end + removed.len(),
        right_end: h.right_end + added.len(),
        lines: h.lines + tag_all(removed, DiffLineType::Removed) + tag_all(added, DiffLineType::Added),
        ..h
    }
}

/// The tokens of a changed region's lines: its removed lines, then its added
/// lines, split by the word diff of the region's two sides.
pub open spec fn changed_tokens(l: Seq<u8>, r: Seq<u8>) -> Seq<(DiffLineType, Seq<(DiffTokenType, Seq<u8>)>)> {
    tag_token_lines(group_lines(side_tokens(word_diff_of(l, r), false)), DiffLineType::Removed)
        + tag_token_lines(group_lines(side_tokens(word_diff_of(l, r), true)), DiffLineType::Added)
}

/// `h` with the tokens of more lines.
pub open spec fn with_tokens(h: UnifiedHunkView, t: Seq<(DiffLineType, Seq<(DiffTokenType, Seq<u8>)>)>) -> UnifiedHunkView {
    UnifiedHunkView { tokens: h.tokens + t, ..h }
}

/// Finished hunks and the hunk under construction.
pub struct UnifiedState {
    pub hunks: Seq<UnifiedHunkView>,
    pub cur: UnifiedHunkView,
}

pub open spec fn min_int(a: int, b: int) -> int {
    if a <= b {
        a
    } else {
        b
    }
}

/// A matching region: up to `ctx` of its lines close the hunk under
/// construction, up to `ctx` of its last lines open the next one (when a
/// region follows), and the lines between them are skipped, which starts a
/// new hunk.
pub open spec fn matching_step(st: UnifiedState, text: Seq<u8>, has_next: bool, ctx: int) -> UnifiedState {
    let lines = incl_lines(text);
    let front = if st.cur.lines.len() > 0 { min_int(ctx, lines.len() as int) } else { 0 };
    let cur1 = ext_context(st.cur, lines.take(front));
    let rest = lines.skip(front);
    let nb = if has_next { min_int(ctx, rest.len() as int) } else { 0 };
    let skip = rest.len() - nb;
    let hunks2 = if skip > 0 && cur1.lines.len() > 0 { st.hunks.push(cur1) } else { st.hunks };
    let cur2 = if skip > 0 {
        UnifiedHunkView {
            left_start: cur1.left_end + skip,
            left_end: cur1.left_end + skip,
            right_start: cur1.right_end + skip,
            right_end: cur1.right_end + skip,
            lines: seq![],
            tokens: seq![],
        }
    } else {
        cur1
    };
    UnifiedState { hunks: hunks2, cur: ext_context(cur2, rest.skip(skip)) }
}

pub open spec fn unified_step(st: UnifiedState, r: (bool, Seq<u8>, Seq<u8>), has_next: bool, ctx: int) -> UnifiedState {
    if r.0 {
        matching_step(st, r.2, has_next, ctx)
    } else {
        UnifiedState {
            hunks: st.hunks,
            cur: with_tokens(ext_changed(st.cur, incl_lines(r.1), incl_lines(r.2)), changed_tokens(r.1, r.2)),
        }
    }
}

pub open spec fn unified_start() -> UnifiedHunkView {
    UnifiedHunkView { left_start: 1, left_end: 1, right_start: 1, right_end: 1, lines: seq![], tokens: seq![] }
}

/// The state after the first `k` regions of `rs`.
pub open spec fn unified_fold(rs: Seq<(bool, Seq<u8>, Seq<u8>)>, ctx: int, k: int) -> UnifiedState
    decreases k,
{
    if k <= 0 {
        UnifiedState { hunks: seq![], cur: unified_start() }
    } else {
        unified_step(unified_fold(rs, ctx, k - 1), rs[k - 1], k < rs.len(), ctx)
    }
}

/// The unified hunks of a sequence of diff regions.
pub open spec fn unified_model(rs: Seq<(bool, Seq<u8>, Seq<u8>)>, ctx: int) -> Seq<UnifiedHunkView> {
    let st = unified_fold(rs, ctx, rs.len() as int);
    if st.cur.lines.len() > 0 {
        st.hunks.push(st.cur)
    } else {
        st.hunks
    }
}

/// Each range starts no later than it ends.
pub open spec fn ranges_ordered(h: UnifiedHunkView) -> bool {
    h.left_start <= h.left_end && h.right_start <= h.right_end
}

pub open spec fn hunks_view(hs: Seq<UnifiedDiffHunk>) -> Seq<UnifiedHunkView> {
    hs.map_values(|h: UnifiedDiffHunk| h.view())
}

proof fn lemma_left_text_take(rs: Seq<(bool, Seq<u8>, Seq<u8>)>, k: int)
    requires
        0 <= k < rs.len(),
    ensures
        left_text(rs.take(k + 1)) == left_text(rs.take(k)) + rs[k].1,
        right_text(rs.take(k + 1)) == right_text(rs.take(k)) + rs[k].2,
{
    assert(rs.take(k + 1).drop_last() =~= rs.take(k));
}

proof fn lemma_text_take_len(rs: Seq<(bool, Seq<u8>, Seq<u8>)>, k: int)
    requires
        0 <= k <= rs.len(),
    ensures
        left_text(rs.take(k)).len() <= left_text(rs).len(),
        right_text(rs.take(k)).len() <= right_text(rs).len(),
    decreases rs.len() - k,
{
    if k < rs.len() {
        lemma_left_text_take(rs, k);
        lemma_text_take_len(rs, k + 1);
    } else {
        assert(rs.take(k) =~= rs);
    }
}

/// Copies `ls[start..end]`.
fn copy_line_range(ls: &Vec<Vec<u8>>, start: usize, end: usize) -> (r: Vec<Vec<u8>>)
    requires
        start <= end <= ls@.len(),
    ensures
        lines_view(r@) == lines_view(ls@).subrange(start as int, end as int),
{
    let mut r: Vec<Vec<u8>> = Vec::new();
    let mut i: usize = start;
    while i < end
        invariant
            start <= i <= end,
            end <= ls@.len(),
            lines_view(r@) == lines_view(ls@).subrange(start as int, i as int),
        decreases end - i,
    {
        let ghost before = lines_view(r@);
        let c = copy_bytes(ls[i].as_slice());
        r.push(c);
        assert(lines_view(r@) =~= before.push(ls@[i as int]@));
        i = i + 1;
        assert(lines_view(r@) =~= lines_view(ls@).subrange(start as int, i as int));
    }
    r
}

/// Adds a matching region to the hunks (see `matching_step`).
fn add_matching(hunks: &mut Vec<UnifiedDiffHunk>, current_hunk: &mut UnifiedDiffHunk, text: &[u8], has_next: bool, context: usize)
    requires
        old(current_hunk).left_line_range.end + incl_lines(text@).len() <= usize::MAX,
        old(current_hunk).right_line_range.end + incl_lines(text@).len() <= usize::MAX,
        ranges_ordered(old(current_hunk).view()),
        forall|k: int| 0 <= k < old(hunks)@.len() ==> ranges_ordered(#[trigger] old(hunks)@[k].view()),
    ensures
        ranges_ordered(final(current_hunk).view()),
        forall|k: int| 0 <= k < final(hunks)@.len() ==> ranges_ordered(#[trigger] final(hunks)@[k].view()),
        (UnifiedState { hunks: hunks_view(final(hunks)@), cur: final(current_hunk).view() }) == matching_step(
            UnifiedState { hunks: hunks_view(old(hunks)@), cur: old(current_hunk).view() },
            text@,
            has_next,
            context as int,
        ),
        final(current_hunk).view().left_end == old(current_hunk).view().left_end + incl_lines(text@).len(),
        final(current_hunk).view().right_end == old(current_hunk).view().right_end + incl_lines(text@).len(),
{
    let lines = split_inclusive(text);
    let n = lines.len();
    let front: usize = if current_hunk.lines.len() > 0 {
        if context <= n {
            context
        } else {
            n
        }
    } else {
        0
    };
    assert(lines_view(lines@).len() == n);
    let head = copy_line_range(&lines, 0, front);
    assert(lines_view(head@).len() == head@.len());
    assert(lines_view(lines@).subrange(0, front as int) =~= lines_view(lines@).take(front as int));
    current_hunk.extend_context_lines(head);
    let rest = n - front;
    let nb: usize = if has_next {
        if context <= rest {
            context
        } else {
            rest
        }
    } else {
        0
    };
    let skip = rest - nb;
    let ghost cur1 = current_hunk.view();
    if skip > 0 {
        let left_start = current_hunk.left_line_range.end + skip;
        let right_start = current_hunk.right_line_range.end + skip;
        let mut fresh = UnifiedDiffHunk {
            left_line_range: left_start..left_start,
            right_line_range: right_start..right_start,
            lines: Vec::new(),
        };
        assert(tagged_lines_text(fresh.lines@) =~= Seq::<(DiffLineType, Seq<u8>)>::empty());
        core::mem::swap(&mut fresh, current_hunk);
        if fresh.lines.len() > 0 {
            let ghost hb = hunks@;
            hunks.push(fresh);
            assert(hunks_view(hunks@) =~= hunks_view(hb).push(cur1));
            assert(forall|k: int| 0 <= k < hb.len() ==> hunks@[k] == hb[k]);
        }
    }
    let tail = copy_line_range(&lines, front + skip, n);
    assert(lines_view(tail@).len() == tail@.len());
    proof {
        let lv = lines_view(lines@);
        assert(lv.subrange(front + skip, n as int) =~= lv.skip(front as int).skip(skip as int));
    }
    current_hunk.extend_context_lines(tail);
}

/// Adds a differing region: its left lines as removed, its right lines as added.
fn add_changed(current_hunk: &mut UnifiedDiffHunk, left: &[u8], right: &[u8])
    requires
        old(current_hunk).left_line_range.end + incl_lines(left@).len() <= usize::MAX,
        old(current_hunk).right_line_range.end + incl_lines(right@).len() <= usize::MAX,
        ranges_ordered(old(current_hunk).view()),
    ensures
        ranges_ordered(final(current_hunk).view()),
        final(current_hunk).view() == with_tokens(
            ext_changed(old(current_hunk).view(), incl_lines(left@), incl_lines(right@)),
            changed_tokens(left@, right@),
        ),
{
    let words = word_diff(left, right);
    let (left_lines, right_lines) = unzip_diff_hunks_to_lines(&words);
    current_hunk.extend_removed_lines(left_lines);
    current_hunk.extend_added_lines(right_lines);
    assert(current_hunk.view().lines =~= old(current_hunk).view().lines + tag_all(incl_lines(left@), DiffLineType::Removed) + tag_all(incl_lines(right@), DiffLineType::Added));
    assert(current_hunk.view().tokens =~= old(current_hunk).view().tokens + changed_tokens(left@, right@));
}

/// Groups the regions of a line diff into unified hunks with `context` lines
/// of context around each run of changed lines; hunks whose context would
/// touch or overlap are merged.
pub fn unified_diff_hunks(regions: &Vec<DiffRegion>, options: &UnifiedDiffOptions) -> (r: Vec<UnifiedDiffHunk>)
    requires
        forall|i: int| 0 <= i < regions@.len() && (#[trigger] regions_view(regions@)[i]).0 ==> regions_view(regions@)[i].1 == regions_view(regions@)[i].2,
        left_text(regions_view(regions@)).len() + 1 < usize::MAX,
        right_text(regions_view(regions@)).len() + 1 < usize::MAX,
    ensures
        hunks_view(r@) == unified_model(regions_view(regions@), options.context as int),
        forall|k: int| 0 <= k < r@.len() ==> ranges_ordered(#[trigger] r@[k].view()),
{
    let ghost rv = regions_view(regions@);
    let ghost ctx = options.context as int;
    let mut hunks: Vec<UnifiedDiffHunk> = Vec::new();
    let mut current_hunk = UnifiedDiffHunk { left_line_range: 1..1, right_line_range: 1..1, lines: Vec::new() };
    assert(current_hunk.view() == unified_start()) by {
        assert(tagged_lines_text(current_hunk.lines@) =~= Seq::<(DiffLineType, Seq<u8>)>::empty());
        assert(hunk_tokens_view(current_hunk.lines@) =~= Seq::<(DiffLineType, Seq<(DiffTokenType, Seq<u8>)>)>::empty());
    }
    let mut i: usize = 0;
    assert(rv.take(0) =~= Seq::<(bool, Seq<u8>, Seq<u8>)>::empty());
    assert(hunks_view(hunks@) =~= Seq::<UnifiedHunkView>::empty());
    while i < regions.len()
        invariant
            rv == regions_view(regions@),
            ctx == options.context as int,
            forall|j: int| 0 <= j < regions@.len() && (#[trigger] rv[j]).0 ==> rv[j].1 == rv[j].2,
            left_text(rv).len() + 1 < usize::MAX,
            right_text(rv).len() + 1 < usize::MAX,
            i <= regions@.len(),
            unified_fold(rv, ctx, i as int) == (UnifiedState { hunks: hunks_view(hunks@), cur: current_hunk.view() }),
            current_hunk.view().left_end <= 1 + left_text(rv.take(i as int)).len(),
            current_hunk.view().right_end <= 1 + right_text(rv.take(i as int)).len(),
            ranges_ordered(current_hunk.view()),
            forall|k: int| 0 <= k < hunks@.len() ==> ranges_ordered(#[trigger] hunks@[k].view()),
        decreases regions@.len() - i,
    {
        proof {
            lemma_left_text_take(rv, i as int);
            lemma_text_take_len(rv, i + 1);
        }
        let region = &regions[i];
        let ghost st = unified_fold(rv, ctx, i as int);
        assert(rv[i as int] == region.view());
        if region.matching {
            assert(region.left@ == region.right@);
            proof {
                lemma_incl_lines_shape(region.right@);
            }
            add_matching(&mut hunks, &mut current_hunk, region.right.as_slice(), i + 1 < regions.len(), options.context);
        } else {
            proof {
                lemma_incl_lines_shape(region.left@);
                lemma_incl_lines_shape(region.right@);
            }
            add_changed(&mut current_hunk, region.left.as_slice(), region.right.as_slice());
        }
        i = i + 1;
    }
    assert(rv.take(regions@.len() as int) =~= rv);
    if current_hunk.lines.len() > 0 {
        let ghost hb = hunks@;
        hunks.push(current_hunk);
        assert(hunks_view(hunks@) =~= hunks_view(hb).push(current_hunk.view()));
        assert(forall|k: int| 0 <= k < hb.len() ==> hunks@[k] == hb[k]);
    }
    hunks
}


pub open spec fn tag_byte(t: DiffLineType) -> u8 {
    match t {
        DiffLineType::Context => TAG_CONTEXT,
        DiffLineType::Removed => TAG_REMOVED,
        DiffLineType::Added => TAG_ADDED,
    }
}

/// A hunk line as text: its tag byte, then its content.
pub open spec fn formatted_line(l: (DiffLineType, Seq<u8>)) -> Seq<u8> {
    seq![tag_byte(l.0)] + l.1
}

/// A unified hunk as a `ChangeHunk`: 1-based start and length of each range.
pub open spec fn change_hunk_of(h: UnifiedHunkView) -> HunkView {
    HunkView {
        location: HunkLocation {
            from_file: FileRange { start: h.left_start as usize, len: (h.left_end - h.left_start) as usize },
            to_file: FileRange { start: h.right_start as usize, len: (h.right_end - h.right_start) as usize },
        },
        lines: h.lines.map_values(|l: (DiffLineType, Seq<u8>)| formatted_line(l)),
    }
}

/// The unified hunks from `left` to `right`: none where they are equal,
/// else those of their line diff.
pub open spec fn unified_hunks_of(left: Seq<u8>, right: Seq<u8>, context: int) -> Seq<HunkView> {
    if left == right {
        seq![]
    } else {
        unified_model(line_diff_of(left, right), context).map_values(|h: UnifiedHunkView| change_hunk_of(h))
    }
}

pub open spec fn change_hunks_view(hs: Seq<ChangeHunk>) -> Seq<HunkView> {
    hs.map_values(|h: ChangeHunk| h.view())
}

/// Formats one line of a unified hunk.
fn format_line(line: &(DiffLineType, Vec<(DiffTokenType, Vec<u8>)>)) -> (r: Vec<u8>)
    ensures
        r@ == formatted_line((line.0, tokens_text(line.1@))),
{
    let mut out: Vec<u8> = Vec::new();
    let tag = match line.0 {
        DiffLineType::Context => TAG_CONTEXT,
        DiffLineType::Removed => TAG_REMOVED,
        DiffLineType::Added => TAG_ADDED,
    };
    out.push(tag);
    let ghost ts = line.1@;
    let mut j: usize = 0;
    assert(ts.take(0) =~= Seq::<(DiffTokenType, Vec<u8>)>::empty());
    while j < line.1.len()
        invariant
            ts == line.1@,
            j <= ts.len(),
            out@ == seq![tag] + tokens_text(ts.take(j as int)),
        decreases ts.len() - j,
    {
        assert(ts.take(j + 1).drop_last() =~= ts.take(j as int));
        crate::bytes::append_bytes(&mut out, line.1[j].1.as_slice());
        j = j + 1;
        assert(out@ =~= seq![tag] + tokens_text(ts.take(j as int)));
    }
    assert(ts.take(ts.len() as int) =~= ts);
    out
}

/// The unified hunks of the line diff from `left_content` to
/// `right_content`, with `num_context_lines` lines of context.
pub fn get_unified_hunks(num_context_lines: usize, left_content: &[u8], right_content: &[u8]) -> (r: Vec<ChangeHunk>)
    requires
        left_content@.len() + 1 < usize::MAX,
        right_content@.len() + 1 < usize::MAX,
    ensures
        change_hunks_view(r@) == unified_hunks_of(left_content@, right_content@, num_context_lines as int),
        left_content@ != right_content@ ==> regions_cover(
            line_diff_of(left_content@, right_content@),
            left_content@,
            right_content@,
        ),
{
    let mut out: Vec<ChangeHunk> = Vec::new();
    if bytes_eq(left_content, right_content) {
        assert(change_hunks_view(out@) =~= Seq::<HunkView>::empty());
        return out;
    }
    let regions = line_diff(left_content, right_content);
    let options = UnifiedDiffOptions { context: num_context_lines };
    let hunks = unified_diff_hunks(&regions, &options);
    let ghost model = unified_model(regions_view(regions@), num_context_lines as int);
    let mut i: usize = 0;
    while i < hunks.len()
        invariant
            i <= hunks@.len(),
            hunks_view(hunks@) == model,
            forall|k: int| 0 <= k < hunks@.len() ==> ranges_ordered(#[trigger] hunks@[k].view()),
            change_hunks_view(out@) == model.take(i as int).map_values(|h: UnifiedHunkView| change_hunk_of(h)),
        decreases hunks@.len() - i,
    {
        let h = &hunks[i];
        assert(ranges_ordered(hunks@[i as int].view()));
        let location = HunkLocation {
            from_file: FileRange {
                start: h.left_line_range.start,
                len: h.left_line_range.end - h.left_line_range.start,
            },
            to_file: FileRange {
                start: h.right_line_range.start,
                len: h.right_line_range.end - h.right_line_range.start,
            },
        };
        let mut lines: Vec<Vec<u8>> = Vec::new();
        let mut j: usize = 0;
        while j < h.lines.len()
            invariant
                j <= h.lines@.len(),
                lines_view(lines@) == tagged_lines_text(h.lines@).take(j as int).map_values(|l: (DiffLineType, Seq<u8>)| formatted_line(l)),
            decreases h.lines@.len() - j,
        {
            let f = format_line(&h.lines[j]);
            let ghost before = lines_view(lines@);
            lines.push(f);
            assert(lines_view(lines@) =~= before.push(f@));
            assert(tagged_lines_text(h.lines@)[j as int] == (h.lines@[j as int].0, tokens_text(h.lines@[j as int].1@)));
            assert(tagged_lines_text(h.lines@).take(j + 1) =~= tagged_lines_text(h.lines@).take(j as int).push(tagged_lines_text(h.lines@)[j as int]));
            j = j + 1;
            assert(lines_view(lines@) =~= tagged_lines_text(h.lines@).take(j as int).map_values(|l: (DiffLineType, Seq<u8>)| formatted_line(l)));
        }
        assert(tagged_lines_text(h.lines@).take(h.lines@.len() as int) =~= tagged_lines_text(h.lines@));
        let ghost prev = change_hunks_view(out@);
        let ch = ChangeHunk { location, lines };
        assert(ch.view().lines =~= change_hunk_of(hunks@[i as int].view()).lines);
        assert(ch.view() == change_hunk_of(hunks@[i as int].view()));
        assert(model[i as int] == hunks@[i as int].view());
        out.push(ch);
        assert(change_hunks_view(out@) =~= prev.push(ch.view()));
        assert(model.take(i + 1) =~= model.take(i as int).push(model[i as int]));
        i = i + 1;
        assert(change_hunks_view(out@) =~= model.take(i as int).map_values(|h: UnifiedHunkView| change_hunk_of(h)));
    }
    assert(model.take(hunks@.len() as int) =~= model);
    out
}

/// Diffing a buffer against itself yields no hunk, whatever the context.
pub proof fn lemma_identical_buffers_have_no_hunks(x: Seq<u8>, context: int)
    ensures
        unified_hunks_of(x, x, context) == Seq::<HunkView>::empty(),
{
}

/// How many leading bytes are searched for a NUL byte to tell binary content.
pub const BINARY_PROBE_LEN: usize = 8000;

/// Whether the first `BINARY_PROBE_LEN` bytes of `b` hold a NUL byte.
pub open spec fn looks_binary(b: Seq<u8>) -> bool {
    exists|i: int| 0 <= i < b.len() && i < BINARY_PROBE_LEN && b[i] == 0
}

/// The text shown in place of binary content.
pub open spec fn binary_marker() -> Seq<u8> {
    seq![40u8, 98u8, 105u8, 110u8, 97u8, 114u8, 121u8, 41u8]
}

/// The content of a file as the diff sees it: binary content is replaced by
/// the marker `(binary)`.
pub open spec fn diff_text(b: Seq<u8>) -> Seq<u8> {
    if looks_binary(b) {
        binary_marker()
    } else {
        b
    }
}

/// File content prepared for diffing (see `diff_text`).
pub fn contents_for_diff(contents: Vec<u8>) -> (r: Vec<u8>)
    ensures
        r@ == diff_text(contents@),
{
    let end: usize = if contents.len() < BINARY_PROBE_LEN {
        contents.len()
    } else {
        BINARY_PROBE_LEN
    };
    let mut i: usize = 0;
    while i < end
        invariant
            i <= end,
            end <= contents@.len(),
            end == contents@.len() || end == BINARY_PROBE_LEN,
            end <= BINARY_PROBE_LEN,
            forall|j: int| 0 <= j < i ==> contents@[j] != 0,
        decreases end - i,
    {
        if contents[i] == 0 {
            let mut marker: Vec<u8> = Vec::new();
            marker.push(40);
            marker.push(98);
            marker.push(105);
            marker.push(110);
            marker.push(97);
            marker.push(114);
            marker.push(121);
            marker.push(41);
            assert(marker@ =~= binary_marker());
            assert(0 <= i < contents@.len() && i < BINARY_PROBE_LEN && contents@[i as int] == 0);
            assert(looks_binary(contents@));
            return marker;
        }
        i = i + 1;
    }
    contents
}

// ---------------------------------------------------------------------------
// Replaying hunks.

/// The lines of one side of the regions, as the diff counts them.
pub open spec fn side_lines(rs: Seq<(bool, Seq<u8>, Seq<u8>)>, right: bool) -> Seq<Seq<u8>>
    decreases rs.len(),
{
    if rs.len() == 0 {
        seq![]
    } else {
        side_lines(rs.drop_last(), right) + incl_lines(if right { rs.last().2 } else { rs.last().1 })
    }
}

/// Lines concatenated.
pub open spec fn flatten(ls: Seq<Seq<u8>>) -> Seq<u8>
    decreases ls.len(),
{
    if ls.len() == 0 {
        seq![]
    } else {
        flatten(ls.drop_last()) + ls.last()
    }
}

/// The lines a hunk emits: its context and added lines.
pub open spec fn hunk_out(ls: Seq<(DiffLineType, Seq<u8>)>) -> Seq<Seq<u8>>
    decreases ls.len(),
{
    if ls.len() == 0 {
        seq![]
    } else if ls.last().0 == DiffLineType::Removed {
        hunk_out(ls.drop_last())
    } else {
        hunk_out(ls.drop_last()).push(ls.last().1)
    }
}

/// How many left lines a hunk covers: its context and removed lines.
pub open spec fn left_count(ls: Seq<(DiffLineType, Seq<u8>)>) -> int
    decreases ls.len(),
{
    if ls.len() == 0 {
        0
    } else if ls.last().0 == DiffLineType::Added {
        left_count(ls.drop_last())
    } else {
        left_count(ls.drop_last()) + 1
    }
}

/// The left line index just past the last hunk.
pub open spec fn replay_pos(hs: Seq<UnifiedHunkView>) -> int {
    if hs.len() == 0 {
        0
    } else {
        hs.last().left_start - 1 + left_count(hs.last().lines)
    }
}

/// The lines emitted up to the end of the last hunk: left lines between
/// hunks, and each hunk's context and added lines.
pub open spec fn replay_out(left: Seq<Seq<u8>>, hs: Seq<UnifiedHunkView>) -> Seq<Seq<u8>>
    decreases hs.len(),
{
    if hs.len() == 0 {
        seq![]
    } else {
        replay_out(left, hs.drop_last()) + left.subrange(replay_pos(hs.drop_last()), hs.last().left_start - 1)
            + hunk_out(hs.last().lines)
    }
}

/// The hunks applied to the left lines: lines outside hunks are kept,
/// context and added lines are emitted, removed lines are skipped.
pub open spec fn replay(left: Seq<Seq<u8>>, hs: Seq<UnifiedHunkView>) -> Seq<Seq<u8>> {
    replay_out(left, hs) + left.skip(replay_pos(hs))
}

/// The hunks lie in order within the first `n` left lines.
pub open spec fn replay_valid(n: int, hs: Seq<UnifiedHunkView>) -> bool
    decreases hs.len(),
{
    if hs.len() == 0 {
        true
    } else {
        &&& replay_valid(n, hs.drop_last())
        &&& 0 <= replay_pos(hs.drop_last()) <= hs.last().left_start - 1
        &&& hs.last().left_start - 1 + left_count(hs.last().lines) <= n
    }
}

proof fn lemma_replay_valid_mono(n: int, m: int, hs: Seq<UnifiedHunkView>)
    requires
        replay_valid(n, hs),
        n <= m,
    ensures
        replay_valid(m, hs),
    decreases hs.len(),
{
    if hs.len() > 0 {
        lemma_replay_valid_mono(n, m, hs.drop_last());
    }
}

proof fn lemma_replay_valid_pos(n: int, hs: Seq<UnifiedHunkView>)
    requires
        0 <= n,
        replay_valid(n, hs),
    ensures
        0 <= replay_pos(hs) <= n,
    decreases hs.len(),
{
    if hs.len() > 0 {
        lemma_replay_valid_pos(n, hs.drop_last());
        lemma_left_count_nonneg(hs.last().lines);
        assert(0 <= replay_pos(hs.drop_last()) <= hs.last().left_start - 1);
        assert(hs.last().left_start - 1 + left_count(hs.last().lines) <= n);
    }
}

proof fn lemma_left_count_nonneg(ls: Seq<(DiffLineType, Seq<u8>)>)
    ensures
        left_count(ls) >= 0,
    decreases ls.len(),
{
    if ls.len() > 0 {
        lemma_left_count_nonneg(ls.drop_last());
    }
}

proof fn lemma_replay_extend(left: Seq<Seq<u8>>, more: Seq<Seq<u8>>, hs: Seq<UnifiedHunkView>)
    requires
        replay_valid(left.len() as int, hs),
    ensures
        replay_out(left + more, hs) == replay_out(left, hs),
    decreases hs.len(),
{
    if hs.len() > 0 {
        lemma_replay_extend(left, more, hs.drop_last());
        let a = replay_pos(hs.drop_last());
        let b = hs.last().left_start - 1;
        lemma_left_count_nonneg(hs.last().lines);
        assert((left + more).subrange(a, b) =~= left.subrange(a, b));
    }
}

proof fn lemma_tagged_append(a: Seq<(DiffLineType, Seq<u8>)>, c: Seq<Seq<u8>>, t: DiffLineType)
    ensures
        hunk_out(a + tag_all(c, t)) == (if t == DiffLineType::Removed { hunk_out(a) } else { hunk_out(a) + c }),
        left_count(a + tag_all(c, t)) == left_count(a) + (if t == DiffLineType::Added { 0 } else { c.len() as int }),
    decreases c.len(),
{
    if c.len() == 0 {
        assert(a + tag_all(c, t) =~= a);
        assert(hunk_out(a) + c =~= hunk_out(a));
    } else {
        lemma_tagged_append(a, c.drop_last(), t);
        let x = a + tag_all(c, t);
        assert(x.drop_last() =~= a + tag_all(c.drop_last(), t));
        assert(x.last() == (t, c.last()));
        if t != DiffLineType::Removed {
            assert(hunk_out(a) + c =~= (hunk_out(a) + c.drop_last()).push(c.last()));
        }
    }
}

/// The state of the hunk builder after some regions, against the left and
/// right lines of those regions.
pub open spec fn replay_state_ok(ll: Seq<Seq<u8>>, rl: Seq<Seq<u8>>, hs: Seq<UnifiedHunkView>, cur: UnifiedHunkView) -> bool {
    &&& cur.left_end - 1 == ll.len()
    &&& cur.right_end - 1 == rl.len()
    &&& cur.left_start >= 1
    &&& left_count(cur.lines) == cur.left_end - cur.left_start
    &&& replay_valid(ll.len() as int, hs.push(cur))
    &&& replay_out(ll, hs.push(cur)) == rl
}

proof fn lemma_state_extend(
    ll: Seq<Seq<u8>>,
    rl: Seq<Seq<u8>>,
    hs: Seq<UnifiedHunkView>,
    cur: UnifiedHunkView,
    rem: Seq<Seq<u8>>,
    add: Seq<Seq<u8>>,
    context: bool,
)
    requires
        replay_state_ok(ll, rl, hs, cur),
        context ==> rem == add,
    ensures
        replay_state_ok(
            ll + rem,
            rl + add,
            hs,
            if context { ext_context(cur, rem) } else { ext_changed(cur, rem, add) },
        ),
{
    let c2 = if context { ext_context(cur, rem) } else { ext_changed(cur, rem, add) };
    assert(hs.push(cur).drop_last() =~= hs);
    assert(hs.push(c2).drop_last() =~= hs);
    if context {
        lemma_tagged_append(cur.lines, rem, DiffLineType::Context);
    } else {
        lemma_tagged_append(cur.lines, rem, DiffLineType::Removed);
        lemma_tagged_append(cur.lines + tag_all(rem, DiffLineType::Removed), add, DiffLineType::Added);
    }
    lemma_replay_valid_mono(ll.len() as int, (ll.len() + rem.len()) as int, hs);
    lemma_replay_extend(ll, rem, hs);
    let p = replay_pos(hs);
    lemma_left_count_nonneg(cur.lines);
    assert(replay_valid(ll.len() as int, hs.push(cur)));
    assert(0 <= p <= cur.left_start - 1);
    assert(cur.left_start - 1 <= ll.len());
    assert((ll + rem).subrange(p, cur.left_start - 1) =~= ll.subrange(p, cur.left_start - 1));
    assert(replay_out(ll + rem, hs.push(c2)) =~= rl + add);
}

proof fn lemma_state_tokens(
    ll: Seq<Seq<u8>>,
    rl: Seq<Seq<u8>>,
    hs: Seq<UnifiedHunkView>,
    cur: UnifiedHunkView,
    t: Seq<(DiffLineType, Seq<(DiffTokenType, Seq<u8>)>)>,
)
    requires
        replay_state_ok(ll, rl, hs, cur),
    ensures
        replay_state_ok(ll, rl, hs, with_tokens(cur, t)),
{
    assert(hs.push(cur).drop_last() =~= hs);
    assert(hs.push(with_tokens(cur, t)).drop_last() =~= hs);
}

proof fn lemma_state_gap(ll: Seq<Seq<u8>>, rl: Seq<Seq<u8>>, hs: Seq<UnifiedHunkView>, cur: UnifiedHunkView, g: Seq<Seq<u8>>)
    requires
        replay_state_ok(ll, rl, hs, cur),
        g.len() > 0,
    ensures
        replay_state_ok(
            ll + g,
            rl + g,
            if cur.lines.len() > 0 { hs.push(cur) } else { hs },
            UnifiedHunkView {
                left_start: cur.left_end + g.len(),
                left_end: cur.left_end + g.len(),
                right_start: cur.right_end + g.len(),
                right_end: cur.right_end + g.len(),
                lines: seq![],
                tokens: seq![],
            },
        ),
{
    let fresh = UnifiedHunkView {
        left_start: cur.left_end + g.len(),
        left_end: cur.left_end + g.len(),
        right_start: cur.right_end + g.len(),
        right_end: cur.right_end + g.len(),
        lines: seq![],
        tokens: seq![],
    };
    let hs2 = if cur.lines.len() > 0 { hs.push(cur) } else { hs };
    let n = ll.len() as int;
    assert(hs.push(cur).drop_last() =~= hs);
    assert(hs2.push(fresh).drop_last() =~= hs2);
    assert(left_count(fresh.lines) == 0);
    assert(hunk_out(fresh.lines) =~= Seq::<Seq<u8>>::empty());
    lemma_replay_valid_mono(n, (n + g.len()) as int, hs2);
    lemma_replay_valid_pos(n, hs);
    lemma_replay_extend(ll, g, hs2);
    if cur.lines.len() > 0 {
        assert((ll + g).subrange(n, n + g.len()) =~= g);
        assert(replay_out(ll + g, hs2.push(fresh)) =~= rl + g);
    } else {
        assert(left_count(cur.lines) == 0);
        assert(hunk_out(cur.lines) =~= Seq::<Seq<u8>>::empty());
        let p = replay_pos(hs);
        assert((ll + g).subrange(p, n + g.len()) =~= ll.subrange(p, n) + g);
        assert(replay_out(ll + g, hs2.push(fresh)) =~= rl + g);
    }
}

proof fn lemma_state_final(ll: Seq<Seq<u8>>, rl: Seq<Seq<u8>>, hs: Seq<UnifiedHunkView>, cur: UnifiedHunkView)
    requires
        replay_state_ok(ll, rl, hs, cur),
    ensures
        replay(ll, if cur.lines.len() > 0 { hs.push(cur) } else { hs }) == rl,
{
    assert(hs.push(cur).drop_last() =~= hs);
    let n = ll.len() as int;
    if cur.lines.len() > 0 {
        assert(ll.skip(n) =~= Seq::<Seq<u8>>::empty());
        assert(replay(ll, hs.push(cur)) =~= rl);
    } else {
        assert(left_count(cur.lines) == 0);
        assert(hunk_out(cur.lines) =~= Seq::<Seq<u8>>::empty());
        lemma_replay_valid_pos(n, hs);
        assert(ll.skip(replay_pos(hs)) =~= ll.subrange(replay_pos(hs), n));
        assert(replay(ll, hs) =~= rl);
    }
}

proof fn lemma_matching_replay(ll: Seq<Seq<u8>>, rl: Seq<Seq<u8>>, st: UnifiedState, text: Seq<u8>, has_next: bool, ctx: int)
    requires
        replay_state_ok(ll, rl, st.hunks, st.cur),
        ctx >= 0,
    ensures
        replay_state_ok(
            ll + incl_lines(text),
            rl + incl_lines(text),
            matching_step(st, text, has_next, ctx).hunks,
            matching_step(st, text, has_next, ctx).cur,
        ),
{
    let lines = incl_lines(text);
    let front = if st.cur.lines.len() > 0 { min_int(ctx, lines.len() as int) } else { 0 };
    let cur1 = ext_context(st.cur, lines.take(front));
    let rest = lines.skip(front);
    let nb = if has_next { min_int(ctx, rest.len() as int) } else { 0 };
    let skip = rest.len() - nb;
    lemma_state_extend(ll, rl, st.hunks, st.cur, lines.take(front), lines.take(front), true);
    let ll1 = ll + lines.take(front);
    let rl1 = rl + lines.take(front);
    if skip > 0 {
        let g = rest.take(skip);
        lemma_state_gap(ll1, rl1, st.hunks, cur1, g);
        let hs2 = if cur1.lines.len() > 0 { st.hunks.push(cur1) } else { st.hunks };
        let cur2 = UnifiedHunkView {
            left_start: cur1.left_end + skip,
            left_end: cur1.left_end + skip,
            right_start: cur1.right_end + skip,
            right_end: cur1.right_end + skip,
            lines: seq![],
            tokens: seq![],
        };
        lemma_state_extend(ll1 + g, rl1 + g, hs2, cur2, rest.skip(skip), rest.skip(skip), true);
        assert(ll1 + g + rest.skip(skip) =~= ll + lines);
        assert(rl1 + g + rest.skip(skip) =~= rl + lines);
    } else {
        lemma_state_extend(ll1, rl1, st.hunks, cur1, rest.skip(skip), rest.skip(skip), true);
        assert(ll1 + rest.skip(skip) =~= ll + lines);
        assert(rl1 + rest.skip(skip) =~= rl + lines);
    }
}

proof fn lemma_fold_replay(rs: Seq<(bool, Seq<u8>, Seq<u8>)>, ctx: int, k: int)
    requires
        0 <= k <= rs.len(),
        ctx >= 0,
        forall|i: int| 0 <= i < rs.len() && (#[trigger] rs[i]).0 ==> rs[i].1 == rs[i].2,
    ensures
        replay_state_ok(
            side_lines(rs.take(k), false),
            side_lines(rs.take(k), true),
            unified_fold(rs, ctx, k).hunks,
            unified_fold(rs, ctx, k).cur,
        ),
    decreases k,
{
    if k == 0 {
        let st = unified_fold(rs, ctx, 0);
        assert(side_lines(rs.take(0), false) =~= Seq::<Seq<u8>>::empty());
        assert(side_lines(rs.take(0), true) =~= Seq::<Seq<u8>>::empty());
        assert(st.hunks.push(st.cur).drop_last() =~= st.hunks);
        assert(st.cur.lines =~= Seq::<(DiffLineType, Seq<u8>)>::empty());
        assert(hunk_out(st.cur.lines) =~= Seq::<Seq<u8>>::empty());
        assert(left_count(st.cur.lines) == 0);
        assert(st.hunks.push(st.cur).drop_last() =~= Seq::<UnifiedHunkView>::empty());
        assert(replay_out(seq![], Seq::<UnifiedHunkView>::empty()) =~= Seq::<Seq<u8>>::empty());
        assert(Seq::<Seq<u8>>::empty().subrange(0, 0) =~= Seq::<Seq<u8>>::empty());
        assert(replay_out(seq![], st.hunks.push(st.cur)) =~= Seq::<Seq<u8>>::empty());
        assert(replay_valid(0, Seq::<UnifiedHunkView>::empty()));
        assert(replay_pos(Seq::<UnifiedHunkView>::empty()) == 0);
        assert(st.cur.left_start == 1);
        assert(replay_valid(0, st.hunks.push(st.cur)));
    } else {
        lemma_fold_replay(rs, ctx, k - 1);
        let st = unified_fold(rs, ctx, k - 1);
        let r = rs[k - 1];
        let ll = side_lines(rs.take(k - 1), false);
        let rl = side_lines(rs.take(k - 1), true);
        assert(rs.take(k).drop_last() =~= rs.take(k - 1));
        assert(rs.take(k).last() == r);
        if r.0 {
            lemma_matching_replay(ll, rl, st, r.2, k < rs.len(), ctx);
            assert(r.1 == r.2);
        } else {
            lemma_state_extend(ll, rl, st.hunks, st.cur, incl_lines(r.1), incl_lines(r.2), false);
            lemma_state_tokens(
                ll + incl_lines(r.1),
                rl + incl_lines(r.2),
                st.hunks,
                ext_changed(st.cur, incl_lines(r.1), incl_lines(r.2)),
                changed_tokens(r.1, r.2),
            );
        }
    }
}

proof fn lemma_flatten_append(a: Seq<Seq<u8>>, b: Seq<Seq<u8>>)
    ensures
        flatten(a + b) == flatten(a) + flatten(b),
    decreases b.len(),
{
    if b.len() == 0 {
        assert(a + b =~= a);
        assert(flatten(a) + flatten(b) =~= flatten(a));
    } else {
        lemma_flatten_append(a, b.drop_last());
        assert((a + b).drop_last() =~= a + b.drop_last());
        assert(flatten(a) + flatten(b) =~= flatten(a) + flatten(b.drop_last()) + b.last());
    }
}

proof fn lemma_flatten_incl(x: Seq<u8>)
    ensures
        flatten(incl_lines(x)) == x,
    decreases x.len(),
{
    if x.len() > 0 {
        lemma_flatten_incl(x.drop_last());
        let p = incl_lines(x.drop_last());
        if p.len() == 0 || p.last().last() == NL {
            assert(p.push(seq![x.last()]).drop_last() =~= p);
            assert(x =~= x.drop_last() + seq![x.last()]);
        } else {
            let q = p.update(p.len() - 1, p.last().push(x.last()));
            assert(q.drop_last() =~= p.drop_last());
            assert(q.last() == p.last().push(x.last()));
            assert(flatten(p) == flatten(p.drop_last()) + p.last());
            assert(x.drop_last() == flatten(p.drop_last()) + p.last());
            assert(x =~= x.drop_last().push(x.last()));
            assert((flatten(p.drop_last()) + p.last()).push(x.last()) =~= flatten(p.drop_last()) + p.last().push(x.last()));
            assert(flatten(q) == flatten(q.drop_last()) + q.last());
        }
    }
}

proof fn lemma_flatten_side(rs: Seq<(bool, Seq<u8>, Seq<u8>)>)
    ensures
        flatten(side_lines(rs, false)) == left_text(rs),
        flatten(side_lines(rs, true)) == right_text(rs),
    decreases rs.len(),
{
    if rs.len() > 0 {
        lemma_flatten_side(rs.drop_last());
        lemma_flatten_append(side_lines(rs.drop_last(), false), incl_lines(rs.last().1));
        lemma_flatten_append(side_lines(rs.drop_last(), true), incl_lines(rs.last().2));
        lemma_flatten_incl(rs.last().1);
        lemma_flatten_incl(rs.last().2);
    }
}

/// Unified hunks round-trip: the left buffer's lines (as the diff split
/// them), with every hunk applied in order (context and added lines
/// emitted, removed lines skipped, lines between hunks kept), concatenate to
/// exactly the right buffer. Holds for any regions that cover both buffers
/// with equal text in their matching regions, which is what the line diff
/// returns.
pub proof fn lemma_hunks_rebuild_right_side(rs: Seq<(bool, Seq<u8>, Seq<u8>)>, context: int, left: Seq<u8>, right: Seq<u8>)
    requires
        context >= 0,
        regions_cover(rs, left, right),
    ensures
        flatten(side_lines(rs, false)) == left,
        flatten(replay(side_lines(rs, false), unified_model(rs, context))) == right,
{
    lemma_fold_replay(rs, context, rs.len() as int);
    assert(rs.take(rs.len() as int) =~= rs);
    let st = unified_fold(rs, context, rs.len() as int);
    lemma_state_final(side_lines(rs, false), side_lines(rs, true), st.hunks, st.cur);
    lemma_flatten_side(rs);
}

/// How a path changed between two trees.
#[derive(Clone, Copy, Debug, PartialEq, Eq, Structural)]
pub enum ChangeKind {
    Added,
    Modified,
    Deleted,
}

/// The kind of a change from whether the path was present before and after:
/// present on both sides is a modification, absent before an addition,
/// else a deletion.
pub fn change_kind(present_before: bool, present_after: bool) -> (k: ChangeKind)
    ensures
        k == (if present_before && present_after {
            ChangeKind::Modified
        } else if !present_before {
            ChangeKind::Added
        } else {
            ChangeKind::Deleted
        }),
{
    if present_before && present_after {
        ChangeKind::Modified
    } else if !present_before {
        ChangeKind::Added
    } else {
        ChangeKind::Deleted
    }
}

} // verus!
