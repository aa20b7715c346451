//! Incremental layout of the commit graph into rows and columns.
//!
//! A layout session holds an array of optional stems: edges that left an
//! already emitted row and wait for the row of their target commit. The slot
//! of a stem is the column it is drawn in.
use vstd::prelude::*;

use crate::bytes::{bytes_eq, copy_bytes};

verus! {

/// Identifier of a commit: the bytes of its content hash.
pub struct CommitId {
    pub bytes: Vec<u8>,
}

impl CommitId {
    pub open spec fn view(&self) -> Seq<u8> {
        self.bytes@
    }

    pub fn new(bytes: Vec<u8>) -> (r: CommitId)
        ensures
            r.view() == bytes@,
    {
        CommitId { bytes }
    }

    /// Whether both ids name the same commit.
    pub fn same_as(&self, other: &CommitId) -> (r: bool)
        ensures
            r == (self.view() == other.view()),
    {
        bytes_eq(self.bytes.as_slice(), other.bytes.as_slice())
    }

    pub fn duplicate(&self) -> (r: CommitId)
        ensures
            r.view() == self.view(),
    {
        CommitId { bytes: copy_bytes(self.bytes.as_slice()) }
    }
}

/// A grid position: column, then row.
#[derive(Clone, Copy, Debug, PartialEq, Eq, Structural)]
pub struct LogCoordinates(pub usize, pub usize);

/// A connector drawn between two grid positions.
#[derive(Clone, Copy, Debug, PartialEq, Eq, Structural)]
pub enum LogLine {
    /// From a node down to a stem slot that was inserted into a gap.
    FromNode { indirect: bool, source: LogCoordinates, target: LogCoordinates },
    /// From a node down to a stem slot that was appended on the right.
    ToNode { indirect: bool, source: LogCoordinates, target: LogCoordinates },
    /// From a node into a stem that already awaits the same target.
    ToIntersection { indirect: bool, source: LogCoordinates, target: LogCoordinates },
    /// From a node to an edge whose target is outside the traversal.
    ToMissing { indirect: bool, source: LogCoordinates, target: LogCoordinates },
}

/// How an edge of the traversal reaches its target.
#[derive(Clone, Copy, Debug, PartialEq, Eq, Structural)]
pub enum GraphEdgeType {
    /// The target is not part of the traversal.
    Missing,
    /// The target is a parent.
    Direct,
    /// The target is an ancestor reached through commits left out.
    Indirect,
}

pub struct GraphEdge {
    pub target: CommitId,
    pub edge_type: GraphEdgeType,
}

/// One commit of the traversal with its outgoing edges.
pub struct GraphNode {
    pub id: CommitId,
    pub edges: Vec<GraphEdge>,
}

/// Mathematical value of an edge.
pub struct EdgeView {
    pub target: Seq<u8>,
    pub edge_type: GraphEdgeType,
}

impl GraphEdge {
    pub open spec fn view(&self) -> EdgeView {
        EdgeView { target: self.target.view(), edge_type: self.edge_type }
    }
}

pub open spec fn edges_view(edges: Seq<GraphEdge>) -> Seq<EdgeView> {
    edges.map_values(|e: GraphEdge| e.view())
}

/// An edge that left a row and waits for the row of its target.
struct LogStem {
    source: LogCoordinates,
    target: CommitId,
    indirect: bool,
    was_inserted: bool,
    known_immutable: bool,
}

/// Mathematical value of a stem.
pub struct StemView {
    pub source: LogCoordinates,
    pub target: Seq<u8>,
    pub indirect: bool,
    pub was_inserted: bool,
    pub known_immutable: bool,
}

impl LogStem {
    spec fn view(&self) -> StemView {
        StemView {
            source: self.source,
            target: self.target.view(),
            indirect: self.indirect,
            was_inserted: self.was_inserted,
            known_immutable: self.known_immutable,
        }
    }
}

spec fn slot_view(o: Option<LogStem>) -> Option<StemView> {
    match o {
        Some(s) => Some(s.view()),
        None => None,
    }
}

/// One emitted row: the commit, whether it is immutable, where its node is,
/// how many stems run to its right, and the connectors that end or start in it.
pub struct LogRow {
    pub commit: CommitId,
    pub immutable: bool,
    pub location: LogCoordinates,
    pub padding: usize,
    pub lines: Vec<LogLine>,
}

/// Mathematical value of a row.
pub struct RowView {
    pub commit: Seq<u8>,
    pub immutable: bool,
    pub location: LogCoordinates,
    pub padding: usize,
    pub lines: Seq<LogLine>,
}

impl LogRow {
    pub open spec fn view(&self) -> RowView {
        RowView {
            commit: self.commit.view(),
            immutable: self.immutable,
            location: self.location,
            padding: self.padding,
            lines: self.lines@,
        }
    }
}

/// A page of rows, and whether the traversal has more commits.
pub struct LogPage {
    pub rows: Vec<LogRow>,
    pub has_more: bool,
}

// ---------------------------------------------------------------------------
// The layout step as mathematics.

/// Index of the first element satisfying `p`, or the length when none does.
pub open spec fn first_where(s: Seq<Option<StemView>>, p: spec_fn(Option<StemView>) -> bool) -> int
    decreases s.len(),
{
    if s.len() == 0 {
        0
    } else if p(s[0]) {
        0
    } else {
        1 + first_where(s.drop_first(), p)
    }
}

pub open spec fn targets(o: Option<StemView>, id: Seq<u8>) -> bool {
    o is Some && o->0.target == id
}

pub open spec fn is_empty_slot(o: Option<StemView>) -> bool {
    o is None
}

/// Slot of the first stem that waits for `id`; the length when there is none.
pub open spec fn stem_slot(s: Seq<Option<StemView>>, id: Seq<u8>) -> int {
    first_where(s, |o: Option<StemView>| targets(o, id))
}

/// The first empty slot; the length when there is none.
pub open spec fn empty_slot(s: Seq<Option<StemView>>) -> int {
    first_where(s, |o: Option<StemView>| is_empty_slot(o))
}

/// Column of the node for `id`: the slot of the stem that waits for it, else
/// the first gap, else a new slot on the right.
pub open spec fn node_column(s: Seq<Option<StemView>>, id: Seq<u8>) -> int {
    if stem_slot(s, id) < s.len() {
        stem_slot(s, id)
    } else if empty_slot(s) < s.len() {
        empty_slot(s)
    } else {
        s.len() as int
    }
}

/// Number of slots to the right of the node's column.
pub open spec fn node_padding(s: Seq<Option<StemView>>, id: Seq<u8>) -> int {
    if node_column(s, id) < s.len() {
        s.len() - node_column(s, id) - 1
    } else {
        0
    }
}

/// The stem that ends at the node for `id`, if any.
pub open spec fn incoming_stem(s: Seq<Option<StemView>>, id: Seq<u8>) -> Option<StemView> {
    if stem_slot(s, id) < s.len() {
        s[stem_slot(s, id)]
    } else {
        None
    }
}

/// Whether the node inherits immutability from the stem that ends at it.
pub open spec fn inherited_immutable(s: Seq<Option<StemView>>, id: Seq<u8>) -> bool {
    incoming_stem(s, id) is Some && incoming_stem(s, id)->0.known_immutable
}

/// The connector drawn for the stem that ends at the node.
pub open spec fn incoming_lines(s: Seq<Option<StemView>>, id: Seq<u8>, row: usize) -> Seq<LogLine> {
    match incoming_stem(s, id) {
        Some(t) => {
            let target = LogCoordinates(node_column(s, id) as usize, row);
            if t.was_inserted {
                seq![LogLine::FromNode { indirect: t.indirect, source: t.source, target }]
            } else {
                seq![LogLine::ToNode { indirect: t.indirect, source: t.source, target }]
            }
        },
        None => seq![],
    }
}

/// The stems once the one that ends at the node is cleared.
pub open spec fn after_incoming(s: Seq<Option<StemView>>, id: Seq<u8>) -> Seq<Option<StemView>> {
    if stem_slot(s, id) < s.len() {
        s.update(stem_slot(s, id), None)
    } else {
        s
    }
}

/// `s` without its trailing empty slots.
pub open spec fn trimmed(s: Seq<Option<StemView>>) -> Seq<Option<StemView>>
    decreases s.len(),
{
    if s.len() > 0 && s.last() is None {
        trimmed(s.drop_last())
    } else {
        s
    }
}

/// Stems, connectors of the row so far, and the targets of the missing
/// edges seen, in order.
pub struct EdgeAcc {
    pub stems: Seq<Option<StemView>>,
    pub lines: Seq<LogLine>,
    pub missing: Seq<Seq<u8>>,
}

/// What one outgoing edge of the node at `at` does to the layout.
pub open spec fn edge_step(
    acc: EdgeAcc,
    e: EdgeView,
    at: LogCoordinates,
    immutable: bool,
    root: Seq<u8>,
) -> EdgeAcc {
    if e.edge_type == GraphEdgeType::Missing && e.target == root {
        acc
    } else {
        let missing = if e.edge_type == GraphEdgeType::Missing {
            acc.missing.push(e.target)
        } else {
            acc.missing
        };
        let indirect = match e.edge_type {
                    GraphEdgeType::Direct => false,
                    _ => true,
                };
        let j = stem_slot(acc.stems, e.target);
        let f = empty_slot(acc.stems);
        if j < acc.stems.len() {
            EdgeAcc {
                stems: acc.stems,
                lines: acc.lines.push(
                    LogLine::ToIntersection {
                        indirect,
                        source: at,
                        target: LogCoordinates(j as usize, (at.1 + 1) as usize),
                    },
                ),
                missing,
            }
        } else {
            let stem = StemView {
                source: at,
                target: e.target,
                indirect,
                was_inserted: f < acc.stems.len(),
                known_immutable: immutable,
            };
            EdgeAcc {
                stems: if f < acc.stems.len() {
                    acc.stems.update(f, Some(stem))
                } else {
                    acc.stems.push(Some(stem))
                },
                lines: acc.lines,
                missing,
            }
        }
    }
}

/// All outgoing edges, in order.
pub open spec fn edges_fold(
    acc: EdgeAcc,
    edges: Seq<EdgeView>,
    at: LogCoordinates,
    immutable: bool,
    root: Seq<u8>,
) -> EdgeAcc
    decreases edges.len(),
{
    if edges.len() == 0 {
        acc
    } else {
        edge_step(edges_fold(acc, edges.drop_last(), at, immutable, root), edges.last(), at, immutable, root)
    }
}

/// Effect of the node's edges, starting from the trimmed stems.
pub open spec fn edges_result(
    s: Seq<Option<StemView>>,
    id: Seq<u8>,
    edges: Seq<EdgeView>,
    row: usize,
    immutable: bool,
    root: Seq<u8>,
) -> EdgeAcc {
    edges_fold(
        EdgeAcc { stems: trimmed(after_incoming(s, id)), lines: incoming_lines(s, id, row), missing: seq![] },
        edges,
        LogCoordinates(node_column(s, id) as usize, row),
        immutable,
        root,
    )
}

/// Targets of the edges at `idx`, in order.
pub open spec fn pending_view(edges: Seq<GraphEdge>, idx: Seq<usize>) -> Seq<Seq<u8>> {
    idx.map_values(|k: usize| edges[k as int].target.view())
}

/// Stems and connectors while boundary stems are closed, and whether any was.
pub struct CloseAcc {
    pub stems: Seq<Option<StemView>>,
    pub lines: Seq<LogLine>,
    pub closed: bool,
}

/// A missing edge's stem, if still in flight, ends one row below the node
/// at `at` as a boundary connector.
pub open spec fn close_step(c: CloseAcc, m: Seq<u8>, at: LogCoordinates) -> CloseAcc {
    let j = stem_slot(c.stems, m);
    if j < c.stems.len() {
        CloseAcc {
            stems: c.stems.update(j, None),
            lines: c.lines.push(
                LogLine::ToMissing {
                    indirect: c.stems[j]->0.indirect,
                    source: at,
                    target: LogCoordinates(j as usize, (at.1 + 1) as usize),
                },
            ),
            closed: true,
        }
    } else {
        c
    }
}

/// All missing edges closed, in order.
pub open spec fn close_fold(c: CloseAcc, ms: Seq<Seq<u8>>, at: LogCoordinates) -> CloseAcc
    decreases ms.len(),
{
    if ms.len() == 0 {
        c
    } else {
        close_step(close_fold(c, ms.drop_last(), at), ms.last(), at)
    }
}

/// The step once the node's edges are added and its missing edges closed.
pub open spec fn step_closing(
    s: Seq<Option<StemView>>,
    id: Seq<u8>,
    edges: Seq<EdgeView>,
    row: usize,
    immutable: bool,
    root: Seq<u8>,
) -> CloseAcc {
    let acc = edges_result(s, id, edges, row, immutable, root);
    close_fold(
        CloseAcc { stems: acc.stems, lines: acc.lines, closed: false },
        acc.missing,
        LogCoordinates(node_column(s, id) as usize, row),
    )
}

/// The stems after a whole layout step, trailing empty slots trimmed.
pub open spec fn step_stems(
    s: Seq<Option<StemView>>,
    id: Seq<u8>,
    edges: Seq<EdgeView>,
    row: usize,
    immutable: bool,
    root: Seq<u8>,
) -> Seq<Option<StemView>> {
    trimmed(step_closing(s, id, edges, row, immutable, root).stems)
}

/// The connectors of the emitted row.
pub open spec fn step_lines(
    s: Seq<Option<StemView>>,
    id: Seq<u8>,
    edges: Seq<EdgeView>,
    row: usize,
    immutable: bool,
    root: Seq<u8>,
) -> Seq<LogLine> {
    step_closing(s, id, edges, row, immutable, root).lines
}

/// Number of grid rows the step uses: one, or two with boundary connectors.
pub open spec fn step_height(
    s: Seq<Option<StemView>>,
    id: Seq<u8>,
    edges: Seq<EdgeView>,
    row: usize,
    immutable: bool,
    root: Seq<u8>,
) -> int {
    if step_closing(s, id, edges, row, immutable, root).closed {
        2
    } else {
        1
    }
}

/// No trailing empty slot.
pub open spec fn trim_closed(s: Seq<Option<StemView>>) -> bool {
    s.len() == 0 || s.last() is Some
}

// ---------------------------------------------------------------------------
// Lemmas on the search and trim functions.

proof fn lemma_first_where_found(s: Seq<Option<StemView>>, p: spec_fn(Option<StemView>) -> bool, i: int)
    requires
        0 <= i <= s.len(),
        forall|j: int| 0 <= j < i ==> !p(s[j]),
        i < s.len() ==> p(s[i]),
    ensures
        first_where(s, p) == i,
    decreases s.len(),
{
    if s.len() > 0 && i > 0 {
        assert forall|j: int| 0 <= j < i - 1 implies !p(s.drop_first()[j]) by {
            assert(s.drop_first()[j] == s[j + 1]);
        }
        lemma_first_where_found(s.drop_first(), p, i - 1);
    }
}

proof fn lemma_first_where_bounds(s: Seq<Option<StemView>>, p: spec_fn(Option<StemView>) -> bool)
    ensures
        0 <= first_where(s, p) <= s.len(),
        first_where(s, p) < s.len() ==> p(s[first_where(s, p)]),
        forall|j: int| 0 <= j < first_where(s, p) ==> !p(s[j]),
    decreases s.len(),
{
    if s.len() > 0 && !p(s[0]) {
        lemma_first_where_bounds(s.drop_first(), p);
        assert forall|j: int| 0 <= j < first_where(s, p) implies !p(s[j]) by {
            if j > 0 {
                assert(s[j] == s.drop_first()[j - 1]);
            }
        }
    }
}

proof fn lemma_trimmed(s: Seq<Option<StemView>>)
    ensures
        trim_closed(trimmed(s)),
        trimmed(s).len() <= s.len(),
        trimmed(s) =~= s.subrange(0, trimmed(s).len() as int),
        forall|j: int| trimmed(s).len() <= j < s.len() ==> s[j] is None,
    decreases s.len(),
{
    if s.len() > 0 && s.last() is None {
        lemma_trimmed(s.drop_last());
        assert forall|j: int| trimmed(s).len() <= j < s.len() implies s[j] is None by {
            if j < s.len() - 1 {
                assert(s.drop_last()[j] == s[j]);
            }
        }
    }
}

// ---------------------------------------------------------------------------
// The session state.

/// State of a layout session: the page size, the next row index, and the
/// stems in flight.
pub struct QueryState {
    page_size: usize,
    next_row: usize,
    stems: Vec<Option<LogStem>>,
}

impl QueryState {
    /// The stems in flight, slot by slot.
    pub closed spec fn stems_view(&self) -> Seq<Option<StemView>> {
        self.stems@.map_values(|o: Option<LogStem>| slot_view(o))
    }

    pub closed spec fn page_size_view(&self) -> usize {
        self.page_size
    }

    pub closed spec fn next_row_view(&self) -> usize {
        self.next_row
    }

    /// The layout invariant: no trailing empty slot.
    pub open spec fn wf(&self) -> bool {
        trim_closed(self.stems_view())
    }

    pub fn new(page_size: usize) -> (r: QueryState)
        ensures
            r.wf(),
            r.page_size_view() == page_size,
            r.next_row_view() == 0,
            r.stems_view() == Seq::<Option<StemView>>::empty(),
    {
        let r = QueryState { page_size, next_row: 0, stems: Vec::new() };
        assert(r.stems_view() =~= Seq::<Option<StemView>>::empty());
        r
    }

    pub fn page_size(&self) -> (r: usize)
        ensures
            r == self.page_size_view(),
    {
        self.page_size
    }

    pub fn next_row(&self) -> (r: usize)
        ensures
            r == self.next_row_view(),
    {
        self.next_row
    }

    /// Whether no stem is in flight.
    pub fn is_settled(&self) -> (r: bool)
        ensures
            r == (self.stems_view().len() == 0),
    {
        self.stems.len() == 0
    }

    /// Slot of the first stem that waits for `id`.
    fn find_stem_for_commit(&self, id: &CommitId) -> (r: Option<usize>)
        ensures
            r is Some <==> stem_slot(self.stems_view(), id.view()) < self.stems_view().len(),
            r is Some ==> r->0 == stem_slot(self.stems_view(), id.view()),
    {
        let ghost s = self.stems_view();
        let ghost p = |o: Option<StemView>| targets(o, id.view());
        let mut i: usize = 0;
        while i < self.stems.len()
            invariant
                s == self.stems_view(),
                p == (|o: Option<StemView>| targets(o, id.view())),
                i <= s.len(),
                forall|j: int| 0 <= j < i ==> !p(s[j]),
            decreases s.len() - i,
        {
            let hit = match &self.stems[i] {
                Some(stem) => stem.target.same_as(id),
                None => false,
            };
            if hit {
                proof {
                    lemma_first_where_found(s, p, i as int);
                }
                return Some(i);
            }
            i = i + 1;
        }
        proof {
            lemma_first_where_found(s, p, i as int);
        }
        None
    }

    /// The first empty slot.
    fn find_empty_slot(&self) -> (r: Option<usize>)
        ensures
            r is Some <==> empty_slot(self.stems_view()) < self.stems_view().len(),
            r is Some ==> r->0 == empty_slot(self.stems_view()),
    {
        let ghost s = self.stems_view();
        let ghost p = |o: Option<StemView>| is_empty_slot(o);
        let mut i: usize = 0;
        while i < self.stems.len()
            invariant
                s == self.stems_view(),
                p == (|o: Option<StemView>| is_empty_slot(o)),
                i <= s.len(),
                forall|j: int| 0 <= j < i ==> !p(s[j]),
            decreases s.len() - i,
        {
            if self.stems[i].is_none() {
                proof {
                    lemma_first_where_found(s, p, i as int);
                }
                return Some(i);
            }
            i = i + 1;
        }
        proof {
            lemma_first_where_found(s, p, i as int);
        }
        None
    }

    /// Drops the trailing empty slots.
    fn trim_stems(&mut self)
        ensures
            final(self).stems_view() == trimmed(old(self).stems_view()),
            final(self).page_size == old(self).page_size,
            final(self).next_row == old(self).next_row,
    {
        loop
            invariant
                trimmed(self.stems_view()) == trimmed(old(self).stems_view()),
                self.page_size == old(self).page_size,
                self.next_row == old(self).next_row,
            decreases self.stems@.len(),
        {
            let n = self.stems.len();
            if n == 0 || self.stems[n - 1].is_some() {
                return;
            }
            let ghost before = self.stems_view();
            self.stems.pop();
            assert(self.stems_view() =~= before.drop_last());
        }
    }

    /// Whether the node for `id` inherits immutability from the stem that
    /// ends at it, so that the immutability predicate need not be asked.
    pub fn inherits_immutability(&self, id: &CommitId) -> (r: bool)
        ensures
            r == inherited_immutable(self.stems_view(), id.view()),
    {
        match self.find_stem_for_commit(id) {
            Some(slot) => {
                proof {
                    lemma_first_where_bounds(self.stems_view(), |o: Option<StemView>| targets(o, id.view()));
                }
                match &self.stems[slot] {
                    Some(stem) => stem.known_immutable,
                    None => false,
                }
            },
            None => false,
        }
    }
}


impl QueryState {
    /// Lays out the next commit of the traversal and emits its row.
    ///
    /// `queried_immutable` is the immutability predicate's answer for `id`; it
    /// is used only when the commit does not inherit immutability from the
    /// stem that ends at it (see `inherits_immutability`).
    pub fn layout_row(&mut self, id: &CommitId, edges: &Vec<GraphEdge>, queried_immutable: bool, root: &CommitId) -> (r: LogRow)
        requires
            old(self).wf(),
            old(self).next_row_view() + 2 <= usize::MAX,
        ensures
            ({
                let s = old(self).stems_view();
                let row = old(self).next_row_view();
                let imm = inherited_immutable(s, id.view()) || queried_immutable;
                let ev = edges_view(edges@);
                &&& r.view() == (RowView {
                    commit: id.view(),
                    immutable: imm,
                    location: LogCoordinates(node_column(s, id.view()) as usize, row),
                    padding: node_padding(s, id.view()) as usize,
                    lines: step_lines(s, id.view(), ev, row, imm, root.view()),
                })
                &&& final(self).stems_view() == step_stems(s, id.view(), ev, row, imm, root.view())
                &&& final(self).next_row_view() == row + step_height(s, id.view(), ev, row, imm, root.view())
            }),
            final(self).wf(),
            final(self).page_size_view() == old(self).page_size_view(),
    {
        let row = self.next_row;
        let ghost s = self.stems_view();
        let ghost sid = id.view();
        let mut lines: Vec<LogLine> = Vec::new();
        let mut column: usize = self.stems.len();
        let mut padding: usize = 0;
        let mut stem_known_immutable = false;
        proof {
            lemma_first_where_bounds(s, |o: Option<StemView>| targets(o, sid));
            lemma_first_where_bounds(s, |o: Option<StemView>| is_empty_slot(o));
        }
        match self.find_stem_for_commit(id) {
            Some(slot) => {
                column = slot;
                padding = self.stems.len() - slot - 1;
                match &self.stems[slot] {
                    Some(t) => {
                        stem_known_immutable = t.known_immutable;
                        let target = LogCoordinates(slot, row);
                        if t.was_inserted {
                            lines.push(LogLine::FromNode { indirect: t.indirect, source: t.source, target });
                        } else {
                            lines.push(LogLine::ToNode { indirect: t.indirect, source: t.source, target });
                        }
                    },
                    None => {},
                }
                self.stems.set(slot, None);
                assert(self.stems_view() =~= s.update(slot as int, None));
            },
            None => {
                match self.find_empty_slot() {
                    Some(e) => {
                        column = e;
                        padding = self.stems.len() - e - 1;
                    },
                    None => {},
                }
            },
        }
        assert(lines@ =~= incoming_lines(s, sid, row));
        let immutable = if stem_known_immutable {
            true
        } else {
            queried_immutable
        };
        self.trim_stems();
        proof {
            lemma_trimmed(after_incoming(s, sid));
        }
        let at = LogCoordinates(column, row);
        let ghost ev = edges_view(edges@);
        let ghost init = EdgeAcc { stems: self.stems_view(), lines: lines@, missing: seq![] };
        let mut missing: Vec<usize> = Vec::new();
        let mut i: usize = 0;
        assert(pending_view(edges@, missing@) =~= Seq::<Seq<u8>>::empty());
        assert(ev.take(0) =~= Seq::<EdgeView>::empty());
        while i < edges.len()
            invariant
                i <= edges@.len(),
                ev == edges_view(edges@),
                row == old(self).next_row_view(),
                self.next_row == row,
                self.page_size == old(self).page_size,
                forall|k: int| 0 <= k < missing@.len() ==> #[trigger] missing@[k] < edges@.len(),
                (EdgeAcc { stems: self.stems_view(), lines: lines@, missing: pending_view(edges@, missing@) })
                    == edges_fold(init, ev.take(i as int), at, immutable, root.view()),
                trim_closed(self.stems_view()),
                row + 2 <= usize::MAX,
                at == LogCoordinates(column, row),
            decreases edges@.len() - i,
        {
            let ghost acc = EdgeAcc { stems: self.stems_view(), lines: lines@, missing: pending_view(edges@, missing@) };
            let ghost st = self.stems_view();
            assert(ev.take(i + 1).drop_last() =~= ev.take(i as int));
            assert(ev.take(i + 1).last() == edges@[i as int].view());
            assert(edges_fold(init, ev.take(i + 1), at, immutable, root.view())
                == edge_step(acc, edges@[i as int].view(), at, immutable, root.view()));
            let ghost next = edge_step(acc, edges@[i as int].view(), at, immutable, root.view());
            let e = &edges[i];
            let is_missing = match e.edge_type {
                GraphEdgeType::Missing => true,
                _ => false,
            };
            if is_missing && e.target.same_as(root) {
                i = i + 1;
            } else {
                if is_missing {
                    let ghost before = missing@;
                    missing.push(i);
                    assert(pending_view(edges@, missing@) =~= pending_view(edges@, before).push(edges@[i as int].target.view()));
                }
                let indirect = match e.edge_type {
                    GraphEdgeType::Direct => false,
                    _ => true,
                };
                proof {
                    lemma_first_where_bounds(st, |o: Option<StemView>| targets(o, e.target.view()));
                    lemma_first_where_bounds(st, |o: Option<StemView>| is_empty_slot(o));
                }
                match self.find_stem_for_commit(&e.target) {
                    Some(j) => {
                        lines.push(LogLine::ToIntersection { indirect, source: at, target: LogCoordinates(j, row + 1) });
                    },
                    None => {
                        match self.find_empty_slot() {
                            Some(f) => {
                                let stem = LogStem {
                                    source: at,
                                    target: e.target.duplicate(),
                                    indirect,
                                    was_inserted: true,
                                    known_immutable: immutable,
                                };
                                self.stems.set(f, Some(stem));
                                assert(self.stems_view() =~= st.update(f as int, Some(stem.view())));
                            },
                            None => {
                                let stem = LogStem {
                                    source: at,
                                    target: e.target.duplicate(),
                                    indirect,
                                    was_inserted: false,
                                    known_immutable: immutable,
                                };
                                self.stems.push(Some(stem));
                                assert(self.stems_view() =~= st.push(Some(stem.view())));
                            },
                        }
                    },
                }
                i = i + 1;
            }
        }
        assert(ev.take(edges@.len() as int) =~= ev);
        let ghost acc = edges_fold(init, ev, at, immutable, root.view());
        let ghost pend = acc.missing;
        let ghost c0 = CloseAcc { stems: acc.stems, lines: acc.lines, closed: false };
        let mut closed = false;
        let mut k: usize = 0;
        assert(pend.take(0) =~= Seq::<Seq<u8>>::empty());
        while k < missing.len()
            invariant
                k <= missing@.len(),
                pend == pending_view(edges@, missing@),
                forall|q: int| 0 <= q < missing@.len() ==> #[trigger] missing@[q] < edges@.len(),
                (CloseAcc { stems: self.stems_view(), lines: lines@, closed }) == close_fold(c0, pend.take(k as int), at),
                row == old(self).next_row_view(),
                self.next_row == row,
                self.page_size == old(self).page_size,
                row + 2 <= usize::MAX,
                at == LogCoordinates(column, row),
            decreases missing@.len() - k,
        {
            let ghost st = self.stems_view();
            let ghost c = CloseAcc { stems: st, lines: lines@, closed };
            assert(pend.take(k + 1).drop_last() =~= pend.take(k as int));
            assert(pend.take(k + 1).last() == edges@[missing@[k as int] as int].target.view());
            let target = &edges[missing[k]].target;
            proof {
                lemma_first_where_bounds(st, |o: Option<StemView>| targets(o, target.view()));
            }
            match self.find_stem_for_commit(target) {
                Some(j) => {
                    let indirect = match &self.stems[j] {
                        Some(t) => t.indirect,
                        None => false,
                    };
                    lines.push(LogLine::ToMissing { indirect, source: at, target: LogCoordinates(j, row + 1) });
                    self.stems.set(j, None);
                    assert(self.stems_view() =~= st.update(j as int, None));
                    closed = true;
                },
                None => {},
            }
            k = k + 1;
        }
        assert(pend.take(missing@.len() as int) =~= pend);
        let ghost closing = CloseAcc { stems: self.stems_view(), lines: lines@, closed };
        self.trim_stems();
        proof {
            lemma_trimmed(closing.stems);
        }
        let height: usize = if closed {
            2
        } else {
            1
        };
        self.next_row = row + height;
        LogRow { commit: id.duplicate(), immutable, location: at, padding, lines }
    }
}


/// Mathematical value of a traversal node.
pub struct NodeView {
    pub id: Seq<u8>,
    pub edges: Seq<EdgeView>,
}

impl GraphNode {
    pub open spec fn view(&self) -> NodeView {
        NodeView { id: self.id.view(), edges: edges_view(self.edges@) }
    }
}

pub open spec fn nodes_view(nodes: Seq<GraphNode>) -> Seq<NodeView> {
    nodes.map_values(|n: GraphNode| n.view())
}

/// Outcome of laying out a run of nodes: the rows, the stems left, the next
/// row index.
pub struct RunView {
    pub rows: Seq<RowView>,
    pub stems: Seq<Option<StemView>>,
    pub next_row: int,
}

/// Lays out `nodes` in order from stems `s` and row `row`, stopping before a
/// node once `max` rows are reached; `imm` holds the immutability predicate's
/// answer for each node.
pub open spec fn layout_run(
    s: Seq<Option<StemView>>,
    row: int,
    nodes: Seq<NodeView>,
    imm: Seq<bool>,
    root: Seq<u8>,
    max: int,
) -> RunView
    decreases nodes.len(),
{
    if nodes.len() == 0 || row >= max || imm.len() == 0 {
        RunView { rows: seq![], stems: s, next_row: row }
    } else {
        let n = nodes[0];
        let im = inherited_immutable(s, n.id) || imm[0];
        let rv = RowView {
            commit: n.id,
            immutable: im,
            location: LogCoordinates(node_column(s, n.id) as usize, row as usize),
            padding: node_padding(s, n.id) as usize,
            lines: step_lines(s, n.id, n.edges, row as usize, im, root),
        };
        let rest = layout_run(
            step_stems(s, n.id, n.edges, row as usize, im, root),
            row + step_height(s, n.id, n.edges, row as usize, im, root),
            nodes.drop_first(),
            imm.drop_first(),
            root,
            max,
        );
        RunView { rows: seq![rv] + rest.rows, stems: rest.stems, next_row: rest.next_row }
    }
}

pub open spec fn rows_view(rows: Seq<LogRow>) -> Seq<RowView> {
    rows.map_values(|r: LogRow| r.view())
}

/// Lays out one page of at most `max_results` rows from the start of a
/// traversal. `immutable[i]` is the immutability predicate's answer for
/// `nodes[i]`; it is used only where the node does not inherit immutability.
pub fn query_log(nodes: &Vec<GraphNode>, immutable: &Vec<bool>, root: &CommitId, max_results: usize) -> (r: LogPage)
    requires
        immutable@.len() == nodes@.len(),
        max_results <= usize::MAX - 2,
    ensures
        ({
            let run = layout_run(seq![], 0, nodes_view(nodes@), immutable@, root.view(), max_results as int);
            &&& rows_view(r.rows@) == run.rows
            &&& r.has_more == (run.rows.len() < nodes@.len())
        }),
{
    let ghost nv = nodes_view(nodes@);
    let ghost total = layout_run(seq![], 0, nv, immutable@, root.view(), max_results as int);
    let mut state = QueryState::new(max_results);
    let mut rows: Vec<LogRow> = Vec::new();
    let mut i: usize = 0;
    proof {
        assert(nv.skip(0) =~= nv);
        assert(immutable@.skip(0) =~= immutable@);
        assert(rows_view(rows@) + total.rows =~= total.rows);
    }
    while i < nodes.len() && state.next_row() < max_results
        invariant
            immutable@.len() == nodes@.len(),
            nv == nodes_view(nodes@),
            i <= nodes@.len(),
            state.wf(),
            state.page_size_view() == max_results,
            max_results <= usize::MAX - 2,
            rows@.len() == i,
            total == layout_run(seq![], 0, nv, immutable@, root.view(), max_results as int),
            ({
                let rest = layout_run(state.stems_view(), state.next_row_view() as int, nv.skip(i as int),
                    immutable@.skip(i as int), root.view(), max_results as int);
                &&& total.rows =~= rows_view(rows@) + rest.rows
                &&& total.stems == rest.stems
                &&& total.next_row == rest.next_row
            }),
        decreases nodes@.len() - i,
    {
        let ghost s = state.stems_view();
        let ghost row = state.next_row_view();
        let node = &nodes[i];
        let queried = immutable[i];
        let row_out = state.layout_row(&node.id, &node.edges, queried, root);
        proof {
            let rest_nodes = nv.skip(i as int);
            assert(rest_nodes[0] == node.view());
            assert(rest_nodes.drop_first() =~= nv.skip(i + 1));
            assert(immutable@.skip(i as int).drop_first() =~= immutable@.skip(i + 1));
            assert(immutable@.skip(i as int)[0] == queried);
        }
        let ghost old_rows = rows@;
        rows.push(row_out);
        i = i + 1;
        proof {
            assert(rows_view(rows@) =~= rows_view(old_rows) + seq![row_out.view()]);
            let rest = layout_run(state.stems_view(), state.next_row_view() as int, nv.skip(i as int),
                immutable@.skip(i as int), root.view(), max_results as int);
            assert(total.rows =~= rows_view(rows@) + rest.rows);
        }
    }
    proof {
        let rest = layout_run(state.stems_view(), state.next_row_view() as int, nv.skip(i as int),
            immutable@.skip(i as int), root.view(), max_results as int);
        assert(rest.rows.len() == 0);
        assert(total.rows =~= rows_view(rows@));
    }
    LogPage { rows, has_more: i < nodes.len() }
}

// ---------------------------------------------------------------------------
// Laws of the layout.

/// Whether some node of `nodes` has id `x`.
pub open spec fn has_id(nodes: Seq<NodeView>, x: Seq<u8>) -> bool {
    exists|j: int| 0 <= j < nodes.len() && (#[trigger] nodes[j]).id == x
}

/// A node's edges fit a topological traversal whose nodes after it are
/// `later`: every direct or indirect edge leads to a later node. Missing
/// edges may lead anywhere outside the traversal, as many as there are.
pub open spec fn node_edges_ok(n: NodeView, later: Seq<NodeView>, root: Seq<u8>) -> bool {
    forall|k: int| 0 <= k < n.edges.len() && (#[trigger] n.edges[k]).edge_type != GraphEdgeType::Missing
        ==> has_id(later, n.edges[k].target)
}

/// A traversal of a finite DAG in topological order, as the layout expects.
pub open spec fn traversal_ok(nodes: Seq<NodeView>, root: Seq<u8>) -> bool {
    forall|i: int| 0 <= i < nodes.len() ==> node_edges_ok(#[trigger] nodes[i], nodes.skip(i + 1), root)
}

/// No two stems wait for the same commit.
pub open spec fn targets_distinct(s: Seq<Option<StemView>>) -> bool {
    forall|a: int, b: int| 0 <= a < s.len() && 0 <= b < s.len() && (#[trigger] s[a]) is Some && (#[trigger] s[b]) is Some
        && s[a]->0.target == s[b]->0.target ==> a == b
}

/// Every stem waits for a node of `later`, or for one of `extra`.
pub open spec fn targets_within(s: Seq<Option<StemView>>, later: Seq<NodeView>, extra: Seq<Seq<u8>>) -> bool {
    forall|k: int| 0 <= k < s.len() && (#[trigger] s[k]) is Some ==> has_id(later, s[k]->0.target) || extra.contains(s[k]->0.target)
}

pub open spec fn stems_ok(s: Seq<Option<StemView>>, later: Seq<NodeView>) -> bool {
    &&& trim_closed(s)
    &&& targets_distinct(s)
    &&& targets_within(s, later, seq![])
}

proof fn lemma_slot_found(s: Seq<Option<StemView>>, x: Seq<u8>, k: int)
    requires
        0 <= k < s.len(),
        targets(s[k], x),
    ensures
        stem_slot(s, x) < s.len(),
        targets(s[stem_slot(s, x)], x),
{
    lemma_first_where_bounds(s, |o: Option<StemView>| targets(o, x));
}

proof fn lemma_trimmed_keeps(s: Seq<Option<StemView>>, later: Seq<NodeView>, extra: Seq<Seq<u8>>)
    requires
        targets_distinct(s),
        targets_within(s, later, extra),
    ensures
        targets_distinct(trimmed(s)),
        targets_within(trimmed(s), later, extra),
        trim_closed(trimmed(s)),
{
    lemma_trimmed(s);
    let t = trimmed(s);
    assert forall|k: int| 0 <= k < t.len() implies #[trigger] t[k] == s[k] by {}
}

/// Edge-fold invariant: stems distinct and waiting for later nodes or for
/// the missing targets recorded so far.
pub open spec fn fold_ok(acc: EdgeAcc, later: Seq<NodeView>) -> bool {
    &&& trim_closed(acc.stems)
    &&& targets_distinct(acc.stems)
    &&& targets_within(acc.stems, later, acc.missing)
}

proof fn lemma_edge_step_ok(acc: EdgeAcc, e: EdgeView, at: LogCoordinates, imm: bool, root: Seq<u8>, later: Seq<NodeView>)
    requires
        fold_ok(acc, later),
        e.edge_type != GraphEdgeType::Missing ==> has_id(later, e.target),
    ensures
        fold_ok(edge_step(acc, e, at, imm, root), later),
{
    let s = acc.stems;
    let r = edge_step(acc, e, at, imm, root);
    if e.edge_type == GraphEdgeType::Missing && e.target == root {
    } else {
        lemma_first_where_bounds(s, |o: Option<StemView>| targets(o, e.target));
        lemma_first_where_bounds(s, |o: Option<StemView>| is_empty_slot(o));
        let j = stem_slot(s, e.target);
        let f = empty_slot(s);
        assert forall|x: Seq<u8>| acc.missing.contains(x) implies r.missing.contains(x) by {
            if e.edge_type == GraphEdgeType::Missing {
                let q = choose|q: int| 0 <= q < acc.missing.len() && #[trigger] acc.missing[q] == x;
                assert(r.missing[q] == x);
            }
        }
        if e.edge_type == GraphEdgeType::Missing {
            assert(r.missing[r.missing.len() - 1] == e.target);
        }
        if j < s.len() {
            assert forall|k: int| 0 <= k < s.len() && (#[trigger] s[k]) is Some implies has_id(later, s[k]->0.target)
                || r.missing.contains(s[k]->0.target) by {}
        } else {
            assert forall|k: int| 0 <= k < s.len() implies !targets(#[trigger] s[k], e.target) by {}
            let t = r.stems;
            let nk = if f < s.len() { f } else { s.len() as int };
            assert(t.len() >= s.len());
            assert forall|k: int| 0 <= k < t.len() && k != nk implies #[trigger] t[k] == s[k] by {}
            assert(t[nk] is Some && t[nk]->0.target == e.target);
            assert forall|a: int, b: int| 0 <= a < t.len() && 0 <= b < t.len() && (#[trigger] t[a]) is Some && (#[trigger] t[b]) is Some
                && t[a]->0.target == t[b]->0.target implies a == b by {
                if a != nk && b != nk {
                    assert(s[a] == t[a] && s[b] == t[b]);
                } else if a == nk && b != nk {
                    assert(targets(s[b], e.target));
                } else if b == nk && a != nk {
                    assert(targets(s[a], e.target));
                }
            }
            assert forall|k: int| 0 <= k < t.len() && (#[trigger] t[k]) is Some implies has_id(later, t[k]->0.target)
                || r.missing.contains(t[k]->0.target) by {
                if k != nk {
                    assert(s[k] == t[k]);
                }
            }
            if s.len() > 0 {
                assert(t.last() is Some);
            }
        }
    }
}

proof fn lemma_edges_fold_ok(acc: EdgeAcc, edges: Seq<EdgeView>, at: LogCoordinates, imm: bool, root: Seq<u8>, n: NodeView, later: Seq<NodeView>)
    requires
        fold_ok(acc, later),
        edges.len() <= n.edges.len(),
        edges == n.edges.take(edges.len() as int),
        node_edges_ok(n, later, root),
    ensures
        fold_ok(edges_fold(acc, edges, at, imm, root), later),
    decreases edges.len(),
{
    if edges.len() > 0 {
        let k = edges.len() - 1;
        assert(edges.drop_last() == n.edges.take(k)) by {
            assert(edges.drop_last() =~= n.edges.take(k));
        }
        lemma_edges_fold_ok(acc, edges.drop_last(), at, imm, root, n, later);
        assert(edges.last() == n.edges[k]);
        lemma_edge_step_ok(edges_fold(acc, edges.drop_last(), at, imm, root), edges.last(), at, imm, root, later);
    }
}

/// Closing invariant: stems distinct and waiting for later nodes or for the
/// missing targets not closed yet.
proof fn lemma_close_fold_ok(c: CloseAcc, ms: Seq<Seq<u8>>, k: int, at: LogCoordinates, later: Seq<NodeView>)
    requires
        0 <= k <= ms.len(),
        targets_distinct(c.stems),
        targets_within(c.stems, later, ms),
    ensures
        targets_distinct(close_fold(c, ms.take(k), at).stems),
        targets_within(close_fold(c, ms.take(k), at).stems, later, ms.skip(k)),
    decreases k,
{
    if k == 0 {
        assert(ms.take(0) =~= Seq::<Seq<u8>>::empty());
        assert(ms.skip(0) =~= ms);
    } else {
        lemma_close_fold_ok(c, ms, k - 1, at, later);
        assert(ms.take(k).drop_last() =~= ms.take(k - 1));
        assert(ms.take(k).last() == ms[k - 1]);
        let p = close_fold(c, ms.take(k - 1), at);
        let t = p.stems;
        let m = ms[k - 1];
        lemma_first_where_bounds(t, |o: Option<StemView>| targets(o, m));
        let j = stem_slot(t, m);
        let u = close_fold(c, ms.take(k), at).stems;
        assert forall|x: Seq<u8>| ms.skip(k - 1).contains(x) && x != m implies ms.skip(k).contains(x) by {
            let q = choose|q: int| 0 <= q < ms.skip(k - 1).len() && #[trigger] ms.skip(k - 1)[q] == x;
            assert(q != 0);
            assert(ms.skip(k)[q - 1] == x);
        }
        if j < t.len() {
            assert forall|i: int| 0 <= i < u.len() && (#[trigger] u[i]) is Some implies has_id(later, u[i]->0.target)
                || ms.skip(k).contains(u[i]->0.target) by {
                assert(u[i] == t[i]);
                if t[i]->0.target == m {
                    assert(i == j);
                }
            }
            assert(targets_distinct(u)) by {
                assert forall|x: int, y: int| 0 <= x < u.len() && 0 <= y < u.len() && (#[trigger] u[x]) is Some && (#[trigger] u[y]) is Some
                    && u[x]->0.target == u[y]->0.target implies x == y by {
                    assert(t[x] == u[x] && t[y] == u[y]);
                }
            }
        } else {
            assert forall|i: int| 0 <= i < u.len() && (#[trigger] u[i]) is Some implies has_id(later, u[i]->0.target)
                || ms.skip(k).contains(u[i]->0.target) by {
                assert(!targets(t[i], m));
            }
        }
    }
}

proof fn lemma_step_ok(s: Seq<Option<StemView>>, n: NodeView, later: Seq<NodeView>, row: usize, imm: bool, root: Seq<u8>)
    requires
        stems_ok(s, seq![n] + later),
        node_edges_ok(n, later, root),
    ensures
        stems_ok(step_stems(s, n.id, n.edges, row, imm, root), later),
{
    let nodes = seq![n] + later;
    lemma_first_where_bounds(s, |o: Option<StemView>| targets(o, n.id));
    let a = after_incoming(s, n.id);
    assert forall|k: int| 0 <= k < a.len() && (#[trigger] a[k]) is Some implies has_id(later, a[k]->0.target) by {
        assert(s[k] == a[k]);
        let t = a[k]->0.target;
        let j = choose|j: int| 0 <= j < nodes.len() && (#[trigger] nodes[j]).id == t;
        if j == 0 {
            lemma_slot_found(s, n.id, k);
            assert(stem_slot(s, n.id) == k);
        } else {
            assert(later[j - 1] == nodes[j]);
        }
    }
    assert(targets_distinct(a)) by {
        assert forall|x: int, y: int| 0 <= x < a.len() && 0 <= y < a.len() && (#[trigger] a[x]) is Some && (#[trigger] a[y]) is Some
            && a[x]->0.target == a[y]->0.target implies x == y by {
            assert(s[x] == a[x] && s[y] == a[y]);
        }
    }
    lemma_trimmed_keeps(a, later, seq![]);
    let acc0 = EdgeAcc { stems: trimmed(a), lines: incoming_lines(s, n.id, row), missing: seq![] };
    assert(n.edges.take(n.edges.len() as int) =~= n.edges);
    lemma_edges_fold_ok(acc0, n.edges, LogCoordinates(node_column(s, n.id) as usize, row), imm, root, n, later);
    let acc = edges_result(s, n.id, n.edges, row, imm, root);
    let c0 = CloseAcc { stems: acc.stems, lines: acc.lines, closed: false };
    let at = LogCoordinates(node_column(s, n.id) as usize, row);
    lemma_close_fold_ok(c0, acc.missing, acc.missing.len() as int, at, later);
    assert(acc.missing.take(acc.missing.len() as int) =~= acc.missing);
    let u = step_closing(s, n.id, n.edges, row, imm, root).stems;
    assert forall|k: int| 0 <= k < u.len() && (#[trigger] u[k]) is Some implies has_id(later, u[k]->0.target)
        || Seq::<Seq<u8>>::empty().contains(u[k]->0.target) by {
        assert(acc.missing.skip(acc.missing.len() as int).len() == 0);
    }
    lemma_trimmed_keeps(u, later, seq![]);
}

/// Each row of a layout run shows the node of the traversal at the same
/// position, so every commit laid out appears in exactly one row; a run
/// that stops for the page size has emitted at least that many grid rows.
pub proof fn lemma_rows_follow_traversal(
    s: Seq<Option<StemView>>,
    row: int,
    nodes: Seq<NodeView>,
    imm: Seq<bool>,
    root: Seq<u8>,
    max: int,
)
    requires
        imm.len() == nodes.len(),
        0 <= row,
    ensures
        layout_run(s, row, nodes, imm, root, max).rows.len() <= nodes.len(),
        forall|k: int| 0 <= k < layout_run(s, row, nodes, imm, root, max).rows.len()
            ==> (#[trigger] layout_run(s, row, nodes, imm, root, max).rows[k]).commit == nodes[k].id,
        layout_run(s, row, nodes, imm, root, max).rows.len() < nodes.len() ==> layout_run(s, row, nodes, imm, root, max).next_row >= max,
    decreases nodes.len(),
{
    if nodes.len() > 0 && row < max {
        let n = nodes[0];
        let im = inherited_immutable(s, n.id) || imm[0];
        let s2 = step_stems(s, n.id, n.edges, row as usize, im, root);
        let row2 = row + step_height(s, n.id, n.edges, row as usize, im, root);
        lemma_rows_follow_traversal(s2, row2, nodes.drop_first(), imm.drop_first(), root, max);
        let run = layout_run(s, row, nodes, imm, root, max);
        let rest = layout_run(s2, row2, nodes.drop_first(), imm.drop_first(), root, max);
        assert forall|k: int| 0 <= k < run.rows.len() implies (#[trigger] run.rows[k]).commit == nodes[k].id by {
            if k > 0 {
                assert(run.rows[k] == rest.rows[k - 1]);
            }
        }
    }
}

/// Once a whole topological traversal of a finite DAG is laid out from an
/// empty layout, no stem is left in flight; after every row the stems never
/// end in an empty slot.
pub proof fn lemma_traversal_closes_all_stems(
    s: Seq<Option<StemView>>,
    row: int,
    nodes: Seq<NodeView>,
    imm: Seq<bool>,
    root: Seq<u8>,
    max: int,
)
    requires
        stems_ok(s, nodes),
        traversal_ok(nodes, root),
        imm.len() == nodes.len(),
        layout_run(s, row, nodes, imm, root, max).rows.len() == nodes.len(),
    ensures
        layout_run(s, row, nodes, imm, root, max).stems.len() == 0,
        trim_closed(layout_run(s, row, nodes, imm, root, max).stems),
    decreases nodes.len(),
{
    if nodes.len() == 0 {
        let t = s;
        if t.len() > 0 {
            assert(t.last() is Some);
            assert(!has_id(nodes, t.last()->0.target));
            assert(false);
        }
    } else {
        let n = nodes[0];
        let later = nodes.drop_first();
        assert(nodes =~= seq![n] + later);
        assert(node_edges_ok(nodes[0], nodes.skip(1), root));
        assert(nodes.skip(1) =~= later);
        let im = inherited_immutable(s, n.id) || imm[0];
        lemma_step_ok(s, n, later, row as usize, im, root);
        assert(traversal_ok(later, root)) by {
            assert forall|i: int| 0 <= i < later.len() implies node_edges_ok(#[trigger] later[i], later.skip(i + 1), root) by {
                assert(later[i] == nodes[i + 1]);
                assert(later.skip(i + 1) =~= nodes.skip(i + 2));
            }
        }
        let s2 = step_stems(s, n.id, n.edges, row as usize, im, root);
        let row2 = row + step_height(s, n.id, n.edges, row as usize, im, root);
        lemma_traversal_closes_all_stems(s2, row2, later, imm.drop_first(), root, max);
    }
}

/// A page laid out by `query_log` that covers a whole topological traversal
/// of a finite DAG leaves no stem in flight.
pub proof fn lemma_full_page_leaves_no_stem(nodes: Seq<NodeView>, imm: Seq<bool>, root: Seq<u8>, max: int)
    requires
        traversal_ok(nodes, root),
        imm.len() == nodes.len(),
        layout_run(seq![], 0, nodes, imm, root, max).rows.len() == nodes.len(),
    ensures
        layout_run(seq![], 0, nodes, imm, root, max).stems.len() == 0,
{
    let empty = Seq::<Option<StemView>>::empty();
    assert(stems_ok(empty, nodes));
    lemma_traversal_closes_all_stems(empty, 0, nodes, imm, root, max);
}

} // verus!
