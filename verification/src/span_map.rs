use std::collections::HashMap;
use vstd::prelude::*;

use crate::fingerprint::{svg_id, Fingerprint};
use crate::strings::{seq_contains, str_contains};
use crate::span_paths::{
    char_covers, child_tails, collect, finish, first_link, paths_end, paths_spec, region_tails, sorted_distinct,
    strictly_increasing, tag, text_tails, walk, Candidate, Step, lemma_insert_sorted, lemma_collect_err,
    lemma_first_link_stable, lemma_finish_err, lemma_walk_result, start_region, walk_ends,
};

verus! {

broadcast use vstd::std_specs::hash::group_hash_axioms;

/// A span in the source: an opaque number, where `1` marks a detached span
/// that points nowhere.
#[derive(Debug, Clone, Copy, PartialEq, Eq, Structural)]
pub struct SourceSpan(pub u64);

impl SourceSpan {
    /// The span that points nowhere.
    pub fn detached() -> (r: SourceSpan)
        ensures
            r.0 == 1,
    {
        SourceSpan(1)
    }

    /// Whether this span points nowhere.
    pub fn is_detached(self) -> (r: bool)
        ensures
            r == (self.0 == 1),
    {
        self.0 == 1
    }
}

/// A position in the source: a span and a byte offset into it.
#[derive(Debug, Clone, Copy, PartialEq, Eq, Structural)]
pub struct SourceSpanOffset {
    pub span: SourceSpan,
    pub offset: usize,
}

/// One step of a path through the rendered document: the kind of the
/// element, its index among its parent's children, and an optional
/// fingerprint id that it must match.
#[derive(Debug)]
pub struct ElementPoint {
    pub kind: u32,
    pub index: u32,
    pub fingerprint: String,
}

/// [`SourceNodeKind::Text`] or [`SourceNodeKind::Char`].
pub const SOURCE_MAPPING_TYPE_TEXT: u32 = 0;
/// [`SourceNodeKind::Group`].
pub const SOURCE_MAPPING_TYPE_GROUP: u32 = 1;
/// [`SourceNodeKind::Image`].
pub const SOURCE_MAPPING_TYPE_IMAGE: u32 = 2;
/// [`SourceNodeKind::Shape`].
pub const SOURCE_MAPPING_TYPE_SHAPE: u32 = 3;
/// [`SourceNodeKind::Page`].
pub const SOURCE_MAPPING_TYPE_PAGE: u32 = 4;
/// A glyph offset inside a text element.
pub const SOURCE_MAPPING_TYPE_CHAR_INDEX: u32 = 5;

/// What an element of the rendered document is, with the source spans it
/// came from.
#[derive(Debug)]
pub enum SourceNodeKind {
    Doc,
    Page { region: usize },
    Group { region: usize },
    Char((SourceSpan, u16)),
    Text(Vec<(SourceSpan, u16)>),
    Image(SourceSpan),
    Shape(SourceSpan),
}

/// An element of the rendered document: the region it belongs to, its
/// position among the region's elements, its kind and its fingerprint.
#[derive(Debug)]
pub struct SourceRegion {
    pub region: usize,
    pub idx: u32,
    pub kind: SourceNodeKind,
    pub item: Fingerprint,
}

/// A recorded fact about the document.
#[derive(Debug)]
enum RawSpanInfo {
    /// An element of a region.
    Region(SourceRegion),
    /// Region `x` holds region `y` as a page or group.
    XContainsY { x: usize, y: usize },
}

/// The model of an element's kind: spans as plain numbers.
pub enum KindModel {
    Doc,
    Page(usize),
    Group(usize),
    Char(u64, u16),
    Text(Seq<(u64, u16)>),
    Image(u64),
    Shape(u64),
}

/// The model of an element of a region: its position, kind and fingerprint.
pub type ChildModel = (usize, KindModel, Fingerprint);

/// The model of a recorded fact.
pub enum RawModel {
    Region(usize, ChildModel),
    Link(usize, usize),
}

/// What the recorded facts say about the document: the elements of each
/// region, the parent of each region, and the regions that each span
/// appears in.
pub struct InfoModel {
    pub children: Map<usize, Seq<ChildModel>>,
    pub parents: Map<usize, usize>,
    pub spans: Map<u64, Seq<usize>>,
}

pub open spec fn chars_model(cs: Seq<(SourceSpan, u16)>) -> Seq<(u64, u16)> {
    Seq::new(cs.len(), |i: int| (cs[i].0.0, cs[i].1))
}

pub open spec fn kind_model(k: SourceNodeKind) -> KindModel {
    match k {
        SourceNodeKind::Doc => KindModel::Doc,
        SourceNodeKind::Page { region } => KindModel::Page(region),
        SourceNodeKind::Group { region } => KindModel::Group(region),
        SourceNodeKind::Char((s, o)) => KindModel::Char(s.0, o),
        SourceNodeKind::Text(cs) => KindModel::Text(chars_model(cs@)),
        SourceNodeKind::Image(s) => KindModel::Image(s.0),
        SourceNodeKind::Shape(s) => KindModel::Shape(s.0),
    }
}

pub open spec fn child_model(c: (usize, SourceNodeKind, Fingerprint)) -> ChildModel {
    (c.0, kind_model(c.1), c.2)
}

pub open spec fn children_model(v: Seq<(usize, SourceNodeKind, Fingerprint)>) -> Seq<ChildModel> {
    Seq::new(v.len(), |i: int| child_model(v[i]))
}

/// The fact that records an element.
pub open spec fn region_model(reg: SourceRegion) -> RawModel {
    RawModel::Region(reg.region, (reg.idx as usize, kind_model(reg.kind), reg.item))
}

/// The spans that an element of this kind points into.
pub open spec fn spans_of(k: KindModel) -> Seq<u64> {
    match k {
        KindModel::Char(s, _) => seq![s],
        KindModel::Text(cs) => Seq::new(cs.len(), |i: int| cs[i].0),
        KindModel::Image(s) => seq![s],
        KindModel::Shape(s) => seq![s],
        _ => Seq::empty(),
    }
}

/// A map from keys to lists, read with a missing key as the empty list.
pub open spec fn list_at<K, V>(m: Map<K, Seq<V>>, k: K) -> Seq<V> {
    if m.contains_key(k) {
        m[k]
    } else {
        Seq::empty()
    }
}

/// Records region `r` under each of the spans `ss`, in order.
pub open spec fn add_spans(spans: Map<u64, Seq<usize>>, ss: Seq<u64>, r: usize) -> Map<u64, Seq<usize>>
    decreases ss.len(),
{
    if ss.len() == 0 {
        spans
    } else {
        let prev = add_spans(spans, ss.subrange(0, ss.len() - 1), r);
        let s = ss[ss.len() - 1];
        prev.insert(s, list_at(prev, s).push(r))
    }
}

/// Inserts `c` into the list `s`, which is ordered by position, after every
/// element whose position is not greater: the lists of elements are kept in
/// a stable order by position.
pub open spec fn insert_by_idx(s: Seq<ChildModel>, c: ChildModel) -> Seq<ChildModel>
    decreases s.len(),
{
    if s.len() == 0 {
        seq![c]
    } else if s[s.len() - 1].0 <= c.0 {
        s.push(c)
    } else {
        insert_by_idx(s.subrange(0, s.len() - 1), c).push(s[s.len() - 1])
    }
}

/// The document after one more recorded fact. A region's elements are kept
/// ordered by position, those at equal positions in the order they were
/// recorded.
pub open spec fn apply_raw(info: InfoModel, raw: RawModel) -> InfoModel {
    match raw {
        RawModel::Link(x, y) => InfoModel { parents: info.parents.insert(y, x), ..info },
        RawModel::Region(r, c) => InfoModel {
            children: info.children.insert(r, insert_by_idx(list_at(info.children, r), c)),
            spans: add_spans(info.spans, spans_of(c.1), r),
            ..info
        },
    }
}

/// The document that a sequence of recorded facts describes.
pub open spec fn build_info(log: Seq<RawModel>) -> InfoModel
    decreases log.len(),
{
    if log.len() == 0 {
        InfoModel { children: Map::empty(), parents: Map::empty(), spans: Map::empty() }
    } else {
        apply_raw(build_info(log.subrange(0, log.len() - 1)), log[log.len() - 1])
    }
}

/// The index at which [`insert_by_idx`] places `c`: after the last element
/// whose position is not greater.
pub open spec fn insert_pos(s: Seq<ChildModel>, c: ChildModel) -> int
    decreases s.len(),
{
    if s.len() == 0 {
        0
    } else if s[s.len() - 1].0 <= c.0 {
        s.len() as int
    } else {
        insert_pos(s.subrange(0, s.len() - 1), c)
    }
}

proof fn lemma_insert_by_idx(s: Seq<ChildModel>, c: ChildModel)
    ensures
        0 <= insert_pos(s, c) <= s.len(),
        insert_by_idx(s, c) == s.subrange(0, insert_pos(s, c)).push(c) + s.subrange(insert_pos(s, c), s.len() as int),
        forall|k: int| insert_pos(s, c) <= k < s.len() ==> #[trigger] s[k].0 > c.0,
        insert_pos(s, c) > 0 ==> s[insert_pos(s, c) - 1].0 <= c.0,
    decreases s.len(),
{
    if s.len() == 0 {
        assert(insert_by_idx(s, c) =~= s.subrange(0, 0).push(c) + s.subrange(0, 0));
    } else if s[s.len() - 1].0 <= c.0 {
        assert(insert_by_idx(s, c) =~= s.subrange(0, s.len() as int).push(c) + s.subrange(s.len() as int, s.len() as int));
    } else {
        let init = s.subrange(0, s.len() - 1);
        lemma_insert_by_idx(init, c);
        let p = insert_pos(init, c);
        assert(insert_by_idx(s, c) =~= s.subrange(0, p).push(c) + s.subrange(p, s.len() as int));
        assert forall|k: int| p <= k < s.len() implies #[trigger] s[k].0 > c.0 by {
            if k < s.len() - 1 {
                assert(s[k] == init[k]);
            }
        }
    }
}


/// Whether the elements of a region are ordered by position.
pub open spec fn sorted_by_pos(s: Seq<ChildModel>) -> bool {
    forall|i: int, j: int| 0 <= i < j < s.len() ==> (#[trigger] s[i]).0 <= (#[trigger] s[j]).0
}

/// Whether the elements of every region are ordered by position.
pub open spec fn regions_sorted(info: InfoModel) -> bool {
    forall|r: usize| #[trigger] info.children.contains_key(r) ==> sorted_by_pos(info.children[r])
}

proof fn lemma_insert_keeps_sorted(s: Seq<ChildModel>, c: ChildModel)
    requires
        sorted_by_pos(s),
    ensures
        sorted_by_pos(insert_by_idx(s, c)),
{
    lemma_insert_by_idx(s, c);
    let p = insert_pos(s, c);
    let t = insert_by_idx(s, c);
    assert forall|i: int| 0 <= i < t.len() implies #[trigger] t[i] == (if i < p {
        s[i]
    } else if i == p {
        c
    } else {
        s[i - 1]
    }) by {}
    assert forall|i: int, j: int| 0 <= i < j < t.len() implies (#[trigger] t[i]).0 <= (#[trigger] t[j]).0 by {
        assert(t[i] == (if i < p { s[i] } else if i == p { c } else { s[i - 1] }));
        assert(t[j] == (if j < p { s[j] } else if j == p { c } else { s[j - 1] }));
        if i < p && j == p {
            assert(s[i].0 <= s[p - 1].0);
        }
        if i == p && j > p {
            assert(s[j - 1].0 > c.0);
        }
    }
}

/// Every region's elements stay ordered by position as elements are
/// recorded, whatever order they are recorded in.
pub proof fn lemma_push_keeps_sorted(info: InfoModel, region: SourceRegion)
    requires
        regions_sorted(info),
    ensures
        regions_sorted(push_facts(info, region)),
{
    let with_link = match region.kind {
        SourceNodeKind::Page { region: ch } => apply_raw(info, RawModel::Link(region.region, ch)),
        SourceNodeKind::Group { region: ch } => apply_raw(info, RawModel::Link(region.region, ch)),
        _ => info,
    };
    assert(with_link.children == info.children);
    let r = region.region;
    let old_list = list_at(with_link.children, r);
    assert(sorted_by_pos(old_list));
    lemma_insert_keeps_sorted(old_list, (region.idx as usize, kind_model(region.kind), region.item));
}

/// A pass with nothing recorded has its regions ordered.
pub proof fn lemma_empty_sorted()
    ensures
        regions_sorted(empty_info()),
{
}

/// The collected facts about a document, indexed for queries.
#[derive(Debug)]
struct SpanInfo {
    /// The elements of each region, ordered by position.
    children: HashMap<usize, Vec<(usize, SourceNodeKind, Fingerprint)>>,
    /// The parent of each region.
    parents: HashMap<usize, usize>,
    /// The regions that each span appears in.
    span_indice: HashMap<u64, Vec<usize>>,
}

/// The model of an index: elements, parents and spans.
pub open spec fn info_of(
    children: Map<usize, Vec<(usize, SourceNodeKind, Fingerprint)>>,
    parents: Map<usize, usize>,
    spans: Map<u64, Vec<usize>>,
) -> InfoModel {
    InfoModel {
        children: Map::new(|r: usize| children.contains_key(r), |r: usize| children_model(children[r]@)),
        parents: parents,
        spans: Map::new(|s: u64| spans.contains_key(s), |s: u64| spans[s]@),
    }
}

/// The model of an empty index.
pub open spec fn empty_info() -> InfoModel {
    InfoModel { children: Map::empty(), parents: Map::empty(), spans: Map::empty() }
}

impl SpanInfo {
    spec fn model(&self) -> InfoModel {
        info_of(self.children@, self.parents@, self.span_indice@)
    }

    fn new() -> (r: SpanInfo)
        ensures
            r.model() == empty_info(),
    {
        let r = SpanInfo { children: HashMap::new(), parents: HashMap::new(), span_indice: HashMap::new() };
        assert(r.model().children =~= Map::<usize, Seq<ChildModel>>::empty());
        assert(r.model().spans =~= Map::<u64, Seq<usize>>::empty());
        r
    }

    /// Records that region `r` appears under span `s`.
    fn add_span(&mut self, s: u64, r: usize)
        ensures
            final(self).model() == (InfoModel {
                spans: old(self).model().spans.insert(s, list_at(old(self).model().spans, s).push(r)),
                ..old(self).model()
            }),
    {
        let mut v = match self.span_indice.remove(&s) {
            Some(v) => v,
            None => Vec::new(),
        };
        v.push(r);
        self.span_indice.insert(s, v);
        assert(self.model().spans =~= old(self).model().spans.insert(s, list_at(old(self).model().spans, s).push(r)));
        assert(self.model().children =~= old(self).model().children);
    }

    /// Inserts an element into region `r`, keeping the region ordered.
    fn insert_child(&mut self, r: usize, c: (usize, SourceNodeKind, Fingerprint))
        ensures
            final(self).model() == (InfoModel {
                children: old(self).model().children.insert(
                    r,
                    insert_by_idx(list_at(old(self).model().children, r), child_model(c)),
                ),
                ..old(self).model()
            }),
    {
        let mut v = match self.children.remove(&r) {
            Some(v) => v,
            None => Vec::new(),
        };
        let ghost before = children_model(v@);
        assert(before == list_at(old(self).model().children, r));
        let mut pos = v.len();
        while pos > 0 && v[pos - 1].0 > c.0
            invariant
                pos <= v@.len(),
                before == children_model(v@),
                forall|k: int| pos <= k < v@.len() ==> #[trigger] v@[k].0 > c.0,
            decreases pos,
        {
            pos = pos - 1;
        }
        proof {
            lemma_insert_by_idx(before, child_model(c));
            lemma_insert_pos_unique(before, child_model(c), pos as int);
        }
        let ghost cm = child_model(c);
        v.insert(pos, c);
        assert(children_model(v@) =~= before.subrange(0, pos as int).push(cm) + before.subrange(pos as int, before.len() as int));
        self.children.insert(r, v);
        assert(self.model().children =~= old(self).model().children.insert(r, insert_by_idx(before, cm)));
        assert(self.model().spans =~= old(self).model().spans);
    }
}

/// The spans that an element of this kind points into.
fn kind_spans(k: &SourceNodeKind) -> (r: Vec<u64>)
    ensures
        r@ == spans_of(kind_model(*k)),
{
    let mut r: Vec<u64> = Vec::new();
    match k {
        SourceNodeKind::Char((s, _)) => r.push(s.0),
        SourceNodeKind::Text(cs) => {
            let mut i: usize = 0;
            while i < cs.len()
                invariant
                    i <= cs@.len(),
                    r@.len() == i,
                    forall|j: int| 0 <= j < i ==> #[trigger] r@[j] == cs@[j].0.0,
                decreases cs@.len() - i,
            {
                r.push(cs[i].0.0);
                i = i + 1;
            }
        },
        SourceNodeKind::Image(s) => r.push(s.0),
        SourceNodeKind::Shape(s) => r.push(s.0),
        _ => {},
    }
    assert(r@ =~= spans_of(kind_model(*k)));
    r
}

impl SpanInfo {
    /// Records an element of the document.
    fn add_region(&mut self, region: SourceRegion)
        ensures
            final(self).model() == apply_raw(old(self).model(), region_model(region)),
    {
        let ss = kind_spans(&region.kind);
        let ghost start = self.model();
        assert(ss@.subrange(0, 0) =~= Seq::<u64>::empty());
        let mut i: usize = 0;
        while i < ss.len()
            invariant
                i <= ss@.len(),
                self.model() == (InfoModel {
                    spans: add_spans(start.spans, ss@.subrange(0, i as int), region.region),
                    ..start
                }),
            decreases ss@.len() - i,
        {
            assert(ss@.subrange(0, i as int + 1).subrange(0, i as int) =~= ss@.subrange(0, i as int));
            self.add_span(ss[i], region.region);
            i = i + 1;
        }
        assert(ss@.subrange(0, ss@.len() as int) =~= ss@);
        let SourceRegion { region: r, idx, kind, item } = region;
        self.insert_child(r, (idx as usize, kind, item));
    }

    /// Records that region `x` holds region `y`.
    fn add_link(&mut self, x: usize, y: usize)
        ensures
            final(self).model() == apply_raw(old(self).model(), RawModel::Link(x, y)),
    {
        self.parents.insert(y, x);
        assert(self.model().children =~= old(self).model().children);
        assert(self.model().spans =~= old(self).model().spans);
    }
}

/// The state of the span pass: the region counter, the root region of the
/// document, the facts collected so far, and the index that the first query
/// built from them.
pub struct PassModel {
    pub debug_info: bool,
    pub region_cnt: usize,
    pub doc_region: usize,
    pub collected: InfoModel,
    pub tree: Option<InfoModel>,
}

/// The index that queries read: the one built by an earlier query, or else
/// the facts collected so far.
pub open spec fn queried_info(m: PassModel) -> InfoModel {
    match m.tree {
        Some(t) => t,
        None => m.collected,
    }
}

/// The state after a query: the index is built from what was collected,
/// which is then emptied.
pub open spec fn after_init(m: PassModel) -> PassModel {
    PassModel {
        tree: Some(queried_info(m)),
        collected: match m.tree {
            None => empty_info(),
            Some(_) => m.collected,
        },
        ..m
    }
}

/// The first query freezes the index: later queries read the same index,
/// and leave the pass as the first one left it.
pub proof fn lemma_queries_freeze_index(m: PassModel)
    ensures
        queried_info(after_init(m)) == queried_info(m),
        after_init(after_init(m)) == after_init(m),
{
}

/// The facts recorded for an element: a region that holds a page or group
/// first records that it holds it, then the element itself.
pub open spec fn push_facts(info: InfoModel, region: SourceRegion) -> InfoModel {
    let with_link = match region.kind {
        SourceNodeKind::Page { region: ch } => apply_raw(info, RawModel::Link(region.region, ch)),
        SourceNodeKind::Group { region: ch } => apply_raw(info, RawModel::Link(region.region, ch)),
        _ => info,
    };
    apply_raw(with_link, region_model(region))
}

/// Maps rendered elements back to source spans and source spans to
/// rendered elements.
#[derive(Debug)]
pub struct Span2VecPass {
    should_attach_debug_info: bool,
    region_cnt: usize,
    doc_region: usize,
    span_tree: Option<SpanInfo>,
    collector: SpanInfo,
}

impl View for Span2VecPass {
    type V = PassModel;

    closed spec fn view(&self) -> PassModel {
        PassModel {
            debug_info: self.should_attach_debug_info,
            region_cnt: self.region_cnt,
            doc_region: self.doc_region,
            collected: self.collector.model(),
            tree: match self.span_tree {
                Some(t) => Some(t.model()),
                None => None,
            },
        }
    }
}

impl Span2VecPass {
    /// A pass with nothing collected.
    pub fn new() -> (r: Span2VecPass)
        ensures
            r@ == (PassModel { debug_info: false, region_cnt: 0, doc_region: 0, collected: empty_info(), tree: None }),
    {
        Span2VecPass {
            should_attach_debug_info: false,
            region_cnt: 0,
            doc_region: 0,
            span_tree: None,
            collector: SpanInfo::new(),
        }
    }

    pub fn set_should_attach_debug_info(&mut self, should_attach_debug_info: bool)
        ensures
            final(self)@ == (PassModel { debug_info: should_attach_debug_info, ..old(self)@ }),
    {
        self.should_attach_debug_info = should_attach_debug_info;
    }

    /// Whether debug info is attached to the spans.
    pub fn should_attach_debug_info(&self) -> (r: bool)
        ensures
            r == self@.debug_info,
    {
        self.should_attach_debug_info
    }

    /// The region of the document's root, or `0` before it is known.
    pub fn doc_region(&self) -> (r: usize)
        ensures
            r == self@.doc_region,
    {
        self.doc_region
    }

    /// Sets the region of the document's root, from which element paths
    /// start.
    pub fn set_doc_region(&mut self, doc_region: usize)
        ensures
            final(self)@ == (PassModel { doc_region, ..old(self)@ }),
    {
        self.doc_region = doc_region;
    }

    /// Forgets everything collected; the next region allocated is `1`.
    pub fn reset(&mut self)
        ensures
            final(self)@ == (PassModel {
                debug_info: old(self)@.debug_info,
                region_cnt: 1,
                doc_region: 0,
                collected: empty_info(),
                tree: None,
            }),
    {
        self.region_cnt = 1;
        self.collector = SpanInfo::new();
        self.span_tree = None;
        self.doc_region = 0;
    }

    /// Allocates a region: returns the counter and advances it, wrapping
    /// around at the top.
    pub fn start(&mut self) -> (r: usize)
        ensures
            r == old(self)@.region_cnt,
            final(self)@ == (PassModel {
                region_cnt: if r == usize::MAX {
                    0
                } else {
                    (r + 1) as usize
                },
                ..old(self)@
            }),
    {
        let r = self.region_cnt;
        self.region_cnt = if r == usize::MAX {
            0
        } else {
            r + 1
        };
        r
    }

    /// Records an element of the rendered document.
    pub fn push_span(&mut self, region: SourceRegion)
        ensures
            final(self)@ == (PassModel { collected: push_facts(old(self)@.collected, region), ..old(self)@ }),
    {
        match &region.kind {
            SourceNodeKind::Page { region: ch } => self.collector.add_link(region.region, *ch),
            SourceNodeKind::Group { region: ch } => self.collector.add_link(region.region, *ch),
            _ => {},
        }
        self.collector.add_region(region);
    }

    /// Builds the index from what was collected, on the first query.
    fn ensure_tree(&mut self)
        ensures
            final(self).span_tree is Some,
            final(self)@ == after_init(old(self)@),
            final(self).doc_region == old(self).doc_region,
    {
        if self.span_tree.is_none() {
            let mut collected = SpanInfo::new();
            core::mem::swap(&mut collected, &mut self.collector);
            self.span_tree = Some(collected);
        }
    }
}

/// Why a span query failed.
#[derive(Debug, Clone, Copy, PartialEq, Eq)]
pub enum SpanError {
    /// The index has not been built.
    SpanInfoNotInitialized,
    /// No root region of the document has been set.
    DocNotInitialized,
    /// A region that a span appears in has no elements.
    RelatedRegionNotFound(usize),
    /// A region on the way up to the root has no parent.
    ParentNotFound(usize),
    /// A parent region has no elements.
    RegionChildrenNotFound(usize),
    /// A region or element on the path does not exist.
    NotFound,
    /// A page or group on the path leads to a region without elements.
    RegionNotFound,
    /// An element's fingerprint does not match the one on the path.
    FingerprintMismatch,
    /// An element is not of the kind the path says.
    NodeTypeMismatch,
}

/// A step of a path, as plain values.
pub open spec fn point_model(p: ElementPoint) -> (u32, u32, Seq<char>) {
    (p.kind, p.index, p.fingerprint@)
}

/// A source position from a span and a byte offset.
pub open spec fn offset_of(c: (u64, u16)) -> SourceSpanOffset {
    SourceSpanOffset { span: SourceSpan(c.0), offset: c.1 as usize }
}

/// The first character of a text whose span is attached.
pub open spec fn first_attached(cs: Seq<(u64, u16)>) -> Option<(u64, u16)>
    decreases cs.len(),
{
    if cs.len() == 0 {
        None
    } else if cs[0].0 != 1 {
        Some(cs[0])
    } else {
        first_attached(cs.subrange(1, cs.len() as int))
    }
}

/// The last character of a text whose span is attached.
pub open spec fn last_attached(cs: Seq<(u64, u16)>) -> Option<(u64, u16)>
    decreases cs.len(),
{
    if cs.len() == 0 {
        None
    } else if cs[cs.len() - 1].0 != 1 {
        Some(cs[cs.len() - 1])
    } else {
        last_attached(cs.subrange(0, cs.len() - 1))
    }
}

/// Where a query stands while it follows a path: the region whose elements
/// the next step indexes, the source range found so far, and the characters
/// of the last text element reached.
pub struct QueryState {
    pub region: usize,
    pub candidate: Option<(SourceSpanOffset, SourceSpanOffset)>,
    pub text: Option<Seq<(u64, u16)>>,
}

/// One step of a query.
pub open spec fn query_step(info: InfoModel, st: QueryState, p: (u32, u32, Seq<char>)) -> Result<QueryState, SpanError> {
    let (kind, index, fg) = p;
    if kind == SOURCE_MAPPING_TYPE_CHAR_INDEX {
        match st.text {
            Some(cs) => if (index as int) < cs.len() && cs[index as int].0 != 1 {
                Ok(QueryState { candidate: Some((offset_of(cs[index as int]), offset_of(cs[index as int]))), ..st })
            } else {
                Ok(st)
            },
            None => Ok(st),
        }
    } else {
        let list = list_at(info.children, st.region);
        if index as int >= list.len() {
            Err(SpanError::NotFound)
        } else {
            let ch = list[index as int];
            if fg.len() > 0 && !seq_contains(fg, svg_id(ch.2, Seq::empty())) {
                Err(SpanError::FingerprintMismatch)
            } else {
                match ch.1 {
                    KindModel::Page(r) => if kind == SOURCE_MAPPING_TYPE_PAGE {
                        if info.children.contains_key(r) {
                            Ok(QueryState { region: r, text: None, ..st })
                        } else {
                            Err(SpanError::RegionNotFound)
                        }
                    } else {
                        Err(SpanError::NodeTypeMismatch)
                    },
                    KindModel::Group(r) => if kind == SOURCE_MAPPING_TYPE_GROUP {
                        if info.children.contains_key(r) {
                            Ok(QueryState { region: r, text: None, ..st })
                        } else {
                            Err(SpanError::RegionNotFound)
                        }
                    } else {
                        Err(SpanError::NodeTypeMismatch)
                    },
                    KindModel::Char(sp, o) => if kind == SOURCE_MAPPING_TYPE_TEXT {
                        Ok(QueryState {
                            candidate: if sp != 1 {
                                Some((offset_of((sp, o)), offset_of((sp, o))))
                            } else {
                                None
                            },
                            text: Some(seq![(sp, o)]),
                            ..st
                        })
                    } else {
                        Err(SpanError::NodeTypeMismatch)
                    },
                    KindModel::Text(cs) => if kind == SOURCE_MAPPING_TYPE_TEXT {
                        Ok(QueryState {
                            candidate: match (first_attached(cs), last_attached(cs)) {
                                (Some(a), Some(b)) => Some((offset_of(a), offset_of(b))),
                                _ => None,
                            },
                            text: Some(cs),
                            ..st
                        })
                    } else {
                        Err(SpanError::NodeTypeMismatch)
                    },
                    KindModel::Image(sp) => if kind == SOURCE_MAPPING_TYPE_IMAGE {
                        Ok(QueryState { candidate: Some((offset_of((sp, 0)), offset_of((sp, 0)))), text: None, ..st })
                    } else {
                        Err(SpanError::NodeTypeMismatch)
                    },
                    KindModel::Shape(sp) => if kind == SOURCE_MAPPING_TYPE_SHAPE {
                        Ok(QueryState { candidate: Some((offset_of((sp, 0)), offset_of((sp, 0)))), text: None, ..st })
                    } else {
                        Err(SpanError::NodeTypeMismatch)
                    },
                    KindModel::Doc => Err(SpanError::NodeTypeMismatch),
                }
            }
        }
    }
}

/// A query after following the steps of `path` in order, stopping at the
/// first failing step.
pub open spec fn query_fold(info: InfoModel, st: QueryState, path: Seq<(u32, u32, Seq<char>)>) -> Result<QueryState, SpanError>
    decreases path.len(),
{
    if path.len() == 0 {
        Ok(st)
    } else {
        match query_fold(info, st, path.subrange(0, path.len() - 1)) {
            Ok(s) => query_step(info, s, path[path.len() - 1]),
            Err(e) => Err(e),
        }
    }
}

/// The source range that a path through the rendered document leads to.
pub open spec fn query_spec(info: InfoModel, doc: usize, path: Seq<(u32, u32, Seq<char>)>) -> Result<Option<(SourceSpanOffset, SourceSpanOffset)>, SpanError> {
    if doc == 0 {
        Err(SpanError::DocNotInitialized)
    } else if !info.children.contains_key(doc) {
        Err(SpanError::NotFound)
    } else {
        match query_fold(info, QueryState { region: doc, candidate: None, text: None }, path) {
            Ok(st) => Ok(st.candidate),
            Err(e) => Err(e),
        }
    }
}

/// The steps of a path, as plain values.
pub open spec fn path_model(path: Seq<ElementPoint>) -> Seq<(u32, u32, Seq<char>)> {
    Seq::new(path.len(), |i: int| point_model(path[i]))
}

/// The characters of the last text element reached, as plain values.
pub open spec fn opt_chars(t: Option<Vec<(SourceSpan, u16)>>) -> Option<Seq<(u64, u16)>> {
    match t {
        Some(cs) => Some(chars_model(cs@)),
        None => None,
    }
}

/// A copy of the characters of a text element.
fn clone_chars(cs: &Vec<(SourceSpan, u16)>) -> (r: Vec<(SourceSpan, u16)>)
    ensures
        chars_model(r@) == chars_model(cs@),
{
    let mut r: Vec<(SourceSpan, u16)> = Vec::new();
    let mut i: usize = 0;
    while i < cs.len()
        invariant
            i <= cs@.len(),
            r@.len() == i,
            forall|j: int| 0 <= j < i ==> #[trigger] r@[j] == cs@[j],
        decreases cs@.len() - i,
    {
        r.push(cs[i]);
        i = i + 1;
    }
    assert(chars_model(r@) =~= chars_model(cs@));
    r
}

fn find_first_attached(cs: &Vec<(SourceSpan, u16)>) -> (r: Option<(SourceSpan, u16)>)
    ensures
        match r {
            Some(c) => first_attached(chars_model(cs@)) == Some((c.0.0, c.1)),
            None => first_attached(chars_model(cs@)) is None,
        },
{
    let ghost m = chars_model(cs@);
    assert(m.subrange(0, m.len() as int) =~= m);
    let mut i: usize = 0;
    while i < cs.len()
        invariant
            i <= cs@.len(),
            m == chars_model(cs@),
            first_attached(m) == first_attached(m.subrange(i as int, m.len() as int)),
        decreases cs@.len() - i,
    {
        let ghost rest = m.subrange(i as int, m.len() as int);
        assert(rest[0] == m[i as int]);
        if !cs[i].0.is_detached() {
            return Some(cs[i]);
        }
        assert(rest.subrange(1, rest.len() as int) =~= m.subrange(i + 1, m.len() as int));
        i = i + 1;
    }
    None
}

fn find_last_attached(cs: &Vec<(SourceSpan, u16)>) -> (r: Option<(SourceSpan, u16)>)
    ensures
        match r {
            Some(c) => last_attached(chars_model(cs@)) == Some((c.0.0, c.1)),
            None => last_attached(chars_model(cs@)) is None,
        },
{
    let ghost m = chars_model(cs@);
    assert(m.subrange(0, m.len() as int) =~= m);
    let mut i: usize = cs.len();
    while i > 0
        invariant
            i <= cs@.len(),
            m == chars_model(cs@),
            last_attached(m) == last_attached(m.subrange(0, i as int)),
        decreases i,
    {
        let ghost rest = m.subrange(0, i as int);
        assert(rest[i - 1] == m[i - 1]);
        if !cs[i - 1].0.is_detached() {
            return Some(cs[i - 1]);
        }
        assert(rest.subrange(0, rest.len() - 1) =~= m.subrange(0, i - 1));
        i = i - 1;
    }
    None
}

impl Span2VecPass {
    /// Follows a path of elements from the root of the document and returns
    /// the source range that it ends at: the spans of the last character,
    /// text, image or shape reached, if any.
    pub fn query(&mut self, path: &[ElementPoint]) -> (r: Result<Option<(SourceSpanOffset, SourceSpanOffset)>, SpanError>)
        ensures
            final(self)@ == after_init(old(self)@),
            r == query_spec(queried_info(old(self)@), old(self)@.doc_region, path_model(path@)),
    {
        self.ensure_tree();
        let doc_region = self.doc_region;
        if doc_region == 0 {
            return Err(SpanError::DocNotInitialized);
        }
        let info = match &self.span_tree {
            Some(t) => t,
            None => return Err(SpanError::SpanInfoNotInitialized),
        };
        let ghost im = info.model();
        let ghost pm = path_model(path@);
        if !info.children.contains_key(&doc_region) {
            return Err(SpanError::NotFound);
        }
        let ghost st0 = QueryState { region: doc_region, candidate: None, text: None };
        let mut region = doc_region;
        let mut candidate: Option<(SourceSpanOffset, SourceSpanOffset)> = None;
        let mut text: Option<Vec<(SourceSpan, u16)>> = None;
        proof {
            reveal_strlit("");
            assert(pm.subrange(0, 0) =~= Seq::<(u32, u32, Seq<char>)>::empty());
        }
        let mut i: usize = 0;
        while i < path.len()
            invariant
                i <= path@.len(),
                im == info.model(),
                im == queried_info(old(self)@),
                self@ == after_init(old(self)@),
                doc_region == old(self)@.doc_region,
                doc_region != 0,
                im.children.contains_key(doc_region),
                pm == path_model(path@),
                ""@ == Seq::<char>::empty(),
                st0 == (QueryState { region: doc_region, candidate: None, text: None }),
                query_fold(im, st0, pm.subrange(0, i as int))
                    == Ok::<QueryState, SpanError>(QueryState {
                        region,
                        candidate,
                        text: opt_chars(text),
                    }),
            decreases path@.len() - i,
        {
            let p = &path[i];
            let ghost st = QueryState {
                region,
                candidate,
                text: opt_chars(text),
            };
            proof {
                assert(pm.subrange(0, i as int + 1).subrange(0, i as int) =~= pm.subrange(0, i as int));
                assert(pm[i as int] == point_model(*p));
            }
            if p.kind == SOURCE_MAPPING_TYPE_CHAR_INDEX {
                match &text {
                    Some(cs) => {
                        let idx = p.index as usize;
                        if idx < cs.len() {
                            let c = cs[idx];
                            if !c.0.is_detached() {
                                let o = SourceSpanOffset { span: c.0, offset: c.1 as usize };
                                candidate = Some((o, o));
                            }
                        }
                    },
                    None => {},
                }
                i = i + 1;
                continue;
            }
            text = None;
            let list = match info.children.get(&region) {
                Some(l) => l,
                None => {
                    proof {
                        assert(list_at(im.children, region) =~= Seq::<ChildModel>::empty());
                        lemma_step_err(im, st0, pm, i as int, st, SpanError::NotFound);
                    }
                    return Err(SpanError::NotFound);
                },
            };
            let idx = p.index as usize;
            if idx >= list.len() {
                proof {
                    lemma_step_err(im, st0, pm, i as int, st, SpanError::NotFound);
                }
                return Err(SpanError::NotFound);
            }
            let ch = &list[idx];
            proof {
                assert(list_at(im.children, region) == children_model(list@));
                assert(list_at(im.children, region)[idx as int] == child_model(*ch));
            }
            if !p.fingerprint.as_str().is_empty() {
                let id = ch.2.as_svg_id("");
                if !str_contains(p.fingerprint.as_str(), id.as_str()) {
                    proof {
                        lemma_step_err(im, st0, pm, i as int, st, SpanError::FingerprintMismatch);
                    }
                    return Err(SpanError::FingerprintMismatch);
                }
            }
            match &ch.1 {
                SourceNodeKind::Page { region: r } => {
                    if p.kind != SOURCE_MAPPING_TYPE_PAGE {
                        proof {
                            lemma_step_err(im, st0, pm, i as int, st, SpanError::NodeTypeMismatch);
                        }
                        return Err(SpanError::NodeTypeMismatch);
                    }
                    if !info.children.contains_key(r) {
                        proof {
                            lemma_step_err(im, st0, pm, i as int, st, SpanError::RegionNotFound);
                        }
                        return Err(SpanError::RegionNotFound);
                    }
                    region = *r;
                },
                SourceNodeKind::Group { region: r } => {
                    if p.kind != SOURCE_MAPPING_TYPE_GROUP {
                        proof {
                            lemma_step_err(im, st0, pm, i as int, st, SpanError::NodeTypeMismatch);
                        }
                        return Err(SpanError::NodeTypeMismatch);
                    }
                    if !info.children.contains_key(r) {
                        proof {
                            lemma_step_err(im, st0, pm, i as int, st, SpanError::RegionNotFound);
                        }
                        return Err(SpanError::RegionNotFound);
                    }
                    region = *r;
                },
                SourceNodeKind::Char(c) => {
                    if p.kind != SOURCE_MAPPING_TYPE_TEXT {
                        proof {
                            lemma_step_err(im, st0, pm, i as int, st, SpanError::NodeTypeMismatch);
                        }
                        return Err(SpanError::NodeTypeMismatch);
                    }
                    let c = *c;
                    candidate = if !c.0.is_detached() {
                        let o = SourceSpanOffset { span: c.0, offset: c.1 as usize };
                        Some((o, o))
                    } else {
                        None
                    };
                    let mut one: Vec<(SourceSpan, u16)> = Vec::new();
                    one.push(c);
                    proof {
                        assert(chars_model(one@) =~= seq![(c.0.0, c.1)]);
                    }
                    text = Some(one);
                },
                SourceNodeKind::Text(cs) => {
                    if p.kind != SOURCE_MAPPING_TYPE_TEXT {
                        proof {
                            lemma_step_err(im, st0, pm, i as int, st, SpanError::NodeTypeMismatch);
                        }
                        return Err(SpanError::NodeTypeMismatch);
                    }
                    let first = find_first_attached(cs);
                    let last = find_last_attached(cs);
                    candidate = match (first, last) {
                        (Some(a), Some(b)) => Some((
                            SourceSpanOffset { span: a.0, offset: a.1 as usize },
                            SourceSpanOffset { span: b.0, offset: b.1 as usize },
                        )),
                        _ => None,
                    };
                    text = Some(clone_chars(cs));
                },
                SourceNodeKind::Image(sp) => {
                    if p.kind != SOURCE_MAPPING_TYPE_IMAGE {
                        proof {
                            lemma_step_err(im, st0, pm, i as int, st, SpanError::NodeTypeMismatch);
                        }
                        return Err(SpanError::NodeTypeMismatch);
                    }
                    let o = SourceSpanOffset { span: *sp, offset: 0 };
                    candidate = Some((o, o));
                },
                SourceNodeKind::Shape(sp) => {
                    if p.kind != SOURCE_MAPPING_TYPE_SHAPE {
                        proof {
                            lemma_step_err(im, st0, pm, i as int, st, SpanError::NodeTypeMismatch);
                        }
                        return Err(SpanError::NodeTypeMismatch);
                    }
                    let o = SourceSpanOffset { span: *sp, offset: 0 };
                    candidate = Some((o, o));
                },
                SourceNodeKind::Doc => {
                    proof {
                        lemma_step_err(im, st0, pm, i as int, st, SpanError::NodeTypeMismatch);
                    }
                    return Err(SpanError::NodeTypeMismatch);
                },
            }
            i = i + 1;
        }
        proof {
            assert(pm.subrange(0, pm.len() as int) =~= pm);
        }
        Ok(candidate)
    }
}

/// A query that fails at step `i` fails with the same error whatever steps
/// follow.
proof fn lemma_step_err(
    info: InfoModel,
    st0: QueryState,
    path: Seq<(u32, u32, Seq<char>)>,
    i: int,
    st: QueryState,
    e: SpanError,
)
    requires
        0 <= i < path.len(),
        query_fold(info, st0, path.subrange(0, i)) == Ok::<QueryState, SpanError>(st),
        query_step(info, st, path[i]) == Err::<QueryState, SpanError>(e),
    ensures
        query_fold(info, st0, path) == Err::<QueryState, SpanError>(e),
{
    let pre = path.subrange(0, i + 1);
    assert(pre.subrange(0, i) =~= path.subrange(0, i));
    assert(pre[i] == path[i]);
    lemma_fold_err(info, st0, path, i + 1);
}

/// Once a prefix of a path fails, the whole path fails the same way.
proof fn lemma_fold_err(info: InfoModel, st0: QueryState, path: Seq<(u32, u32, Seq<char>)>, k: int)
    requires
        0 <= k <= path.len(),
        query_fold(info, st0, path.subrange(0, k)) is Err,
    ensures
        query_fold(info, st0, path) == query_fold(info, st0, path.subrange(0, k)),
    decreases path.len(),
{
    if k == path.len() {
        assert(path.subrange(0, k) =~= path);
    } else {
        let init = path.subrange(0, path.len() - 1);
        assert(init.subrange(0, k) =~= path.subrange(0, k));
        lemma_fold_err(info, st0, init, k);
    }
}

/// There is only one place where an element goes after everything not
/// greater and before everything greater.
proof fn lemma_insert_pos_unique(s: Seq<ChildModel>, c: ChildModel, p: int)
    requires
        0 <= p <= s.len(),
        forall|k: int| p <= k < s.len() ==> #[trigger] s[k].0 > c.0,
        p > 0 ==> s[p - 1].0 <= c.0,
    ensures
        insert_pos(s, c) == p,
    decreases s.len(),
{
    if s.len() > 0 && p < s.len() {
        lemma_insert_pos_unique(s.subrange(0, s.len() - 1), c, p);
    }
}

} // verus!

verus! {

/// The model of collected candidates.
pub open spec fn cands_model(v: Seq<(usize, Vec<(u32, u32)>)>) -> Seq<Candidate> {
    Seq::new(v.len(), |i: int| (v[i].0, v[i].1@))
}

/// The distinct values of `v`, in increasing order.
fn sorted_distinct_vec(v: &Vec<usize>) -> (r: Vec<usize>)
    ensures
        r@ == sorted_distinct(v@),
{
    let mut r: Vec<usize> = Vec::new();
    let mut i: usize = 0;
    while i < v.len()
        invariant
            i <= v@.len(),
            r@ == sorted_distinct(v@.subrange(0, i as int)),
            strictly_increasing(r@),
        decreases v@.len() - i,
    {
        let x = v[i];
        let mut p = r.len();
        while p > 0 && r[p - 1] > x
            invariant
                p <= r@.len(),
                forall|k: int| p <= k < r@.len() ==> #[trigger] r@[k] > x,
            decreases p,
        {
            p = p - 1;
        }
        let ghost before = r@;
        proof {
            lemma_insert_sorted(before, x, p as int);
            assert(v@.subrange(0, i + 1).subrange(0, i as int) =~= v@.subrange(0, i as int));
        }
        if !(p > 0 && r[p - 1] == x) {
            r.insert(p, x);
            assert(r@ =~= before.subrange(0, p as int).push(x) + before.subrange(p as int, before.len() as int));
        }
        i = i + 1;
    }
    assert(v@.subrange(0, v@.len() as int) =~= v@);
    r
}

/// A path tail of one step.
fn one_step(kind: u32, index: u32) -> (r: Vec<(u32, u32)>)
    ensures
        r@ == seq![(kind, index)],
{
    let mut r: Vec<(u32, u32)> = Vec::new();
    r.push((kind, index));
    r
}

/// Appends the candidates that the elements of region `reg` give for a
/// span and byte offset.
fn push_region_candidates(
    list: &Vec<(usize, SourceNodeKind, Fingerprint)>,
    reg: usize,
    span: u64,
    offset: usize,
    out: &mut Vec<(usize, Vec<(u32, u32)>)>,
)
    ensures
        cands_model(final(out)@) == cands_model(old(out)@) + tag(
            reg,
            region_tails(children_model(list@), span, offset, list@.len() as int),
        ),
{
    let ghost lm = children_model(list@);
    let ghost base = cands_model(out@);
    let mut idx: usize = 0;
    while idx < list.len()
        invariant
            idx <= list@.len(),
            lm == children_model(list@),
            cands_model(out@) == base + tag(reg, region_tails(lm, span, offset, idx as int)),
        decreases list@.len() - idx,
    {
        let ghost prev = region_tails(lm, span, offset, idx as int);
        let ghost child = lm[idx as int];
        let ghost out0 = cands_model(out@);
        assert(child.1 == kind_model(list@[idx as int].1));
        match &list[idx].1 {
            SourceNodeKind::Char((s, _)) => {
                if s.0 == span {
                    let t = one_step(SOURCE_MAPPING_TYPE_TEXT, idx as u32);
                    out.push((reg, t));
                    assert(cands_model(out@) =~= out0.push((reg, t@)));
                }
            },
            SourceNodeKind::Text(cs) => {
                let ghost cm = chars_model(cs@);
                let mut k: usize = 0;
                assert(prev + text_tails(cm, idx as int, span, offset, 0) =~= prev);
                while k < cs.len()
                    invariant
                        k <= cs@.len(),
                        cm == chars_model(cs@),
                        cands_model(out@) == base + tag(reg, prev + text_tails(cm, idx as int, span, offset, k as int)),
                    decreases cs@.len() - k,
                {
                    let ghost tt = text_tails(cm, idx as int, span, offset, k as int);
                    let ghost outk = cands_model(out@);
                    let (s, byte_offset) = cs[k];
                    let end: usize = if k + 1 < cs.len() && cs[k + 1].0 == s {
                        cs[k + 1].1 as usize
                    } else {
                        usize::MAX
                    };
                    assert(cm[k as int] == (s.0, byte_offset));
                    assert(k + 1 < cs@.len() ==> cm[k + 1] == (cs@[k + 1].0.0, cs@[k + 1].1));
                    assert(char_covers(cm, k as int, offset) == (byte_offset as usize <= offset && offset < end));
                    if s.0 == span && byte_offset as usize <= offset && offset < end {
                        let mut tail: Vec<(u32, u32)> = Vec::new();
                        tail.push((SOURCE_MAPPING_TYPE_TEXT, idx as u32));
                        tail.push((SOURCE_MAPPING_TYPE_CHAR_INDEX, k as u32));
                        let ghost t = seq![(SOURCE_MAPPING_TYPE_TEXT, idx as u32), (SOURCE_MAPPING_TYPE_CHAR_INDEX, k as u32)];
                        assert(tail@ =~= t);
                        out.push((reg, tail));
                        assert(cands_model(out@) =~= outk.push((reg, t)));
                        assert(text_tails(cm, idx as int, span, offset, k + 1) == tt.push(t));
                        assert(tag(reg, prev + tt.push(t)) =~= tag(reg, prev + tt).push((reg, t)));
                    } else {
                        assert(text_tails(cm, idx as int, span, offset, k + 1) == tt);
                    }
                    k = k + 1;
                }
                assert(child_tails(idx as int, child.1, span, offset) == text_tails(cm, idx as int, span, offset, cm.len() as int));
            },
            SourceNodeKind::Image(s) => {
                if s.0 == span {
                    let t = one_step(SOURCE_MAPPING_TYPE_IMAGE, idx as u32);
                    out.push((reg, t));
                    assert(cands_model(out@) =~= out0.push((reg, t@)));
                }
            },
            SourceNodeKind::Shape(s) => {
                if s.0 == span {
                    let t = one_step(SOURCE_MAPPING_TYPE_SHAPE, idx as u32);
                    out.push((reg, t));
                    assert(cands_model(out@) =~= out0.push((reg, t@)));
                }
            },
            _ => {},
        }
        assert(cands_model(out@) =~= base + tag(reg, prev + child_tails(idx as int, child.1, span, offset)));
        idx = idx + 1;
        assert(cands_model(out@) =~= base + tag(reg, region_tails(lm, span, offset, idx as int)));
    }
}


impl SpanInfo {
    /// The candidates from the regions `regs`, in order.
    fn collect_candidates(&self, regs: &Vec<usize>, span: u64, offset: usize) -> (r: Result<
        Vec<(usize, Vec<(u32, u32)>)>,
        SpanError,
    >)
        ensures
            match r {
                Ok(v) => collect(self.model(), regs@, span, offset) == Ok::<Seq<Candidate>, SpanError>(cands_model(v@)),
                Err(e) => collect(self.model(), regs@, span, offset) == Err::<Seq<Candidate>, SpanError>(e),
            },
    {
        let ghost m = self.model();
        let mut out: Vec<(usize, Vec<(u32, u32)>)> = Vec::new();
        assert(cands_model(out@) =~= Seq::<Candidate>::empty());
        assert(regs@.subrange(0, 0) =~= Seq::<usize>::empty());
        let mut i: usize = 0;
        while i < regs.len()
            invariant
                i <= regs@.len(),
                m == self.model(),
                collect(m, regs@.subrange(0, i as int), span, offset) == Ok::<Seq<Candidate>, SpanError>(cands_model(out@)),
            decreases regs@.len() - i,
        {
            let reg = regs[i];
            proof {
                assert(regs@.subrange(0, i + 1).subrange(0, i as int) =~= regs@.subrange(0, i as int));
            }
            match self.children.get(&reg) {
                Some(list) => {
                    push_region_candidates(list, reg, span, offset, &mut out);
                },
                None => {
                    proof {
                        lemma_collect_err(m, regs@, span, offset, i + 1);
                    }
                    return Err(SpanError::RelatedRegionNotFound(reg));
                },
            }
            i = i + 1;
        }
        assert(regs@.subrange(0, regs@.len() as int) =~= regs@);
        Ok(out)
    }

    /// The first element of region `par` that holds region `cur`, with the
    /// kind of step to it.
    fn find_link(list: &Vec<(usize, SourceNodeKind, Fingerprint)>, cur: usize) -> (r: Option<(usize, u32)>)
        ensures
            match r {
                Some((i, k)) => first_link(children_model(list@), cur, list@.len() as int) == Some((i as int, k)),
                None => first_link(children_model(list@), cur, list@.len() as int) is None,
            },
    {
        let ghost lm = children_model(list@);
        let mut i: usize = 0;
        while i < list.len()
            invariant
                i <= list@.len(),
                lm == children_model(list@),
                first_link(lm, cur, i as int) is None,
            decreases list@.len() - i,
        {
            assert(lm[i as int].1 == kind_model(list@[i as int].1));
            match &list[i].1 {
                SourceNodeKind::Page { region } => {
                    if *region == cur {
                        proof {
                            lemma_first_link_stable(lm, cur, i + 1, list@.len() as int);
                        }
                        return Some((i, SOURCE_MAPPING_TYPE_PAGE));
                    }
                },
                SourceNodeKind::Group { region } => {
                    if *region == cur {
                        proof {
                            lemma_first_link_stable(lm, cur, i + 1, list@.len() as int);
                        }
                        return Some((i, SOURCE_MAPPING_TYPE_GROUP));
                    }
                },
                _ => {},
            }
            i = i + 1;
        }
        None
    }

    /// Walks up from region `start` to the root `doc`, and returns the steps
    /// from the root down to `start`.
    fn walk_up(&self, doc: usize, start: usize, Ghost(fuel): Ghost<nat>) -> (r: Result<Option<Vec<(u32, u32)>>, SpanError>)
        requires
            walk(self.model(), doc, start, fuel) is Some,
        ensures
            walk(self.model(), doc, start, fuel) == Some(match r {
                Ok(Some(p)) => Ok::<Option<Seq<Step>>, SpanError>(Some(p@)),
                Ok(None) => Ok::<Option<Seq<Step>>, SpanError>(None),
                Err(e) => Err::<Option<Seq<Step>>, SpanError>(e),
            }),
    {
        let ghost m = self.model();
        let mut cur = start;
        let mut acc: Vec<(u32, u32)> = Vec::new();
        let ghost mut f = fuel;
        assert(walk_then(walk(m, doc, start, fuel), acc@) == walk(m, doc, start, fuel)) by {
            match walk(m, doc, start, fuel) {
                Some(Ok(Some(p))) => assert(p + acc@ =~= p),
                _ => {},
            }
        }
        while cur != doc
            invariant
                m == self.model(),
                walk(m, doc, cur, f) is Some,
                walk(m, doc, start, fuel) == walk_then(walk(m, doc, cur, f), acc@),
            decreases f,
        {
            let par = match self.parents.get(&cur) {
                Some(p) => *p,
                None => return Err(SpanError::ParentNotFound(cur)),
            };
            let list = match self.children.get(&par) {
                Some(l) => l,
                None => return Err(SpanError::RegionChildrenNotFound(par)),
            };
            match Self::find_link(list, cur) {
                None => return Ok(None),
                Some((idx, kind)) => {
                    let ghost acc0 = acc@;
                    acc.insert(0, (kind, idx as u32));
                    proof {
                        match walk(m, doc, par, (f - 1) as nat) {
                            Some(Ok(Some(p))) => {
                                assert(p.push((kind, idx as u32)) + acc0 =~= p + acc@);
                            },
                            _ => {},
                        }
                        f = (f - 1) as nat;
                    }
                    cur = par;
                },
            }
        }
        assert(Seq::<Step>::empty() + acc@ =~= acc@);
        Ok(Some(acc))
    }
}

/// A walk's outcome with `acc` appended to the steps it finds.
pub open spec fn walk_then(o: Option<Result<Option<Seq<Step>>, SpanError>>, acc: Seq<Step>) -> Option<Result<Option<Seq<Step>>, SpanError>> {
    match o {
        Some(Ok(Some(p))) => Some(Ok(Some(p + acc))),
        other => other,
    }
}

/// The model of finished paths.
pub open spec fn steps_model(v: Seq<Vec<(u32, u32)>>) -> Seq<Seq<Step>> {
    Seq::new(v.len(), |i: int| v[i]@)
}

/// The model of paths of elements: their steps, fingerprints left out.
pub open spec fn points_model(v: Seq<Vec<ElementPoint>>) -> Seq<Seq<Step>> {
    Seq::new(v.len(), |i: int| Seq::new(v[i]@.len(), |j: int| (v[i]@[j].kind, v[i]@[j].index)))
}

/// Whether the answer of a query for paths is the one specified: the same
/// error, or the same paths, each step with an empty fingerprint.
pub open spec fn paths_model_ok(r: Result<Vec<Vec<ElementPoint>>, SpanError>, spec: Result<Seq<Seq<Step>>, SpanError>) -> bool {
    match r {
        Ok(v) => spec == Ok::<Seq<Seq<Step>>, SpanError>(points_model(v@)) && forall|i: int, j: int|
            0 <= i < v@.len() && 0 <= j < v@[i]@.len() ==> (#[trigger] v@[i]@[j]).fingerprint@ == Seq::<char>::empty(),
        Err(e) => spec == Err::<Seq<Seq<Step>>, SpanError>(e),
    }
}

impl SpanInfo {
    /// The paths that the candidates lead to.
    fn finish_paths(&self, doc: usize, cands: &Vec<(usize, Vec<(u32, u32)>)>) -> (r: Result<Vec<Vec<(u32, u32)>>, SpanError>)
        requires
            forall|i: int| 0 <= i < cands@.len() ==> walk_ends(self.model(), doc, #[trigger] start_region(cands_model(cands@)[i])),
        ensures
            match r {
                Ok(v) => finish(self.model(), doc, cands_model(cands@)) == Ok::<Seq<Seq<Step>>, SpanError>(steps_model(v@)),
                Err(e) => finish(self.model(), doc, cands_model(cands@)) == Err::<Seq<Seq<Step>>, SpanError>(e),
            },
    {
        let ghost m = self.model();
        let ghost cm = cands_model(cands@);
        let mut out: Vec<Vec<(u32, u32)>> = Vec::new();
        assert(steps_model(out@) =~= Seq::<Seq<Step>>::empty());
        assert(cm.subrange(0, 0) =~= Seq::<Candidate>::empty());
        let mut i: usize = 0;
        while i < cands.len()
            invariant
                i <= cands@.len(),
                m == self.model(),
                cm == cands_model(cands@),
                forall|j: int| 0 <= j < cands@.len() ==> walk_ends(m, doc, #[trigger] start_region(cm[j])),
                finish(m, doc, cm.subrange(0, i as int)) == Ok::<Seq<Seq<Step>>, SpanError>(steps_model(out@)),
            decreases cands@.len() - i,
        {
            let cand = &cands[i];
            let start = (cand.0 as u32) as usize;
            let ghost c = cm[i as int];
            proof {
                assert(cm.subrange(0, i + 1).subrange(0, i as int) =~= cm.subrange(0, i as int));
                assert(cm.subrange(0, i + 1)[i as int] == c);
                assert(start == start_region(c));
                assert(walk_ends(m, doc, start_region(cm[i as int])));
            }
            let ghost fuel = choose|n: nat| #[trigger] walk(m, doc, start, n) is Some;
            proof {
                lemma_walk_result(m, doc, start, fuel);
            }
            match self.walk_up(doc, start, Ghost(fuel)) {
                Err(e) => {
                    proof {
                        lemma_finish_err(m, doc, cm, i + 1);
                    }
                    return Err(e);
                },
                Ok(None) => {},
                Ok(Some(p)) => {
                    let mut path = p;
                    let ghost p0 = path@;
                    let mut k: usize = 0;
                    while k < cand.1.len()
                        invariant
                            k <= cand.1@.len(),
                            path@ == p0 + cand.1@.subrange(0, k as int),
                        decreases cand.1@.len() - k,
                    {
                        path.push(cand.1[k]);
                        k = k + 1;
                        assert(path@ =~= p0 + cand.1@.subrange(0, k as int));
                    }
                    assert(cand.1@.subrange(0, cand.1@.len() as int) =~= cand.1@);
                    let ghost before = steps_model(out@);
                    out.push(path);
                    assert(steps_model(out@) =~= before.push(p0 + c.1));
                },
            }
            i = i + 1;
        }
        assert(cm.subrange(0, cm.len() as int) =~= cm);
        Ok(out)
    }
}

impl Span2VecPass {
    /// Finds the paths from the root of the document to the elements that
    /// a source position maps to: the characters, texts, images and shapes
    /// of its span, a text's character only where the byte offset falls
    /// within it. Each path lists, for every element from the root down, its
    /// kind and its index among its parent's elements; fingerprints are left
    /// empty. A candidate whose region does not lead up to the root is left
    /// out.
    pub fn query_element_paths(&mut self, span_offset: SourceSpanOffset) -> (r: Result<Vec<Vec<ElementPoint>>, SpanError>)
        requires
            old(self)@.doc_region != 0 ==> paths_end(
                queried_info(old(self)@),
                old(self)@.doc_region,
                span_offset.span.0,
                span_offset.offset,
            ),
        ensures
            final(self)@ == after_init(old(self)@),
            paths_model_ok(
                r,
                paths_spec(queried_info(old(self)@), old(self)@.doc_region, span_offset.span.0, span_offset.offset),
            ),
    {
        self.ensure_tree();
        let info = match &self.span_tree {
            Some(t) => t,
            None => return Err(SpanError::SpanInfoNotInitialized),
        };
        let ghost m = info.model();
        let span = span_offset.span.0;
        let offset = span_offset.offset;
        let empty: Vec<usize> = Vec::new();
        let found = match info.span_indice.get(&span) {
            Some(v) => v,
            None => &empty,
        };
        assert(found@ == list_at(m.spans, span));
        let regions = sorted_distinct_vec(found);
        if self.doc_region == 0 {
            return Err(SpanError::DocNotInitialized);
        }
        let doc = self.doc_region;
        let cands = match info.collect_candidates(&regions, span, offset) {
            Ok(c) => c,
            Err(e) => return Err(e),
        };
        let paths = match info.finish_paths(doc, &cands) {
            Ok(p) => p,
            Err(e) => return Err(e),
        };
        let mut res: Vec<Vec<ElementPoint>> = Vec::new();
        let mut i: usize = 0;
        while i < paths.len()
            invariant
                i <= paths@.len(),
                res@.len() == i,
                points_model(res@) == steps_model(paths@).subrange(0, i as int),
                forall|a: int, b: int| 0 <= a < res@.len() && 0 <= b < res@[a]@.len()
                    ==> (#[trigger] res@[a]@[b]).fingerprint@ == Seq::<char>::empty(),
            decreases paths@.len() - i,
        {
            let p = &paths[i];
            let mut pts: Vec<ElementPoint> = Vec::new();
            let mut k: usize = 0;
            while k < p.len()
                invariant
                    k <= p@.len(),
                    pts@.len() == k,
                    forall|j: int| 0 <= j < k ==> (#[trigger] pts@[j]).kind == p@[j].0 && pts@[j].index == p@[j].1
                        && pts@[j].fingerprint@ == Seq::<char>::empty(),
                decreases p@.len() - k,
            {
                pts.push(ElementPoint { kind: p[k].0, index: p[k].1, fingerprint: String::new() });
                k = k + 1;
            }
            let ghost before = points_model(res@);
            let ghost pv = pts@;
            assert(Seq::new(pv.len(), |j: int| (pv[j].kind, pv[j].index)) =~= p@);
            res.push(pts);
            proof {
                assert(res@[i as int]@ == pv);
                assert(points_model(res@) =~= before.push(p@));
                assert(steps_model(paths@)[i as int] == p@);
                assert(points_model(res@) =~= steps_model(paths@).subrange(0, i + 1));
            }
            i = i + 1;
        }
        assert(steps_model(paths@).subrange(0, paths@.len() as int) =~= steps_model(paths@));
        Ok(res)
    }
}

} // verus!
