use vstd::prelude::*;

use crate::span_map::{
    after_init, path_model, paths_model_ok, query_spec, queried_info, ElementPoint, SourceSpanOffset,
    Span2VecPass, SpanError,
};
use crate::span_paths::{paths_end, paths_spec, Step};
use crate::item_store::{collected, gc_limit, kept, ItemStore};

verus! {

/// The tag that opens an incremental update: `diff-v1,`.
pub open spec fn diff_tag() -> Seq<u8> {
    seq![0x64u8, 0x69u8, 0x66u8, 0x66u8, 0x2du8, 0x76u8, 0x31u8, 0x2cu8]
}

/// The tag that opens a full document: `new,`.
pub open spec fn new_tag() -> Seq<u8> {
    seq![0x6eu8, 0x65u8, 0x77u8, 0x2cu8]
}

/// `tag` followed by `body`.
fn framed(tag: &[u8], body: &[u8]) -> (r: Vec<u8>)
    ensures
        r@ == tag@ + body@,
{
    let mut r: Vec<u8> = Vec::new();
    let mut i: usize = 0;
    while i < tag.len()
        invariant
            i <= tag@.len(),
            r@ == tag@.subrange(0, i as int),
        decreases tag@.len() - i,
    {
        r.push(tag[i]);
        i = i + 1;
        assert(r@ =~= tag@.subrange(0, i as int));
    }
    let mut j: usize = 0;
    while j < body.len()
        invariant
            j <= body@.len(),
            r@ == tag@ + body@.subrange(0, j as int),
        decreases body@.len() - j,
    {
        r.push(body[j]);
        j = j + 1;
        assert(r@ =~= tag@ + body@.subrange(0, j as int));
    }
    assert(tag@.subrange(0, tag@.len() as int) =~= tag@);
    assert(body@.subrange(0, body@.len() as int) =~= body@);
    r
}

/// The server side of incremental rendering: the span map of the latest
/// document, the items sent to the client with their lifetimes, and
/// whether a compilation has completed.
pub struct IncrDocServer {
    pub spans: Span2VecPass,
    pub items: ItemStore,
    pub has_pages: bool,
}

impl IncrDocServer {
    /// A server before any compilation.
    pub fn new() -> (r: IncrDocServer)
        ensures
            !r.has_pages,
            r.items.wf(),
            r.items.spec_lifetime() == 0,
            r.items.entries() == Seq::<(u128, u64)>::empty(),
            r.items.fresh() == Seq::<u128>::empty(),
            r.spans@ == (crate::span_map::PassModel {
                debug_info: false,
                region_cnt: 0,
                doc_region: 0,
                collected: crate::span_map::empty_info(),
                tree: None,
            }),
    {
        IncrDocServer { spans: Span2VecPass::new(), items: ItemStore::new(), has_pages: false }
    }

    /// Whether to attach debug info to the spans.
    pub fn set_should_attach_debug_info(&mut self, should_attach_debug_info: bool)
        ensures
            final(self).spans@ == (crate::span_map::PassModel { debug_info: should_attach_debug_info, ..old(self).spans@ }),
            final(self).has_pages == old(self).has_pages,
            final(self).items == old(self).items,
    {
        self.spans.set_should_attach_debug_info(should_attach_debug_info);
    }

    /// Sets the region of the latest document's root.
    pub fn set_doc_region(&mut self, doc_region: usize)
        ensures
            final(self).spans@ == (crate::span_map::PassModel { doc_region, ..old(self).spans@ }),
            final(self).has_pages == old(self).has_pages,
            final(self).items == old(self).items,
    {
        self.spans.set_doc_region(doc_region);
    }

    /// Starts packing an update: the spans of the previous document are
    /// forgotten before the new one is converted, the lifetime of the items
    /// grows by two, and the items unused for ten lifetimes are collected.
    /// Returns the fingerprints collected, in the order the items came.
    pub fn begin_delta(&mut self) -> (r: Vec<u128>)
        requires
            old(self).items.wf(),
            old(self).items.spec_lifetime() <= u64::MAX - 2,
        ensures
            final(self).has_pages == old(self).has_pages,
            final(self).spans@ == (crate::span_map::PassModel {
                debug_info: old(self).spans@.debug_info,
                region_cnt: 1,
                doc_region: 0,
                collected: crate::span_map::empty_info(),
                tree: None,
            }),
            final(self).items.wf(),
            final(self).items.spec_lifetime() == old(self).items.spec_lifetime() + 2,
            r@ == collected(old(self).items.entries(), gc_limit((old(self).items.spec_lifetime() + 2) as u64, 10)),
            final(self).items.entries() == kept(
                old(self).items.entries(),
                gc_limit((old(self).items.spec_lifetime() + 2) as u64, 10),
            ),
            final(self).items.fresh() == Seq::<u128>::empty(),
    {
        self.spans.reset();
        self.items.increment_lifetime();
        self.items.gc(10)
    }

    /// Finishes packing an update whose encoded module is `delta`: the
    /// pages are now known, and the blob is `diff-v1,` followed by the
    /// module.
    pub fn pack_delta(&mut self, delta: &[u8]) -> (r: Vec<u8>)
        ensures
            final(self).has_pages,
            final(self).spans@ == old(self).spans@,
            r@ == diff_tag() + delta@,
    {
        self.has_pages = true;
        let tag: [u8; 8] = [0x64, 0x69, 0x66, 0x66, 0x2d, 0x76, 0x31, 0x2c];
        assert(tag@ =~= diff_tag());
        framed(&tag, delta)
    }

    /// Packs the whole current document, whose encoded module is `full`:
    /// `new,` followed by the module, or nothing before the first
    /// compilation.
    pub fn pack_current(&self, full: &[u8]) -> (r: Option<Vec<u8>>)
        ensures
            match r {
                Some(b) => self.has_pages && b@ == new_tag() + full@,
                None => !self.has_pages,
            },
    {
        if !self.has_pages {
            return None;
        }
        let tag: [u8; 4] = [0x6e, 0x65, 0x77, 0x2c];
        assert(tag@ =~= new_tag());
        Some(framed(&tag, full))
    }

    /// The element paths of a source position.
    pub fn resolve_element_paths_by_span(&mut self, span_offset: SourceSpanOffset) -> (r: Result<
        Vec<Vec<ElementPoint>>,
        SpanError,
    >)
        requires
            old(self).spans@.doc_region != 0 ==> paths_end(
                queried_info(old(self).spans@),
                old(self).spans@.doc_region,
                span_offset.span.0,
                span_offset.offset,
            ),
        ensures
            final(self).spans@ == after_init(old(self).spans@),
            final(self).has_pages == old(self).has_pages,
            final(self).items == old(self).items,
            paths_model_ok(
                r,
                paths_spec(queried_info(old(self).spans@), old(self).spans@.doc_region, span_offset.span.0, span_offset.offset),
            ),
    {
        self.spans.query_element_paths(span_offset)
    }

    /// The source range of an element path.
    pub fn resolve_span_by_element_path(&mut self, path: &[ElementPoint]) -> (r: Result<
        Option<(SourceSpanOffset, SourceSpanOffset)>,
        SpanError,
    >)
        ensures
            final(self).spans@ == after_init(old(self).spans@),
            final(self).has_pages == old(self).has_pages,
            final(self).items == old(self).items,
            r == query_spec(queried_info(old(self).spans@), old(self).spans@.doc_region, path_model(path@)),
    {
        self.spans.query(path)
    }
}

} // verus!
