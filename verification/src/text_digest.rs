use vstd::prelude::*;

use crate::strings::{byte_len, lemma_byte_len_concat, max_string_bytes, push_char, push_str};

verus! {

/// An item of a laid-out frame, as far as its text goes.
pub enum FrameItem {
    /// A nested frame.
    Group(Frame),
    /// A run of shaped text.
    Text(String),
    /// A character that the layout inserted as a hint, such as a line break.
    ContentHint(char),
    Link,
    Tag,
    Shape,
    Image,
}

/// A laid-out frame: its items in order.
pub struct Frame {
    pub items: Vec<FrameItem>,
}

/// A paged document: the frames of its pages in order.
pub struct PagedDocument {
    pub pages: Vec<Frame>,
}

/// The text of an item, of the items of a frame, of the pages of a
/// document: texts and hints in document order, groups read in place.
pub open spec fn item_text(item: FrameItem) -> Seq<char>
    decreases item,
{
    match item {
        FrameItem::Group(f) => items_text(f.items@),
        FrameItem::Text(t) => t@,
        FrameItem::ContentHint(c) => seq![c],
        _ => Seq::empty(),
    }
}

pub open spec fn items_text(items: Seq<FrameItem>) -> Seq<char>
    decreases items,
{
    if items.len() == 0 {
        Seq::empty()
    } else {
        items_text(items.drop_last()) + item_text(items.last())
    }
}

pub open spec fn pages_text(pages: Seq<Frame>) -> Seq<char>
    decreases pages.len(),
{
    if pages.len() == 0 {
        Seq::empty()
    } else {
        pages_text(pages.drop_last()) + items_text(pages.last().items@)
    }
}

/// The full text of a document.
pub open spec fn full_text(doc: PagedDocument) -> Seq<char> {
    pages_text(doc.pages@)
}

/// Writes the text of a frame's items.
fn export_frame(frame: &Frame, out: &mut String)
    requires
        byte_len(old(out)@ + items_text(frame.items@)) <= max_string_bytes(),
    ensures
        final(out)@ == old(out)@ + items_text(frame.items@),
    decreases frame,
{
    let ghost start = out@;
    let ghost all = frame.items@;
    assert(all.subrange(0, 0) =~= Seq::<FrameItem>::empty());
    let mut i: usize = 0;
    while i < frame.items.len()
        invariant
            i <= all.len(),
            all == frame.items@,
            byte_len(start + items_text(all)) <= max_string_bytes(),
            out@ == start + items_text(all.subrange(0, i as int)),
        decreases all.len() - i,
    {
        let ghost pre = all.subrange(0, i as int);
        let ghost rest = all.subrange(i as int, all.len() as int);
        proof {
            assert(all.subrange(0, i + 1).drop_last() =~= pre);
            assert(all.subrange(0, i + 1).last() == all[i as int]);
            lemma_items_text_split(all, i as int + 1);
            let head = start + items_text(all.subrange(0, i + 1));
            let tail = items_text(all.subrange(i + 1, all.len() as int));
            assert(start + items_text(all) =~= head + tail);
            lemma_byte_len_concat(head, tail);
            assert(head =~= out@ + item_text(all[i as int]));
        }
        export_item(&frame.items[i], out);
        i = i + 1;
    }
    assert(all.subrange(0, all.len() as int) =~= all);
}

/// Writes the text of an item.
fn export_item(item: &FrameItem, out: &mut String)
    requires
        byte_len(old(out)@ + item_text(*item)) <= max_string_bytes(),
    ensures
        final(out)@ == old(out)@ + item_text(*item),
    decreases item,
{
    match item {
        FrameItem::Group(g) => export_frame(g, out),
        FrameItem::Text(t) => push_str(out, t.as_str()),
        FrameItem::ContentHint(c) => {
            assert(old(out)@ + seq![*c] =~= old(out)@.push(*c));
            push_char(out, *c);
        },
        _ => {
            assert(old(out)@ + Seq::<char>::empty() =~= old(out)@);
        },
    }
}

/// The text of the first `n` items followed by that of the rest is the text
/// of all of them.
pub proof fn lemma_items_text_split(items: Seq<FrameItem>, n: int)
    requires
        0 <= n <= items.len(),
    ensures
        items_text(items) == items_text(items.subrange(0, n)) + items_text(items.subrange(n, items.len() as int)),
    decreases items.len(),
{
    if n == items.len() {
        assert(items.subrange(0, n) =~= items);
        assert(items.subrange(n, items.len() as int) =~= Seq::<FrameItem>::empty());
        assert(items_text(items) + Seq::<char>::empty() =~= items_text(items));
    } else {
        let init = items.drop_last();
        lemma_items_text_split(init, n);
        assert(init.subrange(0, n) =~= items.subrange(0, n));
        assert(items.subrange(n, items.len() as int).drop_last() =~= init.subrange(n, init.len() as int));
        assert(items.subrange(n, items.len() as int).last() == items.last());
        assert(items_text(items.subrange(0, n)) + items_text(items.subrange(n, items.len() as int))
            =~= items_text(items.subrange(0, n)) + items_text(init.subrange(n, init.len() as int)) + item_text(items.last()));
    }
}

/// Exports the text content of documents.
#[derive(Debug, Clone, Default)]
pub struct TextExporter {}

impl TextExporter {
    /// The full text of a document: the texts and content hints of its
    /// pages in document order, nested groups read in place, everything
    /// else left out.
    pub fn export(&self, doc: &PagedDocument) -> (r: String)
        requires
            byte_len(full_text(*doc)) <= max_string_bytes(),
        ensures
            r@ == full_text(*doc),
    {
        let mut out = String::new();
        let ghost pages = doc.pages@;
        let mut i: usize = 0;
        assert(pages.subrange(0, 0) =~= Seq::<Frame>::empty());
        while i < doc.pages.len()
            invariant
                i <= pages.len(),
                pages == doc.pages@,
                byte_len(pages_text(pages)) <= max_string_bytes(),
                out@ == pages_text(pages.subrange(0, i as int)),
            decreases pages.len() - i,
        {
            proof {
                assert(pages.subrange(0, i + 1).drop_last() =~= pages.subrange(0, i as int));
                lemma_pages_text_split(pages, i + 1);
                lemma_byte_len_concat(pages_text(pages.subrange(0, i + 1)), pages_text(pages.subrange(i + 1, pages.len() as int)));
                assert(pages.subrange(0, i + 1).last() == pages[i as int]);
            }
            export_frame(&doc.pages[i], &mut out);
            i = i + 1;
        }
        assert(pages.subrange(0, pages.len() as int) =~= pages);
        out
    }
}

proof fn lemma_pages_text_split(pages: Seq<Frame>, n: int)
    requires
        0 <= n <= pages.len(),
    ensures
        pages_text(pages) == pages_text(pages.subrange(0, n)) + pages_text(pages.subrange(n, pages.len() as int)),
    decreases pages.len(),
{
    if n == pages.len() {
        assert(pages.subrange(0, n) =~= pages);
        assert(pages.subrange(n, pages.len() as int) =~= Seq::<Frame>::empty());
        assert(pages_text(pages) + Seq::<char>::empty() =~= pages_text(pages));
    } else {
        let init = pages.drop_last();
        lemma_pages_text_split(init, n);
        assert(init.subrange(0, n) =~= pages.subrange(0, n));
        assert(pages.subrange(n, pages.len() as int).drop_last() =~= init.subrange(n, init.len() as int));
        assert(pages.subrange(n, pages.len() as int).last() == pages.last());
        assert(pages_text(pages.subrange(0, n)) + pages_text(pages.subrange(n, pages.len() as int))
            =~= pages_text(pages.subrange(0, n)) + pages_text(init.subrange(n, init.len() as int)) + items_text(pages.last().items@));
    }
}

} // verus!
