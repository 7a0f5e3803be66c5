use std::sync::Arc;
use vstd::prelude::*;

use crate::hex::{hex_of, to_hex};

use crate::strings::{
    byte_len, lemma_byte_len_ascii, lemma_byte_len_concat, max_string_bytes, push_char, push_str,
    reserve,
};

verus! {

/// A generated text content.
#[derive(Debug)]
pub enum SvgText {
    /// Append a plain text.
    Plain(String),
    /// Append a SVG/XML text node.
    Content(Arc<SvgTextNode>),
}

/// A generated text node in SVG/XML format.
/// The node is exactly the same as `<g>` tag.
/// It is formatted as `<g attr.keys()..="attr.values()..">content..</g>`.
#[derive(Debug)]
pub struct SvgTextNode {
    pub attributes: Vec<(&'static str, String)>,
    pub content: Vec<SvgText>,
}

/// The mathematical model of a text tree: plain runs of characters, and
/// `<g>` nodes with their attributes (name, value) and children.
pub enum TextModel {
    Plain(Seq<char>),
    Node(Seq<(Seq<char>, Seq<char>)>, Seq<TextModel>),
}

/// The attributes of a node, as pairs of character sequences.
pub open spec fn attrs_model(a: Seq<(&'static str, String)>) -> Seq<(Seq<char>, Seq<char>)> {
    Seq::new(a.len(), |i: int| (a[i].0@, a[i].1@))
}

/// The model of a text item.
pub open spec fn text_model(t: SvgText) -> TextModel
    decreases t,
{
    match t {
        SvgText::Plain(s) => TextModel::Plain(s@),
        SvgText::Content(n) => node_model(*n),
    }
}

/// The model of a node.
pub open spec fn node_model(n: SvgTextNode) -> TextModel
    decreases n,
{
    TextModel::Node(attrs_model(n.attributes@), seq_model(n.content@))
}

/// The models of a sequence of text items.
pub open spec fn seq_model(s: Seq<SvgText>) -> Seq<TextModel>
    decreases s,
{
    if s.len() == 0 {
        Seq::empty()
    } else {
        seq_model(s.subrange(0, s.len() - 1)).push(text_model(s[s.len() - 1]))
    }
}

impl View for SvgText {
    type V = TextModel;

    open spec fn view(&self) -> TextModel {
        text_model(*self)
    }
}

impl View for SvgTextNode {
    type V = TextModel;

    open spec fn view(&self) -> TextModel {
        node_model(*self)
    }
}


/// Models of a sequence keep its length and its items, one for one.
pub proof fn lemma_seq_model(s: Seq<SvgText>)
    ensures
        seq_model(s).len() == s.len(),
        forall|i: int| 0 <= i < s.len() ==> #[trigger] seq_model(s)[i] == text_model(s[i]),
    decreases s.len(),
{
    if s.len() > 0 {
        lemma_seq_model(s.subrange(0, s.len() - 1));
    }
}

/// The text of one attribute: ` name="value"`.
pub open spec fn render_attr(a: (Seq<char>, Seq<char>)) -> Seq<char> {
    seq![' '] + a.0 + seq!['=', '"'] + a.1 + seq!['"']
}

/// The text of a list of attributes.
pub open spec fn render_attrs(a: Seq<(Seq<char>, Seq<char>)>) -> Seq<char>
    decreases a.len(),
{
    if a.len() == 0 {
        Seq::empty()
    } else {
        render_attrs(a.subrange(0, a.len() - 1)) + render_attr(a[a.len() - 1])
    }
}

/// The opening of a group tag, `<g`.
pub open spec fn open_tag() -> Seq<char> {
    seq!['<', 'g']
}

/// The closing of a group tag, `</g>`.
pub open spec fn close_tag() -> Seq<char> {
    seq!['<', '/', 'g', '>']
}

/// The final text that a text tree writes.
pub open spec fn render(m: TextModel) -> Seq<char>
    decreases m,
{
    match m {
        TextModel::Plain(s) => s,
        TextModel::Node(a, cs) => open_tag() + render_attrs(a) + seq!['>'] + render_seq(cs)
            + close_tag(),
    }
}

/// The concatenated text of a sequence of text trees.
pub open spec fn render_seq(cs: Seq<TextModel>) -> Seq<char>
    decreases cs,
{
    if cs.len() == 0 {
        Seq::empty()
    } else {
        render_seq(cs.subrange(0, cs.len() - 1)) + render(cs[cs.len() - 1])
    }
}

/// A prefix of a string that fits in memory fits too.
proof fn lemma_prefix_fits(p: Seq<char>, r: Seq<char>)
    requires
        byte_len(p + r) <= max_string_bytes(),
    ensures
        byte_len(p) <= max_string_bytes(),
{
    lemma_byte_len_concat(p, r);
}

/// The attributes written so far never take more bytes than all of them.
proof fn lemma_render_attrs_prefix(a: Seq<(Seq<char>, Seq<char>)>, k: int)
    requires
        0 <= k <= a.len(),
    ensures
        byte_len(render_attrs(a.subrange(0, k))) <= byte_len(render_attrs(a)),
    decreases a.len() - k,
{
    if k == a.len() {
        assert(a.subrange(0, k) =~= a);
    } else {
        lemma_render_attrs_prefix(a, k + 1);
        assert(a.subrange(0, k + 1).subrange(0, k) =~= a.subrange(0, k));
        lemma_byte_len_concat(render_attrs(a.subrange(0, k)), render_attr(a[k]));
    }
}

/// The children written so far never take more bytes than all of them.
proof fn lemma_render_seq_prefix(cs: Seq<TextModel>, k: int)
    requires
        0 <= k <= cs.len(),
    ensures
        byte_len(render_seq(cs.subrange(0, k))) <= byte_len(render_seq(cs)),
    decreases cs.len() - k,
{
    if k == cs.len() {
        assert(cs.subrange(0, k) =~= cs);
    } else {
        lemma_render_seq_prefix(cs, k + 1);
        assert(cs.subrange(0, k + 1).subrange(0, k) =~= cs.subrange(0, k));
        lemma_byte_len_concat(render_seq(cs.subrange(0, k)), render(cs[k]));
    }
}

/// Writes one attribute, ` name="value"`.
fn write_attr(string_io: &mut String, name: &str, value: &str)
    requires
        byte_len(old(string_io)@ + render_attr((name@, value@))) <= max_string_bytes(),
    ensures
        final(string_io)@ == old(string_io)@ + render_attr((name@, value@)),
{
    let ghost s0 = string_io@;
    let ghost total = s0 + render_attr((name@, value@));
    proof {
        assert(total =~= (s0.push(' ')) + (name@ + seq!['=', '"'] + value@ + seq!['"']));
        lemma_prefix_fits(s0.push(' '), name@ + seq!['=', '"'] + value@ + seq!['"']);
    }
    push_char(string_io, ' ');
    proof {
        assert(total =~= (s0.push(' ') + name@) + (seq!['=', '"'] + value@ + seq!['"']));
        lemma_prefix_fits(s0.push(' ') + name@, seq!['=', '"'] + value@ + seq!['"']);
    }
    push_str(string_io, name);
    proof {
        assert(total =~= (s0.push(' ') + name@).push('=') + (seq!['"'] + value@ + seq!['"']));
        lemma_prefix_fits((s0.push(' ') + name@).push('='), seq!['"'] + value@ + seq!['"']);
    }
    push_char(string_io, '=');
    proof {
        assert(total =~= (s0.push(' ') + name@).push('=').push('"') + (value@ + seq!['"']));
        lemma_prefix_fits((s0.push(' ') + name@).push('=').push('"'), value@ + seq!['"']);
    }
    push_char(string_io, '"');
    proof {
        assert(total =~= ((s0.push(' ') + name@).push('=').push('"') + value@) + seq!['"']);
        lemma_prefix_fits((s0.push(' ') + name@).push('=').push('"') + value@, seq!['"']);
    }
    push_str(string_io, value);
    assert(string_io@.push('"') =~= total);
    push_char(string_io, '"');
    assert(string_io@ =~= total);
}

impl SvgText {
    /// Recursively write the text content to the string.
    pub fn write_string_io(&self, string_io: &mut String)
        requires
            byte_len(old(string_io)@ + render(self@)) <= max_string_bytes(),
        ensures
            final(string_io)@ == old(string_io)@ + render(self@),
        decreases self,
    {
        match self {
            SvgText::Plain(c) => push_str(string_io, c.as_str()),
            SvgText::Content(c) => {
                let node: &SvgTextNode = &**c;
                node.write_string_io(string_io)
            },
        }
    }
}

impl SvgTextNode {
    /// Recursively write the text content to the string.
    pub fn write_string_io(&self, string_io: &mut String)
        requires
            byte_len(old(string_io)@ + render(self@)) <= max_string_bytes(),
        ensures
            final(string_io)@ == old(string_io)@ + render(self@),
        decreases self,
    {
        let ghost start = string_io@;
        let ghost attrs = attrs_model(self.attributes@);
        let ghost kids = seq_model(self.content@);
        let ghost total = start + render(self@);
        proof {
            reveal_strlit("<g");
            reveal_strlit("</g>");
            assert("<g"@ =~= open_tag());
            assert("</g>"@ =~= close_tag());
            lemma_seq_model(self.content@);
            assert(total =~= (start + open_tag()) + (render_attrs(attrs) + seq!['>']
                + render_seq(kids) + close_tag()));
            lemma_prefix_fits(start + open_tag(), render_attrs(attrs) + seq!['>']
                + render_seq(kids) + close_tag());
            assert(total =~= (start + open_tag() + render_attrs(attrs)) + (seq!['>']
                + render_seq(kids) + close_tag()));
            lemma_prefix_fits(start + open_tag() + render_attrs(attrs), seq!['>']
                + render_seq(kids) + close_tag());
            lemma_byte_len_concat(start + open_tag(), render_attrs(attrs));
            assert(attrs.subrange(0, 0) =~= Seq::<(Seq<char>, Seq<char>)>::empty());
            assert(start + open_tag() + render_attrs(attrs.subrange(0, 0)) =~= start + open_tag());
        }
        proof {
            reveal_strlit("<g");
            assert("<g"@ =~= open_tag());
        }
        push_str(string_io, "<g");
        let mut i: usize = 0;
        while i < self.attributes.len()
            invariant
                i <= self.attributes@.len(),
                attrs == attrs_model(self.attributes@),
                kids == seq_model(self.content@),
                total == start + render(self@),
                byte_len(total) <= max_string_bytes(),
                byte_len(start + open_tag()) + byte_len(render_attrs(attrs)) <= max_string_bytes(),
                string_io@ == start + open_tag() + render_attrs(attrs.subrange(0, i as int)),
            decreases self.attributes@.len() - i,
        {
            let ghost before = string_io@;
            proof {
                let a = attrs[i as int];
                assert(attrs.subrange(0, i as int + 1).subrange(0, i as int) =~= attrs.subrange(0, i as int));
                assert(render_attrs(attrs.subrange(0, i as int + 1)) == render_attrs(attrs.subrange(0, i as int)) + render_attr(a));
                lemma_render_attrs_prefix(attrs, i as int + 1);
                lemma_byte_len_concat(start + open_tag(), render_attrs(attrs.subrange(0, i as int + 1)));
                assert(before + render_attr(a) =~= start + open_tag() + render_attrs(attrs.subrange(0, i as int + 1)));
                assert(a == (self.attributes@[i as int].0@, self.attributes@[i as int].1@));
            }
            write_attr(string_io, self.attributes[i].0, self.attributes[i].1.as_str());
            i = i + 1;
        }
        proof {
            assert(attrs.subrange(0, attrs.len() as int) =~= attrs);
            assert(total =~= string_io@.push('>') + (render_seq(kids) + close_tag()));
            lemma_prefix_fits(string_io@.push('>'), render_seq(kids) + close_tag());
        }
        push_char(string_io, '>');
        let ghost mid = string_io@;
        proof {
            assert(total =~= mid + render_seq(kids) + close_tag());
            lemma_prefix_fits(mid + render_seq(kids), close_tag());
            lemma_byte_len_concat(mid, render_seq(kids));
            assert(kids.subrange(0, 0) =~= Seq::<TextModel>::empty());
            assert(mid + render_seq(kids.subrange(0, 0)) =~= mid);
        }
        let mut j: usize = 0;
        while j < self.content.len()
            invariant
                j <= self.content@.len(),
                kids == seq_model(self.content@),
                kids.len() == self.content@.len(),
                forall|k: int| 0 <= k < self.content@.len() ==> #[trigger] kids[k] == text_model(self.content@[k]),
                byte_len(mid) + byte_len(render_seq(kids)) <= max_string_bytes(),
                string_io@ == mid + render_seq(kids.subrange(0, j as int)),
            decreases self.content@.len() - j,
        {
            let ghost before = string_io@;
            proof {
                let m = kids[j as int];
                assert(kids.subrange(0, j as int + 1).subrange(0, j as int) =~= kids.subrange(0, j as int));
                assert(render_seq(kids.subrange(0, j as int + 1)) == render_seq(kids.subrange(0, j as int)) + render(m));
                lemma_render_seq_prefix(kids, j as int + 1);
                lemma_byte_len_concat(mid, render_seq(kids.subrange(0, j as int + 1)));
                assert(before + render(m) =~= mid + render_seq(kids.subrange(0, j as int + 1)));
            }
            self.content[j].write_string_io(string_io);
            j = j + 1;
        }
        proof {
            assert(kids.subrange(0, kids.len() as int) =~= kids);
        }
        proof {
            reveal_strlit("</g>");
            assert("</g>"@ =~= close_tag());
            assert(string_io@ + "</g>"@ =~= total);
        }
        push_str(string_io, "</g>");
        assert(string_io@ =~= total);
    }
}


/// The bytes taken by the names and values of a list of attributes.
pub open spec fn attr_bytes(a: Seq<(Seq<char>, Seq<char>)>) -> nat
    decreases a.len(),
{
    if a.len() == 0 {
        0
    } else {
        attr_bytes(a.subrange(0, a.len() - 1)) + byte_len(a[a.len() - 1].0) + byte_len(
            a[a.len() - 1].1,
        )
    }
}

/// The estimate of the final length in bytes: `<g>`, ` =""` for each
/// attribute with its name and value, the children, and `</g>`.
pub open spec fn estimated(m: TextModel) -> nat
    decreases m,
{
    match m {
        TextModel::Plain(s) => byte_len(s),
        TextModel::Node(a, cs) => 3 + (4 * a.len() + attr_bytes(a)) + estimated_seq(cs) + 4,
    }
}

/// The sum of the estimates of a sequence of text trees.
pub open spec fn estimated_seq(cs: Seq<TextModel>) -> nat
    decreases cs,
{
    if cs.len() == 0 {
        0
    } else {
        estimated_seq(cs.subrange(0, cs.len() - 1)) + estimated(cs[cs.len() - 1])
    }
}

/// A prefix of an attribute list never takes more bytes than the whole list.
pub proof fn lemma_attr_bytes_prefix(a: Seq<(Seq<char>, Seq<char>)>, k: int)
    requires
        0 <= k <= a.len(),
    ensures
        attr_bytes(a.subrange(0, k)) <= attr_bytes(a),
    decreases a.len() - k,
{
    if k == a.len() {
        assert(a.subrange(0, k) =~= a);
    } else {
        lemma_attr_bytes_prefix(a, k + 1);
        assert(a.subrange(0, k + 1).subrange(0, k) =~= a.subrange(0, k));
    }
}

/// A prefix of a sequence never has a larger estimate than the whole sequence.
pub proof fn lemma_estimated_seq_prefix(cs: Seq<TextModel>, k: int)
    requires
        0 <= k <= cs.len(),
    ensures
        estimated_seq(cs.subrange(0, k)) <= estimated_seq(cs),
    decreases cs.len() - k,
{
    if k == cs.len() {
        assert(cs.subrange(0, k) =~= cs);
    } else {
        lemma_estimated_seq_prefix(cs, k + 1);
        assert(cs.subrange(0, k + 1).subrange(0, k) =~= cs.subrange(0, k));
    }
}

impl SvgText {
    /// Recursively estimate the length of the text node for final string
    /// allocation.
    pub fn estimated_len(&self) -> (r: usize)
        requires
            estimated(self@) <= usize::MAX,
        ensures
            r == estimated(self@),
        decreases self,
    {
        match self {
            SvgText::Plain(p) => p.as_str().len(),
            SvgText::Content(c) => {
                let node: &SvgTextNode = &**c;
                node.estimated_len()
            },
        }
    }
}

impl SvgTextNode {
    /// Recursively estimate the length of the text node for final string
    /// allocation.
    pub fn estimated_len(&self) -> (r: usize)
        requires
            estimated(self@) <= usize::MAX,
        ensures
            r == estimated(self@),
        decreases self,
    {
        let ghost attrs = attrs_model(self.attributes@);
        let ghost kids = seq_model(self.content@);
        proof {
            lemma_seq_model(self.content@);
            assert(kids.subrange(0, 0) =~= Seq::<TextModel>::empty());
            assert(attrs.subrange(0, 0) =~= Seq::<(Seq<char>, Seq<char>)>::empty());
        }
        let mut content_estimated: usize = 0;
        let mut j: usize = 0;
        while j < self.content.len()
            invariant
                j <= self.content@.len(),
                kids == seq_model(self.content@),
                kids.len() == self.content@.len(),
                forall|k: int| 0 <= k < self.content@.len() ==> #[trigger] kids[k] == text_model(self.content@[k]),
                estimated_seq(kids) <= usize::MAX,
                content_estimated == estimated_seq(kids.subrange(0, j as int)),
            decreases self.content@.len() - j,
        {
            proof {
                assert(kids.subrange(0, j as int + 1).subrange(0, j as int) =~= kids.subrange(0, j as int));
                lemma_estimated_seq_prefix(kids, j as int + 1);
            }
            let e = self.content[j].estimated_len();
            content_estimated = content_estimated + e;
            j = j + 1;
        }
        assert(kids.subrange(0, kids.len() as int) =~= kids);
        let mut attr_estimated: usize = 0;
        let mut i: usize = 0;
        while i < self.attributes.len()
            invariant
                i <= self.attributes@.len(),
                attrs == attrs_model(self.attributes@),
                attr_bytes(attrs) <= usize::MAX,
                attr_estimated == attr_bytes(attrs.subrange(0, i as int)),
            decreases self.attributes@.len() - i,
        {
            proof {
                assert(attrs.subrange(0, i as int + 1).subrange(0, i as int) =~= attrs.subrange(0, i as int));
                lemma_attr_bytes_prefix(attrs, i as int + 1);
            }
            let attr = &self.attributes[i];
            attr_estimated = attr_estimated + (attr.0.len() + attr.1.as_str().len());
            i = i + 1;
        }
        assert(attrs.subrange(0, attrs.len() as int) =~= attrs);
        proof {
            reveal_strlit("<g>");
            reveal_strlit(" =\"\"");
            reveal_strlit("</g>");
            lemma_byte_len_ascii("<g>"@);
            lemma_byte_len_ascii(" =\"\""@);
            lemma_byte_len_ascii("</g>"@);
        }
        "<g>".len() + (" =\"\"".len() * self.attributes.len() + attr_estimated) + content_estimated
            + "</g>".len()
    }
}

/// Concatenate a list of [`SvgText`] into a single string.
pub fn generate_text(text_list: Vec<SvgText>) -> (r: String)
    requires
        byte_len(render_seq(seq_model(text_list@))) <= max_string_bytes(),
    ensures
        r@ == render_seq(seq_model(text_list@)),
{
    let ghost kids = seq_model(text_list@);
    proof {
        lemma_seq_model(text_list@);
        lemma_estimated_seq_is_byte_len(kids);
        assert(kids.subrange(0, 0) =~= Seq::<TextModel>::empty());
    }
    let mut total: usize = 0;
    let mut j: usize = 0;
    while j < text_list.len()
        invariant
            j <= text_list@.len(),
            kids == seq_model(text_list@),
            kids.len() == text_list@.len(),
            forall|k: int| 0 <= k < text_list@.len() ==> #[trigger] kids[k] == text_model(text_list@[k]),
            estimated_seq(kids) <= max_string_bytes(),
            total == estimated_seq(kids.subrange(0, j as int)),
        decreases text_list@.len() - j,
    {
        proof {
            assert(kids.subrange(0, j as int + 1).subrange(0, j as int) =~= kids.subrange(0, j as int));
            lemma_estimated_seq_prefix(kids, j as int + 1);
        }
        let e = text_list[j].estimated_len();
        total = total + e;
        j = j + 1;
    }
    assert(kids.subrange(0, kids.len() as int) =~= kids);
    let mut string_io = String::new();
    assert(byte_len(string_io@) == 0);
    reserve(&mut string_io, total);
    proof {
        assert(string_io@ + render_seq(kids.subrange(0, 0)) =~= Seq::<char>::empty());
    }
    let mut j: usize = 0;
    while j < text_list.len()
        invariant
            j <= text_list@.len(),
            kids == seq_model(text_list@),
            kids.len() == text_list@.len(),
            forall|k: int| 0 <= k < text_list@.len() ==> #[trigger] kids[k] == text_model(text_list@[k]),
            byte_len(render_seq(kids)) <= max_string_bytes(),
            string_io@ == render_seq(kids.subrange(0, j as int)),
        decreases text_list@.len() - j,
    {
        proof {
            assert(kids.subrange(0, j as int + 1).subrange(0, j as int) =~= kids.subrange(0, j as int));
            lemma_render_seq_prefix(kids, j as int + 1);
        }
        text_list[j].write_string_io(&mut string_io);
        j = j + 1;
    }
    assert(kids.subrange(0, kids.len() as int) =~= kids);
    string_io
}

impl SvgText {
    /// Concatenates a list of text items into one string.
    pub fn join(data: Vec<SvgText>) -> (r: String)
        requires
            byte_len(render_seq(seq_model(data@))) <= max_string_bytes(),
        ensures
            r@ == render_seq(seq_model(data@)),
    {
        generate_text(data)
    }
}

proof fn lemma_attrs_byte_len(a: Seq<(Seq<char>, Seq<char>)>)
    ensures
        byte_len(render_attrs(a)) == 4 * a.len() + attr_bytes(a),
    decreases a.len(),
{
    if a.len() > 0 {
        let init = a.subrange(0, a.len() - 1);
        let x = a[a.len() - 1];
        lemma_attrs_byte_len(init);
        lemma_byte_len_concat(render_attrs(init), render_attr(x));
        lemma_byte_len_concat(seq![' '] + x.0 + seq!['=', '"'] + x.1, seq!['"']);
        lemma_byte_len_concat(seq![' '] + x.0 + seq!['=', '"'], x.1);
        lemma_byte_len_concat(seq![' '] + x.0, seq!['=', '"']);
        lemma_byte_len_concat(seq![' '], x.0);
        lemma_byte_len_ascii(seq![' ']);
        lemma_byte_len_ascii(seq!['=', '"']);
        lemma_byte_len_ascii(seq!['"']);
    }
}

/// The estimate of a tree is exactly the number of bytes of its rendered text.
pub proof fn lemma_estimated_is_byte_len(m: TextModel)
    ensures
        estimated(m) == byte_len(render(m)),
    decreases m,
{
    match m {
        TextModel::Plain(s) => {},
        TextModel::Node(a, cs) => {
            lemma_attrs_byte_len(a);
            lemma_estimated_seq_is_byte_len(cs);
            lemma_byte_len_concat(open_tag() + render_attrs(a) + seq!['>'] + render_seq(cs), close_tag());
            lemma_byte_len_concat(open_tag() + render_attrs(a) + seq!['>'], render_seq(cs));
            lemma_byte_len_concat(open_tag() + render_attrs(a), seq!['>']);
            lemma_byte_len_concat(open_tag(), render_attrs(a));
            lemma_byte_len_ascii(open_tag());
            lemma_byte_len_ascii(seq!['>']);
            lemma_byte_len_ascii(close_tag());
        },
    }
}

/// The estimate of a sequence is exactly the number of bytes of its rendered text.
pub proof fn lemma_estimated_seq_is_byte_len(cs: Seq<TextModel>)
    ensures
        estimated_seq(cs) == byte_len(render_seq(cs)),
    decreases cs,
{
    if cs.len() > 0 {
        lemma_estimated_seq_is_byte_len(cs.subrange(0, cs.len() - 1));
        lemma_estimated_is_byte_len(cs[cs.len() - 1]);
        lemma_byte_len_concat(render_seq(cs.subrange(0, cs.len() - 1)), render(cs[cs.len() - 1]));
    }
}


impl SvgText {
    /// A deep copy of this text tree.
    pub fn deep_clone(&self) -> (r: SvgText)
        ensures
            r@ == self@,
        decreases self,
    {
        match self {
            SvgText::Plain(s) => SvgText::Plain(s.clone()),
            SvgText::Content(c) => {
                let node: &SvgTextNode = &**c;
                SvgText::Content(Arc::new(node.deep_clone()))
            },
        }
    }
}

impl SvgTextNode {
    /// A deep copy of this node.
    pub fn deep_clone(&self) -> (r: SvgTextNode)
        ensures
            r@ == self@,
        decreases self,
    {
        let attributes = clone_attributes(&self.attributes);
        let content = clone_children(&self.content);
        SvgTextNode { attributes, content }
    }
}

/// A deep copy of a list of text trees.
pub fn clone_children(v: &Vec<SvgText>) -> (r: Vec<SvgText>)
    ensures
        seq_model(r@) == seq_model(v@),
    decreases v@,
{
    let mut content: Vec<SvgText> = Vec::new();
    let mut j: usize = 0;
    while j < v.len()
        invariant
            j <= v@.len(),
            content@.len() == j,
            forall|k: int| 0 <= k < j ==> #[trigger] text_model(content@[k]) == text_model(v@[k]),
        decreases v@.len() - j,
    {
        let c = v[j].deep_clone();
        content.push(c);
        j = j + 1;
    }
    proof {
        lemma_seq_model(v@);
        lemma_seq_model(content@);
        assert(seq_model(content@) =~= seq_model(v@));
    }
    content
}

/// A copy of a list of attributes.
pub fn clone_attributes(a: &Vec<(&'static str, String)>) -> (r: Vec<(&'static str, String)>)
    ensures
        attrs_model(r@) == attrs_model(a@),
{
    let mut r: Vec<(&'static str, String)> = Vec::new();
    let mut i: usize = 0;
    while i < a.len()
        invariant
            i <= a@.len(),
            r@.len() == i,
            forall|k: int| 0 <= k < i ==> #[trigger] r@[k].0@ == a@[k].0@ && r@[k].1@ == a@[k].1@,
        decreases a@.len() - i,
    {
        let name: &'static str = a[i].0;
        let value = a[i].1.clone();
        r.push((name, value));
        i = i + 1;
    }
    assert(attrs_model(r@) =~= attrs_model(a@));
    r
}

/// A text node under construction: the attributes and content it will
/// have.
#[derive(Debug)]
pub struct SvgTextBuilder {
    pub attributes: Vec<(&'static str, String)>,
    pub content: Vec<SvgText>,
}

impl SvgTextBuilder {
    /// Marks the node as a content hint for character `ch`: class
    /// `typst-content-hint`, and the character's code in hexadecimal as
    /// `data-hint`.
    pub fn render_content_hint(&mut self, ch: char)
        ensures
            attrs_model(final(self).attributes@) == attrs_model(old(self).attributes@).push(
                ("class"@, "typst-content-hint"@),
            ).push(("data-hint"@, hex_of(ch as nat))),
            seq_model(final(self).content@) == seq_model(old(self).content@),
    {
        let ghost before = attrs_model(self.attributes@);
        self.attributes.push(("class", String::from_str("typst-content-hint")));
        let code = to_hex(ch as u32 as u128);
        self.attributes.push(("data-hint", code));
        assert(attrs_model(self.attributes@) =~= before.push(("class"@, "typst-content-hint"@)).push(
            ("data-hint"@, hex_of(ch as nat)),
        ));
    }

    /// Attaches the span an item came from, in hexadecimal as `data-span`,
    /// when debug information is wanted.
    pub fn attach_debug_info(&mut self, should_attach_debug_info: bool, span_id: u64)
        ensures
            attrs_model(final(self).attributes@) == (if should_attach_debug_info {
                attrs_model(old(self).attributes@).push(("data-span"@, hex_of(span_id as nat)))
            } else {
                attrs_model(old(self).attributes@)
            }),
            seq_model(final(self).content@) == seq_model(old(self).content@),
    {
        if should_attach_debug_info {
            let ghost before = attrs_model(self.attributes@);
            let id = to_hex(span_id as u128);
            self.attributes.push(("data-span", id));
            assert(attrs_model(self.attributes@) =~= before.push(("data-span"@, hex_of(span_id as nat))));
        }
    }

    /// The finished node.
    pub fn into_node(self) -> (r: SvgTextNode)
        ensures
            attrs_model(r.attributes@) == attrs_model(self.attributes@),
            seq_model(r.content@) == seq_model(self.content@),
    {
        SvgTextNode { attributes: self.attributes, content: self.content }
    }
}

} // verus!
