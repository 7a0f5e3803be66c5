use std::sync::Arc;
use vstd::prelude::*;

use crate::strings::{byte_len, lemma_byte_len_ascii, lemma_byte_len_concat, max_string_bytes, push_str, str_eq};
use crate::svg_text::{
    attr_bytes, attrs_model, clone_attributes, clone_children, estimated, estimated_seq,
    lemma_attr_bytes_prefix, lemma_seq_model, seq_model, text_model,
    SvgText, SvgTextNode, TextModel,
};

verus! {

/// The name of the attribute that minification folds: `transform`.
pub open spec fn transform_key() -> Seq<char> {
    seq!['t', 'r', 'a', 'n', 's', 'f', 'o', 'r', 'm']
}

/// The number of items in a text tree.
pub open spec fn size(m: TextModel) -> nat
    decreases m,
{
    match m {
        TextModel::Plain(_) => 1,
        TextModel::Node(_, cs) => 1 + size_seq(cs),
    }
}

/// The number of items in a sequence of text trees.
pub open spec fn size_seq(cs: Seq<TextModel>) -> nat
    decreases cs,
{
    if cs.len() == 0 {
        0
    } else {
        size_seq(cs.subrange(0, cs.len() - 1)) + size(cs[cs.len() - 1])
    }
}

/// A node with a single `transform` attribute whose only child is itself a node:
/// the two can be merged into one.
pub open spec fn can_fold(m: TextModel) -> bool {
    match m {
        TextModel::Node(a, cs) => a.len() == 1 && cs.len() == 1 && a[0].0 == transform_key()
            && cs[0] is Node,
        TextModel::Plain(_) => false,
    }
}

/// Adds one attribute of the inner node to the attributes of the outer one: a
/// `transform` is appended, after `, `, to the outer transform; any other
/// attribute is added at the end.
pub open spec fn merge_attr(acc: Seq<(Seq<char>, Seq<char>)>, kv: (Seq<char>, Seq<char>)) -> Seq<
    (Seq<char>, Seq<char>),
> {
    if kv.0 == transform_key() {
        acc.update(0, (acc[0].0, acc[0].1 + seq![',', ' '] + kv.1))
    } else {
        acc.push(kv)
    }
}

/// Adds the attributes of the inner node, in order, to those of the outer one.
pub open spec fn merge_attrs(a: Seq<(Seq<char>, Seq<char>)>, sa: Seq<(Seq<char>, Seq<char>)>) -> Seq<
    (Seq<char>, Seq<char>),
>
    decreases sa.len(),
{
    if sa.len() == 0 {
        a
    } else {
        merge_attr(merge_attrs(a, sa.subrange(0, sa.len() - 1)), sa[sa.len() - 1])
    }
}

/// The node that a fold leaves: the outer attributes merged with the inner
/// ones, and the inner node's children.
pub open spec fn fold_node(m: TextModel) -> TextModel {
    match m {
        TextModel::Node(a, cs) => match cs[0] {
            TextModel::Node(sa, scs) => TextModel::Node(merge_attrs(a, sa), scs),
            TextModel::Plain(_) => m,
        },
        TextModel::Plain(_) => m,
    }
}

/// Every tree has at least one item.
pub proof fn lemma_size_pos(m: TextModel)
    ensures
        size(m) >= 1,
{
}

/// Folding removes exactly one item.
pub proof fn lemma_fold_size(m: TextModel)
    requires
        can_fold(m),
    ensures
        size(fold_node(m)) + 1 == size(m),
{
    match m {
        TextModel::Node(a, cs) => {
            assert(cs.subrange(0, 0) =~= Seq::<TextModel>::empty());
            assert(size_seq(cs.subrange(0, 0)) == 0);
            assert(size_seq(cs) == size(cs[0]));
        },
        TextModel::Plain(_) => {},
    }
}

/// The minified tree, and whether anything was folded.
pub open spec fn minified(m: TextModel) -> (TextModel, bool)
    decreases size(m), 0nat,
{
    if can_fold(m) {
        proof {
            lemma_fold_size(m);
        }
        (minified(fold_node(m)).0, true)
    } else {
        match m {
            TextModel::Plain(_) => (m, false),
            TextModel::Node(a, cs) => {
                let r = minified_seq(cs);
                (TextModel::Node(a, r.0), r.1)
            },
        }
    }
}

/// The minified trees of a sequence, and whether anything was folded.
pub open spec fn minified_seq(cs: Seq<TextModel>) -> (Seq<TextModel>, bool)
    decreases size_seq(cs), 1nat,
{
    if cs.len() == 0 {
        (Seq::empty(), false)
    } else {
        proof {
            lemma_size_pos(cs[cs.len() - 1]);
        }
        let r = minified_seq(cs.subrange(0, cs.len() - 1));
        let x = minified(cs[cs.len() - 1]);
        (r.0.push(x.0), r.1 || x.1)
    }
}


/// The bytes of the names and values of one attribute.
pub open spec fn one_attr_bytes(kv: (Seq<char>, Seq<char>)) -> nat {
    byte_len(kv.0) + byte_len(kv.1)
}

proof fn lemma_attr_bytes_push(acc: Seq<(Seq<char>, Seq<char>)>, kv: (Seq<char>, Seq<char>))
    ensures
        attr_bytes(acc.push(kv)) == attr_bytes(acc) + one_attr_bytes(kv),
{
    assert(acc.push(kv).subrange(0, acc.len() as int) =~= acc);
}

proof fn lemma_attr_bytes_update(acc: Seq<(Seq<char>, Seq<char>)>, k: int, x: (Seq<char>, Seq<char>))
    requires
        0 <= k < acc.len(),
    ensures
        attr_bytes(acc.update(k, x)) + one_attr_bytes(acc[k]) == attr_bytes(acc) + one_attr_bytes(x),
    decreases acc.len(),
{
    let n = acc.len() as int;
    let u = acc.update(k, x);
    if k == n - 1 {
        assert(u.subrange(0, n - 1) =~= acc.subrange(0, n - 1));
    } else {
        lemma_attr_bytes_update(acc.subrange(0, n - 1), k, x);
        assert(u.subrange(0, n - 1) =~= acc.subrange(0, n - 1).update(k, x));
    }
}

/// Merging the inner attributes into the outer ones keeps the first attribute's
/// name and never takes more room than the two lists took apart.
pub proof fn lemma_merge_attrs_bound(a: Seq<(Seq<char>, Seq<char>)>, sa: Seq<(Seq<char>, Seq<char>)>)
    requires
        a.len() >= 1,
    ensures
        merge_attrs(a, sa).len() >= 1,
        merge_attrs(a, sa)[0].0 == a[0].0,
        4 * merge_attrs(a, sa).len() + attr_bytes(merge_attrs(a, sa)) <= 4 * a.len() + attr_bytes(a)
            + 4 * sa.len() + attr_bytes(sa),
    decreases sa.len(),
{
    if sa.len() > 0 {
        let init = sa.subrange(0, sa.len() - 1);
        let kv = sa[sa.len() - 1];
        lemma_merge_attrs_bound(a, init);
        let acc = merge_attrs(a, init);
        if kv.0 == transform_key() {
            let x = (acc[0].0, acc[0].1 + seq![',', ' '] + kv.1);
            lemma_attr_bytes_update(acc, 0, x);
            lemma_byte_len_concat(acc[0].1 + seq![',', ' '], kv.1);
            lemma_byte_len_concat(acc[0].1, seq![',', ' ']);
            lemma_byte_len_ascii(seq![',', ' ']);
            lemma_byte_len_ascii(transform_key());
        } else {
            lemma_attr_bytes_push(acc, kv);
        }
    }
}

/// A single attribute value never takes more bytes than all attributes.
proof fn lemma_attr_value_le(acc: Seq<(Seq<char>, Seq<char>)>, k: int)
    requires
        0 <= k < acc.len(),
    ensures
        byte_len(acc[k].1) <= attr_bytes(acc),
    decreases acc.len(),
{
    if k < acc.len() - 1 {
        lemma_attr_value_le(acc.subrange(0, acc.len() - 1), k);
    }
}

/// Folding never makes the estimate grow.
pub proof fn lemma_fold_estimated(m: TextModel)
    requires
        can_fold(m),
    ensures
        estimated(fold_node(m)) <= estimated(m),
{
    match m {
        TextModel::Node(a, cs) => {
            assert(cs.subrange(0, 0) =~= Seq::<TextModel>::empty());
            assert(estimated_seq(cs.subrange(0, 0)) == 0);
            assert(estimated_seq(cs) == estimated(cs[0]));
            match cs[0] {
                TextModel::Node(sa, scs) => {
                    lemma_merge_attrs_bound(a, sa);
                    assert(estimated(cs[0]) == 3 + (4 * sa.len() + attr_bytes(sa)) + estimated_seq(scs) + 4);
                },
                TextModel::Plain(_) => {},
            }
        },
        TextModel::Plain(_) => {},
    }
}

/// Minification never makes a tree longer or bigger; it reports no change
/// only when the tree is left as it was, and a reported change always
/// removes at least one item.
pub proof fn lemma_minified_bounds(m: TextModel)
    ensures
        estimated(minified(m).0) <= estimated(m),
        size(minified(m).0) <= size(m),
        !minified(m).1 ==> minified(m).0 == m,
        minified(m).1 ==> size(minified(m).0) < size(m),
    decreases size(m), 0nat,
{
    if can_fold(m) {
        lemma_fold_size(m);
        lemma_fold_estimated(m);
        lemma_minified_bounds(fold_node(m));
    } else {
        match m {
            TextModel::Plain(_) => {},
            TextModel::Node(a, cs) => {
                lemma_minified_seq_bounds(cs);
            },
        }
    }
}

/// The sequence form of [`lemma_minified_bounds`].
pub proof fn lemma_minified_seq_bounds(cs: Seq<TextModel>)
    ensures
        estimated_seq(minified_seq(cs).0) <= estimated_seq(cs),
        size_seq(minified_seq(cs).0) <= size_seq(cs),
        !minified_seq(cs).1 ==> minified_seq(cs).0 == cs,
        minified_seq(cs).1 ==> size_seq(minified_seq(cs).0) < size_seq(cs),
        minified_seq(cs).0.len() == cs.len(),
    decreases size_seq(cs), 1nat,
{
    if cs.len() > 0 {
        let init = cs.subrange(0, cs.len() - 1);
        let last = cs[cs.len() - 1];
        lemma_size_pos(last);
        lemma_minified_seq_bounds(init);
        lemma_minified_bounds(last);
        let r = minified_seq(init);
        let x = minified(last);
        assert(r.0.push(x.0).subrange(0, r.0.len() as int) =~= r.0);
        if !(r.1 || x.1) {
            assert(init.push(last) =~= cs);
        }
    }
}


/// No group anywhere in the tree can be folded.
pub open spec fn fully_minified(m: TextModel) -> bool
    decreases m,
{
    match m {
        TextModel::Plain(_) => true,
        TextModel::Node(_, cs) => !can_fold(m) && fully_minified_seq(cs),
    }
}

/// No group anywhere in the sequence can be folded.
pub open spec fn fully_minified_seq(cs: Seq<TextModel>) -> bool
    decreases cs,
{
    if cs.len() == 0 {
        true
    } else {
        fully_minified_seq(cs.subrange(0, cs.len() - 1)) && fully_minified(cs[cs.len() - 1])
    }
}

/// Minification keeps plain text plain and groups groups.
pub proof fn lemma_minified_kind(m: TextModel)
    ensures
        (minified(m).0 is Node) == (m is Node),
    decreases size(m), 0nat,
{
    if can_fold(m) {
        lemma_fold_size(m);
        lemma_minified_kind(fold_node(m));
    }
}

/// Minification leaves no group that could still be folded.
pub proof fn lemma_minified_is_minimal(m: TextModel)
    ensures
        fully_minified(minified(m).0),
    decreases size(m), 0nat,
{
    if can_fold(m) {
        lemma_fold_size(m);
        lemma_minified_is_minimal(fold_node(m));
    } else {
        match m {
            TextModel::Plain(_) => {},
            TextModel::Node(a, cs) => {
                lemma_minified_seq_is_minimal(cs);
                lemma_minified_seq_bounds(cs);
                if cs.len() == 1 {
                    assert(cs.subrange(0, 0) =~= Seq::<TextModel>::empty());
                    lemma_minified_kind(cs[0]);
                    assert(minified_seq(cs).0[0] == minified(cs[0]).0);
                }
            },
        }
    }
}

/// The sequence form of [`lemma_minified_is_minimal`].
pub proof fn lemma_minified_seq_is_minimal(cs: Seq<TextModel>)
    ensures
        fully_minified_seq(minified_seq(cs).0),
    decreases size_seq(cs), 1nat,
{
    if cs.len() > 0 {
        let init = cs.subrange(0, cs.len() - 1);
        let last = cs[cs.len() - 1];
        lemma_size_pos(last);
        lemma_minified_seq_is_minimal(init);
        lemma_minified_is_minimal(last);
        lemma_minified_seq_bounds(init);
        let r = minified_seq(init);
        let x = minified(last);
        assert(r.0.push(x.0).subrange(0, r.0.len() as int) =~= r.0);
    }
}

/// A tree with nothing left to fold is reported unchanged.
pub proof fn lemma_minimal_is_fixed(m: TextModel)
    requires
        fully_minified(m),
    ensures
        !minified(m).1,
        minified(m).0 == m,
    decreases m,
{
    lemma_minified_bounds(m);
    match m {
        TextModel::Plain(_) => {},
        TextModel::Node(_, cs) => {
            lemma_minimal_seq_is_fixed(cs);
        },
    }
}

/// The sequence form of [`lemma_minimal_is_fixed`].
pub proof fn lemma_minimal_seq_is_fixed(cs: Seq<TextModel>)
    requires
        fully_minified_seq(cs),
    ensures
        !minified_seq(cs).1,
    decreases cs,
{
    if cs.len() > 0 {
        lemma_minimal_seq_is_fixed(cs.subrange(0, cs.len() - 1));
        lemma_minimal_is_fixed(cs[cs.len() - 1]);
    }
}

/// Minifying twice gives what minifying once gave, and the second pass
/// reports no change.
pub proof fn lemma_minify_idempotent(m: TextModel)
    ensures
        minified(minified(m).0) == (minified(m).0, false),
{
    lemma_minified_is_minimal(m);
    lemma_minimal_is_fixed(minified(m).0);
}

proof fn lemma_size_seq_elem(cs: Seq<TextModel>, k: int)
    requires
        0 <= k < cs.len(),
    ensures
        size(cs[k]) <= size_seq(cs),
        estimated(cs[k]) <= estimated_seq(cs),
    decreases cs.len(),
{
    if k < cs.len() - 1 {
        lemma_size_seq_elem(cs.subrange(0, cs.len() - 1), k);
    }
}

proof fn lemma_minified_seq_take(cs: Seq<TextModel>, j: int)
    requires
        0 <= j < cs.len(),
    ensures
        minified_seq(cs.subrange(0, j + 1)).0 == minified_seq(cs.subrange(0, j)).0.push(
            minified(cs[j]).0,
        ),
        minified_seq(cs.subrange(0, j + 1)).1 == (minified_seq(cs.subrange(0, j)).1 || minified(
            cs[j],
        ).1),
{
    assert(cs.subrange(0, j + 1).subrange(0, j) =~= cs.subrange(0, j));
}

/// Folds, in one text tree, every group that holds nothing but a `transform`
/// attribute and a single child group into that child; returns whether
/// anything was folded.
pub fn minify_one(text: &mut SvgText) -> (r: bool)
    requires
        estimated(old(text)@) <= max_string_bytes(),
    ensures
        final(text)@ == minified(old(text)@).0,
        r == minified(old(text)@).1,
    decreases size(old(text)@),
{
    let ghost m = text@;
    let node: &SvgTextNode = match &*text {
        SvgText::Plain(_) => return false,
        SvgText::Content(c) => &**c,
    };
    let ghost a = attrs_model(node.attributes@);
    let ghost kids = seq_model(node.content@);
    proof {
        lemma_seq_model(node.content@);
        reveal_strlit("transform");
        assert("transform"@ =~= transform_key());
        assert(m == TextModel::Node(a, kids));
    }
    if node.content.len() == 1 && node.attributes.len() == 1 && str_eq(
        node.attributes[0].0,
        "transform",
    ) {
        match &node.content[0] {
            SvgText::Content(s) => {
                let sub: &SvgTextNode = &**s;
                let ghost sa = attrs_model(sub.attributes@);
                proof {
                    assert(kids[0] == text_model(node.content@[0]));
                    assert(can_fold(m));
                    assert(kids.subrange(0, 0) =~= Seq::<TextModel>::empty());
                    assert(estimated_seq(kids.subrange(0, 0)) == 0);
                    assert(estimated_seq(kids) == estimated(kids[0]));
                    assert(estimated(m) == 3 + (4 * 1 + attr_bytes(a)) + estimated(kids[0]) + 4);
                    assert(sa.subrange(0, 0) =~= Seq::<(Seq<char>, Seq<char>)>::empty());
                }
                let mut attrs = clone_attributes(&node.attributes);
                let mut i: usize = 0;
                while i < sub.attributes.len()
                    invariant
                        i <= sub.attributes@.len(),
                        sa == attrs_model(sub.attributes@),
                        a.len() == 1,
                        4 * 1 + attr_bytes(a) + 4 * sa.len() + attr_bytes(sa) <= max_string_bytes(),
                        attrs_model(attrs@) == merge_attrs(a, sa.subrange(0, i as int)),
                    decreases sub.attributes@.len() - i,
                {
                    let ghost acc = attrs_model(attrs@);
                    let ghost kv = sa[i as int];
                    proof {
                        assert(sa.subrange(0, i as int + 1).subrange(0, i as int) =~= sa.subrange(0, i as int));
                        assert(sa.subrange(0, i as int + 1)[i as int] == kv);
                        let s1 = sa.subrange(0, i as int + 1);
                        assert(s1.subrange(0, s1.len() - 1) =~= sa.subrange(0, i as int));
                        assert(merge_attrs(a, s1) == merge_attr(acc, kv));
                        lemma_merge_attrs_bound(a, sa.subrange(0, i as int + 1));
                        lemma_merge_attrs_bound(a, sa.subrange(0, i as int));
                        lemma_attr_bytes_prefix(sa, i as int + 1);
                        reveal_strlit(", ");
                        reveal_strlit("transform");
                        assert("transform"@ =~= transform_key());
                        assert(", "@ =~= seq![',', ' ']);
                    }
                    let key: &'static str = sub.attributes[i].0;
                    assert(kv == (key@, sub.attributes@[i as int].1@));
                    if str_eq(key, "transform") {
                        let ghost merged = merge_attrs(a, sa.subrange(0, i as int + 1));
                        proof {
                            assert(merged == acc.update(0, (acc[0].0, acc[0].1 + seq![',', ' '] + kv.1)));
                            lemma_attr_value_le(merged, 0);
                            lemma_byte_len_concat(acc[0].1 + seq![',', ' '], kv.1);
                        }
                        let mut value = attrs[0].1.clone();
                        push_str(&mut value, ", ");
                        push_str(&mut value, sub.attributes[i].1.as_str());
                        let name: &'static str = attrs[0].0;
                        attrs.set(0, (name, value));
                        proof {
                            assert(attrs_model(attrs@) =~= merged);
                        }
                    } else {
                        let value = sub.attributes[i].1.clone();
                        attrs.push((key, value));
                        proof {
                            assert(attrs_model(attrs@) =~= merge_attrs(a, sa.subrange(0, i as int + 1)));
                        }
                    }
                    i = i + 1;
                }
                proof {
                    assert(sa.subrange(0, sa.len() as int) =~= sa);
                }
                let content = clone_children(&sub.content);
                *text = SvgText::Content(Arc::new(SvgTextNode { attributes: attrs, content }));
                proof {
                    assert(text@ == fold_node(m));
                    lemma_fold_size(m);
                    lemma_fold_estimated(m);
                }
                minify_one(text);
                return true;
            },
            SvgText::Plain(_) => {},
        }
    }
    proof {
        if node.content@.len() == 1 && node.attributes@.len() == 1 {
            assert(kids[0] == text_model(node.content@[0]));
        }
        assert(!can_fold(m));
        assert(kids.subrange(0, 0) =~= Seq::<TextModel>::empty());
    }
    let mut optimized = false;
    let mut new_content: Vec<SvgText> = Vec::new();
    let mut j: usize = 0;
    while j < node.content.len()
        invariant
            j <= node.content@.len(),
            kids == seq_model(node.content@),
            kids.len() == node.content@.len(),
            forall|k: int| 0 <= k < node.content@.len() ==> #[trigger] kids[k] == text_model(node.content@[k]),
            m == TextModel::Node(a, kids),
            old(text)@ == m,
            !can_fold(m),
            estimated(m) <= max_string_bytes(),
            seq_model(new_content@) == minified_seq(kids.subrange(0, j as int)).0,
            optimized == minified_seq(kids.subrange(0, j as int)).1,
        decreases node.content@.len() - j,
    {
        proof {
            lemma_size_seq_elem(kids, j as int);
            lemma_minified_seq_take(kids, j as int);
            lemma_seq_model(new_content@);
        }
        let mut c = node.content[j].deep_clone();
        let sub = minify_one(&mut c);
        let ghost before = new_content@;
        new_content.push(c);
        proof {
            lemma_seq_model(new_content@);
            lemma_seq_model(before);
            lemma_minified_seq_bounds(kids.subrange(0, j as int));
            assert(seq_model(new_content@) =~= seq_model(before).push(text_model(c)));
        }
        if sub {
            optimized = true;
        }
        j = j + 1;
    }
    proof {
        assert(kids.subrange(0, kids.len() as int) =~= kids);
        lemma_minified_seq_bounds(kids);
    }
    if optimized {
        let attributes = clone_attributes(&node.attributes);
        *text = SvgText::Content(Arc::new(SvgTextNode { attributes, content: new_content }));
    }
    optimized
}

/// Do semantic-aware minification of SVG.
pub fn minify(svg: Vec<SvgText>) -> (r: Vec<SvgText>)
    requires
        forall|i: int| 0 <= i < svg@.len() ==> estimated(#[trigger] svg@[i]@) <= max_string_bytes(),
    ensures
        r@.len() == svg@.len(),
        forall|i: int| 0 <= i < svg@.len() ==> #[trigger] r@[i]@ == minified(svg@[i]@).0,
{
    let mut out: Vec<SvgText> = Vec::new();
    let mut j: usize = 0;
    while j < svg.len()
        invariant
            j <= svg@.len(),
            out@.len() == j,
            forall|i: int| 0 <= i < svg@.len() ==> estimated(#[trigger] svg@[i]@) <= max_string_bytes(),
            forall|i: int| 0 <= i < j ==> #[trigger] out@[i]@ == minified(svg@[i]@).0,
        decreases svg@.len() - j,
    {
        let mut c = svg[j].deep_clone();
        minify_one(&mut c);
        out.push(c);
        j = j + 1;
    }
    out
}

} // verus!
