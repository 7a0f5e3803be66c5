use vstd::prelude::*;

use crate::span_map::SourceSpanOffset;

use crate::span_map::{
    first_attached, last_attached, list_at, offset_of, query_fold, query_spec, query_step, ChildModel, InfoModel, KindModel, QueryState, SpanError, SOURCE_MAPPING_TYPE_CHAR_INDEX,
    SOURCE_MAPPING_TYPE_GROUP, SOURCE_MAPPING_TYPE_IMAGE, SOURCE_MAPPING_TYPE_PAGE,
    SOURCE_MAPPING_TYPE_SHAPE, SOURCE_MAPPING_TYPE_TEXT,
};

verus! {

/// A step of a path through the rendered document: the kind of the element
/// and its index among its parent's elements.
pub type Step = (u32, u32);

/// A candidate path: the region it starts from, and the steps from that
/// region down to the element.
pub type Candidate = (usize, Seq<Step>);

/// Whether `s` is in strictly increasing order.
pub open spec fn strictly_increasing(s: Seq<usize>) -> bool {
    forall|i: int, j: int| 0 <= i < j < s.len() ==> s[i] < s[j]
}

/// Adds `x` to the strictly increasing `s`, unless it is there already.
pub open spec fn insert_sorted(s: Seq<usize>, x: usize) -> Seq<usize>
    decreases s.len(),
{
    if s.len() == 0 {
        seq![x]
    } else if s[s.len() - 1] < x {
        s.push(x)
    } else if s[s.len() - 1] == x {
        s
    } else {
        insert_sorted(s.subrange(0, s.len() - 1), x).push(s[s.len() - 1])
    }
}

/// The distinct values of `s`, in increasing order.
pub open spec fn sorted_distinct(s: Seq<usize>) -> Seq<usize>
    decreases s.len(),
{
    if s.len() == 0 {
        Seq::empty()
    } else {
        insert_sorted(sorted_distinct(s.subrange(0, s.len() - 1)), s[s.len() - 1])
    }
}

proof fn lemma_insert_sorted_shape(s: Seq<usize>, x: usize, p: int)
    requires
        strictly_increasing(s),
        0 <= p <= s.len(),
        forall|k: int| p <= k < s.len() ==> #[trigger] s[k] > x,
        p > 0 ==> s[p - 1] <= x,
    ensures
        insert_sorted(s, x) == (if p > 0 && s[p - 1] == x {
            s
        } else {
            s.subrange(0, p).push(x) + s.subrange(p, s.len() as int)
        }),
    decreases s.len(),
{
    if s.len() == 0 {
        assert(insert_sorted(s, x) =~= s.subrange(0, p).push(x) + s.subrange(p, s.len() as int));
    } else if s[s.len() - 1] < x {
        assert(insert_sorted(s, x) =~= s.subrange(0, p).push(x) + s.subrange(p, s.len() as int));
    } else if s[s.len() - 1] == x {
    } else {
        let init = s.subrange(0, s.len() - 1);
        let last = s[s.len() - 1];
        lemma_insert_sorted_shape(init, x, p);
        let ins = insert_sorted(init, x);
        if p > 0 && s[p - 1] == x {
            assert(init[p - 1] == x);
            assert(ins.push(last) =~= s);
        } else {
            assert(ins.push(last) =~= s.subrange(0, p).push(x) + s.subrange(p, s.len() as int));
        }
    }
}

/// Inserting into a strictly increasing sequence keeps it so, adds exactly
/// `x`, and places it after everything smaller and before everything larger.
pub proof fn lemma_insert_sorted(s: Seq<usize>, x: usize, p: int)
    requires
        strictly_increasing(s),
        0 <= p <= s.len(),
        forall|k: int| p <= k < s.len() ==> #[trigger] s[k] > x,
        p > 0 ==> s[p - 1] <= x,
    ensures
        strictly_increasing(insert_sorted(s, x)),
        insert_sorted(s, x) == (if p > 0 && s[p - 1] == x {
            s
        } else {
            s.subrange(0, p).push(x) + s.subrange(p, s.len() as int)
        }),
        forall|y: usize| insert_sorted(s, x).contains(y) <==> (s.contains(y) || y == x),
{
    lemma_insert_sorted_shape(s, x, p);
    if p > 0 && s[p - 1] == x {
        assert(s.contains(x));
    } else {
        let t = s.subrange(0, p).push(x) + s.subrange(p, s.len() as int);
        assert(t.len() == s.len() + 1);
        assert forall|i: int| 0 <= i < t.len() implies #[trigger] t[i] == (if i < p {
            s[i]
        } else if i == p {
            x
        } else {
            s[i - 1]
        }) by {}
        assert forall|i: int, j: int| 0 <= i < j < t.len() implies t[i] < t[j] by {
            assert(t[i] == (if i < p { s[i] } else if i == p { x } else { s[i - 1] }));
            assert(t[j] == (if j < p { s[j] } else if j == p { x } else { s[j - 1] }));
            if i < p && j == p {
                assert(s[i] <= s[p - 1]);
            }
        }
        assert forall|y: usize| t.contains(y) <==> (s.contains(y) || y == x) by {
            if t.contains(y) {
                let k = choose|k: int| 0 <= k < t.len() && t[k] == y;
                assert(t[k] == (if k < p { s[k] } else if k == p { x } else { s[k - 1] }));
                if k < p {
                    assert(s[k] == y);
                } else if k > p {
                    assert(s[k - 1] == y);
                }
            }
            if s.contains(y) {
                let k = choose|k: int| 0 <= k < s.len() && s[k] == y;
                if k < p {
                    assert(t[k] == y);
                } else {
                    assert(t[k + 1] == (if k + 1 < p { s[k + 1] } else if k + 1 == p { x } else { s[k] }));
                }
            }
            if y == x {
                assert(t[p] == x);
            }
        }
    }
}

/// [`sorted_distinct`] is in strictly increasing order and holds exactly the
/// values of its argument.
pub proof fn lemma_sorted_distinct(s: Seq<usize>)
    ensures
        strictly_increasing(sorted_distinct(s)),
        forall|y: usize| sorted_distinct(s).contains(y) <==> s.contains(y),
    decreases s.len(),
{
    if s.len() > 0 {
        let init = s.subrange(0, s.len() - 1);
        let x = s[s.len() - 1];
        lemma_sorted_distinct(init);
        let d = sorted_distinct(init);
        let p = insert_point(d, x);
        lemma_insert_point(d, x);
        lemma_insert_sorted(d, x, p);
        assert forall|y: usize| sorted_distinct(s).contains(y) <==> s.contains(y) by {
            if s.contains(y) && y != x {
                let k = choose|k: int| 0 <= k < s.len() && s[k] == y;
                assert(init[k] == y);
            }
            if init.contains(y) {
                let k = choose|k: int| 0 <= k < init.len() && init[k] == y;
                assert(s[k] == y);
            }
            if y == x {
                assert(s[s.len() - 1] == y);
            }
        }
    }
}

/// The number of leading elements of `s` that are not greater than `x`.
pub open spec fn insert_point(s: Seq<usize>, x: usize) -> int
    decreases s.len(),
{
    if s.len() == 0 {
        0
    } else if s[s.len() - 1] <= x {
        s.len() as int
    } else {
        insert_point(s.subrange(0, s.len() - 1), x)
    }
}

proof fn lemma_insert_point(s: Seq<usize>, x: usize)
    requires
        strictly_increasing(s),
    ensures
        0 <= insert_point(s, x) <= s.len(),
        forall|k: int| insert_point(s, x) <= k < s.len() ==> #[trigger] s[k] > x,
        insert_point(s, x) > 0 ==> s[insert_point(s, x) - 1] <= x,
    decreases s.len(),
{
    if s.len() > 0 && s[s.len() - 1] > x {
        let init = s.subrange(0, s.len() - 1);
        lemma_insert_point(init, x);
        assert forall|k: int| insert_point(s, x) <= k < s.len() implies #[trigger] s[k] > x by {
            if k < s.len() - 1 {
                assert(s[k] == init[k]);
            }
        }
    }
}

/// Whether the byte `offset` falls within the `k`-th character of a text:
/// from its own offset up to that of the next character when both come from
/// the same span, and to the largest offset (excluded) otherwise.
pub open spec fn char_covers(cs: Seq<(u64, u16)>, k: int, offset: usize) -> bool {
    let start = cs[k].1 as int;
    let end = if k + 1 < cs.len() && cs[k + 1].0 == cs[k].0 {
        cs[k + 1].1 as int
    } else {
        usize::MAX as int
    };
    start <= offset < end
}

/// The candidate tails among the first `n` characters of the text at
/// position `idx`: the text itself, then the character.
pub open spec fn text_tails(cs: Seq<(u64, u16)>, idx: int, span: u64, offset: usize, n: int) -> Seq<Seq<Step>>
    decreases n,
{
    if n <= 0 {
        Seq::empty()
    } else {
        let prev = text_tails(cs, idx, span, offset, n - 1);
        if cs[n - 1].0 == span && char_covers(cs, n - 1, offset) {
            prev.push(seq![(SOURCE_MAPPING_TYPE_TEXT, idx as u32), (SOURCE_MAPPING_TYPE_CHAR_INDEX, (n - 1) as u32)])
        } else {
            prev
        }
    }
}

/// The candidate tails that the element at position `idx` gives for a span
/// and a byte offset.
pub open spec fn child_tails(idx: int, k: KindModel, span: u64, offset: usize) -> Seq<Seq<Step>> {
    match k {
        KindModel::Char(s, _) => if s == span {
            seq![seq![(SOURCE_MAPPING_TYPE_TEXT, idx as u32)]]
        } else {
            Seq::empty()
        },
        KindModel::Text(cs) => text_tails(cs, idx, span, offset, cs.len() as int),
        KindModel::Image(s) => if s == span {
            seq![seq![(SOURCE_MAPPING_TYPE_IMAGE, idx as u32)]]
        } else {
            Seq::empty()
        },
        KindModel::Shape(s) => if s == span {
            seq![seq![(SOURCE_MAPPING_TYPE_SHAPE, idx as u32)]]
        } else {
            Seq::empty()
        },
        _ => Seq::empty(),
    }
}

/// The candidate tails among the first `n` elements of a region.
pub open spec fn region_tails(list: Seq<ChildModel>, span: u64, offset: usize, n: int) -> Seq<Seq<Step>>
    decreases n,
{
    if n <= 0 {
        Seq::empty()
    } else {
        region_tails(list, span, offset, n - 1) + child_tails(n - 1, list[n - 1].1, span, offset)
    }
}

/// Tags each tail with the region it starts from.
pub open spec fn tag(r: usize, ts: Seq<Seq<Step>>) -> Seq<Candidate> {
    Seq::new(ts.len(), |i: int| (r, ts[i]))
}

/// The candidates from the regions `regs`, in order; fails at the first
/// region that has no elements.
pub open spec fn collect(info: InfoModel, regs: Seq<usize>, span: u64, offset: usize) -> Result<Seq<Candidate>, SpanError>
    decreases regs.len(),
{
    if regs.len() == 0 {
        Ok(Seq::empty())
    } else {
        match collect(info, regs.subrange(0, regs.len() - 1), span, offset) {
            Err(e) => Err(e),
            Ok(cs) => {
                let r = regs[regs.len() - 1];
                if !info.children.contains_key(r) {
                    Err(SpanError::RelatedRegionNotFound(r))
                } else {
                    let list = info.children[r];
                    Ok(cs + tag(r, region_tails(list, span, offset, list.len() as int)))
                }
            },
        }
    }
}

/// The kind of step that leads from a region to `cur`, if the element is
/// the page or group that holds `cur`.
pub open spec fn link_kind(k: KindModel, cur: usize) -> Option<u32> {
    match k {
        KindModel::Page(r) => if r == cur {
            Some(SOURCE_MAPPING_TYPE_PAGE)
        } else {
            None
        },
        KindModel::Group(r) => if r == cur {
            Some(SOURCE_MAPPING_TYPE_GROUP)
        } else {
            None
        },
        _ => None,
    }
}

/// The first of the first `n` elements of a region that holds `cur`, with
/// the kind of step to it.
pub open spec fn first_link(list: Seq<ChildModel>, cur: usize, n: int) -> Option<(int, u32)>
    decreases n,
{
    if n <= 0 {
        None
    } else {
        match first_link(list, cur, n - 1) {
            Some(x) => Some(x),
            None => match link_kind(list[n - 1].1, cur) {
                Some(k) => Some((n - 1, k)),
                None => None,
            },
        }
    }
}

/// The outcome of walking up from a region to the root: the steps from the
/// root down to it (`Some`), no path (`None`, when a parent does not hold it
/// as a page or group), or an error; `None` at the outside when more than
/// `fuel` steps would be needed.
pub open spec fn walk(info: InfoModel, doc: usize, cur: usize, fuel: nat) -> Option<Result<Option<Seq<Step>>, SpanError>>
    decreases fuel,
{
    if cur == doc {
        Some(Ok(Some(Seq::empty())))
    } else if fuel == 0 {
        None
    } else if !info.parents.contains_key(cur) {
        Some(Err(SpanError::ParentNotFound(cur)))
    } else {
        let par = info.parents[cur];
        if !info.children.contains_key(par) {
            Some(Err(SpanError::RegionChildrenNotFound(par)))
        } else {
            let list = info.children[par];
            match first_link(list, cur, list.len() as int) {
                None => Some(Ok(None)),
                Some((idx, kind)) => match walk(info, doc, par, (fuel - 1) as nat) {
                    Some(Ok(Some(p))) => Some(Ok(Some(p.push((kind, idx as u32))))),
                    other => other,
                },
            }
        }
    }
}

/// Whether the walk up from `r` ends: at the root, at a missing link, or at
/// an error, rather than going round a cycle of parents.
pub open spec fn walk_ends(info: InfoModel, doc: usize, r: usize) -> bool {
    exists|n: nat| #[trigger] walk(info, doc, r, n) is Some
}

/// The outcome of the walk up from `r`, where it ends.
pub open spec fn walk_result(info: InfoModel, doc: usize, r: usize) -> Result<Option<Seq<Step>>, SpanError> {
    match walk(info, doc, r, choose|n: nat| #[trigger] walk(info, doc, r, n) is Some) {
        Some(x) => x,
        None => Ok(None),
    }
}

/// A walk that ends within `n` steps has the same outcome with more fuel.
pub proof fn lemma_walk_fuel(info: InfoModel, doc: usize, r: usize, n: nat, m: nat)
    requires
        walk(info, doc, r, n) is Some,
        n <= m,
    ensures
        walk(info, doc, r, m) == walk(info, doc, r, n),
    decreases n,
{
    if r != doc && n > 0 && info.parents.contains_key(r) {
        let par = info.parents[r];
        if info.children.contains_key(par) {
            let list = info.children[par];
            if first_link(list, r, list.len() as int) is Some {
                lemma_walk_fuel(info, doc, par, (n - 1) as nat, (m - 1) as nat);
            }
        }
    }
}

/// The walk with any fuel that suffices gives [`walk_result`].
pub proof fn lemma_walk_result(info: InfoModel, doc: usize, r: usize, n: nat)
    requires
        walk(info, doc, r, n) is Some,
    ensures
        Some(walk_result(info, doc, r)) == walk(info, doc, r, n),
{
    let c = choose|n: nat| #[trigger] walk(info, doc, r, n) is Some;
    if c <= n {
        lemma_walk_fuel(info, doc, r, c, n);
    } else {
        lemma_walk_fuel(info, doc, r, n, c);
    }
}

/// The region a candidate's walk starts from: the region number as the
/// path records it, in 32 bits.
pub open spec fn start_region(c: Candidate) -> usize {
    (c.0 as u32) as usize
}

/// The paths that the candidates lead to, in order: each walk's steps
/// followed by the candidate's tail; candidates without a path are left
/// out, and the first walk that fails fails the whole.
pub open spec fn finish(info: InfoModel, doc: usize, cands: Seq<Candidate>) -> Result<Seq<Seq<Step>>, SpanError>
    decreases cands.len(),
{
    if cands.len() == 0 {
        Ok(Seq::empty())
    } else {
        match finish(info, doc, cands.subrange(0, cands.len() - 1)) {
            Err(e) => Err(e),
            Ok(ps) => {
                let c = cands[cands.len() - 1];
                match walk_result(info, doc, start_region(c)) {
                    Err(e) => Err(e),
                    Ok(None) => Ok(ps),
                    Ok(Some(p)) => Ok(ps.push(p + c.1)),
                }
            },
        }
    }
}

/// The candidates for a span and byte offset: from the regions that the
/// span appears in, in increasing order, each once.
pub open spec fn candidates(info: InfoModel, span: u64, offset: usize) -> Result<Seq<Candidate>, SpanError> {
    collect(info, sorted_distinct(list_at(info.spans, span)), span, offset)
}

/// The paths from the root of the document to the elements that a span and
/// byte offset map to.
pub open spec fn paths_spec(info: InfoModel, doc: usize, span: u64, offset: usize) -> Result<Seq<Seq<Step>>, SpanError> {
    if doc == 0 {
        Err(SpanError::DocNotInitialized)
    } else {
        match candidates(info, span, offset) {
            Err(e) => Err(e),
            Ok(cs) => finish(info, doc, cs),
        }
    }
}

/// Whether every walk that a query for paths makes ends.
pub open spec fn paths_end(info: InfoModel, doc: usize, span: u64, offset: usize) -> bool {
    match candidates(info, span, offset) {
        Ok(cs) => forall|i: int| 0 <= i < cs.len() ==> walk_ends(info, doc, #[trigger] start_region(cs[i])),
        Err(_) => true,
    }
}

/// Once a prefix of the regions fails, the whole fails the same way.
pub proof fn lemma_collect_err(info: InfoModel, regs: Seq<usize>, span: u64, offset: usize, k: int)
    requires
        0 <= k <= regs.len(),
        collect(info, regs.subrange(0, k), span, offset) is Err,
    ensures
        collect(info, regs, span, offset) == collect(info, regs.subrange(0, k), span, offset),
    decreases regs.len(),
{
    if k == regs.len() {
        assert(regs.subrange(0, k) =~= regs);
    } else {
        let init = regs.subrange(0, regs.len() - 1);
        assert(init.subrange(0, k) =~= regs.subrange(0, k));
        lemma_collect_err(info, init, span, offset, k);
    }
}

/// Once a prefix of the candidates fails, the whole fails the same way.
pub proof fn lemma_finish_err(info: InfoModel, doc: usize, cands: Seq<Candidate>, k: int)
    requires
        0 <= k <= cands.len(),
        finish(info, doc, cands.subrange(0, k)) is Err,
    ensures
        finish(info, doc, cands) == finish(info, doc, cands.subrange(0, k)),
    decreases cands.len(),
{
    if k == cands.len() {
        assert(cands.subrange(0, k) =~= cands);
    } else {
        let init = cands.subrange(0, cands.len() - 1);
        assert(init.subrange(0, k) =~= cands.subrange(0, k));
        lemma_finish_err(info, doc, init, k);
    }
}

/// Once an element that holds `cur` is found, later elements do not change
/// which one is first.
pub proof fn lemma_first_link_stable(list: Seq<ChildModel>, cur: usize, n: int, m: int)
    requires
        first_link(list, cur, n) is Some,
        n <= m,
    ensures
        first_link(list, cur, m) == first_link(list, cur, n),
    decreases m - n,
{
    if n < m {
        lemma_first_link_stable(list, cur, n, m - 1);
    }
}

/// The steps of a path as a query reads them, with no fingerprints.
pub open spec fn marks(p: Seq<Step>) -> Seq<(u32, u32, Seq<char>)> {
    Seq::new(p.len(), |i: int| (p[i].0, p[i].1, Seq::<char>::empty()))
}

/// Whether a region's number, the count of its elements and the count of
/// each of its texts' characters fit in 32 bits, as the steps of a path
/// record them.
pub open spec fn region_fits(info: InfoModel, r: usize) -> bool {
    &&& r <= u32::MAX
    &&& info.children[r].len() <= u32::MAX
    &&& forall|j: int| 0 <= j < info.children[r].len() ==> match #[trigger] info.children[r][j].1 {
        KindModel::Text(cs) => cs.len() <= u32::MAX,
        _ => true,
    }
}

/// Whether, on the walk up from `cur` within `fuel` steps, the position of
/// each region among its parent's elements fits in 32 bits, as the steps
/// of a path record it.
pub open spec fn ancestors_fit(info: InfoModel, doc: usize, cur: usize, fuel: nat) -> bool
    decreases fuel,
{
    if cur == doc || fuel == 0 || !info.parents.contains_key(cur) {
        true
    } else {
        let par = info.parents[cur];
        info.children.contains_key(par) ==> {
            &&& info.children[par].len() <= u32::MAX
            &&& ancestors_fit(info, doc, par, (fuel - 1) as nat)
        }
    }
}

/// Whether the numbers on every path that a query for `span` can return
/// fit in 32 bits: those of each region the span appears in, and the
/// positions on the walk from it up to the root.
pub open spec fn paths_fit(info: InfoModel, doc: usize, span: u64) -> bool {
    forall|r: usize| #[trigger] list_at(info.spans, span).contains(r) && info.children.contains_key(r) ==> {
        &&& region_fits(info, r)
        &&& forall|n: nat| #[trigger] ancestors_fit(info, doc, r, n)
    }
}

/// Whether a query's answer is a source range whose ends both lie in `span`.
pub open spec fn leads_to_span(r: Result<Option<(SourceSpanOffset, SourceSpanOffset)>, SpanError>, span: u64) -> bool {
    match r {
        Ok(Some((a, b))) => a.span.0 == span && b.span.0 == span,
        _ => false,
    }
}

/// The state a query starts from at region `r`.
pub open spec fn at_region(r: usize) -> QueryState {
    QueryState { region: r, candidate: None, text: None }
}

proof fn lemma_marks_push(p: Seq<Step>, s: Step)
    ensures
        marks(p.push(s)).subrange(0, p.len() as int) == marks(p),
        marks(p.push(s))[p.len() as int] == (s.0, s.1, Seq::<char>::empty()),
        marks(p.push(s)).len() == p.len() + 1,
{
    assert(marks(p.push(s)).subrange(0, p.len() as int) =~= marks(p));
}

/// Following `a` and then `b` is following `a + b`.
proof fn lemma_fold_append(info: InfoModel, st: QueryState, a: Seq<(u32, u32, Seq<char>)>, b: Seq<(u32, u32, Seq<char>)>)
    ensures
        query_fold(info, st, a + b) == match query_fold(info, st, a) {
            Ok(s) => query_fold(info, s, b),
            Err(e) => Err(e),
        },
    decreases b.len(),
{
    if b.len() == 0 {
        assert(a + b =~= a);
    } else {
        let bi = b.subrange(0, b.len() - 1);
        lemma_fold_append(info, st, a, bi);
        assert((a + b).subrange(0, (a + b).len() - 1) =~= a + bi);
        assert((a + b)[(a + b).len() - 1] == b[b.len() - 1]);
    }
}

proof fn lemma_first_link_found(list: Seq<ChildModel>, cur: usize, n: int)
    requires
        first_link(list, cur, n) is Some,
    ensures
        0 <= first_link(list, cur, n)->Some_0.0 < n,
        link_kind(list[first_link(list, cur, n)->Some_0.0].1, cur) == Some(first_link(list, cur, n)->Some_0.1),
    decreases n,
{
    if first_link(list, cur, n - 1) is Some {
        lemma_first_link_found(list, cur, n - 1);
    }
}

/// The steps of a walk up from `cur` lead a query from the root down to
/// `cur`.
proof fn lemma_walk_query(info: InfoModel, doc: usize, cur: usize, n: nat, p: Seq<Step>)
    requires
        ancestors_fit(info, doc, cur, n),
        info.children.contains_key(cur),
        walk(info, doc, cur, n) == Some(Ok::<Option<Seq<Step>>, SpanError>(Some(p))),
    ensures
        info.children.contains_key(doc),
        query_fold(info, at_region(doc), marks(p)) == Ok::<QueryState, SpanError>(at_region(cur)),
    decreases n,
{
    if cur == doc {
        assert(marks(p) =~= Seq::<(u32, u32, Seq<char>)>::empty());
    } else {
        let par = info.parents[cur];
        let list = info.children[par];
        lemma_first_link_found(list, cur, list.len() as int);
        let (idx, kind) = first_link(list, cur, list.len() as int)->Some_0;
        let pp = walk(info, doc, par, (n - 1) as nat)->Some_0->Ok_0->Some_0;
        assert(p == pp.push((kind, idx as u32)));
        lemma_walk_query(info, doc, par, (n - 1) as nat, pp);
        lemma_marks_push(pp, (kind, idx as u32));
        assert(info.children.contains_key(par));
        assert(idx as u32 == idx);
        assert(list_at(info.children, par) == list);
    }
}

proof fn lemma_text_tails_member(cs: Seq<(u64, u16)>, idx: int, span: u64, offset: usize, n: int, t: Seq<Step>)
    requires
        text_tails(cs, idx, span, offset, n).contains(t),
    ensures
        exists|k: int| 0 <= k < n && k < cs.len() + n && #[trigger] cs[k].0 == span
            && t == seq![(SOURCE_MAPPING_TYPE_TEXT, idx as u32), (SOURCE_MAPPING_TYPE_CHAR_INDEX, k as u32)],
    decreases n,
{
    let prev = text_tails(cs, idx, span, offset, n - 1);
    if prev.contains(t) {
        lemma_text_tails_member(cs, idx, span, offset, n - 1, t);
    } else {
        let k = n - 1;
        assert(cs[k].0 == span);
    }
}

proof fn lemma_region_tails_member(list: Seq<ChildModel>, span: u64, offset: usize, n: int, t: Seq<Step>)
    requires
        region_tails(list, span, offset, n).contains(t),
    ensures
        exists|idx: int| 0 <= idx < n && #[trigger] child_tails(idx, list[idx].1, span, offset).contains(t),
    decreases n,
{
    let prev = region_tails(list, span, offset, n - 1);
    let last = child_tails(n - 1, list[n - 1].1, span, offset);
    let j = choose|j: int| 0 <= j < (prev + last).len() && (prev + last)[j] == t;
    if j < prev.len() {
        assert(prev[j] == t);
        lemma_region_tails_member(list, span, offset, n - 1, t);
    } else {
        assert(last[j - prev.len()] == t);
        assert(last.contains(t));
    }
}

/// A candidate's tail leads a query from its region to an element of the
/// span.
proof fn lemma_tail_query(info: InfoModel, reg: usize, t: Seq<Step>, span: u64, offset: usize)
    requires
        region_fits(info, reg),
        span != 1,
        info.children.contains_key(reg),
        region_tails(info.children[reg], span, offset, info.children[reg].len() as int).contains(t),
    ensures
        match query_fold(info, at_region(reg), marks(t)) {
            Ok(st) => match st.candidate {
                Some((a, b)) => a.span.0 == span && b.span.0 == span,
                None => false,
            },
            Err(_) => false,
        },
{
    let list = info.children[reg];
    lemma_region_tails_member(list, span, offset, list.len() as int, t);
    let idx = choose|idx: int| 0 <= idx < list.len() && #[trigger] child_tails(idx, list[idx].1, span, offset).contains(t);
    assert(list_at(info.children, reg) == list);
    assert(idx as u32 == idx);
    let mt = marks(t);
    let st0 = at_region(reg);
    let e = Seq::<char>::empty();
    match list[idx].1 {
        KindModel::Text(cs) => {
            lemma_text_tails_member(cs, idx, span, offset, cs.len() as int, t);
            let k = choose|k: int| 0 <= k < cs.len() && k < cs.len() + cs.len() && #[trigger] cs[k].0 == span
                && t == seq![(SOURCE_MAPPING_TYPE_TEXT, idx as u32), (SOURCE_MAPPING_TYPE_CHAR_INDEX, k as u32)];
            assert(cs.len() <= u32::MAX);
            assert(k as u32 == k);
            assert(mt =~= seq![(SOURCE_MAPPING_TYPE_TEXT, idx as u32, e), (SOURCE_MAPPING_TYPE_CHAR_INDEX, k as u32, e)]);
            assert(mt.subrange(0, 1).subrange(0, 0) =~= Seq::<(u32, u32, Seq<char>)>::empty());
            assert(mt.subrange(0, 1) =~= seq![(SOURCE_MAPPING_TYPE_TEXT, idx as u32, e)]);
            let st1 = query_step(info, st0, mt[0]);
            assert(st1 == Ok::<QueryState, SpanError>(QueryState {
                candidate: match (first_attached(cs), last_attached(cs)) {
                    (Some(a), Some(b)) => Some((offset_of(a), offset_of(b))),
                    _ => None,
                },
                text: Some(cs),
                ..st0
            }));
            assert(query_fold(info, st0, Seq::<(u32, u32, Seq<char>)>::empty()) == Ok::<QueryState, SpanError>(st0));
            assert(mt.subrange(0, 1)[0] == mt[0]);
            assert(query_fold(info, st0, mt.subrange(0, 1)) == st1);
            assert(mt.subrange(0, mt.len() - 1) =~= mt.subrange(0, 1));
            assert(query_step(info, st1->Ok_0, mt[1]) == Ok::<QueryState, SpanError>(QueryState {
                candidate: Some((offset_of(cs[k]), offset_of(cs[k]))),
                ..st1->Ok_0
            }));
        },
        KindModel::Char(sp, o) => {
            let t0 = seq![(SOURCE_MAPPING_TYPE_TEXT, idx as u32)];
            assert(child_tails(idx, list[idx].1, span, offset) == seq![t0]);
            assert(t == t0);
            assert(mt =~= seq![(SOURCE_MAPPING_TYPE_TEXT, idx as u32, e)]);
            assert(mt.subrange(0, 0) =~= Seq::<(u32, u32, Seq<char>)>::empty());
            assert(query_fold(info, st0, Seq::<(u32, u32, Seq<char>)>::empty()) == Ok::<QueryState, SpanError>(st0));
        },
        KindModel::Image(sp) => {
            let t0 = seq![(SOURCE_MAPPING_TYPE_IMAGE, idx as u32)];
            assert(child_tails(idx, list[idx].1, span, offset) == seq![t0]);
            assert(t == t0);
            assert(mt =~= seq![(SOURCE_MAPPING_TYPE_IMAGE, idx as u32, e)]);
            assert(mt.subrange(0, 0) =~= Seq::<(u32, u32, Seq<char>)>::empty());
            assert(query_fold(info, st0, Seq::<(u32, u32, Seq<char>)>::empty()) == Ok::<QueryState, SpanError>(st0));
        },
        KindModel::Shape(sp) => {
            let t0 = seq![(SOURCE_MAPPING_TYPE_SHAPE, idx as u32)];
            assert(child_tails(idx, list[idx].1, span, offset) == seq![t0]);
            assert(t == t0);
            assert(mt =~= seq![(SOURCE_MAPPING_TYPE_SHAPE, idx as u32, e)]);
            assert(mt.subrange(0, 0) =~= Seq::<(u32, u32, Seq<char>)>::empty());
            assert(query_fold(info, st0, Seq::<(u32, u32, Seq<char>)>::empty()) == Ok::<QueryState, SpanError>(st0));
        },
        _ => {
            assert(child_tails(idx, list[idx].1, span, offset) =~= Seq::<Seq<Step>>::empty());
        },
    }
}

/// Every candidate that [`collect`] gives comes from a region with elements
/// and is among that region's tails.
proof fn lemma_collect_members(info: InfoModel, regs: Seq<usize>, span: u64, offset: usize)
    requires
        collect(info, regs, span, offset) is Ok,
    ensures
        forall|i: int| 0 <= i < collect(info, regs, span, offset)->Ok_0.len() ==> {
            let c = #[trigger] collect(info, regs, span, offset)->Ok_0[i];
            &&& regs.contains(c.0)
            &&& info.children.contains_key(c.0)
            &&& region_tails(info.children[c.0], span, offset, info.children[c.0].len() as int).contains(c.1)
        },
    decreases regs.len(),
{
    if regs.len() > 0 {
        let init = regs.subrange(0, regs.len() - 1);
        lemma_collect_members(info, init, span, offset);
        let cs = collect(info, init, span, offset)->Ok_0;
        let r = regs[regs.len() - 1];
        let list = info.children[r];
        let ts = region_tails(list, span, offset, list.len() as int);
        let all = collect(info, regs, span, offset)->Ok_0;
        assert(all == cs + tag(r, ts));
        assert forall|i: int| 0 <= i < all.len() implies {
            let c = #[trigger] all[i];
            &&& regs.contains(c.0)
            &&& info.children.contains_key(c.0)
            &&& region_tails(info.children[c.0], span, offset, info.children[c.0].len() as int).contains(c.1)
        } by {
            if i < cs.len() {
                assert(all[i] == cs[i]);
                assert(init.contains(cs[i].0));
                let k = choose|k: int| 0 <= k < init.len() && init[k] == cs[i].0;
                assert(regs[k] == init[k]);
            } else {
                assert(regs[regs.len() - 1] == r);
                assert(all[i] == (r, ts[i - cs.len()]));
                assert(ts.contains(ts[i - cs.len()]));
            }
        }
    }
}

/// The path that a candidate leads to: its walk followed by its tail.
pub open spec fn candidate_path(info: InfoModel, doc: usize, c: Candidate) -> Option<Seq<Step>> {
    match walk_result(info, doc, start_region(c)) {
        Ok(Some(p)) => Some(p + c.1),
        _ => None,
    }
}

/// Every path that [`finish`] gives is the path of one of the candidates.
proof fn lemma_finish_members(info: InfoModel, doc: usize, cands: Seq<Candidate>)
    requires
        finish(info, doc, cands) is Ok,
    ensures
        forall|i: int| 0 <= i < finish(info, doc, cands)->Ok_0.len() ==> exists|j: int|
            0 <= j < cands.len() && #[trigger] candidate_path(info, doc, cands[j]) == Some(
                #[trigger] finish(info, doc, cands)->Ok_0[i],
            ),
    decreases cands.len(),
{
    if cands.len() > 0 {
        let init = cands.subrange(0, cands.len() - 1);
        lemma_finish_members(info, doc, init);
        let ps = finish(info, doc, init)->Ok_0;
        let all = finish(info, doc, cands)->Ok_0;
        let c = cands[cands.len() - 1];
        assert forall|i: int| 0 <= i < all.len() implies exists|j: int|
            0 <= j < cands.len() && #[trigger] candidate_path(info, doc, cands[j]) == Some(#[trigger] all[i]) by {
            if i < ps.len() {
                assert(all[i] == ps[i]);
                let j = choose|j: int| 0 <= j < init.len() && #[trigger] candidate_path(info, doc, init[j]) == Some(ps[i]);
                assert(init[j] == cands[j]);
            } else {
                assert(candidate_path(info, doc, cands[cands.len() - 1]) == Some(all[i]));
            }
        }
    }
}

/// Round trip: every path that a query for the elements of a span and byte
/// offset finds, followed by a query from the root, lands on a source range
/// within that span. It holds for spans that point somewhere, and where the
/// numbers on those paths fit in the 32 bits that a path records.
pub proof fn lemma_paths_lead_back(info: InfoModel, doc: usize, span: u64, offset: usize)
    requires
        span != 1,
        paths_fit(info, doc, span),
        paths_spec(info, doc, span, offset) is Ok,
    ensures
        forall|i: int| 0 <= i < paths_spec(info, doc, span, offset)->Ok_0.len()
            ==> leads_to_span(query_spec(info, doc, marks(#[trigger] paths_spec(info, doc, span, offset)->Ok_0[i])), span),
{
    let cs = candidates(info, span, offset)->Ok_0;
    let ps = paths_spec(info, doc, span, offset)->Ok_0;
    lemma_collect_members(info, sorted_distinct(list_at(info.spans, span)), span, offset);
    lemma_finish_members(info, doc, cs);
    assert forall|i: int| 0 <= i < ps.len() implies leads_to_span(query_spec(info, doc, marks(#[trigger] ps[i])), span) by {
        let j = choose|j: int| 0 <= j < cs.len() && #[trigger] candidate_path(info, doc, cs[j]) == Some(ps[i]);
        let p = walk_result(info, doc, start_region(cs[j]))->Ok_0->Some_0;
        let c = cs[j];
        assert(info.children.contains_key(c.0));
        lemma_sorted_distinct(list_at(info.spans, span));
        assert(list_at(info.spans, span).contains(c.0));
        assert(region_fits(info, c.0));
        assert(c.0 <= u32::MAX);
        assert(start_region(c) == c.0);
        let n = choose|n: nat| #[trigger] walk(info, doc, c.0, n) is Some;
        assert(walk(info, doc, c.0, n) == Some(Ok::<Option<Seq<Step>>, SpanError>(Some(p))));
        assert(ancestors_fit(info, doc, c.0, n));
        lemma_walk_query(info, doc, c.0, n, p);
        lemma_tail_query(info, c.0, c.1, span, offset);
        assert(marks(p + c.1) =~= marks(p) + marks(c.1));
        lemma_fold_append(info, at_region(doc), marks(p), marks(c.1));
    }
}

} // verus!
