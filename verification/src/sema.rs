use vstd::prelude::*;

verus! {

/// The edges of a text item's box as labels on the discrete grid of the
/// page: every distinct coordinate gets a label, in increasing order.
#[derive(Debug, Clone, Copy, PartialEq, Eq, Structural)]
pub struct ItemLabels {
    pub left: usize,
    pub top: usize,
    pub right: usize,
    pub bottom: usize,
}

/// The labels of a box's edges, each pair ordered so that left is not
/// right of right and top is not below bottom.
pub fn discrete_labels_for_text_item(left: usize, top: usize, right: usize, bottom: usize) -> (r: ItemLabels)
    ensures
        r.left == (if left > right { right } else { left }),
        r.right == (if left > right { left } else { right }),
        r.top == (if top > bottom { bottom } else { top }),
        r.bottom == (if top > bottom { top } else { bottom }),
{
    let (l, r) = if left > right {
        (right, left)
    } else {
        (left, right)
    };
    let (t, b) = if top > bottom {
        (bottom, top)
    } else {
        (top, bottom)
    };
    ItemLabels { left: l, top: t, right: r, bottom: b }
}

/// A blank that is placed before a text item so that selecting empty space
/// selects the item.
#[derive(Debug, Clone, Copy, PartialEq, Eq, Structural)]
pub enum Fallback {
    /// A blank across the whole page width, from the row labelled `from`
    /// down to the item's top.
    Whole { from: usize },
    /// A blank to the left of the item over the rows `top..bottom`: from the
    /// right edge labelled `from` of earlier items, or from the page border
    /// when there is none.
    Left { from: Option<usize>, top: usize, bottom: usize },
}

/// Whether a text item's labels are ordered and its rows lie on a grid of
/// `n` labels.
pub open spec fn item_fits(it: ItemLabels, n: nat) -> bool {
    it.left <= it.right && it.top <= it.bottom && it.bottom <= n
}

/// The larger of two optional labels, a missing one counting as smallest.
pub open spec fn max_opt(a: Option<usize>, b: Option<usize>) -> Option<usize> {
    match (a, b) {
        (Some(x), Some(y)) => Some(if x >= y { x } else { y }),
        (Some(x), None) => Some(x),
        (None, y) => y,
    }
}

/// The furthest right edge of the first `i` items over row `r`, if any of
/// them covers that row.
pub open spec fn max_right(items: Seq<ItemLabels>, i: int, r: int) -> Option<usize>
    decreases i,
{
    if i <= 0 {
        None
    } else {
        let it = items[i - 1];
        max_opt(
            max_right(items, i - 1, r),
            if it.top <= r < it.bottom {
                Some(it.right)
            } else {
                None
            },
        )
    }
}

/// The lowest bottom edge of the first `i` items, and at least `zero`.
pub open spec fn last_bottom(items: Seq<ItemLabels>, zero: usize, i: int) -> usize
    decreases i,
{
    if i <= 0 {
        zero
    } else {
        let prev = last_bottom(items, zero, i - 1);
        let b = items[i - 1].bottom;
        if prev >= b {
            prev
        } else {
            b
        }
    }
}

/// The end of the run of rows from `e` on (before `bottom`) whose value is
/// `v`.
pub open spec fn run_from(rows: Seq<Option<usize>>, v: Option<usize>, e: int, bottom: int) -> int
    decreases bottom - e,
{
    if e >= bottom || rows[e] != v {
        e
    } else {
        run_from(rows, v, e + 1, bottom)
    }
}

/// A run of rows ends after it starts and no later than the last row.
pub proof fn lemma_run_from_bounds(rows: Seq<Option<usize>>, v: Option<usize>, e: int, bottom: int)
    ensures
        run_from(rows, v, e, bottom) >= e,
        e <= bottom ==> run_from(rows, v, e, bottom) <= bottom,
    decreases bottom - e,
{
    if !(e >= bottom || rows[e] != v) {
        lemma_run_from_bounds(rows, v, e + 1, bottom);
    }
}

/// The blanks to the left of an item over its rows from `begin` to
/// `bottom`: one per run of rows with the same furthest right edge, taken
/// from that edge when it is not right of the item's left edge and from the
/// page border otherwise, in which case it starts no higher than `lb`.
pub open spec fn left_runs(rows: Seq<Option<usize>>, begin: int, bottom: int, left: usize, lb: usize) -> Seq<Fallback>
    decreases bottom - begin,
{
    if begin >= bottom {
        Seq::empty()
    } else {
        let v = rows[begin];
        let e = run_from(rows, v, begin + 1, bottom);
        proof {
            lemma_run_from_bounds(rows, v, begin + 1, bottom);
        }
        let from = match v {
            Some(x) => if x > left {
                None
            } else {
                Some(x)
            },
            None => None,
        };
        let ptop = if from is None && begin < lb {
            lb as int
        } else {
            begin
        };
        let here = if ptop < e {
            seq![Fallback::Left { from, top: ptop as usize, bottom: e as usize }]
        } else {
            Seq::empty()
        };
        here + left_runs(rows, e, bottom, left, lb)
    }
}

/// The furthest right edges, row by row, of the first `i` items.
pub open spec fn rows_before(items: Seq<ItemLabels>, n: nat, i: int) -> Seq<Option<usize>> {
    Seq::new(n, |r: int| max_right(items, i, r))
}

/// The blanks placed before item `i`: a whole-width one when the item starts
/// below everything before it, then those to its left.
pub open spec fn item_fallbacks(items: Seq<ItemLabels>, zero: usize, n: nat, i: int) -> Seq<Fallback> {
    let it = items[i];
    let lb = last_bottom(items, zero, i);
    let lb2 = if lb >= it.bottom {
        lb
    } else {
        it.bottom
    };
    (if it.top > lb {
        seq![Fallback::Whole { from: lb }]
    } else {
        Seq::empty()
    }) + left_runs(rows_before(items, n, i), it.top as int, it.bottom as int, it.left, lb2)
}

/// The blanks placed before each item; the last item gets none.
pub open spec fn fallback_plan(items: Seq<ItemLabels>, zero: usize, n: nat) -> Seq<Seq<Fallback>> {
    Seq::new(items.len(), |i: int| if i + 1 < items.len() {
        item_fallbacks(items, zero, n, i)
    } else {
        Seq::empty()
    })
}

/// Whether a planned blank lies where it may: a whole-width one above the
/// item's top, a left one within the item's rows, starting at an earlier
/// right edge that is not right of the item.
pub open spec fn blank_ok(f: Fallback, it: ItemLabels) -> bool {
    match f {
        Fallback::Whole { from } => from < it.top,
        Fallback::Left { from, top, bottom } => {
            &&& from matches Some(x) && x <= it.left
            &&& it.top <= top < bottom <= it.bottom
        },
    }
}

proof fn lemma_left_runs_ok(rows: Seq<Option<usize>>, begin: int, it: ItemLabels, lb: usize)
    requires
        it.top <= begin,
        lb >= it.bottom,
    ensures
        forall|k: int| 0 <= k < left_runs(rows, begin, it.bottom as int, it.left, lb).len()
            ==> blank_ok(#[trigger] left_runs(rows, begin, it.bottom as int, it.left, lb)[k], it),
    decreases it.bottom - begin,
{
    if begin < it.bottom {
        let v = rows[begin];
        let e = run_from(rows, v, begin + 1, it.bottom as int);
        lemma_run_from_bounds(rows, v, begin + 1, it.bottom as int);
        lemma_left_runs_ok(rows, e, it, lb);
        let all = left_runs(rows, begin, it.bottom as int, it.left, lb);
        let rest = left_runs(rows, e, it.bottom as int, it.left, lb);
        assert forall|k: int| 0 <= k < all.len() implies blank_ok(#[trigger] all[k], it) by {
            if all.len() > rest.len() && k == 0 {
            } else {
                assert(all[k] == rest[k - (all.len() - rest.len())]);
            }
        }
    }
}

/// Every planned blank lies where it may: whole-width blanks end at the
/// item's top, and left blanks stay within the item's rows and start at an
/// earlier right edge; a blank reaching out to the page border is never
/// planned.
pub proof fn lemma_plan_blanks_ok(items: Seq<ItemLabels>, zero: usize, n: nat)
    ensures
        forall|i: int, k: int| 0 <= i < items.len() && 0 <= k < fallback_plan(items, zero, n)[i].len()
            ==> blank_ok(#[trigger] fallback_plan(items, zero, n)[i][k], items[i]),
{
    assert forall|i: int, k: int| 0 <= i < items.len() && 0 <= k < fallback_plan(items, zero, n)[i].len()
        implies blank_ok(#[trigger] fallback_plan(items, zero, n)[i][k], items[i]) by {
        if i + 1 < items.len() {
            let it = items[i];
            let lb = last_bottom(items, zero, i);
            let lb2 = if lb >= it.bottom { lb } else { it.bottom };
            lemma_left_runs_ok(rows_before(items, n, i), it.top as int, it, lb2);
            let whole: Seq<Fallback> = if it.top > lb { seq![Fallback::Whole { from: lb }] } else { Seq::empty() };
            let runs = left_runs(rows_before(items, n, i), it.top as int, it.bottom as int, it.left, lb2);
            assert(fallback_plan(items, zero, n)[i] == whole + runs);
            if k >= whole.len() {
                assert((whole + runs)[k] == runs[k - whole.len()]);
            }
        }
    }
}

/// Whether two optional labels are equal.
fn same_label(a: Option<usize>, b: Option<usize>) -> (r: bool)
    ensures
        r == (a == b),
{
    match (a, b) {
        (Some(x), Some(y)) => x == y,
        (None, None) => true,
        _ => false,
    }
}

/// Plans the blanks placed before text items, given their labels in
/// document order, the label of coordinate zero and the number of labels.
pub fn plan_fallbacks(items: &Vec<ItemLabels>, zero_label: usize, n: usize) -> (r: Vec<Vec<Fallback>>)
    requires
        forall|i: int| 0 <= i < items@.len() ==> item_fits(#[trigger] items@[i], n as nat),
    ensures
        r@.len() == items@.len(),
        forall|i: int| 0 <= i < r@.len() ==> (#[trigger] r@[i])@ == fallback_plan(items@, zero_label, n as nat)[i],
{
    let ghost its = items@;
    let mut res: Vec<Vec<Fallback>> = Vec::new();
    let mut rows: Vec<Option<usize>> = Vec::new();
    let mut k: usize = 0;
    while k < n
        invariant
            k <= n,
            rows@.len() == k,
            forall|r: int| 0 <= r < k ==> rows@[r] is None,
        decreases n - k,
    {
        rows.push(None);
        k = k + 1;
    }
    assert(rows@ =~= rows_before(its, n as nat, 0));
    let mut last_b = zero_label;
    let count: usize = if items.len() > 0 {
        items.len() - 1
    } else {
        0
    };
    let mut i: usize = 0;
    while i < count
        invariant
            its == items@,
            count == (if its.len() > 0 { its.len() - 1 } else { 0 }),
            forall|j: int| 0 <= j < its.len() ==> item_fits(#[trigger] its[j], n as nat),
            i <= count,
            rows@.len() == n,
            res@.len() == i,
            forall|j: int| 0 <= j < i ==> (#[trigger] res@[j])@ == item_fallbacks(its, zero_label, n as nat, j),
            rows@ == rows_before(its, n as nat, i as int),
            last_b == last_bottom(its, zero_label, i as int),
        decreases its.len() - i,
    {
        let it = items[i];
        assert(item_fits(its[i as int], n as nat));
        let mut out: Vec<Fallback> = Vec::new();
        if it.top > last_b {
            out.push(Fallback::Whole { from: last_b });
        }
        let lb2 = if last_b >= it.bottom {
            last_b
        } else {
            it.bottom
        };
        let ghost whole = out@;
        let mut begin = it.top;
        let mut end = it.top;
        proof {
            assert(whole + left_runs(rows@, it.top as int, it.bottom as int, it.left, lb2) =~= item_fallbacks(
                its,
                zero_label,
                n as nat,
                i as int,
            ));
            assert(out@ + Seq::<Fallback>::empty() =~= out@);
        }
        while begin < it.bottom
            invariant
                it.top <= begin <= it.bottom,
                end == begin,
                it.bottom <= rows@.len(),
                whole + left_runs(rows@, it.top as int, it.bottom as int, it.left, lb2) == out@ + left_runs(
                    rows@,
                    begin as int,
                    it.bottom as int,
                    it.left,
                    lb2,
                ),
            decreases it.bottom - begin,
        {
            let v = rows[begin];
            end = begin + 1;
            proof {
                lemma_run_from_bounds(rows@, v, begin + 1, it.bottom as int);
            }
            while end < it.bottom && same_label(rows[begin], rows[end])
                invariant
                    begin < end <= it.bottom,
                    it.bottom <= rows@.len(),
                    v == rows@[begin as int],
                    run_from(rows@, v, begin + 1, it.bottom as int) == run_from(rows@, v, end as int, it.bottom as int),
                decreases it.bottom - end,
            {
                end = end + 1;
            }
            let from = match v {
                Some(x) => if x > it.left {
                    None
                } else {
                    Some(x)
                },
                None => None,
            };
            let ptop = if from.is_none() && begin < lb2 {
                lb2
            } else {
                begin
            };
            let pbottom = if end < it.bottom {
                end
            } else {
                it.bottom
            };
            let ghost before = out@;
            if ptop < pbottom {
                out.push(Fallback::Left { from, top: ptop, bottom: pbottom });
            }
            proof {
                let rest = left_runs(rows@, end as int, it.bottom as int, it.left, lb2);
                assert(out@ + rest =~= before + left_runs(rows@, begin as int, it.bottom as int, it.left, lb2));
            }
            begin = end;
        }
        proof {
            assert(out@ + left_runs(rows@, begin as int, it.bottom as int, it.left, lb2) =~= out@);
        }
        let ghost old_rows = rows@;
        let mut r = it.top;
        while r < it.bottom
            invariant
                it.top <= r <= it.bottom,
                it.bottom <= rows@.len(),
                rows@.len() == old_rows.len(),
                old_rows == rows_before(its, n as nat, i as int),
                its[i as int] == it,
                forall|q: int| 0 <= q < rows@.len() ==> #[trigger] rows@[q] == (if it.top <= q < r {
                    max_opt(old_rows[q], Some(it.right))
                } else {
                    old_rows[q]
                }),
            decreases it.bottom - r,
        {
            let nv = match rows[r] {
                Some(x) => Some(if x >= it.right { x } else { it.right }),
                None => Some(it.right),
            };
            rows.set(r, nv);
            r = r + 1;
        }
        assert(rows@ =~= rows_before(its, n as nat, i + 1));
        res.push(out);
        last_b = lb2;
        i = i + 1;
    }
    if items.len() > 0 {
        res.push(Vec::new());
    }
    proof {
        assert forall|j: int| 0 <= j < res@.len() implies (#[trigger] res@[j])@ == fallback_plan(
            its,
            zero_label,
            n as nat,
        )[j] by {
            if j + 1 < its.len() {
                assert(res@[j]@ == item_fallbacks(its, zero_label, n as nat, j));
            } else {
                assert(res@[j]@ =~= Seq::<Fallback>::empty());
            }
        }
    }
    res
}

} // verus!
