use vstd::prelude::*;

verus! {

/// The items of a sequence whose link flag is `link`, in order.
pub open spec fn of_kind<T>(s: Seq<(bool, T)>, link: bool) -> Seq<T>
    decreases s.len(),
{
    if s.len() == 0 {
        Seq::empty()
    } else {
        let init = of_kind(s.subrange(0, s.len() - 1), link);
        if s[s.len() - 1].0 == link {
            init.push(s[s.len() - 1].1)
        } else {
            init
        }
    }
}

/// The children of a group in the order they are drawn: every item that is
/// not a link first, then the links, each kind in its original order (a
/// stable sort that moves links last), then the frame's content hint, if it
/// has one. Each item is given with whether it is a link.
pub fn order_group_children<T>(items: Vec<(bool, T)>, content_hint: Option<T>) -> (r: Vec<T>)
    ensures
        r@ == of_kind(items@, false) + of_kind(items@, true) + match content_hint {
            Some(h) => seq![h],
            None => Seq::<T>::empty(),
        },
{
    let ghost s = items@;
    let mut plain: Vec<T> = Vec::new();
    let mut links: Vec<T> = Vec::new();
    let mut src = items;
    let mut rest: Vec<(bool, T)> = Vec::new();
    while src.len() > 0
        invariant
            src@.len() + rest@.len() == s.len(),
            forall|k: int| 0 <= k < src@.len() ==> #[trigger] src@[k] == s[k],
            forall|k: int| 0 <= k < rest@.len() ==> #[trigger] rest@[k] == s[s.len() - 1 - k],
        decreases src@.len(),
    {
        let ghost before = src@;
        let e = src.pop().unwrap();
        proof {
            assert(e == s[before.len() - 1]);
        }
        rest.push(e);
        proof {
            assert forall|k: int| 0 <= k < src@.len() implies #[trigger] src@[k] == s[k] by {
                assert(src@[k] == before[k]);
            }
        }
    }
    assert(s.subrange(0, 0) =~= Seq::<(bool, T)>::empty());
    while rest.len() > 0
        invariant
            rest@.len() <= s.len(),
            forall|k: int| 0 <= k < rest@.len() ==> #[trigger] rest@[k] == s[s.len() - 1 - k],
            plain@ == of_kind(s.subrange(0, s.len() - rest@.len()), false),
            links@ == of_kind(s.subrange(0, s.len() - rest@.len()), true),
        decreases rest@.len(),
    {
        let ghost n = s.len() - rest@.len();
        let ghost before = rest@;
        let (is_link, item) = rest.pop().unwrap();
        proof {
            assert(before[before.len() - 1] == s[n]);
            assert(s.subrange(0, n + 1).subrange(0, n) =~= s.subrange(0, n));
            assert(s.subrange(0, n + 1)[n] == s[n]);
            assert forall|k: int| 0 <= k < rest@.len() implies #[trigger] rest@[k] == s[s.len() - 1 - k] by {
                assert(rest@[k] == before[k]);
            }
        }
        if is_link {
            links.push(item);
        } else {
            plain.push(item);
        }
    }
    assert(s.subrange(0, s.len() as int) =~= s);
    let mut r = plain;
    r.append(&mut links);
    match content_hint {
        Some(h) => r.push(h),
        None => {},
    }
    r
}

} // verus!
