use reflexo_typst::sema::{discrete_labels_for_text_item, plan_fallbacks, Fallback, ItemLabels};

fn labels(left: usize, top: usize, right: usize, bottom: usize) -> ItemLabels {
    ItemLabels { left, top, right, bottom }
}

#[test]
fn labels_are_ordered() {
    assert_eq!(discrete_labels_for_text_item(3, 4, 1, 2), labels(1, 2, 3, 4));
    assert_eq!(discrete_labels_for_text_item(1, 2, 3, 4), labels(1, 2, 3, 4));
    assert_eq!(discrete_labels_for_text_item(5, 0, 5, 0), labels(5, 0, 5, 0));
}

#[test]
fn whole_width_blank_above_a_lower_item() {
    let items = vec![labels(1, 1, 3, 2), labels(0, 3, 2, 4), labels(0, 0, 1, 1)];
    let plan = plan_fallbacks(&items, 0, 5);
    assert_eq!(plan, vec![vec![Fallback::Whole { from: 0 }], vec![Fallback::Whole { from: 2 }], vec![]]);
}

#[test]
fn left_blank_starts_at_an_earlier_right_edge() {
    let items = vec![labels(1, 1, 3, 2), labels(4, 0, 5, 3), labels(0, 0, 1, 1)];
    let plan = plan_fallbacks(&items, 0, 6);
    assert_eq!(
        plan,
        vec![vec![Fallback::Whole { from: 0 }], vec![Fallback::Left { from: Some(3), top: 1, bottom: 2 }], vec![]]
    );
}

#[test]
fn rows_without_an_earlier_edge_get_no_left_blank() {
    // Rows 0 and 1 of the second item have the first item's right edge 1 to
    // their left; rows 2 and 3 have none, and a blank from the border would
    // start at the lowest bottom so far, which already includes the item.
    let items = vec![labels(0, 0, 1, 2), labels(3, 0, 4, 4), labels(0, 0, 0, 0)];
    let plan = plan_fallbacks(&items, 0, 5);
    assert_eq!(plan[0], vec![]);
    assert_eq!(plan[1], vec![Fallback::Left { from: Some(1), top: 0, bottom: 2 }]);
    assert_eq!(plan[2], vec![]);
}

#[test]
fn an_edge_right_of_the_item_gives_no_blank() {
    let items = vec![labels(0, 0, 5, 2), labels(3, 0, 4, 2), labels(0, 0, 0, 0)];
    let plan = plan_fallbacks(&items, 0, 6);
    assert_eq!(plan[1], vec![]);
}

#[test]
fn no_items_no_plan() {
    assert!(plan_fallbacks(&vec![], 0, 0).is_empty());
    assert_eq!(plan_fallbacks(&vec![labels(0, 0, 1, 1)], 0, 2), vec![vec![]]);
}
