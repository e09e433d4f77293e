use gpui_component::list::list::{
    list_body, load_more_due, List, ListAction, ListBody, ListEvent,
};

fn with_selection(ix: Option<usize>) -> List {
    let mut list = List::new();
    list.selected_index = ix;
    list
}

fn select_actions(ix: usize) -> Vec<ListAction> {
    vec![
        ListAction::SetDelegateSelection(Some(ix)),
        ListAction::ScrollToItem(ix),
        ListAction::Emit(ListEvent::Select(ix)),
        ListAction::Notify,
    ]
}

#[test]
fn new_list_defaults() {
    let list = List::new();
    assert_eq!(list.selected_index(), None);
    assert_eq!(list.mouse_right_clicked_index, None);
    assert!(list.selectable);
    assert!(!list.querying);
    assert!(list.shows_scrollbar());
    assert!(list.reset_on_cancel);
    assert_eq!(list.last_query, None);
}

#[test]
fn builders_set_their_field() {
    let list = List::new().scrollbar_visible(false).selectable(false).reset_on_cancel(false);
    assert!(!list.scrollbar_visible);
    assert!(!list.shows_scrollbar());
    assert!(!list.selectable);
    assert!(!list.reset_on_cancel);
}

#[test]
fn select_next_moves_and_wraps() {
    let mut list = with_selection(None);
    assert_eq!(list.on_action_select_next(3), select_actions(0));
    assert_eq!(list.selected_index(), Some(0));
    list.on_action_select_next(3);
    assert_eq!(list.selected_index(), Some(1));
    list.on_action_select_next(3);
    assert_eq!(list.selected_index(), Some(2));
    assert_eq!(list.on_action_select_next(3), select_actions(0));
    assert_eq!(list.selected_index(), Some(0));
    // A selection past the end wraps to the first item.
    let mut stale = with_selection(Some(10));
    stale.on_action_select_next(3);
    assert_eq!(stale.selected_index(), Some(0));
}

#[test]
fn select_prev_moves_and_wraps() {
    let mut list = with_selection(None);
    assert_eq!(list.on_action_select_prev(3), select_actions(2));
    list.on_action_select_prev(3);
    assert_eq!(list.selected_index(), Some(1));
    list.on_action_select_prev(3);
    assert_eq!(list.selected_index(), Some(0));
    list.on_action_select_prev(3);
    assert_eq!(list.selected_index(), Some(2));
}

#[test]
fn navigation_without_items_does_nothing() {
    let mut list = with_selection(Some(1));
    assert!(list.on_action_select_next(0).is_empty());
    assert!(list.on_action_select_prev(0).is_empty());
    assert_eq!(list.selected_index(), Some(1));
}

#[test]
fn next_is_cyclic_and_prev_undoes_it() {
    for n in 1..6usize {
        for ix in 0..n {
            let mut list = with_selection(Some(ix));
            list.on_action_select_next(n);
            assert_eq!(list.selected_index(), Some((ix + 1) % n));
            list.on_action_select_prev(n);
            assert_eq!(list.selected_index(), Some(ix));
            list.on_action_select_prev(n);
            assert_eq!(list.selected_index(), Some((ix + n - 1) % n));
            list.on_action_select_next(n);
            assert_eq!(list.selected_index(), Some(ix));
        }
    }
}

#[test]
fn confirm_needs_items_and_a_selection() {
    let list = with_selection(Some(2));
    assert_eq!(
        list.on_action_confirm(5, true),
        vec![
            ListAction::SetDelegateSelection(Some(2)),
            ListAction::ConfirmDelegate(true),
            ListAction::Emit(ListEvent::Confirm(2)),
            ListAction::Notify,
        ]
    );
    assert!(list.on_action_confirm(0, false).is_empty());
    assert!(with_selection(None).on_action_confirm(5, false).is_empty());
    assert_eq!(list.selected_index(), Some(2));
}

#[test]
fn cancel_clears_selection_and_emits() {
    let mut list = with_selection(Some(1));
    assert_eq!(
        list.on_action_cancel(),
        vec![
            ListAction::SetDelegateSelection(None),
            ListAction::CancelDelegate,
            ListAction::Emit(ListEvent::Cancel),
            ListAction::Notify,
        ]
    );
    assert_eq!(list.selected_index(), None);
    // With nothing selected, the cancel also goes on to the parent.
    assert_eq!(
        list.on_action_cancel(),
        vec![
            ListAction::Propagate,
            ListAction::SetDelegateSelection(None),
            ListAction::CancelDelegate,
            ListAction::Emit(ListEvent::Cancel),
            ListAction::Notify,
        ]
    );
}

#[test]
fn cancel_keeps_selection_without_reset() {
    let mut list = with_selection(Some(1)).reset_on_cancel(false);
    assert_eq!(
        list.on_action_cancel(),
        vec![ListAction::CancelDelegate, ListAction::Emit(ListEvent::Cancel), ListAction::Notify]
    );
    assert_eq!(list.selected_index(), Some(1));
}

#[test]
fn set_selected_index_and_scrolling() {
    let mut list = List::new();
    assert_eq!(list.set_selected_index(Some(4)), vec![ListAction::SetDelegateSelection(Some(4))]);
    assert_eq!(list.selected_index(), Some(4));
    assert_eq!(list.scroll_to_selected_item(), vec![ListAction::ScrollToItem(4)]);
    assert_eq!(
        list.set_selected_index_and_scroll(Some(1)),
        vec![ListAction::SetDelegateSelection(Some(1)), ListAction::ScrollToItem(1)]
    );
    assert_eq!(list.set_selected_index_and_scroll(None), vec![ListAction::SetDelegateSelection(None)]);
    assert!(list.scroll_to_selected_item().is_empty());
    assert_eq!(list.select_item(3), select_actions(3));
    assert_eq!(list.selected_index(), Some(3));
}

#[test]
fn query_change_is_trimmed_and_searched() {
    let mut list = List::new();
    let (query, actions) = list.on_query_input_change("  rust \n", true).unwrap();
    assert_eq!(query, "rust");
    assert_eq!(actions, vec![ListAction::SetInputLoading(true), ListAction::Notify]);
    assert!(list.querying);

    assert_eq!(
        list.on_search_started(3),
        vec![ListAction::SetDelegateSelection(Some(0)), ListAction::ScrollToItem(0)]
    );
    assert_eq!(list.selected_index(), Some(0));
    assert_eq!(list.on_search_finished(query), vec![ListAction::ScrollToItem(0)]);
    assert_eq!(list.last_query.as_deref(), Some("rust"));
    assert_eq!(list.set_querying(false, true), vec![ListAction::SetInputLoading(false), ListAction::Notify]);
    assert!(!list.querying);

    // The same query, however padded, is ignored.
    assert!(list.on_query_input_change("rust   ", true).is_none());
    assert!(!list.querying);
    // A different one is searched again.
    let (other, actions) = list.on_query_input_change("rus", false).unwrap();
    assert_eq!(other, "rus");
    assert_eq!(actions, vec![ListAction::Notify]);
}

#[test]
fn search_without_results_clears_selection() {
    let mut list = with_selection(Some(2));
    assert_eq!(list.on_search_started(0), vec![ListAction::SetDelegateSelection(None)]);
    assert_eq!(list.selected_index(), None);
}

#[test]
fn apply_query_compares_with_last_query() {
    let mut list = List::new();
    list.on_search_finished(String::from("a"));
    assert!(list.apply_query(String::from("a"), true).is_none());
    assert!(list.apply_query(String::from("b"), true).is_some());
}

#[test]
fn load_more_near_the_end() {
    assert!(!load_more_due(100, 79, 20));
    assert!(load_more_due(100, 80, 20));
    assert!(load_more_due(100, 100, 20));
    // Fewer items than the threshold: always due.
    assert!(load_more_due(10, 0, 20));
    assert!(load_more_due(0, 0, 0));
    for end in 80..200 {
        assert!(load_more_due(100, end, 20));
    }
}

#[test]
fn item_clicks() {
    let mut list = List::new();
    assert_eq!(list.on_item_right_click(2), vec![ListAction::Notify]);
    assert_eq!(list.item_selection(2), (false, true));
    assert_eq!(
        list.on_item_left_click(1, 4, false),
        vec![
            ListAction::SetDelegateSelection(Some(1)),
            ListAction::ConfirmDelegate(false),
            ListAction::Emit(ListEvent::Confirm(1)),
            ListAction::Notify,
        ]
    );
    assert_eq!(list.item_selection(1), (true, false));
    assert_eq!(list.mouse_right_clicked_index, None);
    // Clicking without items selects but does not confirm.
    assert!(list.on_item_left_click(0, 0, true).is_empty());
    assert_eq!(list.selected_index(), Some(0));
}

#[test]
fn clicks_on_a_list_that_is_not_selectable() {
    let mut list = List::new().selectable(false);
    assert!(list.on_item_left_click(1, 4, false).is_empty());
    assert!(list.on_item_right_click(1).is_empty());
    assert_eq!(list.selected_index(), None);
    assert_eq!(list.mouse_right_clicked_index, None);
}

#[test]
fn click_outside_clears_right_click() {
    let mut list = List::new();
    list.on_item_right_click(3);
    assert_eq!(list.on_mouse_down_out(), vec![ListAction::Notify]);
    assert_eq!(list.mouse_right_clicked_index, None);
}

#[test]
fn body_and_layout_decisions() {
    assert_eq!(list_body(true, true, 5), ListBody::Loading);
    assert_eq!(list_body(false, true, 5), ListBody::Initial);
    assert_eq!(list_body(false, false, 0), ListBody::Empty);
    assert_eq!(list_body(false, false, 3), ListBody::Items);
    let list = List::new();
    assert!(list.wants_initial_view(true, true));
    assert!(!list.wants_initial_view(true, false));
    assert!(!list.wants_initial_view(false, true));
}

#[test]
fn query_trims_unicode_white_space() {
    let mut list = List::new();
    let (query, _) = list.on_query_input_change("\u{3000}\tfoo bar\u{2009}\u{85}", true).unwrap();
    assert_eq!(query, "foo bar");
    list.on_search_finished(query);
    assert!(list.on_query_input_change("  foo bar  ", true).is_none());
    assert!(list.on_query_input_change("foo bar", true).is_none());
    let (empty, _) = list.on_query_input_change(" \n\u{a0} ", true).unwrap();
    assert_eq!(empty, "");
}

#[test]
fn n_steps_visit_every_item_once() {
    for n in 1..7usize {
        for i in 0..n {
            let mut list = with_selection(Some(i));
            let mut seen = vec![0usize; n];
            for _ in 0..n {
                let actions = list.on_action_select_next(n);
                let ix = list.selected_index().unwrap();
                assert_eq!(actions, select_actions(ix));
                seen[ix] += 1;
            }
            assert_eq!(list.selected_index(), Some(i));
            assert!(seen.iter().all(|&c| c == 1));

            let mut seen = vec![0usize; n];
            for _ in 0..n {
                list.on_action_select_prev(n);
                seen[list.selected_index().unwrap()] += 1;
            }
            assert_eq!(list.selected_index(), Some(i));
            assert!(seen.iter().all(|&c| c == 1));
        }
    }
}
