use vstd::prelude::*;

verus! {

/// An event emitted by a list when its selection moves, is confirmed or is cancelled.
#[derive(Clone, Copy, Debug, PartialEq, Eq)]
pub enum ListEvent {
    /// Move to select item.
    Select(usize),
    /// Click on item or pressed Enter.
    Confirm(usize),
    /// Pressed ESC to deselect the item.
    Cancel,
}

/// What a list asks its host to do after a step, in order.
#[derive(Clone, Copy, Debug, PartialEq, Eq)]
pub enum ListAction {
    /// Tell the delegate the selected index (without confirming it).
    SetDelegateSelection(Option<usize>),
    /// Let the delegate confirm its selected item; `true` for a secondary confirm.
    ConfirmDelegate(bool),
    /// Let the delegate cancel the selection.
    CancelDelegate,
    /// Scroll so that the item with this index is at the top of the view.
    ScrollToItem(usize),
    /// Emit this event to the list's subscribers.
    Emit(ListEvent),
    /// Let the cancel action go on to the parent element.
    Propagate,
    /// Show or hide the loading indicator of the query input.
    SetInputLoading(bool),
    /// Re-render the list.
    Notify,
}

/// What the list's body shows.
#[derive(Clone, Copy, Debug, PartialEq, Eq)]
pub enum ListBody {
    /// The delegate's loading view.
    Loading,
    /// The delegate's initial view (before the user has typed a query).
    Initial,
    /// The delegate's empty view: there are no items.
    Empty,
    /// The items, in a uniformly sized scrolling list.
    Items,
}

/// The selection and interaction state of a list: everything it decides on
/// that is not a handle into the UI framework.
pub struct List {
    /// The selected item.
    pub selected_index: Option<usize>,
    /// The item that was right-clicked (shown as secondarily selected).
    pub mouse_right_clicked_index: Option<usize>,
    /// Whether items can be selected and confirmed with the mouse.
    pub selectable: bool,
    /// A search is running.
    pub querying: bool,
    /// Whether the scrollbar is shown.
    pub scrollbar_visible: bool,
    /// Whether cancelling clears the selection.
    pub reset_on_cancel: bool,
    /// The last query whose search completed.
    pub last_query: Option<String>,
}

// ---------------------------------------------------------------------------
// Navigation.
// ---------------------------------------------------------------------------

/// The item that "select next" moves to among `items_count` items: the one after
/// the selected item, wrapping from the last (or a later) item to the first; the
/// first when nothing is selected.
pub open spec fn next_index(selected: Option<usize>, items_count: usize) -> usize {
    match selected {
        Some(ix) => if ix + 1 < items_count {
            (ix + 1) as usize
        } else {
            0
        },
        None => 0,
    }
}

/// The item that "select previous" moves to among `items_count` items: the one
/// before the selected item, wrapping from the first item to the last; the last
/// when nothing is selected.
pub open spec fn prev_index(selected: Option<usize>, items_count: usize) -> usize {
    let ix = match selected {
        Some(ix) => ix,
        None => 0,
    };
    if ix > 0 {
        (ix - 1) as usize
    } else {
        (items_count - 1) as usize
    }
}

/// The actions of selecting item `ix`: tell the delegate, scroll to it, emit
/// `Select`, re-render.
pub open spec fn select_actions(ix: usize) -> Seq<ListAction> {
    seq![
        ListAction::SetDelegateSelection(Some(ix)),
        ListAction::ScrollToItem(ix),
        ListAction::Emit(ListEvent::Select(ix)),
        ListAction::Notify,
    ]
}

/// The actions of confirming among `items_count` items with the selection
/// `selected`: nothing when there are no items or nothing is selected; else tell
/// the delegate the selection, let it confirm, emit `Confirm`, re-render.
pub open spec fn confirm_actions(
    selected: Option<usize>,
    items_count: usize,
    secondary: bool,
) -> Seq<ListAction> {
    if items_count == 0 {
        Seq::empty()
    } else {
        match selected {
            Some(ix) => seq![
                ListAction::SetDelegateSelection(Some(ix)),
                ListAction::ConfirmDelegate(secondary),
                ListAction::Emit(ListEvent::Confirm(ix)),
                ListAction::Notify,
            ],
            None => Seq::empty(),
        }
    }
}

/// The actions of setting the selection to `ix` and scrolling to it.
pub open spec fn set_and_scroll_actions(ix: Option<usize>) -> Seq<ListAction> {
    match ix {
        Some(i) => seq![ListAction::SetDelegateSelection(ix), ListAction::ScrollToItem(i)],
        None => seq![ListAction::SetDelegateSelection(ix)],
    }
}

/// The actions of cancelling with the selection `selected`: let the action go on
/// to the parent when nothing is selected; clear the selection when the list
/// resets on cancel; then let the delegate cancel, emit `Cancel`, re-render.
pub open spec fn cancel_actions(selected: Option<usize>, reset_on_cancel: bool) -> Seq<ListAction> {
    (if selected is None {
        seq![ListAction::Propagate]
    } else {
        Seq::empty()
    }) + (if reset_on_cancel {
        seq![ListAction::SetDelegateSelection(None)]
    } else {
        Seq::empty()
    }) + seq![ListAction::CancelDelegate, ListAction::Emit(ListEvent::Cancel), ListAction::Notify]
}

/// The actions of switching the searching state: the query input's loading
/// indicator follows it when there is a query input; then re-render.
pub open spec fn querying_actions(querying: bool, has_query_input: bool) -> Seq<ListAction> {
    (if has_query_input {
        seq![ListAction::SetInputLoading(querying)]
    } else {
        Seq::empty()
    }) + seq![ListAction::Notify]
}

/// More items are due once the visible range reaches within `threshold` items of
/// the end of the `items_count` items.
pub open spec fn load_more_due_spec(items_count: usize, visible_end: usize, threshold: usize) -> bool {
    visible_end >= if items_count > threshold {
        items_count - threshold
    } else {
        0
    }
}

/// Whether more items should be loaded: the visible range (ending at
/// `visible_end`) has reached within `threshold` items of the end of the list.
/// The host then loads more only if its delegate can.
pub fn load_more_due(items_count: usize, visible_end: usize, threshold: usize) -> (r: bool)
    ensures
        r == load_more_due_spec(items_count, visible_end, threshold),
{
    visible_end >= items_count.saturating_sub(threshold)
}

/// A query is ignored when it is the last query whose search completed.
pub open spec fn query_ignored(last_query: Option<String>, query: Seq<char>) -> bool {
    last_query matches Some(last) && last@ == query
}

/// Unicode's `White_Space` property: the 25 code points U+0009..=U+000D,
/// U+0020, U+0085, U+00A0, U+1680, U+2000..=U+200A, U+2028, U+2029, U+202F,
/// U+205F and U+3000.
pub open spec fn is_white_space(c: char) -> bool {
    let u = c as int;
    ||| 0x09 <= u <= 0x0D
    ||| u == 0x20
    ||| u == 0x85
    ||| u == 0xA0
    ||| u == 0x1680
    ||| 0x2000 <= u <= 0x200A
    ||| u == 0x2028
    ||| u == 0x2029
    ||| u == 0x202F
    ||| u == 0x205F
    ||| u == 0x3000
}

/// The text without its leading whitespace.
pub open spec fn trim_start_spec(s: Seq<char>) -> Seq<char>
    decreases s.len(),
{
    if s.len() > 0 && is_white_space(s[0]) {
        trim_start_spec(s.drop_first())
    } else {
        s
    }
}

/// The text without its trailing whitespace.
pub open spec fn trim_end_spec(s: Seq<char>) -> Seq<char>
    decreases s.len(),
{
    if s.len() > 0 && is_white_space(s.last()) {
        trim_end_spec(s.drop_last())
    } else {
        s
    }
}

/// The text of a query with its leading and trailing whitespace removed.
pub open spec fn trimmed(s: Seq<char>) -> Seq<char> {
    trim_end_spec(trim_start_spec(s))
}

/// Removes leading and trailing whitespace (std's `str::trim`, which documents
/// whitespace as Unicode's `White_Space` property). The contract claims the
/// result is the text with its longest whitespace prefix and suffix removed.
#[verifier::external_body]
fn trim_query(text: &str) -> (r: &str)
    ensures
        r@ == trimmed(text@),
{
    text.trim()
}

impl List {
    /// The state of a new list: nothing selected or right-clicked, selectable,
    /// not searching, with a scrollbar, clearing the selection on cancel, and no
    /// query searched yet.
    pub fn new() -> (r: List)
        ensures
            r.selected_index is None,
            r.mouse_right_clicked_index is None,
            r.selectable,
            !r.querying,
            r.scrollbar_visible,
            r.reset_on_cancel,
            r.last_query is None,
    {
        List {
            selected_index: None,
            mouse_right_clicked_index: None,
            selectable: true,
            querying: false,
            scrollbar_visible: true,
            reset_on_cancel: true,
            last_query: None,
        }
    }

    /// Set the visibility of the scrollbar, default is true.
    pub fn scrollbar_visible(self, visible: bool) -> (r: List)
        ensures
            r == (List { scrollbar_visible: visible, ..self }),
    {
        List { scrollbar_visible: visible, ..self }
    }

    /// Sets whether the list is selectable, default is true.
    pub fn selectable(self, selectable: bool) -> (r: List)
        ensures
            r == (List { selectable: selectable, ..self }),
    {
        List { selectable, ..self }
    }

    /// Sets whether cancelling clears the selection, default is true.
    pub fn reset_on_cancel(self, reset: bool) -> (r: List)
        ensures
            r == (List { reset_on_cancel: reset, ..self }),
    {
        List { reset_on_cancel: reset, ..self }
    }

    /// The selected item.
    pub fn selected_index(&self) -> (r: Option<usize>)
        ensures
            r == self.selected_index,
    {
        self.selected_index
    }

    /// Whether the scrollbar is shown.
    pub fn shows_scrollbar(&self) -> (r: bool)
        ensures
            r == self.scrollbar_visible,
    {
        self.scrollbar_visible
    }

    /// Set the selected index of the list; this does not scroll to the item.
    pub fn set_selected_index(&mut self, ix: Option<usize>) -> (r: Vec<ListAction>)
        ensures
            *final(self) == (List { selected_index: ix, ..*old(self) }),
            r@ == seq![ListAction::SetDelegateSelection(ix)],
    {
        self.selected_index = ix;
        let mut actions = Vec::new();
        actions.push(ListAction::SetDelegateSelection(ix));
        assert(actions@ =~= seq![ListAction::SetDelegateSelection(ix)]);
        actions
    }

    /// Scroll to the selected item, if any.
    pub fn scroll_to_selected_item(&self) -> (r: Vec<ListAction>)
        ensures
            r@ == match self.selected_index {
                Some(ix) => seq![ListAction::ScrollToItem(ix)],
                None => Seq::empty(),
            },
    {
        let mut actions = Vec::new();
        if let Some(ix) = self.selected_index {
            actions.push(ListAction::ScrollToItem(ix));
            assert(actions@ =~= seq![ListAction::ScrollToItem(ix)]);
        }
        actions
    }

    /// Set the selected index of the list and scroll to the selected item.
    pub fn set_selected_index_and_scroll(&mut self, ix: Option<usize>) -> (r: Vec<ListAction>)
        ensures
            *final(self) == (List { selected_index: ix, ..*old(self) }),
            r@ == set_and_scroll_actions(ix),
    {
        let mut actions = self.set_selected_index(ix);
        let mut scroll = self.scroll_to_selected_item();
        actions.append(&mut scroll);
        assert(actions@ =~= set_and_scroll_actions(ix));
        actions
    }

    /// Select item `ix`: remember it, tell the delegate, scroll to it, emit
    /// `Select`, re-render.
    pub fn select_item(&mut self, ix: usize) -> (r: Vec<ListAction>)
        ensures
            *final(self) == (List { selected_index: Some(ix), ..*old(self) }),
            r@ == select_actions(ix),
    {
        self.selected_index = Some(ix);
        let mut actions = Vec::new();
        actions.push(ListAction::SetDelegateSelection(Some(ix)));
        actions.push(ListAction::ScrollToItem(ix));
        actions.push(ListAction::Emit(ListEvent::Select(ix)));
        actions.push(ListAction::Notify);
        assert(actions@ =~= select_actions(ix));
        actions
    }

    /// The "select previous" action among `items_count` items: nothing happens
    /// without items; otherwise the item before the selected one is selected,
    /// wrapping to the last.
    pub fn on_action_select_prev(&mut self, items_count: usize) -> (r: Vec<ListAction>)
        ensures
            items_count == 0 ==> *final(self) == *old(self) && r@ == Seq::<ListAction>::empty(),
            items_count > 0 ==> {
                let ix = prev_index(old(self).selected_index, items_count);
                &&& *final(self) == (List { selected_index: Some(ix), ..*old(self) })
                &&& r@ == select_actions(ix)
            },
    {
        if items_count == 0 {
            return Vec::new();
        }
        let mut selected_index = match self.selected_index {
            Some(ix) => ix,
            None => 0,
        };
        if selected_index > 0 {
            selected_index = selected_index.saturating_sub(1);
        } else {
            selected_index = items_count.saturating_sub(1);
        }
        self.select_item(selected_index)
    }

    /// The "select next" action among `items_count` items: nothing happens
    /// without items; otherwise the item after the selected one is selected,
    /// wrapping to the first.
    pub fn on_action_select_next(&mut self, items_count: usize) -> (r: Vec<ListAction>)
        ensures
            items_count == 0 ==> *final(self) == *old(self) && r@ == Seq::<ListAction>::empty(),
            items_count > 0 ==> {
                let ix = next_index(old(self).selected_index, items_count);
                &&& *final(self) == (List { selected_index: Some(ix), ..*old(self) })
                &&& r@ == select_actions(ix)
            },
    {
        if items_count == 0 {
            return Vec::new();
        }
        let selected_index;
        if let Some(ix) = self.selected_index {
            if ix < items_count.saturating_sub(1) {
                selected_index = ix + 1;
            } else {
                // When the last item is selected, select the first item.
                selected_index = 0;
            }
        } else {
            // When no selected index, select the first item.
            selected_index = 0;
        }
        self.select_item(selected_index)
    }

    /// The confirm action among `items_count` items (click on an item or Enter).
    pub fn on_action_confirm(&self, items_count: usize, secondary: bool) -> (r: Vec<ListAction>)
        ensures
            r@ == confirm_actions(self.selected_index, items_count, secondary),
    {
        let mut actions = Vec::new();
        if items_count == 0 {
            return actions;
        }
        let ix = match self.selected_index {
            Some(ix) => ix,
            None => {
                return actions;
            },
        };
        actions.push(ListAction::SetDelegateSelection(Some(ix)));
        actions.push(ListAction::ConfirmDelegate(secondary));
        actions.push(ListAction::Emit(ListEvent::Confirm(ix)));
        actions.push(ListAction::Notify);
        assert(actions@ =~= confirm_actions(self.selected_index, items_count, secondary));
        actions
    }

    /// The cancel action (Escape).
    pub fn on_action_cancel(&mut self) -> (r: Vec<ListAction>)
        ensures
            *final(self) == (if old(self).reset_on_cancel {
                List { selected_index: None, ..*old(self) }
            } else {
                *old(self)
            }),
            r@ == cancel_actions(old(self).selected_index, old(self).reset_on_cancel),
    {
        let mut actions = Vec::new();
        if self.selected_index.is_none() {
            actions.push(ListAction::Propagate);
        }
        if self.reset_on_cancel {
            let mut cleared = self.set_selected_index_and_scroll(None);
            actions.append(&mut cleared);
        }
        actions.push(ListAction::CancelDelegate);
        actions.push(ListAction::Emit(ListEvent::Cancel));
        actions.push(ListAction::Notify);
        assert(actions@ =~= cancel_actions(old(self).selected_index, old(self).reset_on_cancel));
        actions
    }

    /// Switches the searching state.
    pub fn set_querying(&mut self, querying: bool, has_query_input: bool) -> (r: Vec<ListAction>)
        ensures
            *final(self) == (List { querying: querying, ..*old(self) }),
            r@ == querying_actions(querying, has_query_input),
    {
        self.querying = querying;
        let mut actions = Vec::new();
        if has_query_input {
            actions.push(ListAction::SetInputLoading(querying));
        }
        actions.push(ListAction::Notify);
        assert(actions@ =~= querying_actions(querying, has_query_input));
        actions
    }

    /// A (trimmed) query was typed. The same query as the last searched one is
    /// ignored (`None`); otherwise the list starts searching and hands the query
    /// back, with the actions to perform, for the host to run the search.
    pub fn apply_query(&mut self, query: String, has_query_input: bool) -> (r: Option<
        (String, Vec<ListAction>),
    >)
        ensures
            query_ignored(old(self).last_query, query@) ==> {
                &&& r is None
                &&& *final(self) == *old(self)
            },
            !query_ignored(old(self).last_query, query@) ==> {
                &&& r matches Some((q, actions))
                &&& q@ == query@
                &&& actions@ == querying_actions(true, has_query_input)
                &&& *final(self) == (List { querying: true, ..*old(self) })
            },
    {
        let same = match &self.last_query {
            Some(last) => *last == query,
            None => false,
        };
        if same {
            return None;
        }
        let actions = self.set_querying(true, has_query_input);
        Some((query, actions))
    }

    /// The query input's text changed: it is trimmed and applied as a query.
    pub fn on_query_input_change(&mut self, text: &str, has_query_input: bool) -> (r: Option<
        (String, Vec<ListAction>),
    >)
        ensures
            query_ignored(old(self).last_query, trimmed(text@)) ==> {
                &&& r is None
                &&& *final(self) == *old(self)
            },
            !query_ignored(old(self).last_query, trimmed(text@)) ==> {
                &&& r matches Some((q, actions))
                &&& q@ == trimmed(text@)
                &&& actions@ == querying_actions(true, has_query_input)
                &&& *final(self) == (List { querying: true, ..*old(self) })
            },
    {
        let query = trim_query(text).to_owned();
        self.apply_query(query, has_query_input)
    }

    /// The search was started and left `items_count` items: the first is
    /// selected and scrolled to when there are any, the selection is cleared
    /// otherwise.
    pub fn on_search_started(&mut self, items_count: usize) -> (r: Vec<ListAction>)
        ensures
            *final(self) == (List {
                selected_index: if items_count > 0 {
                    Some(0usize)
                } else {
                    None
                },
                ..*old(self)
            }),
            r@ == set_and_scroll_actions(
                if items_count > 0 {
                    Some(0usize)
                } else {
                    None
                },
            ),
    {
        if items_count > 0 {
            self.set_selected_index_and_scroll(Some(0))
        } else {
            self.set_selected_index_and_scroll(None)
        }
    }

    /// The search for `query` finished: the list scrolls back to the top and
    /// remembers the query.
    pub fn on_search_finished(&mut self, query: String) -> (r: Vec<ListAction>)
        ensures
            *final(self) == (List { last_query: Some(query), ..*old(self) }),
            r@ == seq![ListAction::ScrollToItem(0)],
    {
        self.last_query = Some(query);
        let mut actions = Vec::new();
        actions.push(ListAction::ScrollToItem(0));
        assert(actions@ =~= seq![ListAction::ScrollToItem(0)]);
        actions
    }

    /// How item `ix` is drawn: (selected, secondarily selected by a right click).
    pub fn item_selection(&self, ix: usize) -> (r: (bool, bool))
        ensures
            r.0 == (self.selected_index == Some(ix)),
            r.1 == (self.mouse_right_clicked_index == Some(ix)),
    {
        let selected = match self.selected_index {
            Some(s) => s == ix,
            None => false,
        };
        let right_clicked = match self.mouse_right_clicked_index {
            Some(r) => r == ix,
            None => false,
        };
        (selected, right_clicked)
    }

    /// Item `ix` was clicked with the left button: in a selectable list the
    /// right-click mark is cleared, the item selected and the selection confirmed
    /// among `items_count` items; a list that is not selectable ignores it.
    pub fn on_item_left_click(&mut self, ix: usize, items_count: usize, secondary: bool) -> (r: Vec<
        ListAction,
    >)
        ensures
            !old(self).selectable ==> *final(self) == *old(self) && r@ == Seq::<ListAction>::empty(),
            old(self).selectable ==> *final(self) == (List {
                mouse_right_clicked_index: None,
                selected_index: Some(ix),
                ..*old(self)
            }) && r@ == confirm_actions(Some(ix), items_count, secondary),
    {
        if !self.selectable {
            return Vec::new();
        }
        self.mouse_right_clicked_index = None;
        self.selected_index = Some(ix);
        self.on_action_confirm(items_count, secondary)
    }

    /// Item `ix` was clicked with the right button: a selectable list marks it
    /// and re-renders; a list that is not selectable ignores it.
    pub fn on_item_right_click(&mut self, ix: usize) -> (r: Vec<ListAction>)
        ensures
            !old(self).selectable ==> *final(self) == *old(self) && r@ == Seq::<ListAction>::empty(),
            old(self).selectable ==> *final(self) == (List {
                mouse_right_clicked_index: Some(ix),
                ..*old(self)
            }) && r@ == seq![ListAction::Notify],
    {
        let mut actions = Vec::new();
        if !self.selectable {
            return actions;
        }
        self.mouse_right_clicked_index = Some(ix);
        actions.push(ListAction::Notify);
        assert(actions@ =~= seq![ListAction::Notify]);
        actions
    }

    /// A click outside the list clears the right-click mark and re-renders (the
    /// host listens for such clicks only while an item is right-clicked).
    pub fn on_mouse_down_out(&mut self) -> (r: Vec<ListAction>)
        ensures
            *final(self) == (List { mouse_right_clicked_index: None, ..*old(self) }),
            r@ == seq![ListAction::Notify],
    {
        self.mouse_right_clicked_index = None;
        let mut actions = Vec::new();
        actions.push(ListAction::Notify);
        assert(actions@ =~= seq![ListAction::Notify]);
        actions
    }

    /// Whether the delegate's initial view is asked for: only when the list has
    /// a query input and nothing has been typed into it.
    pub fn wants_initial_view(&self, has_query_input: bool, query_is_empty: bool) -> (r: bool)
        ensures
            r == (has_query_input && query_is_empty),
    {
        has_query_input && query_is_empty
    }
}

/// What the list's body shows: the loading view while loading, else the initial
/// view when the delegate gave one, else the empty view without items and the
/// items otherwise.
pub open spec fn list_body_spec(loading: bool, has_initial_view: bool, items_count: usize) -> ListBody {
    if loading {
        ListBody::Loading
    } else if has_initial_view {
        ListBody::Initial
    } else if items_count == 0 {
        ListBody::Empty
    } else {
        ListBody::Items
    }
}

/// Decides what the list's body shows.
pub fn list_body(loading: bool, has_initial_view: bool, items_count: usize) -> (r: ListBody)
    ensures
        r == list_body_spec(loading, has_initial_view, items_count),
{
    if loading {
        ListBody::Loading
    } else if has_initial_view {
        ListBody::Initial
    } else if items_count == 0 {
        ListBody::Empty
    } else {
        ListBody::Items
    }
}

// ---------------------------------------------------------------------------
// Laws.
// ---------------------------------------------------------------------------

/// "Select next" moves cyclically through the items: from item `ix` of `n` it
/// goes to `(ix + 1) mod n`, and from nothing to the first item.
pub proof fn law_next_is_cyclic(ix: usize, n: usize)
    requires
        ix < n,
    ensures
        next_index(Some(ix), n) == (ix + 1) % (n as int),
        next_index(None, n) == 0,
{
    if ix + 1 == n {
        assert((ix + 1) % (n as int) == 0) by (nonlinear_arith)
            requires
                ix + 1 == n,
        ;
    } else {
        assert((ix + 1) % (n as int) == ix + 1) by (nonlinear_arith)
            requires
                ix + 1 < n,
        ;
    }
}

/// "Select previous" moves cyclically through the items: from item `ix` of `n`
/// it goes to `(ix + n - 1) mod n`, and from nothing to the last item.
pub proof fn law_prev_is_cyclic(ix: usize, n: usize)
    requires
        ix < n,
    ensures
        prev_index(Some(ix), n) == (ix + n - 1) % (n as int),
        prev_index(None, n) == n - 1,
{
    if ix == 0 {
        assert((ix + n - 1) % (n as int) == n - 1) by (nonlinear_arith)
            requires
                ix == 0,
                n > 0,
        ;
    } else {
        assert((ix + n - 1) % (n as int) == ix - 1) by (nonlinear_arith)
            requires
                0 < ix < n,
        ;
    }
}

/// "Select previous" undoes "select next", and "select next" undoes "select
/// previous", for any selected item among `n`.
pub proof fn law_prev_undoes_next(ix: usize, n: usize)
    requires
        ix < n,
    ensures
        prev_index(Some(next_index(Some(ix), n)), n) == ix,
        next_index(Some(prev_index(Some(ix), n)), n) == ix,
{
}

/// Navigation keeps the selection among the items: after "select next" the
/// selected item exists; after "select previous" too, when the selection was
/// among the items (or one past the last) or empty.
pub proof fn law_navigation_stays_in_range(selected: Option<usize>, n: usize)
    requires
        n > 0,
    ensures
        next_index(selected, n) < n,
        (selected matches Some(ix) ==> ix <= n) ==> prev_index(selected, n) < n,
{
}

/// Confirming always tells the delegate the selected index before letting it
/// confirm, and the confirmed event carries that index.
pub proof fn law_confirm_sets_selection_first(
    selected: Option<usize>,
    items_count: usize,
    secondary: bool,
)
    ensures
        ({
            let actions = confirm_actions(selected, items_count, secondary);
            &&& actions.len() == 0 || actions.len() == 4
            &&& actions.len() == 4 ==> {
                &&& selected matches Some(ix)
                &&& actions[0] == ListAction::SetDelegateSelection(selected)
                &&& actions[1] == ListAction::ConfirmDelegate(secondary)
                &&& actions[2] == ListAction::Emit(ListEvent::Confirm(selected->0))
            }
            &&& (actions.len() == 4 <==> items_count > 0 && selected is Some)
        }),
{
}

/// Once the search for a query has finished, typing the same query again
/// (after trimming) is ignored.
pub proof fn law_finished_query_is_ignored(last: String, query: Seq<char>)
    requires
        last@ == query,
    ensures
        query_ignored(Some(last), query),
{
}

/// Loading more is due for every visible end at or past one for which it is due.
pub proof fn law_load_more_monotone(
    items_count: usize,
    visible_end: usize,
    later_end: usize,
    threshold: usize,
)
    requires
        load_more_due_spec(items_count, visible_end, threshold),
        visible_end <= later_end,
    ensures
        load_more_due_spec(items_count, later_end, threshold),
{
}

/// Loading more is always due once the visible range reaches the last item.
pub proof fn law_load_more_at_end(items_count: usize, threshold: usize)
    ensures
        load_more_due_spec(items_count, items_count, threshold),
{
}


/// The text without leading whitespace is empty or starts with a character
/// that is not whitespace.
proof fn lemma_trim_start_shape(s: Seq<char>)
    ensures
        trim_start_spec(s).len() == 0 || !is_white_space(trim_start_spec(s)[0]),
        trim_start_spec(s).len() <= s.len(),
    decreases s.len(),
{
    if s.len() > 0 && is_white_space(s[0]) {
        lemma_trim_start_shape(s.drop_first());
    }
}

/// The text without trailing whitespace is a prefix of the text, and is empty
/// or ends with a character that is not whitespace.
proof fn lemma_trim_end_shape(s: Seq<char>)
    ensures
        trim_end_spec(s).len() <= s.len(),
        trim_end_spec(s) == s.take(trim_end_spec(s).len() as int),
        trim_end_spec(s).len() == 0 || !is_white_space(trim_end_spec(s).last()),
    decreases s.len(),
{
    if s.len() > 0 && is_white_space(s.last()) {
        lemma_trim_end_shape(s.drop_last());
        let t = trim_end_spec(s.drop_last());
        assert(s.drop_last().take(t.len() as int) =~= s.take(t.len() as int));
    } else {
        assert(s.take(s.len() as int) =~= s);
    }
}

/// Trimming is idempotent: a trimmed query trims to itself, so a query typed
/// again with any added leading or trailing whitespace trims to the same text.
pub proof fn law_trim_idempotent(s: Seq<char>)
    ensures
        trimmed(trimmed(s)) == trimmed(s),
{
    let a = trim_start_spec(s);
    let t = trim_end_spec(a);
    lemma_trim_start_shape(s);
    lemma_trim_end_shape(a);
    if t.len() > 0 {
        assert(t[0] == a[0]);
        assert(trim_start_spec(t) == t);
    } else {
        assert(trim_start_spec(t) == t);
    }
    assert(trim_end_spec(t) == t);
}

/// The item reached from item `i` of `n` after `k` "select next" steps.
pub open spec fn next_steps(i: usize, n: usize, k: nat) -> usize
    decreases k,
{
    if k == 0 {
        i
    } else {
        next_index(Some(next_steps(i, n, (k - 1) as nat)), n)
    }
}

/// The item reached from item `i` of `n` after `k` "select previous" steps.
pub open spec fn prev_steps(i: usize, n: usize, k: nat) -> usize
    decreases k,
{
    if k == 0 {
        i
    } else {
        prev_index(Some(prev_steps(i, n, (k - 1) as nat)), n)
    }
}

proof fn lemma_next_steps(i: usize, n: usize, k: nat)
    requires
        i < n,
        k <= n,
    ensures
        next_steps(i, n, k) == if i + k < n {
            i + k
        } else {
            i + k - n
        },
    decreases k,
{
    if k > 0 {
        lemma_next_steps(i, n, (k - 1) as nat);
    }
}

proof fn lemma_prev_steps(i: usize, n: usize, k: nat)
    requires
        i < n,
        k <= n,
    ensures
        prev_steps(i, n, k) == if k <= i {
            i - k
        } else {
            i - k + n
        },
    decreases k,
{
    if k > 0 {
        lemma_prev_steps(i, n, (k - 1) as nat);
    }
}

/// Some of the first `n` "select next" steps from item `i` lands on item `j`.
pub open spec fn next_reaches(i: usize, n: usize, j: usize) -> bool {
    exists|k: nat| 1 <= k <= n && #[trigger] next_steps(i, n, k) == j
}

/// Some of the first `n` "select previous" steps from item `i` lands on item `j`.
pub open spec fn prev_reaches(i: usize, n: usize, j: usize) -> bool {
    exists|k: nat| 1 <= k <= n && #[trigger] prev_steps(i, n, k) == j
}

/// `n` successive "select next" steps from item `i` of `n` visit every item
/// exactly once (in the order `i + 1, ..., n - 1, 0, ..., i`) and end on `i`.
pub proof fn law_next_visits_every_item_once(i: usize, n: usize)
    requires
        i < n,
    ensures
        next_steps(i, n, n as nat) == i,
        forall|k: nat| 1 <= k <= n ==> #[trigger] next_steps(i, n, k) < n,
        forall|j: usize| j < n ==> #[trigger] next_reaches(i, n, j),
        forall|k1: nat, k2: nat|
            1 <= k1 <= n && 1 <= k2 <= n && #[trigger] next_steps(i, n, k1) == #[trigger] next_steps(
                i,
                n,
                k2,
            ) ==> k1 == k2,
{
    lemma_next_steps(i, n, n as nat);
    assert forall|k: nat| 1 <= k <= n implies #[trigger] next_steps(i, n, k) < n by {
        lemma_next_steps(i, n, k);
    }
    assert forall|j: usize| j < n implies #[trigger] next_reaches(i, n, j) by {
        let k: nat = if j > i {
            (j - i) as nat
        } else {
            (j + n - i) as nat
        };
        lemma_next_steps(i, n, k);
        assert(next_steps(i, n, k) == j);
    }
    assert forall|k1: nat, k2: nat|
        1 <= k1 <= n && 1 <= k2 <= n && #[trigger] next_steps(i, n, k1) == #[trigger] next_steps(
            i,
            n,
            k2,
        ) implies k1 == k2 by {
        lemma_next_steps(i, n, k1);
        lemma_next_steps(i, n, k2);
    }
}

/// `n` successive "select previous" steps from item `i` of `n` visit every
/// item exactly once (in the order `i - 1, ..., 0, n - 1, ..., i`) and end on `i`.
pub proof fn law_prev_visits_every_item_once(i: usize, n: usize)
    requires
        i < n,
    ensures
        prev_steps(i, n, n as nat) == i,
        forall|k: nat| 1 <= k <= n ==> #[trigger] prev_steps(i, n, k) < n,
        forall|j: usize| j < n ==> #[trigger] prev_reaches(i, n, j),
        forall|k1: nat, k2: nat|
            1 <= k1 <= n && 1 <= k2 <= n && #[trigger] prev_steps(i, n, k1) == #[trigger] prev_steps(
                i,
                n,
                k2,
            ) ==> k1 == k2,
{
    lemma_prev_steps(i, n, n as nat);
    assert forall|k: nat| 1 <= k <= n implies #[trigger] prev_steps(i, n, k) < n by {
        lemma_prev_steps(i, n, k);
    }
    assert forall|j: usize| j < n implies #[trigger] prev_reaches(i, n, j) by {
        let k: nat = if j < i {
            (i - j) as nat
        } else {
            (i + n - j) as nat
        };
        lemma_prev_steps(i, n, k);
        assert(prev_steps(i, n, k) == j);
    }
    assert forall|k1: nat, k2: nat|
        1 <= k1 <= n && 1 <= k2 <= n && #[trigger] prev_steps(i, n, k1) == #[trigger] prev_steps(
            i,
            n,
            k2,
        ) implies k1 == k2 by {
        lemma_prev_steps(i, n, k1);
        lemma_prev_steps(i, n, k2);
    }
}

/// What the body shows follows from the state alone: the loading view exactly
/// while loading (whatever the items and the initial view); otherwise the
/// initial view exactly when the delegate gave one; otherwise the empty view
/// exactly when there are no items, and the items when there are.
pub proof fn law_list_body(loading: bool, has_initial_view: bool, items_count: usize)
    ensures
        (list_body_spec(loading, has_initial_view, items_count) == ListBody::Loading) == loading,
        (list_body_spec(loading, has_initial_view, items_count) == ListBody::Initial) == (!loading
            && has_initial_view),
        (list_body_spec(loading, has_initial_view, items_count) == ListBody::Empty) == (!loading
            && !has_initial_view && items_count == 0),
        (list_body_spec(loading, has_initial_view, items_count) == ListBody::Items) == (!loading
            && !has_initial_view && items_count > 0),
{
}

/// A query is ignored only when it is exactly the last searched query: with no
/// search finished yet nothing is ignored, a query that differs from the last
/// one in any way (longer, shorter or changed) is searched, and the last query
/// itself is ignored.
pub proof fn law_only_the_same_query_is_ignored(last: Option<String>, query: Seq<char>)
    ensures
        last is None ==> !query_ignored(last, query),
        last matches Some(l) ==> (query_ignored(last, query) <==> l@ =~= query),
        last matches Some(l) ==> query_ignored(last, l@),
        last matches Some(l) && l@.len() != query.len() ==> !query_ignored(last, query),
{
}

/// Escape goes on to the parent exactly when nothing is selected, whether or
/// not the list resets on cancel; the delegate always cancels, `Cancel` is
/// always emitted and the list always re-renders last; the selection is told
/// to the delegate (as cleared) exactly when the list resets on cancel.
pub proof fn law_cancel_propagates_without_selection(selected: Option<usize>, reset_on_cancel: bool)
    ensures
        ({
            let a = cancel_actions(selected, reset_on_cancel);
            &&& selected is None ==> a[0] == ListAction::Propagate
            &&& selected is Some ==> !a.contains(ListAction::Propagate)
            &&& a.contains(ListAction::CancelDelegate)
            &&& a.contains(ListAction::Emit(ListEvent::Cancel))
            &&& a.last() == ListAction::Notify
            &&& a.contains(ListAction::SetDelegateSelection(None)) == reset_on_cancel
            &&& a.len() == 3 + (if selected is None {
                1int
            } else {
                0
            }) + (if reset_on_cancel {
                1int
            } else {
                0
            })
        }),
{
    let a = cancel_actions(selected, reset_on_cancel);
    let p = if selected is None {
        seq![ListAction::Propagate]
    } else {
        Seq::<ListAction>::empty()
    };
    let r = if reset_on_cancel {
        seq![ListAction::SetDelegateSelection(None)]
    } else {
        Seq::<ListAction>::empty()
    };
    let t = seq![ListAction::CancelDelegate, ListAction::Emit(ListEvent::Cancel), ListAction::Notify];
    assert(a == p + r + t);
    assert(a[a.len() - 3] == ListAction::CancelDelegate);
    assert(a[a.len() - 2] == ListAction::Emit(ListEvent::Cancel));
    if reset_on_cancel {
        assert(a[p.len() as int] == ListAction::SetDelegateSelection(None));
    } else {
        assert forall|i: int| 0 <= i < a.len() implies a[i] != ListAction::SetDelegateSelection(
            None,
        ) by {}
    }
    if selected is Some {
        assert forall|i: int| 0 <= i < a.len() implies a[i] != ListAction::Propagate by {}
    }
}

/// Switching the searching state shows it on the query input exactly when
/// there is one, and always re-renders last.
pub proof fn law_querying_actions(querying: bool, has_query_input: bool)
    ensures
        querying_actions(querying, has_query_input).last() == ListAction::Notify,
        querying_actions(querying, has_query_input).len() == if has_query_input {
            2int
        } else {
            1
        },
        has_query_input ==> querying_actions(querying, has_query_input)[0]
            == ListAction::SetInputLoading(querying),
{
}

/// Loading more is due exactly when the visible range ends no more than
/// `threshold` items before the last item.
pub proof fn law_load_more_due_exactly(items_count: usize, visible_end: usize, threshold: usize)
    ensures
        load_more_due_spec(items_count, visible_end, threshold) <==> visible_end + threshold
            >= items_count,
{
}

/// Selecting an item tells the delegate that item first, scrolls to it, emits
/// `Select` with it and re-renders; setting a selection scrolls exactly when
/// there is one.
pub proof fn law_select_and_scroll_actions(ix: usize, sel: Option<usize>)
    ensures
        select_actions(ix).len() == 4,
        select_actions(ix)[0] == ListAction::SetDelegateSelection(Some(ix)),
        select_actions(ix)[1] == ListAction::ScrollToItem(ix),
        select_actions(ix)[2] == ListAction::Emit(ListEvent::Select(ix)),
        select_actions(ix)[3] == ListAction::Notify,
        set_and_scroll_actions(sel)[0] == ListAction::SetDelegateSelection(sel),
        set_and_scroll_actions(sel).len() == if sel is Some {
            2int
        } else {
            1
        },
        sel matches Some(i) ==> set_and_scroll_actions(sel)[1] == ListAction::ScrollToItem(i),
{
}

} // verus!
