use vstd::prelude::*;

use crate::handle::{arrow_action, hit_action, HandleAction};
use crate::state::{
    clamped_ratio, collapsed_first, collapsed_second, expanded, is_nan_bits, resized, toggled, Axis,
    CollapseState, DropEdge, DropTarget, MaximizeState, NodeId, PaneDrag, PaneId, Point, SplitId,
    State, StateView, RATIO_MAX, RATIO_MIN, RATIO_ONE, RATIO_ZERO, SIGN_BIT,
};

verus! {

/// What the widget asks of the layout state in reply to user input.
///
/// `DragMoved` carries the new ratio as its IEEE-754 single-precision bit
/// pattern; the points carry their coordinates the same way.
#[derive(Debug, Clone, Copy, PartialEq, Eq, Structural)]
pub enum InternalMessage {
    DragStarted(SplitId),
    DragMoved(SplitId, u32),
    DragEnded,
    CollapseFirst(SplitId),
    CollapseSecond(SplitId),
    Expand(SplitId),
    Maximize(PaneId),
    PaneDragStarted(PaneId, Point),
    PaneDragMoved(Point),
    PaneDragDropped(DropTarget),
    PaneDragCancelled,
}

/// Where a dropped pane goes, given the edge it was dropped on: beside the
/// target along an axis, before it or after it. The center swaps instead.
pub open spec fn edge_placement(edge: DropEdge) -> (Axis, bool) {
    match edge {
        DropEdge::Left => (Axis::Horizontal, true),
        DropEdge::Right => (Axis::Horizontal, false),
        DropEdge::Top => (Axis::Vertical, true),
        DropEdge::Bottom => (Axis::Vertical, false),
        DropEdge::Center => (Axis::Horizontal, true),
    }
}

/// The tree after `source` is dropped on `target`: on the center the two
/// panes trade places; on an edge `source` is taken out of the tree and,
/// when that succeeds, placed beside the target pane.
pub open spec fn dropped(v: StateView, source: PaneId, target: DropTarget) -> StateView {
    if target.edge == DropEdge::Center {
        v.swapped(source, target.pane)
    } else if v.detachable(source) {
        v.detached(source).inserted(
            source,
            target.pane,
            edge_placement(target.edge).0,
            edge_placement(target.edge).1,
        )
    } else {
        v
    }
}

/// The state after `message` is processed.
pub open spec fn updated(v: StateView, message: InternalMessage) -> StateView {
    match message {
        InternalMessage::DragStarted(id) => StateView { dragging: Some(id), ..v },
        InternalMessage::DragMoved(id, ratio) => v.updated_split(
            id,
            resized(v.split_of(id).unwrap(), ratio),
        ),
        InternalMessage::DragEnded => StateView { dragging: None, ..v },
        InternalMessage::CollapseFirst(id) => v.updated_split(
            id,
            collapsed_first(v.split_of(id).unwrap()),
        ),
        InternalMessage::CollapseSecond(id) => v.updated_split(
            id,
            collapsed_second(v.split_of(id).unwrap()),
        ),
        InternalMessage::Expand(id) => v.updated_split(id, expanded(v.split_of(id).unwrap())),
        InternalMessage::Maximize(pane) => StateView { maximize: toggled(v.maximize, pane), ..v },
        InternalMessage::PaneDragStarted(pane, origin) => StateView {
            pane_drag: Some(PaneDrag { pane, origin, current: origin }),
            ..v
        },
        InternalMessage::PaneDragMoved(pos) => StateView {
            pane_drag: match v.pane_drag {
                Some(d) => Some(PaneDrag { current: pos, ..d }),
                None => None,
            },
            ..v
        },
        InternalMessage::PaneDragDropped(target) => {
            let w = match v.pane_drag {
                Some(d) => dropped(v, d.pane, target),
                None => v,
            };
            StateView { pane_drag: None, ..w }
        },
        InternalMessage::PaneDragCancelled => StateView { pane_drag: None, ..v },
    }
}

/// Where the pointer is relative to one split handle: which arrow zones and
/// whether the handle's bounds contain it.
#[derive(Debug, Clone, Copy, PartialEq, Eq, Structural)]
pub struct HandleHit {
    pub split_id: SplitId,
    pub axis: Axis,
    pub collapse: CollapseState,
    pub in_first_arrow: bool,
    pub in_second_arrow: bool,
    pub in_bounds: bool,
}

/// Where the pointer is relative to the drag bar of one pane.
#[derive(Debug, Clone, Copy, PartialEq, Eq, Structural)]
pub struct DragHit {
    pub pane: PaneId,
    pub in_bounds: bool,
}

/// The pointer shape the widget asks for.
#[derive(Debug, Clone, Copy, PartialEq, Eq, Structural)]
pub enum Interaction {
    Grabbing,
    Grab,
    Pointer,
    ResizingHorizontally,
    ResizingVertically,
}

/// The message a handle action becomes.
pub open spec fn action_message_of(action: HandleAction) -> InternalMessage {
    match action {
        HandleAction::CollapseFirst(id) => InternalMessage::CollapseFirst(id),
        HandleAction::CollapseSecond(id) => InternalMessage::CollapseSecond(id),
        HandleAction::Expand(id) => InternalMessage::Expand(id),
    }
}

/// The message a handle action becomes.
pub fn action_message(action: HandleAction) -> (r: InternalMessage)
    ensures
        r == action_message_of(action),
{
    match action {
        HandleAction::CollapseFirst(id) => InternalMessage::CollapseFirst(id),
        HandleAction::CollapseSecond(id) => InternalMessage::CollapseSecond(id),
        HandleAction::Expand(id) => InternalMessage::Expand(id),
    }
}

/// The action of a click on the handles, taken in order: the first handle
/// with an arrow under the pointer decides.
pub open spec fn first_arrow_action(hs: Seq<HandleHit>) -> Option<HandleAction>
    decreases hs.len(),
{
    if hs.len() == 0 {
        None
    } else if arrow_action(hs[0].split_id, hs[0].collapse, hs[0].in_first_arrow, hs[0].in_second_arrow)
        is Some {
        arrow_action(hs[0].split_id, hs[0].collapse, hs[0].in_first_arrow, hs[0].in_second_arrow)
    } else {
        first_arrow_action(hs.drop_first())
    }
}

/// The first pane whose drag bar is under the pointer.
pub open spec fn first_drag_bar(ds: Seq<DragHit>) -> Option<PaneId>
    decreases ds.len(),
{
    if ds.len() == 0 {
        None
    } else if ds[0].in_bounds {
        Some(ds[0].pane)
    } else {
        first_drag_bar(ds.drop_first())
    }
}

/// The first split whose handle is under the pointer.
pub open spec fn first_handle(hs: Seq<HandleHit>) -> Option<SplitId>
    decreases hs.len(),
{
    if hs.len() == 0 {
        None
    } else if hs[0].in_bounds {
        Some(hs[0].split_id)
    } else {
        first_handle(hs.drop_first())
    }
}

/// The message of a left-button press: an arrow click first, then the start
/// of a pane drag on a drag bar, then the start of a split drag on a handle.
pub open spec fn press_result(hs: Seq<HandleHit>, ds: Seq<DragHit>, pos: Point) -> Option<
    InternalMessage,
> {
    match first_arrow_action(hs) {
        Some(action) => Some(action_message_of(action)),
        None => match first_drag_bar(ds) {
            Some(pane) => Some(InternalMessage::PaneDragStarted(pane, pos)),
            None => match first_handle(hs) {
                Some(id) => Some(InternalMessage::DragStarted(id)),
                None => None,
            },
        },
    }
}

/// The arrow under the pointer, as its split and whether it is the first
/// arrow; of each handle in order the first arrow is looked at before the
/// second.
pub open spec fn hovered_arrow(hs: Seq<HandleHit>) -> Option<(SplitId, bool)>
    decreases hs.len(),
{
    if hs.len() == 0 {
        None
    } else if hs[0].in_first_arrow {
        Some((hs[0].split_id, true))
    } else if hs[0].in_second_arrow {
        Some((hs[0].split_id, false))
    } else {
        hovered_arrow(hs.drop_first())
    }
}

/// The first pane, other than `source`, whose bounds hold the pointer.
pub open spec fn drop_pane(ps: Seq<(PaneId, bool)>, source: PaneId) -> Option<PaneId>
    decreases ps.len(),
{
    if ps.len() == 0 {
        None
    } else if ps[0].0 != source && ps[0].1 {
        Some(ps[0].0)
    } else {
        drop_pane(ps.drop_first(), source)
    }
}

/// The pointer over the handles, taken in order: an arrow asks for a
/// pointing hand, the rest of a handle for a resize arrow along its axis.
pub open spec fn handle_interaction(hs: Seq<HandleHit>) -> Option<Interaction>
    decreases hs.len(),
{
    if hs.len() == 0 {
        None
    } else if hs[0].in_first_arrow || hs[0].in_second_arrow {
        Some(Interaction::Pointer)
    } else if hs[0].in_bounds {
        Some(
            match hs[0].axis {
                Axis::Horizontal => Interaction::ResizingHorizontally,
                Axis::Vertical => Interaction::ResizingVertically,
            },
        )
    } else {
        handle_interaction(hs.drop_first())
    }
}

/// The pointer shape: grabbing during any drag, an open hand over a drag
/// bar, then what the handles ask for; `None` leaves it to the panes.
pub open spec fn interaction_of(
    pane_dragging: bool,
    dragging: bool,
    hs: Seq<HandleHit>,
    ds: Seq<DragHit>,
) -> Option<Interaction> {
    if pane_dragging || dragging {
        Some(Interaction::Grabbing)
    } else if first_drag_bar(ds) is Some {
        Some(Interaction::Grab)
    } else {
        handle_interaction(hs)
    }
}

/// The message of a left-button release: a pane drag ends with a drop on the
/// target found, or is cancelled without one; a split drag ends.
pub open spec fn release_result(
    pane_dragging: bool,
    drop_target: Option<DropTarget>,
    dragging: bool,
) -> Option<InternalMessage> {
    if pane_dragging {
        match drop_target {
            Some(t) => Some(InternalMessage::PaneDragDropped(t)),
            None => Some(InternalMessage::PaneDragCancelled),
        }
    } else if dragging {
        Some(InternalMessage::DragEnded)
    } else {
        None
    }
}

proof fn lemma_tail<T>(s: Seq<T>, i: int)
    requires
        0 <= i < s.len(),
    ensures
        s.subrange(i, s.len() as int).len() > 0,
        s.subrange(i, s.len() as int)[0] == s[i],
        s.subrange(i, s.len() as int).drop_first() == s.subrange(i + 1, s.len() as int),
{
    assert(s.subrange(i, s.len() as int).drop_first() =~= s.subrange(i + 1, s.len() as int));
}

proof fn lemma_whole<T>(s: Seq<T>)
    ensures
        s.subrange(0, s.len() as int) == s,
        s.subrange(s.len() as int, s.len() as int).len() == 0,
{
    assert(s.subrange(0, s.len() as int) =~= s);
}

fn find_arrow_action(hs: &Vec<HandleHit>) -> (r: Option<HandleAction>)
    ensures
        r == first_arrow_action(hs@),
{
    proof {
        lemma_whole(hs@);
    }
    let mut i: usize = 0;
    while i < hs.len()
        invariant
            i <= hs@.len(),
            first_arrow_action(hs@) == first_arrow_action(hs@.subrange(i as int, hs@.len() as int)),
        decreases hs@.len() - i,
    {
        proof {
            lemma_tail(hs@, i as int);
        }
        let h = hs[i];
        if let Some(action) = hit_action(h.split_id, h.collapse, h.in_first_arrow, h.in_second_arrow) {
            return Some(action);
        }
        i += 1;
    }
    None
}

fn find_drag_bar(ds: &Vec<DragHit>) -> (r: Option<PaneId>)
    ensures
        r == first_drag_bar(ds@),
{
    proof {
        lemma_whole(ds@);
    }
    let mut i: usize = 0;
    while i < ds.len()
        invariant
            i <= ds@.len(),
            first_drag_bar(ds@) == first_drag_bar(ds@.subrange(i as int, ds@.len() as int)),
        decreases ds@.len() - i,
    {
        proof {
            lemma_tail(ds@, i as int);
        }
        if ds[i].in_bounds {
            return Some(ds[i].pane);
        }
        i += 1;
    }
    None
}

fn find_handle(hs: &Vec<HandleHit>) -> (r: Option<SplitId>)
    ensures
        r == first_handle(hs@),
{
    proof {
        lemma_whole(hs@);
    }
    let mut i: usize = 0;
    while i < hs.len()
        invariant
            i <= hs@.len(),
            first_handle(hs@) == first_handle(hs@.subrange(i as int, hs@.len() as int)),
        decreases hs@.len() - i,
    {
        proof {
            lemma_tail(hs@, i as int);
        }
        if hs[i].in_bounds {
            return Some(hs[i].split_id);
        }
        i += 1;
    }
    None
}

/// Decides the message of a left-button press at `pos`, from where the
/// pointer is relative to the split handles and the pane drag bars.
pub fn press_message(handles: &Vec<HandleHit>, drags: &Vec<DragHit>, pos: Point) -> (r: Option<
    InternalMessage,
>)
    ensures
        r == press_result(handles@, drags@, pos),
{
    if let Some(action) = find_arrow_action(handles) {
        return Some(action_message(action));
    }
    if let Some(pane) = find_drag_bar(drags) {
        return Some(InternalMessage::PaneDragStarted(pane, pos));
    }
    if let Some(id) = find_handle(handles) {
        return Some(InternalMessage::DragStarted(id));
    }
    None
}

/// Decides which arrow the pointer hovers, if any.
pub fn hover_arrow(handles: &Vec<HandleHit>) -> (r: Option<(SplitId, bool)>)
    ensures
        r == hovered_arrow(handles@),
{
    proof {
        lemma_whole(handles@);
    }
    let mut i: usize = 0;
    while i < handles.len()
        invariant
            i <= handles@.len(),
            hovered_arrow(handles@) == hovered_arrow(
                handles@.subrange(i as int, handles@.len() as int),
            ),
        decreases handles@.len() - i,
    {
        proof {
            lemma_tail(handles@, i as int);
        }
        if handles[i].in_first_arrow {
            return Some((handles[i].split_id, true));
        }
        if handles[i].in_second_arrow {
            return Some((handles[i].split_id, false));
        }
        i += 1;
    }
    None
}

/// Decides on which pane a pane dragged from `source` would be dropped,
/// from whether each pane's bounds hold the pointer.
pub fn drop_candidate(panes: &Vec<(PaneId, bool)>, source: PaneId) -> (r: Option<PaneId>)
    ensures
        r == drop_pane(panes@, source),
{
    proof {
        lemma_whole(panes@);
    }
    let mut i: usize = 0;
    while i < panes.len()
        invariant
            i <= panes@.len(),
            drop_pane(panes@, source) == drop_pane(
                panes@.subrange(i as int, panes@.len() as int),
                source,
            ),
        decreases panes@.len() - i,
    {
        proof {
            lemma_tail(panes@, i as int);
        }
        let (pane, inside) = panes[i];
        if pane != source && inside {
            return Some(pane);
        }
        i += 1;
    }
    None
}

/// Decides the pointer shape; `None` leaves it to the panes' content.
pub fn interaction(
    pane_dragging: bool,
    dragging: bool,
    handles: &Vec<HandleHit>,
    drags: &Vec<DragHit>,
) -> (r: Option<Interaction>)
    ensures
        r == interaction_of(pane_dragging, dragging, handles@, drags@),
{
    if pane_dragging || dragging {
        return Some(Interaction::Grabbing);
    }
    if find_drag_bar(drags).is_some() {
        return Some(Interaction::Grab);
    }
    proof {
        lemma_whole(handles@);
    }
    let mut i: usize = 0;
    while i < handles.len()
        invariant
            i <= handles@.len(),
            !pane_dragging && !dragging && first_drag_bar(drags@) is None,
            handle_interaction(handles@) == handle_interaction(
                handles@.subrange(i as int, handles@.len() as int),
            ),
        decreases handles@.len() - i,
    {
        proof {
            lemma_tail(handles@, i as int);
        }
        let h = handles[i];
        if h.in_first_arrow || h.in_second_arrow {
            return Some(Interaction::Pointer);
        }
        if h.in_bounds {
            return Some(
                match h.axis {
                    Axis::Horizontal => Interaction::ResizingHorizontally,
                    Axis::Vertical => Interaction::ResizingVertically,
                },
            );
        }
        i += 1;
    }
    None
}

/// Decides the message of a left-button release.
pub fn release_message(pane_dragging: bool, drop_target: Option<DropTarget>, dragging: bool) -> (r:
    Option<InternalMessage>)
    ensures
        r == release_result(pane_dragging, drop_target, dragging),
{
    if pane_dragging {
        return match drop_target {
            Some(target) => Some(InternalMessage::PaneDragDropped(target)),
            None => Some(InternalMessage::PaneDragCancelled),
        };
    }
    if dragging {
        return Some(InternalMessage::DragEnded);
    }
    None
}

/// Processes a message of the widget by updating the state.
/// Call this from the application's update function.
pub fn update(state: &mut State, message: InternalMessage)
    requires
        old(state).wf(),
        message is PaneDragDropped ==> old(state)@.next_split_id < usize::MAX,
    ensures
        final(state).wf(),
        final(state)@ == updated(old(state)@, message),
{
    match message {
        InternalMessage::DragStarted(split_id) => {
            state.set_dragging(Some(split_id));
        },
        InternalMessage::DragMoved(split_id, ratio) => {
            state.resize(split_id, ratio);
        },
        InternalMessage::DragEnded => {
            state.set_dragging(None);
        },
        InternalMessage::CollapseFirst(split_id) => {
            state.collapse_first(split_id);
        },
        InternalMessage::CollapseSecond(split_id) => {
            state.collapse_second(split_id);
        },
        InternalMessage::Expand(split_id) => {
            state.expand(split_id);
        },
        InternalMessage::Maximize(pane) => {
            state.toggle_maximize(pane);
        },
        InternalMessage::PaneDragStarted(pane, origin) => {
            state.set_pane_dragging(PaneDrag { pane, origin, current: origin });
        },
        InternalMessage::PaneDragMoved(pos) => {
            state.update_pane_drag_position(pos);
        },
        InternalMessage::PaneDragDropped(target) => {
            if let Some(drag) = state.pane_dragging() {
                let source = drag.pane;
                let dest = target.pane;
                match target.edge {
                    DropEdge::Center => {
                        state.swap_panes(source, dest);
                    },
                    DropEdge::Left => {
                        if state.detach_pane(source) {
                            state.insert_by_split(source, dest, Axis::Horizontal, true);
                        }
                    },
                    DropEdge::Right => {
                        if state.detach_pane(source) {
                            state.insert_by_split(source, dest, Axis::Horizontal, false);
                        }
                    },
                    DropEdge::Top => {
                        if state.detach_pane(source) {
                            state.insert_by_split(source, dest, Axis::Vertical, true);
                        }
                    },
                    DropEdge::Bottom => {
                        if state.detach_pane(source) {
                            state.insert_by_split(source, dest, Axis::Vertical, false);
                        }
                    },
                }
            }
            state.clear_pane_dragging();
        },
        InternalMessage::PaneDragCancelled => {
            state.clear_pane_dragging();
        },
    }
}

/// Dropping a dragged pane on another pane of the layout, at the center or
/// at an edge, keeps the layout a well-formed tree with the same panes, and
/// ends the drag.
pub proof fn law_drop_keeps_panes(v: StateView, drag: PaneDrag, target: DropTarget)
    requires
        v.well_formed(),
        v.pane_drag == Some(drag),
        drag.pane != target.pane,
        v.in_layout(drag.pane),
        v.in_layout(target.pane),
        v.next_split_id < usize::MAX,
    ensures
        updated(v, InternalMessage::PaneDragDropped(target)).well_formed(),
        updated(v, InternalMessage::PaneDragDropped(target)).layout_panes() == v.layout_panes(),
        updated(v, InternalMessage::PaneDragDropped(target)).pane_drag is None,
{
    let s = drag.pane;
    let d = target.pane;
    let w = dropped(v, s, target);
    if target.edge == DropEdge::Center {
        v.lemma_swapped(s, d);
    } else {
        if v.root == Some(NodeId::Pane(s)) {
            v.lemma_root_pane(s);
            assert(v.layout_panes().contains(d));
        }
        assert(v.detachable(s));
        v.lemma_detached(s);
        v.lemma_refs_bounded();
        let x = v.detached(s);
        assert(x.layout_panes().contains(d));
        assert(x.in_layout(d));
        assert(!x.layout_panes().contains(s));
        assert(x.insertable(s, d));
        let (axis, first) = edge_placement(target.edge);
        x.lemma_wrapped(NodeId::Pane(d), StateView::pair_split(s, d, axis, first), s);
        assert(x.layout_panes().insert(s) =~= v.layout_panes());
    }
    w.lemma_wf_tree_only(updated(v, InternalMessage::PaneDragDropped(target)));
}

/// Collapsing either side of an expanded split and then expanding it gives
/// back the state as it was.
pub proof fn law_collapse_then_expand(v: StateView, id: SplitId, first: bool)
    requires
        v.well_formed(),
        v.has_split(id),
        v.split_of(id).unwrap().collapse == CollapseState::Expanded,
    ensures
        updated(
            updated(
                v,
                if first {
                    InternalMessage::CollapseFirst(id)
                } else {
                    InternalMessage::CollapseSecond(id)
                },
            ),
            InternalMessage::Expand(id),
        ) == v,
{
    let sp = v.split_of(id).unwrap();
    let i = v.index_of(id);
    assert(sp.ratio == sp.saved_ratio) by {
        reveal(StateView::ratios_saved);
    }
    let c = if first {
        collapsed_first(sp)
    } else {
        collapsed_second(sp)
    };
    v.lemma_updated_split_of(id, c);
    let w = v.updated_split(id, c);
    v.lemma_updated_split(id, c);
    assert(expanded(c) == sp);
    assert(w.splits.update(i, (id, sp)) =~= v.splits);
    assert(updated(w, InternalMessage::Expand(id)) =~= v);
}

/// Collapsing one side and then the other of an expanded split, and then
/// expanding it, gives back the state as it was: the ratio saved by the first
/// collapse survives the second.
pub proof fn law_collapse_both_then_expand(v: StateView, id: SplitId)
    requires
        v.well_formed(),
        v.has_split(id),
        v.split_of(id).unwrap().collapse == CollapseState::Expanded,
    ensures
        updated(
            updated(
                updated(v, InternalMessage::CollapseFirst(id)),
                InternalMessage::CollapseSecond(id),
            ),
            InternalMessage::Expand(id),
        ) == v,
{
    let sp = v.split_of(id).unwrap();
    let i = v.index_of(id);
    assert(sp.ratio == sp.saved_ratio) by {
        reveal(StateView::ratios_saved);
    }
    let c1 = collapsed_first(sp);
    v.lemma_updated_split_of(id, c1);
    v.lemma_updated_split(id, c1);
    let w1 = v.updated_split(id, c1);
    let c2 = collapsed_second(c1);
    w1.lemma_updated_split_of(id, c2);
    w1.lemma_updated_split(id, c2);
    let w2 = w1.updated_split(id, c2);
    assert(expanded(c2) == sp);
    assert(w2.splits.update(i, (id, sp)) =~= v.splits);
    assert(updated(w2, InternalMessage::Expand(id)) =~= v);
}

/// Toggling the maximize state of a pane twice gives back the maximize state
/// as it was, when no other pane was maximized.
pub proof fn law_toggle_twice(v: StateView, pane: PaneId)
    requires
        v.maximize == MaximizeState::Normal || v.maximize == MaximizeState::Maximized(pane),
    ensures
        updated(updated(v, InternalMessage::Maximize(pane)), InternalMessage::Maximize(pane)) == v,
        updated(v, InternalMessage::Maximize(pane)).maximize == (if v.maximize
            == MaximizeState::Normal {
            MaximizeState::Maximized(pane)
        } else {
            MaximizeState::Normal
        }),
{
    assert(updated(updated(v, InternalMessage::Maximize(pane)), InternalMessage::Maximize(pane))
        =~= v);
}

/// Dragging a split handle leaves an expanded split at a ratio within
/// 0.05 ..= 0.95 (unless the ratio is not a number), with that ratio saved;
/// a collapsed split does not move.
pub proof fn law_drag_bounds(v: StateView, id: SplitId, ratio: u32)
    requires
        v.well_formed(),
        v.has_split(id),
    ensures
        ({
            let sp = v.split_of(id).unwrap();
            let after = updated(v, InternalMessage::DragMoved(id, ratio)).split_of(id).unwrap();
            &&& sp.collapse == CollapseState::Expanded && !is_nan_bits(ratio) ==> RATIO_MIN
                <= after.ratio <= RATIO_MAX && after.saved_ratio == after.ratio
            &&& sp.collapse != CollapseState::Expanded ==> updated(
                v,
                InternalMessage::DragMoved(id, ratio),
            ) == v
        }),
{
    let sp = v.split_of(id).unwrap();
    let i = v.index_of(id);
    let r = resized(sp, ratio);
    v.lemma_updated_split_of(id, r);
    if sp.collapse != CollapseState::Expanded {
        assert(v.splits.update(i, (id, sp)) =~= v.splits);
    } else {
        law_clamp_in_range(ratio);
    }
}

/// The clamped ratio of a number lies within 0.05 ..= 0.95, and clamping it
/// again changes nothing.
pub proof fn law_clamp_in_range(b: u32)
    ensures
        !is_nan_bits(b) ==> RATIO_MIN <= clamped_ratio(b) <= RATIO_MAX,
        clamped_ratio(clamped_ratio(b)) == clamped_ratio(b),
{
    assert(RATIO_MIN & 0x7FFF_FFFFu32 == RATIO_MIN) by (bit_vector);
    assert(RATIO_MAX & 0x7FFF_FFFFu32 == RATIO_MAX) by (bit_vector);
    assert(b < SIGN_BIT ==> b & 0x7FFF_FFFFu32 == b) by (bit_vector);
}

/// Collapsing the second side of an expanded split, then the first, and then
/// expanding it, gives back the state as it was: the ratio saved by the first
/// collapse survives the second.
pub proof fn law_collapse_second_first_then_expand(v: StateView, id: SplitId)
    requires
        v.well_formed(),
        v.has_split(id),
        v.split_of(id).unwrap().collapse == CollapseState::Expanded,
    ensures
        updated(
            updated(
                updated(v, InternalMessage::CollapseSecond(id)),
                InternalMessage::CollapseFirst(id),
            ),
            InternalMessage::Expand(id),
        ) == v,
{
    let sp = v.split_of(id).unwrap();
    let i = v.index_of(id);
    assert(sp.ratio == sp.saved_ratio) by {
        reveal(StateView::ratios_saved);
    }
    let c1 = collapsed_second(sp);
    v.lemma_updated_split_of(id, c1);
    v.lemma_updated_split(id, c1);
    let w1 = v.updated_split(id, c1);
    let c2 = collapsed_first(c1);
    w1.lemma_updated_split_of(id, c2);
    w1.lemma_updated_split(id, c2);
    let w2 = w1.updated_split(id, c2);
    assert(expanded(c2) == sp);
    assert(w2.splits.update(i, (id, sp)) =~= v.splits);
    assert(updated(w2, InternalMessage::Expand(id)) =~= v);
}

/// Collapsing a side of a split: the split shows that side collapsed, at
/// ratio 0.0 for the first side and 1.0 for the second; its saved ratio
/// becomes its ratio when it was expanded, and is kept when it was collapsed
/// already; its axis and children stay; every other split and the rest of
/// the state stay as they were.
pub proof fn law_collapse_values(v: StateView, id: SplitId, first: bool)
    requires
        v.well_formed(),
        v.has_split(id),
    ensures
        ({
            let sp = v.split_of(id).unwrap();
            let w = updated(
                v,
                if first {
                    InternalMessage::CollapseFirst(id)
                } else {
                    InternalMessage::CollapseSecond(id)
                },
            );
            let after = w.split_of(id).unwrap();
            &&& w.has_split(id)
            &&& after.collapse == (if first {
                CollapseState::FirstCollapsed
            } else {
                CollapseState::SecondCollapsed
            })
            &&& after.ratio == (if first {
                RATIO_ZERO
            } else {
                RATIO_ONE
            })
            &&& sp.collapse == CollapseState::Expanded ==> after.saved_ratio == sp.ratio
            &&& sp.collapse != CollapseState::Expanded ==> after.saved_ratio == sp.saved_ratio
            &&& after.axis == sp.axis && after.first == sp.first && after.second == sp.second
            &&& w.root == v.root && w.panes == v.panes && w.maximize == v.maximize
            &&& w.splits.len() == v.splits.len()
            &&& forall|j: int|
                0 <= j < v.splits.len() && j != v.index_of(id) ==> #[trigger] w.splits[j]
                    == v.splits[j]
        }),
{
    let sp = v.split_of(id).unwrap();
    let c = if first {
        collapsed_first(sp)
    } else {
        collapsed_second(sp)
    };
    v.lemma_updated_split_of(id, c);
}

/// Expanding a split: it shows both sides again at its saved ratio, which it
/// keeps; its axis and children stay; every other split stays.
pub proof fn law_expand_values(v: StateView, id: SplitId)
    requires
        v.well_formed(),
        v.has_split(id),
    ensures
        ({
            let sp = v.split_of(id).unwrap();
            let w = updated(v, InternalMessage::Expand(id));
            let after = w.split_of(id).unwrap();
            &&& after.collapse == CollapseState::Expanded
            &&& after.ratio == sp.saved_ratio
            &&& after.saved_ratio == sp.saved_ratio
            &&& after.axis == sp.axis && after.first == sp.first && after.second == sp.second
            &&& w.root == v.root && w.splits.len() == v.splits.len()
            &&& forall|j: int|
                0 <= j < v.splits.len() && j != v.index_of(id) ==> #[trigger] w.splits[j]
                    == v.splits[j]
        }),
{
    let sp = v.split_of(id).unwrap();
    v.lemma_updated_split_of(id, expanded(sp));
}

/// Dragging the handle of an expanded split sets its ratio, and its saved
/// ratio, to the dragged ratio clamped to 0.05 ..= 0.95; its axis, children
/// and collapse state stay.
pub proof fn law_drag_values(v: StateView, id: SplitId, ratio: u32)
    requires
        v.well_formed(),
        v.has_split(id),
        v.split_of(id).unwrap().collapse == CollapseState::Expanded,
    ensures
        ({
            let sp = v.split_of(id).unwrap();
            let after = updated(v, InternalMessage::DragMoved(id, ratio)).split_of(id).unwrap();
            &&& after.ratio == clamped_ratio(ratio) && after.saved_ratio == clamped_ratio(ratio)
            &&& after.collapse == CollapseState::Expanded
            &&& after.axis == sp.axis && after.first == sp.first && after.second == sp.second
        }),
{
    let sp = v.split_of(id).unwrap();
    v.lemma_updated_split_of(id, resized(sp, ratio));
}

/// The clamp on ratio bit patterns, value by value: a NaN is kept, a ratio
/// within 0.05 ..= 0.95 is kept, a negative ratio or one below 0.05 gives
/// 0.05, and a positive one above 0.95 (infinity among them) gives 0.95.
pub proof fn law_clamp_values(b: u32)
    ensures
        (b & 0x7FFF_FFFFu32) > 0x7F80_0000u32 ==> clamped_ratio(b) == b,
        b < 0x8000_0000u32 && 0x3D4C_CCCDu32 <= b <= 0x3F73_3333u32 ==> clamped_ratio(b) == b,
        (b & 0x7FFF_FFFFu32) <= 0x7F80_0000u32 && (b >= 0x8000_0000u32 || b < 0x3D4C_CCCDu32)
            ==> clamped_ratio(b) == 0x3D4C_CCCDu32,
        b <= 0x7F80_0000u32 && b > 0x3F73_3333u32 ==> clamped_ratio(b) == 0x3F73_3333u32,
{
    assert(b < 0x8000_0000u32 ==> b & 0x7FFF_FFFFu32 == b) by (bit_vector);
}

/// Which message each kind of input gives, on the state it leaves: a split
/// drag is started and ended, a pane drag is started, moved and cancelled,
/// a drop always ends the pane drag, and none of these touches the tree
/// except the drop.
pub proof fn law_interaction_messages(v: StateView, id: SplitId, pane: PaneId, p: Point, t: DropTarget)
    ensures
        updated(v, InternalMessage::DragStarted(id)) == (StateView { dragging: Some(id), ..v }),
        updated(v, InternalMessage::DragEnded) == (StateView { dragging: None, ..v }),
        updated(v, InternalMessage::PaneDragStarted(pane, p)) == (StateView {
            pane_drag: Some(PaneDrag { pane, origin: p, current: p }),
            ..v
        }),
        v.pane_drag is None ==> updated(v, InternalMessage::PaneDragMoved(p)) == v,
        v.pane_drag matches Some(d) ==> updated(v, InternalMessage::PaneDragMoved(p)) == (
        StateView { pane_drag: Some(PaneDrag { pane: d.pane, origin: d.origin, current: p }), ..v }),
        updated(v, InternalMessage::PaneDragCancelled) == (StateView { pane_drag: None, ..v }),
        updated(v, InternalMessage::PaneDragDropped(t)).pane_drag is None,
        v.pane_drag is None ==> updated(v, InternalMessage::PaneDragDropped(t)) == (StateView {
            pane_drag: None,
            ..v
        }),
        updated(v, InternalMessage::Maximize(pane)).maximize == (if v.maximize
            == MaximizeState::Maximized(pane) {
            MaximizeState::Normal
        } else {
            MaximizeState::Maximized(pane)
        }),
        updated(v, InternalMessage::Maximize(pane)) == (StateView {
            maximize: updated(v, InternalMessage::Maximize(pane)).maximize,
            ..v
        }),
{
    if v.pane_drag is None {
        assert(updated(v, InternalMessage::PaneDragMoved(p)) =~= v);
    }
}

/// The message of a left-button release, case by case: while a pane is
/// dragged the release drops it on the known target, or cancels the drag
/// when there is none, whether or not a split drag is flagged too; a split
/// drag alone ends; otherwise there is no message.
pub proof fn law_release_values(dragging: bool, t: DropTarget)
    ensures
        release_result(true, Some(t), dragging) == Some(InternalMessage::PaneDragDropped(t)),
        release_result(true, None, dragging) == Some(InternalMessage::PaneDragCancelled),
        release_result(false, Some(t), true) == Some(InternalMessage::DragEnded),
        release_result(false, None, true) == Some(InternalMessage::DragEnded),
        release_result(false, Some(t), false) is None,
        release_result(false, None, false) is None,
{
}

/// The message of each handle action: it asks for the same collapse or
/// expansion of the same split.
pub proof fn law_action_messages(id: SplitId)
    ensures
        action_message_of(HandleAction::CollapseFirst(id)) == InternalMessage::CollapseFirst(id),
        action_message_of(HandleAction::CollapseSecond(id)) == InternalMessage::CollapseSecond(id),
        action_message_of(HandleAction::Expand(id)) == InternalMessage::Expand(id),
{
}

/// The first handle with an arrow under the pointer decides an arrow click:
/// handles before it are passed over, handles after it do not count.
pub proof fn law_first_arrow_action(hs: Seq<HandleHit>, i: int)
    requires
        0 <= i <= hs.len(),
        forall|j: int| 0 <= j < i ==> !(#[trigger] hs[j]).in_first_arrow && !hs[j].in_second_arrow,
    ensures
        i == hs.len() ==> first_arrow_action(hs) is None,
        i < hs.len() && (hs[i].in_first_arrow || hs[i].in_second_arrow) ==> first_arrow_action(hs)
            == arrow_action(hs[i].split_id, hs[i].collapse, hs[i].in_first_arrow, hs[i].in_second_arrow),
    decreases i,
{
    if i > 0 {
        assert forall|j: int| 0 <= j < i - 1 implies !(#[trigger] hs.drop_first()[j]).in_first_arrow
            && !hs.drop_first()[j].in_second_arrow by {
            assert(hs.drop_first()[j] == hs[j + 1]);
        }
        law_first_arrow_action(hs.drop_first(), i - 1);
        assert(hs.drop_first().len() == hs.len() - 1);
        if i < hs.len() {
            assert(hs.drop_first()[i - 1] == hs[i]);
        }
        assert(!hs[0].in_first_arrow && !hs[0].in_second_arrow);
    }
}

/// The first drag bar under the pointer is the one found.
pub proof fn law_first_drag_bar(ds: Seq<DragHit>, i: int)
    requires
        0 <= i <= ds.len(),
        forall|j: int| 0 <= j < i ==> !(#[trigger] ds[j]).in_bounds,
    ensures
        i == ds.len() ==> first_drag_bar(ds) is None,
        i < ds.len() && ds[i].in_bounds ==> first_drag_bar(ds) == Some(ds[i].pane),
    decreases i,
{
    if i > 0 {
        assert forall|j: int| 0 <= j < i - 1 implies !(#[trigger] ds.drop_first()[j]).in_bounds by {
            assert(ds.drop_first()[j] == ds[j + 1]);
        }
        law_first_drag_bar(ds.drop_first(), i - 1);
        if i < ds.len() {
            assert(ds.drop_first()[i - 1] == ds[i]);
        }
        assert(!ds[0].in_bounds);
    }
}

/// The first handle under the pointer is the one found.
pub proof fn law_first_handle(hs: Seq<HandleHit>, i: int)
    requires
        0 <= i <= hs.len(),
        forall|j: int| 0 <= j < i ==> !(#[trigger] hs[j]).in_bounds,
    ensures
        i == hs.len() ==> first_handle(hs) is None,
        i < hs.len() && hs[i].in_bounds ==> first_handle(hs) == Some(hs[i].split_id),
    decreases i,
{
    if i > 0 {
        assert forall|j: int| 0 <= j < i - 1 implies !(#[trigger] hs.drop_first()[j]).in_bounds by {
            assert(hs.drop_first()[j] == hs[j + 1]);
        }
        law_first_handle(hs.drop_first(), i - 1);
        if i < hs.len() {
            assert(hs.drop_first()[i - 1] == hs[i]);
        }
        assert(!hs[0].in_bounds);
    }
}

/// The hovered arrow is an arrow of the first handle that has one under the
/// pointer, its first arrow when both are.
pub proof fn law_hovered_arrow(hs: Seq<HandleHit>, i: int)
    requires
        0 <= i <= hs.len(),
        forall|j: int| 0 <= j < i ==> !(#[trigger] hs[j]).in_first_arrow && !hs[j].in_second_arrow,
    ensures
        i == hs.len() ==> hovered_arrow(hs) is None,
        i < hs.len() && hs[i].in_first_arrow ==> hovered_arrow(hs) == Some((hs[i].split_id, true)),
        i < hs.len() && !hs[i].in_first_arrow && hs[i].in_second_arrow ==> hovered_arrow(hs) == Some(
            (hs[i].split_id, false),
        ),
    decreases i,
{
    if i > 0 {
        assert forall|j: int| 0 <= j < i - 1 implies !(#[trigger] hs.drop_first()[j]).in_first_arrow
            && !hs.drop_first()[j].in_second_arrow by {
            assert(hs.drop_first()[j] == hs[j + 1]);
        }
        law_hovered_arrow(hs.drop_first(), i - 1);
        if i < hs.len() {
            assert(hs.drop_first()[i - 1] == hs[i]);
        }
        assert(!hs[0].in_first_arrow && !hs[0].in_second_arrow);
    }
}

/// The drop candidate is the first pane other than the dragged one whose
/// bounds hold the pointer.
pub proof fn law_drop_pane(ps: Seq<(PaneId, bool)>, source: PaneId, i: int)
    requires
        0 <= i <= ps.len(),
        forall|j: int| 0 <= j < i ==> (#[trigger] ps[j]).0 == source || !ps[j].1,
    ensures
        i == ps.len() ==> drop_pane(ps, source) is None,
        i < ps.len() && ps[i].0 != source && ps[i].1 ==> drop_pane(ps, source) == Some(ps[i].0),
    decreases i,
{
    if i > 0 {
        assert forall|j: int| 0 <= j < i - 1 implies (#[trigger] ps.drop_first()[j]).0 == source
            || !ps.drop_first()[j].1 by {
            assert(ps.drop_first()[j] == ps[j + 1]);
        }
        law_drop_pane(ps.drop_first(), source, i - 1);
        if i < ps.len() {
            assert(ps.drop_first()[i - 1] == ps[i]);
        }
        assert(ps[0].0 == source || !ps[0].1);
    }
}

/// Over the handles, the first one that holds the pointer decides the
/// pointer shape: a pointing hand over either of its arrows, a resize arrow
/// along its axis over the rest of it; over no handle there is none.
pub proof fn law_handle_interaction(hs: Seq<HandleHit>, i: int)
    requires
        0 <= i <= hs.len(),
        forall|j: int|
            0 <= j < i ==> !(#[trigger] hs[j]).in_first_arrow && !hs[j].in_second_arrow
                && !hs[j].in_bounds,
    ensures
        i == hs.len() ==> handle_interaction(hs) is None,
        i < hs.len() && (hs[i].in_first_arrow || hs[i].in_second_arrow) ==> handle_interaction(hs)
            == Some(Interaction::Pointer),
        i < hs.len() && !hs[i].in_first_arrow && !hs[i].in_second_arrow && hs[i].in_bounds
            && hs[i].axis == Axis::Horizontal ==> handle_interaction(hs) == Some(
            Interaction::ResizingHorizontally,
        ),
        i < hs.len() && !hs[i].in_first_arrow && !hs[i].in_second_arrow && hs[i].in_bounds
            && hs[i].axis == Axis::Vertical ==> handle_interaction(hs) == Some(
            Interaction::ResizingVertically,
        ),
    decreases i,
{
    if i > 0 {
        assert forall|j: int| 0 <= j < i - 1 implies !(#[trigger] hs.drop_first()[j]).in_first_arrow
            && !hs.drop_first()[j].in_second_arrow && !hs.drop_first()[j].in_bounds by {
            assert(hs.drop_first()[j] == hs[j + 1]);
        }
        law_handle_interaction(hs.drop_first(), i - 1);
        if i < hs.len() {
            assert(hs.drop_first()[i - 1] == hs[i]);
        }
        assert(!hs[0].in_first_arrow && !hs[0].in_second_arrow && !hs[0].in_bounds);
    }
}

/// The pointer shape: grabbing during any drag; otherwise an open hand over
/// a drag bar; otherwise what the first handle under the pointer asks for.
pub proof fn law_interaction_values(
    pane_dragging: bool,
    dragging: bool,
    hs: Seq<HandleHit>,
    ds: Seq<DragHit>,
    i: int,
)
    requires
        0 <= i < ds.len() ==> ds[i].in_bounds,
        0 <= i <= ds.len(),
        forall|j: int| 0 <= j < i ==> !(#[trigger] ds[j]).in_bounds,
    ensures
        pane_dragging || dragging ==> interaction_of(pane_dragging, dragging, hs, ds) == Some(
            Interaction::Grabbing,
        ),
        !pane_dragging && !dragging && i < ds.len() ==> interaction_of(
            pane_dragging,
            dragging,
            hs,
            ds,
        ) == Some(Interaction::Grab),
        !pane_dragging && !dragging && i == ds.len() ==> interaction_of(
            pane_dragging,
            dragging,
            hs,
            ds,
        ) == handle_interaction(hs),
{
    law_first_drag_bar(ds, i);
}

/// A left-button press: the first handle with an arrow under the pointer
/// decides when there is one; otherwise the first drag bar under the pointer
/// starts a drag of its pane from the press point; otherwise the first
/// handle under the pointer starts a drag of its split; otherwise nothing.
pub proof fn law_press_values(hs: Seq<HandleHit>, ds: Seq<DragHit>, pos: Point, a: int, d: int, h: int)
    requires
        0 <= a <= hs.len(),
        forall|j: int| 0 <= j < a ==> !(#[trigger] hs[j]).in_first_arrow && !hs[j].in_second_arrow,
        a < hs.len() ==> hs[a].in_first_arrow || hs[a].in_second_arrow,
        0 <= d <= ds.len(),
        forall|j: int| 0 <= j < d ==> !(#[trigger] ds[j]).in_bounds,
        d < ds.len() ==> ds[d].in_bounds,
        0 <= h <= hs.len(),
        forall|j: int| 0 <= j < h ==> !(#[trigger] hs[j]).in_bounds,
        h < hs.len() ==> hs[h].in_bounds,
    ensures
        a < hs.len() && hs[a].in_first_arrow ==> press_result(hs, ds, pos) == Some(
            if hs[a].collapse == CollapseState::FirstCollapsed {
                InternalMessage::Expand(hs[a].split_id)
            } else {
                InternalMessage::CollapseFirst(hs[a].split_id)
            },
        ),
        a < hs.len() && !hs[a].in_first_arrow ==> press_result(hs, ds, pos) == Some(
            if hs[a].collapse == CollapseState::SecondCollapsed {
                InternalMessage::Expand(hs[a].split_id)
            } else {
                InternalMessage::CollapseSecond(hs[a].split_id)
            },
        ),
        a == hs.len() && d < ds.len() ==> press_result(hs, ds, pos) == Some(
            InternalMessage::PaneDragStarted(ds[d].pane, pos),
        ),
        a == hs.len() && d == ds.len() && h < hs.len() ==> press_result(hs, ds, pos) == Some(
            InternalMessage::DragStarted(hs[h].split_id),
        ),
        a == hs.len() && d == ds.len() && h == hs.len() ==> press_result(hs, ds, pos) is None,
{
    law_first_arrow_action(hs, a);
    law_first_drag_bar(ds, d);
    law_first_handle(hs, h);
}

/// Dropping a dragged pane on an edge of another pane of the layout places
/// it beside that pane in a new split numbered `next_split_id`, expanded at
/// ratio 0.5: side by side for the left and right edges, stacked for the top
/// and bottom edges, before the target for the left and top edges and after
/// it for the right and bottom edges. A drop on the center swaps the two
/// panes instead.
pub proof fn law_drop_edge_values(v: StateView, drag: PaneDrag, target: DropTarget)
    requires
        v.well_formed(),
        v.pane_drag == Some(drag),
        drag.pane != target.pane,
        v.in_layout(drag.pane),
        v.in_layout(target.pane),
        v.next_split_id < usize::MAX,
    ensures
        ({
            let w = updated(v, InternalMessage::PaneDragDropped(target));
            let s = NodeId::Pane(drag.pane);
            let d = NodeId::Pane(target.pane);
            let last = w.splits[w.splits.len() - 1];
            &&& target.edge == DropEdge::Center ==> w == (StateView {
                pane_drag: None,
                ..v.swapped(drag.pane, target.pane)
            })
            &&& target.edge != DropEdge::Center ==> {
                &&& w.splits.len() == v.splits.len()
                &&& last.0 == SplitId(v.next_split_id as usize)
                &&& last.1.ratio == 0x3F00_0000u32 && last.1.saved_ratio == 0x3F00_0000u32
                &&& last.1.collapse == CollapseState::Expanded
                &&& target.edge == DropEdge::Left ==> last.1.axis == Axis::Horizontal
                    && last.1.first == s && last.1.second == d
                &&& target.edge == DropEdge::Right ==> last.1.axis == Axis::Horizontal
                    && last.1.first == d && last.1.second == s
                &&& target.edge == DropEdge::Top ==> last.1.axis == Axis::Vertical
                    && last.1.first == s && last.1.second == d
                &&& target.edge == DropEdge::Bottom ==> last.1.axis == Axis::Vertical
                    && last.1.first == d && last.1.second == s
            }
        }),
{
    let s = drag.pane;
    let d = target.pane;
    if target.edge != DropEdge::Center {
        if v.root == Some(NodeId::Pane(s)) {
            v.lemma_root_pane(s);
            assert(v.layout_panes().contains(d));
        }
        assert(v.detachable(s));
        v.lemma_detached(s);
        v.law_detach_values(s);
        v.lemma_refs_bounded();
        let x = v.detached(s);
        assert(x.layout_panes().contains(d));
        assert(x.in_layout(d));
        assert(!x.layout_panes().contains(s));
        assert(x.insertable(s, d));
        let (axis, first) = edge_placement(target.edge);
        x.law_insert_values(s, d, axis, first);
    }
}

} // verus!
