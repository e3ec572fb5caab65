use lattiton::handle::{arrow_glyphs, hit_action, HandleAction};
use lattiton::state::{
    Axis, CollapseState, DropEdge, DropTarget, MaximizeState, NodeId, PaneDrag, PaneId, Point,
    SplitId, State, RATIO_HALF, RATIO_MIN, RATIO_ONE,
};
use lattiton::widget::{
    action_message, drop_candidate, hover_arrow, interaction, press_message, release_message,
    update, DragHit, HandleHit, Interaction, InternalMessage,
};

fn pt(x: f32, y: f32) -> Point {
    Point { x: x.to_bits(), y: y.to_bits() }
}

fn hit(id: usize, first: bool, second: bool, inside: bool) -> HandleHit {
    HandleHit {
        split_id: SplitId(id),
        axis: Axis::Horizontal,
        collapse: CollapseState::Expanded,
        in_first_arrow: first,
        in_second_arrow: second,
        in_bounds: inside,
    }
}

fn four_panes() -> State {
    let (mut state, first) = State::with_initial_pane();
    let (_, second) = state.split(Axis::Horizontal, first).unwrap();
    state.split(Axis::Vertical, first).unwrap();
    state.split(Axis::Vertical, second).unwrap();
    state
}

fn layout_panes(state: &State) -> Vec<PaneId> {
    fn walk(state: &State, node: NodeId, out: &mut Vec<PaneId>) {
        match node {
            NodeId::Pane(p) => out.push(p),
            NodeId::Split(id) => {
                let s = *state.get_split(id).unwrap();
                walk(state, s.first, out);
                walk(state, s.second, out);
            }
        }
    }
    let mut out = Vec::new();
    if let Some(root) = state.root() {
        walk(state, root, &mut out);
    }
    out.sort_by_key(|p| p.0);
    out
}

#[test]
fn glyphs_point_toward_collapse() {
    assert_eq!(arrow_glyphs(Axis::Horizontal, CollapseState::Expanded), ("◀", "▶"));
    assert_eq!(arrow_glyphs(Axis::Horizontal, CollapseState::FirstCollapsed), ("▶", "▶"));
    assert_eq!(arrow_glyphs(Axis::Horizontal, CollapseState::SecondCollapsed), ("◀", "◀"));
    assert_eq!(arrow_glyphs(Axis::Vertical, CollapseState::Expanded), ("▲", "▼"));
    assert_eq!(arrow_glyphs(Axis::Vertical, CollapseState::FirstCollapsed), ("▼", "▼"));
    assert_eq!(arrow_glyphs(Axis::Vertical, CollapseState::SecondCollapsed), ("▲", "▲"));
}

#[test]
fn hit_action_by_arrow_and_state() {
    let id = SplitId(3);
    assert_eq!(hit_action(id, CollapseState::Expanded, true, false), Some(HandleAction::CollapseFirst(id)));
    assert_eq!(hit_action(id, CollapseState::Expanded, false, true), Some(HandleAction::CollapseSecond(id)));
    assert_eq!(hit_action(id, CollapseState::FirstCollapsed, true, false), Some(HandleAction::Expand(id)));
    assert_eq!(hit_action(id, CollapseState::FirstCollapsed, false, true), Some(HandleAction::CollapseSecond(id)));
    assert_eq!(hit_action(id, CollapseState::SecondCollapsed, false, true), Some(HandleAction::Expand(id)));
    assert_eq!(hit_action(id, CollapseState::SecondCollapsed, true, true), Some(HandleAction::CollapseFirst(id)));
    assert_eq!(hit_action(id, CollapseState::Expanded, false, false), None);
}

#[test]
fn action_messages() {
    let id = SplitId(1);
    assert_eq!(action_message(HandleAction::CollapseFirst(id)), InternalMessage::CollapseFirst(id));
    assert_eq!(action_message(HandleAction::CollapseSecond(id)), InternalMessage::CollapseSecond(id));
    assert_eq!(action_message(HandleAction::Expand(id)), InternalMessage::Expand(id));
}

#[test]
fn press_prefers_arrows_then_drag_bars_then_handles() {
    let pos = pt(5.0, 6.0);
    let handles = vec![hit(0, false, false, true), hit(1, false, true, true)];
    let drags = vec![DragHit { pane: PaneId(2), in_bounds: true }];
    assert_eq!(press_message(&handles, &drags, pos), Some(InternalMessage::CollapseSecond(SplitId(1))));
    let handles = vec![hit(0, false, false, true)];
    assert_eq!(press_message(&handles, &drags, pos), Some(InternalMessage::PaneDragStarted(PaneId(2), pos)));
    let drags = vec![DragHit { pane: PaneId(2), in_bounds: false }];
    assert_eq!(press_message(&handles, &drags, pos), Some(InternalMessage::DragStarted(SplitId(0))));
    assert_eq!(press_message(&vec![hit(0, false, false, false)], &drags, pos), None);
}

#[test]
fn hover_takes_first_arrow_of_first_zone() {
    assert_eq!(hover_arrow(&vec![hit(0, false, false, true), hit(1, true, true, true)]), Some((SplitId(1), true)));
    assert_eq!(hover_arrow(&vec![hit(0, false, true, true), hit(1, true, false, true)]), Some((SplitId(0), false)));
    assert_eq!(hover_arrow(&vec![hit(0, false, false, true)]), None);
}

#[test]
fn drop_candidate_skips_source() {
    let panes = vec![(PaneId(0), true), (PaneId(1), false), (PaneId(2), true)];
    assert_eq!(drop_candidate(&panes, PaneId(0)), Some(PaneId(2)));
    assert_eq!(drop_candidate(&panes, PaneId(2)), Some(PaneId(0)));
    assert_eq!(drop_candidate(&vec![(PaneId(4), true)], PaneId(4)), None);
}

#[test]
fn interaction_order() {
    let drags = vec![DragHit { pane: PaneId(0), in_bounds: true }];
    let none = vec![DragHit { pane: PaneId(0), in_bounds: false }];
    let handles = vec![hit(0, false, false, true)];
    assert_eq!(interaction(true, false, &handles, &drags), Some(Interaction::Grabbing));
    assert_eq!(interaction(false, true, &handles, &drags), Some(Interaction::Grabbing));
    assert_eq!(interaction(false, false, &handles, &drags), Some(Interaction::Grab));
    assert_eq!(interaction(false, false, &handles, &none), Some(Interaction::ResizingHorizontally));
    let vertical = vec![HandleHit { axis: Axis::Vertical, ..hit(0, false, false, true) }];
    assert_eq!(interaction(false, false, &vertical, &none), Some(Interaction::ResizingVertically));
    assert_eq!(interaction(false, false, &vec![hit(0, true, false, true)], &none), Some(Interaction::Pointer));
    assert_eq!(interaction(false, false, &vec![hit(0, false, false, false)], &none), None);
}

#[test]
fn release_messages() {
    let target = DropTarget { pane: PaneId(1), edge: DropEdge::Left };
    assert_eq!(release_message(true, Some(target), true), Some(InternalMessage::PaneDragDropped(target)));
    assert_eq!(release_message(true, None, false), Some(InternalMessage::PaneDragCancelled));
    assert_eq!(release_message(false, None, true), Some(InternalMessage::DragEnded));
    assert_eq!(release_message(false, Some(target), false), None);
}

#[test]
fn update_split_drag_session() {
    let mut state = four_panes();
    update(&mut state, InternalMessage::DragStarted(SplitId(1)));
    assert_eq!(state.dragging(), Some(SplitId(1)));
    update(&mut state, InternalMessage::DragMoved(SplitId(1), 0.02f32.to_bits()));
    assert_eq!(state.get_split(SplitId(1)).unwrap().ratio, RATIO_MIN);
    update(&mut state, InternalMessage::DragEnded);
    assert_eq!(state.dragging(), None);
}

#[test]
fn update_collapse_expand_and_maximize() {
    let mut state = four_panes();
    update(&mut state, InternalMessage::CollapseSecond(SplitId(0)));
    assert_eq!(state.get_split(SplitId(0)).unwrap().ratio, RATIO_ONE);
    update(&mut state, InternalMessage::Expand(SplitId(0)));
    assert_eq!(state.get_split(SplitId(0)).unwrap().ratio, RATIO_HALF);
    update(&mut state, InternalMessage::CollapseFirst(SplitId(0)));
    assert_eq!(state.get_split(SplitId(0)).unwrap().collapse, CollapseState::FirstCollapsed);
    update(&mut state, InternalMessage::Maximize(PaneId(2)));
    assert_eq!(state.maximize(), MaximizeState::Maximized(PaneId(2)));
    update(&mut state, InternalMessage::Maximize(PaneId(2)));
    assert_eq!(state.maximize(), MaximizeState::Normal);
}

#[test]
fn update_pane_drag_center_swaps() {
    let mut state = four_panes();
    let origin = pt(1.0, 2.0);
    update(&mut state, InternalMessage::PaneDragStarted(PaneId(0), origin));
    assert_eq!(state.pane_dragging(), Some(PaneDrag { pane: PaneId(0), origin, current: origin }));
    update(&mut state, InternalMessage::PaneDragMoved(pt(3.0, 4.0)));
    assert_eq!(state.pane_dragging().unwrap().current, pt(3.0, 4.0));
    update(&mut state, InternalMessage::PaneDragDropped(DropTarget { pane: PaneId(3), edge: DropEdge::Center }));
    assert_eq!(state.pane_dragging(), None);
    assert_eq!(state.get_split(SplitId(1)).unwrap().first, NodeId::Pane(PaneId(3)));
    assert_eq!(state.get_split(SplitId(2)).unwrap().second, NodeId::Pane(PaneId(0)));
}

#[test]
fn update_pane_drag_edges_move_pane() {
    for (edge, axis, first) in [
        (DropEdge::Left, Axis::Horizontal, true),
        (DropEdge::Right, Axis::Horizontal, false),
        (DropEdge::Top, Axis::Vertical, true),
        (DropEdge::Bottom, Axis::Vertical, false),
    ] {
        let mut state = four_panes();
        let before = layout_panes(&state);
        update(&mut state, InternalMessage::PaneDragStarted(PaneId(0), pt(0.0, 0.0)));
        update(&mut state, InternalMessage::PaneDragDropped(DropTarget { pane: PaneId(3), edge }));
        assert_eq!(layout_panes(&state), before);
        assert_eq!(state.pane_dragging(), None);
        // pane 0's old split is gone; pane 2 took its place
        assert!(state.get_split(SplitId(1)).is_none());
        assert_eq!(state.get_split(SplitId(0)).unwrap().first, NodeId::Pane(PaneId(2)));
        let s = *state.get_split(SplitId(3)).unwrap();
        assert_eq!(s.axis, axis);
        if first {
            assert_eq!((s.first, s.second), (NodeId::Pane(PaneId(0)), NodeId::Pane(PaneId(3))));
        } else {
            assert_eq!((s.first, s.second), (NodeId::Pane(PaneId(3)), NodeId::Pane(PaneId(0))));
        }
        assert_eq!(state.get_split(SplitId(2)).unwrap().second, NodeId::Split(SplitId(3)));
    }
}

#[test]
fn update_drop_without_drag_only_clears() {
    let mut state = four_panes();
    let before = layout_panes(&state);
    update(&mut state, InternalMessage::PaneDragDropped(DropTarget { pane: PaneId(3), edge: DropEdge::Left }));
    assert_eq!(layout_panes(&state), before);
    assert!(state.get_split(SplitId(3)).is_none());
    update(&mut state, InternalMessage::PaneDragStarted(PaneId(1), pt(0.0, 0.0)));
    update(&mut state, InternalMessage::PaneDragCancelled);
    assert_eq!(state.pane_dragging(), None);
    assert_eq!(layout_panes(&state), before);
}

#[test]
fn boot_layout() {
    let (mut state, first) = State::with_initial_pane();
    let (_, second) = state.split(Axis::Horizontal, first).unwrap();
    let (_, third) = state.split(Axis::Vertical, first).unwrap();
    let (_, fourth) = state.split(Axis::Vertical, second).unwrap();
    assert_eq!((first, second, third, fourth), (PaneId(0), PaneId(1), PaneId(2), PaneId(3)));
    assert_eq!(layout_panes(&state), vec![PaneId(0), PaneId(1), PaneId(2), PaneId(3)]);

    let (mut plot, p1) = State::with_initial_pane();
    let (_, p2) = plot.split(Axis::Horizontal, p1).unwrap();
    let (_, p3) = plot.split(Axis::Vertical, p1).unwrap();
    assert_eq!((p1, p2, p3), (PaneId(0), PaneId(1), PaneId(2)));
    assert_eq!(plot.get_split(SplitId(0)).unwrap().first, NodeId::Split(SplitId(1)));
    assert_eq!(plot.get_split(SplitId(0)).unwrap().second, NodeId::Pane(p2));
}
