use lattiton::state::{
    clamp_ratio, Axis, CollapseState, MaximizeState, NodeId, PaneDrag, PaneId, Point, Split,
    SplitId, State, RATIO_HALF, RATIO_MAX, RATIO_MIN, RATIO_ONE, RATIO_ZERO,
};

fn bits(v: f32) -> u32 {
    v.to_bits()
}

fn split_of(state: &State, id: usize) -> Split {
    *state.get_split(SplitId(id)).unwrap()
}

#[test]
fn ratio_constants_match_floats() {
    assert_eq!(RATIO_ZERO, bits(0.0));
    assert_eq!(RATIO_HALF, bits(0.5));
    assert_eq!(RATIO_ONE, bits(1.0));
    assert_eq!(RATIO_MIN, bits(0.05));
    assert_eq!(RATIO_MAX, bits(0.95));
}

#[test]
fn clamp_ratio_agrees_with_f32_clamp() {
    let samples: [f32; 16] = [
        0.0,
        -0.0,
        0.01,
        0.05,
        0.3,
        0.5,
        0.95,
        0.96,
        1.0,
        7.5,
        -0.3,
        -100.0,
        f32::INFINITY,
        f32::NEG_INFINITY,
        f32::MIN_POSITIVE,
        1.0e-40,
    ];
    for v in samples {
        let expected = v.clamp(0.05, 0.95).to_bits();
        assert_eq!(clamp_ratio(bits(v)), expected, "value {v}");
    }
    let nan = f32::NAN;
    assert_eq!(clamp_ratio(nan.to_bits()), nan.clamp(0.05, 0.95).to_bits());
    assert_eq!(clamp_ratio(0xFFC0_0001), 0xFFC0_0001);
    assert_eq!(clamp_ratio(bits(0.3)), bits(0.3));
    assert_eq!(clamp_ratio(bits(0.99)), RATIO_MAX);
    assert_eq!(clamp_ratio(bits(-2.0)), RATIO_MIN);
}

#[test]
fn axis_is_horizontal() {
    assert!(Axis::Horizontal.is_horizontal());
    assert!(!Axis::Vertical.is_horizontal());
}

#[test]
fn new_state_is_empty() {
    let state = State::new();
    assert_eq!(state.root(), None);
    assert!(state.panes().is_empty());
    assert_eq!(state.maximize(), MaximizeState::Normal);
    assert_eq!(state.dragging(), None);
    assert_eq!(state.pane_dragging(), None);
    assert!(state.can_allocate());
}

#[test]
fn initial_pane_is_root() {
    let (state, pane) = State::with_initial_pane();
    assert_eq!(pane, PaneId(0));
    assert_eq!(state.root(), Some(NodeId::Pane(PaneId(0))));
    assert_eq!(state.panes(), &[PaneId(0)]);
    assert!(state.get_split(SplitId(0)).is_none());
}

#[test]
fn split_root_pane() {
    let (mut state, first) = State::with_initial_pane();
    let (split, second) = state.split(Axis::Horizontal, first).unwrap();
    assert_eq!(split, SplitId(0));
    assert_eq!(second, PaneId(1));
    assert_eq!(state.root(), Some(NodeId::Split(SplitId(0))));
    let s = split_of(&state, 0);
    assert_eq!(s.axis, Axis::Horizontal);
    assert_eq!(s.ratio, RATIO_HALF);
    assert_eq!(s.saved_ratio, RATIO_HALF);
    assert_eq!(s.collapse, CollapseState::Expanded);
    assert_eq!(s.first, NodeId::Pane(PaneId(0)));
    assert_eq!(s.second, NodeId::Pane(PaneId(1)));
    assert_eq!(state.panes(), &[PaneId(0), PaneId(1)]);
}

#[test]
fn split_nested_pane_replaces_it_in_its_parent() {
    let (mut state, first) = State::with_initial_pane();
    let (_, second) = state.split(Axis::Horizontal, first).unwrap();
    let (s1, third) = state.split(Axis::Vertical, first).unwrap();
    let (s2, fourth) = state.split(Axis::Vertical, second).unwrap();
    assert_eq!((s1, third), (SplitId(1), PaneId(2)));
    assert_eq!((s2, fourth), (SplitId(2), PaneId(3)));
    let top = split_of(&state, 0);
    assert_eq!(top.first, NodeId::Split(SplitId(1)));
    assert_eq!(top.second, NodeId::Split(SplitId(2)));
    let left = split_of(&state, 1);
    assert_eq!(left.axis, Axis::Vertical);
    assert_eq!(left.first, NodeId::Pane(first));
    assert_eq!(left.second, NodeId::Pane(third));
    let right = split_of(&state, 2);
    assert_eq!(right.first, NodeId::Pane(second));
    assert_eq!(right.second, NodeId::Pane(fourth));
    assert_eq!(state.root(), Some(NodeId::Split(SplitId(0))));
}

#[test]
fn split_unknown_pane_allocates_but_places_nothing() {
    let (mut state, _) = State::with_initial_pane();
    assert_eq!(state.split(Axis::Horizontal, PaneId(7)), None);
    assert_eq!(state.panes(), &[PaneId(0), PaneId(1)]);
    assert_eq!(state.root(), Some(NodeId::Pane(PaneId(0))));
    assert!(state.get_split(SplitId(0)).is_none());
    // the next split still gets split 0 and the next pane is 2
    assert_eq!(state.split(Axis::Vertical, PaneId(0)), Some((SplitId(0), PaneId(2))));
}

#[test]
fn split_on_empty_state_fails() {
    let mut state = State::new();
    assert_eq!(state.split(Axis::Horizontal, PaneId(0)), None);
    assert_eq!(state.root(), None);
    assert_eq!(state.panes(), &[PaneId(0)]);
}

#[test]
fn collapse_and_expand_restore_ratio() {
    let (mut state, first) = State::with_initial_pane();
    state.split(Axis::Horizontal, first).unwrap();
    state.resize(SplitId(0), bits(0.3));
    state.collapse_first(SplitId(0));
    let s = split_of(&state, 0);
    assert_eq!(s.collapse, CollapseState::FirstCollapsed);
    assert_eq!(s.ratio, RATIO_ZERO);
    assert_eq!(s.saved_ratio, bits(0.3));
    state.collapse_second(SplitId(0));
    let s = split_of(&state, 0);
    assert_eq!(s.collapse, CollapseState::SecondCollapsed);
    assert_eq!(s.ratio, RATIO_ONE);
    assert_eq!(s.saved_ratio, bits(0.3));
    state.expand(SplitId(0));
    let s = split_of(&state, 0);
    assert_eq!(s.collapse, CollapseState::Expanded);
    assert_eq!(s.ratio, bits(0.3));
    assert_eq!(s.saved_ratio, bits(0.3));
}

#[test]
fn collapse_unknown_split_does_nothing() {
    let (mut state, first) = State::with_initial_pane();
    state.split(Axis::Horizontal, first).unwrap();
    state.collapse_first(SplitId(9));
    state.collapse_second(SplitId(9));
    state.expand(SplitId(9));
    state.resize(SplitId(9), bits(0.2));
    let s = split_of(&state, 0);
    assert_eq!(s.collapse, CollapseState::Expanded);
    assert_eq!(s.ratio, RATIO_HALF);
}

#[test]
fn resize_clamps_and_saves() {
    let (mut state, first) = State::with_initial_pane();
    state.split(Axis::Vertical, first).unwrap();
    state.resize(SplitId(0), bits(0.01));
    assert_eq!(split_of(&state, 0).ratio, RATIO_MIN);
    assert_eq!(split_of(&state, 0).saved_ratio, RATIO_MIN);
    state.resize(SplitId(0), bits(1.5));
    assert_eq!(split_of(&state, 0).ratio, RATIO_MAX);
    state.resize(SplitId(0), bits(0.4));
    assert_eq!(split_of(&state, 0).ratio, bits(0.4));
    assert_eq!(split_of(&state, 0).saved_ratio, bits(0.4));
}

#[test]
fn resize_ignores_collapsed_split() {
    let (mut state, first) = State::with_initial_pane();
    state.split(Axis::Vertical, first).unwrap();
    state.collapse_second(SplitId(0));
    state.resize(SplitId(0), bits(0.3));
    let s = split_of(&state, 0);
    assert_eq!(s.ratio, RATIO_ONE);
    assert_eq!(s.saved_ratio, RATIO_HALF);
}

#[test]
fn get_split_mut_changes_in_place() {
    let (mut state, first) = State::with_initial_pane();
    state.split(Axis::Vertical, first).unwrap();
    {
        let s = state.get_split_mut(SplitId(0)).unwrap();
        s.axis = Axis::Horizontal;
    }
    assert_eq!(split_of(&state, 0).axis, Axis::Horizontal);
    assert!(state.get_split_mut(SplitId(3)).is_none());
}

#[test]
fn toggle_maximize_cycles() {
    let (mut state, first) = State::with_initial_pane();
    let (_, second) = state.split(Axis::Horizontal, first).unwrap();
    state.toggle_maximize(first);
    assert_eq!(state.maximize(), MaximizeState::Maximized(first));
    state.toggle_maximize(second);
    assert_eq!(state.maximize(), MaximizeState::Maximized(second));
    state.toggle_maximize(second);
    assert_eq!(state.maximize(), MaximizeState::Normal);
    state.toggle_maximize(first);
    state.restore_maximize();
    assert_eq!(state.maximize(), MaximizeState::Normal);
}

#[test]
fn dragging_is_remembered() {
    let mut state = State::new();
    state.set_dragging(Some(SplitId(4)));
    assert_eq!(state.dragging(), Some(SplitId(4)));
    state.set_dragging(None);
    assert_eq!(state.dragging(), None);
}

#[test]
fn pane_drag_moves_and_clears() {
    let (mut state, first) = State::with_initial_pane();
    let origin = Point { x: bits(10.0), y: bits(20.0) };
    let moved = Point { x: bits(30.0), y: bits(25.0) };
    state.update_pane_drag_position(moved);
    assert_eq!(state.pane_dragging(), None);
    state.set_pane_dragging(PaneDrag { pane: first, origin, current: origin });
    state.update_pane_drag_position(moved);
    assert_eq!(state.pane_dragging(), Some(PaneDrag { pane: first, origin, current: moved }));
    state.clear_pane_dragging();
    assert_eq!(state.pane_dragging(), None);
}

#[test]
fn swap_panes_exchanges_places() {
    let (mut state, first) = State::with_initial_pane();
    let (_, second) = state.split(Axis::Horizontal, first).unwrap();
    let (_, third) = state.split(Axis::Vertical, second).unwrap();
    state.swap_panes(first, third);
    assert_eq!(split_of(&state, 0).first, NodeId::Pane(third));
    assert_eq!(split_of(&state, 1).second, NodeId::Pane(first));
    state.swap_panes(first, third);
    assert_eq!(split_of(&state, 0).first, NodeId::Pane(first));
    assert_eq!(split_of(&state, 1).second, NodeId::Pane(third));
    // a pane outside the tree is not swapped in
    state.swap_panes(first, PaneId(40));
    assert_eq!(split_of(&state, 0).first, NodeId::Pane(first));
}

#[test]
fn swap_panes_at_root() {
    let (mut state, first) = State::with_initial_pane();
    let (_, second) = state.split(Axis::Horizontal, first).unwrap();
    state.swap_panes(second, first);
    let s = split_of(&state, 0);
    assert_eq!(s.first, NodeId::Pane(second));
    assert_eq!(s.second, NodeId::Pane(first));
}

#[test]
fn detach_pane_promotes_sibling() {
    let (mut state, first) = State::with_initial_pane();
    let (_, second) = state.split(Axis::Horizontal, first).unwrap();
    let (_, third) = state.split(Axis::Vertical, second).unwrap();
    // tree: split 0 = (first, split 1 = (second, third))
    assert!(state.detach_pane(second));
    assert!(state.get_split(SplitId(1)).is_none());
    let s = split_of(&state, 0);
    assert_eq!(s.first, NodeId::Pane(first));
    assert_eq!(s.second, NodeId::Pane(third));
    // detaching from the root split leaves the other pane as root
    assert!(state.detach_pane(first));
    assert_eq!(state.root(), Some(NodeId::Pane(third)));
    assert!(state.get_split(SplitId(0)).is_none());
    // the root pane and unknown panes cannot be detached
    assert!(!state.detach_pane(third));
    assert!(!state.detach_pane(PaneId(99)));
    assert_eq!(state.root(), Some(NodeId::Pane(third)));
}

#[test]
fn detach_pane_promotes_split_sibling() {
    let (mut state, first) = State::with_initial_pane();
    let (_, second) = state.split(Axis::Horizontal, first).unwrap();
    let (_, third) = state.split(Axis::Vertical, second).unwrap();
    assert!(state.detach_pane(first));
    assert_eq!(state.root(), Some(NodeId::Split(SplitId(1))));
    let s = split_of(&state, 1);
    assert_eq!(s.first, NodeId::Pane(second));
    assert_eq!(s.second, NodeId::Pane(third));
}

#[test]
fn insert_by_split_places_beside() {
    let (mut state, first) = State::with_initial_pane();
    let (_, second) = state.split(Axis::Horizontal, first).unwrap();
    assert!(state.detach_pane(first));
    assert_eq!(state.root(), Some(NodeId::Pane(second)));
    let id = state.insert_by_split(first, second, Axis::Vertical, true);
    assert_eq!(id, Some(SplitId(1)));
    assert_eq!(state.root(), Some(NodeId::Split(SplitId(1))));
    let s = split_of(&state, 1);
    assert_eq!(s.axis, Axis::Vertical);
    assert_eq!(s.first, NodeId::Pane(first));
    assert_eq!(s.second, NodeId::Pane(second));
    assert_eq!(s.ratio, RATIO_HALF);
    // a pane already in the tree, or a pane never allocated, is refused
    assert_eq!(state.insert_by_split(first, second, Axis::Vertical, false), None);
    assert_eq!(state.insert_by_split(PaneId(50), second, Axis::Vertical, false), None);
}

#[test]
fn insert_by_split_after_target() {
    let (mut state, first) = State::with_initial_pane();
    let (_, second) = state.split(Axis::Horizontal, first).unwrap();
    let (_, third) = state.split(Axis::Horizontal, second).unwrap();
    assert!(state.detach_pane(first));
    let id = state.insert_by_split(first, third, Axis::Horizontal, false).unwrap();
    let s = split_of(&state, id.0);
    assert_eq!(s.first, NodeId::Pane(third));
    assert_eq!(s.second, NodeId::Pane(first));
    assert_eq!(split_of(&state, 1).second, NodeId::Split(id));
}

#[test]
fn insert_by_split_needs_target_in_tree() {
    let (mut state, first) = State::with_initial_pane();
    let (_, second) = state.split(Axis::Horizontal, first).unwrap();
    assert!(state.detach_pane(first));
    assert_eq!(state.insert_by_split(first, PaneId(1_000), Axis::Horizontal, true), None);
    assert_eq!(state.insert_by_split(first, first, Axis::Horizontal, true), None);
    assert_eq!(state.root(), Some(NodeId::Pane(second)));
}

#[test]
fn state_clone_is_independent() {
    let (mut state, first) = State::with_initial_pane();
    let copy = state.clone();
    state.split(Axis::Horizontal, first).unwrap();
    assert_eq!(copy.root(), Some(NodeId::Pane(first)));
    assert_eq!(copy.panes(), &[PaneId(0)]);
}
