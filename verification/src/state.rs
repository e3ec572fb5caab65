use vstd::prelude::*;

verus! {

/// Identifier of a pane. Panes are numbered in the order they are allocated.
#[derive(Debug, Clone, Copy, PartialEq, Eq, Hash, Structural)]
pub struct PaneId(pub usize);

/// Direction along which a split divides its region.
#[derive(Debug, Clone, Copy, PartialEq, Eq, Structural)]
pub enum Axis {
    Horizontal,
    Vertical,
}

impl Axis {
    pub fn is_horizontal(self) -> (r: bool)
        ensures
            r == (self == Axis::Horizontal),
    {
        self == Axis::Horizontal
    }
}

/// Which side of a split, if any, is collapsed to a thin strip.
#[derive(Debug, Clone, Copy, PartialEq, Eq, Structural)]
pub enum CollapseState {
    Expanded,
    FirstCollapsed,
    SecondCollapsed,
}

/// Identifier of a split. Splits are numbered in the order they are allocated.
#[derive(Debug, Clone, Copy, PartialEq, Eq, Structural)]
pub struct SplitId(pub usize);

/// A node of the layout tree: either a split or a pane leaf.
#[derive(Debug, Clone, Copy, PartialEq, Eq, Structural)]
pub enum NodeId {
    Split(SplitId),
    Pane(PaneId),
}

/// A split of a region into a first and a second child.
///
/// `ratio` and `saved_ratio` hold the IEEE-754 single-precision bit patterns
/// of the fraction of the region given to the first child; `saved_ratio` is
/// the ratio to return to when a collapsed split is expanded again.
#[derive(Debug, Clone, Copy, PartialEq, Eq, Structural)]
pub struct Split {
    pub axis: Axis,
    pub ratio: u32,
    pub saved_ratio: u32,
    pub collapse: CollapseState,
    pub first: NodeId,
    pub second: NodeId,
}

/// Whether one pane fills the whole widget.
#[derive(Debug, Clone, Copy, PartialEq, Eq, Structural)]
pub enum MaximizeState {
    Normal,
    Maximized(PaneId),
}

/// A cursor position, each coordinate held as the IEEE-754 single-precision
/// bit pattern of the logical pixel value.
#[derive(Debug, Clone, Copy, PartialEq, Eq, Structural)]
pub struct Point {
    pub x: u32,
    pub y: u32,
}

/// A pane being dragged: which pane, where the drag began, where it is now.
#[derive(Debug, Clone, Copy, PartialEq, Eq, Structural)]
pub struct PaneDrag {
    pub pane: PaneId,
    pub origin: Point,
    pub current: Point,
}

/// The part of a pane that a dragged pane is dropped on.
#[derive(Debug, Clone, Copy, PartialEq, Eq, Structural)]
pub enum DropEdge {
    Center,
    Left,
    Right,
    Top,
    Bottom,
}

/// Where a dragged pane is dropped.
#[derive(Debug, Clone, Copy, PartialEq, Eq, Structural)]
pub struct DropTarget {
    pub pane: PaneId,
    pub edge: DropEdge,
}

/// Bit pattern of the ratio 0.0.
pub const RATIO_ZERO: u32 = 0x0000_0000;

/// Bit pattern of the ratio 0.5.
pub const RATIO_HALF: u32 = 0x3F00_0000;

/// Bit pattern of the ratio 1.0.
pub const RATIO_ONE: u32 = 0x3F80_0000;

/// Bit pattern of 0.05, the smallest ratio a drag can set.
pub const RATIO_MIN: u32 = 0x3D4C_CCCD;

/// Bit pattern of 0.95, the largest ratio a drag can set.
pub const RATIO_MAX: u32 = 0x3F73_3333;

/// Sign bit of a single-precision bit pattern.
pub const SIGN_BIT: u32 = 0x8000_0000;

/// Bit pattern of positive infinity; magnitudes above it are NaNs.
pub const POSITIVE_INFINITY: u32 = 0x7F80_0000;

/// Whether a single-precision bit pattern encodes a NaN.
pub open spec fn is_nan_bits(b: u32) -> bool {
    (b & 0x7FFF_FFFFu32) > POSITIVE_INFINITY
}

/// `f32::clamp(v, 0.05, 0.95)` on bit patterns: a NaN is kept as it is, any
/// value below 0.05 (every negative value among them) gives 0.05, any value
/// above 0.95 gives 0.95. Among non-negative floats the order of the bit
/// patterns is the order of the values.
pub open spec fn clamped_ratio(b: u32) -> u32 {
    if is_nan_bits(b) {
        b
    } else if b >= SIGN_BIT || b < RATIO_MIN {
        RATIO_MIN
    } else if b > RATIO_MAX {
        RATIO_MAX
    } else {
        b
    }
}

/// Clamps a ratio, given by its bit pattern, to the range 0.05 ..= 0.95.
pub fn clamp_ratio(b: u32) -> (r: u32)
    ensures
        r == clamped_ratio(b),
{
    if (b & 0x7FFF_FFFFu32) > POSITIVE_INFINITY {
        b
    } else if b >= SIGN_BIT || b < RATIO_MIN {
        RATIO_MIN
    } else if b > RATIO_MAX {
        RATIO_MAX
    } else {
        b
    }
}

/// `n`, with panes `a` and `b` exchanged.
fn swapped_node(n: NodeId, a: PaneId, b: PaneId) -> (r: NodeId)
    ensures
        r == swap_ref(n, a, b),
{
    if n == NodeId::Pane(a) {
        NodeId::Pane(b)
    } else if n == NodeId::Pane(b) {
        NodeId::Pane(a)
    } else {
        n
    }
}

/// The child of a split in slot `k` (0: first, otherwise: second).
pub open spec fn slot(sp: Split, k: int) -> NodeId {
    if k == 0 {
        sp.first
    } else {
        sp.second
    }
}

/// Whether `n` is one of the two children of `sp`.
pub open spec fn has_child(sp: Split, n: NodeId) -> bool {
    sp.first == n || sp.second == n
}

/// `n`, with `from` replaced by `to`.
pub open spec fn relink(n: NodeId, from: NodeId, to: NodeId) -> NodeId {
    if n == from {
        to
    } else {
        n
    }
}

/// `sp`, with every child equal to `from` replaced by `to`.
pub open spec fn relink_split(sp: Split, from: NodeId, to: NodeId) -> Split {
    Split { first: relink(sp.first, from, to), second: relink(sp.second, from, to), ..sp }
}

/// Every split of `ss`, with every child equal to `from` replaced by `to`.
pub open spec fn relink_splits(ss: Seq<(SplitId, Split)>, from: NodeId, to: NodeId) -> Seq<
    (SplitId, Split),
> {
    ss.map_values(|e: (SplitId, Split)| (e.0, relink_split(e.1, from, to)))
}

/// `root`, with `from` replaced by `to`.
pub open spec fn relink_root(root: Option<NodeId>, from: NodeId, to: NodeId) -> Option<NodeId> {
    match root {
        Some(n) => Some(relink(n, from, to)),
        None => None,
    }
}

/// A split made by dividing a region: it starts expanded, at half.
pub open spec fn fresh_split(axis: Axis, first: NodeId, second: NodeId) -> Split {
    Split {
        axis,
        ratio: RATIO_HALF,
        saved_ratio: RATIO_HALF,
        collapse: CollapseState::Expanded,
        first,
        second,
    }
}

/// `sp` with its first child collapsed: the ratio becomes 0.0, and an
/// expanded split first saves its ratio.
pub open spec fn collapsed_first(sp: Split) -> Split {
    Split {
        saved_ratio: if sp.collapse == CollapseState::Expanded {
            sp.ratio
        } else {
            sp.saved_ratio
        },
        collapse: CollapseState::FirstCollapsed,
        ratio: RATIO_ZERO,
        ..sp
    }
}

/// `sp` with its second child collapsed: the ratio becomes 1.0, and an
/// expanded split first saves its ratio.
pub open spec fn collapsed_second(sp: Split) -> Split {
    Split {
        saved_ratio: if sp.collapse == CollapseState::Expanded {
            sp.ratio
        } else {
            sp.saved_ratio
        },
        collapse: CollapseState::SecondCollapsed,
        ratio: RATIO_ONE,
        ..sp
    }
}

/// `sp` expanded again, at its saved ratio.
pub open spec fn expanded(sp: Split) -> Split {
    Split { ratio: sp.saved_ratio, collapse: CollapseState::Expanded, ..sp }
}

/// `sp` dragged to `ratio`: an expanded split takes the clamped ratio and
/// saves it; a collapsed split is left as it is.
pub open spec fn resized(sp: Split, ratio: u32) -> Split {
    if sp.collapse == CollapseState::Expanded {
        Split { ratio: clamped_ratio(ratio), saved_ratio: clamped_ratio(ratio), ..sp }
    } else {
        sp
    }
}

/// The maximize state after toggling `pane`: maximizing it, or restoring
/// when it is the maximized pane already.
pub open spec fn toggled(m: MaximizeState, pane: PaneId) -> MaximizeState {
    if m == MaximizeState::Maximized(pane) {
        MaximizeState::Normal
    } else {
        MaximizeState::Maximized(pane)
    }
}

/// `n`, with panes `a` and `b` exchanged.
pub open spec fn swap_ref(n: NodeId, a: PaneId, b: PaneId) -> NodeId {
    if n == NodeId::Pane(a) {
        NodeId::Pane(b)
    } else if n == NodeId::Pane(b) {
        NodeId::Pane(a)
    } else {
        n
    }
}

/// `sp`, with panes `a` and `b` exchanged among its children.
pub open spec fn swap_split(sp: Split, a: PaneId, b: PaneId) -> Split {
    Split { first: swap_ref(sp.first, a, b), second: swap_ref(sp.second, a, b), ..sp }
}

/// The abstract content of a [`State`].
#[verifier::ext_equal]
pub struct StateView {
    /// Every pane allocated so far, in order of allocation.
    pub panes: Seq<PaneId>,
    /// The splits of the layout tree, each with its identifier.
    pub splits: Seq<(SplitId, Split)>,
    /// The root of the layout tree, if there is one.
    pub root: Option<NodeId>,
    /// The number the next allocated pane gets.
    pub next_pane_id: nat,
    /// The number the next allocated split gets.
    pub next_split_id: nat,
    pub maximize: MaximizeState,
    /// The split whose handle is being dragged.
    pub dragging: Option<SplitId>,
    /// The pane being dragged.
    pub pane_drag: Option<PaneDrag>,
}

impl StateView {
    /// The child in slot `k` of the split at index `i`.
    pub open spec fn child(self, i: int, k: int) -> NodeId {
        slot(self.splits[i].1, k)
    }

    /// Whether the split at index `i` has `n` as a child.
    pub open spec fn holds(self, i: int, n: NodeId) -> bool {
        0 <= i < self.splits.len() && has_child(self.splits[i].1, n)
    }

    /// Whether `n` is part of the layout tree: the root or a child of a split.
    pub open spec fn occurs(self, n: NodeId) -> bool {
        self.root == Some(n) || exists|i: int| self.holds(i, n)
    }

    /// Whether pane `p` is part of the layout tree.
    pub open spec fn in_layout(self, p: PaneId) -> bool {
        self.occurs(NodeId::Pane(p))
    }

    /// The panes of the layout tree.
    pub open spec fn layout_panes(self) -> Set<PaneId> {
        Set::new(|p: PaneId| self.in_layout(p))
    }

    /// Whether some split has identifier `id`.
    pub open spec fn has_split(self, id: SplitId) -> bool {
        exists|j: int| 0 <= j < self.splits.len() && self.splits[j].0 == id
    }

    /// The index of the split with identifier `id`.
    pub open spec fn index_of(self, id: SplitId) -> int {
        choose|j: int| 0 <= j < self.splits.len() && self.splits[j].0 == id
    }

    /// The split with identifier `id`, if there is one.
    pub open spec fn split_of(self, id: SplitId) -> Option<Split> {
        if self.has_split(id) {
            Some(self.splits[self.index_of(id)].1)
        } else {
            None
        }
    }

    /// The index of the split that has `n` as a child.
    pub open spec fn holder(self, n: NodeId) -> int {
        choose|i: int| self.holds(i, n)
    }

    /// The allocated panes are exactly `PaneId(0) .. PaneId(next_pane_id)`.
    #[verifier::opaque]
    pub open spec fn panes_allocated(self) -> bool {
        &&& self.panes.len() == self.next_pane_id
        &&& self.next_pane_id <= usize::MAX
        &&& forall|i: int| 0 <= i < self.panes.len() ==> self.panes[i] == PaneId(i as usize)
    }

    /// Split identifiers are distinct and below `next_split_id`.
    #[verifier::opaque]
    pub open spec fn ids_fresh(self) -> bool {
        &&& forall|i: int, j: int|
            0 <= i < j < self.splits.len() ==> self.splits[i].0 != self.splits[j].0
        &&& forall|i: int| 0 <= i < self.splits.len() ==> self.splits[i].0.0 < self.next_split_id
        &&& self.next_split_id <= usize::MAX
    }

    /// Every pane of the tree has been allocated.
    #[verifier::opaque]
    pub open spec fn panes_known(self) -> bool {
        &&& forall|i: int, k: int|
            0 <= i < self.splits.len() && 0 <= k < 2 ==> (#[trigger] self.child(i, k) matches NodeId::Pane(
                p,
            ) ==> p.0 < self.next_pane_id)
        &&& (self.root matches Some(NodeId::Pane(p)) ==> p.0 < self.next_pane_id)
    }

    /// A split refers to its child splits only by identifiers that stand
    /// later in the list; so following children always ends at panes.
    #[verifier::opaque]
    pub open spec fn links_forward(self) -> bool {
        &&& forall|i: int, k: int|
            0 <= i < self.splits.len() && 0 <= k < 2 ==> (#[trigger] self.child(i, k) matches NodeId::Split(
                id,
            ) ==> exists|j: int| i < j < self.splits.len() && self.splits[j].0 == id)
        &&& (self.root matches Some(NodeId::Split(id)) ==> self.has_split(id))
    }

    /// Every split hangs in the tree: it is the root or a child of an
    /// earlier split.
    #[verifier::opaque]
    pub open spec fn all_linked(self) -> bool {
        forall|j: int|
            0 <= j < self.splits.len() ==> self.root == Some(NodeId::Split(self.splits[j].0)) || exists|
                i: int,
            |
                0 <= i < j && #[trigger] self.holds(i, NodeId::Split(self.splits[j].0))
    }

    /// No node occurs twice in the tree.
    #[verifier::opaque]
    pub open spec fn refs_unique(self) -> bool {
        &&& forall|i: int, k: int, j: int, l: int|
            0 <= i < self.splits.len() && 0 <= j < self.splits.len() && 0 <= k < 2 && 0 <= l < 2
                && (i != j || k != l) ==> #[trigger] self.child(i, k) != #[trigger] self.child(j, l)
        &&& forall|i: int, k: int|
            0 <= i < self.splits.len() && 0 <= k < 2 ==> self.root != Some(#[trigger] self.child(i, k))
    }

    /// An expanded split keeps its saved ratio equal to its ratio.
    #[verifier::opaque]
    pub open spec fn ratios_saved(self) -> bool {
        forall|i: int|
            0 <= i < self.splits.len() && #[trigger] self.splits[i].1.collapse
                == CollapseState::Expanded ==> self.splits[i].1.ratio == self.splits[i].1.saved_ratio
    }

    /// The splits and panes form one binary tree rooted at `root`.
    pub open spec fn well_formed(self) -> bool {
        &&& self.panes_allocated()
        &&& self.ids_fresh()
        &&& self.panes_known()
        &&& self.links_forward()
        &&& self.all_linked()
        &&& self.refs_unique()
        &&& self.ratios_saved()
    }

    /// The state after one more pane has been allocated.
    pub open spec fn pane_allocated(self) -> StateView {
        StateView {
            panes: self.panes.push(PaneId(self.next_pane_id as usize)),
            next_pane_id: self.next_pane_id + 1,
            ..self
        }
    }

    /// The state in which the occurrence of `n` is replaced by a new split
    /// `sp`, which gets the next split identifier.
    pub open spec fn wrapped(self, n: NodeId, sp: Split) -> StateView {
        let id = SplitId(self.next_split_id as usize);
        StateView {
            splits: relink_splits(self.splits, n, NodeId::Split(id)).push((id, sp)),
            root: relink_root(self.root, n, NodeId::Split(id)),
            next_split_id: self.next_split_id + 1,
            ..self
        }
    }

    /// The state with the split `id`, if there is one, replaced by `sp`.
    pub open spec fn updated_split(self, id: SplitId, sp: Split) -> StateView {
        if self.has_split(id) {
            StateView { splits: self.splits.update(self.index_of(id), (id, sp)), ..self }
        } else {
            self
        }
    }

    /// Whether pane `p` can be taken out of the tree: it is in the tree and
    /// is not its root.
    pub open spec fn detachable(self, p: PaneId) -> bool {
        self.in_layout(p) && self.root != Some(NodeId::Pane(p))
    }

    /// The other child of the split that holds pane `p`.
    pub open spec fn sibling_of(self, p: PaneId) -> NodeId {
        let sp = self.splits[self.holder(NodeId::Pane(p))].1;
        if sp.first == NodeId::Pane(p) {
            sp.second
        } else {
            sp.first
        }
    }

    /// The state after taking pane `p` out of the tree, when it can be: the
    /// split that held it is removed and its other child takes its place.
    pub open spec fn detached(self, p: PaneId) -> StateView {
        if self.detachable(p) {
            let i = self.holder(NodeId::Pane(p));
            let parent = NodeId::Split(self.splits[i].0);
            let sib = self.sibling_of(p);
            StateView {
                splits: relink_splits(self.splits.remove(i), parent, sib),
                root: relink_root(self.root, parent, sib),
                ..self
            }
        } else {
            self
        }
    }

    /// Whether panes `a` and `b` can trade places: they differ and both are
    /// in the tree.
    pub open spec fn swappable(self, a: PaneId, b: PaneId) -> bool {
        a != b && self.in_layout(a) && self.in_layout(b)
    }

    /// The state after panes `a` and `b` trade places in the tree, when they
    /// can.
    pub open spec fn swapped(self, a: PaneId, b: PaneId) -> StateView {
        if self.swappable(a, b) {
            StateView {
                splits: self.splits.map_values(
                    |e: (SplitId, Split)| (e.0, swap_split(e.1, a, b)),
                ),
                root: match self.root {
                    Some(n) => Some(swap_ref(n, a, b)),
                    None => None,
                },
                ..self
            }
        } else {
            self
        }
    }

    /// Whether pane `source` can be placed next to pane `dest`: `source` is
    /// an allocated pane outside the tree and `dest` is in the tree.
    pub open spec fn insertable(self, source: PaneId, dest: PaneId) -> bool {
        source.0 < self.next_pane_id && !self.in_layout(source) && self.in_layout(dest)
    }

    /// The split that places `source` beside `dest` along `axis`, before it
    /// when `source_first` holds and after it otherwise.
    pub open spec fn pair_split(source: PaneId, dest: PaneId, axis: Axis, source_first: bool) -> Split {
        if source_first {
            fresh_split(axis, NodeId::Pane(source), NodeId::Pane(dest))
        } else {
            fresh_split(axis, NodeId::Pane(dest), NodeId::Pane(source))
        }
    }

    /// The state after placing `source` beside `dest`, when it can be: a new
    /// split takes the place of `dest` and holds both.
    pub open spec fn inserted(self, source: PaneId, dest: PaneId, axis: Axis, source_first: bool) -> StateView {
        if self.insertable(source, dest) {
            self.wrapped(NodeId::Pane(dest), Self::pair_split(source, dest, axis, source_first))
        } else {
            self
        }
    }

    /// The state after `split(axis, pane)`: a pane is allocated in any case;
    /// when `pane` is in the layout, its place is taken by a new split with
    /// `pane` first and the new pane second.
    pub open spec fn after_split(self, axis: Axis, pane: PaneId) -> StateView {
        let a = self.pane_allocated();
        if self.in_layout(pane) {
            a.wrapped(
                NodeId::Pane(pane),
                fresh_split(
                    axis,
                    NodeId::Pane(pane),
                    NodeId::Pane(PaneId(self.next_pane_id as usize)),
                ),
            )
        } else {
            a
        }
    }
}

/// The index in a list that had the entry at `i` removed, of what stands
/// at `t` after the removal.
pub open spec fn skip(t: int, i: int) -> int {
    if t < i {
        t
    } else {
        t + 1
    }
}

/// Whether `i` is the first index in `ss` whose split has `n` as a child.
pub open spec fn holds_first(ss: Seq<(SplitId, Split)>, n: NodeId, i: int) -> bool {
    &&& 0 <= i < ss.len()
    &&& has_child(ss[i].1, n)
    &&& forall|j: int| 0 <= j < i ==> !has_child(#[trigger] ss[j].1, n)
}

/// `sp` with its first child replaced by `to` when it is `from`, and its
/// second child replaced otherwise.
pub open spec fn relink_once(sp: Split, from: NodeId, to: NodeId) -> Split {
    if sp.first == from {
        Split { first: to, ..sp }
    } else {
        Split { second: to, ..sp }
    }
}

/// Relinking a node that no split holds changes nothing.
proof fn lemma_relink_absent(ss: Seq<(SplitId, Split)>, from: NodeId, to: NodeId)
    requires
        forall|i: int| 0 <= i < ss.len() ==> !has_child(#[trigger] ss[i].1, from),
    ensures
        relink_splits(ss, from, to) == ss,
{
    assert forall|i: int| 0 <= i < ss.len() implies relink_splits(ss, from, to)[i] == ss[i] by {
        assert(!has_child(ss[i].1, from));
    }
    assert(relink_splits(ss, from, to) =~= ss);
}

/// In a tree, relinking the single holder of `n` is relinking every split.
proof fn lemma_relink_single(v: StateView, n: NodeId, to: NodeId, i: int)
    requires
        v.refs_unique(),
        v.holds(i, n),
    ensures
        relink_splits(v.splits, n, to) == v.splits.update(
            i,
            (v.splits[i].0, relink_once(v.splits[i].1, n, to)),
        ),
        holds_first(v.splits, n, i),
{
    reveal(StateView::refs_unique);
    let ss = v.splits;
    let r = relink_splits(ss, n, to);
    let u = ss.update(i, (ss[i].0, relink_once(ss[i].1, n, to)));
    assert(v.child(i, 0) == ss[i].1.first);
    assert(v.child(i, 1) == ss[i].1.second);
    assert forall|j: int| 0 <= j < ss.len() implies r[j] == u[j] by {
        assert(v.child(j, 0) == ss[j].1.first);
        assert(v.child(j, 1) == ss[j].1.second);
        if j != i {
            assert(!has_child(ss[j].1, n));
        }
    }
    assert(r =~= u);
    assert forall|j: int| 0 <= j < i implies !has_child(#[trigger] ss[j].1, n) by {
        assert(v.child(j, 0) == ss[j].1.first);
        assert(v.child(j, 1) == ss[j].1.second);
    }
}

impl StateView {
    /// A node of the tree is held by at most one split, and not at the root too.
    pub proof fn lemma_unique_holder(self, n: NodeId, i: int, j: int)
        requires
            self.refs_unique(),
            self.holds(i, n),
            self.holds(j, n),
        ensures
            i == j,
            self.root != Some(n),
            !(self.splits[i].1.first == n && self.splits[i].1.second == n),
    {
        reveal(StateView::refs_unique);
        assert(self.child(i, 0) == self.splits[i].1.first);
        assert(self.child(i, 1) == self.splits[i].1.second);
        assert(self.child(j, 0) == self.splits[j].1.first);
        assert(self.child(j, 1) == self.splits[j].1.second);
    }

    /// Facts that hold of every child and of the root of a tree.
    pub proof fn lemma_refs_bounded(self)
        requires
            self.well_formed(),
        ensures
            forall|i: int, k: int|
                0 <= i < self.splits.len() && 0 <= k < 2 ==> match #[trigger] self.child(i, k) {
                    NodeId::Split(x) => x.0 < self.next_split_id,
                    NodeId::Pane(p) => p.0 < self.next_pane_id,
                },
            self.root matches Some(NodeId::Split(x)) ==> x.0 < self.next_split_id,
            forall|p: PaneId| #[trigger] self.in_layout(p) ==> p.0 < self.next_pane_id,
    {
        reveal(StateView::links_forward);
        reveal(StateView::panes_known);
        reveal(StateView::ids_fresh);
        assert forall|i: int, k: int|
            0 <= i < self.splits.len() && 0 <= k < 2 implies match #[trigger] self.child(i, k) {
            NodeId::Split(x) => x.0 < self.next_split_id,
            NodeId::Pane(p) => p.0 < self.next_pane_id,
        } by {
            if let NodeId::Split(x) = self.child(i, k) {
                let j = choose|j: int| i < j < self.splits.len() && self.splits[j].0 == x;
            }
        }
        if let Some(NodeId::Split(x)) = self.root {
            let j = choose|j: int| 0 <= j < self.splits.len() && self.splits[j].0 == x;
        }
        assert forall|p: PaneId| #[trigger] self.in_layout(p) implies p.0 < self.next_pane_id by {
            if self.root != Some(NodeId::Pane(p)) {
                let i = choose|i: int| self.holds(i, NodeId::Pane(p));
                assert(self.child(i, 0) == self.splits[i].1.first);
                assert(self.child(i, 1) == self.splits[i].1.second);
            }
        }
    }

    /// In a tree, the split with a given identifier stands at one index.
    pub proof fn lemma_index_of(self, id: SplitId, i: int)
        requires
            self.well_formed(),
            0 <= i < self.splits.len(),
            self.splits[i].0 == id,
        ensures
            self.has_split(id),
            self.index_of(id) == i,
    {
        reveal(StateView::ids_fresh);
        let j = self.index_of(id);
        if j != i {
            if j < i {
                assert(self.splits[j].0 != self.splits[i].0);
            } else {
                assert(self.splits[i].0 != self.splits[j].0);
            }
        }
    }

    /// Replacing a split by one with the same children, whose ratio is saved
    /// when it is expanded, keeps the tree well formed and the same.
    pub proof fn lemma_updated_split(self, id: SplitId, sp: Split)
        requires
            self.well_formed(),
            self.has_split(id) ==> sp.first == self.split_of(id).unwrap().first && sp.second
                == self.split_of(id).unwrap().second,
            sp.collapse == CollapseState::Expanded ==> sp.ratio == sp.saved_ratio,
        ensures
            self.updated_split(id, sp).well_formed(),
            forall|n: NodeId| #[trigger] self.updated_split(id, sp).occurs(n) == self.occurs(n),
            self.updated_split(id, sp).layout_panes() == self.layout_panes(),
    {
        let w = self.updated_split(id, sp);
        if self.has_split(id) {
            let x = self.index_of(id);
            assert(self.splits[x].0 == id);
            assert forall|i: int, k: int| 0 <= i < w.splits.len() && 0 <= k < 2 implies #[trigger] w.child(i, k)
                == self.child(i, k) by {
            }
            assert forall|i: int, n: NodeId| #[trigger] w.holds(i, n) == self.holds(i, n) by {
            }
            assert(w.panes_allocated()) by {
                reveal(StateView::panes_allocated);
            }
            assert(w.ids_fresh()) by {
                reveal(StateView::ids_fresh);
            }
            assert(w.panes_known()) by {
                reveal(StateView::panes_known);
            }
            assert(w.links_forward()) by {
                reveal(StateView::links_forward);
                assert forall|i: int, k: int| 0 <= i < w.splits.len() && 0 <= k < 2 implies (
                #[trigger] w.child(i, k) matches NodeId::Split(y) ==> exists|j: int|
                    i < j < w.splits.len() && w.splits[j].0 == y) by {
                    if let NodeId::Split(y) = w.child(i, k) {
                        assert(self.child(i, k) == w.child(i, k));
                        let j = choose|j: int| i < j < self.splits.len() && self.splits[j].0 == y;
                        assert(w.splits[j].0 == y);
                    }
                }
                if let Some(NodeId::Split(y)) = w.root {
                    let j = choose|j: int| 0 <= j < self.splits.len() && self.splits[j].0 == y;
                    assert(w.splits[j].0 == y);
                }
            }
            assert(w.all_linked()) by {
                reveal(StateView::all_linked);
                assert forall|j: int| 0 <= j < w.splits.len() implies w.root == Some(
                    NodeId::Split(w.splits[j].0),
                ) || exists|i: int| 0 <= i < j && #[trigger] w.holds(i, NodeId::Split(w.splits[j].0)) by {
                    assert(w.splits[j].0 == self.splits[j].0);
                    if w.root != Some(NodeId::Split(w.splits[j].0)) {
                        let i = choose|i: int|
                            0 <= i < j && #[trigger] self.holds(i, NodeId::Split(self.splits[j].0));
                        assert(w.holds(i, NodeId::Split(w.splits[j].0)));
                    }
                }
            }
            assert(w.refs_unique()) by {
                reveal(StateView::refs_unique);
                assert forall|i: int, k: int, j: int, l: int|
                    0 <= i < w.splits.len() && 0 <= j < w.splits.len() && 0 <= k < 2 && 0 <= l < 2 && (i
                        != j || k != l) implies #[trigger] w.child(i, k) != #[trigger] w.child(j, l) by {
                    assert(w.child(i, k) == self.child(i, k));
                    assert(w.child(j, l) == self.child(j, l));
                }
                assert forall|i: int, k: int| 0 <= i < w.splits.len() && 0 <= k < 2 implies w.root
                    != Some(#[trigger] w.child(i, k)) by {
                    assert(w.child(i, k) == self.child(i, k));
                }
            }
            assert(w.ratios_saved()) by {
                reveal(StateView::ratios_saved);
            }
            assert forall|n: NodeId| #[trigger] w.occurs(n) == self.occurs(n) by {
                if self.occurs(n) && self.root != Some(n) {
                    let i = choose|i: int| self.holds(i, n);
                    assert(w.holds(i, n));
                }
                if w.occurs(n) && w.root != Some(n) {
                    let i = choose|i: int| w.holds(i, n);
                    assert(self.holds(i, n));
                }
            }
            assert(w.layout_panes() =~= self.layout_panes());
        }
    }

    /// What taking pane `p` out of the tree rests on: where its split stands,
    /// where that split is referred to from, and how the remaining splits
    /// map to the old ones.
    proof fn lemma_detach_facts(self, p: PaneId)
        requires
            self.well_formed(),
            self.detachable(p),
        ensures
            ({
                let pn = NodeId::Pane(p);
                let i = self.holder(pn);
                let pp = NodeId::Split(self.splits[i].0);
                let sib = self.sibling_of(p);
                let w = self.detached(p);
                let len = self.splits.len() as int;
                &&& 0 <= i < len
                &&& self.holds(i, pn)
                &&& self.holds(i, sib)
                &&& w.splits.len() == len - 1
                &&& w.root == relink_root(self.root, pp, sib)
                &&& w.panes == self.panes && w.next_pane_id == self.next_pane_id
                    && w.next_split_id == self.next_split_id
                &&& forall|t: int, k: int|
                    0 <= t < len - 1 && 0 <= k < 2 ==> #[trigger] w.child(t, k) == relink(
                        self.child(skip(t, i), k),
                        pp,
                        sib,
                    )
                &&& forall|t: int|
                    0 <= t < len - 1 ==> #[trigger] w.splits[t].0 == self.splits[skip(t, i)].0
                        && w.splits[t].1.collapse == self.splits[skip(t, i)].1.collapse
                        && w.splits[t].1.ratio == self.splits[skip(t, i)].1.ratio
                        && w.splits[t].1.saved_ratio == self.splits[skip(t, i)].1.saved_ratio
                &&& forall|t: int, k: int|
                    0 <= t < len && t != i && 0 <= k < 2 ==> #[trigger] self.child(t, k) != sib
                        && self.child(t, k) != pn
                &&& self.root != Some(sib) && self.root != Some(pn)
                &&& sib != pp && sib != pn
                &&& self.root == Some(pp) || exists|g: int| 0 <= g < i && #[trigger] self.holds(g, pp)
                &&& (sib matches NodeId::Split(x) ==> exists|j: int|
                    i < j < len && self.splits[j].0 == x)
            }),
    {
        let pn = NodeId::Pane(p);
        let i = self.holder(pn);
        assert(self.holds(i, pn));
        let pid = self.splits[i].0;
        let pp = NodeId::Split(pid);
        let sib = self.sibling_of(p);
        let w = self.detached(p);
        let len = self.splits.len() as int;
        let r = self.splits.remove(i);
        let ks = if self.splits[i].1.first == pn { 1int } else { 0int };
        assert(self.child(i, ks) == sib);
        assert(self.child(i, 1 - ks) == pn);
        assert forall|t: int, k: int| 0 <= t < len && t != i && 0 <= k < 2 implies #[trigger] self.child(t, k)
            != sib && self.child(t, k) != pn by {
            reveal(StateView::refs_unique);
            assert(self.child(t, k) != self.child(i, ks));
            assert(self.child(t, k) != self.child(i, 1 - ks));
        }
        assert(self.root != Some(sib) && self.root != Some(pn)) by {
            reveal(StateView::refs_unique);
            assert(self.root != Some(self.child(i, ks)));
        }
        assert(self.root == Some(pp) || exists|g: int| 0 <= g < i && #[trigger] self.holds(g, pp)) by {
            reveal(StateView::all_linked);
        }
        assert(sib != pp && sib != pn && (sib matches NodeId::Split(x) ==> exists|j: int|
            i < j < len && self.splits[j].0 == x)) by {
            reveal(StateView::links_forward);
            reveal(StateView::ids_fresh);
            reveal(StateView::refs_unique);
            assert(self.child(i, ks) != self.child(i, 1 - ks));
            if let NodeId::Split(x) = sib {
                let j = choose|j: int| i < j < len && self.splits[j].0 == x;
                assert(self.splits[i].0 != self.splits[j].0);
            }
        }
        assert forall|t: int, k: int| 0 <= t < len - 1 && 0 <= k < 2 implies #[trigger] w.child(t, k)
            == relink(self.child(skip(t, i), k), pp, sib) by {
            assert(r[t] == self.splits[skip(t, i)]);
        }
        assert forall|t: int| 0 <= t < len - 1 implies #[trigger] w.splits[t].0 == self.splits[skip(
            t,
            i,
        )].0 && w.splits[t].1.collapse == self.splits[skip(t, i)].1.collapse && w.splits[t].1.ratio
            == self.splits[skip(t, i)].1.ratio && w.splits[t].1.saved_ratio == self.splits[skip(
            t,
            i,
        )].1.saved_ratio by {
            assert(r[t] == self.splits[skip(t, i)]);
        }
    }

    /// Taking a pane out keeps split identifiers, pane bounds and ratios.
    proof fn lemma_detached_simple(self, p: PaneId)
        requires
            self.well_formed(),
            self.detachable(p),
        ensures
            self.detached(p).panes_allocated(),
            self.detached(p).ids_fresh(),
            self.detached(p).panes_known(),
            self.detached(p).ratios_saved(),
    {
        self.lemma_detach_facts(p);
        self.lemma_refs_bounded();
        let i = self.holder(NodeId::Pane(p));
        let w = self.detached(p);
        assert(w.panes_allocated()) by {
            reveal(StateView::panes_allocated);
        }
        assert(w.ids_fresh()) by {
            reveal(StateView::ids_fresh);
            assert forall|a: int, b: int| 0 <= a < b < w.splits.len() implies w.splits[a].0
                != w.splits[b].0 by {
                assert(w.splits[a].0 == self.splits[skip(a, i)].0);
                assert(w.splits[b].0 == self.splits[skip(b, i)].0);
            }
            assert forall|a: int| 0 <= a < w.splits.len() implies w.splits[a].0.0 < w.next_split_id by {
                assert(w.splits[a].0 == self.splits[skip(a, i)].0);
            }
        }
        assert(w.panes_known()) by {
            reveal(StateView::panes_known);
            assert forall|t: int, k: int| 0 <= t < w.splits.len() && 0 <= k < 2 implies (
            #[trigger] w.child(t, k) matches NodeId::Pane(q) ==> q.0 < w.next_pane_id) by {
                assert(w.child(t, k) == relink(self.child(skip(t, i), k), NodeId::Split(self.splits[i].0), self.sibling_of(p)));
                assert(self.child(skip(t, i), k) == self.child(skip(t, i), k));
                assert(self.child(i, 0) == self.splits[i].1.first);
                assert(self.child(i, 1) == self.splits[i].1.second);
            }
            assert(self.child(i, 0) == self.splits[i].1.first);
            assert(self.child(i, 1) == self.splits[i].1.second);
        }
        assert(w.ratios_saved()) by {
            reveal(StateView::ratios_saved);
            assert forall|a: int| 0 <= a < w.splits.len() && #[trigger] w.splits[a].1.collapse
                == CollapseState::Expanded implies w.splits[a].1.ratio == w.splits[a].1.saved_ratio by {
                assert(w.splits[a].1.collapse == self.splits[skip(a, i)].1.collapse);
            }
        }
    }

    /// Taking a pane out keeps every reference to a split pointing forward.
    proof fn lemma_detached_forward(self, p: PaneId)
        requires
            self.well_formed(),
            self.detachable(p),
        ensures
            self.detached(p).links_forward(),
    {
        self.lemma_detach_facts(p);
        let pn = NodeId::Pane(p);
        let i = self.holder(pn);
        let pp = NodeId::Split(self.splits[i].0);
        let sib = self.sibling_of(p);
        let w = self.detached(p);
        let len = self.splits.len() as int;
        reveal(StateView::links_forward);
        reveal(StateView::ids_fresh);
        assert forall|t: int, k: int| 0 <= t < w.splits.len() && 0 <= k < 2 implies (
        #[trigger] w.child(t, k) matches NodeId::Split(x) ==> exists|j: int|
            t < j < w.splits.len() && w.splits[j].0 == x) by {
            let tt = skip(t, i);
            let c = self.child(tt, k);
            assert(w.child(t, k) == relink(c, pp, sib));
            if let NodeId::Split(x) = w.child(t, k) {
                if c == pp {
                    if tt >= i {
                        reveal(StateView::refs_unique);
                        if self.root == Some(pp) {
                            assert(self.root != Some(self.child(tt, k)));
                        } else {
                            let g = choose|g: int| 0 <= g < i && #[trigger] self.holds(g, pp);
                            assert(self.child(g, 0) == self.splits[g].1.first);
                            assert(self.child(g, 1) == self.splits[g].1.second);
                            if self.child(g, 0) == pp {
                                assert(self.child(g, 0) != self.child(tt, k));
                            } else {
                                assert(self.child(g, 1) != self.child(tt, k));
                            }
                        }
                    }
                    let j = choose|j: int| i < j < len && self.splits[j].0 == x;
                    assert(w.splits[j - 1].0 == self.splits[skip(j - 1, i)].0);
                } else {
                    let j = choose|j: int| tt < j < len && self.splits[j].0 == x;
                    if j == i {
                        assert(c == pp);
                    }
                    if j < i {
                        assert(w.splits[j].0 == self.splits[skip(j, i)].0);
                    } else {
                        assert(w.splits[j - 1].0 == self.splits[skip(j - 1, i)].0);
                    }
                }
            }
        }
        if let Some(NodeId::Split(x)) = w.root {
            if self.root == Some(pp) {
                let j = choose|j: int| i < j < len && self.splits[j].0 == x;
                assert(w.splits[j - 1].0 == self.splits[skip(j - 1, i)].0);
            } else {
                let j = choose|j: int| 0 <= j < len && self.splits[j].0 == x;
                if j < i {
                    assert(w.splits[j].0 == self.splits[skip(j, i)].0);
                } else {
                    assert(j != i);
                    assert(w.splits[j - 1].0 == self.splits[skip(j - 1, i)].0);
                }
            }
        }
    }

    /// Taking a pane out keeps every split hanging in the tree.
    proof fn lemma_detached_linked(self, p: PaneId)
        requires
            self.well_formed(),
            self.detachable(p),
        ensures
            self.detached(p).all_linked(),
    {
        self.lemma_detach_facts(p);
        let pn = NodeId::Pane(p);
        let i = self.holder(pn);
        let pp = NodeId::Split(self.splits[i].0);
        let sib = self.sibling_of(p);
        let w = self.detached(p);
        reveal(StateView::all_linked);
        reveal(StateView::ids_fresh);
        assert forall|t: int| 0 <= t < w.splits.len() implies w.root == Some(
            NodeId::Split(w.splits[t].0),
        ) || exists|h: int| 0 <= h < t && #[trigger] w.holds(h, NodeId::Split(w.splits[t].0)) by {
            let tt = skip(t, i);
            let y = NodeId::Split(self.splits[tt].0);
            assert(w.splits[t].0 == self.splits[tt].0);
            assert(y != pp) by {
                if tt < i {
                    assert(self.splits[tt].0 != self.splits[i].0);
                } else {
                    assert(self.splits[i].0 != self.splits[tt].0);
                }
            }
            if self.root == Some(y) {
                assert(w.root == Some(y));
            } else {
                let h = choose|h: int| 0 <= h < tt && #[trigger] self.holds(h, y);
                assert(self.child(h, 0) == self.splits[h].1.first);
                assert(self.child(h, 1) == self.splits[h].1.second);
                if h == i {
                    assert(y == sib);
                    if self.root == Some(pp) {
                        assert(w.root == Some(y));
                    } else {
                        let g = choose|g: int| 0 <= g < i && #[trigger] self.holds(g, pp);
                        assert(self.child(g, 0) == self.splits[g].1.first);
                        assert(self.child(g, 1) == self.splits[g].1.second);
                        assert(skip(g, i) == g);
                        assert(w.child(g, 0) == relink(self.child(g, 0), pp, sib));
                        assert(w.child(g, 1) == relink(self.child(g, 1), pp, sib));
                        assert(w.holds(g, y));
                    }
                } else {
                    let hn = if h < i { h } else { h - 1 };
                    assert(skip(hn, i) == h);
                    assert(w.child(hn, 0) == relink(self.child(h, 0), pp, sib));
                    assert(w.child(hn, 1) == relink(self.child(h, 1), pp, sib));
                    assert(w.holds(hn, y));
                }
            }
        }
    }

    /// Taking a pane out leaves no node twice in the tree.
    proof fn lemma_detached_unique(self, p: PaneId)
        requires
            self.well_formed(),
            self.detachable(p),
        ensures
            self.detached(p).refs_unique(),
    {
        self.lemma_detach_facts(p);
        let pn = NodeId::Pane(p);
        let i = self.holder(pn);
        let pp = NodeId::Split(self.splits[i].0);
        let sib = self.sibling_of(p);
        let w = self.detached(p);
        reveal(StateView::refs_unique);
        assert forall|a: int, k: int, b: int, l: int|
            0 <= a < w.splits.len() && 0 <= b < w.splits.len() && 0 <= k < 2 && 0 <= l < 2 && (a != b
                || k != l) implies #[trigger] w.child(a, k) != #[trigger] w.child(b, l) by {
            assert(w.child(a, k) == relink(self.child(skip(a, i), k), pp, sib));
            assert(w.child(b, l) == relink(self.child(skip(b, i), l), pp, sib));
            assert(self.child(skip(a, i), k) != self.child(skip(b, i), l));
            assert(self.child(skip(a, i), k) != sib);
            assert(self.child(skip(b, i), l) != sib);
        }
        assert forall|a: int, k: int| 0 <= a < w.splits.len() && 0 <= k < 2 implies w.root != Some(
            #[trigger] w.child(a, k),
        ) by {
            assert(w.child(a, k) == relink(self.child(skip(a, i), k), pp, sib));
            assert(self.root != Some(self.child(skip(a, i), k)));
            assert(self.child(skip(a, i), k) != sib);
        }
    }

    /// Taking a pane out removes exactly that pane from the tree.
    proof fn lemma_detached_panes(self, p: PaneId)
        requires
            self.well_formed(),
            self.detachable(p),
        ensures
            self.detached(p).layout_panes() == self.layout_panes().remove(p),
    {
        self.lemma_detach_facts(p);
        let pn = NodeId::Pane(p);
        let i = self.holder(pn);
        let pp = NodeId::Split(self.splits[i].0);
        let sib = self.sibling_of(p);
        let w = self.detached(p);
        assert forall|q: PaneId| #[trigger] w.in_layout(q) == (self.in_layout(q) && q != p) by {
            let qn = NodeId::Pane(q);
            if self.in_layout(q) && q != p {
                if self.root == Some(qn) {
                    assert(w.root == Some(qn));
                } else {
                    let h = choose|h: int| self.holds(h, qn);
                    assert(self.child(h, 0) == self.splits[h].1.first);
                    assert(self.child(h, 1) == self.splits[h].1.second);
                    if h == i {
                        assert(qn == sib);
                        if self.root == Some(pp) {
                            assert(w.root == Some(qn));
                        } else {
                            let g = choose|g: int| 0 <= g < i && #[trigger] self.holds(g, pp);
                            assert(self.child(g, 0) == self.splits[g].1.first);
                            assert(self.child(g, 1) == self.splits[g].1.second);
                            assert(skip(g, i) == g);
                            assert(w.child(g, 0) == relink(self.child(g, 0), pp, sib));
                            assert(w.child(g, 1) == relink(self.child(g, 1), pp, sib));
                            assert(w.holds(g, qn));
                        }
                    } else {
                        let hn = if h < i { h } else { h - 1 };
                        assert(skip(hn, i) == h);
                        assert(w.child(hn, 0) == relink(self.child(h, 0), pp, sib));
                        assert(w.child(hn, 1) == relink(self.child(h, 1), pp, sib));
                        assert(w.holds(hn, qn));
                    }
                }
            }
            if w.in_layout(q) {
                if w.root == Some(qn) {
                    if self.root == Some(pp) {
                        assert(self.holds(i, qn));
                    }
                } else {
                    let h = choose|h: int| w.holds(h, qn);
                    assert(w.child(h, 0) == w.splits[h].1.first);
                    assert(w.child(h, 1) == w.splits[h].1.second);
                    let hh = skip(h, i);
                    assert(w.child(h, 0) == relink(self.child(hh, 0), pp, sib));
                    assert(w.child(h, 1) == relink(self.child(hh, 1), pp, sib));
                    assert(self.child(hh, 0) == self.splits[hh].1.first);
                    assert(self.child(hh, 1) == self.splits[hh].1.second);
                    if self.child(hh, 0) == qn || self.child(hh, 1) == qn {
                        assert(self.holds(hh, qn));
                    } else {
                        assert(self.holds(i, qn));
                    }
                }
            }
        }
        assert(w.layout_panes() =~= self.layout_panes().remove(p));
    }

    /// Taking a pane out of the tree keeps the tree well formed, and removes
    /// exactly that pane from it.
    pub proof fn lemma_detached(self, p: PaneId)
        requires
            self.well_formed(),
            self.detachable(p),
        ensures
            self.detached(p).well_formed(),
            self.detached(p).layout_panes() == self.layout_panes().remove(p),
    {
        self.lemma_detached_simple(p);
        self.lemma_detached_forward(p);
        self.lemma_detached_linked(p);
        self.lemma_detached_unique(p);
        self.lemma_detached_panes(p);
    }

    /// A well-formed tree stays well formed whatever the maximize and drag
    /// state beside it.
    proof fn lemma_wf_transfer(self, other: StateView)
        requires
            self.well_formed(),
            self.panes == other.panes,
            self.splits == other.splits,
            self.root == other.root,
            self.next_pane_id == other.next_pane_id,
            self.next_split_id == other.next_split_id,
        ensures
            other.well_formed(),
    {
        assert forall|i: int, k: int| #[trigger] other.child(i, k) == self.child(i, k) by {}
        assert forall|i: int, n: NodeId| #[trigger] other.holds(i, n) == self.holds(i, n) by {}
        assert(other.panes_allocated()) by {
            reveal(StateView::panes_allocated);
        }
        assert(other.ids_fresh()) by {
            reveal(StateView::ids_fresh);
        }
        assert(other.panes_known()) by {
            reveal(StateView::panes_known);
            assert forall|i: int, k: int| 0 <= i < other.splits.len() && 0 <= k < 2 implies (
            #[trigger] other.child(i, k) matches NodeId::Pane(p) ==> p.0 < other.next_pane_id) by {
                assert(other.child(i, k) == self.child(i, k));
            }
        }
        assert(other.links_forward()) by {
            reveal(StateView::links_forward);
            assert forall|i: int, k: int| 0 <= i < other.splits.len() && 0 <= k < 2 implies (
            #[trigger] other.child(i, k) matches NodeId::Split(id) ==> exists|j: int|
                i < j < other.splits.len() && other.splits[j].0 == id) by {
                assert(other.child(i, k) == self.child(i, k));
            }
        }
        assert(other.all_linked()) by {
            reveal(StateView::all_linked);
            assert forall|j: int| 0 <= j < other.splits.len() implies other.root == Some(
                NodeId::Split(other.splits[j].0),
            ) || exists|i: int| 0 <= i < j && #[trigger] other.holds(i, NodeId::Split(other.splits[j].0)) by {
                if other.root != Some(NodeId::Split(other.splits[j].0)) {
                    let i = choose|i: int|
                        0 <= i < j && #[trigger] self.holds(i, NodeId::Split(self.splits[j].0));
                    assert(other.holds(i, NodeId::Split(other.splits[j].0)));
                }
            }
        }
        assert(other.refs_unique()) by {
            reveal(StateView::refs_unique);
            assert forall|i: int, k: int, j: int, l: int|
                0 <= i < other.splits.len() && 0 <= j < other.splits.len() && 0 <= k < 2 && 0 <= l < 2
                    && (i != j || k != l) implies #[trigger] other.child(i, k) != #[trigger] other.child(
                j,
                l,
            ) by {
                assert(self.child(i, k) != self.child(j, l));
            }
            assert forall|i: int, k: int| 0 <= i < other.splits.len() && 0 <= k < 2 implies other.root
                != Some(#[trigger] other.child(i, k)) by {
                assert(self.root != Some(self.child(i, k)));
            }
        }
        assert(other.ratios_saved()) by {
            reveal(StateView::ratios_saved);
        }
    }

    /// Whether the tree is well formed, and which panes it holds, does not
    /// depend on the maximize and drag state.
    pub proof fn lemma_wf_tree_only(self, other: StateView)
        requires
            self.panes == other.panes,
            self.splits == other.splits,
            self.root == other.root,
            self.next_pane_id == other.next_pane_id,
            self.next_split_id == other.next_split_id,
        ensures
            self.well_formed() == other.well_formed(),
            self.layout_panes() == other.layout_panes(),
    {
        if self.well_formed() {
            self.lemma_wf_transfer(other);
        }
        if other.well_formed() {
            other.lemma_wf_transfer(self);
        }
        assert forall|i: int, n: NodeId| #[trigger] other.holds(i, n) == self.holds(i, n) by {}
        assert forall|q: PaneId| #[trigger] self.in_layout(q) == other.in_layout(q) by {
            let n = NodeId::Pane(q);
            if self.occurs(n) && self.root != Some(n) {
                let i = choose|i: int| self.holds(i, n);
                assert(other.holds(i, n));
            }
            if other.occurs(n) && other.root != Some(n) {
                let i = choose|i: int| other.holds(i, n);
                assert(self.holds(i, n));
            }
        }
        assert(self.layout_panes() =~= other.layout_panes());
    }

    /// Exchanging two panes of the tree keeps the tree well formed, with the
    /// same panes.
    pub proof fn lemma_swapped(self, a: PaneId, b: PaneId)
        requires
            self.well_formed(),
            self.swappable(a, b),
        ensures
            self.swapped(a, b).well_formed(),
            self.swapped(a, b).layout_panes() == self.layout_panes(),
    {
        self.lemma_refs_bounded();
        let w = self.swapped(a, b);
        assert forall|t: int, k: int| 0 <= t < w.splits.len() && 0 <= k < 2 implies #[trigger] w.child(t, k)
            == swap_ref(self.child(t, k), a, b) by {
        }
        assert(w.panes_allocated()) by {
            reveal(StateView::panes_allocated);
        }
        assert(w.ids_fresh()) by {
            reveal(StateView::ids_fresh);
        }
        assert(w.panes_known()) by {
            reveal(StateView::panes_known);
            assert forall|t: int, k: int| 0 <= t < w.splits.len() && 0 <= k < 2 implies (
            #[trigger] w.child(t, k) matches NodeId::Pane(q) ==> q.0 < w.next_pane_id) by {
                assert(w.child(t, k) == swap_ref(self.child(t, k), a, b));
            }
        }
        assert(w.links_forward()) by {
            reveal(StateView::links_forward);
            assert forall|t: int, k: int| 0 <= t < w.splits.len() && 0 <= k < 2 implies (
            #[trigger] w.child(t, k) matches NodeId::Split(x) ==> exists|j: int|
                t < j < w.splits.len() && w.splits[j].0 == x) by {
                assert(w.child(t, k) == swap_ref(self.child(t, k), a, b));
                if let NodeId::Split(x) = w.child(t, k) {
                    let j = choose|j: int| t < j < self.splits.len() && self.splits[j].0 == x;
                    assert(w.splits[j].0 == x);
                }
            }
            if let Some(NodeId::Split(x)) = w.root {
                let j = choose|j: int| 0 <= j < self.splits.len() && self.splits[j].0 == x;
                assert(w.splits[j].0 == x);
            }
        }
        assert(w.all_linked()) by {
            reveal(StateView::all_linked);
            assert forall|j: int| 0 <= j < w.splits.len() implies w.root == Some(
                NodeId::Split(w.splits[j].0),
            ) || exists|i: int| 0 <= i < j && #[trigger] w.holds(i, NodeId::Split(w.splits[j].0)) by {
                let y = NodeId::Split(self.splits[j].0);
                if self.root != Some(y) {
                    let i = choose|i: int| 0 <= i < j && #[trigger] self.holds(i, y);
                    assert(self.child(i, 0) == self.splits[i].1.first);
                    assert(self.child(i, 1) == self.splits[i].1.second);
                    assert(w.child(i, 0) == w.splits[i].1.first);
                    assert(w.child(i, 1) == w.splits[i].1.second);
                    assert(w.holds(i, y));
                }
            }
        }
        assert(w.refs_unique()) by {
            reveal(StateView::refs_unique);
            assert forall|i: int, k: int, j: int, l: int|
                0 <= i < w.splits.len() && 0 <= j < w.splits.len() && 0 <= k < 2 && 0 <= l < 2 && (i
                    != j || k != l) implies #[trigger] w.child(i, k) != #[trigger] w.child(j, l) by {
                assert(self.child(i, k) != self.child(j, l));
            }
            assert forall|i: int, k: int| 0 <= i < w.splits.len() && 0 <= k < 2 implies w.root
                != Some(#[trigger] w.child(i, k)) by {
                assert(self.root != Some(self.child(i, k)));
            }
        }
        assert(w.ratios_saved()) by {
            reveal(StateView::ratios_saved);
        }
        assert forall|q: PaneId| #[trigger] w.in_layout(q) == self.in_layout(q) by {
            let qn = NodeId::Pane(q);
            let q2 = if q == a { b } else if q == b { a } else { q };
            let qn2 = NodeId::Pane(q2);
            assert(swap_ref(qn2, a, b) == qn);
            if self.in_layout(q2) {
                if self.root == Some(qn2) {
                    assert(w.root == Some(qn));
                } else {
                    let h = choose|h: int| self.holds(h, qn2);
                    assert(self.child(h, 0) == self.splits[h].1.first);
                    assert(self.child(h, 1) == self.splits[h].1.second);
                    assert(w.child(h, 0) == w.splits[h].1.first);
                    assert(w.child(h, 1) == w.splits[h].1.second);
                    assert(w.holds(h, qn));
                }
            }
            if w.in_layout(q) {
                if w.root == Some(qn) {
                    assert(self.root == Some(qn2));
                } else {
                    let h = choose|h: int| w.holds(h, qn);
                    assert(self.child(h, 0) == self.splits[h].1.first);
                    assert(self.child(h, 1) == self.splits[h].1.second);
                    assert(w.child(h, 0) == w.splits[h].1.first);
                    assert(w.child(h, 1) == w.splits[h].1.second);
                    assert(self.holds(h, qn2));
                }
            }
        }
        assert(w.layout_panes() =~= self.layout_panes());
    }

    /// A tree whose root is a pane has no splits: that pane is all of it.
    pub proof fn lemma_root_pane(self, x: PaneId)
        requires
            self.well_formed(),
            self.root == Some(NodeId::Pane(x)),
        ensures
            self.splits.len() == 0,
            self.layout_panes() == Set::empty().insert(x),
    {
        reveal(StateView::all_linked);
        if self.splits.len() > 0 {
            assert(self.root == Some(NodeId::Split(self.splits[0].0)) || exists|i: int|
                0 <= i < 0 && #[trigger] self.holds(i, NodeId::Split(self.splits[0].0)));
        }
        assert(self.layout_panes() =~= Set::empty().insert(x));
    }

    /// In a tree, the split with identifier `id` after it was replaced is
    /// the replacement.
    pub proof fn lemma_updated_split_of(self, id: SplitId, sp: Split)
        requires
            self.well_formed(),
            self.has_split(id),
            sp.first == self.split_of(id).unwrap().first,
            sp.second == self.split_of(id).unwrap().second,
            sp.collapse == CollapseState::Expanded ==> sp.ratio == sp.saved_ratio,
        ensures
            self.updated_split(id, sp).split_of(id) == Some(sp),
            self.updated_split(id, sp).index_of(id) == self.index_of(id),
    {
        self.lemma_updated_split(id, sp);
        let w = self.updated_split(id, sp);
        let i = self.index_of(id);
        w.lemma_index_of(id, i);
    }

    /// Every child split of a split stands later in the list than its parent,
    /// and the root split exists: so a walk down from the root, which the
    /// widget's layout makes, always ends at panes.
    pub proof fn law_children_stand_later(self)
        requires
            self.well_formed(),
        ensures
            forall|i: int, k: int|
                0 <= i < self.splits.len() && 0 <= k < 2 && (#[trigger] self.child(i, k) is Split)
                    ==> self.has_split(self.child(i, k)->Split_0) && self.index_of(
                    self.child(i, k)->Split_0,
                ) > i,
            self.root matches Some(NodeId::Split(x)) ==> self.has_split(x),
    {
        reveal(StateView::links_forward);
        assert forall|i: int, k: int|
            0 <= i < self.splits.len() && 0 <= k < 2 && (#[trigger] self.child(i, k) is Split)
                implies self.has_split(self.child(i, k)->Split_0) && self.index_of(
                self.child(i, k)->Split_0,
            ) > i by {
            let x = self.child(i, k)->Split_0;
            let j = choose|j: int| i < j < self.splits.len() && self.splits[j].0 == x;
            self.lemma_index_of(x, j);
        }
    }

    /// Exchanging two panes changes nothing but the children equal to them:
    /// every split keeps its identifier, axis, ratio, saved ratio and
    /// collapse state, and where `a` stood `b` stands and the other way
    /// round; when the two cannot trade places nothing changes.
    pub proof fn law_swap_values(self, a: PaneId, b: PaneId)
        ensures
            ({
                let w = self.swapped(a, b);
                &&& w.splits.len() == self.splits.len()
                &&& w.panes == self.panes && w.next_pane_id == self.next_pane_id
                &&& w.next_split_id == self.next_split_id && w.maximize == self.maximize
                &&& w.dragging == self.dragging && w.pane_drag == self.pane_drag
                &&& forall|i: int|
                    0 <= i < self.splits.len() ==> (#[trigger] w.splits[i]).0 == self.splits[i].0
                        && w.splits[i].1.axis == self.splits[i].1.axis && w.splits[i].1.ratio
                        == self.splits[i].1.ratio && w.splits[i].1.saved_ratio
                        == self.splits[i].1.saved_ratio && w.splits[i].1.collapse
                        == self.splits[i].1.collapse
                &&& self.swappable(a, b) ==> forall|i: int, k: int|
                    0 <= i < self.splits.len() && 0 <= k < 2 ==> #[trigger] w.child(i, k) == (if self.child(
                        i,
                        k,
                    ) == NodeId::Pane(a) {
                        NodeId::Pane(b)
                    } else if self.child(i, k) == NodeId::Pane(b) {
                        NodeId::Pane(a)
                    } else {
                        self.child(i, k)
                    })
                &&& self.swappable(a, b) ==> w.root == match self.root {
                    Some(n) => Some(
                        if n == NodeId::Pane(a) {
                            NodeId::Pane(b)
                        } else if n == NodeId::Pane(b) {
                            NodeId::Pane(a)
                        } else {
                            n
                        },
                    ),
                    None => None,
                }
                &&& !self.swappable(a, b) ==> w == self
            }),
    {
    }

    /// Wrapping node `n` of the tree in the new split `sp`: `sp` is appended
    /// under the next split identifier, the place of `n` (the root, or a
    /// child slot) now holds the new split, and nothing else changes.
    pub proof fn law_wrapped_values(self, n: NodeId, sp: Split)
        requires
            self.well_formed(),
            self.occurs(n),
        ensures
            ({
                let w = self.wrapped(n, sp);
                let id = SplitId(self.next_split_id as usize);
                let len = self.splits.len() as int;
                &&& w.splits.len() == len + 1
                &&& w.splits[len] == (id, sp)
                &&& w.next_split_id == self.next_split_id + 1
                &&& w.panes == self.panes && w.next_pane_id == self.next_pane_id
                &&& w.maximize == self.maximize && w.dragging == self.dragging
                    && w.pane_drag == self.pane_drag
                &&& forall|i: int|
                    0 <= i < len ==> (#[trigger] w.splits[i]).0 == self.splits[i].0
                        && w.splits[i].1.axis == self.splits[i].1.axis && w.splits[i].1.ratio
                        == self.splits[i].1.ratio && w.splits[i].1.saved_ratio
                        == self.splits[i].1.saved_ratio && w.splits[i].1.collapse
                        == self.splits[i].1.collapse
                &&& forall|i: int, k: int|
                    0 <= i < len && 0 <= k < 2 ==> #[trigger] w.child(i, k) == (if self.child(i, k)
                        == n {
                        NodeId::Split(id)
                    } else {
                        self.child(i, k)
                    })
                &&& w.root == (if self.root == Some(n) {
                    Some(NodeId::Split(id))
                } else {
                    self.root
                })
            }),
    {
        let w = self.wrapped(n, sp);
        let len = self.splits.len() as int;
        assert forall|i: int, k: int| 0 <= i < len && 0 <= k < 2 implies #[trigger] w.child(i, k)
            == (if self.child(i, k) == n {
            NodeId::Split(SplitId(self.next_split_id as usize))
        } else {
            self.child(i, k)
        }) by {
            assert(w.splits[i] == (self.splits[i].0, relink_split(self.splits[i].1, n, NodeId::Split(SplitId(self.next_split_id as usize)))));
        }
    }

    /// Splitting pane `pane`: pane `PaneId(next_pane_id)` is allocated in any
    /// case; when `pane` is in the layout a split numbered `next_split_id` is
    /// appended, along `axis`, expanded at ratio 0.5, with `pane` first and
    /// the new pane second, and it takes the place of `pane`; otherwise the
    /// tree stays as it was.
    pub proof fn law_split_values(self, axis: Axis, pane: PaneId)
        requires
            self.well_formed(),
            self.next_pane_id < usize::MAX,
        ensures
            ({
                let w = self.after_split(axis, pane);
                let fresh = PaneId(self.next_pane_id as usize);
                let id = SplitId(self.next_split_id as usize);
                let len = self.splits.len() as int;
                &&& w.panes == self.panes.push(fresh)
                &&& w.next_pane_id == self.next_pane_id + 1
                &&& w.maximize == self.maximize && w.dragging == self.dragging
                    && w.pane_drag == self.pane_drag
                &&& self.in_layout(pane) ==> {
                    &&& w.splits.len() == len + 1
                    &&& w.splits[len] == (id, Split {
                        axis,
                        ratio: 0x3F00_0000u32,
                        saved_ratio: 0x3F00_0000u32,
                        collapse: CollapseState::Expanded,
                        first: NodeId::Pane(pane),
                        second: NodeId::Pane(fresh),
                    })
                    &&& w.next_split_id == self.next_split_id + 1
                    &&& forall|i: int|
                        0 <= i < len ==> (#[trigger] w.splits[i]).0 == self.splits[i].0
                            && w.splits[i].1.axis == self.splits[i].1.axis && w.splits[i].1.ratio
                            == self.splits[i].1.ratio && w.splits[i].1.collapse
                            == self.splits[i].1.collapse
                    &&& forall|i: int, k: int|
                        0 <= i < len && 0 <= k < 2 ==> #[trigger] w.child(i, k) == (if self.child(i, k)
                            == NodeId::Pane(pane) {
                            NodeId::Split(id)
                        } else {
                            self.child(i, k)
                        })
                    &&& w.root == (if self.root == Some(NodeId::Pane(pane)) {
                        Some(NodeId::Split(id))
                    } else {
                        self.root
                    })
                }
                &&& !self.in_layout(pane) ==> w.splits == self.splits && w.root == self.root
                    && w.next_split_id == self.next_split_id
            }),
    {
        self.lemma_pane_allocated();
        let a = self.pane_allocated();
        if self.in_layout(pane) {
            assert(a.occurs(NodeId::Pane(pane)));
            a.law_wrapped_values(
                NodeId::Pane(pane),
                fresh_split(axis, NodeId::Pane(pane), NodeId::Pane(PaneId(self.next_pane_id as usize))),
            );
            let w = self.after_split(axis, pane);
            let len = self.splits.len() as int;
            assert forall|i: int, k: int| 0 <= i < len && 0 <= k < 2 implies #[trigger] a.child(i, k)
                == self.child(i, k) by {
            }
            assert forall|i: int, k: int| 0 <= i < len && 0 <= k < 2 implies #[trigger] w.child(i, k)
                == (if self.child(i, k) == NodeId::Pane(pane) {
                NodeId::Split(SplitId(self.next_split_id as usize))
            } else {
                self.child(i, k)
            }) by {
                assert(a.child(i, k) == self.child(i, k));
            }
        }
    }

    /// Placing `source` beside `dest`: when it can be done a split numbered
    /// `next_split_id` is appended, along `axis`, expanded at ratio 0.5,
    /// holding `source` first and `dest` second when `source_first` holds and
    /// the other way round otherwise, and it takes the place of `dest`;
    /// otherwise nothing changes.
    pub proof fn law_insert_values(self, source: PaneId, dest: PaneId, axis: Axis, source_first: bool)
        requires
            self.well_formed(),
        ensures
            ({
                let w = self.inserted(source, dest, axis, source_first);
                let id = SplitId(self.next_split_id as usize);
                let len = self.splits.len() as int;
                &&& self.insertable(source, dest) ==> {
                    &&& w.splits.len() == len + 1
                    &&& w.splits[len] == (id, Split {
                        axis,
                        ratio: 0x3F00_0000u32,
                        saved_ratio: 0x3F00_0000u32,
                        collapse: CollapseState::Expanded,
                        first: if source_first {
                            NodeId::Pane(source)
                        } else {
                            NodeId::Pane(dest)
                        },
                        second: if source_first {
                            NodeId::Pane(dest)
                        } else {
                            NodeId::Pane(source)
                        },
                    })
                    &&& w.panes == self.panes && w.next_split_id == self.next_split_id + 1
                    &&& forall|i: int, k: int|
                        0 <= i < len && 0 <= k < 2 ==> #[trigger] w.child(i, k) == (if self.child(i, k)
                            == NodeId::Pane(dest) {
                            NodeId::Split(id)
                        } else {
                            self.child(i, k)
                        })
                    &&& w.root == (if self.root == Some(NodeId::Pane(dest)) {
                        Some(NodeId::Split(id))
                    } else {
                        self.root
                    })
                }
                &&& !self.insertable(source, dest) ==> w == self
            }),
    {
        if self.insertable(source, dest) {
            assert(self.occurs(NodeId::Pane(dest)));
            self.law_wrapped_values(
                NodeId::Pane(dest),
                Self::pair_split(source, dest, axis, source_first),
            );
        }
    }

    /// Taking pane `p` out: the split that held it (at index `holder`) is
    /// removed, its other child takes its place (at the root or in the slot
    /// of its parent), the splits after it move up by one, and every split
    /// left keeps its identifier, axis, ratio, saved ratio and collapse
    /// state; a pane that cannot be taken out leaves everything as it was.
    pub proof fn law_detach_values(self, p: PaneId)
        requires
            self.well_formed(),
        ensures
            !self.detachable(p) ==> self.detached(p) == self,
            self.detachable(p) ==> ({
                let w = self.detached(p);
                let i = self.holder(NodeId::Pane(p));
                let parent = NodeId::Split(self.splits[i].0);
                let sp = self.splits[i].1;
                let sib = if sp.first == NodeId::Pane(p) {
                    sp.second
                } else {
                    sp.first
                };
                let len = self.splits.len() as int;
                &&& 0 <= i < len && has_child(sp, NodeId::Pane(p))
                &&& !w.has_split(self.splits[i].0)
                &&& w.splits.len() == len - 1
                &&& w.panes == self.panes && w.next_split_id == self.next_split_id
                &&& forall|t: int|
                    0 <= t < len - 1 ==> (#[trigger] w.splits[t]).0 == self.splits[skip(t, i)].0
                        && w.splits[t].1.axis == self.splits[skip(t, i)].1.axis && w.splits[t].1.ratio
                        == self.splits[skip(t, i)].1.ratio && w.splits[t].1.saved_ratio
                        == self.splits[skip(t, i)].1.saved_ratio && w.splits[t].1.collapse
                        == self.splits[skip(t, i)].1.collapse
                &&& forall|t: int, k: int|
                    0 <= t < len - 1 && 0 <= k < 2 ==> #[trigger] w.child(t, k) == (if self.child(
                        skip(t, i),
                        k,
                    ) == parent {
                        sib
                    } else {
                        self.child(skip(t, i), k)
                    })
                &&& w.root == (if self.root == Some(parent) {
                    Some(sib)
                } else {
                    self.root
                })
            }),
    {
        if self.detachable(p) {
            self.lemma_detach_facts(p);
            let i = self.holder(NodeId::Pane(p));
            let pid = self.splits[i].0;
            let w = self.detached(p);
            let len = self.splits.len() as int;
            assert(!w.has_split(pid)) by {
                reveal(StateView::ids_fresh);
                if w.has_split(pid) {
                    let t = choose|t: int| 0 <= t < w.splits.len() && w.splits[t].0 == pid;
                    assert(w.splits[t].0 == self.splits[skip(t, i)].0);
                    if skip(t, i) < i {
                        assert(self.splits[skip(t, i)].0 != self.splits[i].0);
                    } else {
                        assert(self.splits[i].0 != self.splits[skip(t, i)].0);
                    }
                }
            }
            assert forall|t: int, k: int| 0 <= t < len - 1 && 0 <= k < 2 implies #[trigger] w.child(t, k)
                == (if self.child(skip(t, i), k) == NodeId::Split(pid) {
                self.sibling_of(p)
            } else {
                self.child(skip(t, i), k)
            }) by {
                assert(w.child(t, k) == relink(self.child(skip(t, i), k), NodeId::Split(pid), self.sibling_of(p)));
            }
        }
    }

    /// Exchanging the same two panes twice gives back the state as it was.
    pub proof fn law_swap_twice(self, a: PaneId, b: PaneId)
        requires
            self.well_formed(),
        ensures
            self.swapped(a, b).swapped(a, b) == self,
    {
        if self.swappable(a, b) {
            self.lemma_swapped(a, b);
            let w = self.swapped(a, b);
            assert(w.layout_panes().contains(a) && w.layout_panes().contains(b));
            assert(w.swappable(a, b));
            assert(w.swapped(a, b).splits =~= self.splits);
            assert(w.swapped(a, b) =~= self);
        }
    }

    /// Splitting a pane of the layout puts a new split in its place whose
    /// first child is that pane and whose second child is the new pane, at
    /// ratio 0.5.
    pub proof fn law_split_siblings(self, axis: Axis, pane: PaneId)
        requires
            self.well_formed(),
            self.in_layout(pane),
            self.next_pane_id < usize::MAX,
            self.next_split_id < usize::MAX,
        ensures
            ({
                let w = self.after_split(axis, pane);
                let id = SplitId(self.next_split_id as usize);
                let fresh = PaneId(self.next_pane_id as usize);
                &&& w.split_of(id) == Some(
                    fresh_split(axis, NodeId::Pane(pane), NodeId::Pane(fresh)),
                )
                &&& w.occurs(NodeId::Split(id))
                &&& w.in_layout(pane) && w.in_layout(fresh)
            }),
    {
        self.lemma_pane_allocated();
        let a = self.pane_allocated();
        let fresh = PaneId(self.next_pane_id as usize);
        let sp = fresh_split(axis, NodeId::Pane(pane), NodeId::Pane(fresh));
        assert(a.in_layout(pane));
        a.lemma_wrapped(NodeId::Pane(pane), sp, fresh);
        let w = a.wrapped(NodeId::Pane(pane), sp);
        let id = SplitId(self.next_split_id as usize);
        let len = a.splits.len() as int;
        w.lemma_index_of(id, len);
        assert(w.holds(len, NodeId::Pane(pane)));
        assert(w.layout_panes().contains(pane) && w.layout_panes().contains(fresh));
        if a.root == Some(NodeId::Pane(pane)) {
            assert(w.root == Some(NodeId::Split(id)));
        } else {
            let h = choose|h: int| a.holds(h, NodeId::Pane(pane));
            assert(w.splits[h] == (a.splits[h].0, relink_split(a.splits[h].1, NodeId::Pane(pane), NodeId::Split(id))));
            assert(w.holds(h, NodeId::Split(id)));
        }
    }

    /// Allocating a pane keeps the tree well formed and out of it.
    pub proof fn lemma_pane_allocated(self)
        requires
            self.well_formed(),
            self.next_pane_id < usize::MAX,
        ensures
            self.pane_allocated().well_formed(),
            !self.in_layout(PaneId(self.next_pane_id as usize)),
            forall|n: NodeId| #[trigger] self.pane_allocated().occurs(n) == self.occurs(n),
            self.pane_allocated().layout_panes() == self.layout_panes(),
    {
        self.lemma_refs_bounded();
        let w = self.pane_allocated();
        assert(w.splits == self.splits && w.root == self.root);
        assert(w.panes_allocated()) by {
            reveal(StateView::panes_allocated);
        }
        assert(w.ids_fresh()) by {
            reveal(StateView::ids_fresh);
        }
        assert(w.panes_known()) by {
            reveal(StateView::panes_known);
            assert forall|i: int, k: int|
                0 <= i < w.splits.len() && 0 <= k < 2 implies (#[trigger] w.child(i, k) matches NodeId::Pane(
                p,
            ) ==> p.0 < w.next_pane_id) by {
                assert(w.child(i, k) == self.child(i, k));
            }
        }
        assert(w.links_forward()) by {
            reveal(StateView::links_forward);
            assert forall|i: int, k: int|
                0 <= i < w.splits.len() && 0 <= k < 2 implies (#[trigger] w.child(i, k) matches NodeId::Split(
                id,
            ) ==> exists|j: int| i < j < w.splits.len() && w.splits[j].0 == id) by {
                assert(w.child(i, k) == self.child(i, k));
            }
        }
        assert(w.refs_unique()) by {
            reveal(StateView::refs_unique);
            assert forall|i: int, k: int, j: int, l: int|
                0 <= i < w.splits.len() && 0 <= j < w.splits.len() && 0 <= k < 2 && 0 <= l < 2 && (i
                    != j || k != l) implies #[trigger] w.child(i, k) != #[trigger] w.child(j, l) by {
                assert(w.child(i, k) == self.child(i, k));
                assert(w.child(j, l) == self.child(j, l));
            }
            assert forall|i: int, k: int|
                0 <= i < w.splits.len() && 0 <= k < 2 implies w.root != Some(#[trigger] w.child(i, k)) by {
                assert(w.child(i, k) == self.child(i, k));
            }
        }
        assert(w.all_linked()) by {
            reveal(StateView::all_linked);
            assert forall|j: int| 0 <= j < w.splits.len() implies w.root == Some(
                NodeId::Split(w.splits[j].0),
            ) || exists|i: int| 0 <= i < j && #[trigger] w.holds(i, NodeId::Split(w.splits[j].0)) by {
                if w.root != Some(NodeId::Split(w.splits[j].0)) {
                    let i = choose|i: int|
                        0 <= i < j && #[trigger] self.holds(i, NodeId::Split(self.splits[j].0));
                    assert(w.holds(i, NodeId::Split(w.splits[j].0)));
                }
            }
        }
        assert(w.ratios_saved()) by {
            reveal(StateView::ratios_saved);
        }
        assert forall|n: NodeId| #[trigger] w.occurs(n) == self.occurs(n) by {
            if self.occurs(n) && self.root != Some(n) {
                let i = choose|i: int| self.holds(i, n);
                assert(w.holds(i, n));
            }
            if w.occurs(n) && w.root != Some(n) {
                let i = choose|i: int| w.holds(i, n);
                assert(self.holds(i, n));
            }
        }
        assert(w.layout_panes() =~= self.layout_panes());
    }

    /// Wrapping a pane of the tree into a new split, whose other child is an
    /// allocated pane outside the tree, keeps the tree well formed and adds
    /// that pane to it.
    pub proof fn lemma_wrapped(self, n: NodeId, sp: Split, m: PaneId)
        requires
            self.well_formed(),
            self.next_split_id < usize::MAX,
            n is Pane,
            self.occurs(n),
            m.0 < self.next_pane_id,
            !self.in_layout(m),
            (sp.first == n && sp.second == NodeId::Pane(m)) || (sp.first == NodeId::Pane(m)
                && sp.second == n),
            sp.collapse == CollapseState::Expanded ==> sp.ratio == sp.saved_ratio,
        ensures
            self.wrapped(n, sp).well_formed(),
            self.wrapped(n, sp).layout_panes() == self.layout_panes().insert(m),
    {
        self.lemma_refs_bounded();
        let id = SplitId(self.next_split_id as usize);
        let to = NodeId::Split(id);
        let mm = NodeId::Pane(m);
        let w = self.wrapped(n, sp);
        let len = self.splits.len() as int;
        assert(w.splits.len() == len + 1);
        assert forall|t: int, k: int| 0 <= t < len && 0 <= k < 2 implies #[trigger] w.child(t, k)
            == relink(self.child(t, k), n, to) && self.child(t, k) != to && self.child(t, k) != mm by {
            assert(w.splits[t] == (self.splits[t].0, relink_split(self.splits[t].1, n, to)));
            if self.child(t, k) == mm {
                assert(self.holds(t, mm));
            }
        }
        assert(w.child(len, 0) == sp.first && w.child(len, 1) == sp.second);
        assert(self.root != Some(mm));
        assert(self.root != Some(to));
        assert(w.panes_allocated()) by {
            reveal(StateView::panes_allocated);
        }
        assert(w.ids_fresh()) by {
            reveal(StateView::ids_fresh);
            assert forall|i: int, j: int| 0 <= i < j < w.splits.len() implies w.splits[i].0
                != w.splits[j].0 by {
                if j < len {
                    assert(w.splits[i].0 == self.splits[i].0);
                    assert(w.splits[j].0 == self.splits[j].0);
                } else {
                    assert(w.splits[i].0 == self.splits[i].0);
                }
            }
            assert forall|i: int| 0 <= i < w.splits.len() implies w.splits[i].0.0
                < w.next_split_id by {
                if i < len {
                    assert(w.splits[i].0 == self.splits[i].0);
                }
            }
        }
        assert(w.panes_known()) by {
            reveal(StateView::panes_known);
            assert forall|i: int, k: int| 0 <= i < w.splits.len() && 0 <= k < 2 implies (
            #[trigger] w.child(i, k) matches NodeId::Pane(p) ==> p.0 < w.next_pane_id) by {
                if i < len {
                    assert(w.child(i, k) == relink(self.child(i, k), n, to));
                } else {
                    if self.root != Some(n) {
                        let h = choose|h: int| self.holds(h, n);
                        assert(self.child(h, 0) == self.splits[h].1.first);
                        assert(self.child(h, 1) == self.splits[h].1.second);
                    }
                }
            }
        }
        assert(w.links_forward()) by {
            reveal(StateView::links_forward);
            assert forall|i: int, k: int| 0 <= i < w.splits.len() && 0 <= k < 2 implies (
            #[trigger] w.child(i, k) matches NodeId::Split(x) ==> exists|j: int|
                i < j < w.splits.len() && w.splits[j].0 == x) by {
                if i < len {
                    assert(w.child(i, k) == relink(self.child(i, k), n, to));
                    if self.child(i, k) == n {
                        assert(w.splits[len].0 == id);
                    } else if let NodeId::Split(x) = self.child(i, k) {
                        let j = choose|j: int| i < j < len && self.splits[j].0 == x;
                        assert(w.splits[j].0 == x);
                    }
                }
            }
            if let Some(NodeId::Split(x)) = w.root {
                if self.root == Some(n) {
                    assert(w.splits[len].0 == id);
                } else {
                    let j = choose|j: int| 0 <= j < len && self.splits[j].0 == x;
                    assert(w.splits[j].0 == x);
                }
            }
        }
        assert(w.all_linked()) by {
            reveal(StateView::all_linked);
            assert forall|j: int| 0 <= j < w.splits.len() implies w.root == Some(
                NodeId::Split(w.splits[j].0),
            ) || exists|i: int| 0 <= i < j && #[trigger] w.holds(i, NodeId::Split(w.splits[j].0)) by {
                if j < len {
                    let y = NodeId::Split(self.splits[j].0);
                    assert(w.splits[j].0 == self.splits[j].0);
                    if self.root != Some(y) {
                        let i = choose|i: int| 0 <= i < j && #[trigger] self.holds(i, y);
                        assert(self.child(i, 0) == self.splits[i].1.first);
                        assert(self.child(i, 1) == self.splits[i].1.second);
                        assert(w.child(i, 0) == w.splits[i].1.first);
                        assert(w.child(i, 1) == w.splits[i].1.second);
                        assert(w.holds(i, y));
                    }
                } else {
                    if self.root != Some(n) {
                        let h = choose|h: int| self.holds(h, n);
                        assert(self.child(h, 0) == self.splits[h].1.first);
                        assert(self.child(h, 1) == self.splits[h].1.second);
                        assert(w.child(h, 0) == w.splits[h].1.first);
                        assert(w.child(h, 1) == w.splits[h].1.second);
                        assert(w.holds(h, to));
                    }
                }
            }
        }
        assert(w.refs_unique()) by {
            reveal(StateView::refs_unique);
            assert forall|i: int, k: int, j: int, l: int|
                0 <= i < w.splits.len() && 0 <= j < w.splits.len() && 0 <= k < 2 && 0 <= l < 2 && (i
                    != j || k != l) implies #[trigger] w.child(i, k) != #[trigger] w.child(j, l) by {
                if i < len && j < len {
                    assert(self.child(i, k) != self.child(j, l));
                } else if i < len {
                    if self.child(i, k) == n {
                    } else {
                    }
                } else if j < len {
                } else {
                }
            }
            assert forall|i: int, k: int| 0 <= i < w.splits.len() && 0 <= k < 2 implies w.root
                != Some(#[trigger] w.child(i, k)) by {
                if i < len {
                    assert(self.root != Some(self.child(i, k)));
                }
            }
        }
        assert(w.ratios_saved()) by {
            reveal(StateView::ratios_saved);
            assert forall|i: int| 0 <= i < w.splits.len() && #[trigger] w.splits[i].1.collapse
                == CollapseState::Expanded implies w.splits[i].1.ratio == w.splits[i].1.saved_ratio by {
                if i < len {
                    assert(w.splits[i].1.ratio == self.splits[i].1.ratio);
                    assert(w.splits[i].1.saved_ratio == self.splits[i].1.saved_ratio);
                    assert(w.splits[i].1.collapse == self.splits[i].1.collapse);
                }
            }
        }
        assert forall|p: PaneId| #[trigger] w.in_layout(p) == (self.in_layout(p) || p == m) by {
            let pn = NodeId::Pane(p);
            if self.in_layout(p) {
                if pn == n {
                    assert(w.holds(len, n));
                } else if self.root != Some(pn) {
                    let h = choose|h: int| self.holds(h, pn);
                    assert(self.child(h, 0) == self.splits[h].1.first);
                    assert(self.child(h, 1) == self.splits[h].1.second);
                    assert(w.child(h, 0) == w.splits[h].1.first);
                    assert(w.child(h, 1) == w.splits[h].1.second);
                    assert(w.holds(h, pn));
                }
            }
            if p == m {
                assert(w.holds(len, mm));
            }
            if w.in_layout(p) && !(p == m) && pn != n {
                if w.root != Some(pn) {
                    let h = choose|h: int| w.holds(h, pn);
                    assert(w.child(h, 0) == w.splits[h].1.first);
                    assert(w.child(h, 1) == w.splits[h].1.second);
                    if h < len {
                        assert(self.child(h, 0) == self.splits[h].1.first);
                        assert(self.child(h, 1) == self.splits[h].1.second);
                        assert(self.holds(h, pn));
                    }
                }
            }
        }
        assert(w.layout_panes() =~= self.layout_panes().insert(m));
    }
}

/// The layout state: the tree of splits and panes plus the interaction state.
#[derive(Debug, Clone)]
pub struct State {
    panes: Vec<PaneId>,
    splits: Vec<(SplitId, Split)>,
    root: Option<NodeId>,
    next_pane_id: usize,
    next_split_id: usize,
    maximize: MaximizeState,
    dragging: Option<SplitId>,
    pane_drag: Option<PaneDrag>,
}

impl View for State {
    type V = StateView;

    closed spec fn view(&self) -> StateView {
        StateView {
            panes: self.panes@,
            splits: self.splits@,
            root: self.root,
            next_pane_id: self.next_pane_id as nat,
            next_split_id: self.next_split_id as nat,
            maximize: self.maximize,
            dragging: self.dragging,
            pane_drag: self.pane_drag,
        }
    }
}

impl State {
    /// The state is a well-formed layout tree.
    pub open spec fn wf(&self) -> bool {
        self@.well_formed()
    }

    pub fn new() -> (s: Self)
        ensures
            s.wf(),
            s@ == (StateView {
                panes: Seq::empty(),
                splits: Seq::empty(),
                root: None,
                next_pane_id: 0,
                next_split_id: 0,
                maximize: MaximizeState::Normal,
                dragging: None,
                pane_drag: None,
            }),
    {
        proof {
            reveal(StateView::panes_allocated);
            reveal(StateView::ids_fresh);
            reveal(StateView::panes_known);
            reveal(StateView::links_forward);
            reveal(StateView::all_linked);
            reveal(StateView::refs_unique);
            reveal(StateView::ratios_saved);
        }
        Self {
            panes: Vec::new(),
            splits: Vec::new(),
            root: None,
            next_pane_id: 0,
            next_split_id: 0,
            maximize: MaximizeState::Normal,
            dragging: None,
            pane_drag: None,
        }
    }

    pub fn with_initial_pane() -> (r: (Self, PaneId))
        ensures
            r.0.wf(),
            r.1 == PaneId(0),
            r.0@ == (StateView {
                panes: seq![PaneId(0)],
                splits: Seq::empty(),
                root: Some(NodeId::Pane(PaneId(0))),
                next_pane_id: 1,
                next_split_id: 0,
                maximize: MaximizeState::Normal,
                dragging: None,
                pane_drag: None,
            }),
    {
        let mut state = Self::new();
        let pane = state.alloc_pane();
        state.root = Some(NodeId::Pane(pane));
        proof {
            reveal(StateView::panes_allocated);
            reveal(StateView::ids_fresh);
            reveal(StateView::panes_known);
            reveal(StateView::links_forward);
            reveal(StateView::all_linked);
            reveal(StateView::refs_unique);
            reveal(StateView::ratios_saved);
        }
        (state, pane)
    }

    fn alloc_pane(&mut self) -> (id: PaneId)
        requires
            old(self).next_pane_id < usize::MAX,
        ensures
            id == PaneId(old(self)@.next_pane_id as usize),
            final(self)@ == old(self)@.pane_allocated(),
    {
        let id = PaneId(self.next_pane_id);
        self.next_pane_id += 1;
        self.panes.push(id);
        id
    }

    fn alloc_split(&mut self, split: Split) -> (id: SplitId)
        requires
            old(self).next_split_id < usize::MAX,
        ensures
            id == SplitId(old(self)@.next_split_id as usize),
            final(self)@ == (StateView {
                splits: old(self)@.splits.push((id, split)),
                next_split_id: old(self)@.next_split_id + 1,
                ..old(self)@
            }),
    {
        let id = SplitId(self.next_split_id);
        self.next_split_id += 1;
        self.splits.push((id, split));
        id
    }

    /// Replaces the first occurrence of `from` in the tree by `to`: at the
    /// root, or else in the first split that has it as a child (its first
    /// child when both are).
    fn replace_node(&mut self, from: NodeId, to: NodeId)
        ensures
            old(self)@.root == Some(from) ==> final(self)@ == (StateView {
                root: Some(to),
                ..old(self)@
            }),
            old(self)@.root != Some(from) ==> forall|i: int|
                #[trigger] holds_first(old(self)@.splits, from, i) ==> final(self)@ == (StateView {
                    splits: old(self)@.splits.update(
                        i,
                        (old(self)@.splits[i].0, relink_once(old(self)@.splits[i].1, from, to)),
                    ),
                    ..old(self)@
                }),
            old(self)@.root != Some(from) && (forall|i: int| !old(self)@.holds(i, from))
                ==> final(self)@ == old(self)@,
    {
        if self.root == Some(from) {
            self.root = Some(to);
            return;
        }
        let mut i: usize = 0;
        while i < self.splits.len()
            invariant
                i <= self.splits@.len(),
                self@ == old(self)@,
                old(self)@.root != Some(from),
                forall|j: int| 0 <= j < i ==> !has_child(#[trigger] self.splits@[j].1, from),
            decreases self.splits@.len() - i,
        {
            let (id, split) = self.splits[i];
            if split.first == from {
                assert(holds_first(old(self)@.splits, from, i as int));
                assert(old(self)@.holds(i as int, from));
                let ghost o = old(self)@;
                proof {
                    assert forall|h: int| #[trigger] holds_first(o.splits, from, h) implies h == i by {
                        if h < i {
                        } else if h > i {
                            assert(has_child(o.splits[i as int].1, from));
                        }
                    }
                }
                self.splits.set(i, (id, Split { first: to, ..split }));
                return;
            }
            if split.second == from {
                assert(holds_first(old(self)@.splits, from, i as int));
                assert(old(self)@.holds(i as int, from));
                let ghost o = old(self)@;
                proof {
                    assert forall|h: int| #[trigger] holds_first(o.splits, from, h) implies h == i by {
                        if h < i {
                        } else if h > i {
                            assert(has_child(o.splits[i as int].1, from));
                        }
                    }
                }
                self.splits.set(i, (id, Split { second: to, ..split }));
                return;
            }
            i += 1;
        }
        assert forall|j: int| !old(self)@.holds(j, from) by {
            if 0 <= j < self.splits@.len() {
                assert(!has_child(self.splits@[j].1, from));
            }
        }
    }

    /// Whether a pane and a split can still be allocated.
    pub fn can_allocate(&self) -> (r: bool)
        ensures
            r == (self@.next_pane_id < usize::MAX && self@.next_split_id < usize::MAX),
    {
        self.next_pane_id < usize::MAX && self.next_split_id < usize::MAX
    }

    /// Divides `pane` in two along `axis`: a new pane is allocated, and when
    /// `pane` is in the layout a new split takes its place, with `pane` as
    /// first and the new pane as second child, at ratio 0.5. Returns the new
    /// split and pane, or `None` (with the new pane allocated but not placed)
    /// when `pane` is not in the layout.
    pub fn split(&mut self, axis: Axis, pane: PaneId) -> (r: Option<(SplitId, PaneId)>)
        requires
            old(self).wf(),
            old(self)@.next_pane_id < usize::MAX,
            old(self)@.in_layout(pane) ==> old(self)@.next_split_id < usize::MAX,
        ensures
            final(self).wf(),
            final(self)@ == old(self)@.after_split(axis, pane),
            r == (if old(self)@.in_layout(pane) {
                Some(
                    (
                        SplitId(old(self)@.next_split_id as usize),
                        PaneId(old(self)@.next_pane_id as usize),
                    ),
                )
            } else {
                None
            }),
            final(self)@.layout_panes() == (if old(self)@.in_layout(pane) {
                old(self)@.layout_panes().insert(PaneId(old(self)@.next_pane_id as usize))
            } else {
                old(self)@.layout_panes()
            }),
    {
        let ghost o = self@;
        proof {
            o.lemma_pane_allocated();
        }
        let new_pane = self.alloc_pane();
        let ghost o1 = self@;
        assert(o1.occurs(NodeId::Pane(pane)) == o.occurs(NodeId::Pane(pane)));
        let node = self.find_node(NodeId::Pane(pane))?;

        let split = Split {
            axis,
            ratio: RATIO_HALF,
            saved_ratio: RATIO_HALF,
            collapse: CollapseState::Expanded,
            first: NodeId::Pane(pane),
            second: NodeId::Pane(new_pane),
        };
        proof {
            o1.lemma_wrapped(node, split, new_pane);
        }

        let split_id = self.place_split(node, split);
        Some((split_id, new_pane))
    }

    /// The split with identifier `id`.
    pub fn get_split(&self, id: SplitId) -> (r: Option<&Split>)
        requires
            self.wf(),
        ensures
            match r {
                Some(sp) => self@.split_of(id) == Some(*sp),
                None => self@.split_of(id) is None,
            },
    {
        let mut i: usize = 0;
        while i < self.splits.len()
            invariant
                i <= self.splits@.len(),
                self.wf(),
                forall|j: int| 0 <= j < i ==> (#[trigger] self.splits@[j]).0 != id,
            decreases self.splits@.len() - i,
        {
            if self.splits[i].0 == id {
                proof {
                    self@.lemma_index_of(id, i as int);
                }
                return Some(&self.splits[i].1);
            }
            i += 1;
        }
        None
    }

    /// The split with identifier `id`, to be changed in place.
    pub fn get_split_mut(&mut self, id: SplitId) -> (r: Option<&mut Split>)
        requires
            old(self).wf(),
        ensures
            match r {
                Some(sp) => {
                    &&& old(self)@.has_split(id)
                    &&& *sp == old(self)@.splits[old(self)@.index_of(id)].1
                    &&& final(self)@ == (StateView {
                        splits: old(self)@.splits.update(old(self)@.index_of(id), (id, *final(sp))),
                        ..old(self)@
                    })
                },
                None => !old(self)@.has_split(id) && final(self)@ == old(self)@,
            },
    {
        let mut i: usize = 0;
        while i < self.splits.len()
            invariant
                i <= self.splits@.len(),
                self@ == old(self)@,
                old(self).wf(),
                forall|j: int| 0 <= j < i ==> (#[trigger] self.splits@[j]).0 != id,
            decreases self.splits@.len() - i,
        {
            if self.splits[i].0 == id {
                proof {
                    old(self)@.lemma_index_of(id, i as int);
                }
                let r = &mut self.splits[i].1;
                return Some(r);
            }
            i += 1;
        }
        None
    }

    /// The root of the layout tree.
    pub fn root(&self) -> (r: Option<NodeId>)
        ensures
            r == self@.root,
    {
        self.root
    }

    /// Every pane allocated so far, in order of allocation.
    pub fn panes(&self) -> (r: &[PaneId])
        ensures
            r@ == self@.panes,
    {
        self.panes.as_slice()
    }

    pub fn maximize(&self) -> (r: MaximizeState)
        ensures
            r == self@.maximize,
    {
        self.maximize
    }

    /// Maximizes `pane`, or restores the layout when `pane` is maximized.
    pub fn toggle_maximize(&mut self, pane: PaneId)
        ensures
            final(self)@ == (StateView { maximize: toggled(old(self)@.maximize, pane), ..old(self)@ }),
            final(self).wf() == old(self).wf(),
    {
        self.maximize = match self.maximize {
            MaximizeState::Maximized(p) if p == pane => MaximizeState::Normal,
            _ => MaximizeState::Maximized(pane),
        };
        proof {
            old(self)@.lemma_wf_tree_only(self@);
        }
    }

    pub fn restore_maximize(&mut self)
        ensures
            final(self)@ == (StateView { maximize: MaximizeState::Normal, ..old(self)@ }),
            final(self).wf() == old(self).wf(),
    {
        self.maximize = MaximizeState::Normal;
        proof {
            old(self)@.lemma_wf_tree_only(self@);
        }
    }

    /// Collapses the first child of split `split_id`, if there is such a split.
    pub fn collapse_first(&mut self, split_id: SplitId)
        requires
            old(self).wf(),
        ensures
            final(self).wf(),
            final(self)@ == old(self)@.updated_split(
                split_id,
                collapsed_first(old(self)@.split_of(split_id).unwrap()),
            ),
    {
        proof {
            if old(self)@.has_split(split_id) {
                old(self)@.lemma_updated_split(
                    split_id,
                    collapsed_first(old(self)@.split_of(split_id).unwrap()),
                );
            }
        }
        if let Some(split) = self.get_split_mut(split_id) {
            if split.collapse == CollapseState::Expanded {
                split.saved_ratio = split.ratio;
            }
            split.collapse = CollapseState::FirstCollapsed;
            split.ratio = RATIO_ZERO;
        }
        assert(self@ =~= old(self)@.updated_split(
            split_id,
            collapsed_first(old(self)@.split_of(split_id).unwrap()),
        ));
    }

    /// Collapses the second child of split `split_id`, if there is such a split.
    pub fn collapse_second(&mut self, split_id: SplitId)
        requires
            old(self).wf(),
        ensures
            final(self).wf(),
            final(self)@ == old(self)@.updated_split(
                split_id,
                collapsed_second(old(self)@.split_of(split_id).unwrap()),
            ),
    {
        proof {
            if old(self)@.has_split(split_id) {
                old(self)@.lemma_updated_split(
                    split_id,
                    collapsed_second(old(self)@.split_of(split_id).unwrap()),
                );
            }
        }
        if let Some(split) = self.get_split_mut(split_id) {
            if split.collapse == CollapseState::Expanded {
                split.saved_ratio = split.ratio;
            }
            split.collapse = CollapseState::SecondCollapsed;
            split.ratio = RATIO_ONE;
        }
        assert(self@ =~= old(self)@.updated_split(
            split_id,
            collapsed_second(old(self)@.split_of(split_id).unwrap()),
        ));
    }

    /// Expands split `split_id` to its saved ratio, if there is such a split.
    pub fn expand(&mut self, split_id: SplitId)
        requires
            old(self).wf(),
        ensures
            final(self).wf(),
            final(self)@ == old(self)@.updated_split(
                split_id,
                expanded(old(self)@.split_of(split_id).unwrap()),
            ),
    {
        proof {
            if old(self)@.has_split(split_id) {
                old(self)@.lemma_updated_split(
                    split_id,
                    expanded(old(self)@.split_of(split_id).unwrap()),
                );
            }
        }
        if let Some(split) = self.get_split_mut(split_id) {
            split.ratio = split.saved_ratio;
            split.collapse = CollapseState::Expanded;
        }
        assert(self@ =~= old(self)@.updated_split(
            split_id,
            expanded(old(self)@.split_of(split_id).unwrap()),
        ));
    }

    pub fn set_dragging(&mut self, split: Option<SplitId>)
        ensures
            final(self)@ == (StateView { dragging: split, ..old(self)@ }),
            final(self).wf() == old(self).wf(),
    {
        self.dragging = split;
        proof {
            old(self)@.lemma_wf_tree_only(self@);
        }
    }

    pub fn dragging(&self) -> (r: Option<SplitId>)
        ensures
            r == self@.dragging,
    {
        self.dragging
    }

    /// Sets the ratio of split `split_id`, clamped to 0.05 ..= 0.95, when it is
    /// expanded; a collapsed split is left as it is.
    pub fn resize(&mut self, split_id: SplitId, ratio: u32)
        requires
            old(self).wf(),
        ensures
            final(self).wf(),
            final(self)@ == old(self)@.updated_split(
                split_id,
                resized(old(self)@.split_of(split_id).unwrap(), ratio),
            ),
    {
        proof {
            if old(self)@.has_split(split_id) {
                old(self)@.lemma_updated_split(
                    split_id,
                    resized(old(self)@.split_of(split_id).unwrap(), ratio),
                );
            }
        }
        if let Some(split) = self.get_split_mut(split_id) {
            if split.collapse == CollapseState::Expanded {
                split.ratio = clamp_ratio(ratio);
                split.saved_ratio = split.ratio;
            }
        }
        assert(self@ =~= old(self)@.updated_split(
            split_id,
            resized(old(self)@.split_of(split_id).unwrap(), ratio),
        ));
    }

    /// Takes pane `pane` out of the layout tree: the split that holds it is
    /// removed and its other child takes the split's place. Returns whether
    /// it did; a pane that is the root, or not in the tree, stays as it is.
    pub fn detach_pane(&mut self, pane: PaneId) -> (r: bool)
        requires
            old(self).wf(),
        ensures
            final(self).wf(),
            r == old(self)@.detachable(pane),
            final(self)@ == old(self)@.detached(pane),
            final(self)@.layout_panes() == (if r {
                old(self)@.layout_panes().remove(pane)
            } else {
                old(self)@.layout_panes()
            }),
    {
        let target = NodeId::Pane(pane);
        if self.root == Some(target) {
            return false;
        }
        let mut i: usize = 0;
        while i < self.splits.len()
            invariant
                i <= self.splits@.len(),
                self@ == old(self)@,
                old(self).wf(),
                target == NodeId::Pane(pane),
                self.root != Some(target),
                forall|j: int| 0 <= j < i ==> !#[trigger] self@.holds(j, target),
            decreases self.splits@.len() - i,
        {
            let (sid, split) = self.splits[i];
            if split.first == target || split.second == target {
                let sibling = if split.first == target {
                    split.second
                } else {
                    split.first
                };
                let ghost o = self@;
                let ghost pp = NodeId::Split(sid);
                proof {
                    assert(o.holds(i as int, target));
                    assert(o.in_layout(pane));
                    o.lemma_unique_holder(target, i as int, o.holder(target));
                    o.lemma_detached(pane);
                    o.lemma_detach_facts(pane);
                }
                self.splits.remove(i);
                let ghost o2 = self@;
                proof {
                    let rr = o.splits.remove(i as int);
                    assert(o2.splits == rr);
                    if o.root == Some(pp) {
                        assert forall|t: int| 0 <= t < rr.len() implies !has_child(
                            #[trigger] rr[t].1,
                            pp,
                        ) by {
                            assert(rr[t] == o.splits[skip(t, i as int)]);
                            assert(o.child(skip(t, i as int), 0) == rr[t].1.first);
                            assert(o.child(skip(t, i as int), 1) == rr[t].1.second);
                            reveal(StateView::refs_unique);
                            assert(o.root != Some(o.child(skip(t, i as int), 0)));
                            assert(o.root != Some(o.child(skip(t, i as int), 1)));
                        }
                        lemma_relink_absent(rr, pp, sibling);
                    } else {
                        let g = choose|g: int| 0 <= g < i && #[trigger] o.holds(g, pp);
                        lemma_relink_single(o, pp, sibling, g);
                        let x = (o.splits[g].0, relink_once(o.splits[g].1, pp, sibling));
                        assert(relink_splits(rr, pp, sibling) =~= rr.update(g, x)) by {
                            assert forall|t: int| 0 <= t < rr.len() implies relink_splits(
                                rr,
                                pp,
                                sibling,
                            )[t] == rr.update(g, x)[t] by {
                                assert(rr[t] == o.splits[skip(t, i as int)]);
                                assert(relink_splits(o.splits, pp, sibling)[skip(t, i as int)]
                                    == o.splits.update(g, x)[skip(t, i as int)]);
                            }
                        }
                        assert(holds_first(rr, pp, g)) by {
                            assert forall|j: int| 0 <= j < g implies !has_child(#[trigger] rr[j].1, pp) by {
                                assert(rr[j] == o.splits[j]);
                                assert(!has_child(o.splits[j].1, pp));
                            }
                            assert(rr[g] == o.splits[g]);
                        }
                    }
                }
                self.replace_node(NodeId::Split(sid), sibling);
                assert(self@ =~= o.detached(pane));
                return true;
            }
            i += 1;
        }
        proof {
            assert forall|j: int| !old(self)@.holds(j, target) by {
                if 0 <= j < self.splits@.len() {
                    assert(!self@.holds(j, target));
                }
            }
        }
        false
    }

    /// Puts the new split `split`, which has `node` as a child, in the place
    /// of `node` in the tree.
    fn place_split(&mut self, node: NodeId, split: Split) -> (id: SplitId)
        requires
            old(self).wf(),
            old(self)@.occurs(node),
            old(self)@.next_split_id < usize::MAX,
            has_child(split, node),
        ensures
            id == SplitId(old(self)@.next_split_id as usize),
            final(self)@ == old(self)@.wrapped(node, split),
    {
        let ghost o1 = self@;
        let split_id = self.alloc_split(split);
        let split_node = NodeId::Split(split_id);
        let ghost o2 = self@;

        if self.root == Some(node) {
            proof {
                reveal(StateView::refs_unique);
                assert forall|i: int| 0 <= i < o1.splits.len() implies !has_child(
                    #[trigger] o1.splits[i].1,
                    node,
                ) by {
                    assert(o1.child(i, 0) == o1.splits[i].1.first);
                    assert(o1.child(i, 1) == o1.splits[i].1.second);
                }
                lemma_relink_absent(o1.splits, node, split_node);
            }
            self.root = Some(split_node);
            assert(self@ =~= o1.wrapped(node, split));
        } else {
            let ghost h = o1.holder(node);
            proof {
                reveal(StateView::refs_unique);
                lemma_relink_single(o1, node, split_node, h);
                assert(holds_first(o2.splits, node, h)) by {
                    assert forall|j: int| 0 <= j < h implies !has_child(#[trigger] o2.splits[j].1, node) by {
                        assert(o2.splits[j] == o1.splits[j]);
                        assert(!has_child(o1.splits[j].1, node));
                    }
                }
            }
            self.replace_node(node, split_node);
            assert(self@.splits =~= o1.wrapped(node, split).splits);
            assert(self@ =~= o1.wrapped(node, split));
        }
        split_id
    }

    /// Places pane `source` beside pane `dest` along `axis`: a new split, at
    /// ratio 0.5, takes the place of `dest` and holds `source` (first when
    /// `source_first` holds) and `dest`. This is done only when `source` is
    /// an allocated pane outside the tree and `dest` is in the tree; the new
    /// split is returned, or `None` when nothing was done.
    pub fn insert_by_split(&mut self, source: PaneId, dest: PaneId, axis: Axis, source_first: bool) -> (r:
        Option<SplitId>)
        requires
            old(self).wf(),
            old(self)@.insertable(source, dest) ==> old(self)@.next_split_id < usize::MAX,
        ensures
            final(self).wf(),
            final(self)@ == old(self)@.inserted(source, dest, axis, source_first),
            r == (if old(self)@.insertable(source, dest) {
                Some(SplitId(old(self)@.next_split_id as usize))
            } else {
                None
            }),
            final(self)@.layout_panes() == (if old(self)@.insertable(source, dest) {
                old(self)@.layout_panes().insert(source)
            } else {
                old(self)@.layout_panes()
            }),
    {
        if source.0 >= self.next_pane_id {
            return None;
        }
        if self.find_node(NodeId::Pane(source)).is_some() {
            return None;
        }
        let node = match self.find_node(NodeId::Pane(dest)) {
            Some(node) => node,
            None => return None,
        };
        let split = if source_first {
            Split {
                axis,
                ratio: RATIO_HALF,
                saved_ratio: RATIO_HALF,
                collapse: CollapseState::Expanded,
                first: NodeId::Pane(source),
                second: NodeId::Pane(dest),
            }
        } else {
            Split {
                axis,
                ratio: RATIO_HALF,
                saved_ratio: RATIO_HALF,
                collapse: CollapseState::Expanded,
                first: NodeId::Pane(dest),
                second: NodeId::Pane(source),
            }
        };
        proof {
            self@.lemma_wrapped(node, split, source);
        }
        let id = self.place_split(node, split);
        Some(id)
    }

    /// Exchanges panes `a` and `b` in the tree, when they differ and both
    /// are in it.
    pub fn swap_panes(&mut self, a: PaneId, b: PaneId)
        requires
            old(self).wf(),
        ensures
            final(self).wf(),
            final(self)@ == old(self)@.swapped(a, b),
            final(self)@.layout_panes() == old(self)@.layout_panes(),
    {
        if a == b || self.find_node(NodeId::Pane(a)).is_none() || self.find_node(
            NodeId::Pane(b),
        ).is_none() {
            return;
        }
        proof {
            self@.lemma_swapped(a, b);
        }
        let ghost o = self@;
        if let Some(n) = self.root {
            self.root = Some(swapped_node(n, a, b));
        }
        let mut i: usize = 0;
        while i < self.splits.len()
            invariant
                i <= self.splits@.len(),
                self.splits@.len() == o.splits.len(),
                self.root == o.swapped(a, b).root,
                self@.panes == o.panes,
                self@.next_pane_id == o.next_pane_id,
                self@.next_split_id == o.next_split_id,
                self@.maximize == o.maximize,
                self@.dragging == o.dragging,
                self@.pane_drag == o.pane_drag,
                o.swappable(a, b),
                forall|j: int| 0 <= j < i ==> #[trigger] self.splits@[j] == (o.splits[j].0, swap_split(o.splits[j].1, a, b)),
                forall|j: int| i <= j < self.splits@.len() ==> #[trigger] self.splits@[j] == o.splits[j],
            decreases self.splits@.len() - i,
        {
            let (id, split) = self.splits[i];
            let swapped = Split {
                first: swapped_node(split.first, a, b),
                second: swapped_node(split.second, a, b),
                ..split
            };
            self.splits.set(i, (id, swapped));
            i += 1;
        }
        assert(self@ =~= o.swapped(a, b));
    }

    /// The pane being dragged, if any.
    pub fn pane_dragging(&self) -> (r: Option<PaneDrag>)
        ensures
            r == self@.pane_drag,
    {
        self.pane_drag
    }

    /// Starts dragging a pane.
    pub fn set_pane_dragging(&mut self, drag: PaneDrag)
        ensures
            final(self)@ == (StateView { pane_drag: Some(drag), ..old(self)@ }),
            final(self).wf() == old(self).wf(),
    {
        self.pane_drag = Some(drag);
        proof {
            old(self)@.lemma_wf_tree_only(self@);
        }
    }

    /// Moves the current position of the pane being dragged, if any.
    pub fn update_pane_drag_position(&mut self, pos: Point)
        ensures
            final(self)@ == (StateView {
                pane_drag: match old(self)@.pane_drag {
                    Some(d) => Some(PaneDrag { current: pos, ..d }),
                    None => None,
                },
                ..old(self)@
            }),
            final(self).wf() == old(self).wf(),
    {
        if let Some(drag) = self.pane_drag {
            self.pane_drag = Some(PaneDrag { current: pos, ..drag });
        }
        proof {
            old(self)@.lemma_wf_tree_only(self@);
        }
    }

    /// Ends any pane drag.
    pub fn clear_pane_dragging(&mut self)
        ensures
            final(self)@ == (StateView { pane_drag: None, ..old(self)@ }),
            final(self).wf() == old(self).wf(),
    {
        self.pane_drag = None;
        proof {
            old(self)@.lemma_wf_tree_only(self@);
        }
    }

    /// `Some(target)` when `target` is part of the layout tree.
    fn find_node(&self, target: NodeId) -> (r: Option<NodeId>)
        ensures
            r == (if self@.occurs(target) {
                Some(target)
            } else {
                None
            }),
    {
        if self.root == Some(target) {
            return Some(target);
        }
        let mut i: usize = 0;
        while i < self.splits.len()
            invariant
                i <= self.splits@.len(),
                forall|j: int| 0 <= j < i ==> !self@.holds(j, target),
            decreases self.splits@.len() - i,
        {
            let split = self.splits[i].1;
            if split.first == target || split.second == target {
                assert(self@.holds(i as int, target));
                return Some(target);
            }
            i += 1;
        }
        None
    }
}

} // verus!
