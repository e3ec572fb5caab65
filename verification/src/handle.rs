use vstd::prelude::*;

use crate::state::{Axis, CollapseState, SplitId};

verus! {

/// What a click on one of the arrows of a split handle asks for.
#[derive(Debug, Clone, Copy, PartialEq, Eq, Structural)]
pub enum HandleAction {
    CollapseFirst(SplitId),
    CollapseSecond(SplitId),
    Expand(SplitId),
}

/// The action of a click on the handle of split `split_id`, given whether
/// the click falls in its first and in its second arrow zone: the first
/// arrow collapses the first side, or expands it again when it is the
/// collapsed one; the second arrow does the same for the second side. The
/// first arrow wins when the click is in both.
pub open spec fn arrow_action(
    split_id: SplitId,
    collapse: CollapseState,
    in_first_arrow: bool,
    in_second_arrow: bool,
) -> Option<HandleAction> {
    if in_first_arrow {
        Some(
            if collapse == CollapseState::FirstCollapsed {
                HandleAction::Expand(split_id)
            } else {
                HandleAction::CollapseFirst(split_id)
            },
        )
    } else if in_second_arrow {
        Some(
            if collapse == CollapseState::SecondCollapsed {
                HandleAction::Expand(split_id)
            } else {
                HandleAction::CollapseSecond(split_id)
            },
        )
    } else {
        None
    }
}

/// Decides what a click on the handle of split `split_id` does; the caller
/// tells whether the click point lies in each arrow zone.
pub fn hit_action(
    split_id: SplitId,
    collapse: CollapseState,
    in_first_arrow: bool,
    in_second_arrow: bool,
) -> (r: Option<HandleAction>)
    ensures
        r == arrow_action(split_id, collapse, in_first_arrow, in_second_arrow),
{
    if in_first_arrow {
        return Some(
            match collapse {
                CollapseState::FirstCollapsed => HandleAction::Expand(split_id),
                _ => HandleAction::CollapseFirst(split_id),
            },
        );
    }
    if in_second_arrow {
        return Some(
            match collapse {
                CollapseState::SecondCollapsed => HandleAction::Expand(split_id),
                _ => HandleAction::CollapseSecond(split_id),
            },
        );
    }
    None
}

/// The arrow characters drawn on a handle: each points toward its side,
/// or away from it when that side is the collapsed one.
pub open spec fn glyphs(axis: Axis, collapse: CollapseState) -> (Seq<char>, Seq<char>) {
    match axis {
        Axis::Horizontal => (
            if collapse == CollapseState::FirstCollapsed {
                "▶"@
            } else {
                "◀"@
            },
            if collapse == CollapseState::SecondCollapsed {
                "◀"@
            } else {
                "▶"@
            },
        ),
        Axis::Vertical => (
            if collapse == CollapseState::FirstCollapsed {
                "▼"@
            } else {
                "▲"@
            },
            if collapse == CollapseState::SecondCollapsed {
                "▲"@
            } else {
                "▼"@
            },
        ),
    }
}

/// Picks the arrow characters of a handle from its axis and collapse state.
pub fn arrow_glyphs(axis: Axis, collapse: CollapseState) -> (r: (&'static str, &'static str))
    ensures
        (r.0@, r.1@) == glyphs(axis, collapse),
{
    match axis {
        Axis::Horizontal => {
            // A vertical bar: the first arrow collapses left, the second right.
            let first = match collapse {
                CollapseState::FirstCollapsed => "▶",
                _ => "◀",
            };
            let second = match collapse {
                CollapseState::SecondCollapsed => "◀",
                _ => "▶",
            };
            (first, second)
        },
        Axis::Vertical => {
            // A horizontal bar: the first arrow collapses up, the second down.
            let first = match collapse {
                CollapseState::FirstCollapsed => "▼",
                _ => "▲",
            };
            let second = match collapse {
                CollapseState::SecondCollapsed => "▲",
                _ => "▼",
            };
            (first, second)
        },
    }
}

/// A click in the first arrow zone works on the first side whatever the
/// second zone says: it expands the split when the first side is the
/// collapsed one and collapses the first side otherwise (an expanded split,
/// or one whose second side is collapsed). A click in the second zone only
/// does the same for the second side; a click in neither does nothing.
pub proof fn law_arrow_clicks(id: SplitId, collapse: CollapseState, in_second_arrow: bool)
    ensures
        arrow_action(id, CollapseState::FirstCollapsed, true, in_second_arrow) == Some(
            HandleAction::Expand(id),
        ),
        arrow_action(id, CollapseState::Expanded, true, in_second_arrow) == Some(
            HandleAction::CollapseFirst(id),
        ),
        arrow_action(id, CollapseState::SecondCollapsed, true, in_second_arrow) == Some(
            HandleAction::CollapseFirst(id),
        ),
        arrow_action(id, CollapseState::SecondCollapsed, false, true) == Some(
            HandleAction::Expand(id),
        ),
        arrow_action(id, CollapseState::Expanded, false, true) == Some(
            HandleAction::CollapseSecond(id),
        ),
        arrow_action(id, CollapseState::FirstCollapsed, false, true) == Some(
            HandleAction::CollapseSecond(id),
        ),
        arrow_action(id, collapse, false, false) is None,
{
}

/// The glyphs, case by case: on a vertical bar (a horizontal split) the
/// arrows point left and right, on a horizontal bar up and down; each points
/// toward its side, and turns around when its side is the collapsed one.
pub proof fn law_glyph_values()
    ensures
        glyphs(Axis::Horizontal, CollapseState::Expanded) == ("◀"@, "▶"@),
        glyphs(Axis::Horizontal, CollapseState::FirstCollapsed) == ("▶"@, "▶"@),
        glyphs(Axis::Horizontal, CollapseState::SecondCollapsed) == ("◀"@, "◀"@),
        glyphs(Axis::Vertical, CollapseState::Expanded) == ("▲"@, "▼"@),
        glyphs(Axis::Vertical, CollapseState::FirstCollapsed) == ("▼"@, "▼"@),
        glyphs(Axis::Vertical, CollapseState::SecondCollapsed) == ("▲"@, "▲"@),
{
}

} // verus!
