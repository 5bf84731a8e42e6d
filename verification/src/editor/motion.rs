//! Moving the head of a selection.

use vstd::prelude::*;

use crate::state::Selection;

verus! {

/// Which row a caret belongs to that stands where a line is wrapped.
#[derive(Debug, Clone, Copy, PartialEq, Eq, Structural)]
pub enum WrapAffinity {
    /// The start of the lower row.
    Downstream,
    /// The end of the upper row.
    Upstream,
}

/// The selection after its head moved to `head`. Extending keeps the anchor,
/// and leaves a caret where the two meet.
pub open spec fn head_moved(selection: Selection, head: usize, extending: bool) -> Selection {
    if extending && selection.anchor_offset() != head {
        Selection::Range { anchor: selection.anchor_offset(), head }
    } else {
        Selection::Cursor(head)
    }
}

/// The selection after its head moved to `head`.
pub fn move_head(selection: Selection, head: usize, extending: bool) -> (next: Selection)
    ensures
        next == head_moved(selection, head, extending),
{
    if extending && selection.anchor() != head {
        Selection::range(selection.anchor(), head)
    } else {
        Selection::cursor(head)
    }
}

/// The affinity of a caret that moved to the start or the end of its row.
pub fn line_bound_affinity(to_end: bool) -> (affinity: WrapAffinity)
    ensures
        affinity == if to_end {
            WrapAffinity::Upstream
        } else {
            WrapAffinity::Downstream
        },
{
    if to_end {
        WrapAffinity::Upstream
    } else {
        WrapAffinity::Downstream
    }
}

/// The affinity of a caret that moved to `row`, where the text that it stands
/// at would be drawn on `upper_row` otherwise.
pub fn landing_affinity(upper_row: i64, row: i64) -> (affinity: WrapAffinity)
    ensures
        affinity == if upper_row < row {
            WrapAffinity::Downstream
        } else {
            WrapAffinity::Upstream
        },
{
    if upper_row < row {
        WrapAffinity::Downstream
    } else {
        WrapAffinity::Upstream
    }
}

// ---------------------------------------------------------------------------
// Laws
// ---------------------------------------------------------------------------

/// Extending keeps the anchor and brings the head where it was to go; moving
/// selects nothing.
pub proof fn extending_keeps_the_anchor(selection: Selection, head: usize)
    ensures
        head_moved(selection, head, true).anchor_offset() == selection.anchor_offset(),
        head_moved(selection, head, true).head_offset() == head,
        head_moved(selection, head, false) == Selection::Cursor(head),
{
}

} // verus!
