//! Keeping the selection off the inside of embed blocks.

use vstd::prelude::*;

use crate::analysis::positions::{
    document_start_is_allowed, forbidden, indent_interior, is_forbidden_position,
    is_list_indent_interior,
};
use crate::embed::{block_around, blocks_of, embed_interior_at, EmbedMap};
use crate::state::Selection;
use crate::text::bytes_of;

verus! {

/// May the caret not stand at `p`, given the mapped embeds?
pub open spec fn barred(text: Seq<char>, embeds: Map<u64, String>, p: int) -> bool {
    forbidden(text, p) || block_around(blocks_of(text, embeds), p as usize) is Some
}

/// The first position at or after `p` where the caret may stand.
pub open spec fn next_open(text: Seq<char>, embeds: Map<u64, String>, p: int) -> int
    decreases bytes_of(text).len() - p,
{
    if p >= bytes_of(text).len() || !barred(text, embeds, p) {
        p
    } else {
        next_open(text, embeds, p + 1)
    }
}

/// The last position at or before `p` where the caret may stand.
pub open spec fn prev_open(text: Seq<char>, embeds: Map<u64, String>, p: int) -> int
    decreases p,
{
    if p <= 0 || !barred(text, embeds, p) {
        p
    } else {
        prev_open(text, embeds, p - 1)
    }
}

/// The closest position where the caret may stand, the one ahead winning ties.
/// From hidden list indent it is the one ahead, where there is one.
pub open spec fn nearest_open(text: Seq<char>, embeds: Map<u64, String>, p: int) -> int {
    let next = next_open(text, embeds, p);
    let prev = prev_open(text, embeds, p);
    if !barred(text, embeds, p) {
        p
    } else if indent_interior(text, p) && !barred(text, embeds, next) {
        next
    } else if barred(text, embeds, next) {
        prev
    } else if next - p <= p - prev {
        next
    } else {
        prev
    }
}

proof fn lemma_next_open(text: Seq<char>, embeds: Map<u64, String>, p: int)
    ensures
        p <= next_open(text, embeds, p),
        p <= bytes_of(text).len() ==> next_open(text, embeds, p) <= bytes_of(text).len(),
    decreases bytes_of(text).len() - p,
{
    if p < bytes_of(text).len() && barred(text, embeds, p) {
        lemma_next_open(text, embeds, p + 1);
    }
}

proof fn lemma_block_around(blocks: Seq<crate::embed::EmbedBlock>)
    ensures
        block_around(blocks, 0) is None,
    decreases blocks.len(),
{
    if blocks.len() > 0 {
        lemma_block_around(blocks.drop_first());
    }
}

proof fn lemma_prev_open(text: Seq<char>, embeds: Map<u64, String>, p: int)
    requires
        0 <= p,
    ensures
        0 <= prev_open(text, embeds, p) <= p,
        !barred(text, embeds, prev_open(text, embeds, p)),
    decreases p,
{
    document_start_is_allowed(text);
    lemma_block_around(blocks_of(text, embeds));
    if p > 0 && barred(text, embeds, p) {
        lemma_prev_open(text, embeds, p - 1);
    }
}

fn is_barred(markdown: &str, embeds: &EmbedMap, p: usize) -> (found: bool)
    requires
        p <= bytes_of(markdown@).len(),
    ensures
        found == barred(markdown@, embeds@, p as int),
{
    is_forbidden_position(markdown, p) || embed_interior_at(markdown, embeds, p).is_some()
}

/// Snaps `p` to the closest position where the caret may stand.
pub fn nearest_allowed_position_with(markdown: &str, embeds: &EmbedMap, p: usize) -> (nearest:
    usize)
    requires
        p <= bytes_of(markdown@).len(),
    ensures
        nearest == nearest_open(markdown@, embeds@, p as int),
        nearest <= bytes_of(markdown@).len(),
{
    if !is_barred(markdown, embeds, p) {
        return p;
    }
    proof {
        lemma_next_open(markdown@, embeds@, p as int);
        lemma_prev_open(markdown@, embeds@, p as int);
    }
    let size: usize = markdown.as_bytes().len();
    let mut next: usize = p;
    while next < size && is_barred(markdown, embeds, next)
        invariant
            size == bytes_of(markdown@).len(),
            next <= size,
            next_open(markdown@, embeds@, p as int) == next_open(
                markdown@,
                embeds@,
                next as int,
            ),
        decreases size - next,
    {
        next = next + 1;
    }
    let next_ok = !is_barred(markdown, embeds, next);
    if is_list_indent_interior(markdown, p) && next_ok {
        return next;
    }
    let mut prev: usize = p;
    while prev > 0 && is_barred(markdown, embeds, prev)
        invariant
            prev <= p <= bytes_of(markdown@).len(),
            prev_open(markdown@, embeds@, p as int) == prev_open(
                markdown@,
                embeds@,
                prev as int,
            ),
        decreases prev,
    {
        prev = prev - 1;
    }
    if next_ok && next - p <= p - prev {
        next
    } else {
        prev
    }
}

/// The selection with both ends where the caret may stand; ends that meet leave
/// a caret.
pub open spec fn snapped(text: Seq<char>, embeds: Map<u64, String>, selection: Selection) -> Selection {
    match selection {
        Selection::Cursor(p) => Selection::Cursor(nearest_open(text, embeds, p as int) as usize),
        Selection::Range { anchor, head } => {
            let a = nearest_open(text, embeds, anchor as int) as usize;
            let h = nearest_open(text, embeds, head as int) as usize;
            if a == h {
                Selection::Cursor(h)
            } else {
                Selection::Range { anchor: a, head: h }
            }
        },
    }
}

/// Moves the selection to where the caret may stand, after the embeds changed.
pub fn snap_selection(markdown: &str, embeds: &EmbedMap, selection: Selection) -> (next: Selection)
    requires
        selection.high() <= bytes_of(markdown@).len(),
    ensures
        next == snapped(markdown@, embeds@, selection),
{
    match selection {
        Selection::Cursor(p) => Selection::Cursor(
            nearest_allowed_position_with(markdown, embeds, p),
        ),
        Selection::Range { anchor, head } => {
            let a = nearest_allowed_position_with(markdown, embeds, anchor);
            let h = nearest_allowed_position_with(markdown, embeds, head);
            if a == h {
                Selection::Cursor(h)
            } else {
                Selection::Range { anchor: a, head: h }
            }
        },
    }
}

// ---------------------------------------------------------------------------
// Laws
// ---------------------------------------------------------------------------

/// Neither end of a snapped selection lies inside of an embed block or at a
/// forbidden position.
pub proof fn snapped_ends_are_open(text: Seq<char>, embeds: Map<u64, String>, selection: Selection)
    requires
        selection.high() <= bytes_of(text).len() <= usize::MAX,
    ensures
        !barred(text, embeds, snapped(text, embeds, selection).anchor_offset() as int),
        !barred(text, embeds, snapped(text, embeds, selection).head_offset() as int),
{
    let a = selection.anchor_offset() as int;
    let h = selection.head_offset() as int;
    lemma_next_open(text, embeds, a);
    lemma_prev_open(text, embeds, a);
    lemma_next_open(text, embeds, h);
    lemma_prev_open(text, embeds, h);
}

/// A caret that may stand where it is stays there.
pub proof fn open_positions_stay(text: Seq<char>, embeds: Map<u64, String>, p: int)
    ensures
        !barred(text, embeds, p) ==> nearest_open(text, embeds, p) == p,
{
}

proof fn lemma_next_is_first(text: Seq<char>, embeds: Map<u64, String>, p: int, q: int)
    ensures
        p <= q < next_open(text, embeds, p) ==> barred(text, embeds, q),
        next_open(text, embeds, p) < bytes_of(text).len() ==> !barred(
            text,
            embeds,
            next_open(text, embeds, p),
        ),
    decreases bytes_of(text).len() - p,
{
    if p < bytes_of(text).len() && barred(text, embeds, p) {
        lemma_next_is_first(text, embeds, p + 1, q);
    }
}

proof fn lemma_prev_is_last(text: Seq<char>, embeds: Map<u64, String>, p: int, q: int)
    ensures
        prev_open(text, embeds, p) < q <= p ==> barred(text, embeds, q),
    decreases p,
{
    if p > 0 && barred(text, embeds, p) {
        lemma_prev_is_last(text, embeds, p - 1, q);
    }
}

/// A caret that may not stand where it is goes to the closest position where it
/// may, and at equal distance to the one ahead. From hidden list indent it goes
/// ahead where it can.
pub proof fn carets_snap_to_the_closest(
    text: Seq<char>,
    embeds: Map<u64, String>,
    p: int,
    q: int,
)
    requires
        0 <= p <= bytes_of(text).len(),
        0 <= q <= bytes_of(text).len(),
        !barred(text, embeds, q),
    ensures
        ({
            let found = nearest_open(text, embeds, p);
            if indent_interior(text, p) && q >= p {
                p <= found <= q
            } else if indent_interior(text, p) {
                found >= q
            } else {
                let near = if found >= p {
                    found - p
                } else {
                    p - found
                };
                &&& q > p ==> near < q - p || found == q
                &&& q < p ==> near <= p - q
                &&& q == p ==> found == p
            }
        }),
{
    lemma_next_is_first(text, embeds, p, q);
    lemma_prev_is_last(text, embeds, p, q);
    lemma_next_open(text, embeds, p);
    lemma_prev_open(text, embeds, p);
}

} // verus!
