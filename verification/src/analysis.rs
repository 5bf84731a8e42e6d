//! Where the blocks of a document begin and end, where the caret may stand, and
//! what the structural commands insert and remove.

pub mod breaks;
pub mod canonical;
pub mod chain;
pub mod containers;
pub mod depth;
pub mod edits;
pub mod entering;
pub mod fences;
pub mod insertions;
pub mod leaving;
pub mod lists;
pub mod markers;
pub mod nesting;
pub mod normalize;
pub mod orderly;
pub mod pairs;
pub mod positions;
pub mod prefix;
pub mod quoted;
pub mod tabs;

pub use crate::analysis::chain::{
    enclosing_containers_at, enclosing_containers_at_in_tree, EnclosingChain, EnclosingContainer,
    ListItemContext,
};
pub use crate::analysis::depth::{
    item_line_starts, list_item_dedent_edits, list_item_indent_edits, list_item_strip_range,
};
pub use crate::analysis::edits::{SourceEdit, SourceEditList};
pub use crate::analysis::fences::{
    fenced_code_blocks, fenced_code_blocks_in_tree, fenced_code_ranges, fenced_code_ranges_in_tree,
    is_in_fenced_code, is_in_fenced_code_blocks, is_in_ranges, FencedCodeBlock,
};
pub use crate::analysis::insertions::{
    auto_close_fence_edit, cursor_at_item_marker_end, empty_bq_paragraph_exit_edit,
    empty_item_exit_edit, enter_insertion, line_break_insertion, scope_break_text, scope_prefix_at,
    DepthDecreaseEdit,
};
pub use crate::analysis::lists::{
    innermost_list_item_at, list_content_ranges, list_content_ranges_in_tree,
    previous_sibling_marker_width,
};
pub use crate::analysis::markers::{
    walk_back_markers, walk_back_required_newline, walk_forward_markers,
    walk_forward_required_newline,
};
pub use crate::analysis::normalize::{
    consecutive_hard_break_edits, line_starts_nested_construct, list_normalization_edits,
    list_normalization_edits_in_tree,
};
pub use crate::analysis::pairs::{
    bq_paragraph_outdent, count_line_markers, is_marker_only_line_ending_at,
    is_marker_only_line_starting_at, is_paragraph_break_interior, is_soft_break,
    line_depth_ending_at, pair_at_end, pair_at_start,
};
pub use crate::analysis::positions::{
    is_chain_pair_interior, is_forbidden_position, is_list_indent_interior,
    nearest_allowed_position, next_allowed_position, prev_allowed_position,
};
pub use crate::analysis::prefix::{
    blockquote_depth_at, chain_blockquote_depth, chain_continuation_prefix,
    chain_continuation_prefix_bytes, chain_innermost_list_item, chain_outer_prefix_bytes,
    chain_pair_shape, innermost_li_immediate_parent_is_list_item, pair_at_end_for_chain,
    pair_at_start_for_chain, walk_back_exact, walk_forward_exact,
};
