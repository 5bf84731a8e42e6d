//! What Enter and Shift+Enter insert, and the edits that leave a container.

use core::ops::Range;

use vstd::prelude::*;

use super::chain::{chain_of, enclosing_containers_at, EnclosingContainer, ListItemContext};
use super::fences::{
    fence_holds, fenced_code_blocks, fences_of, in_fences, is_in_fenced_code, FencedCodeBlock,
};
use super::lists::{innermost_item, innermost_list_item_at, next_marker};
use super::prefix::{
    blank_prefix, chain_continuation_prefix, chain_pair_ending, chain_pair_shape,
    pair_at_end_for_chain, prefix_of, prefix_width_is_its_byte_length,
};
use crate::strings::{capped, lemma_ascii_length};
use crate::text::{bytes_of, line_end, line_start, line_start_offset, next_line_end, NL, SPACE, TAB};

verus! {

/// `\n{prefix}\n{prefix}`.
pub open spec fn doubled_break(prefix: Seq<char>) -> Seq<char> {
    seq!['\n'] + prefix + seq!['\n'] + prefix
}

fn push_doubled_break(out: &mut String, prefix: &str)
    ensures
        final(out)@ == old(out)@ + doubled_break(prefix@),
{
    let ghost before = out@;
    out.push('\n');
    out.push_str(prefix);
    out.push('\n');
    out.push_str(prefix);
    assert(out@ =~= before + doubled_break(prefix@));
}

/// What Enter inserts. In code, a newline and the line prefix. In a list item,
/// a newline, the prefix of the containers around the item and the marker of a
/// further item. In a blockquote, the pair with the full prefix twice. At top
/// level, a blank line.
pub open spec fn entered(text: Seq<char>, cursor: int) -> Seq<char> {
    let chain = chain_of(text, cursor);
    if in_fences(fences_of(text), cursor) {
        seq!['\n'] + prefix_of(chain)
    } else if chain.len() == 0 {
        seq!['\n', '\n']
    } else {
        match chain.last() {
            EnclosingContainer::ListItem(item) => seq!['\n'] + prefix_of(chain.drop_last())
                + next_marker(item, text),
            EnclosingContainer::BlockQuote { .. } => doubled_break(prefix_of(chain)),
        }
    }
}

/// The string to insert when Enter is pressed at `cursor`.
pub fn enter_insertion(markdown: &str, cursor: usize) -> (inserted: String)
    ensures
        inserted@ == entered(markdown@, cursor as int),
{
    let chain = enclosing_containers_at(markdown, cursor);
    let mut out = String::new();
    if is_in_fenced_code(markdown, cursor) {
        let prefix = chain_continuation_prefix(chain.as_slice());
        out.push('\n');
        out.push_str(prefix.as_str());
        assert(out@ =~= entered(markdown@, cursor as int));
        return out;
    }
    if chain.len() == 0 {
        out.push('\n');
        out.push('\n');
        assert(out@ =~= entered(markdown@, cursor as int));
        return out;
    }
    let last: usize = chain.len() - 1;
    match &chain[last] {
        EnclosingContainer::ListItem(item) => {
            let (outer, _) = chain.as_slice().split_at(last);
            assert(outer@ =~= chain@.drop_last());
            let prefix = chain_continuation_prefix(outer);
            let marker = item.next_marker_text(markdown);
            out.push('\n');
            out.push_str(prefix.as_str());
            out.push_str(marker.as_str());
            assert(out@ =~= entered(markdown@, cursor as int));
        },
        EnclosingContainer::BlockQuote { .. } => {
            let prefix = chain_continuation_prefix(chain.as_slice());
            push_doubled_break(&mut out, prefix.as_str());
            assert(out@ =~= entered(markdown@, cursor as int));
        },
    }
    out
}

/// What Shift+Enter inserts: a hard break and the prefix of the line after it.
pub open spec fn line_broken(text: Seq<char>, cursor: int) -> Seq<char> {
    seq![' ', ' ', '\n'] + prefix_of(chain_of(text, cursor))
}

/// The string to insert when Shift+Enter is pressed at `cursor`: a hard break
/// and the prefix of the line after it.
pub fn line_break_insertion(markdown: &str, cursor: usize) -> (inserted: String)
    ensures
        inserted@ == line_broken(markdown@, cursor as int),
        inserted@ == seq![' ', ' ', '\n'] + prefix_of(chain_of(markdown@, cursor as int)),
{
    let chain = enclosing_containers_at(markdown, cursor);
    let prefix = chain_continuation_prefix(chain.as_slice());
    let mut out = String::new();
    out.push(' ');
    out.push(' ');
    out.push('\n');
    out.push_str(prefix.as_str());
    assert(out@ =~= seq![' ', ' ', '\n'] + prefix_of(chain@));
    out
}

// ---------------------------------------------------------------------------
// Leaving a container
// ---------------------------------------------------------------------------

/// Replace `range` by `replacement` and put the cursor at `cursor`, an offset
/// of the buffer after the replacement.
#[derive(Debug, PartialEq)]
pub struct DepthDecreaseEdit {
    pub range: Range<usize>,
    pub replacement: String,
    pub cursor: usize,
}

impl Clone for DepthDecreaseEdit {
    fn clone(&self) -> (copy: Self)
        ensures
            copy == *self,
    {
        DepthDecreaseEdit {
            range: self.range.start..self.range.end,
            replacement: self.replacement.clone(),
            cursor: self.cursor,
        }
    }
}

/// The mathematical form of a [`DepthDecreaseEdit`].
#[verifier::ext_equal]
pub struct CursorEdit {
    pub range: Range<usize>,
    pub text: Seq<char>,
    pub cursor: usize,
}

impl View for DepthDecreaseEdit {
    type V = CursorEdit;

    open spec fn view(&self) -> CursorEdit {
        CursorEdit { range: self.range, text: self.replacement@, cursor: self.cursor }
    }
}

/// Is `found` the edit `wanted`?
pub open spec fn same_edit(found: Option<DepthDecreaseEdit>, wanted: Option<CursorEdit>) -> bool {
    match found {
        Some(e) => wanted == Some(e@),
        None => wanted is None,
    }
}

/// The pair `\n{blank}\n{content}` of a chain.
pub open spec fn pair_text(chain: Seq<EnclosingContainer>) -> Seq<char> {
    seq!['\n'] + blank_prefix(chain) + seq!['\n'] + prefix_of(chain)
}

/// On an empty quoted line, at the end of a pair of a chain that ends in a
/// blockquote: the pair replaced by that of the chain without the blockquote,
/// the cursor after it.
pub open spec fn quote_exit(text: Seq<char>, cursor: int) -> Option<CursorEdit> {
    let chain = chain_of(text, cursor);
    if chain.len() == 0 || chain.last() !is BlockQuote {
        None
    } else {
        match chain_pair_ending(bytes_of(text), cursor, chain) {
            Some(start) => {
                let new_pair = pair_text(chain.drop_last());
                Some(
                    CursorEdit {
                        range: Range { start: start as usize, end: cursor as usize },
                        text: new_pair,
                        cursor: (start + bytes_of(new_pair).len()) as usize,
                    },
                )
            },
            None => None,
        }
    }
}

pub proof fn lemma_shorter_chain(chain: Seq<EnclosingContainer>)
    requires
        chain.len() > 0,
        chain.last() is BlockQuote,
    ensures
        vstd::utf8::is_ascii_chars(pair_text(chain.drop_last())),
        bytes_of(pair_text(chain.drop_last())).len() <= 2 + bytes_of(blank_prefix(chain)).len()
            + bytes_of(prefix_of(chain)).len(),
{
    let outer = chain.drop_last();
    super::prefix::pair_shape_of_pure_chains(chain);
    super::prefix::lemma_blank_prefix_width(outer);
    super::prefix::lemma_prefix_is_ascii(outer);
    prefix_width_is_its_byte_length(chain);
    let pair = pair_text(outer);
    assert(vstd::utf8::is_ascii_chars(pair)) by {
        assert forall|i: int| 0 <= i < pair.len() implies '\0' <= #[trigger] pair[i] <= '\u{7f}' by {
            let blank = blank_prefix(outer);
            if i == 0 || i == 1 + blank.len() {
            } else if i < 1 + blank.len() {
                assert(pair[i] == blank[i - 1]);
            } else {
                assert(pair[i] == prefix_of(outer)[i - 2 - blank.len()]);
            }
        }
    }
    lemma_ascii_length(pair);
}

/// The edit for Enter on an empty blockquote line: it leaves the innermost
/// blockquote.
pub fn empty_bq_paragraph_exit_edit(markdown: &str, cursor: usize) -> (result: Option<
    DepthDecreaseEdit,
>)
    ensures
        same_edit(result, quote_exit(markdown@, cursor as int)),
{
    let bytes = markdown.as_bytes();
    if cursor > bytes.len() {
        return None;
    }
    let chain = enclosing_containers_at(markdown, cursor);
    if chain.len() == 0 {
        return None;
    }
    let last: usize = chain.len() - 1;
    if let EnclosingContainer::ListItem(_) = &chain[last] {
        return None;
    }
    match pair_at_end_for_chain(bytes, cursor, chain.as_slice()) {
        None => None,
        Some(start) => {
            let (outer, _) = chain.as_slice().split_at(last);
            assert(outer@ =~= chain@.drop_last());
            let (blank, content) = chain_pair_shape(outer);
            let mut replacement = String::new();
            replacement.push('\n');
            replacement.push_str(blank.as_str());
            replacement.push('\n');
            replacement.push_str(content.as_str());
            assert(replacement@ =~= pair_text(outer@));
            proof {
                lemma_shorter_chain(chain@);
            }
            let new_cursor: usize = start + replacement.as_str().as_bytes().len();
            Some(DepthDecreaseEdit { range: start..cursor, replacement, cursor: new_cursor })
        },
    }
}

/// The first block that holds `p`.
pub open spec fn first_fence(blocks: Seq<FencedCodeBlock>, p: int) -> Option<FencedCodeBlock>
    decreases blocks.len(),
{
    if blocks.len() == 0 {
        None
    } else if fence_holds(blocks[0], p) {
        Some(blocks[0])
    } else {
        first_fence(blocks.drop_first(), p)
    }
}

/// Inside an unterminated fenced block: a new code line at the cursor and below
/// it the missing closing fence, both with the line prefix; the cursor goes to
/// the new line.
pub open spec fn fence_close(text: Seq<char>, cursor: int) -> Option<CursorEdit> {
    match first_fence(fences_of(text), cursor) {
        Some(block) => if block.terminated || block.opener_fence_len == 0 {
            None
        } else {
            let row = seq!['\n'] + prefix_of(chain_of(text, cursor));
            let closer = Seq::new(
                block.opener_fence_len as nat,
                |i: int| block.opener_fence_char as char,
            );
            Some(
                CursorEdit {
                    range: Range { start: cursor as usize, end: cursor as usize },
                    text: row + row + closer,
                    cursor: capped(cursor + bytes_of(row).len()),
                },
            )
        },
        None => None,
    }
}

fn find_first_fence(blocks: &Vec<FencedCodeBlock>, p: usize) -> (found: Option<usize>)
    ensures
        match first_fence(blocks@, p as int) {
            Some(block) => found matches Some(i) && i < blocks@.len() && blocks@[i as int] == block,
            None => found is None,
        },
{
    let mut i: usize = 0;
    assert(blocks@.skip(0) =~= blocks@);
    while i < blocks.len()
        invariant
            i <= blocks@.len(),
            first_fence(blocks@, p as int) == first_fence(blocks@.skip(i as int), p as int),
        decreases blocks@.len() - i,
    {
        proof {
            assert(blocks@.skip(i as int)[0] == blocks@[i as int]);
            assert(blocks@.skip(i as int).drop_first() =~= blocks@.skip(i + 1));
        }
        let b = &blocks[i];
        if p >= b.range.start && (p < b.range.end || (!b.terminated && p == b.range.end)) {
            return Some(i);
        }
        i = i + 1;
    }
    None
}

/// The edit for Enter inside an unterminated fenced code block: it closes the
/// block below the cursor.
pub fn auto_close_fence_edit(markdown: &str, cursor: usize) -> (result: Option<DepthDecreaseEdit>)
    ensures
        same_edit(result, fence_close(markdown@, cursor as int)),
{
    let blocks = fenced_code_blocks(markdown);
    match find_first_fence(&blocks, cursor) {
        None => None,
        Some(i) => {
            let block = &blocks[i];
            if block.terminated || block.opener_fence_len == 0 {
                return None;
            }
            let chain = enclosing_containers_at(markdown, cursor);
            let prefix = chain_continuation_prefix(chain.as_slice());
            let mut row = String::new();
            row.push('\n');
            row.push_str(prefix.as_str());
            let ghost row_text = seq!['\n'] + prefix_of(chain@);
            assert(row@ =~= row_text);
            let width: usize = row.as_str().as_bytes().len();
            let mut replacement = row.clone();
            replacement.push_str(row.as_str());
            let ghost rows = row_text + row_text;
            assert(replacement@ =~= rows);
            let mut k: usize = 0;
            while k < block.opener_fence_len
                invariant
                    k <= block.opener_fence_len,
                    replacement@ =~= rows + Seq::new(
                        k as nat,
                        |i: int| block.opener_fence_char as char,
                    ),
                decreases block.opener_fence_len - k,
            {
                replacement.push(block.opener_fence_char as char);
                k = k + 1;
            }
            Some(
                DepthDecreaseEdit {
                    range: cursor..cursor,
                    replacement,
                    cursor: cursor.saturating_add(width),
                },
            )
        },
    }
}

// ---------------------------------------------------------------------------
// Empty list items
// ---------------------------------------------------------------------------

/// The containers around the item whose marker is at `marker`, without the
/// item itself.
pub open spec fn scope_of(text: Seq<char>, marker: int) -> Seq<EnclosingContainer> {
    let chain = chain_of(text, marker);
    if chain.len() > 0 && chain.last() is ListItem {
        chain.drop_last()
    } else {
        chain
    }
}

/// The paragraph break of a scope: a blank line at top level, the doubled
/// prefix otherwise.
pub open spec fn scope_break(prefix: Seq<char>) -> Seq<char> {
    if prefix.len() == 0 {
        seq!['\n', '\n']
    } else {
        doubled_break(prefix)
    }
}

/// The prefix of the containers around the item whose marker is at `marker`.
pub fn scope_prefix_at(markdown: &str, marker: usize) -> (prefix: String)
    ensures
        prefix@ == prefix_of(scope_of(markdown@, marker as int)),
{
    let chain = enclosing_containers_at(markdown, marker);
    if chain.len() > 0 {
        if let EnclosingContainer::ListItem(_) = &chain[chain.len() - 1] {
            let (outer, _) = chain.as_slice().split_at(chain.len() - 1);
            assert(outer@ =~= chain@.drop_last());
            return chain_continuation_prefix(outer);
        }
    }
    chain_continuation_prefix(chain.as_slice())
}

/// The paragraph break of a scope with the given prefix.
pub fn scope_break_text(prefix: &str) -> (text: String)
    ensures
        text@ == scope_break(prefix@),
{
    let mut out = String::new();
    if prefix.is_empty() {
        out.push('\n');
        out.push('\n');
        assert(out@ =~= scope_break(prefix@));
    } else {
        push_doubled_break(&mut out, prefix);
        assert(out@ =~= scope_break(prefix@));
    }
    out
}

/// Is `b[s..e]` made of spaces, tabs and newlines only?
pub open spec fn empty_text(b: Seq<u8>, s: int, e: int) -> bool {
    forall|i: int| s <= i < e ==> b[i] == SPACE || b[i] == TAB || b[i] == NL
}

/// Does `cursor` sit at the end of an item, or of its first line, that holds
/// nothing after its marker?
pub open spec fn empty_at(b: Seq<u8>, item: ListItemContext, cursor: int) -> bool {
    &&& cursor == item.item_range.end || cursor == line_end(
        b,
        item.marker_range.end as int,
        item.item_range.end as int,
    )
    &&& empty_text(b, item.marker_range.end as int, item.item_range.end as int)
}

/// The item's line with the newline before it replaced by the paragraph break
/// of the scope around it; by nothing at the start of the buffer.
pub open spec fn item_removal(text: Seq<char>, item: ListItemContext) -> CursorEdit {
    let b = bytes_of(text);
    let start = line_start(b, item.marker_range.start as int);
    let from = if start > 0 { start - 1 } else { start };
    let replacement = if from == 0 {
        Seq::empty()
    } else {
        scope_break(prefix_of(scope_of(text, item.marker_range.start as int)))
    };
    CursorEdit {
        range: Range { start: from as usize, end: item.item_range.end },
        text: replacement,
        cursor: capped(from + bytes_of(replacement).len()),
    }
}

/// The edit for Enter on an empty list item: it removes the item.
pub open spec fn item_exit(text: Seq<char>, cursor: int) -> Option<CursorEdit> {
    match innermost_item(text, cursor) {
        Some(item) => if empty_at(bytes_of(text), item, cursor) {
            Some(item_removal(text, item))
        } else {
            None
        },
        None => None,
    }
}

fn item_is_empty_at_cursor(bytes: &[u8], item: &ListItemContext, cursor: usize) -> (found: bool)
    requires
        item.marker_range.end <= item.item_range.end <= bytes@.len(),
    ensures
        found == empty_at(bytes@, *item, cursor as int),
{
    let end: usize = item.item_range.end;
    if cursor != end && cursor != next_line_end(bytes, item.marker_range.end, end) {
        return false;
    }
    let mut i: usize = item.marker_range.end;
    while i < end
        invariant
            item.marker_range.end <= i <= end <= bytes@.len(),
            end == item.item_range.end,
            empty_text(bytes@, item.marker_range.end as int, i as int),
        decreases end - i,
    {
        if bytes[i] != SPACE && bytes[i] != TAB && bytes[i] != NL {
            return false;
        }
        i = i + 1;
    }
    true
}

fn build_depth_decrease_edit(markdown: &str, item: &ListItemContext) -> (edit: DepthDecreaseEdit)
    requires
        item.marker_range.start <= bytes_of(markdown@).len(),
    ensures
        edit@ == item_removal(markdown@, *item),
{
    let bytes = markdown.as_bytes();
    let start = line_start_offset(bytes, item.marker_range.start);
    let from: usize = if start > 0 { start - 1 } else { start };
    let replacement = if from == 0 {
        String::new()
    } else {
        let prefix = scope_prefix_at(markdown, item.marker_range.start);
        scope_break_text(prefix.as_str())
    };
    let width: usize = replacement.as_str().as_bytes().len();
    DepthDecreaseEdit {
        range: from..item.item_range.end,
        replacement,
        cursor: from.saturating_add(width),
    }
}

/// The edit for Enter on an empty list item at `cursor`.
pub fn empty_item_exit_edit(markdown: &str, cursor: usize) -> (result: Option<DepthDecreaseEdit>)
    ensures
        same_edit(result, item_exit(markdown@, cursor as int)),
{
    match innermost_list_item_at(markdown, cursor) {
        None => None,
        Some(item) => {
            if !item_is_empty_at_cursor(markdown.as_bytes(), &item, cursor) {
                return None;
            }
            Some(build_depth_decrease_edit(markdown, &item))
        },
    }
}

/// Does `cursor` sit right after the marker of its innermost list item?
pub fn cursor_at_item_marker_end(markdown: &str, cursor: usize) -> (found: bool)
    ensures
        found == (innermost_item(markdown@, cursor as int) matches Some(item) && cursor
            == item.marker_range.end),
{
    match innermost_list_item_at(markdown, cursor) {
        Some(item) => cursor == item.marker_range.end,
        None => false,
    }
}

} // verus!
