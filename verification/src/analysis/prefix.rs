//! Line prefixes of a container chain and the paragraph-break pairs built of
//! them.

use vstd::prelude::*;

use super::chain::{chain_of, enclosing_containers_at, EnclosingContainer, ListItemContext};
use super::markers::{
    newline_at, newline_before, walk_back_required_newline, walk_forward_required_newline,
};
use crate::strings::{push_spaces, spaces};
use crate::text::{bytes_of, same_offset};

verus! {

/// Is the container a blockquote?
pub open spec fn is_quote(c: EnclosingContainer) -> bool {
    c is BlockQuote
}

/// Number of blockquotes in the chain.
pub open spec fn quote_count(chain: Seq<EnclosingContainer>) -> nat
    decreases chain.len(),
{
    if chain.len() == 0 {
        0
    } else {
        quote_count(chain.drop_last()) + if is_quote(chain.last()) { 1nat } else { 0nat }
    }
}

/// What a container puts at the start of a line inside it: `> ` for a
/// blockquote, the width of its marker in spaces for a list item.
pub open spec fn segment(c: EnclosingContainer) -> Seq<char> {
    match c {
        EnclosingContainer::ListItem(ctx) => spaces(ctx.width()),
        EnclosingContainer::BlockQuote { .. } => seq!['>', ' '],
    }
}

/// The prefix of a line inside the whole chain: the segments, outermost first.
pub open spec fn prefix_of(chain: Seq<EnclosingContainer>) -> Seq<char>
    decreases chain.len(),
{
    if chain.len() == 0 {
        Seq::empty()
    } else {
        prefix_of(chain.drop_last()) + segment(chain.last())
    }
}

/// Byte width of [`prefix_of`].
pub open spec fn prefix_width(chain: Seq<EnclosingContainer>) -> nat
    decreases chain.len(),
{
    if chain.len() == 0 {
        0
    } else {
        prefix_width(chain.drop_last()) + match chain.last() {
            EnclosingContainer::ListItem(ctx) => ctx.width(),
            EnclosingContainer::BlockQuote { .. } => 2,
        }
    }
}

/// Do all items of the chain have a marker?
pub open spec fn markers_valid(chain: Seq<EnclosingContainer>) -> bool {
    forall|i: int|
        0 <= i < chain.len() ==> match #[trigger] chain[i] {
            EnclosingContainer::ListItem(ctx) => ctx.has_marker(),
            EnclosingContainer::BlockQuote { .. } => true,
        }
}

/// Index of the last blockquote of the chain.
pub open spec fn last_quote(chain: Seq<EnclosingContainer>) -> Option<int>
    decreases chain.len(),
{
    if chain.len() == 0 {
        None
    } else if is_quote(chain.last()) {
        Some(chain.len() - 1)
    } else {
        last_quote(chain.drop_last())
    }
}

/// Index of the last list item of the chain.
pub open spec fn last_item(chain: Seq<EnclosingContainer>) -> Option<int>
    decreases chain.len(),
{
    if chain.len() == 0 {
        None
    } else if chain.last() is ListItem {
        Some(chain.len() - 1)
    } else {
        last_item(chain.drop_last())
    }
}

/// The prefix of a blank line inside the chain: only the containers up to the
/// last blockquote need theirs there.
pub open spec fn blank_prefix(chain: Seq<EnclosingContainer>) -> Seq<char> {
    match last_quote(chain) {
        Some(i) => prefix_of(chain.take(i + 1)),
        None => Seq::empty(),
    }
}

proof fn lemma_last_quote_bounds(chain: Seq<EnclosingContainer>)
    ensures
        last_quote(chain) matches Some(i) ==> 0 <= i < chain.len() && is_quote(chain[i]) && (
        forall|j: int| i < j < chain.len() ==> !is_quote(chain[j])),
        last_quote(chain) is None ==> forall|j: int| 0 <= j < chain.len() ==> !is_quote(chain[j]),
    decreases chain.len(),
{
    if chain.len() > 0 && !is_quote(chain.last()) {
        lemma_last_quote_bounds(chain.drop_last());
        assert forall|j: int| 0 <= j < chain.len() - 1 implies #[trigger] chain[j] == chain.drop_last()[j] by {}
    }
}

pub proof fn lemma_last_item_bounds(chain: Seq<EnclosingContainer>)
    ensures
        last_item(chain) matches Some(i) ==> 0 <= i < chain.len() && chain[i] is ListItem && (
        forall|j: int| i < j < chain.len() ==> chain[j] !is ListItem),
        last_item(chain) is None ==> forall|j: int| 0 <= j < chain.len() ==> chain[j] !is ListItem,
    decreases chain.len(),
{
    if chain.len() > 0 && chain.last() !is ListItem {
        lemma_last_item_bounds(chain.drop_last());
        assert forall|j: int| 0 <= j < chain.len() - 1 implies #[trigger] chain[j] == chain.drop_last()[j] by {}
    }
}

/// Number of blockquotes in `chain`.
pub fn chain_blockquote_depth(chain: &[EnclosingContainer]) -> (depth: usize)
    ensures
        depth == quote_count(chain@),
{
    let mut depth: usize = 0;
    let mut i: usize = 0;
    while i < chain.len()
        invariant
            i <= chain@.len(),
            depth <= i,
            depth == quote_count(chain@.take(i as int)),
        decreases chain@.len() - i,
    {
        proof {
            assert(chain@.take(i + 1).drop_last() =~= chain@.take(i as int));
            assert(chain@.take(i + 1).last() == chain@[i as int]);
        }
        if let EnclosingContainer::BlockQuote { .. } = chain[i] {
            depth = depth + 1;
        }
        i = i + 1;
    }
    assert(chain@.take(i as int) =~= chain@);
    depth
}

/// Deepest blockquote nesting around `cursor`.
pub fn blockquote_depth_at(markdown: &str, cursor: usize) -> (depth: usize)
    ensures
        depth == quote_count(chain_of(markdown@, cursor as int)),
{
    let chain = enclosing_containers_at(markdown, cursor);
    chain_blockquote_depth(chain.as_slice())
}

/// The prefix of a line inside the first `end` containers of `chain`.
fn prefix_through(chain: &[EnclosingContainer], end: usize) -> (prefix: String)
    requires
        end <= chain@.len(),
        markers_valid(chain@),
    ensures
        prefix@ == prefix_of(chain@.take(end as int)),
{
    let mut out = String::new();
    let mut i: usize = 0;
    assert(chain@.take(0) =~= Seq::empty());
    while i < end
        invariant
            i <= end <= chain@.len(),
            markers_valid(chain@),
            out@ =~= prefix_of(chain@.take(i as int)),
        decreases end - i,
    {
        proof {
            assert(chain@.take(i + 1).drop_last() =~= chain@.take(i as int));
            assert(chain@.take(i + 1).last() == chain@[i as int]);
        }
        match &chain[i] {
            EnclosingContainer::ListItem(ctx) => {
                let width = ctx.marker_width();
                push_spaces(&mut out, width);
            },
            EnclosingContainer::BlockQuote { .. } => {
                out.push('>');
                out.push(' ');
            },
        }
        i = i + 1;
    }
    out
}

/// The full prefix of a continuation line inside `chain`: for each container,
/// outermost first, `> ` for a blockquote and as many spaces as its marker is
/// wide for a list item.
pub fn chain_continuation_prefix(chain: &[EnclosingContainer]) -> (prefix: String)
    requires
        markers_valid(chain@),
    ensures
        prefix@ == prefix_of(chain@),
{
    assert(chain@.take(chain@.len() as int) =~= chain@);
    prefix_through(chain, chain.len())
}

proof fn lemma_prefix_width_grows(chain: Seq<EnclosingContainer>, i: int)
    requires
        0 <= i <= chain.len(),
    ensures
        prefix_width(chain.take(i)) <= prefix_width(chain),
    decreases chain.len(),
{
    if i < chain.len() {
        lemma_prefix_width_grows(chain.drop_last(), i);
        assert(chain.drop_last().take(i) =~= chain.take(i));
    } else {
        assert(chain.take(i) =~= chain);
    }
}

/// Byte length of [`chain_continuation_prefix`], without building it.
pub fn chain_continuation_prefix_bytes(chain: &[EnclosingContainer]) -> (width: usize)
    requires
        markers_valid(chain@),
        prefix_width(chain@) <= usize::MAX,
    ensures
        width == prefix_width(chain@),
{
    let mut width: usize = 0;
    let mut i: usize = 0;
    while i < chain.len()
        invariant
            i <= chain@.len(),
            markers_valid(chain@),
            prefix_width(chain@) <= usize::MAX,
            width == prefix_width(chain@.take(i as int)),
        decreases chain@.len() - i,
    {
        proof {
            assert(chain@.take(i + 1).drop_last() =~= chain@.take(i as int));
            assert(chain@.take(i + 1).last() == chain@[i as int]);
            lemma_prefix_width_grows(chain@, i + 1);
        }
        match &chain[i] {
            EnclosingContainer::ListItem(ctx) => {
                width = width + ctx.marker_width();
            },
            EnclosingContainer::BlockQuote { .. } => {
                width = width + 2;
            },
        }
        i = i + 1;
    }
    assert(chain@.take(i as int) =~= chain@);
    width
}

/// Byte length of the prefix that every container above the innermost one of
/// `chain` asks for.
pub fn chain_outer_prefix_bytes(chain: &[EnclosingContainer]) -> (width: usize)
    requires
        markers_valid(chain@),
        prefix_width(chain@) <= usize::MAX,
    ensures
        width == if chain@.len() == 0 {
            0
        } else {
            prefix_width(chain@.drop_last())
        },
{
    if chain.len() == 0 {
        return 0;
    }
    let (outer, _) = chain.split_at(chain.len() - 1);
    assert(outer@ =~= chain@.drop_last());
    chain_continuation_prefix_bytes(outer)
}

/// Index of the last container of the wanted kind.
fn find_last(chain: &[EnclosingContainer], items: bool) -> (found: Option<usize>)
    ensures
        items ==> same_offset(found, last_item(chain@)),
        !items ==> same_offset(found, last_quote(chain@)),
        found matches Some(i) ==> i < chain@.len() <= usize::MAX,
{
    let mut i: usize = chain.len();
    assert(chain@.take(chain@.len() as int) =~= chain@);
    while i > 0
        invariant
            i <= chain@.len() <= usize::MAX,
            last_item(chain@.take(i as int)) == last_item(chain@) || !items,
            last_quote(chain@.take(i as int)) == last_quote(chain@) || items,
        decreases i,
    {
        proof {
            assert(chain@.take(i as int).drop_last() =~= chain@.take(i - 1));
            assert(chain@.take(i as int).last() == chain@[i - 1]);
        }
        let is_item = match chain[i - 1] {
            EnclosingContainer::ListItem(_) => true,
            EnclosingContainer::BlockQuote { .. } => false,
        };
        if is_item == items {
            return Some(i - 1);
        }
        i = i - 1;
    }
    None
}

/// The paragraph-break pair of `chain` is `\n{blank}\n{content}`: `blank` is
/// the prefix up to the last blockquote, `content` the whole prefix.
pub fn chain_pair_shape(chain: &[EnclosingContainer]) -> (shape: (String, String))
    requires
        markers_valid(chain@),
    ensures
        shape.0@ == blank_prefix(chain@),
        shape.1@ == prefix_of(chain@),
{
    let content = chain_continuation_prefix(chain);
    let blank = match find_last(chain, false) {
        Some(i) => prefix_through(chain, i + 1),
        None => String::new(),
    };
    (blank, content)
}

/// The innermost list item of `chain`.
pub fn chain_innermost_list_item(chain: &[EnclosingContainer]) -> (item: Option<&ListItemContext>)
    ensures
        match last_item(chain@) {
            Some(i) => item matches Some(ctx) && chain@[i] == EnclosingContainer::ListItem(*ctx),
            None => item is None,
        },
{
    proof {
        lemma_last_item_bounds(chain@);
    }
    match find_last(chain, true) {
        Some(i) => match &chain[i] {
            EnclosingContainer::ListItem(ctx) => Some(ctx),
            EnclosingContainer::BlockQuote { .. } => None,
        },
        None => None,
    }
}

/// Is the container right around the innermost list item a list item too?
pub open spec fn item_in_item(chain: Seq<EnclosingContainer>) -> bool {
    last_item(chain) matches Some(i) && i > 0 && chain[i - 1] is ListItem
}

/// Is the container right around the innermost list item of `chain` another
/// list item?
pub fn innermost_li_immediate_parent_is_list_item(chain: &[EnclosingContainer]) -> (found: bool)
    ensures
        found == item_in_item(chain@),
{
    match find_last(chain, true) {
        Some(pos) => if pos == 0 {
            false
        } else {
            match chain[pos - 1] {
                EnclosingContainer::ListItem(_) => true,
                EnclosingContainer::BlockQuote { .. } => false,
            }
        },
        None => false,
    }
}

// ---------------------------------------------------------------------------
// Pairs of a chain
// ---------------------------------------------------------------------------

/// Does `text` end at `q`?
pub open spec fn ends_with(b: Seq<u8>, q: int, text: Seq<u8>) -> bool {
    text.len() <= q <= b.len() && b.subrange(q - text.len(), q) == text
}

/// Does `text` begin at `q`?
pub open spec fn begins_with(b: Seq<u8>, q: int, text: Seq<u8>) -> bool {
    0 <= q && q + text.len() <= b.len() && b.subrange(q, q + text.len()) == text
}

/// Walks `q` back over `expected`; it stays put where other bytes stand.
pub fn walk_back_exact(bytes: &[u8], q: &mut usize, expected: &[u8]) -> (found: bool)
    requires
        *old(q) <= bytes@.len(),
    ensures
        found == ends_with(bytes@, *old(q) as int, expected@),
        *final(q) == if found {
            *old(q) - expected@.len()
        } else {
            *old(q) as int
        },
{
    if *q < expected.len() {
        return false;
    }
    let start: usize = *q - expected.len();
    let mut i: usize = 0;
    while i < expected.len()
        invariant
            i <= expected@.len(),
            start + expected@.len() == *q <= bytes@.len(),
            *q == *old(q),
            forall|j: int| 0 <= j < i ==> bytes@[start + j] == expected@[j],
        decreases expected@.len() - i,
    {
        if bytes[start + i] != expected[i] {
            assert(bytes@.subrange(start as int, *q as int)[i as int] != expected@[i as int]);
            return false;
        }
        i = i + 1;
    }
    assert(bytes@.subrange(start as int, *q as int) =~= expected@);
    *q = start;
    true
}

/// Walks `q` forward over `expected`; it stays put where other bytes stand.
pub fn walk_forward_exact(bytes: &[u8], q: &mut usize, expected: &[u8]) -> (found: bool)
    ensures
        found == begins_with(bytes@, *old(q) as int, expected@),
        *final(q) == if found {
            *old(q) + expected@.len()
        } else {
            *old(q) as int
        },
{
    if *q > bytes.len() || expected.len() > bytes.len() - *q {
        return false;
    }
    let mut i: usize = 0;
    while i < expected.len()
        invariant
            i <= expected@.len(),
            *q + expected@.len() <= bytes@.len() <= usize::MAX,
            *q == *old(q),
            forall|j: int| 0 <= j < i ==> bytes@[*q + j] == expected@[j],
        decreases expected@.len() - i,
    {
        if bytes[*q + i] != expected[i] {
            assert(bytes@.subrange(*q as int, *q + expected@.len())[i as int]
                != expected@[i as int]);
            return false;
        }
        i = i + 1;
    }
    assert(bytes@.subrange(*q as int, *q + expected@.len()) =~= expected@);
    *q = *q + expected.len();
    true
}

/// Start of the pair of `chain` that ends at `cursor`: `\n{blank}\n{content}`
/// read backward. A chain with empty prefixes has no pair of its own.
pub open spec fn chain_pair_ending(
    b: Seq<u8>,
    cursor: int,
    chain: Seq<EnclosingContainer>,
) -> Option<int> {
    let blank = bytes_of(blank_prefix(chain));
    let content = bytes_of(prefix_of(chain));
    let low = cursor - content.len();
    let high = low - 1 - blank.len();
    if blank.len() == 0 && content.len() == 0 {
        None
    } else if ends_with(b, cursor, content) && newline_before(b, low) && ends_with(
        b,
        low - 1,
        blank,
    ) && newline_before(b, high) {
        Some(high - 1)
    } else {
        None
    }
}

/// End of the pair of `chain` that starts at `cursor`.
pub open spec fn chain_pair_starting(
    b: Seq<u8>,
    cursor: int,
    chain: Seq<EnclosingContainer>,
) -> Option<int> {
    let blank = bytes_of(blank_prefix(chain));
    let content = bytes_of(prefix_of(chain));
    let middle = cursor + 1 + blank.len();
    if blank.len() == 0 && content.len() == 0 {
        None
    } else if newline_at(b, cursor) && begins_with(b, cursor + 1, blank) && newline_at(b, middle)
        && begins_with(b, middle + 1, content) {
        Some(middle + 1 + content.len())
    } else {
        None
    }
}

/// If `cursor` sits at the end of a structural pair of `chain`, the pair's
/// start.
pub fn pair_at_end_for_chain(bytes: &[u8], cursor: usize, chain: &[EnclosingContainer]) -> (result:
    Option<usize>)
    requires
        cursor <= bytes@.len(),
        markers_valid(chain@),
    ensures
        same_offset(result, chain_pair_ending(bytes@, cursor as int, chain@)),
        result matches Some(s) ==> s <= cursor,
{
    let (blank_prefix, content_prefix) = chain_pair_shape(chain);
    let blank = blank_prefix.as_str().as_bytes();
    let content = content_prefix.as_str().as_bytes();
    if blank.len() == 0 && content.len() == 0 {
        return None;
    }
    let mut q: usize = cursor;
    if !walk_back_exact(bytes, &mut q, content) {
        return None;
    }
    if !walk_back_required_newline(bytes, &mut q) {
        return None;
    }
    if !walk_back_exact(bytes, &mut q, blank) {
        return None;
    }
    if !walk_back_required_newline(bytes, &mut q) {
        return None;
    }
    Some(q)
}

/// If `cursor` sits at the start of a structural pair of `chain`, the pair's
/// end.
pub fn pair_at_start_for_chain(bytes: &[u8], cursor: usize, chain: &[EnclosingContainer]) -> (result:
    Option<usize>)
    requires
        markers_valid(chain@),
    ensures
        same_offset(result, chain_pair_starting(bytes@, cursor as int, chain@)),
{
    let (blank_prefix, content_prefix) = chain_pair_shape(chain);
    let blank = blank_prefix.as_str().as_bytes();
    let content = content_prefix.as_str().as_bytes();
    if blank.len() == 0 && content.len() == 0 {
        return None;
    }
    let mut q: usize = cursor;
    if !walk_forward_required_newline(bytes, &mut q) {
        return None;
    }
    if !walk_forward_exact(bytes, &mut q, blank) {
        return None;
    }
    if !walk_forward_required_newline(bytes, &mut q) {
        return None;
    }
    if !walk_forward_exact(bytes, &mut q, content) {
        return None;
    }
    Some(q)
}

// ---------------------------------------------------------------------------
// Laws
// ---------------------------------------------------------------------------

pub proof fn lemma_prefix_is_ascii(chain: Seq<EnclosingContainer>)
    ensures
        vstd::utf8::is_ascii_chars(prefix_of(chain)),
        prefix_of(chain).len() == prefix_width(chain),
    decreases chain.len(),
{
    if chain.len() > 0 {
        lemma_prefix_is_ascii(chain.drop_last());
    }
}

pub proof fn lemma_blank_prefix_width(chain: Seq<EnclosingContainer>)
    ensures
        vstd::utf8::is_ascii_chars(blank_prefix(chain)),
        blank_prefix(chain).len() <= prefix_width(chain),
{
    lemma_last_quote_bounds(chain);
    if let Some(i) = last_quote(chain) {
        lemma_prefix_is_ascii(chain.take(i + 1));
        lemma_prefix_width_grows(chain, i + 1);
    }
}

/// The width of a chain's prefix is the number of bytes of that prefix.
pub proof fn prefix_width_is_its_byte_length(chain: Seq<EnclosingContainer>)
    ensures
        bytes_of(prefix_of(chain)).len() == prefix_width(chain),
{
    lemma_prefix_is_ascii(chain);
    vstd::utf8::is_ascii_chars_encode_utf8(prefix_of(chain));
}

/// The prefix of a chain is the prefix of its outer part followed by that of
/// its inner part.
pub proof fn prefix_splits(outer: Seq<EnclosingContainer>, inner: Seq<EnclosingContainer>)
    ensures
        prefix_of(outer + inner) == prefix_of(outer) + prefix_of(inner),
        prefix_width(outer + inner) == prefix_width(outer) + prefix_width(inner),
    decreases inner.len(),
{
    if inner.len() == 0 {
        assert(outer + inner =~= outer);
        assert(prefix_of(outer) + prefix_of(inner) =~= prefix_of(outer));
    } else {
        prefix_splits(outer, inner.drop_last());
        assert((outer + inner).drop_last() =~= outer + inner.drop_last());
        assert(prefix_of(outer + inner) =~= prefix_of(outer) + prefix_of(inner));
    }
}

/// A chain that ends in a blockquote has the same prefix on both lines of its
/// pair; one without blockquotes has none on the blank line.
pub proof fn pair_shape_of_pure_chains(chain: Seq<EnclosingContainer>)
    ensures
        chain.len() > 0 && is_quote(chain.last()) ==> blank_prefix(chain) == prefix_of(chain),
        quote_count(chain) == 0 ==> blank_prefix(chain) == Seq::<char>::empty(),
{
    lemma_last_quote_bounds(chain);
    if chain.len() > 0 && is_quote(chain.last()) {
        assert(chain.take(chain.len() as int) =~= chain);
    }
    if quote_count(chain) == 0 {
        lemma_no_quotes(chain);
    }
}

proof fn lemma_no_quotes(chain: Seq<EnclosingContainer>)
    requires
        quote_count(chain) == 0,
    ensures
        last_quote(chain) is None,
    decreases chain.len(),
{
    if chain.len() > 0 {
        lemma_no_quotes(chain.drop_last());
    }
}

/// A pair of a chain found forward from its start is found backward from its
/// end, and the other way round.
pub proof fn chain_pairs_read_both_ways(
    b: Seq<u8>,
    start: int,
    end: int,
    chain: Seq<EnclosingContainer>,
)
    requires
        0 <= start,
        end <= b.len(),
    ensures
        chain_pair_starting(b, start, chain) == Some(end) <==> chain_pair_ending(b, end, chain)
            == Some(start),
{
}

} // verus!
