//! Embed blocks: paragraphs that stand for content which the host supplies.
//!
//! The host maps ordinals to markdown. A top-level paragraph that consists of
//! the marker `{{ embed N }}` alone, with a mapped ordinal `N`, is one atomic
//! block. Blanks (spaces and tabs) are tolerated around the marker, inside of
//! the braces and before the number, and the number may have leading zeros.
//! Every other occurrence is plain text.

use core::ops::Range;
use std::collections::BTreeMap;
use std::sync::Arc;

use vstd::prelude::*;

use crate::escapes::{digit_value, number_value};
use crate::parser::{blocks_come_in_order, parse, syntax_tree};
use crate::strings::{decimal, digit_char, push_decimal};
use crate::syntax::{
    in_buffer, node_fits, nodes_view, ranges_fit, siblings_in_order, tree_fits, Node, NodeKind,
    SyntaxNode,
};
use crate::text::{bytes_of, run_start, run_start_offset, NL, SPACE, TAB};

verus! {

// ---------------------------------------------------------------------------
// The map
// ---------------------------------------------------------------------------

/// The host's map of ordinals to markdown. Copies share one table.
#[derive(Debug, PartialEq, Eq)]
pub struct EmbedMap(Option<Arc<BTreeMap<u64, String>>>);

/// `Arc::clone`: another handle on the same value.
#[verifier::external_body]
fn share(table: &Arc<BTreeMap<u64, String>>) -> (copy: Arc<BTreeMap<u64, String>>)
    ensures
        copy == *table,
{
    Arc::clone(table)
}

impl View for EmbedMap {
    type V = Map<u64, String>;

    closed spec fn view(&self) -> Map<u64, String> {
        match self.0 {
            Some(table) => (*table)@,
            None => Map::empty(),
        }
    }
}

/// The entries as a map; the last entry for an ordinal counts.
pub open spec fn mapped(entries: Seq<(u64, String)>) -> Map<u64, String>
    decreases entries.len(),
{
    if entries.len() == 0 {
        Map::empty()
    } else {
        mapped(entries.drop_last()).insert(entries.last().0, entries.last().1)
    }
}

impl EmbedMap {
    #[verifier::type_invariant]
    spec fn no_empty_table(self) -> bool {
        match self.0 {
            Some(table) => (*table)@ != Map::<u64, String>::empty(),
            None => true,
        }
    }

    /// Builds a map from ordinals and their markdown.
    pub fn new(entries: Vec<(u64, String)>) -> (map: Self)
        ensures
            map@ == mapped(entries@),
    {
        broadcast use vstd::std_specs::btree::group_btree_axioms;

        if entries.len() == 0 {
            return EmbedMap(None);
        }
        let mut table: BTreeMap<u64, String> = BTreeMap::new();
        let mut i: usize = 0;
        while i < entries.len()
            invariant
                i <= entries@.len(),
                table@ == mapped(entries@.take(i as int)),
                i > 0 ==> table@.contains_key(entries@[i - 1].0),
            decreases entries@.len() - i,
        {
            assert(entries@.take(i + 1).drop_last() =~= entries@.take(i as int));
            let ordinal: u64 = entries[i].0;
            table.insert(ordinal, entries[i].1.clone());
            i = i + 1;
        }
        assert(entries@.take(i as int) =~= entries@);
        let table = Arc::new(table);
        assert((*table)@.contains_key(entries@[i - 1].0));
        assert((*table)@ != Map::<u64, String>::empty());
        EmbedMap(Some(table))
    }

    pub fn is_empty(&self) -> (empty: bool)
        ensures
            empty == (self@ == Map::<u64, String>::empty()),
    {
        proof {
            use_type_invariant(self);
        }
        self.0.is_none()
    }

    pub fn contains(&self, ordinal: u64) -> (found: bool)
        ensures
            found == self@.contains_key(ordinal),
    {
        broadcast use vstd::std_specs::btree::group_btree_axioms;

        match &self.0 {
            Some(table) => table.contains_key(&ordinal),
            None => false,
        }
    }

    pub fn get(&self, ordinal: u64) -> (found: Option<&str>)
        ensures
            match found {
                Some(text) => self@.contains_key(ordinal) && text@ == self@[ordinal]@,
                None => !self@.contains_key(ordinal),
            },
    {
        broadcast use vstd::std_specs::btree::group_btree_axioms;

        match &self.0 {
            Some(table) => match table.get(&ordinal) {
                Some(text) => Some(text.as_str()),
                None => None,
            },
            None => None,
        }
    }
}

impl Clone for EmbedMap {
    fn clone(&self) -> (copy: Self)
        ensures
            copy@ == self@,
    {
        proof {
            use_type_invariant(self);
        }
        match &self.0 {
            Some(table) => EmbedMap(Some(share(table))),
            None => EmbedMap(None),
        }
    }
}

impl Default for EmbedMap {
    fn default() -> (map: Self)
        ensures
            map@ == Map::<u64, String>::empty(),
    {
        EmbedMap(None)
    }
}

// ---------------------------------------------------------------------------
// Markers
// ---------------------------------------------------------------------------

/// The marker of an ordinal, in the spelling that hosts write.
pub open spec fn marker(ordinal: nat) -> Seq<char> {
    "{{ embed "@ + decimal(ordinal) + " }}"@
}

/// The marker of an ordinal, in the spelling that hosts write.
pub fn embed_marker(ordinal: u64) -> (text: String)
    ensures
        text@ == marker(ordinal as nat),
{
    let mut text = String::new();
    text.push_str("{{ embed ");
    push_decimal(&mut text, ordinal);
    text.push_str(" }}");
    assert(text@ =~= marker(ordinal as nat));
    text
}

pub const OPEN_BRACE: u8 = 123;

pub const CLOSE_BRACE: u8 = 125;

/// Is `c` a space or a tab?
pub open spec fn blank(c: u8) -> bool {
    c == SPACE || c == TAB
}

/// Past the blanks from `p`, no further than `limit`.
pub open spec fn blanks_end(b: Seq<u8>, p: int, limit: int) -> int
    decreases limit - p,
{
    if p < limit && blank(b[p]) {
        blanks_end(b, p + 1, limit)
    } else {
        p
    }
}

/// Before the blanks that end at `p`, no further than `floor`.
pub open spec fn blanks_start(b: Seq<u8>, p: int, floor: int) -> int
    decreases p - floor,
{
    if p > floor && blank(b[p - 1]) {
        blanks_start(b, p - 1, floor)
    } else {
        p
    }
}

/// Do the bytes from `p` on read `embed`?
pub open spec fn embed_word(b: Seq<u8>, p: int) -> bool {
    b[p] == 101 && b[p + 1] == 109 && b[p + 2] == 98 && b[p + 3] == 101 && b[p + 4] == 100
}

/// Are the bytes of `[s, e)` decimal digits?
pub open spec fn all_digits(b: Seq<u8>, s: int, e: int) -> bool {
    forall|i: int| s <= i < e ==> digit_value(#[trigger] b[i], false) is Some
}

/// The ordinal of the marker that `[s, e)` is, without blanks around it: the
/// braces, `embed`, at least one blank, and a number that fits in 64 bits.
pub open spec fn bare_marker(b: Seq<u8>, s: int, e: int) -> Option<u64> {
    let inner = blanks_end(b, s + 2, e - 2);
    let inner_end = blanks_start(b, e - 2, inner);
    let number = blanks_end(b, inner + 5, inner_end);
    if e - s < 4 || b[s] != OPEN_BRACE || b[s + 1] != OPEN_BRACE || b[e - 2] != CLOSE_BRACE
        || b[e - 1] != CLOSE_BRACE {
        None
    } else if inner_end - inner < 5 || !embed_word(b, inner) || number == inner + 5 {
        None
    } else if number == inner_end || !all_digits(b, number, inner_end) || number_value(
        b,
        number,
        inner_end,
        false,
    ) > u64::MAX {
        None
    } else {
        Some(number_value(b, number, inner_end, false) as u64)
    }
}

/// The ordinal of the marker that `[s, e)` is, up to blanks around it.
pub open spec fn marker_ordinal(b: Seq<u8>, s: int, e: int) -> Option<u64> {
    let start = blanks_end(b, s, e);
    bare_marker(b, start, blanks_start(b, e, start))
}

pub proof fn lemma_blanks_end(b: Seq<u8>, p: int, limit: int)
    requires
        p <= limit,
    ensures
        p <= blanks_end(b, p, limit) <= limit,
    decreases limit - p,
{
    if p < limit && blank(b[p]) {
        lemma_blanks_end(b, p + 1, limit);
    }
}

pub proof fn lemma_blanks_start(b: Seq<u8>, p: int, floor: int)
    requires
        floor <= p,
    ensures
        floor <= blanks_start(b, p, floor) <= p,
    decreases p - floor,
{
    if p > floor && blank(b[p - 1]) {
        lemma_blanks_start(b, p - 1, floor);
    }
}

/// Past the blanks from `p`.
pub fn skip_blanks(bytes: &[u8], p: usize, limit: usize) -> (end: usize)
    requires
        p <= limit <= bytes@.len(),
    ensures
        end == blanks_end(bytes@, p as int, limit as int),
        p <= end <= limit,
{
    let mut q: usize = p;
    while q < limit && (bytes[q] == SPACE || bytes[q] == TAB)
        invariant
            p <= q <= limit <= bytes@.len(),
            blanks_end(bytes@, p as int, limit as int) == blanks_end(
                bytes@,
                q as int,
                limit as int,
            ),
        decreases limit - q,
    {
        q = q + 1;
    }
    q
}

/// Before the blanks that end at `p`.
pub fn drop_blanks(bytes: &[u8], p: usize, floor: usize) -> (start: usize)
    requires
        floor <= p <= bytes@.len(),
    ensures
        start == blanks_start(bytes@, p as int, floor as int),
        floor <= start <= p,
{
    let mut q: usize = p;
    while q > floor && (bytes[q - 1] == SPACE || bytes[q - 1] == TAB)
        invariant
            floor <= q <= p <= bytes@.len(),
            blanks_start(bytes@, p as int, floor as int) == blanks_start(
                bytes@,
                q as int,
                floor as int,
            ),
        decreases q,
    {
        q = q - 1;
    }
    q
}

proof fn lemma_number_grows(b: Seq<u8>, s: int, mid: int, e: int)
    requires
        s <= mid <= e,
    ensures
        number_value(b, s, mid, false) <= number_value(b, s, e, false),
    decreases e - mid,
{
    if mid < e {
        lemma_number_grows(b, s, mid, e - 1);
        assert(number_value(b, s, e, false) >= number_value(b, s, e - 1, false) * 10);
    }
}

/// The number that `[s, e)` writes, where it is one and fits.
fn read_number(bytes: &[u8], s: usize, e: usize) -> (value: Option<u64>)
    requires
        s <= e <= bytes@.len(),
    ensures
        match value {
            Some(v) => all_digits(bytes@, s as int, e as int) && v == number_value(
                bytes@,
                s as int,
                e as int,
                false,
            ),
            None => !all_digits(bytes@, s as int, e as int) || number_value(
                bytes@,
                s as int,
                e as int,
                false,
            ) > u64::MAX,
        },
{
    let mut value: u64 = 0;
    let mut q: usize = s;
    while q < e
        invariant
            s <= q <= e <= bytes@.len(),
            all_digits(bytes@, s as int, q as int),
            value == number_value(bytes@, s as int, q as int, false),
        decreases e - q,
    {
        let c = bytes[q];
        if c < 48 || 57 < c {
            assert(digit_value(bytes@[q as int], false) is None);
            return None;
        }
        let digit: u64 = (c - 48) as u64;
        proof {
            lemma_number_grows(bytes@, s as int, q + 1, e as int);
        }
        if value > (u64::MAX - digit) / 10 {
            return None;
        }
        value = value * 10 + digit;
        q = q + 1;
    }
    Some(value)
}

/// The ordinal of the marker that `bytes[start..end]` is, up to blanks around
/// it.
fn parse_marker(bytes: &[u8], start: usize, end: usize) -> (ordinal: Option<u64>)
    requires
        start <= end <= bytes@.len(),
    ensures
        ordinal == marker_ordinal(bytes@, start as int, end as int),
{
    let s: usize = skip_blanks(bytes, start, end);
    let e: usize = drop_blanks(bytes, end, s);
    if e - s < 4 || bytes[s] != OPEN_BRACE || bytes[s + 1] != OPEN_BRACE || bytes[e - 2]
        != CLOSE_BRACE || bytes[e - 1] != CLOSE_BRACE {
        return None;
    }
    let inner: usize = skip_blanks(bytes, s + 2, e - 2);
    let inner_end: usize = drop_blanks(bytes, e - 2, inner);
    if inner_end - inner < 5 || bytes[inner] != 101 || bytes[inner + 1] != 109 || bytes[inner + 2]
        != 98 || bytes[inner + 3] != 101 || bytes[inner + 4] != 100 {
        return None;
    }
    let number: usize = skip_blanks(bytes, inner + 5, inner_end);
    if number == inner + 5 || number == inner_end {
        return None;
    }
    read_number(bytes, number, inner_end)
}

/// The ordinal of the marker that the whole text is, up to blanks around it.
pub fn parse_embed_text(s: &str) -> (ordinal: Option<u64>)
    ensures
        ordinal == marker_ordinal(bytes_of(s@), 0, bytes_of(s@).len() as int),
{
    let bytes = s.as_bytes();
    parse_marker(bytes, 0, bytes.len())
}

// ---------------------------------------------------------------------------
// Blocks
// ---------------------------------------------------------------------------

/// One embed block: the bytes of its marker and the mapped ordinal.
#[derive(Debug, PartialEq, Eq)]
pub struct EmbedBlock {
    pub range: Range<usize>,
    pub ordinal: u64,
}

impl Clone for EmbedBlock {
    fn clone(&self) -> (copy: Self)
        ensures
            copy == *self,
    {
        EmbedBlock { range: self.range.start..self.range.end, ordinal: self.ordinal }
    }
}

/// The block that a top-level node is, if it is one: a paragraph whose text,
/// without the newlines at its end, is the marker of a mapped ordinal.
pub open spec fn block_of(node: Node, b: Seq<u8>, map: Map<u64, String>) -> Option<EmbedBlock> {
    let end = run_start(b, node.range.end as int, node.range.start as int, NL);
    match marker_ordinal(b, node.range.start as int, end) {
        Some(ordinal) => if node.kind is Paragraph && map.contains_key(ordinal) {
            Some(
                EmbedBlock {
                    range: Range { start: node.range.start, end: end as usize },
                    ordinal,
                },
            )
        } else {
            None
        },
        None => None,
    }
}

/// The blocks among the top-level nodes, in their order.
pub open spec fn blocks_in(nodes: Seq<Node>, b: Seq<u8>, map: Map<u64, String>) -> Seq<EmbedBlock>
    decreases nodes.len(),
{
    if nodes.len() == 0 {
        Seq::empty()
    } else {
        let before = blocks_in(nodes.drop_last(), b, map);
        match block_of(nodes.last(), b, map) {
            Some(block) => before.push(block),
            None => before,
        }
    }
}

/// The embed blocks of a text.
pub open spec fn blocks_of(text: Seq<char>, map: Map<u64, String>) -> Seq<EmbedBlock> {
    blocks_in(syntax_tree(text), bytes_of(text), map)
}

fn find_block(node: &SyntaxNode, bytes: &[u8], embeds: &EmbedMap) -> (found: Option<EmbedBlock>)
    requires
        node_fits(node@, bytes@),
    ensures
        found == block_of(node@, bytes@, embeds@),
{
    if let NodeKind::Paragraph = node.kind {
        let start: usize = node.range.start;
        let end: usize = run_start_offset(bytes, node.range.end, start, NL);
        match parse_marker(bytes, start, end) {
            Some(ordinal) => if embeds.contains(ordinal) {
                Some(EmbedBlock { range: start..end, ordinal })
            } else {
                None
            },
            None => None,
        }
    } else {
        None
    }
}

/// Finds the embed blocks of a tree over `bytes`, in source order.
pub fn embed_blocks_in_tree(tree: &Vec<SyntaxNode>, bytes: &[u8], embeds: &EmbedMap) -> (blocks: Vec<
    EmbedBlock,
>)
    requires
        tree_fits(nodes_view(tree@), bytes@),
    ensures
        blocks@ == blocks_in(nodes_view(tree@), bytes@, embeds@),
{
    let ghost all = nodes_view(tree@);
    let mut out: Vec<EmbedBlock> = Vec::new();
    let mut i: usize = 0;
    while i < tree.len()
        invariant
            i <= tree@.len(),
            all == nodes_view(tree@),
            tree_fits(all, bytes@),
            out@ == blocks_in(all.take(i as int), bytes@, embeds@),
        decreases tree@.len() - i,
    {
        proof {
            assert(all.take(i + 1).drop_last() =~= all.take(i as int));
            assert(all.take(i + 1).last() == all[i as int]);
            assert(all[i as int] == tree@[i as int]@);
            assert(node_fits(all[i as int], bytes@));
        }
        if let Some(block) = find_block(&tree[i], bytes, embeds) {
            out.push(block);
        }
        i = i + 1;
    }
    assert(all.take(i as int) =~= all);
    out
}

/// Finds the embed blocks of a text, in source order.
pub fn embed_blocks(markdown: &str, embeds: &EmbedMap) -> (blocks: Vec<EmbedBlock>)
    ensures
        blocks@ == blocks_of(markdown@, embeds@),
{
    if embeds.is_empty() {
        proof {
            lemma_no_entries_no_blocks(syntax_tree(markdown@), bytes_of(markdown@));
        }
        return Vec::new();
    }
    let tree = parse(markdown);
    embed_blocks_in_tree(&tree, markdown.as_bytes(), embeds)
}

proof fn lemma_no_entries_no_blocks(nodes: Seq<Node>, b: Seq<u8>)
    ensures
        blocks_in(nodes, b, Map::empty()) == Seq::<EmbedBlock>::empty(),
    decreases nodes.len(),
{
    if nodes.len() > 0 {
        lemma_no_entries_no_blocks(nodes.drop_last(), b);
    }
}

/// How a block may lie to a position.
#[derive(Debug, Clone, Copy, PartialEq, Eq, Structural)]
enum Place {
    Around,
    Before,
    After,
}

/// The first of the blocks that holds `p` strictly inside.
pub open spec fn block_around(blocks: Seq<EmbedBlock>, p: usize) -> Option<EmbedBlock>
    decreases blocks.len(),
{
    if blocks.len() == 0 {
        None
    } else if blocks[0].range.start < p < blocks[0].range.end {
        Some(blocks[0])
    } else {
        block_around(blocks.drop_first(), p)
    }
}

/// The first of the blocks that ends at `p`.
pub open spec fn block_before(blocks: Seq<EmbedBlock>, p: usize) -> Option<EmbedBlock>
    decreases blocks.len(),
{
    if blocks.len() == 0 {
        None
    } else if blocks[0].range.end == p {
        Some(blocks[0])
    } else {
        block_before(blocks.drop_first(), p)
    }
}

/// The first of the blocks that starts at `p`.
pub open spec fn block_after(blocks: Seq<EmbedBlock>, p: usize) -> Option<EmbedBlock>
    decreases blocks.len(),
{
    if blocks.len() == 0 {
        None
    } else if blocks[0].range.start == p {
        Some(blocks[0])
    } else {
        block_after(blocks.drop_first(), p)
    }
}

spec fn block_at(blocks: Seq<EmbedBlock>, place: Place, p: usize) -> Option<EmbedBlock> {
    match place {
        Place::Around => block_around(blocks, p),
        Place::Before => block_before(blocks, p),
        Place::After => block_after(blocks, p),
    }
}

fn find_block_at(blocks: &Vec<EmbedBlock>, place: Place, p: usize) -> (found: Option<EmbedBlock>)
    ensures
        found == block_at(blocks@, place, p),
{
    let ghost all = blocks@;
    let mut i: usize = 0;
    assert(all.skip(0) =~= all);
    while i < blocks.len()
        invariant
            i <= blocks@.len(),
            all == blocks@,
            block_at(all, place, p) == block_at(all.skip(i as int), place, p),
        decreases blocks@.len() - i,
    {
        assert(all.skip(i as int).drop_first() =~= all.skip(i + 1));
        assert(all.skip(i as int)[0] == all[i as int]);
        let start: usize = blocks[i].range.start;
        let end: usize = blocks[i].range.end;
        let matched = match place {
            Place::Around => start < p && p < end,
            Place::Before => end == p,
            Place::After => start == p,
        };
        if matched {
            return Some(blocks[i].clone());
        }
        i = i + 1;
    }
    None
}

/// Finds the embed block that holds `p` strictly inside. The edges of a block
/// are ordinary caret positions.
pub fn embed_interior_at(markdown: &str, embeds: &EmbedMap, p: usize) -> (found: Option<EmbedBlock>)
    ensures
        found == block_around(blocks_of(markdown@, embeds@), p),
{
    find_block_at(&embed_blocks(markdown, embeds), Place::Around, p)
}

/// Finds the embed block that ends at `p`: a backspace there removes it whole.
pub fn embed_ending_at(markdown: &str, embeds: &EmbedMap, p: usize) -> (found: Option<EmbedBlock>)
    ensures
        found == block_before(blocks_of(markdown@, embeds@), p),
{
    find_block_at(&embed_blocks(markdown, embeds), Place::Before, p)
}

/// Finds the embed block that starts at `p`: a forward delete there removes it
/// whole.
pub fn embed_starting_at(markdown: &str, embeds: &EmbedMap, p: usize) -> (found: Option<EmbedBlock>)
    ensures
        found == block_after(blocks_of(markdown@, embeds@), p),
{
    find_block_at(&embed_blocks(markdown, embeds), Place::After, p)
}

// ---------------------------------------------------------------------------
// Laws
// ---------------------------------------------------------------------------

/// A text whose first character is a backslash is no marker: escaping the
/// braces keeps them literal.
pub proof fn escaped_braces_are_no_marker(b: Seq<u8>)
    requires
        b.len() > 0,
        b[0] == 92,
    ensures
        marker_ordinal(b, 0, b.len() as int) is None,
{
    lemma_blanks_start(b, b.len() as int, 0);
}

/// The text of every embed block is the marker of its ordinal, and the ordinal
/// is mapped.
pub proof fn blocks_are_mapped_markers(nodes: Seq<Node>, b: Seq<u8>, map: Map<u64, String>, i: int)
    requires
        ranges_fit(nodes, b),
        b.len() <= usize::MAX,
        0 <= i < blocks_in(nodes, b, map).len(),
    ensures
        ({
            let block = blocks_in(nodes, b, map)[i];
            &&& block.range.start <= block.range.end <= b.len()
            &&& marker_ordinal(b, block.range.start as int, block.range.end as int) == Some(
                block.ordinal,
            )
            &&& map.contains_key(block.ordinal)
        }),
    decreases nodes.len(),
{
    if nodes.len() > 0 {
        let rest = nodes.drop_last();
        assert(in_buffer(nodes[nodes.len() - 1].range, b));
        crate::text::lemma_run_start_bounds(
            b,
            nodes.last().range.end as int,
            nodes.last().range.start as int,
            NL,
        );
        assert forall|j: int| 0 <= j < rest.len() implies in_buffer((#[trigger] rest[j]).range, b) by {
            assert(rest[j] == nodes[j]);
        }
        if i < blocks_in(rest, b, map).len() {
            blocks_are_mapped_markers(rest, b, map, i);
        }
    }
}

/// Is every block some bytes long, and does it end before the next one starts?
pub open spec fn blocks_apart(blocks: Seq<EmbedBlock>) -> bool {
    &&& forall|i: int|
        0 <= i < blocks.len() ==> (#[trigger] blocks[i]).range.start < blocks[i].range.end
    &&& forall|i: int, j: int|
        0 <= i < j < blocks.len() ==> (#[trigger] blocks[i]).range.end <= (
        #[trigger] blocks[j]).range.start
}

proof fn lemma_markers_have_bytes(b: Seq<u8>, s: int, e: int)
    requires
        marker_ordinal(b, s, e) is Some,
        s <= e,
    ensures
        s < e,
{
    lemma_blanks_end(b, s, e);
    lemma_blanks_start(b, e, blanks_end(b, s, e));
}

/// The embed blocks of a tree whose siblings are in order are in order too, and
/// they do not overlap.
pub proof fn blocks_are_apart(nodes: Seq<Node>, b: Seq<u8>, map: Map<u64, String>)
    requires
        ranges_fit(nodes, b),
        b.len() <= usize::MAX,
        siblings_in_order(nodes),
    ensures
        blocks_apart(blocks_in(nodes, b, map)),
        nodes.len() > 0 ==> forall|i: int|
            0 <= i < blocks_in(nodes, b, map).len() ==> (#[trigger] blocks_in(
                nodes,
                b,
                map,
            )[i]).range.end <= nodes.last().range.end,
    decreases nodes.len(),
{
    if nodes.len() > 0 {
        let rest = nodes.drop_last();
        let last = nodes.last();
        let before = blocks_in(rest, b, map);
        let all = blocks_in(nodes, b, map);
        assert(in_buffer(nodes[nodes.len() - 1].range, b));
        crate::text::lemma_run_start_bounds(
            b,
            last.range.end as int,
            last.range.start as int,
            NL,
        );
        assert forall|j: int| 0 <= j < rest.len() implies in_buffer((#[trigger] rest[j]).range, b) by {
            assert(rest[j] == nodes[j]);
        }
        assert forall|i: int, j: int| 0 <= i < j < rest.len() implies (
        #[trigger] rest[i]).range.end <= (#[trigger] rest[j]).range.start by {
            assert(rest[i] == nodes[i] && rest[j] == nodes[j]);
        }
        blocks_are_apart(rest, b, map);
        assert forall|i: int| 0 <= i < before.len() implies (#[trigger] before[i]).range.end
            <= last.range.start by {
            if rest.len() == 0 {
                assert(before.len() == 0);
            } else {
                assert(nodes[rest.len() - 1].range.end <= nodes[nodes.len() - 1].range.start);
            }
        }
        if let Some(block) = block_of(last, b, map) {
            lemma_markers_have_bytes(b, block.range.start as int, block.range.end as int);
            assert(all == before.push(block));
        } else {
            assert(all == before);
        }
    }
}

proof fn lemma_first_match(blocks: Seq<EmbedBlock>, k: int, i: int, p: usize)
    requires
        blocks_apart(blocks),
        0 <= k <= i < blocks.len(),
        blocks[i].range.start <= p <= blocks[i].range.end,
    ensures
        blocks[i].range.start < p < blocks[i].range.end ==> block_around(blocks.skip(k), p) == Some(
            blocks[i],
        ),
        p == blocks[i].range.end ==> block_before(blocks.skip(k), p) == Some(blocks[i]),
        p == blocks[i].range.start ==> block_after(blocks.skip(k), p) == Some(blocks[i]),
    decreases i - k,
{
    assert(blocks.skip(k)[0] == blocks[k]);
    assert(blocks.skip(k).drop_first() =~= blocks.skip(k + 1));
    if k < i {
        assert(blocks[k].range.end <= blocks[i].range.start);
        assert(blocks[k].range.start < blocks[k].range.end);
        assert(blocks[i].range.start < blocks[i].range.end);
        lemma_first_match(blocks, k + 1, i, p);
    }
}

proof fn lemma_edges_are_outside(blocks: Seq<EmbedBlock>, k: int, i: int, p: usize)
    requires
        blocks_apart(blocks),
        0 <= k <= blocks.len(),
        0 <= i < blocks.len(),
        p == blocks[i].range.start || p == blocks[i].range.end,
    ensures
        block_around(blocks.skip(k), p) is None,
    decreases blocks.len() - k,
{
    if k < blocks.len() {
        assert(blocks.skip(k)[0] == blocks[k]);
        assert(blocks.skip(k).drop_first() =~= blocks.skip(k + 1));
        assert(blocks[i].range.start < blocks[i].range.end);
        if k < i {
            assert(blocks[k].range.end <= blocks[i].range.start);
        } else if i < k {
            assert(blocks[i].range.end <= blocks[k].range.start);
        }
        lemma_edges_are_outside(blocks, k + 1, i, p);
    }
}

proof fn lemma_blanks_shifted(b: Seq<u8>, c: Seq<u8>, at: int, p: int, q: int)
    requires
        forall|i: int| p <= i < q ==> #[trigger] c[i] == b[at + i],
    ensures
        blanks_end(b, at + p, at + q) == at + blanks_end(c, p, q),
        blanks_start(b, at + q, at + p) == at + blanks_start(c, q, p),
    decreases q - p,
{
    if p < q {
        assert(c[p] == b[at + p]);
        assert(c[q - 1] == b[at + q - 1]);
        lemma_blanks_shifted(b, c, at, p + 1, q);
        lemma_blanks_shifted(b, c, at, p, q - 1);
    }
}

proof fn lemma_bare_marker_shifted(b: Seq<u8>, c: Seq<u8>, at: int, s: int, e: int)
    requires
        0 <= s <= e <= c.len(),
        forall|i: int| s <= i < e ==> #[trigger] c[i] == b[at + i],
    ensures
        bare_marker(b, at + s, at + e) == bare_marker(c, s, e),
{
    if e - s >= 4 {
        assert(c[s] == b[at + s] && c[s + 1] == b[at + s + 1]);
        assert(c[e - 2] == b[at + e - 2] && c[e - 1] == b[at + e - 1]);
        lemma_blanks_shifted(b, c, at, s + 2, e - 2);
        lemma_blanks_end(c, s + 2, e - 2);
        let inner = blanks_end(c, s + 2, e - 2);
        lemma_blanks_shifted(b, c, at, inner, e - 2);
        lemma_blanks_start(c, e - 2, inner);
        let end = blanks_start(c, e - 2, inner);
        if end - inner >= 5 {
            assert(c[inner] == b[at + inner] && c[inner + 1] == b[at + inner + 1]);
            assert(c[inner + 2] == b[at + inner + 2] && c[inner + 3] == b[at + inner + 3]);
            assert(c[inner + 4] == b[at + inner + 4]);
            lemma_blanks_shifted(b, c, at, inner + 5, end);
            lemma_blanks_end(c, inner + 5, end);
            let number = blanks_end(c, inner + 5, end);
            lemma_number_shifted(b, c, at, number, end);
            assert(all_digits(b, at + number, at + end) == all_digits(c, number, end)) by {
                if all_digits(c, number, end) {
                    assert forall|i: int| at + number <= i < at + end implies digit_value(
                        #[trigger] b[i],
                        false,
                    ) is Some by {
                        assert(c[i - at] == b[at + (i - at)]);
                    }
                }
                if all_digits(b, at + number, at + end) {
                    assert forall|i: int| number <= i < end implies digit_value(
                        #[trigger] c[i],
                        false,
                    ) is Some by {
                        assert(digit_value(b[at + i], false) is Some);
                    }
                }
            }
        }
    }
}

/// Whether a range is a marker depends on its own bytes only.
pub proof fn markers_are_read_off_their_bytes(b: Seq<u8>, s: int, e: int)
    requires
        0 <= s <= e <= b.len(),
    ensures
        marker_ordinal(b, s, e) == marker_ordinal(b.subrange(s, e), 0, e - s),
{
    let c = b.subrange(s, e);
    lemma_blanks_shifted(b, c, s, 0, e - s);
    let start = blanks_end(c, 0, e - s);
    lemma_blanks_end(c, 0, e - s);
    lemma_blanks_shifted(b, c, s, start, e - s);
    lemma_blanks_start(c, e - s, start);
    lemma_bare_marker_shifted(b, c, s, start, blanks_start(c, e - s, start));
}

/// Each position query finds the one embed block there: a position strictly
/// inside of a block finds it, its edges are not inside of any, and it is found
/// at its start and at its end. The text of the block is the marker of its
/// ordinal, which is mapped.
pub proof fn queries_find_their_block(text: Seq<char>, map: Map<u64, String>, i: int)
    requires
        bytes_of(text).len() <= usize::MAX,
        0 <= i < blocks_of(text, map).len(),
    ensures
        ({
            let blocks = blocks_of(text, map);
            let block = blocks[i];
            let start = block.range.start;
            let end = block.range.end;
            &&& forall|p: usize| start < p < end ==> #[trigger] block_around(blocks, p) == Some(block)
            &&& block_around(blocks, start) is None
            &&& block_around(blocks, end) is None
            &&& block_after(blocks, start) == Some(block)
            &&& block_before(blocks, end) == Some(block)
            &&& start <= end <= bytes_of(text).len()
            &&& marker_ordinal(
                bytes_of(text).subrange(start as int, end as int),
                0,
                end - start,
            ) == Some(block.ordinal)
            &&& map.contains_key(block.ordinal)
        }),
{
    let b = bytes_of(text);
    let nodes = syntax_tree(text);
    let blocks = blocks_of(text, map);
    let block = blocks[i];
    blocks_come_in_order(text);
    blocks_are_apart(nodes, b, map);
    blocks_are_mapped_markers(nodes, b, map, i);
    markers_are_read_off_their_bytes(b, block.range.start as int, block.range.end as int);
    assert(blocks.skip(0) =~= blocks);
    assert(blocks[i].range.start < blocks[i].range.end);
    lemma_first_match(blocks, 0, i, block.range.start);
    lemma_first_match(blocks, 0, i, block.range.end);
    lemma_edges_are_outside(blocks, 0, i, block.range.start);
    lemma_edges_are_outside(blocks, 0, i, block.range.end);
    assert forall|p: usize| block.range.start < p < block.range.end implies #[trigger] block_around(
        blocks,
        p,
    ) == Some(block) by {
        lemma_first_match(blocks, 0, i, p);
    }
}

/// Reading the decimal form of a number gives the number back.
proof fn lemma_decimal_reads_back(n: nat)
    ensures
        vstd::utf8::is_ascii_chars(decimal(n)),
        decimal(n).len() > 0,
        all_digits(bytes_of(decimal(n)), 0, bytes_of(decimal(n)).len() as int),
        bytes_of(decimal(n)).len() == decimal(n).len(),
        number_value(bytes_of(decimal(n)), 0, bytes_of(decimal(n)).len() as int, false) == n,
    decreases n,
{
    let text = decimal(n);
    let b = bytes_of(text);
    if n >= 10 {
        lemma_decimal_reads_back(n / 10);
    }
    vstd::utf8::is_ascii_chars_encode_utf8(text);
    assert(text.last() == digit_char(n % 10));
    assert(b.last() == 48 + n % 10);
    let front = text.drop_last();
    if n >= 10 {
        assert(front =~= decimal(n / 10));
        vstd::utf8::is_ascii_chars_encode_utf8(front);
        assert(b.drop_last() =~= bytes_of(front));
        lemma_number_shifted(b, bytes_of(front), 0, 0, front.len() as int);
        assert forall|i: int| 0 <= i < b.len() implies digit_value(#[trigger] b[i], false) is Some by {
            if i < b.len() - 1 {
                assert(b[i] == bytes_of(front)[i]);
            }
        }
    } else {
        assert(number_value(b, 0, 0, false) == 0);
        assert(number_value(b, 0, 1, false) == n);
    }
}

proof fn lemma_number_shifted(a: Seq<u8>, b: Seq<u8>, at: int, s: int, e: int)
    requires
        forall|i: int| s <= i < e ==> #[trigger] b[i] == a[at + i],
    ensures
        number_value(a, at + s, at + e, false) == number_value(b, s, e, false),
    decreases e - s,
{
    if s < e {
        lemma_number_shifted(a, b, at, s, e - 1);
        assert(b[e - 1] == a[at + e - 1]);
    }
}

/// The marker of an ordinal reads back as that ordinal.
pub proof fn marker_reads_back(ordinal: u64)
    ensures
        ({
            let b = bytes_of(marker(ordinal as nat));
            marker_ordinal(b, 0, b.len() as int) == Some(ordinal)
        }),
{
    let digits = decimal(ordinal as nat);
    let text = marker(ordinal as nat);
    let b = bytes_of(text);
    let n = digits.len() as int;
    reveal_strlit("{{ embed ");
    reveal_strlit(" }}");
    lemma_decimal_reads_back(ordinal as nat);
    vstd::utf8::is_ascii_chars_encode_utf8(text);
    vstd::utf8::is_ascii_chars_encode_utf8(digits);
    assert(text.len() == 12 + n);
    assert(text[0] == '{' && text[1] == '{' && text[2] == ' ' && text[3] == 'e' && text[4] == 'm'
        && text[5] == 'b' && text[6] == 'e' && text[7] == 'd' && text[8] == ' ');
    assert forall|i: int| 0 <= i < n implies #[trigger] bytes_of(digits)[i] == b[9 + i] by {
        assert(text[9 + i] == digits[i]);
    }
    assert(text[9 + n] == ' ' && text[10 + n] == '}' && text[11 + n] == '}');
    lemma_number_shifted(b, bytes_of(digits), 9, 0, n);
    assert forall|i: int| 9 <= i < 9 + n implies digit_value(#[trigger] b[i], false) is Some by {
        assert(b[i] == bytes_of(digits)[i - 9]);
    }
    let e = b.len() as int;
    assert(blanks_end(b, 0, e) == 0);
    assert(blanks_start(b, e, 0) == e);
    assert(blanks_end(b, 3, e - 2) == 3);
    assert(blanks_end(b, 2, e - 2) == 3);
    assert(digit_value(b[e - 4], false) is Some);
    assert(blanks_start(b, e - 3, 3) == e - 3);
    assert(blanks_start(b, e - 2, 3) == e - 3);
    assert(digit_value(b[9], false) is Some);
    assert(blanks_end(b, 9, e - 3) == 9);
    assert(blanks_end(b, 8, e - 3) == 9);
}

} // verus!
