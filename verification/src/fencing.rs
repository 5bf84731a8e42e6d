//! Text inside of a fenced code block.

use vstd::prelude::*;

use crate::strings::chars_of;

verus! {

/// How many backticks end at character `i`.
pub open spec fn ticks_before(text: Seq<char>, i: int) -> nat
    decreases i,
{
    if i <= 0 || text[i - 1] != '`' {
        0
    } else {
        ticks_before(text, i - 1) + 1
    }
}

/// The longest run of backticks in the first `i` characters.
pub open spec fn longest_ticks(text: Seq<char>, i: int) -> nat
    decreases i,
{
    if i <= 0 {
        0
    } else {
        let before = longest_ticks(text, i - 1);
        let here = ticks_before(text, i);
        if here > before {
            here
        } else {
            before
        }
    }
}

/// How long the fence of a text is: longer than any run of backticks in it, and
/// three at least.
pub open spec fn fence_size(text: Seq<char>) -> nat {
    let n = longest_ticks(text, text.len() as int) + 1;
    if n < 3 {
        3
    } else {
        n
    }
}

pub open spec fn ticks(n: nat) -> Seq<char> {
    Seq::new(n, |i: int| '`')
}

/// The text inside of a fenced code block; the closing fence has a line of its
/// own.
pub open spec fn fenced(text: Seq<char>) -> Seq<char> {
    let fence = ticks(fence_size(text));
    let body = fence.push('\n') + text;
    let closed = if text.len() > 0 && text.last() == '\n' {
        body
    } else {
        body.push('\n')
    };
    closed + fence
}

proof fn lemma_longest(text: Seq<char>, i: int)
    requires
        0 <= i <= text.len(),
    ensures
        longest_ticks(text, i) <= i,
        ticks_before(text, i) <= i,
    decreases i,
{
    if i > 0 {
        lemma_longest(text, i - 1);
    }
}

fn push_ticks(out: &mut String, n: usize)
    ensures
        final(out)@ == old(out)@ + ticks(n as nat),
{
    let ghost before = out@;
    let mut i: usize = 0;
    while i < n
        invariant
            i <= n,
            out@ =~= before + ticks(i as nat),
        decreases n - i,
    {
        out.push('`');
        i = i + 1;
    }
}

/// The text inside of a fenced code block.
pub fn wrap_in_fenced_code_block(content: &str) -> (block: String)
    requires
        content@.len() < usize::MAX,
    ensures
        block@ == fenced(content@),
{
    let chars = chars_of(content);
    let mut longest: usize = 0;
    let mut run: usize = 0;
    let mut i: usize = 0;
    while i < chars.len()
        invariant
            chars@ == content@,
            i <= chars@.len(),
            longest == longest_ticks(content@, i as int),
            run == ticks_before(content@, i as int),
        decreases chars@.len() - i,
    {
        proof {
            lemma_longest(content@, i + 1);
        }
        if chars[i] == '`' {
            run = run + 1;
            if run > longest {
                longest = run;
            }
        } else {
            run = 0;
        }
        i = i + 1;
    }
    proof {
        lemma_longest(content@, content@.len() as int);
    }
    let size: usize = if longest + 1 < 3 {
        3
    } else {
        longest + 1
    };
    let mut block = String::new();
    push_ticks(&mut block, size);
    block.push('\n');
    block.push_str(content);
    if chars.len() == 0 || chars[chars.len() - 1] != '\n' {
        block.push('\n');
    }
    push_ticks(&mut block, size);
    assert(block@ =~= fenced(content@));
    block
}

// ---------------------------------------------------------------------------
// Laws
// ---------------------------------------------------------------------------

proof fn lemma_run(text: Seq<char>, start: int, end: int)
    requires
        0 <= start <= end <= text.len(),
        forall|k: int| start <= k < end ==> #[trigger] text[k] == '`',
    ensures
        ticks_before(text, end) >= end - start,
        longest_ticks(text, text.len() as int) >= end - start,
    decreases text.len() - start,
{
    lemma_ticks_before(text, start, end);
    lemma_longest_grows(text, end, text.len() as int);
}

proof fn lemma_ticks_before(text: Seq<char>, start: int, end: int)
    requires
        0 <= start <= end <= text.len(),
        forall|k: int| start <= k < end ==> #[trigger] text[k] == '`',
    ensures
        ticks_before(text, end) >= end - start,
    decreases end - start,
{
    if start < end {
        assert(text[end - 1] == '`');
        lemma_ticks_before(text, start, end - 1);
    }
}

proof fn lemma_longest_grows(text: Seq<char>, i: int, j: int)
    requires
        0 <= i <= j <= text.len(),
    ensures
        ticks_before(text, i) <= longest_ticks(text, j),
    decreases j,
{
    if i < j {
        lemma_longest_grows(text, i, j - 1);
    }
}

/// No part of the text is as long a run of backticks as the fence.
pub proof fn fences_are_longer_than_the_text(text: Seq<char>, start: int)
    requires
        0 <= start,
        start + fence_size(text) <= text.len(),
    ensures
        exists|k: int| start <= k < start + fence_size(text) && #[trigger] text[k] != '`',
{
    let end = start + fence_size(text);
    if forall|k: int| start <= k < end ==> #[trigger] text[k] == '`' {
        lemma_run(text, start, end);
        assert(false);
    }
}

proof fn lemma_run_before(text: Seq<char>, end: int)
    requires
        0 <= end <= text.len(),
    ensures
        ticks_before(text, end) <= end,
        forall|k: int| end - ticks_before(text, end) <= k < end ==> #[trigger] text[k] == '`',
    decreases end,
{
    if end > 0 && text[end - 1] == '`' {
        lemma_run_before(text, end - 1);
    }
}

proof fn lemma_longest_found(text: Seq<char>, i: int) -> (end: int)
    requires
        0 <= i <= text.len(),
    ensures
        0 <= end <= i,
        ticks_before(text, end) == longest_ticks(text, i),
    decreases i,
{
    if i <= 0 {
        0
    } else if ticks_before(text, i) > longest_ticks(text, i - 1) {
        i
    } else {
        lemma_longest_found(text, i - 1)
    }
}

/// A text in a code block is there as it was, on lines of its own between two equal
/// fences of backticks. There are three of them, or one more than in the longest run
/// of backticks of the text.
pub proof fn fenced_text_stands_between_fences(text: Seq<char>)
    ensures
        ({
            let n = fence_size(text);
            let fence = Seq::new(n, |i: int| '`');
            &&& n >= 3
            &&& text.len() > 0 && text.last() == '\n' ==> fenced(text) == fence + seq!['\n'] + text
                + fence
            &&& text.len() == 0 || text.last() != '\n' ==> fenced(text) == fence + seq!['\n'] + text
                + seq!['\n'] + fence
            &&& n > 3 ==> exists|start: int|
                0 <= start && start + n - 1 <= text.len() && #[trigger] is_run(text, start, n - 1)
        }),
{
    let n = fence_size(text);
    let fence = Seq::new(n, |i: int| '`');
    assert(fence =~= ticks(n));
    if text.len() > 0 && text.last() == '\n' {
        assert(fenced(text) =~= fence + seq!['\n'] + text + fence);
    } else {
        assert(fenced(text) =~= fence + seq!['\n'] + text + seq!['\n'] + fence);
    }
    if n > 3 {
        let end = lemma_longest_found(text, text.len() as int);
        lemma_run_before(text, end);
        assert(is_run(text, end - (n - 1), n - 1));
    }
}

/// Are the `n` characters from `start` on backticks?
pub open spec fn is_run(text: Seq<char>, start: int, n: int) -> bool {
    forall|k: int| start <= k < start + n ==> #[trigger] text[k] == '`'
}

} // verus!
