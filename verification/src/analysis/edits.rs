//! Edits of the source, and the lists they are collected in.

use core::ops::Range;

use vstd::prelude::*;

verus! {

/// Replace the bytes of `range` by `replacement`. Ranges are those of the
/// buffer before any edit of the list.
#[derive(Debug)]
pub struct SourceEdit {
    pub range: Range<usize>,
    pub replacement: String,
}

/// The mathematical form of a [`SourceEdit`].
#[verifier::ext_equal]
pub struct Edit {
    pub range: Range<usize>,
    pub text: Seq<char>,
}

impl View for SourceEdit {
    type V = Edit;

    open spec fn view(&self) -> Edit {
        Edit { range: self.range, text: self.replacement@ }
    }
}

impl Clone for SourceEdit {
    fn clone(&self) -> (copy: Self)
        ensures
            copy == *self,
    {
        SourceEdit {
            range: self.range.start..self.range.end,
            replacement: self.replacement.clone(),
        }
    }
}

/// The mathematical form of a list of edits.
pub open spec fn edits_view(edits: Seq<SourceEdit>) -> Seq<Edit> {
    Seq::new(edits.len(), |i: int| edits[i]@)
}

/// The edit of the bytes from `start` to `end`.
pub open spec fn edit(start: int, end: int, text: Seq<char>) -> Edit {
    Edit { range: Range { start: start as usize, end: end as usize }, text }
}

/// Is the edit's range not inverted?
pub open spec fn well_ranged(e: Edit) -> bool {
    e.range.start <= e.range.end
}

pub open spec fn all_well_ranged(edits: Seq<Edit>) -> bool {
    forall|i: int| 0 <= i < edits.len() ==> well_ranged(#[trigger] edits[i])
}

/// Does the edit remove bytes without putting anything in their place?
pub open spec fn is_strip(e: Edit) -> bool {
    e.text.len() == 0
}

/// Does the edit change nothing?
pub open spec fn is_noop(e: Edit) -> bool {
    e.range.start == e.range.end && e.text.len() == 0
}

/// The order of edits: by start, then by end, then strips before the others.
pub open spec fn ordered(a: Edit, c: Edit) -> bool {
    ||| a.range.start < c.range.start
    ||| a.range.start == c.range.start && (a.range.end < c.range.end || (a.range.end == c.range.end
        && (is_strip(a) || !is_strip(c))))
}

/// `sorted` with `e` put after the last edit that does not come after it.
pub open spec fn insert_in_order(sorted: Seq<Edit>, e: Edit) -> Seq<Edit>
    decreases sorted.len(),
{
    if sorted.len() == 0 || ordered(sorted.last(), e) {
        sorted.push(e)
    } else {
        insert_in_order(sorted.drop_last(), e).push(sorted.last())
    }
}

/// The edits in order; equal ones keep the order they came in.
pub open spec fn in_order(edits: Seq<Edit>) -> Seq<Edit>
    decreases edits.len(),
{
    if edits.len() == 0 {
        edits
    } else {
        insert_in_order(in_order(edits.drop_last()), edits.last())
    }
}

/// The edits by start alone; equal ones keep the order they came in.
pub open spec fn insert_by_start(sorted: Seq<Edit>, e: Edit) -> Seq<Edit>
    decreases sorted.len(),
{
    if sorted.len() == 0 || sorted.last().range.start <= e.range.start {
        sorted.push(e)
    } else {
        insert_by_start(sorted.drop_last(), e).push(sorted.last())
    }
}

pub open spec fn by_start(edits: Seq<Edit>) -> Seq<Edit>
    decreases edits.len(),
{
    if edits.len() == 0 {
        edits
    } else {
        insert_by_start(by_start(edits.drop_last()), edits.last())
    }
}

/// Are both edits strips, the second starting where the first ends?
pub open spec fn adjacent_strips(prev: Edit, e: Edit) -> bool {
    is_strip(prev) && is_strip(e) && prev.range.end == e.range.start
}

/// `out` with the next edit in order. Two strips that overlap or are adjacent
/// become one strip over both. Of two other overlapping edits the longer one
/// stays, the earlier one if they are equally long.
pub open spec fn resolve(out: Seq<Edit>, e: Edit) -> Seq<Edit> {
    if out.len() == 0 || (out.last().range.end <= e.range.start && !adjacent_strips(
        out.last(),
        e,
    )) {
        out.push(e)
    } else {
        let prev = out.last();
        if is_strip(prev) && is_strip(e) {
            out.drop_last().push(
                Edit {
                    range: Range {
                        start: prev.range.start,
                        end: if prev.range.end >= e.range.end {
                            prev.range.end
                        } else {
                            e.range.end
                        },
                    },
                    text: prev.text,
                },
            )
        } else if e.range.end - e.range.start > prev.range.end - prev.range.start {
            out.drop_last().push(e)
        } else {
            out
        }
    }
}

/// The edits, given in order, with every overlap resolved.
pub open spec fn resolved(edits: Seq<Edit>) -> Seq<Edit>
    decreases edits.len(),
{
    if edits.len() == 0 {
        edits
    } else {
        resolve(resolved(edits.drop_last()), edits.last())
    }
}

/// Does each edit end before the next one starts?
pub open spec fn disjoint(edits: Seq<Edit>) -> bool {
    &&& all_well_ranged(edits)
    &&& forall|i: int, j: int|
        0 <= i < j < edits.len() ==> (#[trigger] edits[i]).range.end <= (
        #[trigger] edits[j]).range.start
}

/// The edits that change something.
pub open spec fn effective(edits: Seq<Edit>) -> Seq<Edit> {
    edits.filter(|e: Edit| !is_noop(e))
}

/// Collects edits in any order; [`SourceEditList::finish`] gives them sorted
/// and free of overlaps.
#[derive(Debug)]
pub struct SourceEditList {
    edits: Vec<SourceEdit>,
}

impl View for SourceEditList {
    type V = Seq<Edit>;

    closed spec fn view(&self) -> Seq<Edit> {
        edits_view(self.edits@)
    }
}

impl Default for SourceEditList {
    fn default() -> (list: Self)
        ensures
            list@ == Seq::<Edit>::empty(),
    {
        SourceEditList::new()
    }
}

fn is_ordered(a: &SourceEdit, c: &SourceEdit) -> (found: bool)
    ensures
        found == ordered(a@, c@),
{
    if a.range.start != c.range.start {
        return a.range.start < c.range.start;
    }
    if a.range.end != c.range.end {
        return a.range.end < c.range.end;
    }
    a.replacement.as_str().is_empty() || !c.replacement.as_str().is_empty()
}

/// The edits in order.
pub fn sort_edits(edits: &Vec<SourceEdit>) -> (sorted: Vec<SourceEdit>)
    ensures
        edits_view(sorted@) == in_order(edits_view(edits@)),
{
    let ghost all = edits_view(edits@);
    let mut sorted: Vec<SourceEdit> = Vec::new();
    let mut i: usize = 0;
    assert(edits_view(sorted@) =~= in_order(all.take(0)));
    while i < edits.len()
        invariant
            i <= edits@.len(),
            all == edits_view(edits@),
            edits_view(sorted@) == in_order(all.take(i as int)),
        decreases edits@.len() - i,
    {
        let e = edits[i].clone();
        let ghost before = edits_view(sorted@);
        let ghost added = e@;
        proof {
            assert(all.take(i + 1).drop_last() =~= all.take(i as int));
            assert(all.take(i + 1).last() == added);
        }
        let mut j: usize = sorted.len();
        assert(before.take(j as int) =~= before);
        assert(before.skip(j as int) =~= Seq::empty());
        while j > 0 && !is_ordered(&sorted[j - 1], &e)
            invariant
                j <= sorted@.len(),
                e@ == added,
                before == edits_view(sorted@),
                insert_in_order(before, added) == insert_in_order(before.take(j as int), added)
                    + before.skip(j as int),
            decreases j,
        {
            proof {
                let head = before.take(j as int);
                assert(head.last() == sorted@[j - 1]@);
                assert(head.drop_last() =~= before.take(j - 1));
                assert(before.skip(j - 1) =~= seq![before[j - 1]] + before.skip(j as int));
                assert(insert_in_order(before, added) =~= insert_in_order(
                    before.take(j - 1),
                    added,
                ) + before.skip(j - 1));
            }
            j = j - 1;
        }
        proof {
            if j > 0 {
                assert(before.take(j as int).last() == sorted@[j - 1]@);
            }
            assert(insert_in_order(before.take(j as int), added) == before.take(j as int).push(
                added,
            ));
        }
        sorted.insert(j, e);
        assert(edits_view(sorted@) =~= insert_in_order(before, added));
        i = i + 1;
    }
    assert(all.take(i as int) =~= all);
    sorted
}

/// The edits by start.
pub fn sort_edits_by_start(edits: &Vec<SourceEdit>) -> (sorted: Vec<SourceEdit>)
    ensures
        edits_view(sorted@) == by_start(edits_view(edits@)),
{
    let ghost all = edits_view(edits@);
    let mut sorted: Vec<SourceEdit> = Vec::new();
    let mut i: usize = 0;
    assert(edits_view(sorted@) =~= by_start(all.take(0)));
    while i < edits.len()
        invariant
            i <= edits@.len(),
            all == edits_view(edits@),
            edits_view(sorted@) == by_start(all.take(i as int)),
        decreases edits@.len() - i,
    {
        let e = edits[i].clone();
        let ghost before = edits_view(sorted@);
        let ghost added = e@;
        proof {
            assert(all.take(i + 1).drop_last() =~= all.take(i as int));
            assert(all.take(i + 1).last() == added);
        }
        let mut j: usize = sorted.len();
        assert(before.take(j as int) =~= before);
        assert(before.skip(j as int) =~= Seq::empty());
        while j > 0 && sorted[j - 1].range.start > e.range.start
            invariant
                j <= sorted@.len(),
                e@ == added,
                before == edits_view(sorted@),
                insert_by_start(before, added) == insert_by_start(before.take(j as int), added)
                    + before.skip(j as int),
            decreases j,
        {
            proof {
                let head = before.take(j as int);
                assert(head.last() == sorted@[j - 1]@);
                assert(head.drop_last() =~= before.take(j - 1));
                assert(before.skip(j - 1) =~= seq![before[j - 1]] + before.skip(j as int));
                assert(insert_by_start(before, added) =~= insert_by_start(
                    before.take(j - 1),
                    added,
                ) + before.skip(j - 1));
            }
            j = j - 1;
        }
        proof {
            if j > 0 {
                assert(before.take(j as int).last() == sorted@[j - 1]@);
            }
            assert(insert_by_start(before.take(j as int), added) == before.take(j as int).push(
                added,
            ));
        }
        sorted.insert(j, e);
        assert(edits_view(sorted@) =~= insert_by_start(before, added));
        i = i + 1;
    }
    assert(all.take(i as int) =~= all);
    sorted
}

impl SourceEditList {
    pub fn new() -> (list: Self)
        ensures
            list@ == Seq::<Edit>::empty(),
    {
        let list = SourceEditList { edits: Vec::new() };
        assert(list@ =~= Seq::<Edit>::empty());
        list
    }

    /// Adds `edit`; an edit that changes nothing is dropped.
    pub fn push(&mut self, edit: SourceEdit)
        ensures
            final(self)@ == if is_noop(edit@) {
                old(self)@
            } else {
                old(self)@.push(edit@)
            },
    {
        if edit.range.start == edit.range.end && edit.replacement.as_str().is_empty() {
            return ;
        }
        let ghost before = self@;
        let ghost added = edit@;
        self.edits.push(edit);
        assert(self@ =~= before.push(added));
    }

    /// Adds all of `edits` but those that change nothing.
    pub fn extend(&mut self, edits: Vec<SourceEdit>)
        ensures
            final(self)@ == old(self)@ + effective(edits_view(edits@)),
    {
        let ghost all = edits_view(edits@);
        let ghost before = self@;
        let mut i: usize = 0;
        proof {
            reveal(Seq::filter);
            assert(all.take(0) =~= Seq::empty());
            assert(self@ =~= before + effective(all.take(0)));
        }
        while i < edits.len()
            invariant
                i <= edits@.len(),
                all == edits_view(edits@),
                self@ =~= before + effective(all.take(i as int)),
            decreases edits@.len() - i,
        {
            proof {
                reveal(Seq::filter);
                assert(all.take(i + 1).drop_last() =~= all.take(i as int));
                assert(all.take(i + 1).last() == all[i as int]);
            }
            self.push(edits[i].clone());
            i = i + 1;
        }
        assert(all.take(i as int) =~= all);
    }

    pub fn is_empty(&self) -> (empty: bool)
        ensures
            empty == (self@.len() == 0),
    {
        self.edits.len() == 0
    }

    /// The collected edits sorted by start, end and kind, with overlaps
    /// resolved: strips that overlap or are adjacent merge, and of two other
    /// overlapping edits the longer one stays.
    pub fn finish(self) -> (result: Vec<SourceEdit>)
        requires
            all_well_ranged(self@),
        ensures
            edits_view(result@) == resolved(in_order(self@)),
            disjoint(edits_view(result@)),
    {
        let sorted = sort_edits(&self.edits);
        let ghost all = edits_view(sorted@);
        proof {
            lemma_in_order(self@);
        }
        let mut out: Vec<SourceEdit> = Vec::new();
        let mut i: usize = 0;
        assert(edits_view(out@) =~= resolved(all.take(0)));
        while i < sorted.len()
            invariant
                i <= sorted@.len(),
                all == edits_view(sorted@),
                all_well_ranged(all),
                edits_view(out@) == resolved(all.take(i as int)),
                all_well_ranged(edits_view(out@)),
            decreases sorted@.len() - i,
        {
            let e = sorted[i].clone();
            let ghost before = edits_view(out@);
            let ghost added = e@;
            proof {
                assert(all.take(i + 1).drop_last() =~= all.take(i as int));
                assert(all.take(i + 1).last() == added);
                assert(well_ranged(all[i as int]));
            }
            let apart = if out.len() == 0 {
                true
            } else {
                let last = &out[out.len() - 1];
                assert(before.last() == last@);
                last.range.end <= e.range.start && !(last.replacement.as_str().is_empty()
                    && e.replacement.as_str().is_empty() && last.range.end == e.range.start)
            };
            if apart {
                out.push(e);
                assert(edits_view(out@) =~= before.push(added));
            } else {
                let last: usize = out.len() - 1;
                proof {
                    assert(before.last() == out@[last as int]@);
                    assert(well_ranged(before[last as int]));
                }
                let prev = out.pop().unwrap();
                assert(edits_view(out@) =~= before.drop_last());
                if prev.replacement.as_str().is_empty() && e.replacement.as_str().is_empty() {
                    let end: usize = if prev.range.end >= e.range.end {
                        prev.range.end
                    } else {
                        e.range.end
                    };
                    let merged = SourceEdit {
                        range: prev.range.start..end,
                        replacement: prev.replacement,
                    };
                    let ghost m = merged@;
                    out.push(merged);
                    assert(edits_view(out@) =~= before.drop_last().push(m));
                } else if e.range.end - e.range.start > prev.range.end - prev.range.start {
                    out.push(e);
                    assert(edits_view(out@) =~= before.drop_last().push(added));
                } else {
                    out.push(prev);
                    assert(edits_view(out@) =~= before);
                }
            }
            proof {
                assert(edits_view(out@) == resolve(before, added));
                assert forall|k: int| 0 <= k < edits_view(out@).len() implies well_ranged(
                    #[trigger] edits_view(out@)[k],
                ) by {
                    if k < before.len() {
                        assert(well_ranged(before[k]));
                    }
                }
            }
            i = i + 1;
        }
        proof {
            assert(all.take(i as int) =~= all);
            lemma_resolved_disjoint(all);
        }
        out
    }
}

// ---------------------------------------------------------------------------
// Laws
// ---------------------------------------------------------------------------

/// Is the list in order?
pub open spec fn is_in_order(edits: Seq<Edit>) -> bool {
    forall|i: int, j: int|
        0 <= i < j < edits.len() ==> ordered(#[trigger] edits[i], #[trigger] edits[j])
}

proof fn lemma_insert_in_order(sorted: Seq<Edit>, e: Edit)
    requires
        is_in_order(sorted),
    ensures
        is_in_order(insert_in_order(sorted, e)),
        insert_in_order(sorted, e).to_multiset() == sorted.to_multiset().insert(e),
        insert_in_order(sorted, e).len() == sorted.len() + 1,
        forall|i: int|
            0 <= i < insert_in_order(sorted, e).len() ==> #[trigger] insert_in_order(sorted, e)[i]
                == e || sorted.contains(insert_in_order(sorted, e)[i]),
    decreases sorted.len(),
{
    broadcast use vstd::seq_lib::group_to_multiset_ensures;

    if sorted.len() == 0 || ordered(sorted.last(), e) {
        let out = sorted.push(e);
        assert forall|i: int, j: int| 0 <= i < j < out.len() implies ordered(
            #[trigger] out[i],
            #[trigger] out[j],
        ) by {
            if j == sorted.len() && i < sorted.len() - 1 {
                assert(ordered(sorted[i], sorted[sorted.len() - 1]));
            }
        }
        assert forall|i: int| 0 <= i < out.len() implies #[trigger] out[i] == e || sorted.contains(
            out[i],
        ) by {
            if i < sorted.len() {
                assert(sorted.contains(sorted[i]));
            }
        }
    } else {
        let head = sorted.drop_last();
        assert(is_in_order(head));
        lemma_insert_in_order(head, e);
        let inner = insert_in_order(head, e);
        let out = inner.push(sorted.last());
        assert(sorted =~= head.push(sorted.last()));
        assert forall|i: int| 0 <= i < inner.len() implies ordered(
            #[trigger] inner[i],
            sorted.last(),
        ) by {
            if inner[i] != e {
                let k = choose|k: int| 0 <= k < head.len() && head[k] == inner[i];
                assert(ordered(sorted[k], sorted[sorted.len() - 1]));
            }
        }
        assert forall|i: int, j: int| 0 <= i < j < out.len() implies ordered(
            #[trigger] out[i],
            #[trigger] out[j],
        ) by {}
        assert forall|i: int| 0 <= i < out.len() implies #[trigger] out[i] == e || sorted.contains(
            out[i],
        ) by {
            if i < inner.len() {
                if inner[i] != e {
                    let k = choose|k: int| 0 <= k < head.len() && head[k] == inner[i];
                    assert(sorted[k] == inner[i]);
                }
            } else {
                assert(sorted[sorted.len() - 1] == out[i]);
            }
        }
        assert(out.to_multiset() =~= sorted.to_multiset().insert(e));
    }
}

proof fn lemma_in_order(edits: Seq<Edit>)
    ensures
        is_in_order(in_order(edits)),
        in_order(edits).to_multiset() == edits.to_multiset(),
        all_well_ranged(edits) ==> all_well_ranged(in_order(edits)),
    decreases edits.len(),
{
    broadcast use vstd::seq_lib::group_to_multiset_ensures;

    if edits.len() > 0 {
        let head = edits.drop_last();
        lemma_in_order(head);
        lemma_insert_in_order(in_order(head), edits.last());
        assert(edits =~= head.push(edits.last()));
        if all_well_ranged(edits) {
            assert forall|i: int| 0 <= i < head.len() implies well_ranged(#[trigger] head[i]) by {
                assert(well_ranged(edits[i]));
            }
            assert(well_ranged(edits[edits.len() - 1]));
            let sorted = in_order(head);
            let out = in_order(edits);
            assert forall|i: int| 0 <= i < out.len() implies well_ranged(#[trigger] out[i]) by {
                if out[i] != edits.last() {
                    let k = choose|k: int| 0 <= k < sorted.len() && sorted[k] == out[i];
                    assert(well_ranged(sorted[k]));
                }
            }
        }
    }
}

/// Sorting edits puts them in order and neither adds nor loses one.
pub proof fn sorting_keeps_the_edits(edits: Seq<Edit>)
    ensures
        is_in_order(in_order(edits)),
        in_order(edits).to_multiset() == edits.to_multiset(),
{
    lemma_in_order(edits);
}

proof fn lemma_resolved(edits: Seq<Edit>)
    requires
        is_in_order(edits),
        all_well_ranged(edits),
    ensures
        disjoint(resolved(edits)),
        edits.len() > 0 ==> resolved(edits).len() > 0 && resolved(edits).last().range.start
            <= edits.last().range.start,
    decreases edits.len(),
{
    if edits.len() > 0 {
        let head = edits.drop_last();
        let e = edits.last();
        assert forall|i: int| 0 <= i < head.len() implies well_ranged(#[trigger] head[i]) by {
            assert(well_ranged(edits[i]));
        }
        assert(is_in_order(head));
        assert(well_ranged(edits[edits.len() - 1]));
        lemma_resolved(head);
        let out = resolved(head);
        let next = resolve(out, e);
        if head.len() > 0 {
            assert(ordered(edits[edits.len() - 2], edits[edits.len() - 1]));
            assert(out.last().range.start <= e.range.start);
            assert(well_ranged(out[out.len() - 1]));
        }
        assert forall|i: int| 0 <= i < next.len() implies well_ranged(#[trigger] next[i]) by {
            if i < out.len() {
                assert(well_ranged(out[i]));
            }
        }
        assert forall|i: int, j: int| 0 <= i < j < next.len() implies (
        #[trigger] next[i]).range.end <= (#[trigger] next[j]).range.start by {
            if j < out.len() {
                assert(out[i].range.end <= out[j].range.start);
            } else {
                assert(well_ranged(out[out.len() - 1]));
                if i < out.len() - 1 {
                    assert(out[i].range.end <= out[out.len() - 1].range.start);
                }
            }
        }
    }
}

proof fn lemma_resolved_disjoint(edits: Seq<Edit>)
    requires
        is_in_order(edits),
        all_well_ranged(edits),
    ensures
        disjoint(resolved(edits)),
{
    lemma_resolved(edits);
}

/// Edits that are already in order, do not overlap and hold no two adjacent
/// strips come out unchanged.
pub proof fn disjoint_edits_stay(edits: Seq<Edit>)
    requires
        disjoint(edits),
        is_in_order(edits),
        forall|i: int, j: int|
            0 <= i < j < edits.len() ==> !adjacent_strips(#[trigger] edits[i], #[trigger] edits[j]),
    ensures
        resolved(in_order(edits)) == edits,
    decreases edits.len(),
{
    if edits.len() > 0 {
        let head = edits.drop_last();
        let e = edits.last();
        assert(is_in_order(head));
        assert forall|i: int| 0 <= i < head.len() implies well_ranged(#[trigger] head[i]) by {
            assert(well_ranged(edits[i]));
        }
        assert(disjoint(head));
        lemma_already_in_order(edits);
        lemma_already_in_order(head);
        disjoint_edits_stay(head);
        if head.len() > 0 {
            assert(edits[edits.len() - 2].range.end <= edits[edits.len() - 1].range.start);
            assert(!adjacent_strips(edits[edits.len() - 2], edits[edits.len() - 1]));
        }
        assert(edits =~= head.push(e));
    }
}

proof fn lemma_already_in_order(edits: Seq<Edit>)
    requires
        is_in_order(edits),
    ensures
        in_order(edits) == edits,
    decreases edits.len(),
{
    if edits.len() > 0 {
        let head = edits.drop_last();
        assert(is_in_order(head));
        lemma_already_in_order(head);
        if head.len() > 0 {
            assert(ordered(edits[edits.len() - 2], edits[edits.len() - 1]));
        }
        assert(edits =~= head.push(edits.last()));
    }
}

/// Sorted edits come by where they start, then by where they end; at one place
/// those that only remove come before those that write.
pub proof fn sorted_edits_come_by_place(edits: Seq<Edit>, i: int, j: int)
    requires
        0 <= i < j < in_order(edits).len(),
    ensures
        ({
            let a = in_order(edits)[i];
            let c = in_order(edits)[j];
            &&& a.range.start <= c.range.start
            &&& a.range.start == c.range.start ==> a.range.end <= c.range.end
            &&& a.range == c.range && c.text.len() == 0 ==> a.text.len() == 0
        }),
{
    lemma_in_order(edits);
    assert(ordered(in_order(edits)[i], in_order(edits)[j]));
}

/// Does one of the edits take the byte away?
pub open spec fn takes(edits: Seq<Edit>, p: int) -> bool {
    exists|i: int| 0 <= i < edits.len() && (#[trigger] edits[i]).range.start <= p < edits[i].range.end
}

/// Removals that overlap, touch or come in any order take the same bytes
/// together as each of them would: no more and no fewer.
pub proof fn removals_take_their_bytes(edits: Seq<Edit>, p: int)
    requires
        all_well_ranged(edits),
        forall|i: int| 0 <= i < edits.len() ==> (#[trigger] edits[i]).text.len() == 0,
    ensures
        takes(resolved(in_order(edits)), p) <==> takes(edits, p),
{
    let sorted = in_order(edits);
    lemma_in_order(edits);
    lemma_same_members(edits);
    assert forall|i: int| 0 <= i < sorted.len() implies (#[trigger] sorted[i]).text.len() == 0 by {
        assert(edits.contains(sorted[i]));
    }
    lemma_strips_take(sorted, p);
    if takes(edits, p) {
        let i = choose|i: int|
            0 <= i < edits.len() && (#[trigger] edits[i]).range.start <= p < edits[i].range.end;
        assert(edits.contains(edits[i]));
        assert(sorted.contains(edits[i]));
    }
    if takes(sorted, p) {
        let i = choose|i: int|
            0 <= i < sorted.len() && (#[trigger] sorted[i]).range.start <= p < sorted[i].range.end;
        assert(sorted.contains(sorted[i]));
        assert(edits.contains(sorted[i]));
    }
}

proof fn lemma_same_members(edits: Seq<Edit>)
    ensures
        forall|e: Edit| #[trigger] edits.contains(e) <==> in_order(edits).contains(e),
{
    broadcast use vstd::seq_lib::group_to_multiset_ensures;

    lemma_in_order(edits);
    assert forall|e: Edit| #[trigger] edits.contains(e) <==> in_order(edits).contains(e) by {
        assert(edits.to_multiset().count(e) == in_order(edits).to_multiset().count(e));
    }
}

proof fn lemma_strips_take(edits: Seq<Edit>, p: int)
    requires
        is_in_order(edits),
        all_well_ranged(edits),
        forall|i: int| 0 <= i < edits.len() ==> (#[trigger] edits[i]).text.len() == 0,
    ensures
        takes(resolved(edits), p) <==> takes(edits, p),
        forall|i: int|
            0 <= i < resolved(edits).len() ==> (#[trigger] resolved(edits)[i]).text.len() == 0,
    decreases edits.len(),
{
    if edits.len() > 0 {
        let head = edits.drop_last();
        let e = edits.last();
        assert forall|i: int| 0 <= i < head.len() implies well_ranged(#[trigger] head[i])
            && head[i].text.len() == 0 by {
            assert(well_ranged(edits[i]));
        }
        assert(is_in_order(head));
        lemma_strips_take(head, p);
        lemma_resolved(head);
        let out = resolved(head);
        let next = resolve(out, e);
        assert(well_ranged(edits[edits.len() - 1]));
        if out.len() > 0 {
            assert(out[out.len() - 1].text.len() == 0);
            assert(well_ranged(out[out.len() - 1]));
            if head.len() > 0 {
                assert(ordered(edits[edits.len() - 2], edits[edits.len() - 1]));
            }
        }
        assert forall|i: int| 0 <= i < next.len() implies (#[trigger] next[i]).text.len() == 0 by {
            if i < out.len() {
                assert(out[i].text.len() == 0);
            }
        }
        assert(takes(edits, p) <==> takes(head, p) || e.range.start <= p < e.range.end) by {
            if takes(edits, p) {
                let i = choose|i: int|
                    0 <= i < edits.len() && (#[trigger] edits[i]).range.start <= p
                        < edits[i].range.end;
                if i < head.len() {
                    assert(head[i] == edits[i]);
                }
            }
            if takes(head, p) {
                let i = choose|i: int|
                    0 <= i < head.len() && (#[trigger] head[i]).range.start <= p
                        < head[i].range.end;
                assert(edits[i] == head[i]);
            }
            if e.range.start <= p < e.range.end {
                assert(edits[edits.len() - 1] == e);
            }
        }
        assert(takes(next, p) <==> takes(out, p) || e.range.start <= p < e.range.end) by {
            if takes(next, p) {
                let i = choose|i: int|
                    0 <= i < next.len() && (#[trigger] next[i]).range.start <= p
                        < next[i].range.end;
                if i < out.len() {
                    assert(out[i].range.start <= next[i].range.start);
                }
            }
            if takes(out, p) {
                let i = choose|i: int|
                    0 <= i < out.len() && (#[trigger] out[i]).range.start <= p < out[i].range.end;
                assert(next[i].range.start <= p < next[i].range.end);
            }
            if e.range.start <= p < e.range.end {
                assert(next[next.len() - 1].range.start <= p < next[next.len() - 1].range.end);
            }
        }
    }
}

/// Of two edits that overlap, and that do not both only remove, the longer one
/// is made; the one that starts first, where they are equally long.
pub proof fn of_overlapping_edits_the_longer_is_made(a: Edit, c: Edit)
    requires
        a.range.start < c.range.start < a.range.end,
        c.range.start <= c.range.end,
        a.text.len() > 0 || c.text.len() > 0,
    ensures
        ({
            let longer = if c.range.end - c.range.start > a.range.end - a.range.start {
                c
            } else {
                a
            };
            &&& resolved(in_order(seq![a, c])) == seq![longer]
            &&& resolved(in_order(seq![c, a])) == seq![longer]
        }),
{
    reveal_with_fuel(in_order, 3);
    reveal_with_fuel(insert_in_order, 3);
    reveal_with_fuel(resolved, 3);
    assert(seq![a, c].drop_last() =~= seq![a]);
    assert(seq![c, a].drop_last() =~= seq![c]);
    assert(seq![a].drop_last() =~= seq![]);
    assert(seq![c].drop_last() =~= seq![]);
    assert(seq![].push(a) =~= seq![a]);
    assert(seq![].push(c) =~= seq![c]);
    assert(seq![a].push(c) =~= seq![a, c]);
    assert(in_order(seq![a, c]) =~= seq![a, c]);
    assert(in_order(seq![c, a]) =~= seq![a, c]);
    assert(resolved(seq![a]) =~= seq![a]);
}

} // verus!
