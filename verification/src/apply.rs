//! Applying pending edits to the document.
//!
//! Every unit takes the edits that carry its path. They are put in the order
//! of their range starts and applied from the highest start down, so that
//! replacing a range never moves a range that is still to be replaced. The
//! units are visited in document order, each before the units nested under
//! it; scanning and rewriting are separate passes, so the ranges found by the
//! scan are still valid when they are replaced.

use crate::collect::EditView;
use crate::collect::PendingEdit;
use crate::document::forest_same_shape;
use crate::document::forest_view;
use crate::document::lemma_forest_view;
use crate::document::same_shape;
use crate::document::unit_view;
use crate::document::DocumentUnit;
use crate::document::UnitView;
use crate::model::child_place;
use crate::model::place_view;
use crate::model::same_place;
use crate::model::lemma_views_push;
use crate::model::views;
use crate::text::is_text_range;
use crate::text::text_range_ok;
use crate::text::lemma_splice_keeps_boundaries;
use crate::text::replace_range;
use crate::text::splice;
use vstd::prelude::*;
use vstd::utf8::*;

verus! {

/// Where an edit that starts at `start` goes in a list ordered by start:
/// behind every edit that starts at or before `start`.
pub open spec fn insertion_point(sorted: Seq<EditView>, start: int) -> int
    decreases sorted.len(),
{
    if sorted.len() == 0 || sorted.last().start <= start {
        sorted.len() as int
    } else {
        insertion_point(sorted.drop_last(), start)
    }
}

/// The edits in the order of their range starts; edits with the same start
/// keep the order in which they came.
pub open spec fn sort_by_start(edits: Seq<EditView>) -> Seq<EditView>
    decreases edits.len(),
{
    if edits.len() == 0 {
        Seq::empty()
    } else {
        let sorted = sort_by_start(edits.drop_last());
        sorted.insert(insertion_point(sorted, edits.last().start), edits.last())
    }
}

/// The starts of the list never decrease.
pub open spec fn ordered_by_start(edits: Seq<EditView>) -> bool {
    forall|i: int, j: int| 0 <= i < j < edits.len() ==> edits[i].start <= edits[j].start
}

/// The edits, taken in order, can be applied to `text`: each range is a
/// range of the text between character boundaries, and each ends where the
/// next begins or before it.
pub open spec fn edits_fit(text: Seq<char>, ordered: Seq<EditView>) -> bool {
    &&& forall|i: int|
        0 <= i < ordered.len() ==> is_text_range(text, (#[trigger] ordered[i]).start, ordered[i].end)
    &&& forall|i: int, j: int|
        0 <= i < j < ordered.len() ==> (#[trigger] ordered[i]).end <= (#[trigger] ordered[j]).start
}

/// The bytes that result from applying the ordered edits to `bytes` one at
/// a time, the last edit first.
pub open spec fn apply_descending(bytes: Seq<u8>, ordered: Seq<EditView>) -> Seq<u8>
    decreases ordered.len(),
{
    if ordered.len() == 0 {
        bytes
    } else {
        let edit = ordered.last();
        apply_descending(
            splice(bytes, edit.start, edit.end, encode_utf8(edit.new_text)),
            ordered.drop_last(),
        )
    }
}

/// The text of a unit after its edits were applied.
pub open spec fn rewritten_text(text: Seq<char>, edits: Seq<EditView>) -> Seq<char> {
    decode_utf8(apply_descending(encode_utf8(text), sort_by_start(edits)))
}

proof fn lemma_insertion_point_prefix(sorted: Seq<EditView>, start: int, p: int)
    requires
        0 <= p <= sorted.len(),
        forall|k: int| p <= k < sorted.len() ==> sorted[k].start > start,
    ensures
        insertion_point(sorted, start) == insertion_point(sorted.subrange(0, p), start),
    decreases sorted.len() - p,
{
    if p < sorted.len() {
        assert(sorted.drop_last().subrange(0, p) =~= sorted.subrange(0, p));
        lemma_insertion_point_prefix(sorted.drop_last(), start, p);
    } else {
        assert(sorted.subrange(0, p) =~= sorted);
    }
}

/// Puts the edits in the order of their range starts; edits with the same
/// start keep the order in which they came.
pub fn sort_edits_by_start(edits: Vec<PendingEdit>) -> (sorted: Vec<PendingEdit>)
    ensures
        views(sorted@) == sort_by_start(views(edits@)),
{
    let mut sorted: Vec<PendingEdit> = Vec::new();
    let ghost all = edits@;
    for edit in it: edits
        invariant
            it.seq() == all,
            views(sorted@) == sort_by_start(views(all.subrange(0, it.index() as int))),
    {
        let ghost done = views(sorted@);
        let mut p: usize = sorted.len();
        while p > 0 && sorted[p - 1].start > edit.start
            invariant
                p <= sorted.len(),
                done == views(sorted@),
                forall|k: int| p <= k < sorted.len() ==> done[k].start > edit.start,
            decreases p,
        {
            p -= 1;
        }
        proof {
            let k = it.index() as int;
            lemma_insertion_point_prefix(done, edit.start as int, p as int);
            assert(insertion_point(done.subrange(0, p as int), edit.start as int) == p) by {
                if p > 0 {
                    assert(done.subrange(0, p as int).last() == done[p - 1]);
                    assert(done[p - 1] == sorted@[p - 1]@);
                }
            }
            assert(all.subrange(0, k + 1).drop_last() =~= all.subrange(0, k));
            assert(views(all.subrange(0, k + 1)).drop_last() =~= views(all.subrange(0, k)));
            assert(views(all.subrange(0, k + 1)).last() == edit@);
            assert(views(sorted@.insert(p as int, edit)) =~= done.insert(p as int, edit@));
        }
        sorted.insert(p, edit);
    }
    assert(all.subrange(0, all.len() as int) =~= all);
    sorted
}

/// True when the edits, taken in order, can be applied to `text`.
pub fn edits_fit_text(text: &str, ordered: &Vec<PendingEdit>) -> (fit: bool)
    ensures
        fit == edits_fit(text@, views(ordered@)),
{
    let mut i: usize = 0;
    let ghost edits = views(ordered@);
    while i < ordered.len()
        invariant
            i <= ordered.len(),
            edits == views(ordered@),
            edits_fit(text@, edits.subrange(0, i as int)),
        decreases ordered.len() - i,
    {
        if !text_range_ok(text, ordered[i].start, ordered[i].end) {
            assert(!is_text_range(text@, edits[i as int].start, edits[i as int].end));
            return false;
        }
        if i > 0 && ordered[i - 1].end > ordered[i].start {
            assert(edits[i - 1].end > edits[i as int].start);
            return false;
        }
        proof {
            let before = edits.subrange(0, i as int);
            let after = edits.subrange(0, i as int + 1);
            assert forall|a: int, b: int| 0 <= a < b < after.len() implies (#[trigger] after[a]).end
                <= (#[trigger] after[b]).start by {
                if b < i {
                    assert(before[a].end <= before[b].start);
                } else if a < i - 1 {
                    assert(before[a].end <= before[i - 1].start);
                    assert(is_text_range(text@, before[i - 1].start, before[i - 1].end));
                }
            }
            assert forall|a: int| 0 <= a < after.len() implies is_text_range(
                text@,
                (#[trigger] after[a]).start,
                after[a].end,
            ) by {
                if a < i {
                    assert(is_text_range(text@, before[a].start, before[a].end));
                }
            }
        }
        i += 1;
    }
    assert(edits.subrange(0, i as int) =~= edits);
    true
}

/// Replaces the ranges of the ordered edits in `text` from the last edit
/// down to the first.
fn apply_ordered(text: &str, ordered: &Vec<PendingEdit>) -> (new_text: String)
    requires
        edits_fit(text@, views(ordered@)),
    ensures
        encode_utf8(new_text@) == apply_descending(encode_utf8(text@), views(ordered@)),
        new_text@ == decode_utf8(apply_descending(encode_utf8(text@), views(ordered@))),
{
    let ghost plan = views(ordered@);
    let mut current = text.to_owned();
    let mut k: usize = ordered.len();
    assert(plan.subrange(0, k as int) =~= plan);
    while k > 0
        invariant
            k <= ordered.len(),
            plan == views(ordered@),
            edits_fit(current@, plan.subrange(0, k as int)),
            apply_descending(encode_utf8(current@), plan.subrange(0, k as int)) == apply_descending(
                encode_utf8(text@),
                plan,
            ),
        decreases k,
    {
        let edit = &ordered[k - 1];
        let ghost prefix = plan.subrange(0, k as int);
        let ghost shorter = plan.subrange(0, k as int - 1);
        assert(prefix.last() == edit@);
        assert(prefix.drop_last() =~= shorter);
        assert(is_text_range(current@, prefix[k - 1].start, prefix[k - 1].end));
        let next = replace_range(current.as_str(), edit.start, edit.end, edit.new_text.as_str());
        proof {
            assert forall|i: int| 0 <= i < shorter.len() implies is_text_range(
                next@,
                (#[trigger] shorter[i]).start,
                shorter[i].end,
            ) by {
                assert(is_text_range(current@, prefix[i].start, prefix[i].end));
                assert(prefix[i].end <= prefix[k - 1].start);
                lemma_splice_keeps_boundaries(
                    current@,
                    edit.start as int,
                    edit.end as int,
                    edit.new_text@,
                    shorter[i].start,
                );
                lemma_splice_keeps_boundaries(
                    current@,
                    edit.start as int,
                    edit.end as int,
                    edit.new_text@,
                    shorter[i].end,
                );
            }
            assert forall|i: int, j: int| 0 <= i < j < shorter.len() implies (
            #[trigger] shorter[i]).end <= (#[trigger] shorter[j]).start by {
                assert(prefix[i].end <= prefix[j].start);
            }
        }
        current = next;
        k -= 1;
    }
    proof {
        assert(plan.subrange(0, 0) =~= Seq::<EditView>::empty());
        encode_utf8_decode_utf8(current@);
    }
    current
}

/// Applies the edits to `text`: puts them in the order of their starts and
/// replaces their ranges from the highest start down. `None` unless the
/// edits, in that order, fit the text.
pub fn apply_edits_to_text(text: &str, edits: Vec<PendingEdit>) -> (applied: Option<String>)
    ensures
        applied is Some <==> edits_fit(text@, sort_by_start(views(edits@))),
        applied matches Some(new_text) ==> new_text@ == rewritten_text(text@, views(edits@)),
{
    let ordered = sort_edits_by_start(edits);
    if !edits_fit_text(text, &ordered) {
        return None;
    }
    Some(apply_ordered(text, &ordered))
}

proof fn lemma_insertion_point(sorted: Seq<EditView>, start: int)
    requires
        ordered_by_start(sorted),
    ensures
        0 <= insertion_point(sorted, start) <= sorted.len(),
        forall|k: int| 0 <= k < insertion_point(sorted, start) ==> sorted[k].start <= start,
        forall|k: int| insertion_point(sorted, start) <= k < sorted.len() ==> sorted[k].start > start,
    decreases sorted.len(),
{
    if sorted.len() == 0 {
    } else if sorted.last().start <= start {
        assert forall|k: int| 0 <= k < sorted.len() implies sorted[k].start <= start by {
            if k < sorted.len() - 1 {
                assert(sorted[k].start <= sorted[sorted.len() - 1].start);
            }
        }
    } else {
        let shorter = sorted.drop_last();
        assert forall|i: int, j: int| 0 <= i < j < shorter.len() implies shorter[i].start
            <= shorter[j].start by {
            assert(shorter[i] == sorted[i] && shorter[j] == sorted[j]);
        }
        lemma_insertion_point(shorter, start);
        let p = insertion_point(shorter, start);
        assert forall|k: int| 0 <= k < p implies sorted[k].start <= start by {
            assert(shorter[k] == sorted[k]);
        }
        assert forall|k: int| p <= k < sorted.len() implies sorted[k].start > start by {
            if k < shorter.len() {
                assert(shorter[k] == sorted[k]);
            }
        }
    }
}

/// Sorting orders and loses nothing: the sorted list is ordered by start,
/// and it holds the same edits as the list it was made from, each as often.
pub proof fn sort_by_start_orders(edits: Seq<EditView>)
    ensures
        ordered_by_start(sort_by_start(edits)),
        sort_by_start(edits).len() == edits.len(),
        sort_by_start(edits).to_multiset() == edits.to_multiset(),
    decreases edits.len(),
{
    if edits.len() == 0 {
        assert(sort_by_start(edits) =~= edits);
    } else {
        let shorter = edits.drop_last();
        let last = edits.last();
        let sorted = sort_by_start(shorter);
        sort_by_start_orders(shorter);
        lemma_insertion_point(sorted, last.start);
        let p = insertion_point(sorted, last.start);
        let out = sorted.insert(p, last);
        assert forall|i: int, j: int| 0 <= i < j < out.len() implies out[i].start
            <= out[j].start by {
            if j < p {
                assert(out[i] == sorted[i] && out[j] == sorted[j]);
            } else if j == p {
                assert(out[i] == sorted[i]);
            } else if i < p {
                assert(out[i] == sorted[i] && out[j] == sorted[j - 1]);
                assert(sorted[i].start <= last.start);
            } else if i == p {
                assert(out[j] == sorted[j - 1]);
            } else {
                assert(out[i] == sorted[i - 1] && out[j] == sorted[j - 1]);
            }
        }
        vstd::seq_lib::to_multiset_insert(sorted, p, last);
        vstd::seq_lib::to_multiset_build(shorter, last);
        assert(shorter.push(last) =~= edits);
    }
}

/// No two edits of the list start at the same offset.
pub open spec fn starts_differ(edits: Seq<EditView>) -> bool {
    forall|i: int, j: int| 0 <= i < j < edits.len() ==> edits[i].start != edits[j].start
}

/// The two lists hold the same edits: every edit of one is in the other.
pub open spec fn same_edits(a: Seq<EditView>, b: Seq<EditView>) -> bool {
    &&& forall|i: int| 0 <= i < a.len() ==> b.contains(#[trigger] a[i])
    &&& forall|j: int| 0 <= j < b.len() ==> a.contains(#[trigger] b[j])
}

/// The starts of the list grow from each edit to the next.
pub open spec fn rising_starts(edits: Seq<EditView>) -> bool {
    forall|i: int, j: int| 0 <= i < j < edits.len() ==> edits[i].start < edits[j].start
}

proof fn lemma_sort_rises(edits: Seq<EditView>)
    requires
        starts_differ(edits),
    ensures
        rising_starts(sort_by_start(edits)),
        same_edits(edits, sort_by_start(edits)),
    decreases edits.len(),
{
    if edits.len() > 0 {
        let shorter = edits.drop_last();
        let last = edits.last();
        let sorted = sort_by_start(shorter);
        assert forall|i: int, j: int| 0 <= i < j < shorter.len() implies shorter[i].start
            != shorter[j].start by {
            assert(shorter[i] == edits[i] && shorter[j] == edits[j]);
        }
        lemma_sort_rises(shorter);
        lemma_insertion_point(sorted, last.start);
        let p = insertion_point(sorted, last.start);
        let out = sorted.insert(p, last);
        assert forall|k: int| 0 <= k < sorted.len() implies sorted[k].start != last.start by {
            assert(shorter.contains(sorted[k]));
            let at = choose|at: int| 0 <= at < shorter.len() && shorter[at] == sorted[k];
            assert(shorter[at] == edits[at]);
            assert(edits[at].start != edits[edits.len() - 1].start);
        }
        assert forall|i: int, j: int| 0 <= i < j < out.len() implies out[i].start
            < out[j].start by {
            if j < p {
                assert(out[i] == sorted[i] && out[j] == sorted[j]);
            } else if j == p {
                assert(out[i] == sorted[i]);
            } else if i < p {
                assert(out[i] == sorted[i] && out[j] == sorted[j - 1]);
            } else if i == p {
                assert(out[j] == sorted[j - 1]);
            } else {
                assert(out[i] == sorted[i - 1] && out[j] == sorted[j - 1]);
            }
        }
        assert forall|i: int| 0 <= i < edits.len() implies out.contains(#[trigger] edits[i]) by {
            if i < shorter.len() {
                assert(shorter[i] == edits[i]);
                assert(sorted.contains(shorter[i]));
                let at = choose|at: int| 0 <= at < sorted.len() && sorted[at] == shorter[i];
                if at < p {
                    assert(out[at] == sorted[at]);
                } else {
                    assert(out[at + 1] == sorted[at]);
                }
            } else {
                assert(out[p] == last);
            }
        }
        assert forall|j: int| 0 <= j < out.len() implies edits.contains(#[trigger] out[j]) by {
            if j == p {
                assert(edits[edits.len() - 1] == last);
            } else {
                let k = if j < p {
                    j
                } else {
                    j - 1
                };
                assert(out[j] == sorted[k]);
                assert(shorter.contains(sorted[k]));
                let at = choose|at: int| 0 <= at < shorter.len() && shorter[at] == sorted[k];
                assert(edits[at] == shorter[at]);
            }
        }
    }
}

proof fn lemma_rising_lists_agree(a: Seq<EditView>, b: Seq<EditView>)
    requires
        rising_starts(a),
        rising_starts(b),
        same_edits(a, b),
    ensures
        a == b,
    decreases a.len(),
{
    if a.len() == 0 {
        if b.len() > 0 {
            assert(a.contains(b[0]));
        }
        assert(a =~= b);
    } else {
        let x = a.last();
        assert(a[a.len() - 1] == x);
        assert(b.contains(x));
        let k = choose|k: int| 0 <= k < b.len() && b[k] == x;
        let y = b.last();
        assert(b[b.len() - 1] == y);
        assert(a.contains(y));
        let m = choose|m: int| 0 <= m < a.len() && a[m] == y;
        if k < b.len() - 1 {
            assert(b[k].start < b[b.len() - 1].start);
            if m < a.len() - 1 {
                assert(a[m].start < a[a.len() - 1].start);
            }
        }
        assert(x == y);
        let front_a = a.drop_last();
        let front_b = b.drop_last();
        assert forall|i: int, j: int| 0 <= i < j < front_a.len() implies front_a[i].start
            < front_a[j].start by {
            assert(front_a[i] == a[i] && front_a[j] == a[j]);
        }
        assert forall|i: int, j: int| 0 <= i < j < front_b.len() implies front_b[i].start
            < front_b[j].start by {
            assert(front_b[i] == b[i] && front_b[j] == b[j]);
        }
        assert forall|i: int| 0 <= i < front_a.len() implies front_b.contains(
            #[trigger] front_a[i],
        ) by {
            assert(front_a[i] == a[i]);
            assert(b.contains(a[i]));
            let at = choose|at: int| 0 <= at < b.len() && b[at] == a[i];
            assert(a[i].start < a[a.len() - 1].start);
            assert(front_b[at] == b[at]);
        }
        assert forall|j: int| 0 <= j < front_b.len() implies front_a.contains(
            #[trigger] front_b[j],
        ) by {
            assert(front_b[j] == b[j]);
            assert(a.contains(b[j]));
            let at = choose|at: int| 0 <= at < a.len() && a[at] == b[j];
            assert(b[j].start < b[b.len() - 1].start);
            assert(front_a[at] == a[at]);
        }
        lemma_rising_lists_agree(front_a, front_b);
        assert(a =~= front_a.push(x));
        assert(b =~= front_b.push(y));
    }
}

/// The order in which the edits arrive does not matter: two lists that hold
/// the same edits, none of which start at the same offset, are sorted into
/// the same list, fit the same texts and give the same rewritten text.
pub proof fn arrival_order_does_not_matter(text: Seq<char>, a: Seq<EditView>, b: Seq<EditView>)
    requires
        same_edits(a, b),
        starts_differ(a),
        starts_differ(b),
    ensures
        sort_by_start(a) == sort_by_start(b),
        edits_fit(text, sort_by_start(a)) == edits_fit(text, sort_by_start(b)),
        rewritten_text(text, a) == rewritten_text(text, b),
{
    lemma_sort_rises(a);
    lemma_sort_rises(b);
    let x = sort_by_start(a);
    let y = sort_by_start(b);
    assert forall|i: int| 0 <= i < x.len() implies y.contains(#[trigger] x[i]) by {
        assert(a.contains(x[i]));
        let at = choose|at: int| 0 <= at < a.len() && a[at] == x[i];
        assert(b.contains(a[at]));
        let to = choose|to: int| 0 <= to < b.len() && b[to] == a[at];
        assert(y.contains(b[to]));
    }
    assert forall|j: int| 0 <= j < y.len() implies x.contains(#[trigger] y[j]) by {
        assert(b.contains(y[j]));
        let at = choose|at: int| 0 <= at < b.len() && b[at] == y[j];
        assert(a.contains(b[at]));
        let to = choose|to: int| 0 <= to < a.len() && a[to] == b[at];
        assert(x.contains(a[to]));
    }
    lemma_rising_lists_agree(x, y);
}

/// A list that is ordered by start is what sorting it gives.
pub proof fn lemma_sort_keeps_ordered(edits: Seq<EditView>)
    requires
        ordered_by_start(edits),
    ensures
        sort_by_start(edits) == edits,
    decreases edits.len(),
{
    if edits.len() > 0 {
        let shorter = edits.drop_last();
        lemma_sort_keeps_ordered(shorter);
        if shorter.len() > 0 {
            assert(shorter.last() == edits[edits.len() - 2]);
        }
        assert(shorter.insert(shorter.len() as int, edits.last()) =~= edits);
    }
}

/// The edits for the unit at `place`, in the order in which they came.
pub open spec fn edits_for(edits: Seq<EditView>, place: Seq<int>) -> Seq<EditView>
    decreases edits.len(),
{
    if edits.len() == 0 {
        Seq::empty()
    } else if edits.last().unit == place {
        edits_for(edits.drop_last(), place).push(edits.last())
    } else {
        edits_for(edits.drop_last(), place)
    }
}

/// The edits for other units than the one at `place`, in the order in which
/// they came.
pub open spec fn edits_for_others(edits: Seq<EditView>, place: Seq<int>) -> Seq<EditView>
    decreases edits.len(),
{
    if edits.len() == 0 {
        Seq::empty()
    } else if edits.last().unit != place {
        edits_for_others(edits.drop_last(), place).push(edits.last())
    } else {
        edits_for_others(edits.drop_last(), place)
    }
}

/// The unit at `place` after a pass over it and the units under it, and the
/// edits that the pass leaves over. The unit takes the edits that name its
/// place and rewrites its text with them; the others go on to the nested
/// units, in document order.
pub open spec fn rewrite_unit(unit: UnitView, place: Seq<int>, edits: Seq<EditView>) -> (
    UnitView,
    Seq<EditView>,
)
    decreases unit,
{
    let passed = rewrite_forest(unit.subs, place, edits_for_others(edits, place));
    (
        UnitView {
            path: unit.path,
            text: rewritten_text(unit.text, edits_for(edits, place)),
            subs: passed.0,
        },
        passed.1,
    )
}

/// The units nested under the unit at `parent` (or the top-level units, for
/// the empty place) after a pass over them in document order, and the edits
/// that the pass leaves over.
pub open spec fn rewrite_forest(units: Seq<UnitView>, parent: Seq<int>, edits: Seq<EditView>) -> (
    Seq<UnitView>,
    Seq<EditView>,
)
    decreases units,
{
    if units.len() == 0 {
        (Seq::empty(), edits)
    } else {
        let before = rewrite_forest(units.drop_last(), parent, edits);
        let last = rewrite_unit(units.last(), parent.push(units.len() - 1), before.1);
        (before.0.push(last.0), last.1)
    }
}

/// The pass over the unit at `place` succeeds: the edits that the unit takes
/// fit its text, and the pass over the nested units succeeds with the others.
pub open spec fn unit_accepts(unit: UnitView, place: Seq<int>, edits: Seq<EditView>) -> bool
    decreases unit,
{
    &&& edits_fit(unit.text, sort_by_start(edits_for(edits, place)))
    &&& forest_accepts(unit.subs, place, edits_for_others(edits, place))
}

/// The pass over the units nested under the unit at `parent` succeeds.
pub open spec fn forest_accepts(units: Seq<UnitView>, parent: Seq<int>, edits: Seq<EditView>) -> bool
    decreases units,
{
    units.len() > 0 ==> {
        &&& forest_accepts(units.drop_last(), parent, edits)
        &&& unit_accepts(
            units.last(),
            parent.push(units.len() - 1),
            rewrite_forest(units.drop_last(), parent, edits).1,
        )
    }
}

/// Parts the edits into those for the unit at `place` and the others, each
/// part in the order in which its edits came.
pub fn split_by_place(edits: Vec<PendingEdit>, place: &Vec<usize>) -> (parts: (
    Vec<PendingEdit>,
    Vec<PendingEdit>,
))
    ensures
        views(parts.0@) == edits_for(views(edits@), place_view(place@)),
        views(parts.1@) == edits_for_others(views(edits@), place_view(place@)),
{
    let mut mine: Vec<PendingEdit> = Vec::new();
    let mut others: Vec<PendingEdit> = Vec::new();
    let ghost all = edits@;
    let ghost key = place_view(place@);
    for edit in it: edits
        invariant
            it.seq() == all,
            key == place_view(place@),
            views(mine@) == edits_for(views(all.subrange(0, it.index() as int)), key),
            views(others@) == edits_for_others(views(all.subrange(0, it.index() as int)), key),
    {
        proof {
            let k = it.index() as int;
            assert(all.subrange(0, k + 1).drop_last() =~= all.subrange(0, k));
            assert(views(all.subrange(0, k + 1)).drop_last() =~= views(all.subrange(0, k)));
            assert(views(all.subrange(0, k + 1)).last() == edit@);
            lemma_views_push(mine@, edit);
            lemma_views_push(others@, edit);
        }
        if same_place(&edit.unit, place) {
            mine.push(edit);
        } else {
            others.push(edit);
        }
    }
    assert(all.subrange(0, all.len() as int) =~= all);
    (mine, others)
}

/// Applies to the unit at `place` the edits that name its place and passes
/// the others on to the units nested under it, in document order. Returns
/// the rewritten unit and the edits that no unit took; `None` if the edits
/// of some unit do not fit its text.
pub fn apply_edits_to_book_item_recursively(
    unit: DocumentUnit,
    place: &Vec<usize>,
    edits: Vec<PendingEdit>,
) -> (done: Option<(DocumentUnit, Vec<PendingEdit>)>)
    ensures
        done is Some <==> unit_accepts(unit@, place_view(place@), views(edits@)),
        done matches Some(pair) ==> (pair.0@, views(pair.1@)) == rewrite_unit(
            unit@,
            place_view(place@),
            views(edits@),
        ),
    decreases unit,
{
    let DocumentUnit { path, text, sub_units } = unit;
    let (mine, others) = split_by_place(edits, place);
    let new_text = match apply_edits_to_text(text.as_str(), mine) {
        Some(new_text) => new_text,
        None => {
            return None;
        },
    };
    match apply_edits_under(sub_units, place, others) {
        Some((new_subs, left)) => Some(
            (DocumentUnit { path, text: new_text, sub_units: new_subs }, left),
        ),
        None => None,
    }
}

/// Applies the edits to the units nested under the unit at `parent`, unit by
/// unit in document order. Returns the rewritten units and the edits that no
/// unit took; `None` if the edits of some unit do not fit its text.
pub fn apply_edits_under(units: Vec<DocumentUnit>, parent: &Vec<usize>, edits: Vec<PendingEdit>) -> (done:
    Option<(Vec<DocumentUnit>, Vec<PendingEdit>)>)
    ensures
        done is Some <==> forest_accepts(forest_view(units@), place_view(parent@), views(edits@)),
        done matches Some(pair) ==> (forest_view(pair.0@), views(pair.1@)) == rewrite_forest(
            forest_view(units@),
            place_view(parent@),
            views(edits@),
        ),
    decreases units,
{
    let mut rewritten: Vec<DocumentUnit> = Vec::new();
    let mut left = edits;
    let ghost all = units@;
    let ghost given = views(edits@);
    let ghost above = place_view(parent@);
    let mut index: usize = 0;
    assert(units.len() <= usize::MAX);
    for unit in it: units
        invariant
            it.seq() == all,
            all == units@,
            given == views(edits@),
            above == place_view(parent@),
            index == it.index(),
            all.len() <= usize::MAX,
            forest_accepts(forest_view(all.subrange(0, it.index() as int)), above, given),
            (forest_view(rewritten@), views(left@)) == rewrite_forest(
                forest_view(all.subrange(0, it.index() as int)),
                above,
                given,
            ),
    {
        let ghost k = it.index() as int;
        proof {
            lemma_forest_prefix(all, k);
        }
        let place = child_place(parent, index);
        match apply_edits_to_book_item_recursively(unit, &place, left) {
            Some((new_unit, rest)) => {
                proof {
                    assert(forest_view(rewritten@.push(new_unit)) =~= forest_view(rewritten@).push(
                        new_unit@,
                    )) by {
                        assert(rewritten@.push(new_unit).drop_last() =~= rewritten@);
                    }
                }
                rewritten.push(new_unit);
                left = rest;
            },
            None => {
                proof {
                    lemma_forest_rejects(all, above, given, k + 1);
                }
                return None;
            },
        }
        index += 1;
    }
    assert(all.subrange(0, all.len() as int) =~= all);
    Some((rewritten, left))
}

/// Applies the edits to the document: every unit takes the edits that name
/// its place. Returns the rewritten units and the edits that no unit took;
/// `None` if the edits of some unit do not fit its text.
pub fn apply_edits(units: Vec<DocumentUnit>, edits: Vec<PendingEdit>) -> (done: Option<
    (Vec<DocumentUnit>, Vec<PendingEdit>),
>)
    ensures
        done is Some <==> forest_accepts(forest_view(units@), Seq::empty(), views(edits@)),
        done matches Some(pair) ==> (forest_view(pair.0@), views(pair.1@)) == rewrite_forest(
            forest_view(units@),
            Seq::empty(),
            views(edits@),
        ),
{
    let root: Vec<usize> = Vec::new();
    assert(place_view(root@) =~= Seq::<int>::empty());
    apply_edits_under(units, &root, edits)
}

/// The view of a prefix that is one unit longer: the view of the prefix,
/// and the view of that unit behind it.
pub proof fn lemma_forest_prefix(units: Seq<DocumentUnit>, k: int)
    requires
        0 <= k < units.len(),
    ensures
        forest_view(units.subrange(0, k + 1)).drop_last() == forest_view(units.subrange(0, k)),
        forest_view(units.subrange(0, k + 1)).last() == unit_view(units[k]),
        forest_view(units.subrange(0, k + 1)).len() == k + 1,
{
    let longer = units.subrange(0, k + 1);
    assert(longer.drop_last() =~= units.subrange(0, k));
    assert(longer.last() == units[k]);
    lemma_forest_view(longer);
    assert(forest_view(longer).drop_last() =~= forest_view(units.subrange(0, k)));
}

/// A pass that fails on a prefix of the units fails on all of them.
pub proof fn lemma_forest_rejects(
    units: Seq<DocumentUnit>,
    parent: Seq<int>,
    edits: Seq<EditView>,
    k: int,
)
    requires
        0 <= k <= units.len(),
        !forest_accepts(forest_view(units.subrange(0, k)), parent, edits),
    ensures
        !forest_accepts(forest_view(units), parent, edits),
    decreases units.len() - k,
{
    if k < units.len() {
        lemma_forest_prefix(units, k);
        lemma_forest_rejects(units, parent, edits, k + 1);
    } else {
        assert(units.subrange(0, k) =~= units);
    }
}

/// The bytes that result from applying the ordered edits to `bytes` one at
/// a time, the first edit first, with every range moved by `shift`: the
/// number of bytes by which the edits applied so far have lengthened the
/// text.
pub open spec fn apply_forward(bytes: Seq<u8>, ordered: Seq<EditView>, shift: int) -> Seq<u8>
    decreases ordered.len(),
{
    if ordered.len() == 0 {
        bytes
    } else {
        let edit = ordered.first();
        let with = encode_utf8(edit.new_text);
        apply_forward(
            splice(bytes, edit.start + shift, edit.end + shift, with),
            ordered.drop_first(),
            shift + with.len() - (edit.end - edit.start),
        )
    }
}

/// The ranges of the edits, taken in order, lie in a text of `len` bytes,
/// and each ends where the next begins or before it.
pub open spec fn ranges_chained(len: int, ordered: Seq<EditView>) -> bool {
    &&& forall|i: int|
        0 <= i < ordered.len() ==> 0 <= (#[trigger] ordered[i]).start <= ordered[i].end <= len
    &&& forall|i: int, j: int|
        0 <= i < j < ordered.len() ==> (#[trigger] ordered[i]).end <= (#[trigger] ordered[j]).start
}

/// The edits with every range moved by `shift`.
pub open spec fn shifted(ordered: Seq<EditView>, shift: int) -> Seq<EditView> {
    Seq::new(
        ordered.len(),
        |i: int|
            EditView {
                unit: ordered[i].unit,
                start: ordered[i].start + shift,
                end: ordered[i].end + shift,
                new_text: ordered[i].new_text,
                cached_filename: ordered[i].cached_filename,
            },
    )
}

proof fn lemma_splices_commute(
    bytes: Seq<u8>,
    s1: int,
    e1: int,
    w1: Seq<u8>,
    s2: int,
    e2: int,
    w2: Seq<u8>,
)
    requires
        0 <= s1 <= e1 <= s2 <= e2 <= bytes.len(),
    ensures
        splice(splice(bytes, s1, e1, w1), s2 + w1.len() - (e1 - s1), e2 + w1.len() - (e1 - s1), w2)
            == splice(splice(bytes, s2, e2, w2), s1, e1, w1),
{
    let d = w1.len() - (e1 - s1);
    let left = splice(splice(bytes, s1, e1, w1), s2 + d, e2 + d, w2);
    let right = splice(splice(bytes, s2, e2, w2), s1, e1, w1);
    assert(left.len() == right.len());
    assert(left =~= right);
}

proof fn lemma_descending_first(bytes: Seq<u8>, ordered: Seq<EditView>)
    requires
        ordered.len() > 0,
    ensures
        apply_descending(bytes, ordered) == splice(
            apply_descending(bytes, ordered.drop_first()),
            ordered.first().start,
            ordered.first().end,
            encode_utf8(ordered.first().new_text),
        ),
    decreases ordered.len(),
{
    let last = ordered.last();
    let next = splice(bytes, last.start, last.end, encode_utf8(last.new_text));
    assert(apply_descending(bytes, ordered) == apply_descending(next, ordered.drop_last()));
    if ordered.len() == 1 {
        assert(ordered.drop_last() =~= Seq::<EditView>::empty());
        assert(ordered.drop_first() =~= Seq::<EditView>::empty());
        assert(ordered.last() == ordered.first());
        assert(apply_descending(next, ordered.drop_last()) == next);
        assert(apply_descending(bytes, ordered.drop_first()) == bytes);
    } else {
        lemma_descending_first(next, ordered.drop_last());
        assert(ordered.drop_last().drop_first() =~= ordered.drop_first().drop_last());
        assert(ordered.drop_last().first() == ordered.first());
        assert(ordered.drop_first().last() == last);
        assert(apply_descending(bytes, ordered.drop_first()) == apply_descending(
            next,
            ordered.drop_first().drop_last(),
        ));
    }
}

proof fn lemma_earlier_edit_commutes(bytes: Seq<u8>, edit: EditView, later: Seq<EditView>)
    requires
        0 <= edit.start <= edit.end <= bytes.len(),
        ranges_chained(bytes.len() as int, later),
        forall|j: int| 0 <= j < later.len() ==> edit.end <= (#[trigger] later[j]).start,
    ensures
        apply_descending(
            splice(bytes, edit.start, edit.end, encode_utf8(edit.new_text)),
            shifted(later, encode_utf8(edit.new_text).len() - (edit.end - edit.start)),
        ) == splice(
            apply_descending(bytes, later),
            edit.start,
            edit.end,
            encode_utf8(edit.new_text),
        ),
    decreases later.len(),
{
    let with = encode_utf8(edit.new_text);
    let d = with.len() - (edit.end - edit.start);
    if later.len() > 0 {
        let last = later.last();
        let with_last = encode_utf8(last.new_text);
        let rest = later.drop_last();
        let after_last = splice(bytes, last.start, last.end, with_last);
        assert(shifted(later, d).drop_last() =~= shifted(rest, d));
        assert(shifted(later, d).last().start == last.start + d);
        assert(shifted(later, d).last().end == last.end + d);
        assert(shifted(later, d).last().new_text == last.new_text);
        lemma_splices_commute(bytes, edit.start, edit.end, with, last.start, last.end, with_last);
        assert forall|i: int| 0 <= i < rest.len() implies 0 <= (#[trigger] rest[i]).start
            <= rest[i].end <= after_last.len() by {
            assert(rest[i] == later[i]);
            assert(later[i].end <= later[later.len() - 1].start);
        }
        assert forall|i: int, j: int| 0 <= i < j < rest.len() implies (#[trigger] rest[i]).end <= (
        #[trigger] rest[j]).start by {
            assert(rest[i] == later[i]);
            assert(rest[j] == later[j]);
        }
        assert forall|j: int| 0 <= j < rest.len() implies edit.end <= (#[trigger] rest[j]).start by {
            assert(rest[j] == later[j]);
        }
        assert(edit.end <= later[later.len() - 1].start);
        lemma_earlier_edit_commutes(after_last, edit, rest);
    } else {
        assert(shifted(later, d) =~= Seq::<EditView>::empty());
    }
}

proof fn lemma_forward_is_descending(bytes: Seq<u8>, ordered: Seq<EditView>, shift: int)
    requires
        ranges_chained(bytes.len() as int, shifted(ordered, shift)),
    ensures
        apply_forward(bytes, ordered, shift) == apply_descending(bytes, shifted(ordered, shift)),
    decreases ordered.len(),
{
    let moved = shifted(ordered, shift);
    if ordered.len() == 0 {
        assert(moved =~= Seq::<EditView>::empty());
    } else {
        let edit = ordered.first();
        let with = encode_utf8(edit.new_text);
        let d = with.len() - (edit.end - edit.start);
        let next = splice(bytes, edit.start + shift, edit.end + shift, with);
        let rest = ordered.drop_first();
        let first = moved.first();
        assert(first.start == edit.start + shift && first.end == edit.end + shift && first.new_text
            == edit.new_text);
        assert(moved.drop_first() =~= shifted(rest, shift));
        assert(shifted(shifted(rest, shift), d) =~= shifted(rest, shift + d));
        assert(0 <= moved[0].start <= moved[0].end <= bytes.len());
        assert forall|i: int| 0 <= i < rest.len() implies 0 <= (#[trigger] shifted(
            rest,
            shift,
        )[i]).start <= shifted(rest, shift)[i].end <= bytes.len() by {
            assert(shifted(rest, shift)[i] == moved[i + 1]);
        }
        assert forall|i: int, j: int| 0 <= i < j < rest.len() implies (#[trigger] shifted(
            rest,
            shift,
        )[i]).end <= (#[trigger] shifted(rest, shift)[j]).start by {
            assert(shifted(rest, shift)[i] == moved[i + 1]);
            assert(shifted(rest, shift)[j] == moved[j + 1]);
        }
        assert forall|j: int| 0 <= j < rest.len() implies first.end <= (#[trigger] shifted(
            rest,
            shift,
        )[j]).start by {
            assert(shifted(rest, shift)[j] == moved[j + 1]);
            assert(moved[0].end <= moved[j + 1].start);
        }
        lemma_earlier_edit_commutes(bytes, first, shifted(rest, shift));
        lemma_descending_first(bytes, moved);
        assert forall|i: int| 0 <= i < rest.len() implies 0 <= (#[trigger] shifted(
            rest,
            shift + d,
        )[i]).start <= shifted(rest, shift + d)[i].end <= next.len() by {
            assert(shifted(rest, shift)[i] == moved[i + 1]);
            assert(moved[0].end <= moved[i + 1].start);
        }
        assert forall|i: int, j: int| 0 <= i < j < rest.len() implies (#[trigger] shifted(
            rest,
            shift + d,
        )[i]).end <= (#[trigger] shifted(rest, shift + d)[j]).start by {
            assert(shifted(rest, shift)[i] == moved[i + 1]);
            assert(shifted(rest, shift)[j] == moved[j + 1]);
            assert(moved[i + 1].end <= moved[j + 1].start);
        }
        lemma_forward_is_descending(next, rest, shift + d);
    }
}

/// The bytes of a text from `from` on, with the range of every edit replaced
/// by the edit's text and everything between the ranges kept as it is.
pub open spec fn interleave(bytes: Seq<u8>, ordered: Seq<EditView>, from: int) -> Seq<u8>
    decreases ordered.len(),
{
    if ordered.len() == 0 {
        bytes.subrange(from, bytes.len() as int)
    } else {
        let edit = ordered.first();
        bytes.subrange(from, edit.start) + encode_utf8(edit.new_text) + interleave(
            bytes,
            ordered.drop_first(),
            edit.end,
        )
    }
}

proof fn lemma_descending_interleaves(bytes: Seq<u8>, ordered: Seq<EditView>, from: int)
    requires
        ranges_chained(bytes.len() as int, ordered),
        0 <= from <= bytes.len(),
        ordered.len() > 0 ==> from <= ordered.first().start,
    ensures
        apply_descending(bytes, ordered) == bytes.subrange(0, from) + interleave(
            bytes,
            ordered,
            from,
        ),
    decreases ordered.len(),
{
    if ordered.len() == 0 {
        assert(bytes =~= bytes.subrange(0, from) + bytes.subrange(from, bytes.len() as int));
    } else {
        let edit = ordered.first();
        let rest = ordered.drop_first();
        let with = encode_utf8(edit.new_text);
        assert(edit == ordered[0]);
        assert forall|i: int| 0 <= i < rest.len() implies 0 <= (#[trigger] rest[i]).start
            <= rest[i].end <= bytes.len() by {
            assert(rest[i] == ordered[i + 1]);
        }
        assert forall|i: int, j: int| 0 <= i < j < rest.len() implies (#[trigger] rest[i]).end <= (
        #[trigger] rest[j]).start by {
            assert(rest[i] == ordered[i + 1] && rest[j] == ordered[j + 1]);
        }
        if rest.len() > 0 {
            assert(rest.first() == ordered[1]);
            assert(ordered[0].end <= ordered[1].start);
        }
        lemma_descending_interleaves(bytes, rest, edit.end);
        lemma_descending_first(bytes, ordered);
        let later = interleave(bytes, rest, edit.end);
        let done = bytes.subrange(0, edit.end) + later;
        assert(done.subrange(0, edit.start) =~= bytes.subrange(0, edit.start));
        assert(done.subrange(edit.end, done.len() as int) =~= later);
        assert(splice(done, edit.start, edit.end, with) =~= bytes.subrange(0, from) + (
        bytes.subrange(from, edit.start) + with + later));
    }
}

/// Replacing from the highest start down gives the text in which the range
/// of every edit is replaced by that edit's text and nothing else is
/// changed: what stands before, between and behind the ranges stays, and no
/// edit has a part in what replaces the range of another.
pub proof fn descending_is_interleaving(bytes: Seq<u8>, ordered: Seq<EditView>)
    requires
        ranges_chained(bytes.len() as int, ordered),
    ensures
        apply_descending(bytes, ordered) == interleave(bytes, ordered, 0),
{
    if ordered.len() > 0 {
        assert(ordered.first() == ordered[0]);
    }
    lemma_descending_interleaves(bytes, ordered, 0);
    assert(bytes.subrange(0, 0) + interleave(bytes, ordered, 0) =~= interleave(bytes, ordered, 0));
}

/// Edits do not interfere: for edits whose ranges lie in the text and follow
/// one another without overlap, replacing the ranges from the highest start
/// down gives the same bytes as replacing them from the lowest start up
/// while moving every later range by the change in length.
pub proof fn descending_equals_forward(bytes: Seq<u8>, ordered: Seq<EditView>)
    requires
        ranges_chained(bytes.len() as int, ordered),
    ensures
        apply_descending(bytes, ordered) == apply_forward(bytes, ordered, 0),
{
    assert(shifted(ordered, 0) =~= ordered);
    lemma_forward_is_descending(bytes, ordered, 0);
}

/// Without edits a text stays as it is.
pub proof fn no_edits_no_change(text: Seq<char>)
    ensures
        edits_fit(text, sort_by_start(Seq::empty())),
        rewritten_text(text, Seq::empty()) == text,
{
    encode_utf8_decode_utf8(text);
}

/// Applying edits changes texts only: the rewritten unit has the path and
/// the nesting of the unit it was made from, all the way down.
pub proof fn rewrite_keeps_shape(unit: UnitView, place: Seq<int>, edits: Seq<EditView>)
    ensures
        same_shape(unit, rewrite_unit(unit, place, edits).0),
    decreases unit,
{
    rewrite_forest_keeps_shape(unit.subs, place, edits_for_others(edits, place));
}

/// Applying edits to a sequence of units changes texts only.
pub proof fn rewrite_forest_keeps_shape(units: Seq<UnitView>, parent: Seq<int>, edits: Seq<EditView>)
    ensures
        forest_same_shape(units, rewrite_forest(units, parent, edits).0),
    decreases units,
{
    if units.len() > 0 {
        let before = rewrite_forest(units.drop_last(), parent, edits);
        rewrite_forest_keeps_shape(units.drop_last(), parent, edits);
        rewrite_keeps_shape(units.last(), parent.push(units.len() - 1), before.1);
        let after = rewrite_forest(units, parent, edits).0;
        assert(after.drop_last() =~= before.0);
    }
}

/// A unit whose place no edit names keeps its text.
pub proof fn unit_without_edits_keeps_text(unit: UnitView, place: Seq<int>, edits: Seq<EditView>)
    requires
        forall|i: int| 0 <= i < edits.len() ==> (#[trigger] edits[i]).unit != place,
    ensures
        rewrite_unit(unit, place, edits).0.text == unit.text,
{
    lemma_no_edits_for(edits, place);
    no_edits_no_change(unit.text);
}

/// Where no edit names `place`, there are no edits for it.
pub proof fn lemma_no_edits_for(edits: Seq<EditView>, place: Seq<int>)
    requires
        forall|i: int| 0 <= i < edits.len() ==> (#[trigger] edits[i]).unit != place,
    ensures
        edits_for(edits, place) == Seq::<EditView>::empty(),
        edits_for_others(edits, place) == edits,
    decreases edits.len(),
{
    if edits.len() > 0 {
        let shorter = edits.drop_last();
        assert forall|i: int| 0 <= i < shorter.len() implies (#[trigger] shorter[i]).unit
            != place by {
            assert(shorter[i] == edits[i]);
        }
        lemma_no_edits_for(shorter, place);
        assert(edits[edits.len() - 1].unit != place);
        assert(shorter.push(edits.last()) =~= edits);
    }
}

/// Where every edit names `place`, all edits are for it.
pub proof fn lemma_all_edits_for(edits: Seq<EditView>, place: Seq<int>)
    requires
        forall|i: int| 0 <= i < edits.len() ==> (#[trigger] edits[i]).unit == place,
    ensures
        edits_for(edits, place) == edits,
        edits_for_others(edits, place) == Seq::<EditView>::empty(),
    decreases edits.len(),
{
    if edits.len() > 0 {
        let shorter = edits.drop_last();
        assert forall|i: int| 0 <= i < shorter.len() implies (#[trigger] shorter[i]).unit
            == place by {
            assert(shorter[i] == edits[i]);
        }
        lemma_all_edits_for(shorter, place);
        assert(edits[edits.len() - 1].unit == place);
        assert(shorter.push(edits.last()) =~= edits);
    }
}

/// Parting a concatenation parts its two halves.
pub proof fn lemma_edits_for_concat(left: Seq<EditView>, right: Seq<EditView>, place: Seq<int>)
    ensures
        edits_for(left + right, place) == edits_for(left, place) + edits_for(right, place),
        edits_for_others(left + right, place) == edits_for_others(left, place) + edits_for_others(
            right,
            place,
        ),
    decreases right.len(),
{
    if right.len() == 0 {
        assert(left + right =~= left);
        assert(edits_for(left, place) + edits_for(right, place) =~= edits_for(left, place));
        assert(edits_for_others(left, place) + edits_for_others(right, place) =~= edits_for_others(
            left,
            place,
        ));
    } else {
        let shorter = right.drop_last();
        lemma_edits_for_concat(left, shorter, place);
        assert((left + right).drop_last() =~= left + shorter);
        assert((left + right).last() == right.last());
        if right.last().unit == place {
            assert(edits_for(left, place) + edits_for(shorter, place).push(right.last()) =~= (
            edits_for(left, place) + edits_for(shorter, place)).push(right.last()));
        } else {
            assert(edits_for_others(left, place) + edits_for_others(shorter, place).push(
                right.last(),
            ) =~= (edits_for_others(left, place) + edits_for_others(shorter, place)).push(
                right.last(),
            ));
        }
    }
}

} // verus!
