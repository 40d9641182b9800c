//! What holds of a whole run: the edits that come out of the collection are
//! edits that the application accepts, each by the unit it was made for.

use crate::apply::edits_fit;
use crate::apply::edits_for;
use crate::apply::edits_for_others;
use crate::apply::forest_accepts;
use crate::apply::lemma_all_edits_for;
use crate::apply::lemma_edits_for_concat;
use crate::apply::lemma_no_edits_for;
use crate::apply::lemma_sort_keeps_ordered;
use crate::apply::descending_is_interleaving;
use crate::apply::interleave;
use crate::apply::ranges_chained;
use crate::apply::rewrite_forest;
use crate::apply::rewritten_text;
use crate::apply::rewrite_unit;
use crate::apply::sort_by_start;
use crate::apply::unit_accepts;
use crate::collect::diagnostic;
use crate::collect::failed_edit;
use crate::collect::image_tag;
use crate::collect::rendered_edit;
use crate::collect::EditView;
use crate::config::SettingsView;
use crate::document::UnitView;
use crate::pattern::fence_spans;
use crate::pattern::spans_well_formed;
use crate::pattern::CaptureSpan;
use crate::request::forest_matches_ordered;
use crate::request::forest_requests;
use crate::request::text_between;
use crate::request::text_requests;
use crate::request::unit_matches_ordered;
use crate::request::unit_requests;
use crate::request::RequestView;
use crate::text::is_text_range;
use vstd::prelude::*;

verus! {

/// `place` is the place of the unit at `root` or of a unit nested under it,
/// at any depth: it begins with `root`.
pub open spec fn under(place: Seq<int>, root: Seq<int>) -> bool {
    root.len() <= place.len() && place.subrange(0, root.len() as int) == root
}

/// `place` is the place of one of the first `count` units nested under the
/// unit at `parent`, or of a unit nested under one of them.
pub open spec fn under_children(place: Seq<int>, parent: Seq<int>, count: int) -> bool {
    under(place, parent) && parent.len() < place.len() && 0 <= place[parent.len() as int] < count
}

/// The edits answer the requests one for one: each edit names the unit and
/// the range of the request in its place.
pub open spec fn answers(edits: Seq<EditView>, requests: Seq<RequestView>) -> bool {
    &&& edits.len() == requests.len()
    &&& forall|i: int|
        0 <= i < edits.len() ==> {
            &&& (#[trigger] edits[i]).unit == requests[i].unit
            &&& edits[i].start == requests[i].start
            &&& edits[i].end == requests[i].end
        }
}

/// The unit at `place` after a run whose edits answer its requests, in
/// document order: its text is rewritten with the edits made for its own
/// blocks, and so is the text of every unit nested under it.
pub open spec fn resolved_unit(
    settings: SettingsView,
    unit: UnitView,
    place: Seq<int>,
    edits: Seq<EditView>,
) -> UnitView
    decreases unit,
{
    let own = text_requests(settings, place, unit.path, unit.text, fence_spans(unit.text)).len() as int;
    UnitView {
        path: unit.path,
        text: rewritten_text(unit.text, edits.subrange(0, own)),
        subs: resolved_forest(settings, unit.subs, place, edits.subrange(own, edits.len() as int)),
    }
}

/// The units nested under the unit at `parent` after a run whose edits
/// answer their requests, in document order.
pub open spec fn resolved_forest(
    settings: SettingsView,
    units: Seq<UnitView>,
    parent: Seq<int>,
    edits: Seq<EditView>,
) -> Seq<UnitView>
    decreases units,
{
    if units.len() == 0 {
        Seq::empty()
    } else {
        let before = forest_requests(settings, units.drop_last(), parent).len() as int;
        resolved_forest(settings, units.drop_last(), parent, edits.subrange(0, before)).push(
            resolved_unit(
                settings,
                units.last(),
                parent.push(units.len() - 1),
                edits.subrange(before, edits.len() as int),
            ),
        )
    }
}

proof fn lemma_under_child(place: Seq<int>, parent: Seq<int>, index: int)
    ensures
        under(place, parent.push(index)) <==> under(place, parent) && parent.len() < place.len()
            && place[parent.len() as int] == index,
{
    let child = parent.push(index);
    let n = parent.len() as int;
    if under(place, child) {
        assert(place.subrange(0, n + 1)[n] == child[n]);
        assert(place.subrange(0, n) =~= place.subrange(0, n + 1).subrange(0, n));
        assert(child.subrange(0, n) =~= parent);
    }
    if under(place, parent) && n < place.len() && place[n] == index {
        assert(place.subrange(0, n + 1) =~= place.subrange(0, n).push(place[n]));
    }
}

proof fn lemma_unit_request_places(settings: SettingsView, unit: UnitView, place: Seq<int>, i: int)
    requires
        0 <= i < unit_requests(settings, unit, place).len(),
    ensures
        under(unit_requests(settings, unit, place)[i].unit, place),
        i < text_requests(settings, place, unit.path, unit.text, fence_spans(unit.text)).len()
            ==> unit_requests(settings, unit, place)[i].unit == place,
        i >= text_requests(settings, place, unit.path, unit.text, fence_spans(unit.text)).len()
            ==> under_children(
            unit_requests(settings, unit, place)[i].unit,
            place,
            unit.subs.len() as int,
        ),
    decreases unit, 0nat,
{
    let own = text_requests(settings, place, unit.path, unit.text, fence_spans(unit.text));
    if i < own.len() {
        assert(own[i].unit == place);
        assert(place.subrange(0, place.len() as int) =~= place);
    } else {
        lemma_forest_request_places(settings, unit.subs, place, i - own.len());
    }
}

proof fn lemma_forest_request_places(
    settings: SettingsView,
    units: Seq<UnitView>,
    parent: Seq<int>,
    i: int,
)
    requires
        0 <= i < forest_requests(settings, units, parent).len(),
    ensures
        under_children(forest_requests(settings, units, parent)[i].unit, parent, units.len() as int),
        i >= forest_requests(settings, units.drop_last(), parent).len() ==> under(
            forest_requests(settings, units, parent)[i].unit,
            parent.push(units.len() - 1),
        ),
        i < forest_requests(settings, units.drop_last(), parent).len() ==> under_children(
            forest_requests(settings, units, parent)[i].unit,
            parent,
            units.len() - 1,
        ),
    decreases units, 1nat,
{
    let before = forest_requests(settings, units.drop_last(), parent);
    if i < before.len() {
        lemma_forest_request_places(settings, units.drop_last(), parent, i);
    } else {
        let k = i - before.len();
        let child = parent.push(units.len() - 1);
        lemma_unit_request_places(settings, units.last(), child, k);
        lemma_under_child(unit_requests(settings, units.last(), child)[k].unit, parent, units.len() - 1);
    }
}

proof fn lemma_split_by_owner(place: Seq<int>, mine: Seq<EditView>, rest: Seq<EditView>)
    requires
        forall|i: int| 0 <= i < mine.len() ==> (#[trigger] mine[i]).unit == place,
        forall|i: int| 0 <= i < rest.len() ==> (#[trigger] rest[i]).unit != place,
    ensures
        edits_for(mine + rest, place) == mine,
        edits_for_others(mine + rest, place) == rest,
{
    lemma_edits_for_concat(mine, rest, place);
    lemma_all_edits_for(mine, place);
    lemma_no_edits_for(rest, place);
    assert(mine + Seq::<EditView>::empty() =~= mine);
    assert(Seq::<EditView>::empty() + rest =~= rest);
}

proof fn lemma_own_edits_fit(
    settings: SettingsView,
    place: Seq<int>,
    path: Seq<Seq<char>>,
    text: Seq<char>,
    spans: Seq<CaptureSpan>,
    mine: Seq<EditView>,
)
    requires
        spans_well_formed(spans, text),
        answers(mine, text_requests(settings, place, path, text, spans)),
    ensures
        edits_fit(text, sort_by_start(mine)),
{
    let own = text_requests(settings, place, path, text, spans);
    assert forall|i: int| 0 <= i < mine.len() implies is_text_range(
        text,
        (#[trigger] mine[i]).start,
        mine[i].end,
    ) by {
        assert(own[i].start == spans[i].start && own[i].end == spans[i].end);
        assert(is_text_range(text, spans[i].start as int, spans[i].end as int));
    }
    assert forall|i: int, j: int| 0 <= i < j < mine.len() implies (#[trigger] mine[i]).end <= (
    #[trigger] mine[j]).start by {
        assert(own[i].end == spans[i].end);
        assert(own[j].start == spans[j].start);
        assert(spans[i].end <= spans[j].start);
    }
    assert forall|i: int, j: int| 0 <= i < j < mine.len() implies mine[i].start
        <= mine[j].start by {
        assert(is_text_range(text, mine[i].start, mine[i].end));
        assert(mine[i].end <= mine[j].start);
    }
    lemma_sort_keeps_ordered(mine);
}

proof fn lemma_answers_split(
    edits: Seq<EditView>,
    first: Seq<RequestView>,
    second: Seq<RequestView>,
)
    requires
        answers(edits, first + second),
    ensures
        answers(edits.subrange(0, first.len() as int), first),
        answers(edits.subrange(first.len() as int, edits.len() as int), second),
        edits == edits.subrange(0, first.len() as int) + edits.subrange(
            first.len() as int,
            edits.len() as int,
        ),
{
    let n = first.len() as int;
    let a = edits.subrange(0, n);
    let b = edits.subrange(n, edits.len() as int);
    assert forall|i: int| 0 <= i < a.len() implies (#[trigger] a[i]).unit == first[i].unit
        && a[i].start == first[i].start && a[i].end == first[i].end by {
        assert(a[i] == edits[i]);
        assert((first + second)[i] == first[i]);
    }
    assert forall|i: int| 0 <= i < b.len() implies (#[trigger] b[i]).unit == second[i].unit
        && b[i].start == second[i].start && b[i].end == second[i].end by {
        assert(b[i] == edits[n + i]);
        assert((first + second)[n + i] == second[i]);
    }
    assert(edits =~= a + b);
}

proof fn lemma_unit_parts(
    settings: SettingsView,
    unit: UnitView,
    place: Seq<int>,
    edits: Seq<EditView>,
    tail: Seq<EditView>,
)
    requires
        answers(edits, unit_requests(settings, unit, place)),
        forall|i: int| 0 <= i < tail.len() ==> !under((#[trigger] tail[i]).unit, place),
    ensures
        ({
            let n = text_requests(
                settings,
                place,
                unit.path,
                unit.text,
                fence_spans(unit.text),
            ).len() as int;
            let mine = edits.subrange(0, n);
            let rest = edits.subrange(n, edits.len() as int) + tail;
            &&& forall|i: int| 0 <= i < mine.len() ==> (#[trigger] mine[i]).unit == place
            &&& forall|i: int| 0 <= i < rest.len() ==> (#[trigger] rest[i]).unit != place
            &&& forall|i: int|
                0 <= i < tail.len() ==> !under_children(
                    (#[trigger] tail[i]).unit,
                    place,
                    unit.subs.len() as int,
                )
        }),
{
    let requests = unit_requests(settings, unit, place);
    let n = text_requests(settings, place, unit.path, unit.text, fence_spans(unit.text)).len() as int;
    let mine = edits.subrange(0, n);
    let passed = edits.subrange(n, edits.len() as int);
    let rest = passed + tail;
    assert(place.subrange(0, place.len() as int) =~= place);
    assert forall|i: int| 0 <= i < mine.len() implies (#[trigger] mine[i]).unit == place by {
        assert(mine[i] == edits[i]);
        lemma_unit_request_places(settings, unit, place, i);
    }
    assert forall|i: int| 0 <= i < rest.len() implies (#[trigger] rest[i]).unit != place by {
        if i < passed.len() {
            assert(rest[i] == edits[n + i]);
            lemma_unit_request_places(settings, unit, place, n + i);
        } else {
            assert(rest[i] == tail[i - passed.len()]);
        }
    }
}

proof fn lemma_unit_pass(
    unit: UnitView,
    place: Seq<int>,
    mine: Seq<EditView>,
    rest: Seq<EditView>,
    tail: Seq<EditView>,
)
    requires
        forall|i: int| 0 <= i < mine.len() ==> (#[trigger] mine[i]).unit == place,
        forall|i: int| 0 <= i < rest.len() ==> (#[trigger] rest[i]).unit != place,
        edits_fit(unit.text, sort_by_start(mine)),
        forest_accepts(unit.subs, place, rest),
        rewrite_forest(unit.subs, place, rest).1 == tail,
    ensures
        unit_accepts(unit, place, mine + rest),
        rewrite_unit(unit, place, mine + rest).1 == tail,
        rewrite_unit(unit, place, mine + rest).0 == (UnitView {
            path: unit.path,
            text: rewritten_text(unit.text, mine),
            subs: rewrite_forest(unit.subs, place, rest).0,
        }),
{
    lemma_split_by_owner(place, mine, rest);
}

proof fn lemma_unit_takes_its_edits(
    settings: SettingsView,
    unit: UnitView,
    place: Seq<int>,
    edits: Seq<EditView>,
    tail: Seq<EditView>,
)
    requires
        unit_matches_ordered(unit),
        answers(edits, unit_requests(settings, unit, place)),
        forall|i: int| 0 <= i < tail.len() ==> !under((#[trigger] tail[i]).unit, place),
    ensures
        unit_accepts(unit, place, edits + tail),
        rewrite_unit(unit, place, edits + tail).1 == tail,
        rewrite_unit(unit, place, edits + tail).0 == resolved_unit(settings, unit, place, edits),
    decreases unit, 0nat,
{
    let spans = fence_spans(unit.text);
    let own = text_requests(settings, place, unit.path, unit.text, spans);
    let nested = forest_requests(settings, unit.subs, place);
    let mine = edits.subrange(0, own.len() as int);
    let passed = edits.subrange(own.len() as int, edits.len() as int);
    lemma_answers_split(edits, own, nested);
    lemma_unit_parts(settings, unit, place, edits, tail);
    lemma_own_edits_fit(settings, place, unit.path, unit.text, spans, mine);
    lemma_forest_takes_its_edits(settings, unit.subs, place, passed, tail);
    lemma_unit_pass(unit, place, mine, passed + tail, tail);
    assert(edits + tail =~= mine + (passed + tail));
}

proof fn lemma_forest_parts(
    settings: SettingsView,
    units: Seq<UnitView>,
    parent: Seq<int>,
    edits: Seq<EditView>,
    tail: Seq<EditView>,
)
    requires
        units.len() > 0,
        answers(edits, forest_requests(settings, units, parent)),
        forall|i: int|
            0 <= i < tail.len() ==> !under_children(
                (#[trigger] tail[i]).unit,
                parent,
                units.len() as int,
            ),
    ensures
        ({
            let m = forest_requests(settings, units.drop_last(), parent).len() as int;
            let later = edits.subrange(m, edits.len() as int) + tail;
            &&& forall|i: int|
                0 <= i < later.len() ==> !under_children(
                    (#[trigger] later[i]).unit,
                    parent,
                    units.len() - 1,
                )
            &&& forall|i: int|
                0 <= i < tail.len() ==> !under(
                    (#[trigger] tail[i]).unit,
                    parent.push(units.len() - 1),
                )
        }),
{
    let m = forest_requests(settings, units.drop_last(), parent).len() as int;
    let second = edits.subrange(m, edits.len() as int);
    let later = second + tail;
    let child = parent.push(units.len() - 1);
    assert forall|i: int| 0 <= i < later.len() implies !under_children(
        (#[trigger] later[i]).unit,
        parent,
        units.len() - 1,
    ) by {
        if i < second.len() {
            assert(later[i] == edits[m + i]);
            lemma_forest_request_places(settings, units, parent, m + i);
            lemma_under_child(later[i].unit, parent, units.len() - 1);
        } else {
            assert(later[i] == tail[i - second.len()]);
        }
    }
    assert forall|i: int| 0 <= i < tail.len() implies !under((#[trigger] tail[i]).unit, child) by {
        lemma_under_child(tail[i].unit, parent, units.len() - 1);
    }
}

proof fn lemma_forest_takes_its_edits(
    settings: SettingsView,
    units: Seq<UnitView>,
    parent: Seq<int>,
    edits: Seq<EditView>,
    tail: Seq<EditView>,
)
    requires
        forest_matches_ordered(units),
        answers(edits, forest_requests(settings, units, parent)),
        forall|i: int|
            0 <= i < tail.len() ==> !under_children(
                (#[trigger] tail[i]).unit,
                parent,
                units.len() as int,
            ),
    ensures
        forest_accepts(units, parent, edits + tail),
        rewrite_forest(units, parent, edits + tail).1 == tail,
        rewrite_forest(units, parent, edits + tail).0 == resolved_forest(
            settings,
            units,
            parent,
            edits,
        ),
    decreases units, 1nat,
{
    if units.len() == 0 {
        assert(edits + tail =~= tail);
    } else {
        let front = units.drop_last();
        let last = units.last();
        let child = parent.push(units.len() - 1);
        let before = forest_requests(settings, front, parent);
        let after = unit_requests(settings, last, child);
        let first = edits.subrange(0, before.len() as int);
        let second = edits.subrange(before.len() as int, edits.len() as int);
        lemma_answers_split(edits, before, after);
        lemma_forest_parts(settings, units, parent, edits, tail);
        lemma_forest_takes_its_edits(settings, front, parent, first, second + tail);
        assert(edits + tail =~= first + (second + tail));
        lemma_unit_takes_its_edits(settings, last, child, second, tail);
    }
}

/// The edits of a run always fit, and each goes to the unit it was made
/// for. In a document whose fence matches are ranges that follow one
/// another, edits that answer the collected requests one for one, whatever
/// their replacements are and whatever the paths of the units, are accepted
/// by the application; every one of them is taken by a unit; and the text of
/// every unit is rewritten with the edits made for its own blocks.
pub proof fn collected_edits_are_accepted(
    settings: SettingsView,
    book: Seq<UnitView>,
    edits: Seq<EditView>,
)
    requires
        forest_matches_ordered(book),
        answers(edits, forest_requests(settings, book, Seq::empty())),
    ensures
        forest_accepts(book, Seq::empty(), edits),
        rewrite_forest(book, Seq::empty(), edits).1 == Seq::<EditView>::empty(),
        rewrite_forest(book, Seq::empty(), edits).0 == resolved_forest(
            settings,
            book,
            Seq::empty(),
            edits,
        ),
{
    lemma_forest_takes_its_edits(settings, book, Seq::empty(), edits, Seq::empty());
    assert(edits + Seq::<EditView>::empty() =~= edits);
}

/// A block's outcome touches that block only. In a unit whose fence matches
/// are ranges that follow one another, edits that answer the unit's own
/// requests one for one fit the text, and the rewritten text is the unit's
/// text with the range of every block replaced by the text of that block's
/// edit, be it an image or a diagnostic, and with everything before, between
/// and behind the blocks as it was.
pub proof fn each_block_gets_its_own_replacement(
    settings: SettingsView,
    place: Seq<int>,
    path: Seq<Seq<char>>,
    text: Seq<char>,
    spans: Seq<CaptureSpan>,
    edits: Seq<EditView>,
)
    requires
        spans_well_formed(spans, text),
        answers(edits, text_requests(settings, place, path, text, spans)),
    ensures
        edits_fit(text, sort_by_start(edits)),
        sort_by_start(edits) == edits,
        rewritten_text(text, edits) == vstd::utf8::decode_utf8(
            interleave(vstd::utf8::encode_utf8(text), edits, 0),
        ),
{
    lemma_own_edits_fit(settings, place, path, text, spans, edits);
    let own = text_requests(settings, place, path, text, spans);
    assert forall|i: int, j: int| 0 <= i < j < edits.len() implies edits[i].start
        <= edits[j].start by {
        assert(own[i].start == spans[i].start && own[i].end == spans[i].end);
        assert(own[j].start == spans[j].start);
        assert(is_text_range(text, spans[i].start as int, spans[i].end as int));
        assert(spans[i].end <= spans[j].start);
    }
    lemma_sort_keeps_ordered(edits);
    assert(ranges_chained(vstd::utf8::encode_utf8(text).len() as int, edits)) by {
        assert forall|i: int| 0 <= i < edits.len() implies 0 <= (#[trigger] edits[i]).start
            <= edits[i].end <= vstd::utf8::encode_utf8(text).len() by {
            assert(is_text_range(text, edits[i].start, edits[i].end));
        }
    }
    descending_is_interleaving(vstd::utf8::encode_utf8(text), edits);
}

/// Failure isolation for a unit of three blocks. Whatever text stands
/// around the blocks: if the first and the third block were rendered and the
/// second failed with `message`, the unit's text becomes what stood before
/// the first block, the image of the first, what stood between the first and
/// the second, one diagnostic comment followed by the second block as the
/// author wrote it, what stood between the second and the third, the image of
/// the third, and what stood behind it.
pub proof fn failure_of_one_block_is_isolated(
    settings: SettingsView,
    place: Seq<int>,
    path: Seq<Seq<char>>,
    text: Seq<char>,
    spans: Seq<CaptureSpan>,
    message: Seq<char>,
)
    requires
        spans.len() == 3,
        spans_well_formed(spans, text),
    ensures
        ({
            let bytes = vstd::utf8::encode_utf8(text);
            let requests = text_requests(settings, place, path, text, spans);
            let edits = seq![
                rendered_edit(requests[0]),
                failed_edit(requests[1], message),
                rendered_edit(requests[2]),
            ];
            &&& edits_fit(text, sort_by_start(edits))
            &&& requests[1].block_text == text_between(
                text,
                spans[1].start as int,
                spans[1].end as int,
            )
            &&& rewritten_text(text, edits) == vstd::utf8::decode_utf8(
                bytes.subrange(0, spans[0].start as int) + vstd::utf8::encode_utf8(
                    image_tag(requests[0].relative_path),
                ) + bytes.subrange(spans[0].end as int, spans[1].start as int)
                    + vstd::utf8::encode_utf8(diagnostic(message, requests[1].block_text))
                    + bytes.subrange(spans[1].end as int, spans[2].start as int)
                    + vstd::utf8::encode_utf8(image_tag(requests[2].relative_path))
                    + bytes.subrange(spans[2].end as int, bytes.len() as int),
            )
        }),
{
    let bytes = vstd::utf8::encode_utf8(text);
    let requests = text_requests(settings, place, path, text, spans);
    let edits = seq![
        rendered_edit(requests[0]),
        failed_edit(requests[1], message),
        rendered_edit(requests[2]),
    ];
    each_block_gets_its_own_replacement(settings, place, path, text, spans, edits);
    let second = edits.drop_first();
    let third = second.drop_first();
    let none = third.drop_first();
    assert(edits.first() == edits[0]);
    assert(second.first() == edits[1]);
    assert(third.first() == edits[2]);
    assert(none.len() == 0);
    assert(interleave(bytes, none, edits[2].end) == bytes.subrange(
        edits[2].end,
        bytes.len() as int,
    ));
    assert(interleave(bytes, third, edits[1].end) == bytes.subrange(edits[1].end, edits[2].start)
        + vstd::utf8::encode_utf8(edits[2].new_text) + interleave(bytes, none, edits[2].end));
    assert(interleave(bytes, second, edits[0].end) == bytes.subrange(edits[0].end, edits[1].start)
        + vstd::utf8::encode_utf8(edits[1].new_text) + interleave(bytes, third, edits[1].end));
    assert(interleave(bytes, edits, 0) == bytes.subrange(0, edits[0].start)
        + vstd::utf8::encode_utf8(edits[0].new_text) + interleave(bytes, second, edits[0].end));
    assert(interleave(bytes, edits, 0) =~= bytes.subrange(0, spans[0].start as int)
        + vstd::utf8::encode_utf8(image_tag(requests[0].relative_path)) + bytes.subrange(
        spans[0].end as int,
        spans[1].start as int,
    ) + vstd::utf8::encode_utf8(diagnostic(message, requests[1].block_text)) + bytes.subrange(
        spans[1].end as int,
        spans[2].start as int,
    ) + vstd::utf8::encode_utf8(image_tag(requests[2].relative_path)) + bytes.subrange(
        spans[2].end as int,
        bytes.len() as int,
    ));
}

} // verus!
