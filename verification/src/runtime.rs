//! Runtime mode: diagram blocks become markup that the reader's browser
//! renders.

use crate::apply::apply_edits_to_text;
use crate::apply::edits_fit;
use crate::apply::lemma_forest_prefix;
use crate::apply::lemma_sort_keeps_ordered;
use crate::apply::rewritten_text;
use crate::apply::sort_by_start;
use crate::collect::EditView;
use crate::collect::PendingEdit;
use crate::document::forest_same_shape;
use crate::document::forest_view;
use crate::document::same_shape;
use crate::document::DocumentUnit;
use crate::document::UnitView;
use crate::model::views;
use crate::pattern::blocks_of;
use crate::pattern::cut_blocks;
use crate::pattern::BlockView;
use crate::pattern::fence_spans;
use crate::pattern::spans_fit;
use crate::pattern::spans_well_formed;
use crate::pattern::CaptureSpan;
use crate::pattern::FencePattern;
use crate::pattern::ScanError;
use crate::request::forest_scannable;
use crate::request::lemma_unscannable_prefix;
use crate::request::unit_scannable;
use crate::text::is_text_range;
use vstd::prelude::*;
use vstd::string::*;

verus! {

/// The markup that makes the browser render a diagram source.
pub open spec fn runtime_block(source: Seq<char>) -> Seq<char> {
    "<pre class=\"mermaid\">\n"@ + source + "\n</pre>"@
}

/// The edit that turns a located block into runtime markup. It names no
/// artifact, and no place but the empty one.
pub open spec fn runtime_edit(block: BlockView) -> EditView {
    EditView {
        unit: Seq::empty(),
        start: block.start,
        end: block.end,
        new_text: runtime_block(block.source),
        cached_filename: Seq::empty(),
    }
}

/// The runtime edits for located blocks, in the order of the blocks.
pub open spec fn block_edits(blocks: Seq<BlockView>) -> Seq<EditView> {
    Seq::new(blocks.len(), |i: int| runtime_edit(blocks[i]))
}

/// The runtime edits for the blocks that `spans` mark in `text`.
pub open spec fn runtime_edits(text: Seq<char>, spans: Seq<CaptureSpan>) -> Seq<EditView> {
    block_edits(blocks_of(text, spans))
}

/// A text with every diagram block replaced by runtime markup.
pub open spec fn runtime_text(text: Seq<char>) -> Seq<char> {
    rewritten_text(text, runtime_edits(text, fence_spans(text)))
}

/// A unit with every diagram block, its own and those of the units under
/// it, replaced by runtime markup.
pub open spec fn runtime_unit(unit: UnitView) -> UnitView
    decreases unit,
{
    UnitView { path: unit.path, text: runtime_text(unit.text), subs: runtime_forest(unit.subs) }
}

/// `runtime_unit` of every unit of the sequence.
pub open spec fn runtime_forest(units: Seq<UnitView>) -> Seq<UnitView>
    decreases units,
{
    if units.len() == 0 {
        Seq::empty()
    } else {
        runtime_forest(units.drop_last()).push(runtime_unit(units.last()))
    }
}

/// The markup that makes the browser render `source`.
pub fn runtime_markup(source: &str) -> (markup: String)
    ensures
        markup@ == runtime_block(source@),
{
    let mut markup = "<pre class=\"mermaid\">\n".to_owned();
    markup.append(source);
    markup.append("\n</pre>");
    markup
}

/// Replaces the blocks that `spans` mark in `text` by runtime markup. Fails
/// with `SourceMissing` if a span does not fit the text, and with
/// `MatchesOverlap` if the spans fit but their ranges, put in the order of
/// their starts, run into one another.
pub fn replace_blocks_for_runtime(text: &str, spans: &Vec<CaptureSpan>) -> (replaced: Result<
    String,
    ScanError,
>)
    ensures
        replaced is Ok <==> spans_fit(text@, spans@) && edits_fit(
            text@,
            sort_by_start(runtime_edits(text@, spans@)),
        ),
        replaced matches Ok(new_text) ==> new_text@ == rewritten_text(
            text@,
            runtime_edits(text@, spans@),
        ),
        !spans_fit(text@, spans@) ==> replaced == Err::<String, ScanError>(ScanError::SourceMissing),
        spans_fit(text@, spans@) && replaced is Err ==> replaced == Err::<String, ScanError>(
            ScanError::MatchesOverlap,
        ),
{
    let blocks = match cut_blocks(text, spans) {
        Ok(blocks) => blocks,
        Err(error) => {
            return Err(error);
        },
    };
    let ghost cut = views(blocks@);
    let mut edits: Vec<PendingEdit> = Vec::new();
    for block in it: blocks
        invariant
            cut == views(it.seq()),
            views(edits@) == block_edits(cut.subrange(0, it.index() as int)),
    {
        let ghost k = it.index() as int;
        let edit = PendingEdit {
            unit: Vec::new(),
            start: block.start,
            end: block.end,
            new_text: runtime_markup(block.source.as_str()),
            cached_filename: String::new(),
        };
        proof {
            assert(edit@.unit =~= Seq::<int>::empty());
            assert(cut[k] == block@);
            assert(views(edits@).len() == k);
            assert forall|j: int| 0 <= j < k + 1 implies views(edits@.push(edit))[j] == block_edits(
                cut.subrange(0, k + 1),
            )[j] by {
                if j < k {
                    assert(views(edits@)[j] == block_edits(cut.subrange(0, k))[j]);
                    assert(cut.subrange(0, k)[j] == cut.subrange(0, k + 1)[j]);
                }
            }
            assert(views(edits@.push(edit)) =~= block_edits(cut.subrange(0, k + 1)));
        }
        edits.push(edit);
    }
    assert(cut.subrange(0, cut.len() as int) =~= cut);
    match apply_edits_to_text(text, edits) {
        Some(new_text) => Ok(new_text),
        None => Err(ScanError::MatchesOverlap),
    }
}

/// The runtime edits of well-formed spans are in order and fit the text.
pub proof fn lemma_runtime_edits_fit(text: Seq<char>, spans: Seq<CaptureSpan>)
    requires
        spans_well_formed(spans, text),
    ensures
        sort_by_start(runtime_edits(text, spans)) == runtime_edits(text, spans),
        edits_fit(text, runtime_edits(text, spans)),
{
    let edits = runtime_edits(text, spans);
    assert forall|i: int, j: int| 0 <= i < j < edits.len() implies (#[trigger] edits[i]).end <= (
    #[trigger] edits[j]).start by {
        assert(spans[i].end <= spans[j].start);
    }
    assert forall|i: int| 0 <= i < edits.len() implies is_text_range(
        text,
        (#[trigger] edits[i]).start,
        edits[i].end,
    ) by {
        assert(is_text_range(text, spans[i].start as int, spans[i].end as int));
    }
    assert forall|i: int, j: int| 0 <= i < j < edits.len() implies edits[i].start
        <= edits[j].start by {
        assert(is_text_range(text, spans[i].start as int, spans[i].end as int));
        assert(spans[i].end <= spans[j].start);
    }
    lemma_sort_keeps_ordered(edits);
}

/// Replaces every diagram block of a unit, and of the units nested under it,
/// by runtime markup.
pub fn process_book_item_for_runtime_mode(pattern: &FencePattern, unit: DocumentUnit) -> (done:
    Result<DocumentUnit, ScanError>)
    ensures
        done is Ok <==> unit_scannable(unit@),
        done matches Ok(new_unit) ==> new_unit@ == runtime_unit(unit@),
        done is Err ==> done == Err::<DocumentUnit, ScanError>(ScanError::SourceMissing),
    decreases unit,
{
    let DocumentUnit { path, text, sub_units } = unit;
    let spans = pattern.find(text.as_str());
    proof {
        lemma_runtime_edits_fit(text@, spans@);
    }
    let new_text = match replace_blocks_for_runtime(text.as_str(), &spans) {
        Ok(new_text) => new_text,
        Err(error) => {
            return Err(error);
        },
    };
    match process_book_for_runtime_mode(pattern, sub_units) {
        Ok(new_subs) => Ok(DocumentUnit { path, text: new_text, sub_units: new_subs }),
        Err(error) => Err(error),
    }
}

/// Replaces every diagram block of the document by runtime markup.
pub fn process_book_for_runtime_mode(pattern: &FencePattern, units: Vec<DocumentUnit>) -> (done:
    Result<Vec<DocumentUnit>, ScanError>)
    ensures
        done is Ok <==> forest_scannable(forest_view(units@)),
        done matches Ok(new_units) ==> forest_view(new_units@) == runtime_forest(
            forest_view(units@),
        ),
        done is Err ==> done == Err::<Vec<DocumentUnit>, ScanError>(ScanError::SourceMissing),
    decreases units,
{
    let mut rewritten: Vec<DocumentUnit> = Vec::new();
    let ghost all = units@;
    for unit in it: units
        invariant
            it.seq() == all,
            all == units@,
            forest_scannable(forest_view(all.subrange(0, it.index() as int))),
            forest_view(rewritten@) == runtime_forest(
                forest_view(all.subrange(0, it.index() as int)),
            ),
    {
        let ghost k = it.index() as int;
        proof {
            lemma_forest_prefix(all, k);
        }
        match process_book_item_for_runtime_mode(pattern, unit) {
            Ok(new_unit) => {
                proof {
                    assert(rewritten@.push(new_unit).drop_last() =~= rewritten@);
                }
                rewritten.push(new_unit);
            },
            Err(error) => {
                proof {
                    lemma_unscannable_prefix(all, k + 1);
                }
                return Err(error);
            },
        }
    }
    assert(all.subrange(0, all.len() as int) =~= all);
    Ok(rewritten)
}

/// Runtime mode changes texts only: paths and nesting stay as they were.
pub proof fn runtime_keeps_shape(unit: UnitView)
    ensures
        same_shape(unit, runtime_unit(unit)),
    decreases unit,
{
    runtime_forest_keeps_shape(unit.subs);
}

/// Runtime mode changes the texts of a sequence of units only.
pub proof fn runtime_forest_keeps_shape(units: Seq<UnitView>)
    ensures
        forest_same_shape(units, runtime_forest(units)),
    decreases units,
{
    if units.len() > 0 {
        runtime_forest_keeps_shape(units.drop_last());
        runtime_keeps_shape(units.last());
        assert(runtime_forest(units).drop_last() =~= runtime_forest(units.drop_last()));
    }
}

} // verus!
