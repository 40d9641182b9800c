//! Render requests: what is known of a diagram block before anything is
//! probed or rendered.

use crate::config::format_text;
use crate::config::DiagramsPreprocessor;
use crate::config::SettingsView;
use crate::document::forest_view;
use crate::document::lemma_forest_view;
use crate::document::unit_view;
use crate::document::DocumentUnit;
use crate::document::UnitView;
use crate::fingerprint::artifact_filename;
use crate::fingerprint::artifact_name;
use crate::fingerprint::fingerprint_of;
use crate::model::child_place;
use crate::model::clone_place;
use crate::model::lemma_views_concat;
use crate::model::path_view;
use crate::model::place_view;
use crate::model::views;
use crate::pattern::block_of;
use crate::pattern::blocks_of;
use crate::pattern::cut_blocks;
use crate::pattern::fence_spans;
use crate::pattern::span_fits;
use crate::pattern::spans_fit;
use crate::pattern::spans_well_formed;
use crate::pattern::BlockView;
use crate::pattern::CaptureSpan;
use crate::pattern::DiagramBlock;
use crate::pattern::FencePattern;
use crate::pattern::ScanError;
use crate::text::is_text_range;
use crate::text::slice_text;
use crate::text::text_range_ok;
use vstd::prelude::*;
use vstd::string::*;
use vstd::utf8::*;

verus! {

/// One diagram block, ready to be resolved: the place of the unit that owns
/// it, the byte range of the block in the unit's text, the diagram source,
/// the block as the author wrote it, the name of its artifact file, and the
/// path from the unit's directory to that file.
pub struct RenderRequest {
    pub unit: Vec<usize>,
    pub start: usize,
    pub end: usize,
    pub source: String,
    pub block_text: String,
    pub output_filename: String,
    pub relative_path: String,
}

/// A request as the contracts see it.
pub struct RequestView {
    pub unit: Seq<int>,
    pub start: int,
    pub end: int,
    pub source: Seq<char>,
    pub block_text: Seq<char>,
    pub output_filename: Seq<char>,
    pub relative_path: Seq<char>,
}

impl View for RenderRequest {
    type V = RequestView;

    open spec fn view(&self) -> RequestView {
        RequestView {
            unit: place_view(self.unit@),
            start: self.start as int,
            end: self.end as int,
            source: self.source@,
            block_text: self.block_text@,
            output_filename: self.output_filename@,
            relative_path: self.relative_path@,
        }
    }
}

/// The number of directories between the source root and a unit: one less
/// than the number of components of its path, and none for an empty path.
pub open spec fn parent_depth(path: Seq<Seq<char>>) -> nat {
    if path.len() == 0 {
        0
    } else {
        (path.len() - 1) as nat
    }
}

/// `depth` steps up the directory tree.
pub open spec fn climb(depth: nat) -> Seq<char>
    decreases depth,
{
    if depth == 0 {
        Seq::empty()
    } else {
        climb((depth - 1) as nat) + "../"@
    }
}

/// The path from a unit `depth` directories below the source root to the
/// artifact file `filename` in the cache directory.
pub open spec fn relative_artifact_path(depth: nat, filename: Seq<char>) -> Seq<char> {
    climb(depth) + "generated/diagrams/"@ + filename
}

/// The part of `text` in the byte range `[start, end)`, as text.
pub open spec fn text_between(text: Seq<char>, start: int, end: int) -> Seq<char> {
    decode_utf8(encode_utf8(text).subrange(start, end))
}

/// The request for a located block of the unit at `place`, whose path is
/// `path` and whose text is `text`, under the given settings.
pub open spec fn request_of_block(
    settings: SettingsView,
    place: Seq<int>,
    path: Seq<Seq<char>>,
    text: Seq<char>,
    block: BlockView,
) -> RequestView {
    let name = artifact_name(
        fingerprint_of(block.source, format_text(settings.output_format), settings.mmdc_cmd),
        settings.output_format,
    );
    RequestView {
        unit: place,
        start: block.start,
        end: block.end,
        source: block.source,
        block_text: text_between(text, block.start, block.end),
        output_filename: name,
        relative_path: relative_artifact_path(parent_depth(path), name),
    }
}

/// The requests for located blocks of one unit, in the order of the blocks.
pub open spec fn block_requests(
    settings: SettingsView,
    place: Seq<int>,
    path: Seq<Seq<char>>,
    text: Seq<char>,
    blocks: Seq<BlockView>,
) -> Seq<RequestView> {
    Seq::new(blocks.len(), |i: int| request_of_block(settings, place, path, text, blocks[i]))
}

/// The requests for the blocks that `spans` mark in one unit's text, in the
/// order of the spans.
pub open spec fn text_requests(
    settings: SettingsView,
    place: Seq<int>,
    path: Seq<Seq<char>>,
    text: Seq<char>,
    spans: Seq<CaptureSpan>,
) -> Seq<RequestView> {
    block_requests(settings, place, path, text, blocks_of(text, spans))
}

/// The requests of the unit at `place` in document order: those of its own
/// text, then those of its nested units.
pub open spec fn unit_requests(settings: SettingsView, unit: UnitView, place: Seq<int>) -> Seq<
    RequestView,
>
    decreases unit,
{
    text_requests(settings, place, unit.path, unit.text, fence_spans(unit.text)) + forest_requests(
        settings,
        unit.subs,
        place,
    )
}

/// The requests of the units nested under the unit at `parent` (or of the
/// top-level units, for the empty place) in document order. The unit with
/// index `i` among them is at the place `parent` followed by `i`.
pub open spec fn forest_requests(settings: SettingsView, units: Seq<UnitView>, parent: Seq<int>) -> Seq<
    RequestView,
>
    decreases units,
{
    if units.len() == 0 {
        Seq::empty()
    } else {
        forest_requests(settings, units.drop_last(), parent) + unit_requests(
            settings,
            units.last(),
            parent.push(units.len() - 1),
        )
    }
}

/// Every fence match in the unit and in the units under it came with the
/// span of its diagram source.
pub open spec fn unit_scannable(unit: UnitView) -> bool
    decreases unit,
{
    spans_fit(unit.text, fence_spans(unit.text)) && forest_scannable(unit.subs)
}

/// Every unit of the sequence is scannable.
pub open spec fn forest_scannable(units: Seq<UnitView>) -> bool
    decreases units,
{
    units.len() > 0 ==> forest_scannable(units.drop_last()) && unit_scannable(units.last())
}

/// The fence matches in the unit and in the units under it are ranges of
/// their texts that follow one another without overlap.
pub open spec fn unit_matches_ordered(unit: UnitView) -> bool
    decreases unit,
{
    spans_well_formed(fence_spans(unit.text), unit.text) && forest_matches_ordered(unit.subs)
}

/// `unit_matches_ordered` of every unit of the sequence.
pub open spec fn forest_matches_ordered(units: Seq<UnitView>) -> bool
    decreases units,
{
    units.len() > 0 ==> forest_matches_ordered(units.drop_last()) && unit_matches_ordered(
        units.last(),
    )
}

/// The path from a unit `depth` directories below the source root to the
/// artifact file `filename`.
pub fn relative_output_path(depth: usize, filename: &str) -> (path: String)
    ensures
        path@ == relative_artifact_path(depth as nat, filename@),
{
    let mut path = String::new();
    let mut i: usize = 0;
    while i < depth
        invariant
            i <= depth,
            path@ == climb(i as nat),
        decreases depth - i,
    {
        path.append("../");
        i += 1;
    }
    path.append("generated/diagrams/");
    path.append(filename);
    path
}

/// The number of directories between the source root and the unit at `path`.
pub fn depth_of(path: &Vec<String>) -> (depth: usize)
    ensures
        depth == parent_depth(path_view(path@)),
{
    if path.len() == 0 {
        0
    } else {
        path.len() - 1
    }
}

impl DiagramsPreprocessor {
    /// The request for one located block of the unit at `place`, whose path
    /// is `unit_path` and whose text is `text`. `None` unless the block's
    /// range can be cut out of the text.
    pub fn request_for_block(
        &self,
        place: &Vec<usize>,
        unit_path: &Vec<String>,
        text: &str,
        block: DiagramBlock,
    ) -> (made: Option<RenderRequest>)
        ensures
            made is Some <==> is_text_range(text@, block.start as int, block.end as int),
            made matches Some(request) ==> request@ == request_of_block(
                self@,
                place_view(place@),
                path_view(unit_path@),
                text@,
                block@,
            ),
    {
        if !text_range_ok(text, block.start, block.end) {
            return None;
        }
        let written = slice_text(text, block.start, block.end);
        proof {
            encode_utf8_decode_utf8(written@);
        }
        let hash = DiagramsPreprocessor::compute_cache_hash(
            block.source.as_str(),
            self.output_format().extension(),
            self.mmdc_cmd(),
        );
        let output_filename = artifact_filename(hash.as_str(), self.output_format());
        let relative_path = relative_output_path(depth_of(unit_path), output_filename.as_str());
        Some(
            RenderRequest {
                unit: clone_place(place),
                start: block.start,
                end: block.end,
                source: block.source,
                block_text: written.to_owned(),
                output_filename,
                relative_path,
            },
        )
    }

    /// The requests for the blocks that `spans` mark in the text of the unit
    /// at `place`, in the order of the spans. Fails with `SourceMissing`
    /// unless every span fits the text.
    pub fn requests_from_spans(
        &self,
        place: &Vec<usize>,
        unit_path: &Vec<String>,
        text: &str,
        spans: &Vec<CaptureSpan>,
    ) -> (made: Result<Vec<RenderRequest>, ScanError>)
        ensures
            made is Ok <==> spans_fit(text@, spans@),
            made matches Ok(requests) ==> views(requests@) == text_requests(
                self@,
                place_view(place@),
                path_view(unit_path@),
                text@,
                spans@,
            ),
            made is Err ==> made == Err::<Vec<RenderRequest>, ScanError>(ScanError::SourceMissing),
    {
        let blocks = match cut_blocks(text, spans) {
            Ok(blocks) => blocks,
            Err(error) => {
                return Err(error);
            },
        };
        let ghost cut = views(blocks@);
        let mut requests: Vec<RenderRequest> = Vec::new();
        for block in it: blocks
            invariant
                cut == views(it.seq()),
                cut == blocks_of(text@, spans@),
                cut.len() == it.seq().len(),
                cut.len() == spans@.len(),
                spans_fit(text@, spans@),
                views(requests@) == block_requests(
                    self@,
                    place_view(place@),
                    path_view(unit_path@),
                    text@,
                    cut.subrange(0, it.index() as int),
                ),
        {
            let ghost k = it.index() as int;
            assert(cut[k] == block@);
            assert(cut[k] == block_of(text@, spans@[k]));
            assert(span_fits(text@, spans@[k]));
            let request = match self.request_for_block(place, unit_path, text, block) {
                Some(request) => request,
                None => {
                    return Err(ScanError::SourceMissing);
                },
            };
            proof {
                let before = block_requests(
                    self@,
                    place_view(place@),
                    path_view(unit_path@),
                    text@,
                    cut.subrange(0, k),
                );
                let after = block_requests(
                    self@,
                    place_view(place@),
                    path_view(unit_path@),
                    text@,
                    cut.subrange(0, k + 1),
                );
                assert(views(requests@).len() == k);
                assert forall|j: int| 0 <= j < k + 1 implies views(requests@.push(request))[j]
                    == after[j] by {
                    if j < k {
                        assert(views(requests@)[j] == before[j]);
                        assert(cut.subrange(0, k)[j] == cut.subrange(0, k + 1)[j]);
                    } else {
                        assert(cut.subrange(0, k + 1)[j] == block@);
                    }
                }
                assert(views(requests@.push(request)) =~= after);
            }
            requests.push(request);
        }
        assert(cut.subrange(0, cut.len() as int) =~= cut);
        Ok(requests)
    }

    /// The requests for the diagram blocks of the own text of the unit at
    /// `place`, in text order. Fails with `SourceMissing` if a fence match
    /// came without the span of its diagram source.
    pub fn collect_edits_from_chapter(
        &self,
        pattern: &FencePattern,
        unit: &DocumentUnit,
        place: &Vec<usize>,
    ) -> (made: Result<Vec<RenderRequest>, ScanError>)
        ensures
            spans_well_formed(fence_spans(unit@.text), unit@.text),
            made is Ok <==> spans_fit(unit@.text, fence_spans(unit@.text)),
            made matches Ok(requests) ==> views(requests@) == text_requests(
                self@,
                place_view(place@),
                unit@.path,
                unit@.text,
                fence_spans(unit@.text),
            ),
            made is Err ==> made == Err::<Vec<RenderRequest>, ScanError>(ScanError::SourceMissing),
    {
        let spans = pattern.find(unit.text.as_str());
        self.requests_from_spans(place, &unit.path, unit.text.as_str(), &spans)
    }

    /// The requests for the diagram blocks of the unit at `place` and of the
    /// units nested under it, in document order: the unit's own blocks first,
    /// then those of each nested unit in turn.
    pub fn collect_edits_from_book_item_recursively(
        &self,
        pattern: &FencePattern,
        unit: &DocumentUnit,
        place: &Vec<usize>,
    ) -> (made: Result<Vec<RenderRequest>, ScanError>)
        ensures
            made is Ok ==> unit_matches_ordered(unit@),
            made is Ok <==> unit_scannable(unit@),
            made matches Ok(requests) ==> views(requests@) == unit_requests(
                self@,
                unit@,
                place_view(place@),
            ),
            made is Err ==> made == Err::<Vec<RenderRequest>, ScanError>(ScanError::SourceMissing),
        decreases *unit,
    {
        let own = match self.collect_edits_from_chapter(pattern, unit, place) {
            Ok(requests) => requests,
            Err(error) => {
                return Err(error);
            },
        };
        let mut nested = match self.collect_under(pattern, &unit.sub_units, place) {
            Ok(requests) => requests,
            Err(error) => {
                return Err(error);
            },
        };
        let mut requests = own;
        proof {
            lemma_views_concat(requests@, nested@);
        }
        requests.append(&mut nested);
        Ok(requests)
    }

    /// The requests for the diagram blocks of the units nested under the
    /// unit at `parent`, in document order.
    pub fn collect_under(
        &self,
        pattern: &FencePattern,
        units: &Vec<DocumentUnit>,
        parent: &Vec<usize>,
    ) -> (made: Result<Vec<RenderRequest>, ScanError>)
        ensures
            made is Ok ==> forest_matches_ordered(forest_view(units@)),
            made is Ok <==> forest_scannable(forest_view(units@)),
            made matches Ok(requests) ==> views(requests@) == forest_requests(
                self@,
                forest_view(units@),
                place_view(parent@),
            ),
            made is Err ==> made == Err::<Vec<RenderRequest>, ScanError>(ScanError::SourceMissing),
        decreases *units,
    {
        let mut requests: Vec<RenderRequest> = Vec::new();
        let mut i: usize = 0;
        assert(views(requests@) =~= Seq::<RequestView>::empty());
        while i < units.len()
            invariant
                i <= units.len(),
                forest_scannable(forest_view(units@.subrange(0, i as int))),
                forest_matches_ordered(forest_view(units@.subrange(0, i as int))),
                views(requests@) == forest_requests(
                    self@,
                    forest_view(units@.subrange(0, i as int)),
                    place_view(parent@),
                ),
            decreases units.len() - i,
        {
            let ghost before = units@.subrange(0, i as int);
            let ghost after = units@.subrange(0, i as int + 1);
            proof {
                assert(after.drop_last() =~= before);
                assert(after.last() == units@[i as int]);
                lemma_forest_view(after);
                lemma_forest_view(before);
                assert(forest_view(after).drop_last() =~= forest_view(before));
                assert(forest_view(after).last() == unit_view(units@[i as int]));
            }
            let place = child_place(parent, i);
            let mut nested = match self.collect_edits_from_book_item_recursively(
                pattern,
                &units[i],
                &place,
            ) {
                Ok(nested) => nested,
                Err(error) => {
                    proof {
                        lemma_unscannable_prefix(units@, i as int + 1);
                    }
                    return Err(error);
                },
            };
            proof {
                lemma_views_concat(requests@, nested@);
            }
            requests.append(&mut nested);
            i += 1;
        }
        assert(units@.subrange(0, i as int) =~= units@);
        Ok(requests)
    }

    /// The requests for every diagram block of the document, in document
    /// order. Fails with `SourceMissing` if a fence match came without the
    /// span of its diagram source.
    pub fn collect_requests(&self, pattern: &FencePattern, book: &Vec<DocumentUnit>) -> (made:
        Result<Vec<RenderRequest>, ScanError>)
        ensures
            made is Ok ==> forest_matches_ordered(forest_view(book@)),
            made is Ok <==> forest_scannable(forest_view(book@)),
            made matches Ok(requests) ==> views(requests@) == forest_requests(
                self@,
                forest_view(book@),
                Seq::empty(),
            ),
            made is Err ==> made == Err::<Vec<RenderRequest>, ScanError>(ScanError::SourceMissing),
    {
        let root: Vec<usize> = Vec::new();
        assert(place_view(root@) =~= Seq::<int>::empty());
        self.collect_under(pattern, book, &root)
    }
}

/// A sequence of units with an unscannable prefix is not scannable.
pub proof fn lemma_unscannable_prefix(units: Seq<DocumentUnit>, k: int)
    requires
        0 <= k <= units.len(),
        !forest_scannable(forest_view(units.subrange(0, k))),
    ensures
        !forest_scannable(forest_view(units)),
    decreases units.len() - k,
{
    if k < units.len() {
        let longer = units.subrange(0, k + 1);
        assert(longer.drop_last() =~= units.subrange(0, k));
        lemma_forest_view(longer);
        lemma_forest_view(units.subrange(0, k));
        assert(forest_view(longer).drop_last() =~= forest_view(units.subrange(0, k)));
        lemma_unscannable_prefix(units, k + 1);
    } else {
        assert(units.subrange(0, k) =~= units);
    }
}

} // verus!
