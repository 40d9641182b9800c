//! The diagram fence and where it matches.
//!
//! Matching is done by the `regex` crate. The library keeps the compiled
//! fence pattern, names what the crate finds with it, and turns each match
//! into a `DiagramBlock` in verified code.

use crate::model::views;
use crate::text::is_text_range;
use crate::text::slice_text;
use crate::text::text_range_ok;
use regex::Regex;
use vstd::prelude::*;
use vstd::utf8::*;

verus! {

/// `regex::Regex`, a compiled pattern. Nothing inside it is visible here.
#[verifier::external_type_specification]
#[verifier::external_body]
pub struct ExRegex(Regex);

/// `regex::Error`, the reason why a pattern was refused. Nothing inside it
/// is visible here.
#[verifier::external_type_specification]
#[verifier::external_body]
pub struct ExRegexError(regex::Error);

/// One match of a pattern: the byte range of the whole match and, where the
/// first capture group took part in it, the byte range of that group.
#[derive(Clone, Copy, Debug)]
pub struct CaptureSpan {
    pub start: usize,
    pub end: usize,
    pub group: Option<(usize, usize)>,
}

/// The spans of the fenced diagram blocks of `text`, in text order: the
/// successive matches that `Regex::captures_iter` yields in `text` for the
/// regex that `Regex::new` builds from the fence pattern, each reduced to the
/// span of the whole match and the span of its first group. It stands for the
/// outside matcher; nothing here defines it.
pub uninterp spec fn fence_spans(text: Seq<char>) -> Seq<CaptureSpan>;

/// What `regex` documents of every list of matches in `text`: each span is a
/// range of the text between character boundaries, and the matches follow one
/// another without overlap.
pub open spec fn spans_well_formed(spans: Seq<CaptureSpan>, text: Seq<char>) -> bool {
    &&& forall|i: int|
        0 <= i < spans.len() ==> is_text_range(
            text,
            (#[trigger] spans[i]).start as int,
            spans[i].end as int,
        )
    &&& forall|i: int|
        0 <= i < spans.len() ==> ((#[trigger] spans[i]).group matches Some(g) ==> is_text_range(
            text,
            g.0 as int,
            g.1 as int,
        ))
    &&& forall|i: int, j: int|
        0 <= i < j < spans.len() ==> (#[trigger] spans[i]).end <= (#[trigger] spans[j]).start
}

/// Whether `Regex::new` accepts a pattern text and builds a regex from it.
/// It stands for the outside matcher's syntax and size checks; nothing here
/// defines it.
pub uninterp spec fn regex_accepts(pattern: Seq<char>) -> bool;

/// Calls `regex::Regex::new`.
///
/// Trusted: whether a regex is built depends on the pattern text alone, which
/// `Regex::new` hands to a builder with its default settings. Which patterns
/// are accepted is the matcher's decision and is not claimed.
#[verifier::external_body]
fn regex_new(pattern: &str) -> (built: Result<Regex, regex::Error>)
    ensures
        built is Ok <==> regex_accepts(pattern@),
{
    Regex::new(pattern)
}

/// The text of the fence pattern: an opening fence tagged `mermaid`, a line
/// break, the diagram source as the first group, a line break and the closing
/// fence.
pub open spec fn fence_pattern() -> Seq<char> {
    "```mermaid\\r?\\n([\\s\\S]*?)\\r?\\n```"@
}

/// Calls `regex::Regex::captures_iter` on the regex of a `FencePattern`, which
/// is the one that `Regex::new` built from the fence pattern, and reads
/// `start` and `end` of group 0 and of group 1 from each `Captures` it yields.
///
/// Trusted: the spans are those of the crate's successive matches of that
/// regex in `haystack`; every span runs between character boundaries of the
/// haystack with `start <= end`, as `Match` guarantees; and the matches are
/// in order and do not overlap.
#[verifier::external_body]
fn fence_captures(pattern: &FencePattern, haystack: &str) -> (spans: Vec<CaptureSpan>)
    ensures
        spans@ == fence_spans(haystack@),
        spans_well_formed(spans@, haystack@),
{
    pattern.re.captures_iter(haystack).map(|caps| {
        let whole = caps.get(0).unwrap();
        CaptureSpan {
            start: whole.start(),
            end: whole.end(),
            group: caps.get(1).map(|inner| (inner.start(), inner.end())),
        }
    }).collect()
}

/// Why a scan for diagram blocks failed.
#[derive(Clone, Copy, Debug, PartialEq, Eq, Structural)]
pub enum ScanError {
    /// The matcher refused the fence pattern.
    PatternRejected,
    /// A match came without the span of its diagram source.
    SourceMissing,
    /// The matches do not follow one another in the text.
    MatchesOverlap,
}

/// A located diagram block: the byte range of the whole block in its unit's
/// text, fences included, and the diagram source between the fences.
pub struct DiagramBlock {
    pub start: usize,
    pub end: usize,
    pub source: String,
}

/// A block by its range and the text of its source.
pub struct BlockView {
    pub start: int,
    pub end: int,
    pub source: Seq<char>,
}

impl View for DiagramBlock {
    type V = BlockView;

    open spec fn view(&self) -> BlockView {
        BlockView { start: self.start as int, end: self.end as int, source: self.source@ }
    }
}

/// A span can be cut out of `text`: both of its ranges lie in the text
/// between character boundaries, and the source group is there.
pub open spec fn span_fits(text: Seq<char>, span: CaptureSpan) -> bool {
    &&& is_text_range(text, span.start as int, span.end as int)
    &&& span.group matches Some(g) && is_text_range(text, g.0 as int, g.1 as int)
}

/// The bytes of `text` that the source group of `span` covers.
pub open spec fn source_bytes(text: Seq<char>, span: CaptureSpan) -> Seq<u8> {
    match span.group {
        Some((from, to)) => encode_utf8(text).subrange(from as int, to as int),
        None => Seq::empty(),
    }
}

/// The block that a fitting span marks in `text`.
pub open spec fn block_of(text: Seq<char>, span: CaptureSpan) -> BlockView {
    BlockView {
        start: span.start as int,
        end: span.end as int,
        source: decode_utf8(source_bytes(text, span)),
    }
}

/// The blocks that a list of fitting spans marks in `text`.
pub open spec fn blocks_of(text: Seq<char>, spans: Seq<CaptureSpan>) -> Seq<BlockView> {
    Seq::new(spans.len(), |i: int| block_of(text, spans[i]))
}

/// Every span of the list can be cut out of `text`.
pub open spec fn spans_fit(text: Seq<char>, spans: Seq<CaptureSpan>) -> bool {
    forall|i: int| 0 <= i < spans.len() ==> span_fits(text, #[trigger] spans[i])
}

impl DiagramBlock {
    /// The block that `span` marks in `text`, if the span fits the text.
    pub fn from_span(text: &str, span: &CaptureSpan) -> (found: Option<DiagramBlock>)
        ensures
            found is Some <==> span_fits(text@, *span),
            found matches Some(block) ==> block@ == block_of(text@, *span),
    {
        if !text_range_ok(text, span.start, span.end) {
            return None;
        }
        match span.group {
            None => None,
            Some((from, to)) => {
                if !text_range_ok(text, from, to) {
                    return None;
                }
                let source = slice_text(text, from, to);
                proof {
                    encode_utf8_decode_utf8(source@);
                }
                Some(DiagramBlock { start: span.start, end: span.end, source: source.to_owned() })
            },
        }
    }
}

/// The compiled fence pattern: an opening fence tagged `mermaid`, a line
/// break, the diagram source as the first group, a line break and the closing
/// fence. The only way to one is `compile`.
pub struct FencePattern {
    re: Regex,
}

impl FencePattern {
    /// Compiles the fence pattern: hands its text to the matcher and keeps
    /// the regex that the matcher builds. It succeeds exactly when the
    /// matcher accepts the fence pattern; a refusal is reported as
    /// `PatternRejected`.
    pub fn compile() -> (compiled: Result<FencePattern, ScanError>)
        ensures
            compiled is Ok <==> regex_accepts(fence_pattern()),
            compiled is Err ==> compiled == Err::<FencePattern, ScanError>(ScanError::PatternRejected),
    {
        FencePattern::from_built(regex_new("```mermaid\\r?\\n([\\s\\S]*?)\\r?\\n```"))
    }

    /// Takes what the matcher made of the fence pattern: a regex is kept, a
    /// refusal becomes `PatternRejected`.
    fn from_built(built: Result<Regex, regex::Error>) -> (compiled: Result<FencePattern, ScanError>)
        ensures
            compiled is Ok <==> built is Ok,
            compiled matches Ok(pattern) ==> built matches Ok(re) && pattern.re == re,
            compiled is Err ==> compiled == Err::<FencePattern, ScanError>(ScanError::PatternRejected),
    {
        match built {
            Ok(re) => Ok(FencePattern { re }),
            Err(_) => Err(ScanError::PatternRejected),
        }
    }

    /// The spans of the diagram blocks of `text`, in text order.
    pub fn find(&self, text: &str) -> (spans: Vec<CaptureSpan>)
        ensures
            spans@ == fence_spans(text@),
            spans_well_formed(spans@, text@),
    {
        fence_captures(self, text)
    }
}

/// Cuts the blocks that `spans` mark out of `text`. Fails with
/// `SourceMissing` unless every span fits the text.
pub fn cut_blocks(text: &str, spans: &Vec<CaptureSpan>) -> (cut: Result<Vec<DiagramBlock>, ScanError>)
    ensures
        cut is Ok <==> spans_fit(text@, spans@),
        cut matches Ok(blocks) ==> views(blocks@) == blocks_of(text@, spans@),
        cut is Err ==> cut == Err::<Vec<DiagramBlock>, ScanError>(ScanError::SourceMissing),
{
    let mut blocks: Vec<DiagramBlock> = Vec::new();
    let mut i: usize = 0;
    while i < spans.len()
        invariant
            i <= spans.len(),
            blocks.len() == i,
            spans_fit(text@, spans@.subrange(0, i as int)),
            views(blocks@) == blocks_of(text@, spans@.subrange(0, i as int)),
        decreases spans.len() - i,
    {
        match DiagramBlock::from_span(text, &spans[i]) {
            None => {
                return Err(ScanError::SourceMissing);
            },
            Some(block) => {
                proof {
                    let before = spans@.subrange(0, i as int);
                    let after = spans@.subrange(0, i as int + 1);
                    assert(views(blocks@.push(block)) =~= blocks_of(text@, after)) by {
                        assert forall|k: int| 0 <= k < after.len() implies views(
                            blocks@.push(block),
                        )[k] == blocks_of(text@, after)[k] by {
                            if k < i {
                                assert(views(blocks@)[k] == blocks_of(text@, before)[k]);
                            }
                        }
                    }
                    assert forall|k: int| 0 <= k < after.len() implies span_fits(
                        text@,
                        #[trigger] after[k],
                    ) by {
                        if k < i {
                            assert(after[k] == before[k]);
                        }
                    }
                }
                blocks.push(block);
            },
        }
        i += 1;
    }
    assert(spans@.subrange(0, i as int) =~= spans@);
    Ok(blocks)
}

} // verus!
