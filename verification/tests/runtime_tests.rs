use mdbook_diagrams::pattern::CaptureSpan;
use mdbook_diagrams::pattern::ScanError;
use mdbook_diagrams::runtime::process_book_for_runtime_mode;
use mdbook_diagrams::runtime::process_book_item_for_runtime_mode;
use mdbook_diagrams::runtime::replace_blocks_for_runtime;
use mdbook_diagrams::runtime::runtime_markup;
use mdbook_diagrams::DocumentUnit;
use mdbook_diagrams::FencePattern;
use regex::Captures;
use regex::Regex;

fn path(components: &[&str]) -> Vec<String> {
    components.iter().map(|c| c.to_string()).collect()
}

fn span(start: usize, end: usize, group: Option<(usize, usize)>) -> CaptureSpan {
    CaptureSpan { start, end, group }
}

#[test]
fn runtime_markup_wraps_the_source() {
    assert_eq!(runtime_markup("graph TD;"), "<pre class=\"mermaid\">\ngraph TD;\n</pre>");
    assert_eq!(runtime_markup(""), "<pre class=\"mermaid\">\n\n</pre>");
}

#[test]
fn blocks_are_replaced_by_markup() {
    let text = "```mermaid\nA\n```\nmiddle\n```mermaid\nBB\n```";
    let spans = vec![span(0, 16, Some((11, 12))), span(24, 41, Some((35, 37)))];
    assert_eq!(
        replace_blocks_for_runtime(text, &spans),
        Ok("<pre class=\"mermaid\">\nA\n</pre>\nmiddle\n<pre class=\"mermaid\">\nBB\n</pre>".to_string())
    );
    assert_eq!(replace_blocks_for_runtime(text, &Vec::new()), Ok(text.to_string()));
}

#[test]
fn spans_without_a_source_are_refused() {
    let text = "```mermaid\nA\n```";
    assert_eq!(
        replace_blocks_for_runtime(text, &vec![span(0, 16, None)]),
        Err(ScanError::SourceMissing)
    );
    assert_eq!(
        replace_blocks_for_runtime(text, &vec![span(0, 99, Some((11, 12)))]),
        Err(ScanError::SourceMissing)
    );
}

#[test]
fn spans_that_overlap_are_refused() {
    let text = "0123456789";
    let spans = vec![span(0, 6, Some((1, 2))), span(4, 8, Some((5, 6)))];
    assert_eq!(replace_blocks_for_runtime(text, &spans), Err(ScanError::MatchesOverlap));
}

#[test]
fn runtime_mode_agrees_with_a_global_substitution() {
    let pattern = FencePattern::compile().unwrap();
    let re = Regex::new("```mermaid\\r?\\n([\\s\\S]*?)\\r?\\n```").unwrap();
    let texts = [
        "# T\n\n```mermaid\ngraph TD;\n  A-->B;\n```\n\ntext é\n\n```mermaid\r\nseq\r\n```\nend",
        "no diagrams at all",
        "```mermaid\n\n```",
        "",
        "```mermaid\nA\n``````mermaid\nB\n```",
    ];
    for text in texts {
        let unit = DocumentUnit::new(path(&["u.md"]), text.to_string(), Vec::new());
        let expected = re
            .replace_all(text, |caps: &Captures| format!("<pre class=\"mermaid\">\n{}\n</pre>", &caps[1]))
            .to_string();
        let done = process_book_item_for_runtime_mode(&pattern, unit).unwrap();
        assert_eq!(done.text, expected);
    }
}

#[test]
fn runtime_mode_walks_the_whole_tree() {
    let pattern = FencePattern::compile().unwrap();
    let nested = DocumentUnit::new(path(&["n.md"]), "```mermaid\nN\n```".to_string(), Vec::new());
    let first = DocumentUnit::new(path(&["a.md"]), "a ```mermaid\nA\n``` a".to_string(), vec![nested]);
    let second = DocumentUnit::new(path(&["b.md"]), "plain".to_string(), Vec::new());
    let book = process_book_for_runtime_mode(&pattern, vec![first, second]).unwrap();
    assert_eq!(book.len(), 2);
    assert_eq!(book[0].path, path(&["a.md"]));
    assert_eq!(book[0].text, "a <pre class=\"mermaid\">\nA\n</pre> a");
    assert_eq!(book[0].sub_units.len(), 1);
    assert_eq!(book[0].sub_units[0].text, "<pre class=\"mermaid\">\nN\n</pre>");
    assert_eq!(book[1].text, "plain");
    assert_eq!(process_book_for_runtime_mode(&pattern, Vec::new()).unwrap().len(), 0);
}
