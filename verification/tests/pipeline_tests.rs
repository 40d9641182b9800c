use mdbook_diagrams::apply::apply_edits;
use mdbook_diagrams::collect::CollectAction;
use mdbook_diagrams::collect::CollectEvent;
use mdbook_diagrams::collect::CollectState;
use mdbook_diagrams::collect::RenderOutcome;
use mdbook_diagrams::config::OutputFormat;
use mdbook_diagrams::config::RenderMode;
use mdbook_diagrams::DiagramsPreprocessor;
use mdbook_diagrams::DocumentUnit;
use mdbook_diagrams::FencePattern;
use mdbook_diagrams::PendingEdit;
use mdbook_diagrams::RenderRequest;

/// A cache directory and a renderer that stand in for the file system and
/// the subprocess.
struct World {
    cache: Vec<String>,
    renders: Vec<String>,
    probes: usize,
    failing_sources: Vec<String>,
    renderer_missing: bool,
    undeletable: Vec<String>,
}

impl World {
    fn new() -> World {
        World {
            cache: Vec::new(),
            renders: Vec::new(),
            probes: 0,
            failing_sources: Vec::new(),
            renderer_missing: false,
            undeletable: Vec::new(),
        }
    }

    fn render(&mut self, pre: &DiagramsPreprocessor, request: &RenderRequest) -> RenderOutcome {
        self.renders.push(request.source.clone());
        let command = pre.render_command(&request.output_filename, false);
        assert_eq!(command.args.len(), 4);
        if self.renderer_missing {
            return RenderOutcome::Failed("No such file or directory (os error 2)".to_string());
        }
        if self.failing_sources.contains(&request.source) {
            return RenderOutcome::Failed(mdbook_diagrams::collect::exit_failure_message(
                "exit status: 1",
                "Parse error on line 1\nmore detail",
            ));
        }
        if !self.cache.contains(&request.output_filename) {
            self.cache.push(request.output_filename.clone());
        }
        RenderOutcome::Succeeded
    }

    fn resolve(&mut self, pre: &DiagramsPreprocessor, request: &RenderRequest) -> PendingEdit {
        let mut state = CollectState::Start;
        let mut event = CollectEvent::Begin;
        loop {
            let (next, action) = pre.collect_step(request, state, event);
            state = next;
            match action {
                CollectAction::ProbeCache => {
                    self.probes += 1;
                    event = CollectEvent::CacheProbed(self.cache.contains(&request.output_filename));
                },
                CollectAction::Render => {
                    event = CollectEvent::RenderFinished(self.render(pre, request));
                },
                CollectAction::Emit(edit) => {
                    assert_eq!(state, CollectState::Done);
                    return edit;
                },
                CollectAction::Ignore => panic!("the event was not expected"),
            }
        }
    }

    fn run(&mut self, pre: &DiagramsPreprocessor, book: Vec<DocumentUnit>) -> Vec<DocumentUnit> {
        let pattern = FencePattern::compile().unwrap();
        let requests = pre.collect_requests(&pattern, &book).unwrap();
        let mut edits = Vec::new();
        for request in &requests {
            edits.push(self.resolve(pre, request));
        }
        assert_eq!(edits.len(), requests.len());
        for name in pre.stale_artifacts(&self.cache, &edits) {
            if !self.undeletable.contains(&name) {
                self.cache.retain(|entry| entry != &name);
            }
        }
        let (book, left) = apply_edits(book, edits).unwrap();
        assert_eq!(left.len(), 0);
        book
    }
}

fn settings(enable_cache: bool) -> DiagramsPreprocessor {
    DiagramsPreprocessor::with_settings(
        RenderMode::PreRender,
        "mmdc".to_string(),
        OutputFormat::Svg,
        enable_cache,
    )
}

fn path(components: &[&str]) -> Vec<String> {
    components.iter().map(|c| c.to_string()).collect()
}

fn artifact(source: &str) -> String {
    format!("{}.svg", DiagramsPreprocessor::compute_cache_hash(source, "svg", "mmdc"))
}

const TWO_BLOCKS: &str =
    "# Title\n\n```mermaid\ngraph TD;\n  A-->B;\n```\n\nBetween é\n\n```mermaid\nsequenceDiagram\n  A->>B: hi\n```\nEnd\n";

const FIRST: &str = "graph TD;\n  A-->B;";

const SECOND: &str = "sequenceDiagram\n  A->>B: hi";

fn two_block_book() -> Vec<DocumentUnit> {
    vec![DocumentUnit::new(path(&["chapter.md"]), TWO_BLOCKS.to_string(), Vec::new())]
}

#[test]
fn two_runs_render_twice_then_not_at_all() {
    let pre = settings(true);
    let mut world = World::new();
    let first = world.run(&pre, two_block_book());
    assert_eq!(world.renders, vec![FIRST.to_string(), SECOND.to_string()]);
    assert_eq!(world.cache, vec![artifact(FIRST), artifact(SECOND)]);
    let expected = format!(
        "# Title\n\n![diagram](./generated/diagrams/{})\n\nBetween é\n\n![diagram](./generated/diagrams/{})\nEnd\n",
        artifact(FIRST),
        artifact(SECOND)
    );
    assert_eq!(first[0].text, expected);
    world.renders.clear();
    let second = world.run(&pre, two_block_book());
    assert_eq!(world.renders.len(), 0);
    assert_eq!(world.cache, vec![artifact(FIRST), artifact(SECOND)]);
    assert_eq!(second[0].text.as_bytes(), first[0].text.as_bytes());
}

#[test]
fn a_missing_renderer_leaves_both_blocks_under_comments() {
    let pre = settings(true);
    let mut world = World::new();
    world.renderer_missing = true;
    let book = world.run(&pre, two_block_book());
    assert_eq!(world.renders.len(), 2);
    assert_eq!(world.cache.len(), 0);
    assert_eq!(
        book[0].text,
        "# Title\n\n<!-- Error generating diagram: No such file or directory (os error 2) -->\n```mermaid\ngraph TD;\n  A-->B;\n```\n\nBetween é\n\n<!-- Error generating diagram: No such file or directory (os error 2) -->\n```mermaid\nsequenceDiagram\n  A->>B: hi\n```\nEnd\n"
    );
}

#[test]
fn a_cache_hit_does_not_invoke_the_renderer() {
    let pre = settings(true);
    let mut world = World::new();
    world.cache = vec![artifact(FIRST), artifact(SECOND)];
    let book = world.run(&pre, two_block_book());
    assert_eq!(world.renders.len(), 0);
    assert_eq!(world.probes, 2);
    assert!(book[0].text.contains(&artifact(FIRST)));
    assert!(book[0].text.contains(&artifact(SECOND)));
    assert!(!book[0].text.contains("```mermaid"));
}

#[test]
fn only_the_missing_artifact_is_rendered() {
    let pre = settings(true);
    let mut world = World::new();
    world.cache = vec![artifact(SECOND)];
    world.run(&pre, two_block_book());
    assert_eq!(world.renders, vec![FIRST.to_string()]);
    assert_eq!(world.cache, vec![artifact(SECOND), artifact(FIRST)]);
}

#[test]
fn a_disabled_cache_is_neither_probed_nor_cleaned() {
    let pre = settings(false);
    let mut world = World::new();
    world.cache = vec![artifact(FIRST), "old.svg".to_string()];
    world.run(&pre, two_block_book());
    assert_eq!(world.probes, 0);
    assert_eq!(world.renders.len(), 2);
    assert_eq!(world.cache, vec![artifact(FIRST), "old.svg".to_string(), artifact(SECOND)]);
}

#[test]
fn one_failing_block_leaves_its_neighbours_alone() {
    let pre = settings(true);
    let mut world = World::new();
    world.failing_sources = vec!["two".to_string()];
    let text = "a\n```mermaid\none\n```\nb\n```mermaid\ntwo\n```\nc\n```mermaid\nthree\n```\nd";
    let book = vec![DocumentUnit::new(path(&["dir", "unit.md"]), text.to_string(), Vec::new())];
    let book = world.run(&pre, book);
    let expected = format!(
        "a\n![diagram](./../generated/diagrams/{})\nb\n<!-- Error generating diagram: mmdc failed: exit status: 1 -->\n```mermaid\ntwo\n```\nc\n![diagram](./../generated/diagrams/{})\nd",
        artifact("one"),
        artifact("three")
    );
    assert_eq!(book[0].text, expected);
    assert_eq!(book[0].text.matches("<!-- Error generating diagram").count(), 1);
    assert_eq!(world.renders.len(), 3);
    assert_eq!(world.cache, vec![artifact("one"), artifact("three")]);
}

#[test]
fn unreferenced_artifacts_are_removed_after_the_run() {
    let pre = settings(true);
    let mut world = World::new();
    world.cache = vec!["stale.svg".to_string(), artifact(FIRST)];
    world.run(&pre, two_block_book());
    assert_eq!(world.cache, vec![artifact(FIRST), artifact(SECOND)]);
}

#[test]
fn an_artifact_that_cannot_be_deleted_does_not_stop_the_run() {
    let pre = settings(true);
    let mut world = World::new();
    world.cache = vec!["locked.svg".to_string(), "stale.svg".to_string()];
    world.undeletable = vec!["locked.svg".to_string()];
    let book = world.run(&pre, two_block_book());
    assert_eq!(world.cache, vec!["locked.svg".to_string(), artifact(FIRST), artifact(SECOND)]);
    assert!(book[0].text.contains(&artifact(FIRST)));
}

#[test]
fn a_failed_block_does_not_keep_its_old_artifact() {
    let pre = settings(true);
    let mut world = World::new();
    world.failing_sources = vec![FIRST.to_string()];
    world.cache = vec!["unrelated.svg".to_string()];
    world.run(&pre, two_block_book());
    assert_eq!(world.cache, vec![artifact(SECOND)]);
}

#[test]
fn equal_sources_share_one_artifact() {
    let pre = settings(true);
    let mut world = World::new();
    let text = "```mermaid\nsame\n```\n\n```mermaid\nsame\n```";
    let book = vec![DocumentUnit::new(path(&["u.md"]), text.to_string(), Vec::new())];
    let book = world.run(&pre, book);
    assert_eq!(world.cache, vec![artifact("same")]);
    assert_eq!(
        book[0].text,
        format!(
            "![diagram](./generated/diagrams/{0})\n\n![diagram](./generated/diagrams/{0})",
            artifact("same")
        )
    );
}

#[test]
fn nested_units_are_rewritten_in_place() {
    let pre = settings(true);
    let mut world = World::new();
    let deep = DocumentUnit::new(
        path(&["part", "sub", "deep.md"]),
        "```mermaid\ndeep\n```".to_string(),
        Vec::new(),
    );
    let plain = DocumentUnit::new(path(&["part", "plain.md"]), "nothing here".to_string(), Vec::new());
    let top = DocumentUnit::new(
        path(&["top.md"]),
        "x ```mermaid\ntop\n``` y".to_string(),
        vec![plain, deep],
    );
    let book = world.run(&pre, vec![top]);
    assert_eq!(
        book[0].text,
        format!("x ![diagram](./generated/diagrams/{}) y", artifact("top"))
    );
    assert_eq!(book[0].path, path(&["top.md"]));
    assert_eq!(book[0].sub_units.len(), 2);
    assert_eq!(book[0].sub_units[0].text, "nothing here");
    assert_eq!(
        book[0].sub_units[1].text,
        format!("![diagram](./../../generated/diagrams/{})", artifact("deep"))
    );
    assert_eq!(world.renders, vec!["top".to_string(), "deep".to_string()]);
}

#[test]
fn a_document_without_diagrams_is_unchanged() {
    let pre = settings(true);
    let mut world = World::new();
    let book = vec![DocumentUnit::new(path(&["a.md"]), "```rust\nfn f() {}\n```".to_string(), Vec::new())];
    let book = world.run(&pre, book);
    assert_eq!(book[0].text, "```rust\nfn f() {}\n```");
    assert_eq!(world.renders.len(), 0);
    assert_eq!(world.probes, 0);
}

#[test]
fn units_without_a_path_each_get_their_own_diagram() {
    let pre = settings(true);
    let mut world = World::new();
    let first = DocumentUnit::new(Vec::new(), "draft one\n```mermaid\none\n```".to_string(), Vec::new());
    let second = DocumentUnit::new(Vec::new(), "```mermaid\ntwo\n```\ndraft two".to_string(), Vec::new());
    let book = world.run(&pre, vec![first, second]);
    assert_eq!(
        book[0].text,
        format!("draft one\n![diagram](./generated/diagrams/{})", artifact("one"))
    );
    assert_eq!(
        book[1].text,
        format!("![diagram](./generated/diagrams/{})\ndraft two", artifact("two"))
    );
    assert_eq!(world.renders, vec!["one".to_string(), "two".to_string()]);
}

#[test]
fn edits_that_arrive_out_of_order_give_the_same_document() {
    let pre = settings(false);
    let pattern = FencePattern::compile().unwrap();
    let make = || {
        let nested = DocumentUnit::new(path(&["n.md"]), "```mermaid\nN\n```".to_string(), Vec::new());
        DocumentUnit::new(
            path(&["u.md"]),
            "```mermaid\nA\n``` and ```mermaid\nB\n```".to_string(),
            vec![nested],
        )
    };
    let in_order = {
        let book = vec![make()];
        let requests = pre.collect_requests(&pattern, &book).unwrap();
        let edits: Vec<PendingEdit> = requests.iter().map(|r| r.rendered()).collect();
        apply_edits(book, edits).unwrap().0
    };
    let reversed = {
        let book = vec![make()];
        let requests = pre.collect_requests(&pattern, &book).unwrap();
        let mut edits: Vec<PendingEdit> = requests.iter().map(|r| r.rendered()).collect();
        edits.reverse();
        apply_edits(book, edits).unwrap().0
    };
    assert_eq!(in_order[0].text, reversed[0].text);
    assert_eq!(in_order[0].sub_units[0].text, reversed[0].sub_units[0].text);
    assert!(!in_order[0].text.contains("```mermaid"));
    assert!(!in_order[0].sub_units[0].text.contains("```mermaid"));
}
