use mdbook_diagrams::collect::diagnostic_comment;
use mdbook_diagrams::collect::error_headline;
use mdbook_diagrams::collect::exit_failure_message;
use mdbook_diagrams::collect::image_markup;
use mdbook_diagrams::collect::CollectAction;
use mdbook_diagrams::collect::CollectEvent;
use mdbook_diagrams::collect::CollectState;
use mdbook_diagrams::collect::RenderOutcome;
use mdbook_diagrams::config::OutputFormat;
use mdbook_diagrams::config::RenderMode;
use mdbook_diagrams::pattern::DiagramBlock;
use mdbook_diagrams::request::depth_of;
use mdbook_diagrams::request::relative_output_path;
use mdbook_diagrams::DiagramsPreprocessor;
use mdbook_diagrams::DocumentUnit;
use mdbook_diagrams::FencePattern;
use mdbook_diagrams::PendingEdit;
use mdbook_diagrams::RenderRequest;

fn settings(enable_cache: bool) -> DiagramsPreprocessor {
    DiagramsPreprocessor::with_settings(
        RenderMode::PreRender,
        "mmdc".to_string(),
        OutputFormat::Svg,
        enable_cache,
    )
}

fn path(components: &[&str]) -> Vec<String> {
    components.iter().map(|c| c.to_string()).collect()
}

fn sample_request() -> RenderRequest {
    RenderRequest {
        unit: vec![2, 0],
        start: 6,
        end: 30,
        source: "graph TD;".to_string(),
        block_text: "```mermaid\ngraph TD;\n```".to_string(),
        output_filename: "abc.svg".to_string(),
        relative_path: "../generated/diagrams/abc.svg".to_string(),
    }
}

fn emitted(action: CollectAction) -> PendingEdit {
    match action {
        CollectAction::Emit(edit) => edit,
        _ => panic!("no edit was emitted"),
    }
}

const TEXT: &str = "intro\n```mermaid\ngraph TD;\n```\noutro";

const HASH: &str = "c0c2b5a0b5b9e1c57c4a2c6c0c11c2c5";

#[test]
fn relative_paths_climb_by_depth() {
    assert_eq!(relative_output_path(0, "x.svg"), "generated/diagrams/x.svg");
    assert_eq!(relative_output_path(1, "x.svg"), "../generated/diagrams/x.svg");
    assert_eq!(relative_output_path(3, "x.png"), "../../../generated/diagrams/x.png");
}

#[test]
fn depth_is_the_number_of_parent_directories() {
    assert_eq!(depth_of(&path(&[])), 0);
    assert_eq!(depth_of(&path(&["intro.md"])), 0);
    assert_eq!(depth_of(&path(&["guide", "intro.md"])), 1);
    assert_eq!(depth_of(&path(&["a", "b", "c", "d.md"])), 3);
}

#[test]
fn image_markup_points_below_the_current_directory() {
    assert_eq!(image_markup("generated/diagrams/x.svg"), "![diagram](./generated/diagrams/x.svg)");
    assert_eq!(
        image_markup("../generated/diagrams/x.svg"),
        "![diagram](./../generated/diagrams/x.svg)"
    );
}

#[test]
fn request_for_block_fills_every_field() {
    let pre = settings(true);
    let block = DiagramBlock { start: 6, end: 30, source: "graph TD;".to_string() };
    let request =
        pre.request_for_block(&vec![3, 1], &path(&["guide", "intro.md"]), TEXT, block).unwrap();
    let hash = DiagramsPreprocessor::compute_cache_hash("graph TD;", "svg", "mmdc");
    assert_ne!(hash, HASH);
    assert_eq!(request.unit, vec![3, 1]);
    assert_eq!((request.start, request.end), (6, 30));
    assert_eq!(request.source, "graph TD;");
    assert_eq!(request.block_text, "```mermaid\ngraph TD;\n```");
    assert_eq!(request.output_filename, format!("{}.svg", hash));
    assert_eq!(request.relative_path, format!("../generated/diagrams/{}.svg", hash));
}

#[test]
fn request_for_block_needs_a_range_of_the_text() {
    let pre = settings(true);
    let outside = DiagramBlock { start: 6, end: 300, source: "graph TD;".to_string() };
    assert!(pre.request_for_block(&vec![0], &path(&["a.md"]), TEXT, outside).is_none());
    let inside_a_character = DiagramBlock { start: 1, end: 2, source: String::new() };
    assert!(pre.request_for_block(&vec![0], &path(&["a.md"]), "aé", inside_a_character).is_none());
}

#[test]
fn request_depends_on_format_and_command() {
    let svg = settings(true);
    let png = DiagramsPreprocessor::with_settings(
        RenderMode::PreRender,
        "mmdc".to_string(),
        OutputFormat::Png,
        true,
    );
    let other = DiagramsPreprocessor::with_settings(
        RenderMode::PreRender,
        "npx mmdc".to_string(),
        OutputFormat::Svg,
        true,
    );
    let block = || DiagramBlock { start: 6, end: 30, source: "graph TD;".to_string() };
    let a = svg.request_for_block(&vec![0], &path(&[]), TEXT, block()).unwrap();
    let b = png.request_for_block(&vec![0], &path(&[]), TEXT, block()).unwrap();
    let c = other.request_for_block(&vec![0], &path(&[]), TEXT, block()).unwrap();
    assert!(a.output_filename.ends_with(".svg"));
    assert!(b.output_filename.ends_with(".png"));
    assert_ne!(a.output_filename, c.output_filename);
    assert_ne!(a.output_filename[..64], b.output_filename[..64]);
    assert_eq!(a.relative_path, format!("generated/diagrams/{}", a.output_filename));
}

#[test]
fn requests_come_in_document_order() {
    let pre = settings(true);
    let pattern = FencePattern::compile().unwrap();
    let nested = DocumentUnit::new(
        path(&["part", "nested.md"]),
        "```mermaid\nN\n```".to_string(),
        Vec::new(),
    );
    let first = DocumentUnit::new(
        path(&["first.md"]),
        "```mermaid\nA\n```\n```mermaid\nB\n```".to_string(),
        vec![nested],
    );
    let plain = DocumentUnit::new(path(&["plain.md"]), "no diagrams".to_string(), Vec::new());
    let last = DocumentUnit::new(path(&["last.md"]), "x\n```mermaid\nZ\n```".to_string(), Vec::new());
    let book = vec![first, plain, last];
    let requests = pre.collect_requests(&pattern, &book).unwrap();
    let sources: Vec<&str> = requests.iter().map(|r| r.source.as_str()).collect();
    assert_eq!(sources, vec!["A", "B", "N", "Z"]);
    assert_eq!(requests[0].unit, vec![0]);
    assert_eq!(requests[1].unit, vec![0]);
    assert_eq!(requests[2].unit, vec![0, 0]);
    assert_eq!(requests[3].unit, vec![2]);
    assert_eq!((requests[1].start, requests[1].end), (17, 33));
    assert_eq!((requests[3].start, requests[3].end), (2, 18));
    assert!(requests[2].relative_path.starts_with("../generated/diagrams/"));
    assert!(requests[0].relative_path.starts_with("generated/diagrams/"));
    assert_eq!(book[0].text, "```mermaid\nA\n```\n```mermaid\nB\n```");
}

#[test]
fn a_unit_on_its_own_yields_only_its_own_blocks() {
    let pre = settings(true);
    let pattern = FencePattern::compile().unwrap();
    let nested = DocumentUnit::new(path(&["n.md"]), "```mermaid\nN\n```".to_string(), Vec::new());
    let unit = DocumentUnit::new(path(&["u.md"]), "```mermaid\nU\n```".to_string(), vec![nested]);
    let own = pre.collect_edits_from_chapter(&pattern, &unit, &vec![4]).unwrap();
    assert_eq!(own.len(), 1);
    assert_eq!(own[0].source, "U");
    assert_eq!(own[0].unit, vec![4]);
    let all = pre.collect_edits_from_book_item_recursively(&pattern, &unit, &vec![4]).unwrap();
    assert_eq!(all.len(), 2);
    assert_eq!(all[0].unit, vec![4]);
    assert_eq!(all[1].source, "N");
    assert_eq!(all[1].unit, vec![4, 0]);
}

#[test]
fn an_empty_document_has_no_requests() {
    let pre = settings(true);
    let pattern = FencePattern::compile().unwrap();
    assert_eq!(pre.collect_requests(&pattern, &Vec::new()).unwrap().len(), 0);
}

#[test]
fn with_the_cache_enabled_the_cache_is_probed_first() {
    let pre = settings(true);
    let (state, action) = pre.collect_step(&sample_request(), CollectState::Start, CollectEvent::Begin);
    assert_eq!(state, CollectState::Probing);
    assert!(matches!(action, CollectAction::ProbeCache));
}

#[test]
fn with_the_cache_disabled_the_renderer_runs_at_once() {
    let pre = settings(false);
    let (state, action) = pre.collect_step(&sample_request(), CollectState::Start, CollectEvent::Begin);
    assert_eq!(state, CollectState::Rendering);
    assert!(matches!(action, CollectAction::Render));
}

#[test]
fn a_cache_hit_emits_the_image_edit() {
    let pre = settings(true);
    let (state, action) =
        pre.collect_step(&sample_request(), CollectState::Probing, CollectEvent::CacheProbed(true));
    assert_eq!(state, CollectState::Done);
    let edit = emitted(action);
    assert_eq!(edit.unit, vec![2, 0]);
    assert_eq!((edit.start, edit.end), (6, 30));
    assert_eq!(edit.new_text, "![diagram](./../generated/diagrams/abc.svg)");
    assert_eq!(edit.cached_filename, "abc.svg");
}

#[test]
fn a_cache_miss_runs_the_renderer() {
    let pre = settings(true);
    let (state, action) =
        pre.collect_step(&sample_request(), CollectState::Probing, CollectEvent::CacheProbed(false));
    assert_eq!(state, CollectState::Rendering);
    assert!(matches!(action, CollectAction::Render));
}

#[test]
fn a_successful_render_emits_the_image_edit() {
    let pre = settings(false);
    let (state, action) = pre.collect_step(
        &sample_request(),
        CollectState::Rendering,
        CollectEvent::RenderFinished(RenderOutcome::Succeeded),
    );
    assert_eq!(state, CollectState::Done);
    let edit = emitted(action);
    assert_eq!(edit.new_text, "![diagram](./../generated/diagrams/abc.svg)");
    assert_eq!(edit.cached_filename, "abc.svg");
    assert_eq!((edit.start, edit.end), (6, 30));
}

#[test]
fn a_failed_render_keeps_the_block_under_a_comment() {
    let pre = settings(true);
    let (state, action) = pre.collect_step(
        &sample_request(),
        CollectState::Rendering,
        CollectEvent::RenderFinished(RenderOutcome::Failed(
            "mmdc failed: exit status: 1\nStderr: boom".to_string(),
        )),
    );
    assert_eq!(state, CollectState::Done);
    let edit = emitted(action);
    assert_eq!(
        edit.new_text,
        "<!-- Error generating diagram: mmdc failed: exit status: 1 -->\n```mermaid\ngraph TD;\n```"
    );
    assert_eq!(edit.cached_filename, "");
    assert_eq!(edit.unit, vec![2, 0]);
    assert_eq!((edit.start, edit.end), (6, 30));
}

#[test]
fn events_out_of_turn_are_ignored() {
    let pre = settings(true);
    let request = sample_request();
    let cases = vec![
        (CollectState::Start, CollectEvent::CacheProbed(true)),
        (CollectState::Start, CollectEvent::RenderFinished(RenderOutcome::Succeeded)),
        (CollectState::Probing, CollectEvent::Begin),
        (CollectState::Probing, CollectEvent::RenderFinished(RenderOutcome::Succeeded)),
        (CollectState::Rendering, CollectEvent::Begin),
        (CollectState::Rendering, CollectEvent::CacheProbed(true)),
        (CollectState::Done, CollectEvent::Begin),
        (CollectState::Done, CollectEvent::CacheProbed(true)),
        (CollectState::Done, CollectEvent::RenderFinished(RenderOutcome::Failed("x".to_string()))),
    ];
    for (state, event) in cases {
        let (next, action) = pre.collect_step(&request, state, event);
        assert_eq!(next, state);
        assert!(matches!(action, CollectAction::Ignore));
    }
}

#[test]
fn headline_is_the_first_line() {
    assert_eq!(error_headline("one\ntwo\nthree"), "one");
    assert_eq!(error_headline("one\r\ntwo"), "one");
    assert_eq!(error_headline("single"), "single");
    assert_eq!(error_headline("trailing\r"), "trailing\r");
    assert_eq!(error_headline("\nsecond"), "");
    assert_eq!(error_headline("\r\nsecond"), "");
    assert_eq!(error_headline("a\rb\nc"), "a\rb");
    assert_eq!(error_headline("é日\nx"), "é日");
    assert_eq!(error_headline(""), "Unknown error");
}

#[test]
fn headline_agrees_with_the_first_of_lines() {
    let messages = ["one\ntwo", "a\r\nb", "x\r", "\n", "\r\n", "\r", "plain", "a\r\r\nb", "é\n"];
    for message in messages {
        assert_eq!(error_headline(message), message.lines().next().unwrap_or("Unknown error"));
    }
}

#[test]
fn diagnostic_comment_precedes_the_block() {
    assert_eq!(
        diagnostic_comment("No such file or directory (os error 2)", "```mermaid\nA\n```"),
        "<!-- Error generating diagram: No such file or directory (os error 2) -->\n```mermaid\nA\n```"
    );
    assert_eq!(
        diagnostic_comment("", "```mermaid\nA\n```"),
        "<!-- Error generating diagram: Unknown error -->\n```mermaid\nA\n```"
    );
}

#[test]
fn exit_failure_message_names_status_and_stderr() {
    assert_eq!(
        exit_failure_message("exit status: 1", "Parse error on line 2"),
        "mmdc failed: exit status: 1\nStderr: Parse error on line 2"
    );
}

#[test]
fn render_command_reads_standard_input() {
    let pre = settings(true);
    let command = pre.render_command("/book/src/generated/diagrams/abc.svg", false);
    assert_eq!(command.program, "mmdc");
    assert_eq!(command.args, path(&["-i", "-", "-o", "/book/src/generated/diagrams/abc.svg"]));
}

#[test]
fn render_command_can_go_through_the_shell() {
    let pre = DiagramsPreprocessor::with_settings(
        RenderMode::PreRender,
        "npx mmdc".to_string(),
        OutputFormat::Svg,
        true,
    );
    let command = pre.render_command("out.svg", true);
    assert_eq!(command.program, "powershell");
    assert_eq!(
        command.args,
        path(&["-NoProfile", "-Command", "npx mmdc", "-i", "-", "-o", "out.svg"])
    );
    let direct = pre.render_command("out.svg", false);
    assert_eq!(direct.program, "npx mmdc");
}
