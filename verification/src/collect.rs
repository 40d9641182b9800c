//! Resolving one request: cache probe, render, pending edit.
//!
//! The caller probes the cache and runs the renderer; `collect_step` decides
//! what is to be done next and, at the end, which edit the block gets.

use crate::config::DiagramsPreprocessor;
use crate::config::SettingsView;
use crate::model::clone_place;
use crate::model::path_view;
use crate::model::place_view;
use crate::request::RenderRequest;
use crate::request::RequestView;
use vstd::prelude::*;
use vstd::string::*;

verus! {

/// How to replace one diagram block: the place of the unit that owns the
/// block, the byte range to replace in the unit's text, the replacement, and
/// the name of the cache artifact that the replacement refers to (empty if it
/// refers to none).
pub struct PendingEdit {
    pub unit: Vec<usize>,
    pub start: usize,
    pub end: usize,
    pub new_text: String,
    pub cached_filename: String,
}

/// An edit as the contracts see it.
pub struct EditView {
    pub unit: Seq<int>,
    pub start: int,
    pub end: int,
    pub new_text: Seq<char>,
    pub cached_filename: Seq<char>,
}

impl View for PendingEdit {
    type V = EditView;

    open spec fn view(&self) -> EditView {
        EditView {
            unit: place_view(self.unit@),
            start: self.start as int,
            end: self.end as int,
            new_text: self.new_text@,
            cached_filename: self.cached_filename@,
        }
    }
}

/// How a run of the renderer ended: with the artifact written, or with the
/// message of the error that stopped it.
pub enum RenderOutcome {
    Succeeded,
    Failed(String),
}

/// Where the resolution of a request stands.
#[derive(Clone, Copy, Debug, PartialEq, Eq, Structural)]
pub enum CollectState {
    /// Nothing has been done yet.
    Start,
    /// The caller has been asked whether the artifact is in the cache.
    Probing,
    /// The caller has been asked to run the renderer.
    Rendering,
    /// The edit has been handed out.
    Done,
}

/// What the caller reports.
pub enum CollectEvent {
    /// The resolution of the request begins.
    Begin,
    /// The cache was probed; `true` if the artifact file exists.
    CacheProbed(bool),
    /// The renderer has run.
    RenderFinished(RenderOutcome),
}

/// What the caller is to do next.
pub enum CollectAction {
    /// Look for the request's artifact file and report `CacheProbed`.
    ProbeCache,
    /// Run the renderer on the request's source and report `RenderFinished`.
    Render,
    /// Keep this edit: the request is resolved.
    Emit(PendingEdit),
    /// The event does not belong to the state: nothing changes.
    Ignore,
}

/// An action as the contracts see it.
pub enum ActionView {
    ProbeCache,
    Render,
    Emit(EditView),
    Ignore,
}

impl View for CollectAction {
    type V = ActionView;

    open spec fn view(&self) -> ActionView {
        match self {
            CollectAction::ProbeCache => ActionView::ProbeCache,
            CollectAction::Render => ActionView::Render,
            CollectAction::Emit(edit) => ActionView::Emit(edit@),
            CollectAction::Ignore => ActionView::Ignore,
        }
    }
}

/// The markup that shows the artifact at `relative_path`.
pub open spec fn image_tag(relative_path: Seq<char>) -> Seq<char> {
    "![diagram](./"@ + relative_path + ")"@
}

/// The place of the first line feed in `text`, or its length if it has none.
pub open spec fn line_feed_index(text: Seq<char>) -> int
    decreases text.len(),
{
    if text.len() == 0 || text[0] == '\n' {
        0
    } else {
        1 + line_feed_index(text.drop_first())
    }
}

/// The first line of a text: what precedes the first line feed, without the
/// carriage return that may stand before that line feed; the whole text if
/// it has no line feed.
pub open spec fn first_line(text: Seq<char>) -> Seq<char> {
    let n = line_feed_index(text);
    if 0 < n < text.len() && text[n - 1] == '\r' {
        text.subrange(0, n - 1)
    } else {
        text.subrange(0, n)
    }
}

/// What a diagnostic shows of an error message: its first line, or
/// `Unknown error` for an empty message.
pub open spec fn headline(message: Seq<char>) -> Seq<char> {
    if message.len() == 0 {
        "Unknown error"@
    } else {
        first_line(message)
    }
}

/// The replacement for a block that could not be rendered: a comment with
/// the headline of the error, a line feed, and the block as the author wrote
/// it.
pub open spec fn diagnostic(message: Seq<char>, block_text: Seq<char>) -> Seq<char> {
    "<!-- Error generating diagram: "@ + headline(message) + " -->\n"@ + block_text
}

/// The message for a renderer that exited with a failure status.
pub open spec fn exit_failure(status: Seq<char>, stderr: Seq<char>) -> Seq<char> {
    "mmdc failed: "@ + status + "\nStderr: "@ + stderr
}

/// The edit for a block whose artifact is there, from the cache or freshly
/// rendered: the block becomes an image, and the artifact counts as used.
pub open spec fn rendered_edit(request: RequestView) -> EditView {
    EditView {
        unit: request.unit,
        start: request.start,
        end: request.end,
        new_text: image_tag(request.relative_path),
        cached_filename: request.output_filename,
    }
}

/// The edit for a block that could not be rendered: the block is kept under
/// a diagnostic comment, and no artifact counts as used.
pub open spec fn failed_edit(request: RequestView, message: Seq<char>) -> EditView {
    EditView {
        unit: request.unit,
        start: request.start,
        end: request.end,
        new_text: diagnostic(message, request.block_text),
        cached_filename: Seq::empty(),
    }
}

/// The next state and the action for an event in a state.
///
/// From `Start`, `Begin` leads to a probe of the cache if the cache is
/// enabled and to a render otherwise. A probe that found the artifact ends
/// the resolution with the image edit; one that did not leads to a render.
/// A finished render ends the resolution, with the image edit on success and
/// the diagnostic edit on failure. Every other event is ignored.
pub open spec fn transition(
    settings: SettingsView,
    request: RequestView,
    state: CollectState,
    event: CollectEvent,
) -> (CollectState, ActionView) {
    match (state, event) {
        (CollectState::Start, CollectEvent::Begin) => if settings.enable_cache {
            (CollectState::Probing, ActionView::ProbeCache)
        } else {
            (CollectState::Rendering, ActionView::Render)
        },
        (CollectState::Probing, CollectEvent::CacheProbed(found)) => if found {
            (CollectState::Done, ActionView::Emit(rendered_edit(request)))
        } else {
            (CollectState::Rendering, ActionView::Render)
        },
        (CollectState::Rendering, CollectEvent::RenderFinished(outcome)) => match outcome {
            RenderOutcome::Succeeded => (
                CollectState::Done,
                ActionView::Emit(rendered_edit(request)),
            ),
            RenderOutcome::Failed(message) => (
                CollectState::Done,
                ActionView::Emit(failed_edit(request, message@)),
            ),
        },
        _ => (state, ActionView::Ignore),
    }
}

/// The command line of the renderer.
pub struct RenderCommand {
    pub program: String,
    pub args: Vec<String>,
}

/// The arguments that make the renderer read the diagram from standard input
/// and write the artifact to `output_path`.
pub open spec fn renderer_args(output_path: Seq<char>) -> Seq<Seq<char>> {
    seq!["-i"@, "-"@, "-o"@, output_path]
}

/// The program to start: the renderer command itself, or the command shell
/// where the renderer is run through one.
pub open spec fn command_program(settings: SettingsView, through_shell: bool) -> Seq<char> {
    if through_shell {
        "powershell"@
    } else {
        settings.mmdc_cmd
    }
}

/// The arguments of the program: those of the renderer, preceded by the
/// shell's own and the renderer command where a shell is used.
pub open spec fn command_args(
    settings: SettingsView,
    output_path: Seq<char>,
    through_shell: bool,
) -> Seq<Seq<char>> {
    if through_shell {
        seq!["-NoProfile"@, "-Command"@, settings.mmdc_cmd] + renderer_args(output_path)
    } else {
        renderer_args(output_path)
    }
}

/// The markup that shows the artifact at `relative_path`.
pub fn image_markup(relative_path: &str) -> (tag: String)
    ensures
        tag@ == image_tag(relative_path@),
{
    let mut tag = "![diagram](./".to_owned();
    tag.append(relative_path);
    tag.append(")");
    tag
}

proof fn lemma_line_feed_index(text: Seq<char>, n: int)
    requires
        0 <= n <= text.len(),
        forall|k: int| 0 <= k < n ==> text[k] != '\n',
        n < text.len() ==> text[n] == '\n',
    ensures
        line_feed_index(text) == n,
    decreases n,
{
    if n > 0 {
        let rest = text.drop_first();
        assert forall|k: int| 0 <= k < n - 1 implies rest[k] != '\n' by {
            assert(rest[k] == text[k + 1]);
        }
        lemma_line_feed_index(rest, n - 1);
    }
}

/// The first line of `message`, or `Unknown error` for an empty message.
pub fn error_headline(message: &str) -> (line: String)
    ensures
        line@ == headline(message@),
{
    let length = message.unicode_len();
    if length == 0 {
        return "Unknown error".to_owned();
    }
    let mut n: usize = 0;
    while n < length && message.get_char(n) != '\n'
        invariant
            n <= length,
            length == message@.len(),
            forall|k: int| 0 <= k < n ==> message@[k] != '\n',
        decreases length - n,
    {
        n += 1;
    }
    proof {
        lemma_line_feed_index(message@, n as int);
    }
    if 0 < n && n < length && message.get_char(n - 1) == '\r' {
        message.substring_char(0, n - 1).to_owned()
    } else {
        message.substring_char(0, n).to_owned()
    }
}

/// The replacement for a block that could not be rendered.
pub fn diagnostic_comment(message: &str, block_text: &str) -> (comment: String)
    ensures
        comment@ == diagnostic(message@, block_text@),
{
    let mut comment = "<!-- Error generating diagram: ".to_owned();
    let line = error_headline(message);
    comment.append(line.as_str());
    comment.append(" -->\n");
    comment.append(block_text);
    comment
}

/// The message for a renderer that exited with the failure status `status`
/// after writing `stderr` to its standard error.
pub fn exit_failure_message(status: &str, stderr: &str) -> (message: String)
    ensures
        message@ == exit_failure(status@, stderr@),
{
    let mut message = "mmdc failed: ".to_owned();
    message.append(status);
    message.append("\nStderr: ");
    message.append(stderr);
    message
}

impl RenderRequest {
    /// The edit for this block once its artifact is there.
    pub fn rendered(&self) -> (edit: PendingEdit)
        ensures
            edit@ == rendered_edit(self@),
    {
        PendingEdit {
            unit: clone_place(&self.unit),
            start: self.start,
            end: self.end,
            new_text: image_markup(self.relative_path.as_str()),
            cached_filename: self.output_filename.clone(),
        }
    }

    /// The edit for this block after the renderer failed with `message`.
    pub fn failed(&self, message: &str) -> (edit: PendingEdit)
        ensures
            edit@ == failed_edit(self@, message@),
    {
        PendingEdit {
            unit: clone_place(&self.unit),
            start: self.start,
            end: self.end,
            new_text: diagnostic_comment(message, self.block_text.as_str()),
            cached_filename: String::new(),
        }
    }
}

impl DiagramsPreprocessor {
    /// One step in the resolution of `request`: takes the state and what the
    /// caller reports, and returns the next state and what the caller is to
    /// do.
    pub fn collect_step(&self, request: &RenderRequest, state: CollectState, event: CollectEvent) -> (next:
        (CollectState, CollectAction))
        ensures
            (next.0, next.1@) == transition(self@, request@, state, event),
    {
        match (state, event) {
            (CollectState::Start, CollectEvent::Begin) => {
                if self.enable_cache() {
                    (CollectState::Probing, CollectAction::ProbeCache)
                } else {
                    (CollectState::Rendering, CollectAction::Render)
                }
            },
            (CollectState::Probing, CollectEvent::CacheProbed(found)) => {
                if found {
                    (CollectState::Done, CollectAction::Emit(request.rendered()))
                } else {
                    (CollectState::Rendering, CollectAction::Render)
                }
            },
            (CollectState::Rendering, CollectEvent::RenderFinished(outcome)) => {
                match outcome {
                    RenderOutcome::Succeeded => (
                        CollectState::Done,
                        CollectAction::Emit(request.rendered()),
                    ),
                    RenderOutcome::Failed(message) => (
                        CollectState::Done,
                        CollectAction::Emit(request.failed(message.as_str())),
                    ),
                }
            },
            _ => (state, CollectAction::Ignore),
        }
    }

    /// The command line that renders a diagram into the file `output_path`.
    /// The renderer is started directly, or through the command shell where
    /// `through_shell` is set.
    pub fn render_command(&self, output_path: &str, through_shell: bool) -> (command: RenderCommand)
        ensures
            command.program@ == command_program(self@, through_shell),
            path_view(command.args@) == command_args(self@, output_path@, through_shell),
    {
        let mut args: Vec<String> = Vec::new();
        let program = if through_shell {
            args.push("-NoProfile".to_owned());
            args.push("-Command".to_owned());
            args.push(self.mmdc_cmd().to_owned());
            "powershell".to_owned()
        } else {
            self.mmdc_cmd().to_owned()
        };
        args.push("-i".to_owned());
        args.push("-".to_owned());
        args.push("-o".to_owned());
        args.push(output_path.to_owned());
        assert(path_view(args@) =~= command_args(self@, output_path@, through_shell));
        RenderCommand { program, args }
    }
}

/// A cache hit never starts the renderer: with the cache enabled, a
/// resolution begins with a probe, and a probe that found the artifact ends
/// it at once with the image edit that names the artifact.
pub proof fn cache_hit_avoids_renderer(settings: SettingsView, request: RequestView)
    requires
        settings.enable_cache,
    ensures
        transition(settings, request, CollectState::Start, CollectEvent::Begin) == (
            CollectState::Probing,
            ActionView::ProbeCache,
        ),
        transition(settings, request, CollectState::Probing, CollectEvent::CacheProbed(true)) == (
            CollectState::Done,
            ActionView::Emit(rendered_edit(request)),
        ),
{
}

/// The renderer is started only where the cache is switched off or was
/// probed without success.
pub proof fn render_only_without_artifact(
    settings: SettingsView,
    request: RequestView,
    state: CollectState,
    event: CollectEvent,
)
    requires
        transition(settings, request, state, event).1 == ActionView::Render,
    ensures
        (state == CollectState::Start && event == CollectEvent::Begin && !settings.enable_cache) || (
        state == CollectState::Probing && event == CollectEvent::CacheProbed(false)),
{
}

/// A resolution hands out exactly one edit: an edit is emitted exactly on the
/// step that reaches `Done`, and from `Done` every event is ignored.
pub proof fn one_edit_per_request(
    settings: SettingsView,
    request: RequestView,
    state: CollectState,
    event: CollectEvent,
)
    ensures
        state != CollectState::Done ==> (transition(settings, request, state, event).1 is Emit
            <==> transition(settings, request, state, event).0 == CollectState::Done),
        state == CollectState::Done ==> transition(settings, request, state, event) == (
            CollectState::Done,
            ActionView::Ignore,
        ),
        transition(settings, request, state, event).1 matches ActionView::Emit(edit) ==> {
            &&& edit.unit == request.unit
            &&& edit.start == request.start
            &&& edit.end == request.end
        },
{
}

} // verus!
