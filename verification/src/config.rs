//! The resolved settings of a run.

use crate::text::same_text;
use toml::value::Table;
use vstd::prelude::*;
use vstd::string::*;

verus! {

/// `toml::map::Map`, the type of a settings table. Nothing inside it is
/// visible here.
#[verifier::external_type_specification]
#[verifier::external_body]
#[verifier::reject_recursive_types(K)]
#[verifier::reject_recursive_types(V)]
pub struct ExTomlMap<K, V>(toml::map::Map<K, V>);

/// `toml::Value`, the type of the values of a settings table. Nothing inside
/// it is visible here.
#[verifier::external_type_specification]
#[verifier::external_body]
pub struct ExTomlValue(toml::Value);

/// The entries of a table whose value is a TOML string, by key.
pub uninterp spec fn table_strings(table: Table) -> Map<Seq<char>, Seq<char>>;

/// The entries of a table whose value is a TOML boolean, by key.
pub uninterp spec fn table_bools(table: Table) -> Map<Seq<char>, bool>;

/// Calls `toml::map::Map::get` and, on the value found, `toml::Value::as_str`.
///
/// Trusted: the result is the string stored under `key`, and `None` where the
/// table has no such key or holds a value of another kind under it.
#[verifier::external_body]
fn table_get_str(table: &Table, key: &str) -> (found: Option<String>)
    ensures
        found is Some <==> table_strings(*table).contains_key(key@),
        found matches Some(s) ==> s@ == table_strings(*table)[key@],
{
    table.get(key).and_then(|value| value.as_str()).map(|s| s.to_string())
}

/// Calls `toml::map::Map::get` and, on the value found, `toml::Value::as_bool`.
///
/// Trusted: the result is the boolean stored under `key`, and `None` where
/// the table has no such key or holds a value of another kind under it.
#[verifier::external_body]
fn table_get_bool(table: &Table, key: &str) -> (found: Option<bool>)
    ensures
        found is Some <==> table_bools(*table).contains_key(key@),
        found matches Some(b) ==> b == table_bools(*table)[key@],
{
    table.get(key).and_then(|value| value.as_bool())
}

/// When diagrams are rendered.
#[derive(Clone, Copy, Debug, PartialEq, Eq, Structural)]
pub enum RenderMode {
    /// Diagrams are rendered while the document is built.
    PreRender,
    /// Diagram sources are embedded and rendered by the reader's browser.
    Runtime,
}

/// The format of a rendered artifact.
#[derive(Clone, Copy, Debug, PartialEq, Eq, Structural)]
pub enum OutputFormat {
    Svg,
    Png,
}

/// The file extension of a format, which is also its name in the settings.
pub open spec fn format_text(format: OutputFormat) -> Seq<char> {
    match format {
        OutputFormat::Svg => "svg"@,
        OutputFormat::Png => "png"@,
    }
}

impl OutputFormat {
    /// The file extension of the format.
    pub fn extension(&self) -> (text: &'static str)
        ensures
            text@ == format_text(*self),
    {
        match self {
            OutputFormat::Svg => "svg",
            OutputFormat::Png => "png",
        }
    }
}

/// The string stored under `key` in the settings table, if there is a table
/// and it holds one.
pub open spec fn string_setting(config: Option<Table>, key: Seq<char>) -> Option<Seq<char>> {
    match config {
        Some(table) => if table_strings(table).contains_key(key) {
            Some(table_strings(table)[key])
        } else {
            None
        },
        None => None,
    }
}

/// The boolean stored under `key` in the settings table, if there is a table
/// and it holds one.
pub open spec fn bool_setting(config: Option<Table>, key: Seq<char>) -> Option<bool> {
    match config {
        Some(table) => if table_bools(table).contains_key(key) {
            Some(table_bools(table)[key])
        } else {
            None
        },
        None => None,
    }
}

/// The render mode for a `render-mode` setting: `runtime` selects runtime
/// rendering, everything else and no setting select pre-rendering.
pub open spec fn resolved_render_mode(setting: Option<Seq<char>>) -> RenderMode {
    match setting {
        Some(text) => if text == "runtime"@ {
            RenderMode::Runtime
        } else {
            RenderMode::PreRender
        },
        None => RenderMode::PreRender,
    }
}

/// The renderer command for an `mmdc-cmd` setting: the setting, or `mmdc`.
pub open spec fn resolved_command(setting: Option<Seq<char>>) -> Seq<char> {
    match setting {
        Some(text) => text,
        None => "mmdc"@,
    }
}

/// The output format for an `output-format` setting: `png` selects PNG,
/// everything else and no setting select SVG.
pub open spec fn resolved_format(setting: Option<Seq<char>>) -> OutputFormat {
    match setting {
        Some(text) => if text == "png"@ {
            OutputFormat::Png
        } else {
            OutputFormat::Svg
        },
        None => OutputFormat::Svg,
    }
}

/// Whether the cache is used for an `enable-cache` setting: the setting, or
/// `true`.
pub open spec fn resolved_cache(setting: Option<bool>) -> bool {
    match setting {
        Some(enabled) => enabled,
        None => true,
    }
}

/// A `render-mode` setting that names no mode.
pub open spec fn is_unknown_mode(setting: Option<Seq<char>>) -> bool {
    setting matches Some(text) && text != "runtime"@ && text != "pre-render"@
}

/// An `output-format` setting that names no format.
pub open spec fn is_unknown_format(setting: Option<Seq<char>>) -> bool {
    setting matches Some(text) && text != "svg"@ && text != "png"@
}

/// The settings as the contracts see them.
pub struct SettingsView {
    pub render_mode: RenderMode,
    pub mmdc_cmd: Seq<char>,
    pub output_format: OutputFormat,
    pub enable_cache: bool,
}

/// The settings that the four optional values resolve to.
pub open spec fn resolved_values(
    render_mode: Option<Seq<char>>,
    mmdc_cmd: Option<Seq<char>>,
    output_format: Option<Seq<char>>,
    enable_cache: Option<bool>,
) -> SettingsView {
    SettingsView {
        render_mode: resolved_render_mode(render_mode),
        mmdc_cmd: resolved_command(mmdc_cmd),
        output_format: resolved_format(output_format),
        enable_cache: resolved_cache(enable_cache),
    }
}

/// The settings that a settings table resolves to.
pub open spec fn resolved_settings(config: Option<Table>) -> SettingsView {
    resolved_values(
        string_setting(config, "render-mode"@),
        string_setting(config, "mmdc-cmd"@),
        string_setting(config, "output-format"@),
        bool_setting(config, "enable-cache"@),
    )
}

/// The warnings that a settings table calls for.
pub open spec fn settings_warnings(config: Option<Table>) -> Seq<Seq<char>> {
    value_warnings(
        string_setting(config, "render-mode"@),
        string_setting(config, "output-format"@),
    )
}

/// The warnings that a render mode and an output format call for: two lines
/// for an unknown render mode, then two lines for an unknown output format.
pub open spec fn value_warnings(mode: Option<Seq<char>>, format: Option<Seq<char>>) -> Seq<
    Seq<char>,
> {
    let mode_lines = if is_unknown_mode(mode) {
        seq![
            "Invalid render-mode: "@ + mode->0 + ", falling back to pre-render"@,
            "Available modes: runtime, pre-render"@,
        ]
    } else {
        Seq::empty()
    };
    let format_lines = if is_unknown_format(format) {
        seq![
            "Invalid output-format: "@ + format->0 + ", falling back to svg"@,
            "Available formats: svg, png"@,
        ]
    } else {
        Seq::empty()
    };
    mode_lines + format_lines
}

/// The preprocessor: the settings of one run, fully resolved.
pub struct DiagramsPreprocessor {
    render_mode: RenderMode,
    mmdc_cmd: String,
    output_format: OutputFormat,
    enable_cache: bool,
}

impl View for DiagramsPreprocessor {
    type V = SettingsView;

    closed spec fn view(&self) -> SettingsView {
        SettingsView {
            render_mode: self.render_mode,
            mmdc_cmd: self.mmdc_cmd@,
            output_format: self.output_format,
            enable_cache: self.enable_cache,
        }
    }
}

/// A text that may be missing, by its view.
pub open spec fn text_of(value: Option<String>) -> Option<Seq<char>> {
    match value {
        Some(text) => Some(text@),
        None => None,
    }
}

fn lookup_str(config: &Option<Table>, key: &str) -> (found: Option<String>)
    ensures
        text_of(found) == string_setting(*config, key@),
{
    match config {
        Some(table) => table_get_str(table, key),
        None => None,
    }
}

fn lookup_bool(config: &Option<Table>, key: &str) -> (found: Option<bool>)
    ensures
        found == bool_setting(*config, key@),
{
    match config {
        Some(table) => table_get_bool(table, key),
        None => None,
    }
}

impl DiagramsPreprocessor {
    /// Resolves the settings table of the host: unknown or missing values
    /// fall back to pre-rendering, the command `mmdc`, SVG output and an
    /// enabled cache.
    pub fn new(config: Option<Table>) -> (preprocessor: DiagramsPreprocessor)
        ensures
            preprocessor@ == resolved_settings(config),
    {
        DiagramsPreprocessor::resolve(
            lookup_str(&config, "render-mode"),
            lookup_str(&config, "mmdc-cmd"),
            lookup_str(&config, "output-format"),
            lookup_bool(&config, "enable-cache"),
        )
    }

    /// Resolves the four settings, each given or missing: `runtime` selects
    /// runtime rendering and every other render mode pre-rendering; the
    /// command defaults to `mmdc`; `png` selects PNG output and every other
    /// format SVG; the cache is enabled unless it is switched off.
    pub fn resolve(
        render_mode: Option<String>,
        mmdc_cmd: Option<String>,
        output_format: Option<String>,
        enable_cache: Option<bool>,
    ) -> (preprocessor: DiagramsPreprocessor)
        ensures
            preprocessor@ == resolved_values(
                text_of(render_mode),
                text_of(mmdc_cmd),
                text_of(output_format),
                enable_cache,
            ),
    {
        let render_mode = match render_mode {
            Some(text) => if same_text(text.as_str(), "runtime") {
                RenderMode::Runtime
            } else {
                RenderMode::PreRender
            },
            None => RenderMode::PreRender,
        };
        let mmdc_cmd = match mmdc_cmd {
            Some(text) => text,
            None => "mmdc".to_owned(),
        };
        let output_format = match output_format {
            Some(text) => if same_text(text.as_str(), "png") {
                OutputFormat::Png
            } else {
                OutputFormat::Svg
            },
            None => OutputFormat::Svg,
        };
        let enable_cache = match enable_cache {
            Some(enabled) => enabled,
            None => true,
        };
        DiagramsPreprocessor { render_mode, mmdc_cmd, output_format, enable_cache }
    }

    /// The preprocessor with exactly the given settings.
    pub fn with_settings(
        render_mode: RenderMode,
        mmdc_cmd: String,
        output_format: OutputFormat,
        enable_cache: bool,
    ) -> (preprocessor: DiagramsPreprocessor)
        ensures
            preprocessor@ == (SettingsView {
                render_mode,
                mmdc_cmd: mmdc_cmd@,
                output_format,
                enable_cache,
            }),
    {
        DiagramsPreprocessor { render_mode, mmdc_cmd, output_format, enable_cache }
    }

    /// The lines to warn the user with about settings that `new` replaces by
    /// a default.
    pub fn warnings(config: &Option<Table>) -> (lines: Vec<String>)
        ensures
            lines.deep_view() == settings_warnings(*config),
    {
        DiagramsPreprocessor::warnings_for(
            &lookup_str(config, "render-mode"),
            &lookup_str(config, "output-format"),
        )
    }

    /// The lines to warn the user with about a render mode and an output
    /// format that `resolve` replaces by a default.
    pub fn warnings_for(render_mode: &Option<String>, output_format: &Option<String>) -> (lines:
        Vec<String>)
        ensures
            lines.deep_view() == value_warnings(text_of(*render_mode), text_of(*output_format)),
    {
        let mut lines: Vec<String> = Vec::new();
        match render_mode {
            Some(text) => {
                if !same_text(text.as_str(), "runtime") && !same_text(text.as_str(), "pre-render") {
                    let mut line = "Invalid render-mode: ".to_owned();
                    line.append(text.as_str());
                    line.append(", falling back to pre-render");
                    lines.push(line);
                    lines.push("Available modes: runtime, pre-render".to_owned());
                }
            },
            None => {},
        }
        match output_format {
            Some(text) => {
                if !same_text(text.as_str(), "svg") && !same_text(text.as_str(), "png") {
                    let mut line = "Invalid output-format: ".to_owned();
                    line.append(text.as_str());
                    line.append(", falling back to svg");
                    lines.push(line);
                    lines.push("Available formats: svg, png".to_owned());
                }
            },
            None => {},
        }
        assert(lines.deep_view() =~= value_warnings(
            text_of(*render_mode),
            text_of(*output_format),
        ));
        lines
    }

    /// When diagrams are rendered.
    pub fn render_mode(&self) -> (mode: RenderMode)
        ensures
            mode == self@.render_mode,
    {
        self.render_mode
    }

    /// The command that runs the renderer.
    pub fn mmdc_cmd(&self) -> (command: &str)
        ensures
            command@ == self@.mmdc_cmd,
    {
        self.mmdc_cmd.as_str()
    }

    /// The format of the rendered artifacts.
    pub fn output_format(&self) -> (format: OutputFormat)
        ensures
            format == self@.output_format,
    {
        self.output_format
    }

    /// Whether rendered artifacts are reused between runs.
    pub fn enable_cache(&self) -> (enabled: bool)
        ensures
            enabled == self@.enable_cache,
    {
        self.enable_cache
    }
}

} // verus!
