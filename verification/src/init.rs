//! Setting up the memory system: the steps that `init` takes in order, what
//! each prints, which existing files it keeps, and how the `SessionEnd` hook
//! is merged into the settings file.
use vstd::prelude::*;
use crate::json::{
    add_hook_entry, has_hook_command, hook_has_command, hook_insertable, json_view, lemma_added_hook_is_found,
    lemma_add_hook_keeps_commands, lemma_json_view_containers, members_view, parse_json, parsed_json, pretty_json,
    render_pretty, with_hook_entry, Json, JsonMember, JsonValue,
};
use crate::paths::{possible_home, base_dir, base_dir_spec, join_path, joined, result_view};
use crate::names::Names;
use crate::text::str_eq;

verus! {

/// Contents of a new `ARCHIVE.md`.
pub const ARCHIVE_TEMPLATE: &'static str = "# Conversation Archive\n\n| # | Date | Session | Topics | Messages | Duration |\n|---|------|---------|--------|----------|----------|\n";

/// The hook event used for archiving.
pub const SESSION_END: &'static str = "SessionEnd";

/// Terminal escape: bold.
pub const BOLD: &'static str = "\x1b[1m";

// ---------------------------------------------------------------------------
// Texts that name the tool and its host
// ---------------------------------------------------------------------------

/// Contents of a new `MEMORY.md` for tool `tool`.
pub open spec fn memory_template_text(tool: Seq<char>) -> Seq<char> {
    "# Memory\n\n<!-- "@ + tool
        + ": Curated memory. Distilled facts, preferences, patterns. -->\n<!-- Keep under 200 lines. Only write confirmed, stable information. -->\n"@
}

/// Contents of a new `MEMORY.md`.
pub fn memory_template(tool: &str) -> (r: String)
    ensures
        r@ == memory_template_text(tool@),
{
    let mut r = String::from_str("# Memory\n\n<!-- ");
    r.append(tool);
    r.append(
        ": Curated memory. Distilled facts, preferences, patterns. -->\n<!-- Keep under 200 lines. Only write confirmed, stable information. -->\n",
    );
    r
}

/// The command that the `SessionEnd` hook runs: the tool's `archive-session`.
pub open spec fn archive_command_text(tool: Seq<char>) -> Seq<char> {
    tool + " archive-session"@
}

/// The command that the `SessionEnd` hook runs.
pub fn archive_command(tool: &str) -> (r: String)
    ensures
        r@ == archive_command_text(tool@),
{
    let mut r = String::from_str(tool);
    r.append(" archive-session");
    r
}

/// The name of the protocol file under `rules/`.
pub open spec fn protocol_file_text(tool: Seq<char>) -> Seq<char> {
    tool + ".md"@
}

/// Error when the base directory does not exist.
pub open spec fn missing_base_text(host_dir: Seq<char>, product: Seq<char>) -> Seq<char> {
    "~/"@ + host_dir + " directory not found. Is "@ + product + " installed?\n  Install "@ + product
        + " first, then run this again."@
}

/// Error when the base directory does not exist.
pub fn missing_base_error(host_dir: &str, product: &str) -> (r: String)
    ensures
        r@ == missing_base_text(host_dir@, product@),
{
    let mut r = String::from_str("~/");
    r.append(host_dir);
    r.append(" directory not found. Is ");
    r.append(product);
    r.append(" installed?\n  Install ");
    r.append(product);
    r.append(" first, then run this again.");
    r
}

/// Printed before the set-up steps.
pub open spec fn banner_text(tool: Seq<char>) -> Seq<char> {
    "\n"@ + BOLD@ + tool + RESET@ + " \u{2014} initializing memory system\n"@
}

/// Printed before the set-up steps.
pub fn banner(tool: &str) -> (r: String)
    ensures
        r@ == banner_text(tool@),
{
    let mut r = String::from_str("\n");
    r.append(BOLD);
    r.append(tool);
    r.append(RESET);
    r.append(" \u{2014} initializing memory system\n");
    r
}

/// Printed after the set-up steps.
pub open spec fn summary_text(tool: Seq<char>, host_dir: Seq<char>, product: Seq<char>) -> Seq<char> {
    "\n"@ + BOLD@ + "Setup complete."@ + RESET@
        + " Your memory system is ready.\n\n  Layer 1 (MEMORY.md)     \u{2014} Curated facts, always in context\n  Layer 2 (EPHEMERAL.md)  \u{2014} Rolling window of recent sessions\n  Layer 3 (Archive)       \u{2014} Full conversations in ~/"@
        + host_dir + "/conversations/\n\n  Hook installed:\n    SessionEnd \u{2192} "@ + tool
        + " archive-session\n\n  Start a new "@ + product + " session and your conversations will be remembered.\n"@
}

/// Printed after the set-up steps.
pub fn summary(tool: &str, host_dir: &str, product: &str) -> (r: String)
    ensures
        r@ == summary_text(tool@, host_dir@, product@),
{
    let mut r = String::from_str("\n");
    r.append(BOLD);
    r.append("Setup complete.");
    r.append(RESET);
    r.append(
        " Your memory system is ready.\n\n  Layer 1 (MEMORY.md)     \u{2014} Curated facts, always in context\n  Layer 2 (EPHEMERAL.md)  \u{2014} Rolling window of recent sessions\n  Layer 3 (Archive)       \u{2014} Full conversations in ~/",
    );
    r.append(host_dir);
    r.append("/conversations/\n\n  Hook installed:\n    SessionEnd \u{2192} ");
    r.append(tool);
    r.append(" archive-session\n\n  Start a new ");
    r.append(product);
    r.append(" session and your conversations will be remembered.\n");
    r
}

/// Terminal escape: green.
pub const GREEN: &'static str = "\x1b[32m";
/// Terminal escape: yellow.
pub const YELLOW: &'static str = "\x1b[33m";
/// Terminal escape: red.
pub const RED: &'static str = "\x1b[31m";
/// Terminal escape: reset all attributes.
pub const RESET: &'static str = "\x1b[0m";

// ---------------------------------------------------------------------------
// Status lines
// ---------------------------------------------------------------------------

/// The outcome a status line reports.
pub enum Status {
    Created,
    Exists,
    Error,
}

/// The colored mark that starts a status line.
pub open spec fn status_mark(status: Status) -> Seq<char> {
    match status {
        Status::Created => GREEN@ + "\u{2713}"@,
        Status::Exists => YELLOW@ + "~"@,
        Status::Error => RED@ + "\u{2717}"@,
    }
}

/// A status line: indented colored mark, then the message.
pub open spec fn status_text(status: Status, msg: Seq<char>) -> Seq<char> {
    "  "@ + status_mark(status) + RESET@ + " "@ + msg
}

/// The status line for `msg`.
pub fn status_line(status: Status, msg: &str) -> (r: String)
    ensures
        r@ == status_text(status, msg@),
{
    let mut r = String::from_str("  ");
    match status {
        Status::Created => {
            r.append(GREEN);
            r.append("\u{2713}");
        },
        Status::Exists => {
            r.append(YELLOW);
            r.append("~");
        },
        Status::Error => {
            r.append(RED);
            r.append("\u{2717}");
        },
    }
    r.append(RESET);
    r.append(" ");
    r.append(msg);
    r
}

/// The error status line for a failed action: `prefix: err`.
pub fn error_line(prefix: &str, err: &str) -> (r: String)
    ensures
        r@ == status_text(Status::Error, prefix@ + ": "@ + err@),
{
    let mut m = String::from_str(prefix);
    m.append(": ");
    m.append(err);
    status_line(Status::Error, m.as_str())
}

// ---------------------------------------------------------------------------
// The steps of set-up
// ---------------------------------------------------------------------------

/// One step of set-up.
pub enum InitStep {
    /// Stop with error `missing` unless directory `path` exists.
    CheckBase { path: String, missing: String },
    /// Print `text`.
    Say { text: String },
    /// Create directory `path` where missing; on failure print
    /// `error_line(failure, error)`.
    EnsureDir { path: String, failure: String },
    /// Install the memory protocol file at `path` (see `protocol_decision`).
    WriteProtocol { path: String },
    /// Create file `path` with `content` unless it exists (see
    /// `write_if_missing_decision`).
    WriteIfMissing { path: String, content: String, label: String },
    /// Merge the archiving hook into the settings file at `path` (see
    /// `merge_hooks`).
    MergeHooks { path: String },
}

/// The plain values of a set-up step.
pub enum InitAction {
    CheckBase(Seq<char>, Seq<char>),
    Say(Seq<char>),
    EnsureDir(Seq<char>, Seq<char>),
    WriteProtocol(Seq<char>),
    WriteIfMissing(Seq<char>, Seq<char>, Seq<char>),
    MergeHooks(Seq<char>),
}

impl View for InitStep {
    type V = InitAction;

    open spec fn view(&self) -> InitAction {
        match self {
            InitStep::CheckBase { path, missing } => InitAction::CheckBase(path@, missing@),
            InitStep::Say { text } => InitAction::Say(text@),
            InitStep::EnsureDir { path, failure } => InitAction::EnsureDir(path@, failure@),
            InitStep::WriteProtocol { path } => InitAction::WriteProtocol(path@),
            InitStep::WriteIfMissing { path, content, label } => InitAction::WriteIfMissing(
                path@,
                content@,
                label@,
            ),
            InitStep::MergeHooks { path } => InitAction::MergeHooks(path@),
        }
    }
}

/// Creating a directory that may be missing.
pub open spec fn ensure_dir_action(path: Seq<char>) -> InitAction {
    InitAction::EnsureDir(path, "Failed to create "@ + path)
}

/// The set-up steps under base directory `base`, in order: check that it
/// exists; print the banner; create `rules/`, `memory/` and
/// `conversations/`; install the protocol in `rules/<tool>.md`; create
/// `memory/MEMORY.md`, `EPHEMERAL.md` and `ARCHIVE.md` where missing; merge
/// the hook into `settings.json`; print the summary.
pub open spec fn init_plan(base: Seq<char>, n: Names) -> Seq<InitAction> {
    let rules = joined(base, "rules"@);
    let memory = joined(base, "memory"@);
    seq![
        InitAction::CheckBase(base, missing_base_text(n.host_dir@, n.host_product@)),
        InitAction::Say(banner_text(n.tool@)),
        ensure_dir_action(rules),
        ensure_dir_action(memory),
        ensure_dir_action(joined(base, "conversations"@)),
        InitAction::WriteProtocol(joined(rules, protocol_file_text(n.tool@))),
        InitAction::WriteIfMissing(joined(memory, "MEMORY.md"@), memory_template_text(n.tool@), "MEMORY.md"@),
        InitAction::WriteIfMissing(joined(base, "EPHEMERAL.md"@), ""@, "EPHEMERAL.md"@),
        InitAction::WriteIfMissing(joined(base, "ARCHIVE.md"@), ARCHIVE_TEMPLATE@, "ARCHIVE.md"@),
        InitAction::MergeHooks(joined(base, "settings.json"@)),
        InitAction::Say(summary_text(n.tool@, n.host_dir@, n.host_product@)),
    ]
}

/// The plain values of a list of steps.
pub open spec fn steps_view(steps: Seq<InitStep>) -> Seq<InitAction> {
    steps.map_values(|s: InitStep| s@)
}

/// A step that creates directory `path` where missing.
fn ensure_dir_step(path: String) -> (r: InitStep)
    ensures
        r@ == ensure_dir_action(path@),
{
    let mut failure = String::from_str("Failed to create ");
    failure.append(path.as_str());
    InitStep::EnsureDir { path, failure }
}

/// The set-up steps under base directory `base`.
pub fn run_with_base(base: &str, names: &Names) -> (r: Vec<InitStep>)
    ensures
        steps_view(r@) == init_plan(base@, *names),
{
    let rules = join_path(base, "rules");
    let memory = join_path(base, "memory");
    let conversations = join_path(base, "conversations");
    let mut steps: Vec<InitStep> = Vec::new();
    steps.push(
        InitStep::CheckBase {
            path: String::from_str(base),
            missing: missing_base_error(names.host_dir.as_str(), names.host_product.as_str()),
        },
    );
    steps.push(InitStep::Say { text: banner(names.tool.as_str()) });
    let mut protocol_name = String::from_str(names.tool.as_str());
    protocol_name.append(".md");
    let protocol = join_path(rules.as_str(), protocol_name.as_str());
    let memory_file = join_path(memory.as_str(), "MEMORY.md");
    steps.push(ensure_dir_step(rules));
    steps.push(ensure_dir_step(memory));
    steps.push(ensure_dir_step(conversations));
    steps.push(InitStep::WriteProtocol { path: protocol });
    steps.push(
        InitStep::WriteIfMissing {
            path: memory_file,
            content: memory_template(names.tool.as_str()),
            label: String::from_str("MEMORY.md"),
        },
    );
    steps.push(
        InitStep::WriteIfMissing {
            path: join_path(base, "EPHEMERAL.md"),
            content: String::from_str(""),
            label: String::from_str("EPHEMERAL.md"),
        },
    );
    steps.push(
        InitStep::WriteIfMissing {
            path: join_path(base, "ARCHIVE.md"),
            content: String::from_str(ARCHIVE_TEMPLATE),
            label: String::from_str("ARCHIVE.md"),
        },
    );
    steps.push(InitStep::MergeHooks { path: join_path(base, "settings.json") });
    steps.push(
        InitStep::Say {
            text: summary(names.tool.as_str(), names.host_dir.as_str(), names.host_product.as_str()),
        },
    );
    proof {
        assert(steps_view(steps@) =~= init_plan(base@, *names));
    }
    steps
}

/// The set-up steps for the memory directory chosen by `base_dir` from
/// `env_override` (the tool's override variable) and the host directory;
/// an error where no directory can be chosen.
pub fn run(env_override: Option<String>, names: &Names) -> (r: Result<Vec<InitStep>, String>)
    ensures
        env_override matches Some(p) ==> (r matches Ok(steps) && steps_view(steps@) == init_plan(p@, *names)),
        env_override is None ==> exists|home: Option<Seq<char>>|
            possible_home(home) && match #[trigger] base_dir_spec(None, home, names.host_dir@) {
                Ok(base) => (r matches Ok(steps) && steps_view(steps@) == init_plan(base, *names)),
                Err(e) => (r matches Err(msg) && msg@ == e),
            },
{
    let is_none = env_override.is_none();
    let dir = base_dir(env_override, names.host_dir.as_str());
    let ghost home = choose|home: Option<Seq<char>>|
        possible_home(home) && result_view(dir) == base_dir_spec(None, home, names.host_dir@);
    match dir {
        Ok(base) => {
            let steps = run_with_base(base.as_str(), names);
            proof {
                if is_none {
                    assert(base_dir_spec(None, home, names.host_dir@) == Ok::<Seq<char>, Seq<char>>(base@));
                }
            }
            Ok(steps)
        },
        Err(e) => {
            proof {
                if is_none {
                    assert(base_dir_spec(None, home, names.host_dir@) == Err::<Seq<char>, Seq<char>>(e@));
                }
            }
            Err(e)
        },
    }
}

// ---------------------------------------------------------------------------
// Decisions taken while the steps run
// ---------------------------------------------------------------------------

/// Whether set-up writes a file that is only written when missing.
pub open spec fn file_written(exists: bool) -> bool {
    !exists
}

/// Whether set-up writes the protocol file, given what it holds (`None`:
/// missing): unless it already holds `template`.
pub open spec fn protocol_written(existing: Option<Seq<char>>, template: Seq<char>) -> bool {
    existing != Some(template)
}

/// Whether set-up writes the settings it finds (`None`: no settings file):
/// unless they already hold the archiving hook.
pub open spec fn settings_written(found: Option<Json>, tool: Seq<char>) -> bool {
    match found {
        None => true,
        Some(v) => !has_hook_command(v, SESSION_END@, archive_command_text(tool)),
    }
}

/// The settings that set-up leaves, from those it finds (`None`: no
/// settings file), where its write succeeds.
pub open spec fn merged_settings(found: Option<Json>, tool: Seq<char>) -> Json {
    match found {
        None => with_hook_entry(empty_object(), SESSION_END@, archive_command_text(tool)),
        Some(v) => if has_hook_command(v, SESSION_END@, archive_command_text(tool)) {
            v
        } else {
            with_hook_entry(v, SESSION_END@, archive_command_text(tool))
        },
    }
}

/// What to do with a file that is only written when missing.
pub enum FileDecision {
    /// The file exists and is kept; print `notice`.
    Keep { notice: String },
    /// Write the file; print `success`, or `error_line(failure, error)`.
    Write { success: String, failure: String },
}

/// An existing file is kept and never overwritten; a missing one is written.
pub fn write_if_missing_decision(exists: bool, label: &str) -> (r: FileDecision)
    ensures
        exists ==> (r matches FileDecision::Keep { notice } && notice@ == status_text(
            Status::Exists,
            label@ + " already exists \u{2014} preserved"@,
        )),
        !exists ==> (r matches FileDecision::Write { success, failure } && success@ == status_text(
            Status::Created,
            "Created "@ + label@,
        ) && failure@ == "Failed to create "@ + label@),
        (r is Write) == file_written(exists),
{
    if exists {
        let mut m = String::from_str(label);
        m.append(" already exists \u{2014} preserved");
        FileDecision::Keep { notice: status_line(Status::Exists, m.as_str()) }
    } else {
        let mut m = String::from_str("Created ");
        m.append(label);
        let mut f = String::from_str("Failed to create ");
        f.append(label);
        FileDecision::Write { success: status_line(Status::Created, m.as_str()), failure: f }
    }
}

/// What to do with the protocol file.
pub enum ProtocolDecision {
    /// The installed protocol is current; print `notice` and write nothing.
    UpToDate { notice: String },
    /// Write the protocol; first print `update` if given, then `success`, or
    /// `error_line(failure, error)`.
    Install { update: Option<String>, success: String, failure: String },
}

/// The protocol file `rules/<tool>.md` is left alone when it already holds
/// `template`, and (over)written otherwise. `existing` is `None` when the
/// file is missing, and its contents (empty when unreadable) otherwise.
pub fn protocol_decision(existing: Option<String>, template: &str, tool: &str) -> (r: ProtocolDecision)
    ensures
        (r is Install) == protocol_written(
            match existing {
                Some(c) => Some(c@),
                None => None,
            },
            template@,
        ),
        (existing matches Some(c) && c@ == template@) ==> (r matches ProtocolDecision::UpToDate { notice }
            && notice@ == status_text(Status::Exists, "Memory protocol already up to date"@)),
        !(existing matches Some(c) && c@ == template@) ==> (r matches ProtocolDecision::Install {
            update,
            success,
            failure,
        } && success@ == status_text(
            Status::Created,
            "Installed memory protocol (rules/"@ + protocol_file_text(tool@) + ")"@,
        ) && failure@ == "Failed to write memory protocol"@ && (existing is None ==> update is None) && (
        existing is Some ==> (update matches Some(u) && u@ == status_text(
            Status::Exists,
            "Updating memory protocol to latest version"@,
        )))),
{
    let update = match existing {
        Some(c) => {
            if str_eq(c.as_str(), template) {
                return ProtocolDecision::UpToDate {
                    notice: status_line(Status::Exists, "Memory protocol already up to date"),
                };
            }
            Some(status_line(Status::Exists, "Updating memory protocol to latest version"))
        },
        None => None,
    };
    let mut installed = String::from_str("Installed memory protocol (rules/");
    installed.append(tool);
    installed.append(".md");
    installed.append(")");
    ProtocolDecision::Install {
        update,
        success: status_line(Status::Created, installed.as_str()),
        failure: String::from_str("Failed to write memory protocol"),
    }
}

/// What is at the settings path.
pub enum SettingsFile {
    /// No settings file.
    Missing,
    /// A settings file that could not be read.
    Unreadable,
    /// The settings file's text.
    Text(String),
}

/// What set-up makes of the settings path: the file's text parsed as JSON,
/// `Unparsable` where it is not JSON.
pub fn settings_source(file: SettingsFile) -> (r: SettingsSource)
    ensures
        file is Missing ==> r is Missing,
        file is Unreadable ==> r is Unreadable,
        (file matches SettingsFile::Text(t) ==> match parsed_json(t@) {
            Some(j) => r matches SettingsSource::Parsed(v) && json_view(v) == j,
            None => r is Unparsable,
        }),
{
    match file {
        SettingsFile::Missing => SettingsSource::Missing,
        SettingsFile::Unreadable => SettingsSource::Unreadable,
        SettingsFile::Text(t) => match parse_json(t.as_str()) {
            Some(v) => SettingsSource::Parsed(v),
            None => SettingsSource::Unparsable,
        },
    }
}

/// What was found at the settings path.
pub enum SettingsSource {
    /// No settings file.
    Missing,
    /// A settings file that could not be read.
    Unreadable,
    /// A settings file that is not JSON.
    Unparsable,
    /// The parsed settings.
    Parsed(JsonValue),
}

/// What to do with the settings file.
pub enum MergeDecision {
    /// Print `line` and leave the file alone.
    Report { line: String },
    /// Print `notice`, then write `text` (the merged `settings`
    /// pretty-printed, with a final newline); on failure print
    /// `error_line(write_failure, error)`.
    Write { settings: JsonValue, notice: String, text: String, write_failure: String },
    /// Print `notice`, then `line`: the merged `settings` could not be
    /// pretty-printed, and nothing is written.
    Unserializable { settings: JsonValue, notice: String, line: String },
}

/// The settings merge can run on `source` without a panic: parsed settings
/// either hold the archiving hook already or have the shape on which it can
/// be added.
pub open spec fn mergeable(source: SettingsSource, tool: Seq<char>) -> bool {
    source matches SettingsSource::Parsed(v) ==> has_hook_command(
        json_view(v),
        SESSION_END@,
        archive_command_text(tool),
    ) || hook_insertable(json_view(v), SESSION_END@)
}

/// An empty JSON object.
pub open spec fn empty_object() -> Json {
    Json::Object(Seq::empty())
}

/// Merges the `SessionEnd` archiving hook into the settings: reports an
/// unreadable or unparsable file, reports a hook that is already there, and
/// otherwise adds the hook entry (to `{}` when there is no file) and asks for
/// the file to be written.
pub fn merge_hooks(source: SettingsSource, tool: &str) -> (r: MergeDecision)
    requires
        mergeable(source, tool@),
    ensures
        ({
            let found = match source {
                SettingsSource::Parsed(v) => Some(json_view(v)),
                _ => None,
            };
            (source is Missing || source is Parsed) ==> ((r !is Report) == settings_written(found, tool@) && (
            r matches MergeDecision::Write { settings, .. } ==> json_view(settings) == merged_settings(
                found,
                tool@,
            )) && (r matches MergeDecision::Unserializable { settings, .. } ==> json_view(settings)
                == merged_settings(found, tool@)))
        }),
        source is Unreadable ==> (r matches MergeDecision::Report { line } && line@ == status_text(
            Status::Error,
            "Could not read settings.json \u{2014} add hooks manually"@,
        )),
        source is Unparsable ==> (r matches MergeDecision::Report { line } && line@ == status_text(
            Status::Error,
            "Could not parse settings.json \u{2014} add hooks manually"@,
        )),
        (source matches SettingsSource::Parsed(v) && has_hook_command(
            json_view(v),
            SESSION_END@,
            archive_command_text(tool@),
        )) ==> (r matches MergeDecision::Report { line } && line@ == status_text(
            Status::Exists,
            "SessionEnd hook already up to date"@,
        )),
        ({
            let before = match source {
                SettingsSource::Parsed(v) => json_view(v),
                _ => empty_object(),
            };
            (source is Missing || (source is Parsed && !has_hook_command(
                before,
                SESSION_END@,
                archive_command_text(tool@),
            ))) ==> {
                let after = with_hook_entry(before, SESSION_END@, archive_command_text(tool@));
                let added = status_text(Status::Created, "Added SessionEnd hook (conversation archiving)"@);
                match pretty_json(after) {
                    Some(p) => r matches MergeDecision::Write { settings, notice, text, write_failure }
                        && json_view(settings) == after && notice@ == added && text@ == p + "\n"@
                        && write_failure@ == "Failed to write settings.json"@,
                    None => r matches MergeDecision::Unserializable { settings, notice, line }
                        && json_view(settings) == after && notice@ == added && exists|e: Seq<char>|
                        line@ == status_text(Status::Error, "Failed to serialize settings.json: "@ + e),
                }
            }
        }),
{
    let command = archive_command(tool);
    let mut settings = match source {
        SettingsSource::Unreadable => {
            return MergeDecision::Report {
                line: status_line(Status::Error, "Could not read settings.json \u{2014} add hooks manually"),
            };
        },
        SettingsSource::Unparsable => {
            return MergeDecision::Report {
                line: status_line(Status::Error, "Could not parse settings.json \u{2014} add hooks manually"),
            };
        },
        SettingsSource::Missing => {
            let empty: Vec<JsonMember> = Vec::new();
            let v = JsonValue::Object(empty);
            proof {
                lemma_json_view_containers(v);
                assert(members_view(empty@) =~= Seq::<(Seq<char>, Json)>::empty());
            }
            v
        },
        SettingsSource::Parsed(v) => {
            if hook_has_command(&v, SESSION_END, command.as_str()) {
                return MergeDecision::Report {
                    line: status_line(Status::Exists, "SessionEnd hook already up to date"),
                };
            }
            v
        },
    };
    proof {
        if source is Missing {
            assert(hook_insertable(json_view(settings), SESSION_END@));
        }
    }
    add_hook_entry(&mut settings, SESSION_END, command.as_str());
    let notice = status_line(Status::Created, "Added SessionEnd hook (conversation archiving)");
    match render_pretty(&settings) {
        Ok(t) => {
            let mut text = t;
            text.append("\n");
            MergeDecision::Write {
                settings,
                notice,
                text,
                write_failure: String::from_str("Failed to write settings.json"),
            }
        },
        Err(e) => {
            let line = error_line("Failed to serialize settings.json", e.as_str());
            proof {
                reveal_strlit("Failed to serialize settings.json");
                reveal_strlit(": ");
                reveal_strlit("Failed to serialize settings.json: ");
                assert("Failed to serialize settings.json"@ + ": "@ + e@ =~= "Failed to serialize settings.json: "@
                    + e@);
            }
            MergeDecision::Unserializable { settings, notice, line }
        },
    }
}

// ---------------------------------------------------------------------------
// Laws of set-up
// ---------------------------------------------------------------------------

/// Merging the hook into settings that it was just merged into finds it
/// there: a second set-up adds no second `SessionEnd` entry and keeps the
/// file as it is.
pub proof fn lemma_merge_hooks_idempotent(settings: Json, tool: Seq<char>)
    requires
        hook_insertable(settings, SESSION_END@),
    ensures
        has_hook_command(
            with_hook_entry(settings, SESSION_END@, archive_command_text(tool)),
            SESSION_END@,
            archive_command_text(tool),
        ),
{
    lemma_added_hook_is_found(settings, SESSION_END@, archive_command_text(tool));
}

/// Merging the hook keeps every hook command that the settings already had,
/// under every event.
pub proof fn lemma_merge_hooks_keeps_existing(
    settings: Json,
    tool: Seq<char>,
    event: Seq<char>,
    needle: Seq<char>,
)
    requires
        hook_insertable(settings, SESSION_END@),
        has_hook_command(settings, event, needle),
    ensures
        has_hook_command(with_hook_entry(settings, SESSION_END@, archive_command_text(tool)), event, needle),
{
    lemma_add_hook_keeps_commands(settings, SESSION_END@, archive_command_text(tool), event, needle);
}

/// What set-up finds under the memory directory: the protocol file's
/// contents (`None`: missing), whether `memory/MEMORY.md`, `EPHEMERAL.md` and
/// `ARCHIVE.md` exist, and the parsed settings (`None`: no settings file).
pub struct SetupState {
    pub protocol: Option<Seq<char>>,
    pub memory: bool,
    pub ephemeral: bool,
    pub archive: bool,
    pub settings: Option<Json>,
}

/// Whether a set-up that finds `st` writes any file (see
/// `protocol_decision`, `write_if_missing_decision` and `merge_hooks`).
pub open spec fn setup_writes(st: SetupState, template: Seq<char>, tool: Seq<char>) -> bool {
    ||| protocol_written(st.protocol, template)
    ||| file_written(st.memory)
    ||| file_written(st.ephemeral)
    ||| file_written(st.archive)
    ||| settings_written(st.settings, tool)
}

/// What a set-up that finds `st` leaves where every write succeeds.
pub open spec fn setup_after(st: SetupState, template: Seq<char>, tool: Seq<char>) -> SetupState {
    SetupState {
        protocol: Some(template),
        memory: true,
        ephemeral: true,
        archive: true,
        settings: Some(merged_settings(st.settings, tool)),
    }
}

/// A second set-up changes nothing: after a set-up whose writes succeeded,
/// the next one writes no file and leaves what it found.
pub proof fn lemma_second_setup_changes_nothing(st: SetupState, template: Seq<char>, tool: Seq<char>)
    requires
        st.settings matches Some(v) ==> has_hook_command(v, SESSION_END@, archive_command_text(tool))
            || hook_insertable(v, SESSION_END@),
    ensures
        !setup_writes(setup_after(st, template, tool), template, tool),
        setup_after(setup_after(st, template, tool), template, tool) == setup_after(st, template, tool),
{
    let cmd = archive_command_text(tool);
    match st.settings {
        None => {
            assert(hook_insertable(empty_object(), SESSION_END@));
            lemma_added_hook_is_found(empty_object(), SESSION_END@, cmd);
        },
        Some(v) => {
            if !has_hook_command(v, SESSION_END@, cmd) {
                lemma_added_hook_is_found(v, SESSION_END@, cmd);
            }
        },
    }
}

} // verus!
