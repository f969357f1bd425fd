use recall::init::{
    archive_command, banner, error_line, memory_template, merge_hooks, missing_base_error, protocol_decision, run,
    run_with_base, status_line, summary, write_if_missing_decision, FileDecision, InitStep, MergeDecision,
    ProtocolDecision, SettingsFile, SettingsSource, Status, ARCHIVE_TEMPLATE, SESSION_END, settings_source,
};
use recall::names::Names;

fn names() -> Names {
    Names {
        tool: "recall".to_string(),
        host_dir: ".assistant".to_string(),
        host_product: "the coding assistant".to_string(),
    }
}

fn other_names() -> Names {
    Names { tool: "recall-x".to_string(), host_dir: ".x".to_string(), host_product: "X Code".to_string() }
}
use recall::json::{add_hook_entry, can_add_hook_entry, hook_has_command, JsonMember, JsonValue};

fn obj(members: Vec<(&str, JsonValue)>) -> JsonValue {
    JsonValue::Object(members.into_iter().map(|(k, v)| JsonMember { key: k.to_string(), value: v }).collect())
}

fn s(x: &str) -> JsonValue {
    JsonValue::Str(x.to_string())
}

fn other_tool_settings() -> JsonValue {
    obj(vec![(
        "hooks",
        obj(vec![(
            "PreToolUse",
            JsonValue::Array(vec![obj(vec![(
                "hooks",
                JsonValue::Array(vec![obj(vec![("type", s("command")), ("command", s("some-other-tool"))])]),
            )])]),
        )]),
    )])
}

fn written(d: MergeDecision) -> JsonValue {
    match d {
        MergeDecision::Write { settings, .. } => settings,
        MergeDecision::Report { line } => panic!("nothing written: {line}"),
        MergeDecision::Unserializable { line, .. } => panic!("nothing written: {line}"),
    }
}

fn session_end_entries(settings: &JsonValue) -> usize {
    let JsonValue::Object(ms) = settings else { panic!("not an object") };
    let hooks = &ms.iter().find(|m| m.key == "hooks").unwrap().value;
    let JsonValue::Object(hs) = hooks else { panic!("hooks not an object") };
    match &hs.iter().find(|m| m.key == "SessionEnd").unwrap().value {
        JsonValue::Array(a) => a.len(),
        _ => panic!("not an array"),
    }
}

fn paths(steps: &[InitStep]) -> Vec<String> {
    steps
        .iter()
        .filter_map(|s| match s {
            InitStep::CheckBase { path, .. }
            | InitStep::EnsureDir { path, .. }
            | InitStep::WriteProtocol { path }
            | InitStep::WriteIfMissing { path, .. }
            | InitStep::MergeHooks { path } => Some(path.clone()),
            InitStep::Say { .. } => None,
        })
        .collect()
}

#[test]
fn init_creates_directories_and_files() {
    let steps = run_with_base("/base", &names());
    let ps = paths(&steps);
    for p in [
        "/base/rules/recall.md",
        "/base/memory/MEMORY.md",
        "/base/EPHEMERAL.md",
        "/base/ARCHIVE.md",
        "/base/conversations",
        "/base/settings.json",
    ] {
        assert!(ps.contains(&p.to_string()), "{p}");
    }
}

#[test]
fn init_steps_in_order() {
    let steps = run_with_base("/base/", &names());
    assert_eq!(
        paths(&steps),
        vec![
            "/base/",
            "/base/rules",
            "/base/memory",
            "/base/conversations",
            "/base/rules/recall.md",
            "/base/memory/MEMORY.md",
            "/base/EPHEMERAL.md",
            "/base/ARCHIVE.md",
            "/base/settings.json",
        ]
    );
    match &steps[6] {
        InitStep::WriteIfMissing { content, label, .. } => {
            assert_eq!(content, &memory_template("recall"));
            assert_eq!(label, "MEMORY.md");
        }
        _ => panic!("unexpected step"),
    }
    match &steps[8] {
        InitStep::WriteIfMissing { content, .. } => assert_eq!(content, ARCHIVE_TEMPLATE),
        _ => panic!("unexpected step"),
    }
}

#[test]
fn fails_if_base_dir_missing() {
    let steps = run_with_base("/nonexistent/path", &names());
    match &steps[0] {
        InitStep::CheckBase { path, missing } => {
            assert_eq!(path, "/nonexistent/path");
            assert_eq!(missing, &missing_base_error(".assistant", "the coding assistant"));
        }
        _ => panic!("the base directory is not checked first"),
    }
}

#[test]
fn run_uses_override() {
    let steps = run(Some("/tmp/test-home".to_string()), &names()).unwrap();
    assert_eq!(paths(&steps)[0], "/tmp/test-home");
}

#[test]
fn init_is_idempotent() {
    match write_if_missing_decision(true, "MEMORY.md") {
        FileDecision::Keep { notice } => {
            assert_eq!(notice, status_line(Status::Exists, "MEMORY.md already exists \u{2014} preserved"))
        }
        FileDecision::Write { .. } => panic!("an existing MEMORY.md would be overwritten"),
    }
    match write_if_missing_decision(false, "MEMORY.md") {
        FileDecision::Write { success, failure } => {
            assert_eq!(success, status_line(Status::Created, "Created MEMORY.md"));
            assert_eq!(failure, "Failed to create MEMORY.md");
        }
        FileDecision::Keep { .. } => panic!("a missing file is not written"),
    }
}

#[test]
fn protocol_is_kept_when_current() {
    match protocol_decision(Some("proto".to_string()), "proto", "recall") {
        ProtocolDecision::UpToDate { notice } => {
            assert_eq!(notice, status_line(Status::Exists, "Memory protocol already up to date"))
        }
        _ => panic!("current protocol rewritten"),
    }
    match protocol_decision(Some("old".to_string()), "proto", "recall") {
        ProtocolDecision::Install { update, .. } => assert!(update.is_some()),
        _ => panic!("stale protocol kept"),
    }
    match protocol_decision(None, "proto", "recall") {
        ProtocolDecision::Install { update, failure, .. } => {
            assert!(update.is_none());
            assert_eq!(failure, "Failed to write memory protocol");
        }
        _ => panic!("missing protocol not installed"),
    }
}

#[test]
fn status_lines() {
    assert_eq!(status_line(Status::Created, "done"), "  \x1b[32m\u{2713}\x1b[0m done");
    assert_eq!(status_line(Status::Exists, "kept"), "  \x1b[33m~\x1b[0m kept");
    assert_eq!(status_line(Status::Error, "bad"), "  \x1b[31m\u{2717}\x1b[0m bad");
    assert_eq!(error_line("Failed to create x", "denied"), "  \x1b[31m\u{2717}\x1b[0m Failed to create x: denied");
}

#[test]
fn init_merges_hooks_into_existing_settings() {
    let existing = "{\n  \"hooks\": {\n    \"PreToolUse\": [\n      {\n        \"hooks\": [\n          {\n            \"type\": \"command\",\n            \"command\": \"some-other-tool\"\n          }\n        ]\n      }\n    ]\n  }\n}";
    let text = written_text(merge_hooks(settings_source(SettingsFile::Text(existing.to_string())), "recall"));
    let settings = parsed(&text);
    // Should have both the existing PreToolUse and new SessionEnd
    assert!(hook_has_command(&settings, "PreToolUse", "some-other-tool"));
    assert!(hook_has_command(&settings, "SessionEnd", &archive_command("recall")));
}

fn written_text(d: MergeDecision) -> String {
    match d {
        MergeDecision::Write { text, .. } => text,
        _ => panic!("nothing written"),
    }
}

fn parsed(text: &str) -> JsonValue {
    match settings_source(SettingsFile::Text(text.to_string())) {
        SettingsSource::Parsed(v) => v,
        _ => panic!("not JSON: {text}"),
    }
}

#[test]
fn merged_settings_are_pretty_printed() {
    let text = written_text(merge_hooks(SettingsSource::Missing, "recall"));
    assert_eq!(
        text,
        "{\n  \"hooks\": {\n    \"SessionEnd\": [\n      {\n        \"hooks\": [\n          {\n            \"command\": \"recall archive-session\",\n            \"type\": \"command\"\n          }\n        ]\n      }\n    ]\n  }\n}\n"
    );
    let again = merge_hooks(settings_source(SettingsFile::Text(text)), "recall");
    assert!(matches!(again, MergeDecision::Report { .. }));
}

#[test]
fn settings_files_are_read_as_json() {
    assert!(matches!(settings_source(SettingsFile::Missing), SettingsSource::Missing));
    assert!(matches!(settings_source(SettingsFile::Unreadable), SettingsSource::Unreadable));
    assert!(matches!(settings_source(SettingsFile::Text("not json".to_string())), SettingsSource::Unparsable));
    match parsed("{\"a\": 1.5, \"b\": [true, null, \"x\"]}") {
        JsonValue::Object(ms) => {
            assert_eq!(ms.len(), 2);
            assert_eq!(ms[0].key, "a");
            assert!(matches!(&ms[0].value, JsonValue::Number(n) if n == "1.5"));
            assert_eq!(ms[1].key, "b");
            assert!(matches!(&ms[1].value, JsonValue::Array(items) if items.len() == 3));
        }
        _ => panic!("not an object"),
    }
    let text = written_text(merge_hooks(settings_source(SettingsFile::Text("{\"z\": 2, \"a\": 1.5}".to_string())), "recall"));
    assert!(text.contains("\"a\": 1.5") && text.contains("\"z\": 2"));
}

#[test]
fn init_does_not_duplicate_hooks() {
    let settings = written(merge_hooks(SettingsSource::Missing, "recall"));
    // Should have exactly one SessionEnd hook entry
    assert_eq!(session_end_entries(&settings), 1);
    match merge_hooks(SettingsSource::Parsed(settings), "recall") {
        MergeDecision::Report { line } => {
            assert_eq!(line, status_line(Status::Exists, "SessionEnd hook already up to date"))
        }
        _ => panic!("hook added twice"),
    }
}

#[test]
fn unreadable_and_unparsable_settings_are_reported() {
    match merge_hooks(SettingsSource::Unparsable, "recall") {
        MergeDecision::Report { line } => assert_eq!(
            line,
            status_line(Status::Error, "Could not parse settings.json \u{2014} add hooks manually")
        ),
        _ => panic!("unparsable settings overwritten"),
    }
    match merge_hooks(SettingsSource::Unreadable, "recall") {
        MergeDecision::Report { line } => assert_eq!(
            line,
            status_line(Status::Error, "Could not read settings.json \u{2014} add hooks manually")
        ),
        _ => panic!("unreadable settings overwritten"),
    }
}

#[test]
fn hook_shapes() {
    let mut v = obj(vec![]);
    assert!(can_add_hook_entry(&v, SESSION_END));
    add_hook_entry(&mut v, SESSION_END, "cmd one");
    add_hook_entry(&mut v, SESSION_END, "cmd two");
    assert_eq!(session_end_entries(&v), 2);
    assert!(hook_has_command(&v, SESSION_END, "one"));
    assert!(hook_has_command(&v, SESSION_END, "two"));
    assert!(!hook_has_command(&v, SESSION_END, "three"));
    assert!(!hook_has_command(&v, "PreToolUse", "one"));
    assert!(!can_add_hook_entry(&JsonValue::Array(vec![]), SESSION_END));
    assert!(!can_add_hook_entry(&obj(vec![("hooks", s("x"))]), SESSION_END));
    assert!(!can_add_hook_entry(&obj(vec![("hooks", obj(vec![("SessionEnd", s("x"))]))]), SESSION_END));
}

#[test]
fn texts_follow_the_names() {
    let n = other_names();
    let steps = run_with_base("/h/.x", &n);
    let ps = paths(&steps);
    assert_eq!(ps[4], "/h/.x/rules/recall-x.md");
    assert_eq!(archive_command("recall-x"), "recall-x archive-session");
    assert_eq!(
        missing_base_error(".x", "X Code"),
        "~/.x directory not found. Is X Code installed?\n  Install X Code first, then run this again."
    );
    assert_eq!(banner("recall-x"), "\n\x1b[1mrecall-x\x1b[0m \u{2014} initializing memory system\n");
    assert!(memory_template("recall-x").starts_with("# Memory\n\n<!-- recall-x: Curated memory."));
    let text = summary("recall-x", ".x", "X Code");
    assert!(text.contains("Full conversations in ~/.x/conversations/\n"));
    assert!(text.contains("SessionEnd \u{2192} recall-x archive-session\n"));
    assert!(text.contains("Start a new X Code session and your conversations will be remembered.\n"));
    match protocol_decision(None, "proto", "recall-x") {
        ProtocolDecision::Install { success, .. } => assert_eq!(
            success,
            status_line(Status::Created, "Installed memory protocol (rules/recall-x.md)")
        ),
        _ => panic!("missing protocol not installed"),
    }
    let settings = written(merge_hooks(SettingsSource::Missing, "recall-x"));
    assert!(hook_has_command(&settings, SESSION_END, "recall-x archive-session"));
    match merge_hooks(SettingsSource::Parsed(settings), "recall-x") {
        MergeDecision::Report { .. } => {}
        _ => panic!("hook added twice"),
    }
}

#[test]
fn second_setup_writes_nothing() {
    let after_first = written(merge_hooks(SettingsSource::Parsed(other_tool_settings()), "recall"));
    match merge_hooks(SettingsSource::Parsed(after_first), "recall") {
        MergeDecision::Report { .. } => {}
        _ => panic!("settings rewritten by a second set-up"),
    }
    assert!(matches!(protocol_decision(Some("proto".to_string()), "proto", "recall"), ProtocolDecision::UpToDate { .. }));
    for label in ["MEMORY.md", "EPHEMERAL.md", "ARCHIVE.md"] {
        assert!(matches!(write_if_missing_decision(true, label), FileDecision::Keep { .. }));
    }
}
