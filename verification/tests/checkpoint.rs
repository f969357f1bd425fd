use recall::checkpoint::{
    checkpoint_message, conversation_file, empty_checkpoint, extract_from_transcript,
    checkpoint_content, checkpoint_data, missing_conversations_error, next_conversation_number, run,
    run_with_paths, HookInput, TranscriptContent, TranscriptStats,
};
use recall::names::Names;

fn names() -> Names {
    Names {
        tool: "recall".to_string(),
        host_dir: ".assistant".to_string(),
        host_product: "the coding assistant".to_string(),
    }
}

#[test]
fn empty_checkpoint_fallback() {
    let data = empty_checkpoint();
    assert!(data.session_id.is_empty());
    assert!(data.topics.is_empty());
    assert_eq!(data.message_count, 0);
    assert!(data.duration.is_empty());
    assert!(data.md_body.contains("No transcript available"));
    assert!(data.tags_section.is_empty());
}

fn input() -> HookInput {
    HookInput {
        session_id: "test-ckpt".to_string(),
        transcript_path: "/tmp/test-session.jsonl".to_string(),
        cwd: None,
        hook_event_name: Some("PreCompact".to_string()),
    }
}

fn content() -> TranscriptContent {
    TranscriptContent {
        elapsed: "5m".to_string(),
        topics: vec!["refactor the auth module".to_string()],
        md_body: "### User\n\nLet's refactor the auth module to use JWT\n".to_string(),
        tags_section: String::new(),
    }
}

#[test]
fn transcript_data_is_extracted() {
    let stats = TranscriptStats {
        user_message_count: 3,
        assistant_message_count: 3,
        first_timestamp: Some("2026-03-05T14:30:00.100Z".to_string()),
        last_timestamp: Some("2026-03-05T14:35:05.000Z".to_string()),
    };
    let data = extract_from_transcript(&input(), Some(stats), content()).unwrap();
    assert_eq!(data.session_id, "test-ckpt");
    assert_eq!(data.message_count, 6);
    assert_eq!(data.duration, "5m");
    assert_eq!(data.topics, vec!["refactor the auth module".to_string()]);
    assert!(data.md_body.contains("JWT"));
}

#[test]
fn missing_timestamps_give_unknown_duration() {
    let stats = TranscriptStats {
        user_message_count: 1,
        assistant_message_count: 0,
        first_timestamp: Some("2026-03-05T14:30:00.100Z".to_string()),
        last_timestamp: None,
    };
    let data = extract_from_transcript(&input(), Some(stats), content()).unwrap();
    assert_eq!(data.duration, "unknown");
    assert_eq!(data.message_count, 1);
}

#[test]
fn transcript_without_user_messages_is_skipped() {
    let stats = TranscriptStats {
        user_message_count: 0,
        assistant_message_count: 4,
        first_timestamp: None,
        last_timestamp: None,
    };
    assert!(extract_from_transcript(&input(), Some(stats), content()).is_none());
    assert!(extract_from_transcript(&input(), None, content()).is_none());
}

#[test]
fn conversation_files_are_zero_padded() {
    assert_eq!(conversation_file(1), "conversation-001.md");
    assert_eq!(conversation_file(42), "conversation-042.md");
    assert_eq!(conversation_file(999), "conversation-999.md");
    assert_eq!(conversation_file(1000), "conversation-1000.md");
    assert_eq!(next_conversation_number(0), 1);
    assert_eq!(next_conversation_number(6), 7);
}

#[test]
fn checkpoint_report_line() {
    assert_eq!(
        checkpoint_message("recall", 7, "precompact", 12, 3),
        "recall: checkpoint conversation-007.md (precompact \u{2014} 12 messages, 3 topics)"
    );
}

#[test]
fn checkpoint_targets() {
    let data = empty_checkpoint();
    let now = "2026-03-05T14:30:00Z";
    let t = run_with_paths("precompact", "/base", "recall", true, 6, now, "2026-03-05", &data).unwrap();
    assert_eq!(t.number, 7);
    assert_eq!(t.conversation_file, "/base/conversations/conversation-007.md");
    assert_eq!(t.archive_index, "/base/ARCHIVE.md");
    assert_eq!(t.message, "recall: checkpoint conversation-007.md (precompact \u{2014} 0 messages, 0 topics)");
    assert_eq!(t.frontmatter.log, 7);
    assert_eq!(t.frontmatter.date, now);
    assert_eq!(t.frontmatter.source, "precompact");
    assert!(t.frontmatter.session_id.is_empty());
    assert!(t.frontmatter.topics.is_empty());
    assert_eq!(t.index_entry.number, 7);
    assert_eq!(t.index_entry.date, "2026-03-05");
    let e = run_with_paths("precompact", "/base", "recall", false, 6, now, "2026-03-05", &data);
    assert_eq!(e.err().unwrap(), "conversations/ directory not found. Run `recall init` first.");
    assert_eq!(missing_conversations_error("tool-x"), "conversations/ directory not found. Run `tool-x init` first.");
}

#[test]
fn checkpoint_run_uses_override() {
    let data = empty_checkpoint();
    let home = Some("/tmp/test-home".to_string());
    let t = run("precompact", home.clone(), &names(), true, 0, "t", "d", &data).unwrap();
    assert_eq!(t.conversation_file, "/tmp/test-home/conversations/conversation-001.md");
    assert!(run("precompact", home, &names(), false, 0, "t", "d", &data).is_err());
}

#[test]
fn checkpoint_files_are_searched_in_numeric_order() {
    let numbers = [998u32, 7, 100, 42, 1, 99, 10];
    let names: Vec<String> = numbers.iter().map(|&n| conversation_file(n)).collect();
    assert!(names.iter().all(|n| recall::search::is_conversation_file(n)));
    let sorted = recall::search::sort_names(names);
    let mut expected = numbers.to_vec();
    expected.sort();
    let expected: Vec<String> = expected.into_iter().map(conversation_file).collect();
    assert_eq!(sorted, expected);
    // From a thousand on, the names no longer sort numerically.
    let sorted = recall::search::sort_names(vec![conversation_file(1000), conversation_file(999)]);
    assert_eq!(sorted, vec![conversation_file(1000), conversation_file(999)]);
}

#[test]
fn checkpoint_data_falls_back_and_content_is_assembled() {
    let d = checkpoint_data(None);
    assert_eq!(d.md_body, "# Checkpoint\n\nNo transcript available.\n");
    let stats = TranscriptStats {
        user_message_count: 2,
        assistant_message_count: 1,
        first_timestamp: None,
        last_timestamp: None,
    };
    let extracted = extract_from_transcript(&input(), Some(stats), content());
    let d = checkpoint_data(extracted);
    assert_eq!(d.session_id, "test-ckpt");
    assert_eq!(d.message_count, 3);
    let t = run_with_paths("precompact", "/b", "recall", true, 0, "now", "day", &d).unwrap();
    assert_eq!(t.frontmatter.topics, vec!["refactor the auth module".to_string()]);
    assert_eq!(t.frontmatter.message_count, 3);
    assert_eq!(t.frontmatter.duration, "unknown");
    assert_eq!(t.index_entry.session_id, "test-ckpt");
    let body = checkpoint_content("---\nlog: 1\n---", &d);
    assert_eq!(body, format!("---\nlog: 1\n---\n\n{}{}", d.md_body, d.tags_section));
}
