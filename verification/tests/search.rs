use recall::search::{
    highlight_lowered, is_conversation_file, render_results, search_conversations, search_lines, select_conversation_files, sort_names,
    try_highlight_match, ConversationFile, SearchResult, BOLD, CYAN, DIM, RESET, YELLOW,
};

fn lines_of(content: &str) -> Vec<String> {
    content.lines().map(|l| l.to_string()).collect()
}

fn search(content: &str, query: &str, context: usize) -> Vec<SearchResult> {
    let file = "conversation-001.md".to_string();
    search_lines(query, &file, &lines_of(content), context).unwrap()
}

#[test]
fn search_finds_matches() {
    let results = search(
        "# Conversation 001\n\n### User\n\nHow do I refactor auth?\n\n### Assistant\n\nLet me check the auth module.\n",
        "auth",
        0,
    );
    assert_eq!(results.len(), 2); // "auth" appears in both user and assistant
}

#[test]
fn search_case_insensitive() {
    let results = search("JWT tokens are great\n", "jwt", 0);
    assert_eq!(results.len(), 1);
}

#[test]
fn search_no_matches() {
    let results = search("hello world\n", "nonexistent", 0);
    assert!(results.is_empty());
}

#[test]
fn search_with_context() {
    let results = search("line one\nline two\nfind this\nline four\nline five\n", "find this", 1);
    assert_eq!(results.len(), 3); // 1 before + match + 1 after
}

#[test]
fn context_lines_are_dimmed_and_numbered() {
    let results = search("line one\nline two\nfind this\nline four\nline five\n", "find this", 1);
    assert_eq!(results[0].line_num, 2);
    assert_eq!(results[0].line, format!("{DIM}line two{RESET}"));
    assert_eq!(results[1].line_num, 3);
    assert_eq!(results[1].line, format!("{YELLOW}{BOLD}find this{RESET}"));
    assert_eq!(results[2].line_num, 4);
    assert_eq!(results[2].line, format!("{DIM}line four{RESET}"));
    assert!(results.iter().all(|r| r.file == "conversation-001.md"));
}

#[test]
fn context_is_clipped_at_file_edges() {
    let results = search("match here\nsecond\n", "match", 5);
    assert_eq!(results.len(), 2);
    assert_eq!(results[0].line_num, 1);
    assert_eq!(results[1].line_num, 2);
}

#[test]
fn overlapping_context_is_repeated() {
    let results = search("a\nhit\nhit\nb\n", "hit", 1);
    let nums: Vec<usize> = results.iter().map(|r| r.line_num).collect();
    assert_eq!(nums, vec![1, 2, 3, 2, 3, 4]);
}

#[test]
fn highlight_keeps_original_case() {
    let h = try_highlight_match("Use JWT and jwt", "jwt").unwrap();
    assert_eq!(h, format!("Use {YELLOW}{BOLD}JWT{RESET} and {YELLOW}{BOLD}jwt{RESET}"));
}

#[test]
fn highlight_without_match_is_identity() {
    assert_eq!(try_highlight_match("hello world", "xyz").unwrap(), "hello world");
}

#[test]
fn highlight_of_empty_query_does_not_return() {
    assert!(try_highlight_match("abc", "").is_none());
}

#[test]
fn highlight_with_multibyte_text() {
    let h = try_highlight_match("Grüße aus Köln", "KÖLN").unwrap();
    assert_eq!(h, format!("Grüße aus {YELLOW}{BOLD}Köln{RESET}"));
}

#[test]
fn highlight_off_char_boundary_is_refused() {
    // U+0130 lowercases to two characters (three bytes), so the match found in
    // the lowercase line does not line up with the characters of the line.
    assert!(try_highlight_match("\u{130}x", "x").is_none());
}

#[test]
fn search_over_files_keeps_file_order() {
    let files = vec![
        ConversationFile { name: "conversation-001.md".to_string(), lines: lines_of("alpha\nbeta\n") },
        ConversationFile { name: "conversation-002.md".to_string(), lines: lines_of("beta\n") },
    ];
    let results = search_conversations("beta", &files, 0).unwrap();
    assert_eq!(results.len(), 2);
    assert_eq!(results[0].file, "conversation-001.md");
    assert_eq!(results[0].line_num, 2);
    assert_eq!(results[1].file, "conversation-002.md");
    assert_eq!(results[1].line_num, 1);
}

#[test]
fn conversation_file_filter() {
    assert!(is_conversation_file("conversation-001.md"));
    assert!(!is_conversation_file("conversation-001.txt"));
    assert!(!is_conversation_file("notes.md"));
    assert!(!is_conversation_file("ARCHIVE.md"));
}

#[test]
fn names_are_sorted_bytewise() {
    let names = vec![
        "conversation-010.md".to_string(),
        "conversation-002.md".to_string(),
        "conversation-1000.md".to_string(),
        "conversation-001.md".to_string(),
    ];
    let sorted = sort_names(names);
    assert_eq!(
        sorted,
        vec![
            "conversation-001.md".to_string(),
            "conversation-002.md".to_string(),
            "conversation-010.md".to_string(),
            "conversation-1000.md".to_string(),
        ]
    );
}

#[test]
fn render_reports_no_matches() {
    let lines = render_results("zzz", &Vec::new());
    assert_eq!(lines, vec!["No matches found for \"zzz\"".to_string()]);
}

#[test]
fn render_groups_by_file() {
    let results = vec![
        SearchResult { file: "a.md".to_string(), line_num: 3, line: "x".to_string() },
        SearchResult { file: "a.md".to_string(), line_num: 12, line: "y".to_string() },
        SearchResult { file: "b.md".to_string(), line_num: 1234, line: "z".to_string() },
    ];
    let lines = render_results("q", &results);
    assert_eq!(
        lines,
        vec![
            format!("{BOLD}3 matches across conversation archives{RESET}\n"),
            format!("{CYAN}a.md{RESET}"),
            format!("  {DIM}   3{RESET}  x"),
            format!("  {DIM}  12{RESET}  y"),
            format!("{CYAN}b.md{RESET}"),
            format!("  {DIM}1234{RESET}  z"),
        ]
    );
}

#[test]
fn render_single_match_is_singular() {
    let results = vec![SearchResult { file: "a.md".to_string(), line_num: 1, line: "x".to_string() }];
    let lines = render_results("q", &results);
    assert_eq!(lines[0], format!("{BOLD}1 match across conversation archives{RESET}\n"));
}

#[test]
fn highlight_from_given_lowercase_forms() {
    // The lowercase forms are given here, so the scan is checked on its own.
    let h = highlight_lowered("AbCb", "abcb", "b", 1).unwrap();
    assert_eq!(h, format!("A{YELLOW}{BOLD}b{RESET}C{YELLOW}{BOLD}b{RESET}"));
    // The slice taken from the line has the query's length, not the match's.
    let h = highlight_lowered("xyzw", "xyzw", "y", 2).unwrap();
    assert_eq!(h, format!("x{YELLOW}{BOLD}yz{RESET}w"));
    // A match that would run past the end of the line does not return.
    assert!(highlight_lowered("ab", "ab", "b", 2).is_none());
    assert!(highlight_lowered("ab", "ab", "b", 0).is_none());
}

#[test]
fn context_past_usize_is_undefined() {
    let file = "conversation-001.md".to_string();
    assert!(search_lines("x", &file, &lines_of("x\n"), usize::MAX).is_none());
    assert!(search_lines("x", &file, &lines_of("y\n"), usize::MAX).unwrap().is_empty());
}

#[test]
fn queries_differing_in_case_give_the_same_results() {
    let content = "JWT tokens\nno match\nuse jwt here\n";
    let a = search(content, "JWT", 1);
    let b = search(content, "jwt", 1);
    let c = search(content, "JwT", 1);
    let lines = |v: &Vec<SearchResult>| v.iter().map(|r| (r.line_num, r.line.clone())).collect::<Vec<_>>();
    assert_eq!(lines(&a), lines(&b));
    assert_eq!(lines(&a), lines(&c));
}

#[test]
fn removing_markers_gives_back_the_line() {
    let line = "Auth, AUTH and auth";
    let h = try_highlight_match(line, "auth").unwrap();
    let stripped = h.replace(YELLOW, "").replace(BOLD, "").replace(RESET, "");
    assert_eq!(stripped, line);
    assert_eq!(h.matches(YELLOW).count(), 3);
}

#[test]
fn only_conversation_files_are_selected_in_order() {
    let listing = vec![
        "notes.md".to_string(),
        "conversation-010.md".to_string(),
        "ARCHIVE.md".to_string(),
        "conversation-002.md".to_string(),
        "conversation-001.txt".to_string(),
    ];
    assert_eq!(
        select_conversation_files(listing.clone()),
        vec!["conversation-002.md".to_string(), "conversation-010.md".to_string()]
    );
    let mut more = listing;
    more.insert(1, "todo.txt".to_string());
    assert_eq!(
        select_conversation_files(more),
        vec!["conversation-002.md".to_string(), "conversation-010.md".to_string()]
    );
}
