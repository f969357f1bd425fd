//! Checkpoints taken before context compaction: what a checkpoint records
//! from a partial transcript, the fallback when there is none, the archive
//! file it is written to, and the line that reports it.
use vstd::prelude::*;
use vstd::utf8::{encode_utf8, is_ascii_chars, is_ascii_chars_encode_utf8};
use crate::names::Names;
use crate::paths::{possible_home, base_dir, base_dir_spec, join_path, joined, result_view};
use crate::search::{bytes_le, conversation_file_name};
use crate::text::{decimal, decimal_string, digit_char, pad_left, zero_padded3};

verus! {

/// Body of a checkpoint without a transcript.
pub const NO_TRANSCRIPT_BODY: &'static str = "# Checkpoint\n\nNo transcript available.\n";

/// Duration recorded when the transcript lacks a first or last timestamp.
pub const UNKNOWN_DURATION: &'static str = "unknown";

/// Error when the archive directory is missing: run the tool's `init` first.
pub open spec fn missing_conversations_text(tool: Seq<char>) -> Seq<char> {
    "conversations/ directory not found. Run `"@ + tool + " init` first."@
}

/// Error when the archive directory is missing.
pub fn missing_conversations_error(tool: &str) -> (r: String)
    ensures
        r@ == missing_conversations_text(tool@),
{
    let mut r = String::from_str("conversations/ directory not found. Run `");
    r.append(tool);
    r.append(" init` first.");
    r
}

/// What a checkpoint records.
pub struct CheckpointData {
    pub session_id: String,
    pub topics: Vec<String>,
    pub message_count: u32,
    pub duration: String,
    pub md_body: String,
    pub tags_section: String,
}

/// The hook input that the compaction hook passes in.
pub struct HookInput {
    pub session_id: String,
    pub transcript_path: String,
    pub cwd: Option<String>,
    pub hook_event_name: Option<String>,
}

/// What the checkpoint reads from a parsed transcript.
pub struct TranscriptStats {
    pub user_message_count: u32,
    pub assistant_message_count: u32,
    pub first_timestamp: Option<String>,
    pub last_timestamp: Option<String>,
}

/// What the transcript's renderers made of it: the time between its first
/// and last timestamps, its topics, its Markdown body and its tags section.
pub struct TranscriptContent {
    pub elapsed: String,
    pub topics: Vec<String>,
    pub md_body: String,
    pub tags_section: String,
}

/// The fallback when no transcript is available (manual invocation): no
/// session, no topics, no messages, no duration, a body that says so, no tags.
pub fn empty_checkpoint() -> (d: CheckpointData)
    ensures
        d.session_id@ == Seq::<char>::empty(),
        d.topics@.len() == 0,
        d.message_count == 0,
        d.duration@ == Seq::<char>::empty(),
        d.md_body@ == NO_TRANSCRIPT_BODY@,
        d.tags_section@ == Seq::<char>::empty(),
{
    CheckpointData {
        session_id: String::new(),
        topics: Vec::new(),
        message_count: 0,
        duration: String::new(),
        md_body: String::from_str(NO_TRANSCRIPT_BODY),
        tags_section: String::new(),
    }
}

/// The checkpoint data for a transcript: none when it could not be parsed or
/// holds no user message; otherwise the hook's session, the topics, the
/// number of user and assistant messages together, the elapsed time (or
/// `unknown` without both timestamps), the body and the tags.
pub fn extract_from_transcript(
    input: &HookInput,
    parsed: Option<TranscriptStats>,
    content: TranscriptContent,
) -> (r: Option<CheckpointData>)
    requires
        parsed matches Some(st) ==> st.user_message_count + st.assistant_message_count <= u32::MAX,
    ensures
        parsed is None ==> r is None,
        parsed matches Some(st) && st.user_message_count == 0 ==> r is None,
        parsed matches Some(st) ==> st.user_message_count > 0 ==> (r matches Some(d) && d.session_id@
            == input.session_id@ && d.message_count == st.user_message_count
            + st.assistant_message_count && d.duration@ == (if st.first_timestamp is Some
            && st.last_timestamp is Some {
            content.elapsed@
        } else {
            UNKNOWN_DURATION@
        }) && d.topics@ == content.topics@ && d.md_body@ == content.md_body@ && d.tags_section@
            == content.tags_section@),
{
    let st = match parsed {
        Some(st) => st,
        None => return None,
    };
    if st.user_message_count == 0 {
        return None;
    }
    let duration = if st.first_timestamp.is_some() && st.last_timestamp.is_some() {
        content.elapsed
    } else {
        String::from_str(UNKNOWN_DURATION)
    };
    Some(
        CheckpointData {
            session_id: input.session_id.clone(),
            topics: content.topics,
            message_count: st.user_message_count + st.assistant_message_count,
            duration,
            md_body: content.md_body,
            tags_section: content.tags_section,
        },
    )
}

/// The file name of archived conversation number `n`.
pub open spec fn archive_file_name(n: nat) -> Seq<char> {
    "conversation-"@ + pad_left(decimal(n), 3, '0') + ".md"@
}

/// `conversation-NNN.md` for conversation `n`, zero-padded to three digits.
pub fn conversation_file(n: u32) -> (r: String)
    ensures
        r@ == archive_file_name(n as nat),
{
    let mut r = String::from_str("conversation-");
    let num = zero_padded3(n as u64);
    r.append(num.as_str());
    r.append(".md");
    r
}

/// The number of the next conversation after the highest archived one.
pub fn next_conversation_number(highest: u32) -> (r: u32)
    requires
        highest < u32::MAX,
    ensures
        r == highest + 1,
{
    highest + 1
}

/// The line that reports a checkpoint.
pub open spec fn checkpoint_report(tool: Seq<char>, n: nat, trigger: Seq<char>, messages: nat, topics: nat) -> Seq<
    char,
> {
    tool + ": checkpoint "@ + archive_file_name(n) + " ("@ + trigger + " \u{2014} "@ + decimal(messages)
        + " messages, "@ + decimal(topics) + " topics)"@
}

/// The line printed once checkpoint `n` is written.
pub fn checkpoint_message(tool: &str, n: u32, trigger: &str, message_count: u32, topic_count: usize) -> (r:
    String)
    ensures
        r@ == checkpoint_report(tool@, n as nat, trigger@, message_count as nat, topic_count as nat),
{
    let mut r = String::from_str(tool);
    r.append(": checkpoint ");
    let file = conversation_file(n);
    r.append(file.as_str());
    r.append(" (");
    r.append(trigger);
    r.append(" \u{2014} ");
    let m = decimal_string(message_count as u64);
    r.append(m.as_str());
    r.append(" messages, ");
    let t = decimal_string(topic_count as u64);
    r.append(t.as_str());
    r.append(" topics)");
    r
}

/// The data a checkpoint records: what the transcript gave, or the fallback
/// when there was no hook input or no usable transcript.
pub fn checkpoint_data(extracted: Option<CheckpointData>) -> (d: CheckpointData)
    ensures
        extracted matches Some(x) ==> d == x,
        extracted is None ==> d.session_id@ == Seq::<char>::empty() && d.topics@.len() == 0
            && d.message_count == 0 && d.duration@ == Seq::<char>::empty() && d.md_body@ == NO_TRANSCRIPT_BODY@
            && d.tags_section@ == Seq::<char>::empty(),
{
    match extracted {
        Some(x) => x,
        None => empty_checkpoint(),
    }
}

/// The contents of a checkpoint file: the rendered frontmatter, a blank
/// line, the Markdown body, then the tags section.
pub fn checkpoint_content(frontmatter: &str, d: &CheckpointData) -> (r: String)
    ensures
        r@ == frontmatter@ + "\n\n"@ + d.md_body@ + d.tags_section@,
{
    let mut r = String::from_str(frontmatter);
    r.append("\n\n");
    r.append(d.md_body.as_str());
    r.append(d.tags_section.as_str());
    r
}

/// A copy of a list of strings.
fn copy_strings(v: &Vec<String>) -> (r: Vec<String>)
    ensures
        r@ == v@,
{
    let mut r: Vec<String> = Vec::new();
    let mut i: usize = 0;
    while i < v.len()
        invariant
            i <= v@.len(),
            r@ == v@.subrange(0, i as int),
        decreases v@.len() - i,
    {
        r.push(v[i].clone());
        proof {
            assert(r@ =~= v@.subrange(0, i + 1));
        }
        i = i + 1;
    }
    proof {
        assert(r@ =~= v@);
    }
    r
}

/// The frontmatter fields of a checkpoint file.
pub struct Frontmatter {
    pub log: u32,
    pub date: String,
    pub session_id: String,
    pub message_count: u32,
    pub duration: String,
    pub source: String,
    pub topics: Vec<String>,
}

/// The row added to the archive index.
pub struct IndexEntry {
    pub number: u32,
    pub date: String,
    pub session_id: String,
    pub topics: Vec<String>,
    pub message_count: u32,
    pub duration: String,
}

/// Where a checkpoint goes and what it records.
pub struct CheckpointTarget {
    /// The number of the new conversation.
    pub number: u32,
    /// The path of the conversation file.
    pub conversation_file: String,
    /// The frontmatter of the conversation file.
    pub frontmatter: Frontmatter,
    /// The path of the archive index.
    pub archive_index: String,
    /// The row added to the archive index.
    pub index_entry: IndexEntry,
    /// The line printed once it is written.
    pub message: String,
}

/// `t` is where checkpoint data `data` goes under `base` after conversation
/// `highest`, taken at time `now` on day `date` by `trigger`: the next
/// number, its file under `conversations/` with frontmatter (number, time,
/// session, message count, duration, trigger as source, topics), the
/// `ARCHIVE.md` index with its row (number, day, session, topics, message
/// count, duration), and the report line.
pub open spec fn target_for(
    t: CheckpointTarget,
    tool: Seq<char>,
    trigger: Seq<char>,
    base: Seq<char>,
    highest: nat,
    now: Seq<char>,
    date: Seq<char>,
    data: CheckpointData,
) -> bool {
    &&& t.number == highest + 1
    &&& t.conversation_file@ == joined(joined(base, "conversations"@), archive_file_name(t.number as nat))
    &&& t.frontmatter.log == t.number
    &&& t.frontmatter.date@ == now
    &&& t.frontmatter.session_id@ == data.session_id@
    &&& t.frontmatter.message_count == data.message_count
    &&& t.frontmatter.duration@ == data.duration@
    &&& t.frontmatter.source@ == trigger
    &&& t.frontmatter.topics@ == data.topics@
    &&& t.archive_index@ == joined(base, "ARCHIVE.md"@)
    &&& t.index_entry.number == t.number
    &&& t.index_entry.date@ == date
    &&& t.index_entry.session_id@ == data.session_id@
    &&& t.index_entry.topics@ == data.topics@
    &&& t.index_entry.message_count == data.message_count
    &&& t.index_entry.duration@ == data.duration@
    &&& t.message@ == checkpoint_report(tool, t.number as nat, trigger, data.message_count as nat, data.topics@.len())
}

/// Where checkpoint data goes under base directory `base`, and what the
/// conversation file and index row record: an error when the
/// `conversations/` directory is missing (`conversations_exist` is false);
/// otherwise the target after conversation `highest`.
pub fn run_with_paths(
    trigger: &str,
    base: &str,
    tool: &str,
    conversations_exist: bool,
    highest: u32,
    now: &str,
    date: &str,
    data: &CheckpointData,
) -> (r: Result<CheckpointTarget, String>)
    requires
        highest < u32::MAX,
    ensures
        !conversations_exist ==> (r matches Err(e) && e@ == missing_conversations_text(tool@)),
        conversations_exist ==> (r matches Ok(t) && target_for(
            t,
            tool@,
            trigger@,
            base@,
            highest as nat,
            now@,
            date@,
            *data,
        )),
{
    if !conversations_exist {
        return Err(missing_conversations_error(tool));
    }
    let number = next_conversation_number(highest);
    let conversations = join_path(base, "conversations");
    let name = conversation_file(number);
    let frontmatter = Frontmatter {
        log: number,
        date: String::from_str(now),
        session_id: data.session_id.clone(),
        message_count: data.message_count,
        duration: data.duration.clone(),
        source: String::from_str(trigger),
        topics: copy_strings(&data.topics),
    };
    let index_entry = IndexEntry {
        number,
        date: String::from_str(date),
        session_id: data.session_id.clone(),
        topics: copy_strings(&data.topics),
        message_count: data.message_count,
        duration: data.duration.clone(),
    };
    Ok(
        CheckpointTarget {
            number,
            conversation_file: join_path(conversations.as_str(), name.as_str()),
            frontmatter,
            archive_index: join_path(base, "ARCHIVE.md"),
            index_entry,
            message: checkpoint_message(tool, number, trigger, data.message_count, data.topics.len()),
        },
    )
}

/// Where checkpoint data goes, in the memory directory chosen by `base_dir`
/// from `env_override` (the tool's override variable) and the host
/// directory: that choice's error, or the outcome of `run_with_paths` there,
/// where `conversations_exist` tells whether that directory has a
/// `conversations/` directory.
pub fn run(
    trigger: &str,
    env_override: Option<String>,
    names: &Names,
    conversations_exist: bool,
    highest: u32,
    now: &str,
    date: &str,
    data: &CheckpointData,
) -> (r: Result<CheckpointTarget, String>)
    requires
        highest < u32::MAX,
    ensures
        env_override matches Some(p) ==> (!conversations_exist ==> (r matches Err(e) && e@
            == missing_conversations_text(names.tool@))) && (conversations_exist ==> (r matches Ok(t)
            && target_for(t, names.tool@, trigger@, p@, highest as nat, now@, date@, *data))),
        env_override is None ==> exists|home: Option<Seq<char>>|
            possible_home(home) && match #[trigger] base_dir_spec(None, home, names.host_dir@) {
                Ok(base) => (!conversations_exist ==> (r matches Err(e) && e@ == missing_conversations_text(
                    names.tool@,
                ))) && (conversations_exist ==> (r matches Ok(t) && target_for(
                    t,
                    names.tool@,
                    trigger@,
                    base,
                    highest as nat,
                    now@,
                    date@,
                    *data,
                ))),
                Err(e) => (r matches Err(msg) && msg@ == e),
            },
{
    let is_none = env_override.is_none();
    let dir = base_dir(env_override, names.host_dir.as_str());
    let ghost home = choose|home: Option<Seq<char>>|
        possible_home(home) && result_view(dir) == base_dir_spec(None, home, names.host_dir@);
    match dir {
        Ok(base) => {
            let r = run_with_paths(trigger, base.as_str(), names.tool.as_str(), conversations_exist, highest, now, date, data);
            proof {
                if is_none {
                    assert(base_dir_spec(None, home, names.host_dir@) == Ok::<Seq<char>, Seq<char>>(base@));
                }
            }
            r
        },
        Err(e) => {
            proof {
                if is_none {
                    assert(base_dir_spec(None, home, names.host_dir@) == Err::<Seq<char>, Seq<char>>(e@));
                }
            }
            Err(e)
        },
    }
}

/// Every checkpoint file is a conversation archive file: the search reads it.
pub proof fn lemma_checkpoint_files_are_searched(n: nat)
    ensures
        conversation_file_name(archive_file_name(n)),
{
    let p = "conversation-"@;
    let d = pad_left(decimal(n), 3, '0');
    let sfx = ".md"@;
    let s = p + d + sfx;
    assert(s.subrange(0, p.len() as int) =~= p);
    assert(s.subrange(s.len() - sfx.len(), s.len() as int) =~= sfx);
}

/// The digit characters are the ASCII codes 48 to 57.
proof fn lemma_digit_char_value(d: nat)
    requires
        d < 10,
    ensures
        digit_char(d) as u32 == 48 + d,
{
}

/// Below a thousand, the padded number is its three decimal digits.
proof fn lemma_padded3(n: nat)
    requires
        n < 1000,
    ensures
        pad_left(decimal(n), 3, '0') == seq![digit_char(n / 100), digit_char((n / 10) % 10), digit_char(n % 10)],
{
    if n < 10 {
        assert(pad_left(decimal(n), 3, '0') =~= seq!['0', '0', digit_char(n)]);
    } else if n < 100 {
        assert(decimal(n / 10) == seq![digit_char(n / 10)]);
        assert(decimal(n) =~= seq![digit_char(n / 10), digit_char(n % 10)]);
        assert(pad_left(decimal(n), 3, '0') =~= seq!['0', digit_char(n / 10), digit_char(n % 10)]);
    } else {
        let m = n / 10;
        assert(m / 10 == n / 100);
        assert(decimal(m / 10) == seq![digit_char(m / 10)]);
        assert(decimal(m) =~= seq![digit_char(n / 100), digit_char(m % 10)]);
        assert(decimal(n) =~= seq![digit_char(n / 100), digit_char(m % 10), digit_char(n % 10)]);
    }
}

/// Byte strings that agree before position `k` and differ there are ordered
/// by the bytes at `k`.
proof fn lemma_bytes_le_first_difference(a: Seq<u8>, b: Seq<u8>, k: int)
    requires
        0 <= k < a.len(),
        k < b.len(),
        forall|i: int| 0 <= i < k ==> a[i] == b[i],
        a[k] < b[k],
    ensures
        bytes_le(a, b),
    decreases k,
{
    if k > 0 {
        assert forall|i: int| 0 <= i < k - 1 implies a.drop_first()[i] == b.drop_first()[i] by {
            assert(a[i + 1] == b[i + 1]);
        }
        lemma_bytes_le_first_difference(a.drop_first(), b.drop_first(), k - 1);
    }
}

/// Archive files of conversations numbered below a thousand sort in numeric
/// order, so the search reads them oldest first.
pub proof fn lemma_archive_names_in_numeric_order(a: nat, b: nat)
    requires
        a < b < 1000,
    ensures
        bytes_le(encode_utf8(archive_file_name(a)), encode_utf8(archive_file_name(b))),
        archive_file_name(a) != archive_file_name(b),
{
    reveal_strlit("conversation-");
    reveal_strlit(".md");
    lemma_padded3(a);
    lemma_padded3(b);
    let p = "conversation-"@;
    let x = archive_file_name(a);
    let y = archive_file_name(b);
    assert(p.len() == 13);
    assert(x.len() == 19 && y.len() == 19);
    lemma_digit_char_value(a / 100);
    lemma_digit_char_value((a / 10) % 10);
    lemma_digit_char_value(a % 10);
    lemma_digit_char_value(b / 100);
    lemma_digit_char_value((b / 10) % 10);
    lemma_digit_char_value(b % 10);
    assert(is_ascii_chars(x));
    assert(is_ascii_chars(y));
    is_ascii_chars_encode_utf8(x);
    is_ascii_chars_encode_utf8(y);
    let k: int = if a / 100 < b / 100 {
        13
    } else if (a / 10) % 10 < (b / 10) % 10 {
        14
    } else {
        15
    };
    assert(a / 100 <= b / 100);
    assert(a / 100 == b / 100 ==> (a / 10) % 10 <= (b / 10) % 10);
    assert(a / 100 == b / 100 && (a / 10) % 10 == (b / 10) % 10 ==> a % 10 < b % 10);
    assert forall|i: int| 0 <= i < k implies encode_utf8(x)[i] == encode_utf8(y)[i] by {
        assert(x[i] == y[i]);
    }
    assert((x[k] as u32) < (y[k] as u32));
    lemma_bytes_le_first_difference(encode_utf8(x), encode_utf8(y), k);
    assert(x[k] != y[k]);
}

} // verus!
