//! Case-insensitive search across conversation archives: which lines match,
//! how a match is highlighted, which context lines surround it, which files
//! take part and in which order, and how the results are printed.
use vstd::prelude::*;
use vstd::utf8::*;
use vstd::string::StringSliceAdditionalSpecFns;
use crate::text::{
    ascii_lower,
    contains, decimal, decimal_string, ends_with, find, find_bytes, has_prefix, has_suffix,
    lemma_encode_utf8_concat, lemma_encode_utf8_injective, lemma_find_from_sound, lowercase, occurs_at, pad_left, right_aligned4, starts_with,
    str_contains, str_eq, to_lowercase,
};

verus! {

/// Terminal escape: bold.
pub const BOLD: &'static str = "\x1b[1m";
/// Terminal escape: dim.
pub const DIM: &'static str = "\x1b[2m";
/// Terminal escape: cyan.
pub const CYAN: &'static str = "\x1b[36m";
/// Terminal escape: yellow.
pub const YELLOW: &'static str = "\x1b[33m";
/// Terminal escape: reset all attributes.
pub const RESET: &'static str = "\x1b[0m";

// ---------------------------------------------------------------------------
// Highlighting
// ---------------------------------------------------------------------------

/// Bytes written before a highlighted match.
pub open spec fn mark_open() -> Seq<u8> {
    encode_utf8(YELLOW@) + encode_utf8(BOLD@)
}

/// Bytes written after a highlighted match.
pub open spec fn mark_close() -> Seq<u8> {
    encode_utf8(RESET@)
}

/// The remainder `line` of a line with its matches wrapped in `open` and
/// `close`, given the remainder `lower` of its lowercase form, the lowercase
/// query bytes `lq` and the byte length `qlen` of the query as typed.
///
/// The first occurrence of `lq` in `lower`, at byte `f`, marks the bytes
/// `line[f .. f + qlen]`; the scan goes on after byte `f + qlen` of both
/// remainders. `None` where the scan would slice `line` or `lower` off a
/// character boundary or past its end, or would never end (an empty query).
pub open spec fn marked_from(
    line: Seq<u8>,
    lower: Seq<u8>,
    lq: Seq<u8>,
    qlen: nat,
    open: Seq<u8>,
    close: Seq<u8>,
) -> Option<Seq<u8>>
    decreases lower.len(),
{
    match find(lower, lq) {
        None => Some(line),
        Some(f) => {
            proof {
                lemma_find_from_sound(lower, lq, 0);
            }
            let e = f + qlen;
            if 0 < qlen && e <= line.len() && e <= lower.len() && is_char_boundary(line, f)
                && is_char_boundary(line.subrange(f, line.len() as int), qlen as int)
                && is_char_boundary(lower, e) {
                match marked_from(
                    line.subrange(e, line.len() as int),
                    lower.subrange(e, lower.len() as int),
                    lq,
                    qlen,
                    open,
                    close,
                ) {
                    Some(rest) => Some(line.subrange(0, f) + open + line.subrange(f, e) + close + rest),
                    None => None,
                }
            } else {
                None
            }
        },
    }
}

/// Highlighting of the remainder `line` of a line: its matches wrapped in
/// yellow-bold / reset escapes (see `marked_from`).
pub open spec fn highlight_from(line: Seq<u8>, lower: Seq<u8>, lq: Seq<u8>, qlen: nat) -> Option<
    Seq<u8>,
> {
    marked_from(line, lower, lq, qlen, mark_open(), mark_close())
}

/// Highlighting only inserts the markers: where it is defined, the same scan
/// with empty markers gives back the line itself.
pub proof fn lemma_highlight_only_adds_markers(line: Seq<u8>, lower: Seq<u8>, lq: Seq<u8>, qlen: nat)
    requires
        highlight_from(line, lower, lq, qlen) is Some,
    ensures
        marked_from(line, lower, lq, qlen, Seq::empty(), Seq::empty()) == Some(line),
    decreases lower.len(),
{
    lemma_find_from_sound(lower, lq, 0);
    if let Some(f) = find(lower, lq) {
        let e = f + qlen;
        let l2 = line.subrange(e, line.len() as int);
        let w2 = lower.subrange(e, lower.len() as int);
        lemma_highlight_only_adds_markers(l2, w2, lq, qlen);
        assert(line.subrange(0, f) + Seq::<u8>::empty() + line.subrange(f, e) + Seq::<u8>::empty() + l2
            =~= line);
    }
}

/// The characters of `a` and of `b` begin at the same byte positions: the two
/// have the same length and continuation bytes at the same places.
pub open spec fn same_char_starts(a: Seq<u8>, b: Seq<u8>) -> bool {
    &&& a.len() == b.len()
    &&& forall|i: int| 0 <= i < a.len() ==> (is_continuation_byte(a[i]) <==> is_continuation_byte(b[i]))
}

/// From a character boundary inside valid UTF-8, the end of the character
/// that starts there is a boundary too.
proof fn lemma_boundary_advance(b: Seq<u8>, p: int)
    requires
        valid_utf8(b),
        is_char_boundary(b, p),
        0 <= p < b.len(),
    ensures
        valid_first_scalar(b.subrange(p, b.len() as int)),
        length_of_first_scalar(b.subrange(p, b.len() as int)) <= b.len() - p,
        is_char_boundary(b, p + length_of_first_scalar(b.subrange(p, b.len() as int))),
{
    valid_utf8_split(b, p);
    let s = b.subrange(p, b.len() as int);
    let w = length_of_first_scalar(s);
    assert(valid_first_scalar(s) && valid_utf8(pop_first_scalar(s)));
    assert(is_char_boundary(s, w)) by {
        reveal_with_fuel(is_char_boundary, 2);
    }
    if p + w < b.len() {
        is_char_boundary_iff_not_is_continuation_byte(s, w);
        assert(s[w] == b[p + w]);
        is_char_boundary_iff_not_is_continuation_byte(b, p + w);
    } else {
        is_char_boundary_start_end_of_seq(b);
    }
}

/// An occurrence of valid UTF-8 inside valid UTF-8 begins at a character
/// boundary.
proof fn lemma_occurrence_starts_at_boundary(b: Seq<u8>, q: Seq<u8>, f: int)
    requires
        valid_utf8(b),
        valid_utf8(q),
        q.len() > 0,
        occurs_at(b, q, f),
    ensures
        is_char_boundary(b, f),
{
    is_char_boundary_start_end_of_seq(q);
    is_char_boundary_iff_not_is_continuation_byte(q, 0);
    assert(b[f] == b.subrange(f, f + q.len())[0]);
    is_char_boundary_iff_not_is_continuation_byte(b, f);
}

/// An occurrence of valid UTF-8 that begins at a character boundary of valid
/// UTF-8 ends at one.
proof fn lemma_occurrence_ends_at_boundary(b: Seq<u8>, q: Seq<u8>, f: int)
    requires
        valid_utf8(b),
        valid_utf8(q),
        is_char_boundary(b, f),
        occurs_at(b, q, f),
    ensures
        is_char_boundary(b, f + q.len()),
    decreases q.len(),
{
    if q.len() > 0 {
        lemma_boundary_advance(b, f);
        let s = b.subrange(f, b.len() as int);
        assert(s[0] == b.subrange(f, f + q.len())[0]);
        let w = length_of_first_scalar(q);
        assert(length_of_first_scalar(s) == w);
        let q2 = pop_first_scalar(q);
        assert(b.subrange(f + w, f + w + q2.len()) =~= q2) by {
            assert forall|i: int| 0 <= i < q2.len() implies b.subrange(f + w, f + w + q2.len())[i] == q2[i] by {
                assert(b.subrange(f, f + q.len())[w + i] == q[w + i]);
            }
        }
        lemma_occurrence_ends_at_boundary(b, q2, f + w);
    }
}

/// A boundary of `a` is a boundary of `b` where their characters begin at the
/// same byte positions.
proof fn lemma_boundary_transfer(a: Seq<u8>, b: Seq<u8>, k: int)
    requires
        valid_utf8(a),
        valid_utf8(b),
        same_char_starts(a, b),
        is_char_boundary(a, k),
        0 <= k <= a.len(),
    ensures
        is_char_boundary(b, k),
{
    if k < a.len() {
        is_char_boundary_iff_not_is_continuation_byte(a, k);
        is_char_boundary_iff_not_is_continuation_byte(b, k);
    } else {
        is_char_boundary_start_end_of_seq(b);
    }
}

/// A boundary at or after a boundary `f` is a boundary of the text from `f`.
proof fn lemma_suffix_boundary(b: Seq<u8>, f: int, e: int)
    requires
        valid_utf8(b),
        is_char_boundary(b, f),
        is_char_boundary(b, e),
        0 <= f <= e <= b.len(),
    ensures
        valid_utf8(b.subrange(f, b.len() as int)),
        is_char_boundary(b.subrange(f, b.len() as int), e - f),
{
    valid_utf8_split(b, f);
    let s = b.subrange(f, b.len() as int);
    if e < b.len() {
        is_char_boundary_iff_not_is_continuation_byte(b, e);
        assert(s[e - f] == b[e]);
        is_char_boundary_iff_not_is_continuation_byte(s, e - f);
    } else {
        is_char_boundary_start_end_of_seq(s);
    }
}

/// Highlighting returns whenever the characters of the line and of its
/// lowercase form begin at the same byte positions, the lowercase query is
/// valid UTF-8, and lowercasing keeps the query's length `qlen` in bytes,
/// which is not zero.
pub proof fn lemma_highlight_from_defined(line: Seq<u8>, lower: Seq<u8>, lq: Seq<u8>, qlen: nat)
    requires
        valid_utf8(line),
        valid_utf8(lower),
        valid_utf8(lq),
        same_char_starts(lower, line),
        0 < qlen,
        qlen == lq.len(),
    ensures
        highlight_from(line, lower, lq, qlen) is Some,
    decreases lower.len(),
{
    lemma_find_from_sound(lower, lq, 0);
    if let Some(f) = find(lower, lq) {
        let e = f + qlen;
        lemma_occurrence_starts_at_boundary(lower, lq, f);
        lemma_occurrence_ends_at_boundary(lower, lq, f);
        lemma_boundary_transfer(lower, line, f);
        lemma_boundary_transfer(lower, line, e);
        lemma_suffix_boundary(line, f, e);
        is_char_boundary_start_end_of_seq(line);
        is_char_boundary_start_end_of_seq(lower);
        lemma_suffix_boundary(line, e, line.len() as int);
        lemma_suffix_boundary(lower, e, lower.len() as int);
        let l2 = line.subrange(e, line.len() as int);
        let w2 = lower.subrange(e, lower.len() as int);
        assert(same_char_starts(w2, l2)) by {
            assert forall|i: int| 0 <= i < w2.len() implies (is_continuation_byte(w2[i])
                <==> is_continuation_byte(l2[i])) by {
                assert(w2[i] == lower[e + i] && l2[i] == line[e + i]);
            }
        }
        lemma_highlight_from_defined(l2, w2, lq, qlen);
    }
}

/// Highlighting a line returns whenever the query is not empty, lowercasing
/// keeps the query's length in bytes, and the characters of the line and of
/// its lowercase form begin at the same byte positions (as they do where
/// lowercasing keeps the byte length of every character).
pub proof fn lemma_highlight_defined(line: Seq<char>, query: Seq<char>)
    requires
        query.len() > 0,
        encode_utf8(lowercase(query)).len() == encode_utf8(query).len(),
        same_char_starts(encode_utf8(lowercase(line)), encode_utf8(line)),
    ensures
        highlight_spec(line, query) is Some,
{
    encode_utf8_valid_utf8(line);
    encode_utf8_valid_utf8(lowercase(line));
    encode_utf8_valid_utf8(lowercase(query));
    assert(encode_utf8(query).len() > 0) by {
        reveal_with_fuel(encode_utf8, 1);
    }
    lemma_highlight_from_defined(
        encode_utf8(line),
        encode_utf8(lowercase(line)),
        encode_utf8(lowercase(query)),
        encode_utf8(query).len(),
    );
}

/// Highlighting a line returns whenever the line, the query and their
/// lowercase forms are ASCII, lowercasing keeps their lengths, and the query
/// is not empty.
pub proof fn lemma_highlight_defined_when_ascii(line: Seq<char>, query: Seq<char>)
    requires
        is_ascii_chars(line),
        is_ascii_chars(lowercase(line)),
        lowercase(line).len() == line.len(),
        is_ascii_chars(query),
        is_ascii_chars(lowercase(query)),
        lowercase(query).len() == query.len(),
        query.len() > 0,
    ensures
        highlight_spec(line, query) is Some,
{
    is_ascii_chars_encode_utf8(line);
    is_ascii_chars_encode_utf8(lowercase(line));
    is_ascii_chars_encode_utf8(query);
    is_ascii_chars_encode_utf8(lowercase(query));
    let lb = encode_utf8(line);
    let wb = encode_utf8(lowercase(line));
    assert forall|i: int| 0 <= i < wb.len() implies (is_continuation_byte(wb[i]) <==> is_continuation_byte(lb[i])) by {
        assert(line[i] as u8 == lb[i]);
        assert(lowercase(line)[i] as u8 == wb[i]);
    }
    lemma_highlight_defined(line, query);
}

/// The UTF-8 bytes of `line` with every case-insensitive occurrence of
/// `query` wrapped in yellow-bold / reset escapes; `None` where highlighting
/// does not return normally.
pub open spec fn highlight_spec(line: Seq<char>, query: Seq<char>) -> Option<Seq<u8>> {
    highlight_from(
        encode_utf8(line),
        encode_utf8(lowercase(line)),
        encode_utf8(lowercase(query)),
        encode_utf8(query).len(),
    )
}

/// The bytes of the output after one highlighted piece is appended.
proof fn lemma_marked_piece(out: Seq<char>, before: Seq<char>, m: Seq<char>)
    ensures
        encode_utf8(out + before + YELLOW@ + BOLD@ + m + RESET@) == encode_utf8(out) + encode_utf8(
            before,
        ) + mark_open() + encode_utf8(m) + mark_close(),
{
    lemma_encode_utf8_concat(out, before);
    lemma_encode_utf8_concat(out + before, YELLOW@);
    lemma_encode_utf8_concat(out + before + YELLOW@, BOLD@);
    lemma_encode_utf8_concat(out + before + YELLOW@ + BOLD@, m);
    lemma_encode_utf8_concat(out + before + YELLOW@ + BOLD@ + m, RESET@);
    assert(encode_utf8(out) + encode_utf8(before) + encode_utf8(YELLOW@) + encode_utf8(BOLD@)
        + encode_utf8(m) + encode_utf8(RESET@) =~= encode_utf8(out) + encode_utf8(before)
        + mark_open() + encode_utf8(m) + mark_close());
}

/// Highlighting of `line` given its lowercase form `lower_line`, the
/// lowercase query `lower_query` and the query's length in bytes
/// `query_len`, with every slice checked before it is taken; `None` where
/// highlighting would not return normally.
pub fn highlight_lowered(line: &str, lower_line: &str, lower_query: &str, query_len: usize) -> (r: Option<
    String,
>)
    ensures
        match r {
            Some(s) => highlight_from(
                line.spec_bytes(),
                lower_line.spec_bytes(),
                lower_query.spec_bytes(),
                query_len as nat,
            ) == Some(encode_utf8(s@)),
            None => highlight_from(
                line.spec_bytes(),
                lower_line.spec_bytes(),
                lower_query.spec_bytes(),
                query_len as nat,
            ) is None,
        },
{
    let lq: &[u8] = lower_query.as_bytes();
    let n: usize = query_len;
    let ghost total = highlight_from(line.spec_bytes(), lower_line.spec_bytes(), lq@, n as nat);
    let mut rest: &str = line;
    let mut lrest: &str = lower_line;
    let mut out = String::new();
    proof {
        assert(encode_utf8(out@) =~= Seq::<u8>::empty());
        if let Some(t) = total {
            assert(encode_utf8(out@) + t =~= t);
        }
    }
    loop
        invariant
            lq@ == lower_query.spec_bytes(),
            n == query_len,
            total == highlight_from(line.spec_bytes(), lower_line.spec_bytes(), lq@, n as nat),
            match highlight_from(rest.spec_bytes(), lrest.spec_bytes(), lq@, n as nat) {
                Some(t) => total == Some(encode_utf8(out@) + t),
                None => total is None,
            },
        decreases lrest.spec_bytes().len(),
    {
        let ghost rb = rest.spec_bytes();
        let ghost lb = lrest.spec_bytes();
        proof {
            encode_utf8_valid_utf8(rest@);
            encode_utf8_valid_utf8(lrest@);
        }
        let lbytes: &[u8] = lrest.as_bytes();
        let rbytes: &[u8] = rest.as_bytes();
        let ll = lbytes.len();
        let rl = rbytes.len();
        match find_bytes(lbytes, lq) {
            None => {
                let ghost old_out = out@;
                out.append(rest);
                proof {
                    lemma_encode_utf8_concat(old_out, rest@);
                }
                return Some(out);
            },
            Some(f) => {
                proof {
                    lemma_find_from_sound(lb, lq@, 0);
                }
                if n == 0 || n > ll - f {
                    return None;
                }
                let e = f + n;
                if e > rl {
                    return None;
                }
                if !rest.is_char_boundary(f) {
                    return None;
                }
                let (before, after) = rest.split_at(f);
                if !after.is_char_boundary(n) {
                    assert(after.spec_bytes() =~= rb.subrange(f as int, rb.len() as int));
                    return None;
                }
                if !lrest.is_char_boundary(e) {
                    assert(after.spec_bytes() =~= rb.subrange(f as int, rb.len() as int));
                    return None;
                }
                let (m, after2) = after.split_at(n);
                let (_skipped, lafter) = lrest.split_at(e);
                let ghost old_out = out@;
                out.append(before);
                out.append(YELLOW);
                out.append(BOLD);
                out.append(m);
                out.append(RESET);
                proof {
                    assert(after.spec_bytes() =~= rb.subrange(f as int, rb.len() as int));
                    assert(m.spec_bytes() =~= rb.subrange(f as int, e as int));
                    assert(after2.spec_bytes() =~= rb.subrange(e as int, rb.len() as int));
                    assert(lafter.spec_bytes() =~= lb.subrange(e as int, lb.len() as int));
                    lemma_marked_piece(old_out, before@, m@);
                    let ghost hr = highlight_from(after2.spec_bytes(), lafter.spec_bytes(), lq@, n as nat);
                    if let Some(t) = hr {
                        assert(encode_utf8(out@) + t =~= encode_utf8(old_out) + (rb.subrange(0, f as int)
                            + mark_open() + rb.subrange(f as int, e as int) + mark_close() + t));
                    }
                }
                rest = after2;
                lrest = lafter;
            },
        }
    }
}

/// The lowercase form of ASCII text is ASCII text of the same length.
proof fn lemma_ascii_lowercase(s: Seq<char>, lower: Seq<char>)
    requires
        is_ascii_chars(s),
        lower == s.map_values(|c: char| ascii_lower(c)),
    ensures
        is_ascii_chars(lower),
        lower.len() == s.len(),
{
    assert forall|i: int| 0 <= i < lower.len() implies '\0' <= #[trigger] lower[i] <= '\u{7f}' by {
        assert('\0' <= s[i] <= '\u{7f}');
        if 'A' <= s[i] <= 'Z' {
            assert(((s[i] as u32) + 32) as char == lower[i]);
        }
    }
}

/// Lowercases the line and the query, then highlights. On ASCII text with a
/// query that is not empty highlighting always returns.
fn highlight_scan(line: &str, query: &str) -> (r: Option<String>)
    ensures
        match r {
            Some(s) => highlight_spec(line@, query@) == Some(encode_utf8(s@)),
            None => highlight_spec(line@, query@) is None,
        },
        is_ascii_chars(line@) && is_ascii_chars(query@) && query@.len() > 0 ==> r is Some,
{
    let lower_line = to_lowercase(line);
    let lower_query = to_lowercase(query);
    proof {
        if is_ascii_chars(line@) && is_ascii_chars(query@) && query@.len() > 0 {
            lemma_ascii_lowercase(line@, lower_line@);
            lemma_ascii_lowercase(query@, lower_query@);
            lemma_highlight_defined_when_ascii(line@, query@);
        }
    }
    highlight_lowered(line, lower_line.as_str(), lower_query.as_str(), query.as_bytes().len())
}

/// `line` with each case-insensitive occurrence of `query` highlighted in
/// yellow bold, for a line on which highlighting returns normally.
pub fn highlight_match(line: &str, query: &str) -> (r: String)
    requires
        highlight_spec(line@, query@) is Some,
    ensures
        Some(encode_utf8(r@)) == highlight_spec(line@, query@),
{
    match highlight_scan(line, query) {
        Some(s) => s,
        None => {
            assert(false);
            String::new()
        },
    }
}

/// Highlighting of `line`, or `None` on the lines where it does not return
/// normally (a query whose matches cannot be sliced out of the line at
/// character boundaries, or an empty query with a match).
pub fn try_highlight_match(line: &str, query: &str) -> (r: Option<String>)
    ensures
        match r {
            Some(s) => highlight_spec(line@, query@) == Some(encode_utf8(s@)),
            None => highlight_spec(line@, query@) is None,
        },
        is_ascii_chars(line@) && is_ascii_chars(query@) && query@.len() > 0 ==> r is Some,
{
    if highlight_scan(line, query).is_some() {
        Some(highlight_match(line, query))
    } else {
        None
    }
}

// ---------------------------------------------------------------------------
// Matching lines and their context
// ---------------------------------------------------------------------------

/// One line of search output.
pub struct SearchResult {
    pub file: String,
    pub line_num: usize,
    pub line: String,
}

/// A search result as plain values: file name, line number, UTF-8 bytes of
/// the printed line.
pub type Entry = (Seq<char>, int, Seq<u8>);

/// The plain values of a search result.
pub open spec fn entry_of(r: SearchResult) -> Entry {
    (r.file@, r.line_num as int, encode_utf8(r.line@))
}

/// The plain values of a sequence of search results.
pub open spec fn entries(v: Seq<SearchResult>) -> Seq<Entry> {
    v.map_values(|r: SearchResult| entry_of(r))
}

/// A line matches when its lowercase form contains the lowercase query.
pub open spec fn line_matches(line: Seq<char>, query: Seq<char>) -> bool {
    contains(lowercase(line), lowercase(query))
}

/// Line `k` (counted from zero) shown dimmed as context.
pub open spec fn context_entry(file: Seq<char>, lines: Seq<String>, k: int) -> Entry {
    (file, k + 1, encode_utf8(DIM@ + lines[k]@ + RESET@))
}

/// Lines `from .. to` shown dimmed as context.
pub open spec fn context_range(file: Seq<char>, lines: Seq<String>, from: int, to: int) -> Seq<
    Entry,
> {
    Seq::new((to - from) as nat, |j: int| context_entry(file, lines, from + j))
}

/// First line of the context shown before line `i`.
pub open spec fn context_start(i: int, c: nat) -> int {
    if i >= c { i - c } else { 0 }
}

/// End (exclusive) of the context shown after line `i`.
pub open spec fn context_end(i: int, c: nat, len: int) -> int {
    if i + c + 1 <= len { i + c + 1 } else { len }
}

/// The output for line `i`: nothing when it does not match; otherwise up to
/// `c` lines of context before it, the line itself highlighted, and up to `c`
/// lines of context after it. `None` where highlighting would not return, or
/// where the end of the context, `i + c + 1`, overflows a `usize`.
pub open spec fn line_entries(file: Seq<char>, lines: Seq<String>, i: int, query: Seq<char>, c: nat) -> Option<
    Seq<Entry>,
> {
    if !line_matches(lines[i]@, query) {
        Some(Seq::empty())
    } else {
        match highlight_spec(lines[i]@, query) {
            None => None,
            Some(_) if i + c + 1 > usize::MAX => None,
            Some(h) => Some(
                context_range(file, lines, context_start(i, c), i) + seq![(file, i + 1, h)]
                    + context_range(file, lines, i + 1, context_end(i, c, lines.len() as int)),
            ),
        }
    }
}

/// The output for the first `n` lines of a file, in line order.
pub open spec fn file_entries(file: Seq<char>, lines: Seq<String>, query: Seq<char>, c: nat, n: int) -> Option<
    Seq<Entry>,
>
    decreases n,
{
    if n <= 0 {
        Some(Seq::empty())
    } else {
        match (file_entries(file, lines, query, c, n - 1), line_entries(file, lines, n - 1, query, c)) {
            (Some(a), Some(b)) => Some(a + b),
            _ => None,
        }
    }
}

/// Appending a result appends its plain values.
proof fn lemma_entries_push(v: Seq<SearchResult>, r: SearchResult)
    ensures
        entries(v.push(r)) == entries(v).push(entry_of(r)),
{
    assert(entries(v.push(r)) =~= entries(v).push(entry_of(r)));
}

/// `DIM + line + RESET`, a context line as printed.
fn dim_line(line: &String) -> (r: String)
    ensures
        r@ == DIM@ + line@ + RESET@,
{
    let mut r = String::from_str(DIM);
    r.append(line.as_str());
    r.append(RESET);
    r
}

/// Pushes context lines `from .. to` of `lines` onto `out`.
fn push_context(file: &String, lines: &Vec<String>, from: usize, to: usize, out: &mut Vec<SearchResult>)
    requires
        from <= to <= lines@.len(),
    ensures
        entries(final(out)@) == entries(old(out)@) + context_range(file@, lines@, from as int, to as int),
{
    let mut k = from;
    while k < to
        invariant
            from <= k <= to <= lines@.len(),
            entries(out@) == entries(old(out)@) + context_range(file@, lines@, from as int, k as int),
        decreases to - k,
    {
        let ghost before = out@;
        let r = SearchResult { file: file.clone(), line_num: k + 1, line: dim_line(&lines[k]) };
        out.push(r);
        proof {
            lemma_entries_push(before, r);
            assert(context_range(file@, lines@, from as int, k + 1) =~= context_range(
                file@,
                lines@,
                from as int,
                k as int,
            ).push(context_entry(file@, lines@, k as int)));
            assert(entries(out@) =~= entries(old(out)@) + context_range(file@, lines@, from as int, k + 1));
        }
        k = k + 1;
    }
}

/// The query is ASCII text that is not empty, and so is every line.
pub open spec fn ascii_search(query: Seq<char>, lines: Seq<String>) -> bool {
    &&& is_ascii_chars(query)
    &&& query.len() > 0
    &&& forall|i: int| 0 <= i < lines.len() ==> is_ascii_chars(#[trigger] lines[i]@)
}

/// The search output for one file: every matching line with its context,
/// in line order; `None` where the output of some matching line is undefined
/// (see `line_entries`).
pub fn search_lines(query: &str, file: &String, lines: &Vec<String>, context_lines: usize) -> (r: Option<
    Vec<SearchResult>,
>)
    ensures
        match r {
            Some(v) => file_entries(file@, lines@, query@, context_lines as nat, lines@.len() as int)
                == Some(entries(v@)),
            None => file_entries(file@, lines@, query@, context_lines as nat, lines@.len() as int) is None,
        },
        ascii_search(query@, lines@) && lines@.len() + context_lines <= usize::MAX ==> r is Some,
{
    let query_lower = to_lowercase(query);
    let len = lines.len();
    let mut out: Vec<SearchResult> = Vec::new();
    let mut i: usize = 0;
    while i < len
        invariant
            i <= len == lines@.len(),
            query_lower@ == lowercase(query@),
            file_entries(file@, lines@, query@, context_lines as nat, i as int) == Some(entries(out@)),
        decreases len - i,
    {
        let line_lower = to_lowercase(lines[i].as_str());
        if str_contains(line_lower.as_str(), query_lower.as_str()) {
            match try_highlight_match(lines[i].as_str(), query) {
                None => {
                    proof {
                        lemma_file_entries_none(file@, lines@, query@, context_lines as nat, i as int + 1, len as int);
                    }
                    return None;
                },
                Some(highlighted) => {
                    if context_lines > usize::MAX - 1 - i {
                        proof {
                            lemma_file_entries_none(file@, lines@, query@, context_lines as nat, i as int + 1, len as int);
                        }
                        return None;
                    }
                    let ghost before = out@;
                    let start = if i >= context_lines { i - context_lines } else { 0 };
                    let end = if i + context_lines + 1 < len { i + context_lines + 1 } else { len };
                    push_context(file, lines, start, i, &mut out);
                    let ghost mid = out@;
                    let r = SearchResult { file: file.clone(), line_num: i + 1, line: highlighted };
                    out.push(r);
                    proof {
                        lemma_entries_push(mid, r);
                    }
                    push_context(file, lines, i + 1, end, &mut out);
                    proof {
                        assert(entries(out@) =~= entries(before) + (context_range(file@, lines@, start as int, i as int)
                            + seq![(file@, i + 1, encode_utf8(r.line@))] + context_range(file@, lines@, i + 1, end as int)));
                    }
                },
            }
        } else {
            proof {
                assert(entries(out@) + Seq::<Entry>::empty() =~= entries(out@));
            }
        }
        i = i + 1;
    }
    Some(out)
}

/// Once the output of some prefix of lines is undefined, so is the output of
/// every longer prefix.
proof fn lemma_file_entries_none(file: Seq<char>, lines: Seq<String>, query: Seq<char>, c: nat, n: int, m: int)
    requires
        n <= m,
        file_entries(file, lines, query, c, n) is None,
    ensures
        file_entries(file, lines, query, c, m) is None,
    decreases m - n,
{
    if n < m {
        lemma_file_entries_none(file, lines, query, c, n, m - 1);
    }
}

/// The output of a matching line: the `min(i, c)` lines before it, dimmed
/// and numbered `i - min(i, c) + 1 ..= i` (the context is clipped at the
/// start of the file); the line itself, numbered `i + 1` and highlighted; then
/// the `min(c, len - 1 - i)` lines after it, dimmed (clipped at the end).
pub proof fn lemma_matching_line_output(file: Seq<char>, lines: Seq<String>, i: int, query: Seq<char>, c: nat)
    requires
        0 <= i < lines.len(),
        line_matches(lines[i]@, query),
        line_entries(file, lines, i, query, c) is Some,
    ensures
        ({
            let es = line_entries(file, lines, i, query, c)->0;
            let before = if i < c { i } else { c as int };
            let after = if i + c < lines.len() { c as int } else { lines.len() - 1 - i };
            &&& es.len() == before + 1 + after
            &&& forall|k: int|
                0 <= k < before ==> #[trigger] es[k] == (file, i - before + k + 1, encode_utf8(
                    DIM@ + lines[i - before + k]@ + RESET@,
                ))
            &&& es[before].0 == file
            &&& es[before].1 == i + 1
            &&& highlight_spec(lines[i]@, query) == Some(es[before].2)
            &&& forall|k: int|
                0 <= k < after ==> #[trigger] es[before + 1 + k] == (file, i + 2 + k, encode_utf8(
                    DIM@ + lines[i + 1 + k]@ + RESET@,
                ))
        }),
{
    let es = line_entries(file, lines, i, query, c)->0;
    let before = if i < c { i } else { c as int };
    let pre = context_range(file, lines, context_start(i, c), i);
    let h = highlight_spec(lines[i]@, query)->0;
    let post = context_range(file, lines, i + 1, context_end(i, c, lines.len() as int));
    assert(es == pre + seq![(file, i + 1, h)] + post);
    assert(pre.len() == before);
    assert forall|k: int| 0 <= k < before implies #[trigger] es[k] == (file, i - before + k + 1, encode_utf8(
        DIM@ + lines[i - before + k]@ + RESET@,
    )) by {
        assert(es[k] == pre[k]);
    }
    let after = if i + c < lines.len() { c as int } else { lines.len() - 1 - i };
    assert(post.len() == after);
    assert forall|k: int| 0 <= k < after implies #[trigger] es[before + 1 + k] == (file, i + 2 + k, encode_utf8(
        DIM@ + lines[i + 1 + k]@ + RESET@,
    )) by {
        assert(es[before + 1 + k] == post[k]);
    }
}

/// Lines that do not match give no output.
proof fn lemma_unmatched_prefix(file: Seq<char>, lines: Seq<String>, query: Seq<char>, c: nat, n: int)
    requires
        0 <= n <= lines.len(),
        forall|j: int| 0 <= j < n ==> !line_matches(#[trigger] lines[j]@, query),
    ensures
        file_entries(file, lines, query, c, n) == Some(Seq::<Entry>::empty()),
    decreases n,
{
    if n > 0 {
        lemma_unmatched_prefix(file, lines, query, c, n - 1);
        assert(!line_matches(lines[n - 1]@, query));
        assert(Seq::<Entry>::empty() + Seq::<Entry>::empty() =~= Seq::<Entry>::empty());
    }
}

/// The output of the first lines of a file is a prefix of the output of
/// more lines.
proof fn lemma_file_entries_prefix(
    file: Seq<char>,
    lines: Seq<String>,
    query: Seq<char>,
    c: nat,
    m: int,
    n: int,
    out: Seq<Entry>,
)
    requires
        0 <= m <= n,
        file_entries(file, lines, query, c, n) == Some(out),
    ensures
        file_entries(file, lines, query, c, m) matches Some(p) && p.len() <= out.len() && p == out.subrange(
            0,
            p.len() as int,
        ),
    decreases n - m,
{
    if m < n {
        let a = file_entries(file, lines, query, c, n - 1)->0;
        lemma_file_entries_prefix(file, lines, query, c, m, n - 1, a);
        let p = file_entries(file, lines, query, c, m)->0;
        assert(out.subrange(0, p.len() as int) =~= a.subrange(0, p.len() as int));
    } else {
        assert(out.subrange(0, out.len() as int) =~= out);
    }
}

/// The search output of a file begins at its first matching line `i`: with
/// the `min(i, c)` lines before it, dimmed and numbered
/// `i - min(i, c) + 1 ..= i` (context before a match near the start of the
/// file is clipped, not dropped), then the line itself, numbered `i + 1`.
pub proof fn lemma_first_match_output(
    file: Seq<char>,
    lines: Seq<String>,
    query: Seq<char>,
    c: nat,
    i: int,
    out: Seq<Entry>,
)
    requires
        0 <= i < lines.len(),
        line_matches(lines[i]@, query),
        forall|j: int| 0 <= j < i ==> !line_matches(#[trigger] lines[j]@, query),
        file_entries(file, lines, query, c, lines.len() as int) == Some(out),
    ensures
        ({
            let before = if i < c { i } else { c as int };
            &&& out.len() > before
            &&& forall|k: int|
                0 <= k < before ==> #[trigger] out[k] == (file, i - before + k + 1, encode_utf8(
                    DIM@ + lines[i - before + k]@ + RESET@,
                ))
            &&& out[before].1 == i + 1
            &&& highlight_spec(lines[i]@, query) == Some(out[before].2)
        }),
{
    lemma_file_entries_prefix(file, lines, query, c, i + 1, lines.len() as int, out);
    lemma_unmatched_prefix(file, lines, query, c, i);
    let p = file_entries(file, lines, query, c, i + 1)->0;
    let es = line_entries(file, lines, i, query, c)->0;
    assert(p == Seq::<Entry>::empty() + es);
    lemma_matching_line_output(file, lines, i, query, c);
    let before = if i < c { i } else { c as int };
    assert forall|k: int| 0 <= k <= before implies out[k] == es[k] by {
        assert(out[k] == out.subrange(0, p.len() as int)[k]);
    }
    assert forall|k: int| 0 <= k < before implies #[trigger] out[k] == (file, i - before + k + 1, encode_utf8(
        DIM@ + lines[i - before + k]@ + RESET@,
    )) by {
        assert(out[k] == es[k]);
    }
}

/// A line that does not match is highlighted as itself.
pub proof fn lemma_unmatched_line_is_unchanged(line: Seq<char>, query: Seq<char>)
    requires
        !line_matches(line, query),
    ensures
        highlight_spec(line, query) == Some(encode_utf8(line)),
{
}

/// Search is case-insensitive: two queries with the same lowercase form and
/// the same length in bytes give the same results on every file.
pub proof fn lemma_search_case_insensitive(
    file: Seq<char>,
    lines: Seq<String>,
    q1: Seq<char>,
    q2: Seq<char>,
    c: nat,
    n: int,
)
    requires
        lowercase(q1) == lowercase(q2),
        encode_utf8(q1).len() == encode_utf8(q2).len(),
    ensures
        file_entries(file, lines, q1, c, n) == file_entries(file, lines, q2, c, n),
    decreases n,
{
    if n > 0 {
        lemma_search_case_insensitive(file, lines, q1, q2, c, n - 1);
        assert(line_entries(file, lines, n - 1, q1, c) == line_entries(file, lines, n - 1, q2, c));
    }
}

// ---------------------------------------------------------------------------
// Searching several files
// ---------------------------------------------------------------------------

/// A conversation archive file: its name and its lines.
pub struct ConversationFile {
    pub name: String,
    pub lines: Vec<String>,
}

/// The output for the first `n` files, in the given order.
pub open spec fn files_entries(files: Seq<ConversationFile>, query: Seq<char>, c: nat, n: int) -> Option<
    Seq<Entry>,
>
    decreases n,
{
    if n <= 0 {
        Some(Seq::empty())
    } else {
        let f = files[n - 1];
        match (
            files_entries(files, query, c, n - 1),
            file_entries(f.name@, f.lines@, query, c, f.lines@.len() as int),
        ) {
            (Some(a), Some(b)) => Some(a + b),
            _ => None,
        }
    }
}

/// Once the output of some prefix of files is undefined, so is the output of
/// every longer prefix.
proof fn lemma_files_entries_none(files: Seq<ConversationFile>, query: Seq<char>, c: nat, n: int, m: int)
    requires
        n <= m,
        files_entries(files, query, c, n) is None,
    ensures
        files_entries(files, query, c, m) is None,
    decreases m - n,
{
    if n < m {
        lemma_files_entries_none(files, query, c, n, m - 1);
    }
}

/// Search results over all files, file by file in the given order; `None`
/// where the output of some matching line is undefined (see `line_entries`).
pub fn search_conversations(query: &str, files: &Vec<ConversationFile>, context_lines: usize) -> (r:
    Option<Vec<SearchResult>>)
    ensures
        match r {
            Some(v) => files_entries(files@, query@, context_lines as nat, files@.len() as int)
                == Some(entries(v@)),
            None => files_entries(files@, query@, context_lines as nat, files@.len() as int) is None,
        },
        (forall|k: int| 0 <= k < files@.len() ==> ascii_search(query@, (#[trigger] files@[k]).lines@)
            && files@[k].lines@.len() + context_lines <= usize::MAX) ==> r is Some,
{
    let mut out: Vec<SearchResult> = Vec::new();
    let mut i: usize = 0;
    while i < files.len()
        invariant
            i <= files@.len(),
            files_entries(files@, query@, context_lines as nat, i as int) == Some(entries(out@)),
        decreases files@.len() - i,
    {
        let f = &files[i];
        match search_lines(query, &f.name, &f.lines, context_lines) {
            None => {
                proof {
                    lemma_files_entries_none(files@, query@, context_lines as nat, i as int + 1, files@.len() as int);
                }
                return None;
            },
            Some(mut found) => {
                let ghost before = out@;
                let ghost got = found@;
                out.append(&mut found);
                proof {
                    assert(entries(out@) =~= entries(before) + entries(got));
                }
            },
        }
        i = i + 1;
    }
    Some(out)
}

// ---------------------------------------------------------------------------
// Which files are searched, and in which order
// ---------------------------------------------------------------------------

/// The archive file names: `conversation-*.md`.
pub open spec fn conversation_file_name(name: Seq<char>) -> bool {
    has_prefix(name, "conversation-"@) && has_suffix(name, ".md"@)
}

/// Whether a directory entry name is a conversation archive file.
pub fn is_conversation_file(name: &str) -> (r: bool)
    ensures
        r == conversation_file_name(name@),
{
    starts_with(name, "conversation-") && ends_with(name, ".md")
}

/// Lexicographic order of byte strings (the order of `[u8]` and of file
/// names on Unix).
pub open spec fn bytes_le(a: Seq<u8>, b: Seq<u8>) -> bool
    decreases a.len(),
{
    if a.len() == 0 {
        true
    } else if b.len() == 0 {
        false
    } else if a[0] < b[0] {
        true
    } else if a[0] > b[0] {
        false
    } else {
        bytes_le(a.drop_first(), b.drop_first())
    }
}

/// Names ordered by their UTF-8 bytes.
pub open spec fn name_le(a: String, b: String) -> bool {
    bytes_le(encode_utf8(a@), encode_utf8(b@))
}

/// Names in ascending byte order.
pub open spec fn sorted_names(s: Seq<String>) -> bool {
    forall|i: int, j: int| 0 <= i < j < s.len() ==> name_le(#[trigger] s[i], #[trigger] s[j])
}

/// Any two byte strings are ordered one way or the other.
pub proof fn lemma_bytes_le_total(a: Seq<u8>, b: Seq<u8>)
    ensures
        bytes_le(a, b) || bytes_le(b, a),
    decreases a.len(),
{
    if a.len() > 0 && b.len() > 0 && a[0] == b[0] {
        lemma_bytes_le_total(a.drop_first(), b.drop_first());
    }
}

/// The byte order is transitive.
pub proof fn lemma_bytes_le_transitive(a: Seq<u8>, b: Seq<u8>, c: Seq<u8>)
    requires
        bytes_le(a, b),
        bytes_le(b, c),
    ensures
        bytes_le(a, c),
    decreases a.len(),
{
    if a.len() > 0 && b.len() > 0 && c.len() > 0 && a[0] == b[0] && b[0] == c[0] {
        lemma_bytes_le_transitive(a.drop_first(), b.drop_first(), c.drop_first());
    }
}

/// Byte strings ordered both ways are equal.
pub proof fn lemma_bytes_le_antisymmetric(a: Seq<u8>, b: Seq<u8>)
    requires
        bytes_le(a, b),
        bytes_le(b, a),
    ensures
        a == b,
    decreases a.len(),
{
    if a.len() > 0 && b.len() > 0 {
        lemma_bytes_le_antisymmetric(a.drop_first(), b.drop_first());
        assert(a =~= seq![a[0]] + a.drop_first());
        assert(b =~= seq![b[0]] + b.drop_first());
    }
}

/// `a <= b` in byte order.
fn bytes_le_exec(a: &[u8], b: &[u8]) -> (r: bool)
    ensures
        r == bytes_le(a@, b@),
{
    let n = a.len();
    let m = b.len();
    let mut i: usize = 0;
    proof {
        assert(a@.skip(0) =~= a@);
        assert(b@.skip(0) =~= b@);
    }
    while i < n && i < m
        invariant
            n == a@.len(),
            m == b@.len(),
            i <= n,
            i <= m,
            bytes_le(a@, b@) == bytes_le(a@.skip(i as int), b@.skip(i as int)),
        decreases n - i,
    {
        proof {
            assert(a@.skip(i as int).drop_first() =~= a@.skip(i + 1));
            assert(b@.skip(i as int).drop_first() =~= b@.skip(i + 1));
        }
        if a[i] < b[i] {
            return true;
        }
        if a[i] > b[i] {
            return false;
        }
        i = i + 1;
    }
    i == n
}

/// The UTF-8 encodings of a list of names.
pub open spec fn encodings(s: Seq<String>) -> Seq<Seq<u8>> {
    s.map_values(|x: String| encode_utf8(x@))
}

/// Byte strings in ascending order.
pub open spec fn sorted_bytes(s: Seq<Seq<u8>>) -> bool {
    forall|i: int, j: int| 0 <= i < j < s.len() ==> bytes_le(#[trigger] s[i], #[trigger] s[j])
}

/// Two ascending arrangements of the same byte strings are the same.
pub proof fn lemma_sorted_unique(a: Seq<Seq<u8>>, b: Seq<Seq<u8>>)
    requires
        sorted_bytes(a),
        sorted_bytes(b),
        a.to_multiset() == b.to_multiset(),
    ensures
        a == b,
    decreases a.len(),
{
    broadcast use vstd::multiset::group_multiset_axioms;

    vstd::seq_lib::to_multiset_len(a);
    vstd::seq_lib::to_multiset_len(b);
    if a.len() == 0 {
        assert(a =~= b);
    } else {
        vstd::seq_lib::to_multiset_contains(b, a[0]);
        vstd::seq_lib::to_multiset_contains(a, a[0]);
        vstd::seq_lib::to_multiset_contains(a, b[0]);
        vstd::seq_lib::to_multiset_contains(b, b[0]);
        assert(a.contains(a[0]));
        assert(b.contains(b[0]));
        let j = choose|j: int| 0 <= j < b.len() && b[j] == a[0];
        let k = choose|k: int| 0 <= k < a.len() && a[k] == b[0];
        if j > 0 {
            assert(bytes_le(b[0], b[j]));
        }
        if k > 0 {
            assert(bytes_le(a[0], a[k]));
        }
        lemma_bytes_le_reflexive(a[0]);
        lemma_bytes_le_antisymmetric(a[0], b[0]);
        vstd::seq_lib::to_multiset_remove(a, 0);
        vstd::seq_lib::to_multiset_remove(b, 0);
        assert(a.remove(0) =~= a.drop_first());
        assert(b.remove(0) =~= b.drop_first());
        lemma_sorted_unique(a.drop_first(), b.drop_first());
        assert(a =~= seq![a[0]] + a.drop_first());
        assert(b =~= seq![b[0]] + b.drop_first());
    }
}

/// Every byte string is ordered before itself.
pub proof fn lemma_bytes_le_reflexive(a: Seq<u8>)
    ensures
        bytes_le(a, a),
    decreases a.len(),
{
    if a.len() > 0 {
        lemma_bytes_le_reflexive(a.drop_first());
    }
}

/// Whether a name is that of a conversation archive file.
pub open spec fn is_conversation_name() -> spec_fn(String) -> bool {
    |x: String| conversation_file_name(x@)
}

/// The conversation archive files among a directory's names, in ascending
/// byte order: the files the search reads, in the order it reads them.
pub fn select_conversation_files(names: Vec<String>) -> (r: Vec<String>)
    ensures
        sorted_names(r@),
        r@.to_multiset() == names@.filter(is_conversation_name()).to_multiset(),
        encodings(r@).to_multiset() == encodings(names@.filter(is_conversation_name())).to_multiset(),
{
    let mut kept: Vec<String> = Vec::new();
    let mut i: usize = 0;
    proof {
        assert(names@.subrange(0, 0) =~= Seq::<String>::empty());
        reveal_with_fuel(Seq::<_>::filter, 1);
    }
    while i < names.len()
        invariant
            i <= names.len(),
            kept@ == names@.subrange(0, i as int).filter(is_conversation_name()),
        decreases names.len() - i,
    {
        let ghost before = names@.subrange(0, i as int);
        proof {
            assert(names@.subrange(0, i + 1) =~= before.push(names@[i as int]));
            before.lemma_filter_push(names@[i as int], is_conversation_name());
        }
        if is_conversation_file(names[i].as_str()) {
            kept.push(names[i].clone());
        }
        i = i + 1;
    }
    proof {
        assert(names@.subrange(0, names.len() as int) =~= names@);
    }
    sort_names(kept)
}

/// Names that are not conversation archive files are ignored: adding one
/// anywhere in a directory listing leaves the files the search reads, and
/// their order, as they were.
pub proof fn lemma_other_files_are_ignored(
    names: Seq<String>,
    k: int,
    x: String,
    r1: Seq<String>,
    r2: Seq<String>,
)
    requires
        0 <= k <= names.len(),
        !conversation_file_name(x@),
        sorted_names(r1),
        encodings(r1).to_multiset() == encodings(names.filter(is_conversation_name())).to_multiset(),
        sorted_names(r2),
        encodings(r2).to_multiset() == encodings(names.insert(k, x).filter(is_conversation_name())).to_multiset(),
    ensures
        encodings(r1) == encodings(r2),
        r1.len() == r2.len(),
        forall|i: int| 0 <= i < r1.len() ==> (#[trigger] r1[i])@ == r2[i]@,
{
    let p = is_conversation_name();
    let pre = names.subrange(0, k);
    let suf = names.subrange(k, names.len() as int);
    assert(names =~= pre + suf);
    assert(names.insert(k, x) =~= pre + (seq![x] + suf));
    Seq::filter_distributes_over_add(pre, suf, p);
    Seq::filter_distributes_over_add(pre, seq![x] + suf, p);
    Seq::filter_distributes_over_add(seq![x], suf, p);
    assert(seq![x].filter(p) =~= Seq::<String>::empty()) by {
        reveal_with_fuel(Seq::<_>::filter, 2);
    }
    assert(names.insert(k, x).filter(p) =~= names.filter(p));
    assert(sorted_bytes(encodings(r1)));
    assert(sorted_bytes(encodings(r2)));
    lemma_sorted_unique(encodings(r1), encodings(r2));
    assert forall|i: int| 0 <= i < r1.len() implies (#[trigger] r1[i])@ == r2[i]@ by {
        assert(encodings(r1)[i] == encodings(r2)[i]);
        lemma_encode_utf8_injective(r1[i]@, r2[i]@);
    }
}

/// The names in ascending byte order (the order in which the archive files
/// are read).
pub fn sort_names(names: Vec<String>) -> (r: Vec<String>)
    ensures
        sorted_names(r@),
        r@.to_multiset() == names@.to_multiset(),
        encodings(r@).to_multiset() == encodings(names@).to_multiset(),
{
    let mut rest = names;
    let mut out: Vec<String> = Vec::new();
    proof {
        broadcast use vstd::multiset::group_multiset_axioms, vstd::seq_lib::to_multiset_len,
            vstd::multiset::lemma_multiset_empty_len;

        vstd::seq_lib::to_multiset_len(out@);
        vstd::multiset::lemma_multiset_empty_len(out@.to_multiset());
        assert(out@.to_multiset() == vstd::multiset::Multiset::<String>::empty());
        assert(out@.to_multiset().add(rest@.to_multiset()) =~= names@.to_multiset());
        vstd::seq_lib::to_multiset_len(encodings(out@));
        vstd::multiset::lemma_multiset_empty_len(encodings(out@).to_multiset());
        assert(encodings(out@).to_multiset().add(encodings(rest@).to_multiset()) =~= encodings(
            names@,
        ).to_multiset());
    }
    while rest.len() > 0
        invariant
            sorted_names(out@),
            out@.to_multiset().add(rest@.to_multiset()) == names@.to_multiset(),
            encodings(out@).to_multiset().add(encodings(rest@).to_multiset()) == encodings(
                names@,
            ).to_multiset(),
        decreases rest@.len(),
    {
        let ghost old_rest = rest@;
        let ghost old_out = out@;
        let x = rest.pop().unwrap();
        proof {
            assert(old_rest =~= rest@.push(x));
            vstd::seq_lib::to_multiset_build(rest@, x);
            assert(encodings(old_rest) =~= encodings(rest@).push(encode_utf8(x@)));
            vstd::seq_lib::to_multiset_build(encodings(rest@), encode_utf8(x@));
        }
        let xb = x.as_str().as_bytes();
        let mut p: usize = 0;
        while p < out.len()
            invariant
                p <= out@.len(),
                out@ == old_out,
                xb@ == encode_utf8(x@),
                forall|k: int| 0 <= k < p ==> name_le(#[trigger] out@[k], x),
            ensures
                p <= out@.len(),
                out@ == old_out,
                forall|k: int| 0 <= k < p ==> name_le(#[trigger] out@[k], x),
                p < out@.len() ==> !name_le(out@[p as int], x),
            decreases out@.len() - p,
        {
            if !bytes_le_exec(out[p].as_str().as_bytes(), xb) {
                break;
            }
            p = p + 1;
        }
        proof {
            if p < out@.len() {
                assert(!name_le(out@[p as int], x));
                lemma_bytes_le_total(encode_utf8(out@[p as int]@), encode_utf8(x@));
            }
            assert forall|k: int| p <= k < out@.len() implies name_le(x, #[trigger] out@[k]) by {
                if k > p {
                    assert(name_le(out@[p as int], out@[k]));
                    lemma_bytes_le_transitive(encode_utf8(x@), encode_utf8(out@[p as int]@), encode_utf8(out@[k]@));
                }
            }
            vstd::seq_lib::to_multiset_insert(old_out, p as int, x);
            vstd::seq_lib::to_multiset_insert(encodings(old_out), p as int, encode_utf8(x@));
        }
        out.insert(p, x);
        proof {
            broadcast use vstd::multiset::group_multiset_axioms;

            assert(out@.to_multiset().add(rest@.to_multiset()) =~= old_out.to_multiset().add(
                old_rest.to_multiset(),
            ));
            assert(encodings(out@) =~= encodings(old_out).insert(p as int, encode_utf8(x@)));
            assert(encodings(out@).to_multiset().add(encodings(rest@).to_multiset()) =~= encodings(
                old_out,
            ).to_multiset().add(encodings(old_rest).to_multiset()));
            let s = out@;
            assert forall|i: int, j: int| 0 <= i < j < s.len() implies name_le(#[trigger] s[i], #[trigger] s[j]) by {
                if j < p {
                    assert(s[i] == old_out[i]);
                    assert(s[j] == old_out[j]);
                } else if i < p && j == p {
                } else if i < p && j > p {
                    assert(s[i] == old_out[i]);
                    assert(s[j] == old_out[j - 1]);
                } else if i == p {
                    assert(s[j] == old_out[j - 1]);
                } else {
                    assert(s[i] == old_out[i - 1]);
                    assert(s[j] == old_out[j - 1]);
                }
            }
        }
    }
    proof {
        broadcast use vstd::multiset::group_multiset_axioms;

        assert(rest@ =~= Seq::<String>::empty());
        assert(encodings(rest@) =~= Seq::<Seq<u8>>::empty());
        vstd::seq_lib::to_multiset_len(encodings(rest@));
        vstd::multiset::lemma_multiset_empty_len(encodings(rest@).to_multiset());
        vstd::seq_lib::to_multiset_len(rest@);
        vstd::multiset::lemma_multiset_empty_len(rest@.to_multiset());
        assert(out@.to_multiset() =~= out@.to_multiset().add(rest@.to_multiset()));
        assert(encodings(out@).to_multiset() =~= encodings(out@).to_multiset().add(
            encodings(rest@).to_multiset(),
        ));
    }
    out
}

// ---------------------------------------------------------------------------
// Printing
// ---------------------------------------------------------------------------

/// The line printed when nothing matched.
pub open spec fn no_match_line(query: Seq<char>) -> Seq<char> {
    "No matches found for \""@ + query + "\""@
}

/// The summary line printed above the results.
pub open spec fn header_line(n: nat) -> Seq<char> {
    BOLD@ + decimal(n) + " match"@ + (if n == 1 { ""@ } else { "es"@ }) + " across conversation archives"@
        + RESET@ + "\n"@
}

/// The line that introduces the results of a file.
pub open spec fn file_line(file: Seq<char>) -> Seq<char> {
    CYAN@ + file + RESET@
}

/// The line that shows one result: its number right-aligned in four columns.
pub open spec fn result_line(r: SearchResult) -> Seq<char> {
    "  "@ + DIM@ + pad_left(decimal(r.line_num as nat), 4, ' ') + RESET@ + "  "@ + r.line@
}

/// The file whose results were printed last, after the first `k` results.
pub open spec fn current_file(results: Seq<SearchResult>, k: int) -> Seq<char> {
    if k <= 0 { ""@ } else { results[k - 1].file@ }
}

/// The lines printed for the first `k` results: a file line whenever the file
/// changes, then the result line.
pub open spec fn result_lines(results: Seq<SearchResult>, k: int) -> Seq<Seq<char>>
    decreases k,
{
    if k <= 0 {
        Seq::empty()
    } else {
        let r = results[k - 1];
        result_lines(results, k - 1) + (if r.file@ != current_file(results, k - 1) {
            seq![file_line(r.file@)]
        } else {
            Seq::empty()
        }) + seq![result_line(r)]
    }
}

/// Everything the search command prints, line by line.
pub open spec fn rendered(query: Seq<char>, results: Seq<SearchResult>) -> Seq<Seq<char>> {
    if results.len() == 0 {
        seq![no_match_line(query)]
    } else {
        seq![header_line(results.len())] + result_lines(results, results.len() as int)
    }
}

/// The lines the search command prints for `results` (each followed by a
/// newline when printed).
pub fn render_results(query: &str, results: &Vec<SearchResult>) -> (r: Vec<String>)
    ensures
        r@.map_values(|s: String| s@) == rendered(query@, results@),
{
    let mut out: Vec<String> = Vec::new();
    if results.len() == 0 {
        let mut l = String::from_str("No matches found for \"");
        l.append(query);
        l.append("\"");
        out.push(l);
        proof {
            assert(out@.map_values(|s: String| s@) =~= rendered(query@, results@));
        }
        return out;
    }
    let mut h = String::from_str(BOLD);
    let count = decimal_string(results.len() as u64);
    h.append(count.as_str());
    h.append(" match");
    if results.len() != 1 {
        h.append("es");
    }
    proof {
        reveal_strlit("");
        if results.len() == 1 {
            assert(h@ =~= h@ + ""@);
        }
    }
    h.append(" across conversation archives");
    h.append(RESET);
    h.append("\n");
    out.push(h);
    let mut current = String::new();
    let mut k: usize = 0;
    proof {
        reveal_strlit("");
        assert(out@.map_values(|s: String| s@) =~= seq![header_line(results@.len())] + result_lines(
            results@,
            0,
        ));
    }
    while k < results.len()
        invariant
            k <= results@.len(),
            results@.len() > 0,
            current@ == current_file(results@, k as int),
            out@.map_values(|s: String| s@) == seq![header_line(results@.len())] + result_lines(
                results@,
                k as int,
            ),
        decreases results@.len() - k,
    {
        let r = &results[k];
        let ghost before = out@;
        let changed = !str_eq(r.file.as_str(), current.as_str());
        if changed {
            let mut fl = String::from_str(CYAN);
            fl.append(r.file.as_str());
            fl.append(RESET);
            out.push(fl);
            current = r.file.clone();
        }
        let ghost mid = out@;
        proof {
            if changed {
                assert(mid.map_values(|s: String| s@) =~= before.map_values(|s: String| s@).push(
                    file_line(r.file@),
                ));
            } else {
                assert(mid.map_values(|s: String| s@) =~= before.map_values(|s: String| s@));
            }
        }
        let mut l = String::from_str("  ");
        l.append(DIM);
        let num = right_aligned4(r.line_num as u64);
        l.append(num.as_str());
        l.append(RESET);
        l.append("  ");
        l.append(r.line.as_str());
        out.push(l);
        proof {
            assert(l@ == result_line(results@[k as int]));
            assert(out@.map_values(|s: String| s@) =~= mid.map_values(|s: String| s@).push(l@));
            assert(out@.map_values(|s: String| s@) =~= seq![header_line(results@.len())] + result_lines(
                results@,
                k + 1,
            ));
        }
        k = k + 1;
    }
    proof {
        assert(out@.map_values(|s: String| s@) =~= rendered(query@, results@));
    }
    out
}

} // verus!
