//! Resumable reading of a line-oriented JSON log into typed events.
use vstd::prelude::*;
use vstd::string::StringExecFns;
use vstd::utf8::valid_utf8;
use crate::bytes::{lemma_pieces_nonempty, pieces, split_at_byte};
use crate::calendar::{EpochTime, normalize, timestamp_value};
use crate::json::{Json, json_parse, json_text, member, member_str, str_or};
use crate::records::{content_text, extract_content, tool_input_preview, tool_preview};
use crate::text::{bytes_of, preview, preview_of, text_eq, text_of, trim, trimmed, utf8_text};

verus! {

/// What an event says, apart from where its log lies.
pub struct EventView {
    pub timestamp: (int, Seq<u8>),
    pub message_type: Seq<char>,
    pub preview: Seq<char>,
}

/// One classified, preview-bounded entry of the log.
pub struct TranscriptEvent {
    /// Zero when the record has no readable timestamp.
    pub timestamp: EpochTime,
    pub session_id: String,
    pub message_type: String,
    pub content_preview: String,
    pub project_path: String,
}

impl TranscriptEvent {
    pub open spec fn view(&self) -> EventView {
        EventView {
            timestamp: self.timestamp.view(),
            message_type: self.message_type@,
            preview: self.content_preview@,
        }
    }
}

/// Why a log could not be read.
pub enum ReadError {
    /// A line is not well-formed UTF-8.
    InvalidUtf8,
}

/// The final component of a path without its extension.
pub uninterp spec fn file_stem_of(path: Seq<char>) -> Seq<char>;

/// The path without its final component.
pub uninterp spec fn parent_of(path: Seq<char>) -> Seq<char>;

/// Relies on std::path::Path::file_stem: the file name without its
/// extension, empty where the path has no file name.
#[verifier::external_body]
fn path_file_stem(path: &str) -> (r: String)
    ensures
        r@ == file_stem_of(path@),
{
    std::path::Path::new(path).file_stem().and_then(|s| s.to_str()).unwrap_or("").to_string()
}

/// Relies on std::path::Path::parent: the path without its final
/// component, empty where there is none.
#[verifier::external_body]
fn path_parent(path: &str) -> (r: String)
    ensures
        r@ == parent_of(path@),
{
    std::path::Path::new(path).parent().and_then(|p| p.to_str()).unwrap_or("").to_string()
}

/// The time of a record: its `timestamp` read as ISO-8601, else zero.
pub open spec fn record_time(rec: Json) -> (int, Seq<u8>) {
    match timestamp_value(bytes_of(str_or(member(Some(rec), "timestamp"@), ""@))) {
        Some(t) => t,
        None => (0, Seq::empty()),
    }
}

/// The event of one content block of an assistant message.
pub open spec fn block_events(b: Json, ts: (int, Seq<u8>), n: int) -> Seq<EventView> {
    let kind = str_or(member(Some(b), "type"@), ""@);
    let name = str_or(member(Some(b), "name"@), ""@);
    if kind == "text"@ {
        seq![
            EventView {
                timestamp: ts,
                message_type: "assistant_text"@,
                preview: preview_of(str_or(member(Some(b), "text"@), ""@), n),
            },
        ]
    } else if kind == "tool_use"@ {
        seq![
            EventView {
                timestamp: ts,
                message_type: "tool_use:"@ + name,
                preview: preview_of(tool_preview(name, member(Some(b), "input"@)), n),
            },
        ]
    } else {
        Seq::empty()
    }
}

/// The events of the content blocks, in order.
pub open spec fn blocks_events(bs: Seq<Json>, ts: (int, Seq<u8>), n: int) -> Seq<EventView>
    decreases bs.len(),
{
    if bs.len() == 0 {
        Seq::empty()
    } else {
        blocks_events(bs.drop_last(), ts, n) + block_events(bs.last(), ts, n)
    }
}

/// A tool's output as text: a string as it is, another value as JSON,
/// nothing as empty.
pub open spec fn output_text(v: Option<Json>) -> Seq<char> {
    match v {
        Some(Json::Str(s)) => s@,
        Some(x) => json_text(x),
        None => Seq::empty(),
    }
}

/// The events of one record, by its `type`: a non-blank user message, the
/// text and tool-use blocks of an assistant message, a tool result of a
/// progress record; nothing for any other shape.
pub open spec fn record_events(rec: Json, n: int) -> Seq<EventView> {
    let ts = record_time(rec);
    let kind = str_or(member(Some(rec), "type"@), ""@);
    let msg = member(Some(rec), "message"@);
    let data = member(Some(rec), "data"@);
    if kind == "user"@ {
        let c = content_text(msg);
        if trimmed(c).len() == 0 {
            Seq::empty()
        } else {
            seq![EventView { timestamp: ts, message_type: "user"@, preview: preview_of(c, n) }]
        }
    } else if kind == "assistant"@ {
        match member(msg, "content"@) {
            Some(Json::Array(bs)) => blocks_events(bs@, ts, n),
            _ => Seq::empty(),
        }
    } else if kind == "progress"@ && str_or(member(data, "type"@), ""@) == "tool_result"@ {
        seq![
            EventView {
                timestamp: ts,
                message_type: "tool_result:"@ + str_or(member(data, "tool_name"@), ""@),
                preview: preview_of(output_text(member(data, "output"@)), n),
            },
        ]
    } else {
        Seq::empty()
    }
}

/// The events of one line of text: none when it is blank or not JSON.
pub open spec fn line_events(text: Seq<char>, n: int) -> Seq<EventView> {
    if trimmed(text).len() == 0 {
        Seq::empty()
    } else {
        match json_parse(trimmed(text)) {
            Some(rec) => record_events(rec, n),
            None => Seq::empty(),
        }
    }
}

/// The events of the lines in order; `None` when one of them is not UTF-8.
pub open spec fn lines_events(lines: Seq<Seq<u8>>, n: int) -> Option<Seq<EventView>>
    decreases lines.len(),
{
    if lines.len() == 0 {
        Some(Seq::empty())
    } else {
        match lines_events(lines.drop_last(), n) {
            Some(evs) => if valid_utf8(lines.last()) {
                Some(evs + line_events(text_of(lines.last()), n))
            } else {
                None
            },
            None => None,
        }
    }
}

/// The events of a stretch of the log, line by line.
pub open spec fn transcript_events(data: Seq<u8>, n: int) -> Option<Seq<EventView>> {
    lines_events(pieces(data, 10u8), n)
}

/// The events in `v` say `evs`, each placed in `session` and `project`.
pub open spec fn events_match(
    v: Seq<TranscriptEvent>,
    evs: Seq<EventView>,
    session: Seq<char>,
    project: Seq<char>,
) -> bool {
    &&& v.len() == evs.len()
    &&& forall|i: int|
        0 <= i < v.len() ==> {
            &&& #[trigger] v[i].view() == evs[i]
            &&& v[i].session_id@ == session
            &&& v[i].project_path@ == project
        }
}

fn copy_time(t: &EpochTime) -> (r: EpochTime)
    ensures
        r.view() == t.view(),
{
    EpochTime { seconds: t.seconds, fraction: t.fraction.clone() }
}

fn push_event(
    out: &mut Vec<TranscriptEvent>,
    Ghost(prior): Ghost<Seq<EventView>>,
    ts: &EpochTime,
    message_type: String,
    content_preview: String,
    session: &String,
    project: &String,
)
    requires
        events_match(old(out)@, prior, session@, project@),
    ensures
        events_match(
            final(out)@,
            prior.push(
                EventView {
                    timestamp: ts.view(),
                    message_type: message_type@,
                    preview: content_preview@,
                },
            ),
            session@,
            project@,
        ),
{
    out.push(
        TranscriptEvent {
            timestamp: copy_time(ts),
            session_id: session.clone(),
            message_type,
            content_preview,
            project_path: project.clone(),
        },
    );
}

fn record_time_exec(rec: &Json) -> (r: EpochTime)
    ensures
        r.view() == record_time(*rec),
{
    let ts = member_str(Some(rec), "timestamp", "");
    match normalize(ts) {
        Some(t) => t,
        None => EpochTime::zero(),
    }
}

fn append_block(
    out: &mut Vec<TranscriptEvent>,
    Ghost(prior): Ghost<Seq<EventView>>,
    b: &Json,
    ts: &EpochTime,
    preview_len: usize,
    session: &String,
    project: &String,
)
    requires
        events_match(old(out)@, prior, session@, project@),
    ensures
        events_match(
            final(out)@,
            prior + block_events(*b, ts.view(), preview_len as int),
            session@,
            project@,
        ),
{
    let kind = member_str(Some(b), "type", "");
    if text_eq(kind, "text") {
        let text = member_str(Some(b), "text", "");
        push_event(
            out,
            Ghost(prior),
            ts,
            "assistant_text".to_string(),
            preview(text, preview_len),
            session,
            project,
        );
        assert(prior.push(out@.last().view()) =~= prior + block_events(
            *b,
            ts.view(),
            preview_len as int,
        ));
    } else if text_eq(kind, "tool_use") {
        let name = member_str(Some(b), "name", "");
        let shown = tool_input_preview(name, b.get("input"));
        let mut message_type = String::from_str("tool_use:");
        message_type.append(name);
        push_event(
            out,
            Ghost(prior),
            ts,
            message_type,
            preview(shown.as_str(), preview_len),
            session,
            project,
        );
        assert(prior.push(out@.last().view()) =~= prior + block_events(
            *b,
            ts.view(),
            preview_len as int,
        ));
    } else {
        assert(prior + block_events(*b, ts.view(), preview_len as int) =~= prior);
    }
}

fn append_record(
    out: &mut Vec<TranscriptEvent>,
    Ghost(prior): Ghost<Seq<EventView>>,
    rec: &Json,
    preview_len: usize,
    session: &String,
    project: &String,
)
    requires
        events_match(old(out)@, prior, session@, project@),
    ensures
        events_match(
            final(out)@,
            prior + record_events(*rec, preview_len as int),
            session@,
            project@,
        ),
{
    let ts = record_time_exec(rec);
    let kind = member_str(Some(rec), "type", "");
    let msg = rec.get("message");
    let ghost evs = record_events(*rec, preview_len as int);
    if text_eq(kind, "user") {
        let content = extract_content(msg);
        if trim(content.as_str()).is_empty() {
            assert(prior + evs =~= prior);
            return;
        }
        push_event(
            out,
            Ghost(prior),
            &ts,
            "user".to_string(),
            preview(content.as_str(), preview_len),
            session,
            project,
        );
        assert(prior.push(out@.last().view()) =~= prior + evs);
    } else if text_eq(kind, "assistant") {
        let content = match msg {
            Some(m) => m.get("content"),
            None => None,
        };
        match content {
            Some(Json::Array(bs)) => {
                let mut i: usize = 0;
                assert(prior + blocks_events(bs@.subrange(0, 0), ts.view(), preview_len as int)
                    =~= prior);
                while i < bs.len()
                    invariant
                        i <= bs@.len(),
                        events_match(
                            out@,
                            prior + blocks_events(
                                bs@.subrange(0, i as int),
                                ts.view(),
                                preview_len as int,
                            ),
                            session@,
                            project@,
                        ),
                    decreases bs.len() - i,
                {
                    assert(bs@.subrange(0, i + 1).drop_last() =~= bs@.subrange(0, i as int));
                    let ghost before = prior + blocks_events(
                        bs@.subrange(0, i as int),
                        ts.view(),
                        preview_len as int,
                    );
                    append_block(out, Ghost(before), &bs[i], &ts, preview_len, session, project);
                    assert(before + block_events(bs@[i as int], ts.view(), preview_len as int)
                        =~= prior + blocks_events(
                        bs@.subrange(0, i + 1),
                        ts.view(),
                        preview_len as int,
                    ));
                    i = i + 1;
                }
                assert(bs@.subrange(0, i as int) =~= bs@);
            },
            _ => {
                assert(prior + evs =~= prior);
            },
        }
    } else if text_eq(kind, "progress") {
        let data = rec.get("data");
        if text_eq(member_str(data, "type", ""), "tool_result") {
            let output = match data {
                Some(d) => match d.get("output") {
                    Some(v) => match v.as_str() {
                        Some(s) => s.to_string(),
                        None => v.to_text(),
                    },
                    None => String::new(),
                },
                None => String::new(),
            };
            let mut message_type = String::from_str("tool_result:");
            message_type.append(member_str(data, "tool_name", ""));
            push_event(
                out,
                Ghost(prior),
                &ts,
                message_type,
                preview(output.as_str(), preview_len),
                session,
                project,
            );
            assert(prior.push(out@.last().view()) =~= prior + evs);
        } else {
            assert(prior + evs =~= prior);
        }
    } else {
        assert(prior + evs =~= prior);
    }
}

/// The events of one parsed record, placed in `session` and `project`.
pub fn events_of_record(rec: &Json, preview_len: usize, session: &String, project: &String) -> (r:
    Vec<TranscriptEvent>)
    ensures
        events_match(r@, record_events(*rec, preview_len as int), session@, project@),
{
    let mut out: Vec<TranscriptEvent> = Vec::new();
    append_record(&mut out, Ghost(Seq::empty()), rec, preview_len, session, project);
    assert(Seq::<EventView>::empty() + record_events(*rec, preview_len as int) =~= record_events(
        *rec,
        preview_len as int,
    ));
    out
}

proof fn lemma_lines_none_prefix(lines: Seq<Seq<u8>>, k: int, n: int)
    requires
        0 <= k <= lines.len(),
        lines_events(lines.subrange(0, k), n) is None,
    ensures
        lines_events(lines, n) is None,
    decreases lines.len() - k,
{
    if k < lines.len() {
        assert(lines.subrange(0, k + 1).drop_last() =~= lines.subrange(0, k));
        lemma_lines_none_prefix(lines, k + 1, n);
    } else {
        assert(lines.subrange(0, k) =~= lines);
    }
}

/// Reads the log from a byte offset: `data` holds its bytes from
/// `since_offset` to the end. Yields the events of its lines in order and
/// the offset just past the last byte read, from which a later call goes
/// on; fails when a line is not UTF-8.
pub fn parse_transcript(path: &str, since_offset: u64, preview_len: usize, data: &[u8]) -> (r:
    Result<(Vec<TranscriptEvent>, u64), ReadError>)
    requires
        since_offset + data@.len() <= u64::MAX,
    ensures
        match r {
            Ok((events, offset)) => {
                &&& transcript_events(data@, preview_len as int) matches Some(evs)
                &&& events_match(events@, evs, file_stem_of(path@), parent_of(path@))
                &&& offset == since_offset + data@.len()
            },
            Err(ReadError::InvalidUtf8) => transcript_events(data@, preview_len as int) is None,
        },
{
    let session = path_file_stem(path);
    let project = path_parent(path);
    let lines = split_at_byte(data, 10u8);
    let ghost all = pieces(data@, 10u8);
    let ghost mut acc: Seq<EventView> = Seq::empty();
    let mut out: Vec<TranscriptEvent> = Vec::new();
    let mut k: usize = 0;
    while k < lines.len()
        invariant
            k <= lines@.len(),
            lines@.len() == all.len(),
            all == pieces(data@, 10u8),
            forall|j: int| 0 <= j < lines@.len() ==> #[trigger] lines@[j]@ == all[j],
            lines_events(all.subrange(0, k as int), preview_len as int) == Some(acc),
            events_match(out@, acc, session@, project@),
        decreases lines.len() - k,
    {
        assert(all.subrange(0, k + 1).drop_last() =~= all.subrange(0, k as int));
        let line = lines[k].as_slice();
        let text = match utf8_text(line) {
            Some(t) => t,
            None => {
                proof {
                    lemma_lines_none_prefix(all, k + 1, preview_len as int);
                }
                return Err(ReadError::InvalidUtf8);
            },
        };
        proof {
            vstd::utf8::encode_utf8_decode_utf8(text@);
        }
        let ghost before = acc;
        let t = trim(text);
        if !t.is_empty() {
            match Json::parse(t) {
                Some(rec) => {
                    append_record(&mut out, Ghost(before), &rec, preview_len, &session, &project);
                },
                None => {
                    assert(before + line_events(text@, preview_len as int) =~= before);
                },
            }
        } else {
            assert(before + line_events(text@, preview_len as int) =~= before);
        }
        proof {
            acc = before + line_events(text@, preview_len as int);
        }
        k = k + 1;
    }
    assert(all.subrange(0, k as int) =~= all);
    Ok((out, since_offset + data.len() as u64))
}

/// Both event lists one after the other; `None` when either is `None`.
pub open spec fn join_events(x: Option<Seq<EventView>>, y: Option<Seq<EventView>>) -> Option<
    Seq<EventView>,
> {
    match (x, y) {
        (Some(a), Some(b)) => Some(a + b),
        _ => None,
    }
}

proof fn lemma_lines_concat(xs: Seq<Seq<u8>>, ys: Seq<Seq<u8>>, n: int)
    ensures
        lines_events(xs + ys, n) == join_events(lines_events(xs, n), lines_events(ys, n)),
    decreases ys.len(),
{
    if ys.len() == 0 {
        assert(xs + ys =~= xs);
        if let Some(a) = lines_events(xs, n) {
            assert(a + Seq::<EventView>::empty() =~= a);
        }
    } else {
        assert((xs + ys).drop_last() =~= xs + ys.drop_last());
        lemma_lines_concat(xs, ys.drop_last(), n);
        let l = ys.last();
        if let (Some(a), Some(b)) = (lines_events(xs, n), lines_events(ys.drop_last(), n)) {
            if valid_utf8(l) {
                assert(a + b + line_events(text_of(l), n) =~= a + (b + line_events(
                    text_of(l),
                    n,
                )));
            }
        }
    }
}

proof fn lemma_pieces_after_break(a: Seq<u8>, b: Seq<u8>)
    requires
        a.len() == 0 || a.last() == 10u8,
    ensures
        pieces(a + b, 10u8) == pieces(a, 10u8).drop_last() + pieces(b, 10u8),
        pieces(a, 10u8).last() == Seq::<u8>::empty(),
    decreases b.len(),
{
    if a.len() > 0 {
        lemma_pieces_nonempty(a.drop_last(), 10u8);
    }
    if b.len() == 0 {
        assert(a + b =~= a);
        assert(pieces(a, 10u8) =~= pieces(a, 10u8).drop_last() + pieces(b, 10u8));
    } else {
        assert((a + b).drop_last() =~= a + b.drop_last());
        lemma_pieces_after_break(a, b.drop_last());
        lemma_pieces_nonempty(b.drop_last(), 10u8);
        let p = pieces(a, 10u8).drop_last();
        let q = pieces(b.drop_last(), 10u8);
        if b.last() == 10u8 {
            assert((p + q).push(Seq::empty()) =~= p + q.push(Seq::empty()));
        } else {
            assert((p + q).update((p + q).len() - 1, (p + q).last().push(b.last())) =~= p
                + q.update(q.len() - 1, q.last().push(b.last())));
        }
    }
}

proof fn lemma_single_line(line: Seq<u8>, n: int)
    ensures
        lines_events(seq![line], n) == (if valid_utf8(line) {
            Some(line_events(text_of(line), n))
        } else {
            None
        }),
{
    assert(seq![line].drop_last() =~= Seq::<Seq<u8>>::empty());
    assert(lines_events(Seq::<Seq<u8>>::empty(), n) == Some(Seq::<EventView>::empty()));
    assert(Seq::<EventView>::empty() + line_events(text_of(line), n) =~= line_events(
        text_of(line),
        n,
    ));
}

/// The events of an empty stretch: a call from the offset where the last
/// call ended, on a log that has not grown, finds no event.
pub proof fn lemma_resume_at_end(n: int)
    ensures
        transcript_events(Seq::empty(), n) == Some(Seq::<EventView>::empty()),
{
    let e = Seq::<u8>::empty();
    assert(pieces(e, 10u8) == seq![e]);
    lemma_single_line(e, n);
    assert(valid_utf8(e));
    assert(text_of(e) =~= Seq::<char>::empty());
    assert(trimmed(Seq::<char>::empty()) == Seq::<char>::empty());
    assert(Seq::<EventView>::empty() + Seq::<EventView>::empty() =~= Seq::<EventView>::empty());
}

/// Reading resumes without loss or repetition: when `a` ends with a line
/// break (or is empty), the events of `a` followed by `b` are those of `a`
/// and then those of `b`.
pub proof fn lemma_resume_split(a: Seq<u8>, b: Seq<u8>, n: int)
    requires
        a.len() == 0 || a.last() == 10u8,
    ensures
        transcript_events(a + b, n) == join_events(
            transcript_events(a, n),
            transcript_events(b, n),
        ),
{
    lemma_pieces_after_break(a, b);
    lemma_pieces_nonempty(a, 10u8);
    let p = pieces(a, 10u8);
    lemma_lines_concat(p.drop_last(), pieces(b, 10u8), n);
    assert(p =~= p.drop_last().push(Seq::<u8>::empty()));
    assert(text_of(Seq::<u8>::empty()) =~= Seq::<char>::empty());
    assert(trimmed(Seq::<char>::empty()) == Seq::<char>::empty());
    if let Some(x) = lines_events(p.drop_last(), n) {
        assert(x + Seq::<EventView>::empty() =~= x);
    }
}

/// A line that is not JSON yields no event and leaves the lines around it
/// read as they would be without it.
pub proof fn lemma_malformed_line_ignored(
    before: Seq<Seq<u8>>,
    line: Seq<u8>,
    after: Seq<Seq<u8>>,
    n: int,
)
    requires
        valid_utf8(line),
        json_parse(trimmed(text_of(line))) is None,
    ensures
        line_events(text_of(line), n) == Seq::<EventView>::empty(),
        lines_events(before + seq![line] + after, n) == lines_events(before + after, n),
{
    lemma_lines_concat(before + seq![line], after, n);
    lemma_lines_concat(before, after, n);
    lemma_lines_concat(before, seq![line], n);
    lemma_single_line(line, n);
    if let Some(x) = lines_events(before, n) {
        assert(x + Seq::<EventView>::empty() =~= x);
    }
}

/// `line` holds no line break.
pub open spec fn single_line(line: Seq<u8>) -> bool {
    forall|i: int| 0 <= i < line.len() ==> #[trigger] line[i] != 10u8
}

proof fn lemma_pieces_unbroken(line: Seq<u8>)
    requires
        single_line(line),
    ensures
        pieces(line, 10u8) == seq![line],
    decreases line.len(),
{
    if line.len() > 0 {
        lemma_pieces_unbroken(line.drop_last());
        assert(line.drop_last().push(line.last()) =~= line);
        assert(line.last() != 10u8);
        assert(seq![line.drop_last()].update(0, line) =~= seq![line]);
    } else {
        assert(line =~= Seq::<u8>::empty());
    }
}

proof fn lemma_one_line_events(line: Seq<u8>, n: int)
    requires
        single_line(line),
        valid_utf8(line),
    ensures
        transcript_events(line + seq![10u8], n) == Some(line_events(text_of(line), n)),
{
    let c = line + seq![10u8];
    lemma_pieces_unbroken(line);
    assert(c.drop_last() =~= line);
    assert(pieces(c, 10u8) =~= seq![line] + seq![Seq::<u8>::empty()]);
    lemma_lines_concat(seq![line], seq![Seq::<u8>::empty()], n);
    lemma_single_line(line, n);
    lemma_single_line(Seq::<u8>::empty(), n);
    assert(valid_utf8(Seq::<u8>::empty()));
    assert(text_of(Seq::<u8>::empty()) =~= Seq::<char>::empty());
    assert(trimmed(Seq::<char>::empty()) == Seq::<char>::empty());
    let e = line_events(text_of(line), n);
    assert(e + Seq::<EventView>::empty() =~= e);
}

/// A line that is not JSON, set between whole lines of the log, yields no
/// event, does not fail the read, and leaves the events of every other
/// line as they are without it.
pub proof fn lemma_malformed_line_skipped(a: Seq<u8>, line: Seq<u8>, b: Seq<u8>, n: int)
    requires
        a.len() == 0 || a.last() == 10u8,
        single_line(line),
        valid_utf8(line),
        json_parse(trimmed(text_of(line))) is None,
    ensures
        transcript_events(a + line + seq![10u8] + b, n) == transcript_events(a + b, n),
{
    let c = line + seq![10u8];
    assert(a + line + seq![10u8] + b =~= a + (c + b));
    lemma_resume_split(a, c + b, n);
    lemma_resume_split(c, b, n);
    lemma_resume_split(a, b, n);
    lemma_one_line_events(line, n);
    assert(line_events(text_of(line), n) == Seq::<EventView>::empty());
    if let Some(y) = transcript_events(b, n) {
        assert(Seq::<EventView>::empty() + y =~= y);
    }
}

/// Appending one line that holds a user record with non-blank content to a
/// log that ends with a line break: a read from the old end yields exactly
/// one event, the one a read of the whole log yields for that line after
/// the events of the rest.
pub proof fn lemma_append_user_line(a: Seq<u8>, line: Seq<u8>, rec: Json, n: int)
    requires
        a.len() == 0 || a.last() == 10u8,
        single_line(line),
        valid_utf8(line),
        trimmed(text_of(line)).len() > 0,
        json_parse(trimmed(text_of(line))) == Some(rec),
        str_or(member(Some(rec), "type"@), ""@) == "user"@,
        trimmed(content_text(member(Some(rec), "message"@))).len() > 0,
    ensures
        transcript_events(line + seq![10u8], n) == Some(record_events(rec, n)),
        record_events(rec, n).len() == 1,
        transcript_events(a + (line + seq![10u8]), n) == join_events(
            transcript_events(a, n),
            Some(record_events(rec, n)),
        ),
{
    lemma_one_line_events(line, n);
    lemma_resume_split(a, line + seq![10u8], n);
}

} // verus!
