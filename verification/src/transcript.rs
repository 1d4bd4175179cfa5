//! Reading the session transcripts of a coding agent (JSONL).
//!
//! A transcript is a newline-delimited sequence of records. The ones that matter here:
//!
//! - `{"type":"assistant","message":{"content":[{"type":"text",...},{"type":"tool_use",...}]}}`
//! - `{"type":"user","message":{"content":[{"type":"tool_result",...}]},"toolUseResult":{...}}`
//!
//! Tool results arrive on `user` records and carry two payloads: the `tool_result` content
//! block (what the model saw) and a top-level `toolUseResult` (structured metadata
//! recorded alongside it). The structured payload is richer -- for `Bash` it separates stdout
//! from stderr and flags interruption -- so it is preferred when present.
//!
//! Note that exit codes are **not** recorded in the transcript. Whether a command succeeded has
//! to be recovered from its output, which is what [`crate::runners`] does.

use vstd::prelude::*;

use crate::json::{Json, JsonModel};
use crate::lists;
use crate::text;

verus! {

/// One tool invocation paired with its result, in transcript order.
#[derive(Debug)]
pub struct ToolCall {
    /// Position in the event stream. Used for ordering comparisons (staleness).
    pub seq: usize,
    pub id: String,
    pub name: String,
    pub input: Json,
    pub result: Option<ToolResult>,
    pub timestamp: Option<String>,
}

/// What a [`ToolCall`] stands for.
#[verifier::ext_equal]
pub struct ToolCallModel {
    pub seq: usize,
    pub id: Seq<char>,
    pub name: Seq<char>,
    pub input: JsonModel,
    pub result: Option<ToolResultModel>,
    pub timestamp: Option<Seq<char>>,
}

impl DeepView for ToolCall {
    type V = ToolCallModel;

    open spec fn deep_view(&self) -> ToolCallModel {
        ToolCallModel {
            seq: self.seq,
            id: self.id@,
            name: self.name@,
            input: self.input.deep_view(),
            result: self.result.deep_view(),
            timestamp: self.timestamp.deep_view(),
        }
    }
}

impl Clone for ToolCall {
    fn clone(&self) -> (r: Self)
        ensures
            r.deep_view() == self.deep_view(),
    {
        let result = match &self.result {
            Some(r) => Some(r.clone()),
            None => None,
        };
        ToolCall {
            seq: self.seq,
            id: self.id.clone(),
            name: self.name.clone(),
            input: self.input.clone(),
            result,
            timestamp: text::copied(&self.timestamp),
        }
    }
}

#[derive(Debug)]
pub struct ToolResult {
    /// The `tool_result` content block as plain text.
    pub content: String,
    pub stdout: Option<String>,
    pub stderr: Option<String>,
    /// True when the user or the harness cut the command short.
    pub interrupted: bool,
    /// True when the tool call itself failed (blocked, denied, invalid args).
    pub is_error: bool,
    /// Structured `toolUseResult` payload, when present.
    pub structured: Option<Json>,
}

/// What a [`ToolResult`] stands for.
#[verifier::ext_equal]
pub struct ToolResultModel {
    pub content: Seq<char>,
    pub stdout: Option<Seq<char>>,
    pub stderr: Option<Seq<char>>,
    pub interrupted: bool,
    pub is_error: bool,
    pub structured: Option<JsonModel>,
}

impl DeepView for ToolResult {
    type V = ToolResultModel;

    open spec fn deep_view(&self) -> ToolResultModel {
        ToolResultModel {
            content: self.content@,
            stdout: self.stdout.deep_view(),
            stderr: self.stderr.deep_view(),
            interrupted: self.interrupted,
            is_error: self.is_error,
            structured: self.structured.deep_view(),
        }
    }
}

impl Default for ToolResult {
    fn default() -> (r: Self)
        ensures
            r.deep_view() == (ToolResultModel {
                content: Seq::empty(),
                stdout: None,
                stderr: None,
                interrupted: false,
                is_error: false,
                structured: None,
            }),
    {
        let content = String::new();
        assert(content@ =~= Seq::empty());
        ToolResult {
            content,
            stdout: None,
            stderr: None,
            interrupted: false,
            is_error: false,
            structured: None,
        }
    }
}

impl Clone for ToolResult {
    fn clone(&self) -> (r: Self)
        ensures
            r.deep_view() == self.deep_view(),
    {
        let structured = match &self.structured {
            Some(v) => Some(v.clone()),
            None => None,
        };
        ToolResult {
            content: self.content.clone(),
            stdout: text::copied(&self.stdout),
            stderr: text::copied(&self.stderr),
            interrupted: self.interrupted,
            is_error: self.is_error,
            structured,
        }
    }
}

/// What the result of a call says, however the transcript happened to record it.
pub open spec fn result_text(r: ToolResultModel) -> Seq<char> {
    match (r.stdout, r.stderr) {
        (Some(o), Some(e)) => if text::trimmed(e).len() > 0 {
            o + "\n"@ + e
        } else {
            o
        },
        (Some(o), None) => o,
        (None, Some(e)) => e,
        (None, None) => r.content,
    }
}

/// Combined stdout and stderr of a call, nothing where it has no result.
pub open spec fn call_output(call: ToolCallModel) -> Seq<char> {
    match call.result {
        Some(r) => result_text(r),
        None => Seq::empty(),
    }
}

impl ToolResult {
    pub fn text(&self) -> (r: String)
        ensures
            r@ == result_text(self.deep_view()),
    {
        match (&self.stdout, &self.stderr) {
            (Some(o), Some(e)) => {
                if text::is_blank(e.as_str()) {
                    o.clone()
                } else {
                    text::concat3(o.as_str(), "\n", e.as_str())
                }
            },
            (Some(o), None) => o.clone(),
            (None, Some(e)) => e.clone(),
            (None, None) => self.content.clone(),
        }
    }
}

impl ToolCall {
    /// A string input field, e.g. `command` for Bash or `file_path` for Edit.
    pub fn input_str(&self, key: &str) -> (r: Option<&str>)
        ensures
            r.deep_view() == self.deep_view().input.str_at(key@),
    {
        match self.input.get(key) {
            Some(v) => match v.as_str() {
                Some(t) => Some(t.as_str()),
                None => None,
            },
            None => None,
        }
    }

    /// Combined stdout/stderr of the call, however the transcript happened to record it.
    pub fn output(&self) -> (r: String)
        ensures
            r@ == call_output(self.deep_view()),
    {
        match &self.result {
            Some(r) => r.text(),
            None => String::new(),
        }
    }
}

/// A block of assistant prose. Claims are extracted from these.
#[derive(Debug)]
pub struct AssistantText {
    pub seq: usize,
    pub text: String,
    pub timestamp: Option<String>,
    /// True if this is the final assistant message of the session -- the summary the user reads,
    /// where unsupported claims do the most damage.
    pub is_last: bool,
}

/// What an [`AssistantText`] stands for.
#[verifier::ext_equal]
pub struct AssistantTextModel {
    pub seq: usize,
    pub text: Seq<char>,
    pub timestamp: Option<Seq<char>>,
    pub is_last: bool,
}

impl DeepView for AssistantText {
    type V = AssistantTextModel;

    open spec fn deep_view(&self) -> AssistantTextModel {
        AssistantTextModel {
            seq: self.seq,
            text: self.text@,
            timestamp: self.timestamp.deep_view(),
            is_last: self.is_last,
        }
    }
}

impl Clone for AssistantText {
    fn clone(&self) -> (r: Self)
        ensures
            r.deep_view() == self.deep_view(),
    {
        AssistantText {
            seq: self.seq,
            text: self.text.clone(),
            timestamp: text::copied(&self.timestamp),
            is_last: self.is_last,
        }
    }
}

#[derive(Debug)]
pub struct Transcript {
    pub tool_calls: Vec<ToolCall>,
    pub assistant_texts: Vec<AssistantText>,
    pub session_id: Option<String>,
    pub cwd: Option<String>,
}

/// What a [`Transcript`] stands for.
#[verifier::ext_equal]
pub struct TranscriptModel {
    pub tool_calls: Seq<ToolCallModel>,
    pub assistant_texts: Seq<AssistantTextModel>,
    pub session_id: Option<Seq<char>>,
    pub cwd: Option<Seq<char>>,
}

impl DeepView for Transcript {
    type V = TranscriptModel;

    open spec fn deep_view(&self) -> TranscriptModel {
        TranscriptModel {
            tool_calls: self.tool_calls.deep_view(),
            assistant_texts: self.assistant_texts.deep_view(),
            session_id: self.session_id.deep_view(),
            cwd: self.cwd.deep_view(),
        }
    }
}

/// A session in which nothing has happened.
pub open spec fn empty_transcript() -> TranscriptModel {
    TranscriptModel {
        tool_calls: Seq::empty(),
        assistant_texts: Seq::empty(),
        session_id: None,
        cwd: None,
    }
}

impl Default for Transcript {
    fn default() -> (t: Self)
        ensures
            t.deep_view() == empty_transcript(),
    {
        let t = Transcript {
            tool_calls: Vec::new(),
            assistant_texts: Vec::new(),
            session_id: None,
            cwd: None,
        };
        assert(t.tool_calls.deep_view() =~= Seq::empty());
        assert(t.assistant_texts.deep_view() =~= Seq::empty());
        t
    }
}

// ---------------------------------------------------------------- what a record says

/// The text, or nothing where there is none.
pub open spec fn text_or_empty(s: Option<Seq<char>>) -> Seq<char> {
    match s {
        Some(t) => t,
        None => Seq::empty(),
    }
}

fn or_empty(s: Option<String>) -> (r: String)
    ensures
        r@ == text_or_empty(s.deep_view()),
{
    match s {
        Some(t) => t,
        None => String::new(),
    }
}

/// The text members of the blocks that have one.
pub open spec fn block_texts(items: Seq<JsonModel>) -> Seq<Seq<char>> {
    lists::selected(items, |b: JsonModel| b.str_at("text"@))
}

/// A `tool_result` content field as text: it is either a string or a list of typed blocks.
pub open spec fn content_text(v: Option<JsonModel>) -> Seq<char> {
    match v {
        Some(JsonModel::Text(t)) => t,
        Some(JsonModel::Array(items)) => text::joined(block_texts(items), "\n"@),
        _ => Seq::empty(),
    }
}

/// A `tool_result` content field is either a string or a list of typed blocks.
pub fn stringify_content(v: Option<&Json>) -> (r: String)
    ensures
        r@ == content_text(v.deep_view()),
{
    match v {
        Some(j) => match j {
            Json::Text(t) => t.clone(),
            Json::Array(items) => {
                let ghost all = j.model()->Array_0;
                let ghost f = |b: JsonModel| b.str_at("text"@);
                let mut parts: Vec<String> = Vec::new();
                assert(parts.deep_view() =~= Seq::empty());
                for i in 0..items.len()
                    invariant
                        all.len() == items@.len(),
                        forall|k: int|
                            0 <= k < all.len() ==> #[trigger] all[k] == items@[k].model(),
                        f == (|b: JsonModel| b.str_at("text"@)),
                        parts.deep_view() == lists::selected(all.take(i as int), f),
                {
                    let ghost before = parts.deep_view();
                    proof {
                        lists::lemma_selected_step(all, f, i as int);
                        assert(all[i as int] == items@[i as int].model());
                    }
                    if let Some(t) = items[i].str_at("text") {
                        parts.push(t);
                        assert(parts.deep_view() =~= before.push(t@));
                    }
                }
                assert(all.take(all.len() as int) =~= all);
                text::join(&parts, "\n")
            },
            _ => String::new(),
        },
        None => String::new(),
    }
}

/// The result that a `tool_result` block and the record around it report.
pub open spec fn result_of(rec: JsonModel, block: JsonModel) -> ToolResultModel {
    let structured = rec.get("toolUseResult"@);
    let content = content_text(block.get("content"@));
    ToolResultModel {
        content,
        stdout: match structured {
            Some(s) => s.str_at("stdout"@),
            None => None,
        },
        stderr: match structured {
            Some(s) => s.str_at("stderr"@),
            None => None,
        },
        interrupted: match structured {
            Some(s) => s.flag_at("interrupted"@),
            None => false,
        },
        is_error: block.flag_at("is_error"@) || text::has(content, "<tool_use_error>"@),
        structured,
    }
}

fn read_result(rec: &Json, block: &Json) -> (r: ToolResult)
    ensures
        r.deep_view() == result_of(rec.deep_view(), block.deep_view()),
{
    let content = stringify_content(block.get("content"));
    // Blocked or denied calls come back as a bare string, not an object.
    let is_error = block.flag_at("is_error") || text::contains(
        content.as_str(),
        "<tool_use_error>",
    );
    match rec.get("toolUseResult") {
        Some(s) => ToolResult {
            content,
            stdout: s.str_at("stdout"),
            stderr: s.str_at("stderr"),
            interrupted: s.flag_at("interrupted"),
            is_error,
            structured: Some(s.clone()),
        },
        None => ToolResult {
            content,
            stdout: None,
            stderr: None,
            interrupted: false,
            is_error,
            structured: None,
        },
    }
}

// ---------------------------------------------------------------- from records to a session

/// The position of the next event.
pub open spec fn next_seq(t: TranscriptModel) -> usize {
    (t.tool_calls.len() + t.assistant_texts.len() + 1) as usize
}

/// The last of the first `n` calls that was made under `id`.
pub open spec fn last_call_under(calls: Seq<ToolCallModel>, id: Seq<char>, n: int) -> Option<int>
    decreases n,
{
    if n <= 0 {
        None
    } else if calls[n - 1].id == id {
        Some(n - 1)
    } else {
        last_call_under(calls, id, n - 1)
    }
}

/// The session with a block of prose added, where it says anything.
pub open spec fn with_text(
    t: TranscriptModel,
    block: JsonModel,
    timestamp: Option<Seq<char>>,
) -> TranscriptModel {
    let said = text_or_empty(block.str_at("text"@));
    if text::trimmed(said).len() == 0 {
        t
    } else {
        TranscriptModel {
            assistant_texts: t.assistant_texts.push(
                AssistantTextModel { seq: next_seq(t), text: said, timestamp, is_last: false },
            ),
            ..t
        }
    }
}

/// The session with a tool call added.
pub open spec fn with_call(
    t: TranscriptModel,
    block: JsonModel,
    timestamp: Option<Seq<char>>,
) -> TranscriptModel {
    TranscriptModel {
        tool_calls: t.tool_calls.push(
            ToolCallModel {
                seq: next_seq(t),
                id: text_or_empty(block.str_at("id"@)),
                name: text_or_empty(block.str_at("name"@)),
                input: match block.get("input"@) {
                    Some(v) => v,
                    None => JsonModel::Null,
                },
                result: None,
                timestamp,
            },
        ),
        ..t
    }
}

/// The session with a result given to the call that it belongs to, where that is known.
pub open spec fn with_result(t: TranscriptModel, rec: JsonModel, block: JsonModel) -> TranscriptModel {
    let id = text_or_empty(block.str_at("tool_use_id"@));
    match last_call_under(t.tool_calls, id, t.tool_calls.len() as int) {
        Some(i) => TranscriptModel {
            tool_calls: t.tool_calls.update(
                i,
                ToolCallModel { result: Some(result_of(rec, block)), ..t.tool_calls[i] },
            ),
            ..t
        },
        None => t,
    }
}

/// The session after one content block.
pub open spec fn with_block(t: TranscriptModel, rec: JsonModel, block: JsonModel) -> TranscriptModel {
    let kind = text_or_empty(rec.str_at("type"@));
    let block_kind = text_or_empty(block.str_at("type"@));
    let timestamp = rec.str_at("timestamp"@);
    if kind == "assistant"@ && block_kind == "text"@ {
        with_text(t, block, timestamp)
    } else if kind == "assistant"@ && block_kind == "tool_use"@ {
        with_call(t, block, timestamp)
    } else if block_kind == "tool_result"@ {
        with_result(t, rec, block)
    } else {
        t
    }
}

/// The session after the first `n` content blocks of a record.
pub open spec fn with_blocks(
    t: TranscriptModel,
    rec: JsonModel,
    blocks: Seq<JsonModel>,
    n: int,
) -> TranscriptModel
    decreases n,
{
    if n <= 0 {
        t
    } else {
        with_block(with_blocks(t, rec, blocks, n - 1), rec, blocks[n - 1])
    }
}

/// The member of a record called either `a` or `b`.
pub open spec fn either_member(rec: JsonModel, a: Seq<char>, b: Seq<char>) -> Option<JsonModel> {
    match rec.get(a) {
        Some(v) => Some(v),
        None => rec.get(b),
    }
}

/// The session with what the record says of its surroundings, where that was not known yet.
pub open spec fn with_surroundings(t: TranscriptModel, rec: JsonModel) -> TranscriptModel {
    TranscriptModel {
        session_id: match t.session_id {
            Some(id) => Some(id),
            None => match either_member(rec, "sessionId"@, "session_id"@) {
                Some(v) => v.as_str(),
                None => None,
            },
        },
        cwd: match t.cwd {
            Some(c) => Some(c),
            None => rec.str_at("cwd"@),
        },
        ..t
    }
}

/// The content blocks of a record.
pub open spec fn blocks_of(rec: JsonModel) -> Option<Seq<JsonModel>> {
    match rec.get("message"@) {
        Some(m) => match m.get("content"@) {
            Some(c) => c.as_array(),
            None => None,
        },
        None => None,
    }
}

/// The session after one record.
pub open spec fn with_record(t: TranscriptModel, rec: JsonModel) -> TranscriptModel {
    let u = with_surroundings(t, rec);
    match blocks_of(rec) {
        Some(blocks) => with_blocks(u, rec, blocks, blocks.len() as int),
        None => u,
    }
}

/// The session after the first `n` records.
pub open spec fn with_records(records: Seq<JsonModel>, n: int) -> TranscriptModel
    decreases n,
{
    if n <= 0 {
        empty_transcript()
    } else {
        with_record(with_records(records, n - 1), records[n - 1])
    }
}

/// The session with its last block of prose marked.
pub open spec fn with_last_marked(t: TranscriptModel) -> TranscriptModel {
    if t.assistant_texts.len() == 0 {
        t
    } else {
        let n = t.assistant_texts.len() - 1;
        TranscriptModel {
            assistant_texts: t.assistant_texts.update(
                n,
                AssistantTextModel { is_last: true, ..t.assistant_texts[n] },
            ),
            ..t
        }
    }
}

/// The session that the records tell of.
pub open spec fn session_of(records: Seq<JsonModel>) -> TranscriptModel {
    with_last_marked(with_records(records, records.len() as int))
}

/// The record that a line holds, where it holds one.
pub open spec fn record_in(line: Seq<char>) -> Option<JsonModel> {
    let t = text::trimmed(line);
    if t.len() == 0 {
        None
    } else {
        crate::json::parsed(t)
    }
}

/// The records of a transcript file, one on each line that holds one.
pub open spec fn records_in(raw: Seq<char>) -> Seq<JsonModel> {
    lists::selected(text::lines_of(raw), |l: Seq<char>| record_in(l))
}

impl Transcript {
    /// Every event so far is one of `events`.
    spec fn counted(&self, events: Vec<bool>) -> bool {
        events@.len() == self.tool_calls@.len() + self.assistant_texts@.len()
    }

    fn add_text(&mut self, events: &mut Vec<bool>, block: &Json, timestamp: Option<String>)
        requires
            old(self).counted(*old(events)),
        ensures
            final(self).counted(*final(events)),
            final(self).deep_view() == with_text(
                old(self).deep_view(),
                block.deep_view(),
                timestamp.deep_view(),
            ),
    {
        let said = or_empty(block.str_at("text"));
        if text::is_blank(said.as_str()) {
            return ;
        }
        let ghost before = self.deep_view();
        events.push(true);
        let seq = events.len();
        assert(seq == next_seq(before));
        self.assistant_texts.push(AssistantText { seq, text: said, timestamp, is_last: false });
        assert(self.assistant_texts.deep_view() =~= with_text(
            before,
            block.deep_view(),
            timestamp.deep_view(),
        ).assistant_texts);
    }

    fn add_call(&mut self, events: &mut Vec<bool>, block: &Json, timestamp: Option<String>)
        requires
            old(self).counted(*old(events)),
        ensures
            final(self).counted(*final(events)),
            final(self).deep_view() == with_call(
                old(self).deep_view(),
                block.deep_view(),
                timestamp.deep_view(),
            ),
    {
        let ghost before = self.deep_view();
        events.push(true);
        let seq = events.len();
        assert(seq == next_seq(before));
        let input = match block.get("input") {
            Some(v) => v.clone(),
            None => Json::Null,
        };
        self.tool_calls.push(
            ToolCall {
                seq,
                id: or_empty(block.str_at("id")),
                name: or_empty(block.str_at("name")),
                input,
                result: None,
                timestamp,
            },
        );
        assert(self.tool_calls.deep_view() =~= with_call(
            before,
            block.deep_view(),
            timestamp.deep_view(),
        ).tool_calls);
    }

    /// The last call that was made under `id`.
    fn call_under(&self, id: &str) -> (r: Option<usize>)
        ensures
            match r {
                Some(i) => i < self.tool_calls@.len() && last_call_under(
                    self.deep_view().tool_calls,
                    id@,
                    self.tool_calls@.len() as int,
                ) == Some(i as int),
                None => last_call_under(
                    self.deep_view().tool_calls,
                    id@,
                    self.tool_calls@.len() as int,
                ) is None,
            },
    {
        let ghost calls = self.deep_view().tool_calls;
        let mut n: usize = self.tool_calls.len();
        while n > 0
            invariant
                n <= self.tool_calls@.len(),
                calls == self.deep_view().tool_calls,
                last_call_under(calls, id@, self.tool_calls@.len() as int) == last_call_under(
                    calls,
                    id@,
                    n as int,
                ),
            decreases n,
        {
            assert(calls[n - 1].id == self.tool_calls@[n - 1].id@);
            if text::same(self.tool_calls[n - 1].id.as_str(), id) {
                return Some(n - 1);
            }
            n = n - 1;
        }
        None
    }

    fn add_result(&mut self, rec: &Json, block: &Json)
        ensures
            final(self).tool_calls@.len() == old(self).tool_calls@.len(),
            final(self).assistant_texts@ == old(self).assistant_texts@,
            final(self).deep_view() == with_result(
                old(self).deep_view(),
                rec.deep_view(),
                block.deep_view(),
            ),
    {
        let id = or_empty(block.str_at("tool_use_id"));
        if let Some(i) = self.call_under(id.as_str()) {
            let ghost before = self.deep_view();
            let res = read_result(rec, block);
            self.tool_calls[i].result = Some(res);
            assert(self.tool_calls.deep_view() =~= with_result(
                before,
                rec.deep_view(),
                block.deep_view(),
            ).tool_calls);
        }
    }

    fn add_block(&mut self, events: &mut Vec<bool>, rec: &Json, block: &Json)
        requires
            old(self).counted(*old(events)),
        ensures
            final(self).counted(*final(events)),
            final(self).deep_view() == with_block(
                old(self).deep_view(),
                rec.deep_view(),
                block.deep_view(),
            ),
    {
        let kind = or_empty(rec.str_at("type"));
        let block_kind = or_empty(block.str_at("type"));
        let assistant = text::same(kind.as_str(), "assistant");
        if assistant && text::same(block_kind.as_str(), "text") {
            self.add_text(events, block, rec.str_at("timestamp"));
        } else if assistant && text::same(block_kind.as_str(), "tool_use") {
            self.add_call(events, block, rec.str_at("timestamp"));
        } else if text::same(block_kind.as_str(), "tool_result") {
            self.add_result(rec, block);
        }
    }

    fn add_record(&mut self, events: &mut Vec<bool>, rec: &Json)
        requires
            old(self).counted(*old(events)),
        ensures
            final(self).counted(*final(events)),
            final(self).deep_view() == with_record(old(self).deep_view(), rec.deep_view()),
    {
        let ghost before = self.deep_view();
        if self.session_id.is_none() {
            let found = match rec.get("sessionId") {
                Some(v) => Some(v),
                None => rec.get("session_id"),
            };
            self.session_id = match found {
                Some(v) => match v.as_str() {
                    Some(t) => Some(t.clone()),
                    None => None,
                },
                None => None,
            };
        }
        if self.cwd.is_none() {
            self.cwd = rec.str_at("cwd");
        }
        let ghost u = self.deep_view();
        assert(u == with_surroundings(before, rec.deep_view()));
        let content = match rec.get("message") {
            Some(m) => match m.get("content") {
                Some(c) => c.as_array(),
                None => None,
            },
            None => None,
        };
        if let Some(blocks) = content {
            let ghost all = blocks.deep_view();
            for i in 0..blocks.len()
                invariant
                    all == blocks.deep_view(),
                    self.counted(*events),
                    self.deep_view() == with_blocks(u, rec.deep_view(), all, i as int),
            {
                assert(all[i as int] == blocks@[i as int].deep_view());
                self.add_block(events, rec, &blocks[i]);
            }
        }
    }

    /// Read a session out of its records.
    pub fn from_records(records: &Vec<Json>) -> (t: Transcript)
        ensures
            t.deep_view() == session_of(records.deep_view()),
            is_numbered(t.deep_view()),
            only_last_marked(t.deep_view()),
    {
        let mut t = Transcript::default();
        let mut events: Vec<bool> = Vec::new();
        assert(t.tool_calls.deep_view().len() == 0);
        assert(t.assistant_texts.deep_view().len() == 0);
        let ghost all = records.deep_view();
        for i in 0..records.len()
            invariant
                all == records.deep_view(),
                t.counted(events),
                t.deep_view() == with_records(all, i as int),
        {
            assert(all[i as int] == records@[i as int].deep_view());
            t.add_record(&mut events, &records[i]);
        }
        let n = t.assistant_texts.len();
        if n > 0 {
            let ghost before = t.deep_view();
            t.assistant_texts[n - 1].is_last = true;
            assert(t.assistant_texts.deep_view() =~= with_last_marked(before).assistant_texts);
        }
        proof {
            assert(t.deep_view() == session_of(all));
            assert(event_count(t.deep_view()) == events.len());
            law_events_are_numbered_in_order(all);
            assert forall|i: int| 0 <= i < t.deep_view().assistant_texts.len() implies (
            #[trigger] t.deep_view().assistant_texts[i]).is_last == (i
                == t.deep_view().assistant_texts.len() - 1) by {
                law_only_the_last_prose_is_marked(all, i);
            }
        }
        t
    }

    /// Read a session out of the text of its transcript file.
    ///
    /// A line that is not a record is passed over: a partially written trailing line is normal
    /// for a live session.
    pub fn parse_str(raw: &str) -> (t: Transcript)
        ensures
            t.deep_view() == session_of(records_in(raw@)),
            is_numbered(t.deep_view()),
            only_last_marked(t.deep_view()),
    {
        let lines = text::lines(raw);
        let ghost all = text::lines_of(raw@);
        let ghost f = |l: Seq<char>| record_in(l);
        let mut records: Vec<Json> = Vec::new();
        assert(records.deep_view() =~= Seq::empty());
        for i in 0..lines.len()
            invariant
                all == lines.deep_view(),
                f == (|l: Seq<char>| record_in(l)),
                records.deep_view() == lists::selected(all.take(i as int), f),
        {
            let ghost before = records.deep_view();
            proof {
                lists::lemma_selected_step(all, f, i as int);
                assert(all[i as int] == lines@[i as int]@);
            }
            let line = text::trim(lines[i].as_str());
            if !line.as_str().is_empty() {
                if let Some(rec) = Json::parse(line.as_str()) {
                    records.push(rec);
                    assert(records.deep_view() =~= before.push(rec.deep_view()));
                }
            }
        }
        assert(all.take(all.len() as int) =~= all);
        Transcript::from_records(&records)
    }
}

// ---------------------------------------------------------------- looking things up

/// The calls of a given name, in order.
pub open spec fn named_calls(calls: Seq<ToolCallModel>, name: Seq<char>) -> Seq<ToolCallModel> {
    lists::selected(
        calls,
        |c: ToolCallModel|
            if c.name == name {
                Some(c)
            } else {
                None
            },
    )
}

/// The highest position in the event stream.
pub open spec fn highest_seq(t: TranscriptModel) -> usize {
    let call: usize = if t.tool_calls.len() == 0 {
        0
    } else {
        t.tool_calls.last().seq
    };
    let prose: usize = if t.assistant_texts.len() == 0 {
        0
    } else {
        t.assistant_texts.last().seq
    };
    if call < prose {
        prose
    } else {
        call
    }
}

impl Transcript {
    /// Tool calls of a given name, in order.
    pub fn calls_named(&self, name: &str) -> (r: Vec<&ToolCall>)
        ensures
            r.deep_view() == named_calls(self.deep_view().tool_calls, name@),
    {
        let ghost all = self.deep_view().tool_calls;
        let ghost f = |c: ToolCallModel|
            if c.name == name@ {
                Some(c)
            } else {
                None
            };
        let mut out: Vec<&ToolCall> = Vec::new();
        assert(out.deep_view() =~= Seq::empty());
        for i in 0..self.tool_calls.len()
            invariant
                all == self.tool_calls.deep_view(),
                f == (|c: ToolCallModel|
                    if c.name == name@ {
                        Some(c)
                    } else {
                        None
                    }),
                out.deep_view() == lists::selected(all.take(i as int), f),
        {
            let ghost before = out.deep_view();
            proof {
                lists::lemma_selected_step(all, f, i as int);
                assert(all[i as int] == self.tool_calls@[i as int].deep_view());
            }
            if text::same(self.tool_calls[i].name.as_str(), name) {
                out.push(&self.tool_calls[i]);
                assert(out.deep_view() =~= before.push(all[i as int]));
            }
        }
        assert(all.take(all.len() as int) =~= all);
        out
    }

    /// Highest sequence number in the transcript, for "did anything happen after X" checks.
    pub fn max_seq(&self) -> (r: usize)
        ensures
            r == highest_seq(self.deep_view()),
    {
        let calls = self.tool_calls.len();
        let texts = self.assistant_texts.len();
        let call: usize = if calls == 0 {
            0
        } else {
            self.tool_calls[calls - 1].seq
        };
        let prose: usize = if texts == 0 {
            0
        } else {
            self.assistant_texts[texts - 1].seq
        };
        if call < prose {
            prose
        } else {
            call
        }
    }
}

// ---------------------------------------------------------------- laws

/// How many events a session has: calls and blocks of prose.
pub open spec fn event_count(t: TranscriptModel) -> nat {
    t.tool_calls.len() + t.assistant_texts.len()
}

/// Some event of the session has this number.
pub open spec fn has_number(t: TranscriptModel, n: int) -> bool {
    ||| exists|i: int| 0 <= i < t.tool_calls.len() && (#[trigger] t.tool_calls[i]).seq == n
    ||| exists|i: int| 0 <= i < t.assistant_texts.len() && (#[trigger] t.assistant_texts[i]).seq == n
}

/// The events of a session are numbered from one, in order: calls and prose each rise, every
/// number up to that of events is given, to one event only, and the last event has the highest.
pub open spec fn is_numbered(t: TranscriptModel) -> bool {
    &&& forall|n: int| 1 <= n <= event_count(t) ==> #[trigger] has_number(t, n)
    &&& forall|i: int|
        0 <= i < t.tool_calls.len() ==> 1 <= (#[trigger] t.tool_calls[i]).seq <= event_count(t)
    &&& forall|i: int|
        0 <= i < t.assistant_texts.len() ==> 1 <= (#[trigger] t.assistant_texts[i]).seq <= event_count(t)
    &&& forall|i: int, j: int|
        0 <= i < j < t.tool_calls.len() ==> (#[trigger] t.tool_calls[i]).seq < (
        #[trigger] t.tool_calls[j]).seq
    &&& forall|i: int, j: int|
        0 <= i < j < t.assistant_texts.len() ==> (#[trigger] t.assistant_texts[i]).seq < (
        #[trigger] t.assistant_texts[j]).seq
    &&& forall|i: int, j: int|
        0 <= i < t.tool_calls.len() && 0 <= j < t.assistant_texts.len() ==> (
        #[trigger] t.tool_calls[i]).seq != (#[trigger] t.assistant_texts[j]).seq
    &&& highest_seq(t) == event_count(t)
}

/// The last block of prose is marked as the last, and no other.
pub open spec fn only_last_marked(t: TranscriptModel) -> bool {
    forall|i: int|
        0 <= i < t.assistant_texts.len() ==> (#[trigger] t.assistant_texts[i]).is_last == (i
            == t.assistant_texts.len() - 1)
}

/// No block of prose is marked as the last yet.
spec fn unmarked(t: TranscriptModel) -> bool {
    forall|i: int| 0 <= i < t.assistant_texts.len() ==> !(#[trigger] t.assistant_texts[i]).is_last
}

proof fn lemma_result_under(calls: Seq<ToolCallModel>, id: Seq<char>, n: int)
    requires
        0 <= n <= calls.len(),
    ensures
        last_call_under(calls, id, n) matches Some(i) ==> 0 <= i < n && calls[i].id == id && (
        forall|j: int| i < j < n ==> (#[trigger] calls[j]).id != id),
        last_call_under(calls, id, n) is None ==> forall|j: int|
            0 <= j < n ==> (#[trigger] calls[j]).id != id,
    decreases n,
{
    if n > 0 && calls[n - 1].id != id {
        lemma_result_under(calls, id, n - 1);
    }
}

/// Two sessions of which the second has the numbers of the first and, where it has one event
/// more, the next.
proof fn lemma_numbers_kept(t: TranscriptModel, u: TranscriptModel)
    requires
        forall|n: int| 1 <= n <= event_count(t) ==> #[trigger] has_number(t, n),
        t.tool_calls.len() <= u.tool_calls.len(),
        t.assistant_texts.len() <= u.assistant_texts.len(),
        forall|i: int|
            0 <= i < t.tool_calls.len() ==> t.tool_calls[i].seq == (#[trigger] u.tool_calls[i]).seq,
        forall|i: int|
            0 <= i < t.assistant_texts.len() ==> t.assistant_texts[i].seq == (
            #[trigger] u.assistant_texts[i]).seq,
        event_count(u) <= event_count(t) + 1,
        u.tool_calls.len() > t.tool_calls.len() ==> u.tool_calls.last().seq == event_count(u),
        u.assistant_texts.len() > t.assistant_texts.len() ==> u.assistant_texts.last().seq
            == event_count(u),
    ensures
        forall|n: int| 1 <= n <= event_count(u) ==> #[trigger] has_number(u, n),
{
    assert forall|n: int| 1 <= n <= event_count(u) implies #[trigger] has_number(u, n) by {
        if n <= event_count(t) {
            assert(has_number(t, n));
            if exists|i: int| 0 <= i < t.tool_calls.len() && (#[trigger] t.tool_calls[i]).seq == n {
                let i = choose|i: int|
                    0 <= i < t.tool_calls.len() && (#[trigger] t.tool_calls[i]).seq == n;
                assert(u.tool_calls[i].seq == n);
            } else {
                let i = choose|i: int|
                    0 <= i < t.assistant_texts.len() && (#[trigger] t.assistant_texts[i]).seq == n;
                assert(u.assistant_texts[i].seq == n);
            }
        } else if u.tool_calls.len() > t.tool_calls.len() {
            assert(u.tool_calls[u.tool_calls.len() - 1].seq == n);
        } else {
            assert(u.assistant_texts[u.assistant_texts.len() - 1].seq == n);
        }
    }
}

proof fn lemma_block(t: TranscriptModel, rec: JsonModel, block: JsonModel)
    ensures
        event_count(t) <= event_count(with_block(t, rec, block)) <= event_count(t) + 1,
        is_numbered(t) && event_count(with_block(t, rec, block)) <= usize::MAX ==> is_numbered(
            with_block(t, rec, block),
        ),
        unmarked(t) ==> unmarked(with_block(t, rec, block)),
{
    let id = text_or_empty(block.str_at("tool_use_id"@));
    lemma_result_under(t.tool_calls, id, t.tool_calls.len() as int);
    let u = with_block(t, rec, block);
    if is_numbered(t) && event_count(u) <= usize::MAX {
        if event_count(u) == event_count(t) + 1 {
            assert(next_seq(t) == event_count(t) + 1);
        }
        lemma_numbers_kept(t, u);
    }
}

proof fn lemma_blocks(t: TranscriptModel, rec: JsonModel, blocks: Seq<JsonModel>, n: int)
    ensures
        event_count(t) <= event_count(with_blocks(t, rec, blocks, n)),
        is_numbered(t) && event_count(with_blocks(t, rec, blocks, n)) <= usize::MAX ==> is_numbered(
            with_blocks(t, rec, blocks, n),
        ),
        unmarked(t) ==> unmarked(with_blocks(t, rec, blocks, n)),
    decreases n,
{
    if n > 0 {
        lemma_blocks(t, rec, blocks, n - 1);
        lemma_block(with_blocks(t, rec, blocks, n - 1), rec, blocks[n - 1]);
    }
}

proof fn lemma_records(records: Seq<JsonModel>, n: int)
    ensures
        event_count(with_records(records, n)) <= usize::MAX ==> is_numbered(with_records(records, n)),
        unmarked(with_records(records, n)),
        n > 0 ==> event_count(with_records(records, n - 1)) <= event_count(with_records(records, n)),
    decreases n,
{
    if n > 0 {
        lemma_records(records, n - 1);
        let t = with_records(records, n - 1);
        let rec = records[n - 1];
        let u = with_surroundings(t, rec);
        if is_numbered(t) {
            lemma_numbers_kept(t, u);
        }
        assert(is_numbered(t) ==> is_numbered(u));
        match blocks_of(rec) {
            Some(blocks) => {
                lemma_blocks(u, rec, blocks, blocks.len() as int);
            },
            None => {},
        }
    }
}

/// The events of a session are numbered in the order in which they were recorded, for as long as
/// the numbers suffice.
pub proof fn law_events_are_numbered_in_order(records: Seq<JsonModel>)
    requires
        event_count(session_of(records)) <= usize::MAX,
    ensures
        is_numbered(session_of(records)),
{
    lemma_records(records, records.len() as int);
    let t = with_records(records, records.len() as int);
    let u = session_of(records);
    assert(u.tool_calls == t.tool_calls);
    assert(u.assistant_texts.len() == t.assistant_texts.len());
    assert forall|i: int| 0 <= i < u.assistant_texts.len() implies (
    #[trigger] u.assistant_texts[i]).seq == t.assistant_texts[i].seq by {}
    lemma_numbers_kept(t, u);
}

/// Of all blocks of prose, the last one is marked as the last, and no other.
pub proof fn law_only_the_last_prose_is_marked(records: Seq<JsonModel>, i: int)
    requires
        0 <= i < session_of(records).assistant_texts.len(),
    ensures
        session_of(records).assistant_texts[i].is_last <==> i == session_of(
            records,
        ).assistant_texts.len() - 1,
{
    lemma_records(records, records.len() as int);
}

/// A tool result changes nothing but the result of the call that it belongs to: not the prose,
/// and not what was called.
pub proof fn law_a_result_changes_only_its_call(
    t: TranscriptModel,
    rec: JsonModel,
    block: JsonModel,
    i: int,
)
    requires
        0 <= i < t.tool_calls.len(),
    ensures
        with_result(t, rec, block).assistant_texts == t.assistant_texts,
        with_result(t, rec, block).tool_calls.len() == t.tool_calls.len(),
        with_result(t, rec, block).tool_calls[i] == (ToolCallModel {
            result: with_result(t, rec, block).tool_calls[i].result,
            ..t.tool_calls[i]
        }),
        t.tool_calls[i].id != text_or_empty(block.str_at("tool_use_id"@)) ==> with_result(
            t,
            rec,
            block,
        ).tool_calls[i] == t.tool_calls[i],
{
    lemma_result_under(
        t.tool_calls,
        text_or_empty(block.str_at("tool_use_id"@)),
        t.tool_calls.len() as int,
    );
}

/// Where several calls were made under one name, a result goes to the last of them.
pub proof fn law_a_result_goes_to_the_last_call_of_its_name(
    t: TranscriptModel,
    rec: JsonModel,
    block: JsonModel,
    i: int,
)
    requires
        0 <= i < t.tool_calls.len(),
        t.tool_calls[i].id == text_or_empty(block.str_at("tool_use_id"@)),
        forall|j: int|
            i < j < t.tool_calls.len() ==> (#[trigger] t.tool_calls[j]).id != t.tool_calls[i].id,
    ensures
        with_result(t, rec, block).tool_calls[i].result == Some(result_of(rec, block)),
{
    lemma_result_under(
        t.tool_calls,
        text_or_empty(block.str_at("tool_use_id"@)),
        t.tool_calls.len() as int,
    );
}

/// The records of a file do not depend on the white space round its lines.
proof fn lemma_records_of_trimmed_lines(raw: Seq<char>)
    ensures
        records_in(raw) == lists::selected(
            text::trimmed_lines(raw),
            |l: Seq<char>| record_in(l),
        ),
{
    let f = |l: Seq<char>| record_in(l);
    let g = |l: Seq<char>| text::trimmed(l);
    assert forall|l: Seq<char>| #[trigger] f(g(l)) == f(l) by {
        text::lemma_trimmed_twice(l);
    }
    lists::lemma_selected_mapped(text::lines_of(raw), f, g);
}

/// A last line that is not a record, as one that is still being written, is passed over.
pub proof fn law_a_broken_last_line_is_ignored(raw: Seq<char>, tail: Seq<char>)
    requires
        !tail.contains('\n'),
        record_in(tail) is None,
    ensures
        session_of(records_in(raw + seq!['\n'] + tail)) == session_of(records_in(raw)),
{
    let f = |l: Seq<char>| record_in(l);
    let all = raw + seq!['\n'] + tail;
    lemma_records_of_trimmed_lines(all);
    lemma_records_of_trimmed_lines(raw);
    text::lemma_lines_joined(raw, tail);
    let lines = text::trimmed_lines(raw);
    let blank = text::blank_line_behind(raw);
    let last = text::trimmed_lines(tail);
    lists::lemma_selected_concat(lines + blank, last, f);
    lists::lemma_selected_concat(lines, blank, f);
    lists::lemma_selected_empty(blank, f);
    assert forall|i: int| 0 <= i < blank.len() implies f(#[trigger] blank[i]) is None by {
        assert(text::trimmed(Seq::<char>::empty()) =~= Seq::empty());
    }
    text::lemma_one_line(tail);
    lists::lemma_selected_empty(last, f);
    assert forall|i: int| 0 <= i < last.len() implies f(#[trigger] last[i]) is None by {
        text::lemma_trimmed_twice(tail);
    }
    assert(records_in(all) =~= records_in(raw));
}

// ---------------------------------------------------------------- what is recorded

/// What a call printed: what stands in its two streams, the second behind the first unless it is
/// blank, or where neither was recorded the content of the result. A call without a result printed
/// nothing.
pub proof fn law_what_a_call_printed(call: ToolCallModel)
    ensures
        call.result is None ==> call_output(call).len() == 0,
        call.result matches Some(r) ==> {
            &&& r.stdout is Some && r.stderr is Some && text::trimmed(r.stderr->0).len() > 0
                ==> call_output(call) == r.stdout->0 + "\n"@ + r.stderr->0
            &&& r.stdout is Some && r.stderr is Some && text::trimmed(r.stderr->0).len() == 0
                ==> call_output(call) == r.stdout->0
            &&& r.stdout is Some && r.stderr is None ==> call_output(call) == r.stdout->0
            &&& r.stdout is None && r.stderr is Some ==> call_output(call) == r.stderr->0
            &&& r.stdout is None && r.stderr is None ==> call_output(call) == r.content
        },
{
}

/// The content of a result is a text, or the texts of its blocks line by line.
pub proof fn law_what_the_content_of_a_result_is(t: Seq<char>, items: Seq<JsonModel>)
    ensures
        content_text(None).len() == 0,
        content_text(Some(JsonModel::Null)).len() == 0,
        content_text(Some(JsonModel::Text(t))) == t,
        items.len() == 0 ==> content_text(Some(JsonModel::Array(items))).len() == 0,
        items.len() == 1 ==> content_text(Some(JsonModel::Array(items))) == (match items[0].str_at(
            "text"@,
        ) {
            Some(x) => x,
            None => Seq::empty(),
        }),
        items.len() == 2 && items[0].str_at("text"@) is Some && items[1].str_at("text"@) is Some
            ==> content_text(Some(JsonModel::Array(items))) == items[0].str_at("text"@)->0 + "\n"@
            + items[1].str_at("text"@)->0,
{
    let f = |b: JsonModel| b.str_at("text"@);
    if items.len() == 1 {
        assert(items.drop_last() =~= Seq::empty());
        assert(lists::selected(items.drop_last(), f) =~= Seq::empty());
        if let Some(x) = items[0].str_at("text"@) {
            assert(block_texts(items) =~= seq![x]);
        }
    }
    if items.len() == 2 && items[0].str_at("text"@) is Some && items[1].str_at("text"@) is Some {
        let a = items[0].str_at("text"@)->0;
        let b = items[1].str_at("text"@)->0;
        let one = items.drop_last();
        assert(one.drop_last() =~= Seq::empty());
        assert(lists::selected(one.drop_last(), f) =~= Seq::empty());
        assert(lists::selected(one, f) =~= seq![a]);
        assert(block_texts(items) =~= seq![a, b]);
        assert(seq![a, b].drop_last() =~= seq![a]);
        assert(text::joined(seq![a, b].drop_last(), "\n"@) == a);
    }
}

/// What a block of a record adds. A block of prose that is not blank adds a message, a block that
/// calls a tool adds a call, both only where the record is the agent's; each has the next number.
/// A block with a result, in whatever record, sets that of the last call under its name. Nothing
/// else adds anything.
pub proof fn law_what_a_block_adds(t: TranscriptModel, rec: JsonModel, block: JsonModel)
    requires
        t.tool_calls.len() + t.assistant_texts.len() < usize::MAX,
    ensures
        ({
            let u = with_block(t, rec, block);
            let own = rec.str_at("type"@) == Some("assistant"@);
            let kind = block.str_at("type"@);
            let said = block.str_at("text"@);
            let or_empty = |s: Option<Seq<char>>|
                if s is Some {
                    s->0
                } else {
                    Seq::empty()
                };
            &&& u.session_id == t.session_id
            &&& u.cwd == t.cwd
            &&& if own && kind == Some("text"@) && said is Some && text::trimmed(said->0).len() > 0 {
                &&& u.tool_calls == t.tool_calls
                &&& u.assistant_texts.len() == t.assistant_texts.len() + 1
                &&& u.assistant_texts.drop_last() == t.assistant_texts
                &&& u.assistant_texts.last().seq == t.tool_calls.len() + t.assistant_texts.len() + 1
                &&& u.assistant_texts.last().text == said->0
                &&& u.assistant_texts.last().timestamp == rec.str_at("timestamp"@)
            } else if own && kind == Some("tool_use"@) {
                &&& u.assistant_texts == t.assistant_texts
                &&& u.tool_calls.len() == t.tool_calls.len() + 1
                &&& u.tool_calls.drop_last() == t.tool_calls
                &&& u.tool_calls.last().seq == t.tool_calls.len() + t.assistant_texts.len() + 1
                &&& u.tool_calls.last().id == or_empty(block.str_at("id"@))
                &&& u.tool_calls.last().name == or_empty(block.str_at("name"@))
                &&& u.tool_calls.last().input == (match block.get("input"@) {
                    Some(v) => v,
                    None => JsonModel::Null,
                })
                &&& u.tool_calls.last().result is None
                &&& u.tool_calls.last().timestamp == rec.str_at("timestamp"@)
            } else if kind == Some("tool_result"@) {
                &&& u.assistant_texts == t.assistant_texts
                &&& u.tool_calls.len() == t.tool_calls.len()
            } else {
                u == t
            }
        }),
{
    reveal_strlit("assistant");
    reveal_strlit("text");
    reveal_strlit("tool_use");
    reveal_strlit("tool_result");
    assert("assistant"@.len() == 9 && "text"@.len() == 4 && "tool_use"@.len() == 8 && "tool_result"@.len() == 11);
    let said = text_or_empty(block.str_at("text"@));
    if block.str_at("text"@) is None {
        assert(said =~= Seq::empty());
        assert(text::trimmed(said) =~= Seq::empty());
    }
    lemma_result_under(
        t.tool_calls,
        text_or_empty(block.str_at("tool_use_id"@)),
        t.tool_calls.len() as int,
    );
    let u = with_block(t, rec, block);
    if u.assistant_texts.len() == t.assistant_texts.len() + 1 {
        assert(u.assistant_texts.drop_last() =~= t.assistant_texts);
    }
    if u.tool_calls.len() == t.tool_calls.len() + 1 {
        assert(u.tool_calls.drop_last() =~= t.tool_calls);
    }
}

/// What the result of a call holds: the content of the block, the two streams and whether the call
/// was cut short from the record, and an error where the block says so or the content shows that
/// the call was refused.
pub proof fn law_what_a_result_holds(t: TranscriptModel, rec: JsonModel, block: JsonModel, i: int)
    requires
        block.str_at("type"@) == Some("tool_result"@),
        0 <= i < t.tool_calls.len(),
        block.str_at("tool_use_id"@) == Some(t.tool_calls[i].id),
        forall|j: int|
            i < j < t.tool_calls.len() ==> (#[trigger] t.tool_calls[j]).id != t.tool_calls[i].id,
    ensures
        ({
            let r = with_block(t, rec, block).tool_calls[i].result;
            let more = rec.get("toolUseResult"@);
            &&& r is Some
            &&& r->0.content == content_text(block.get("content"@))
            &&& r->0.is_error <==> block.flag_at("is_error"@) || text::has(
                content_text(block.get("content"@)),
                "<tool_use_error>"@,
            )
            &&& r->0.structured == more
            &&& more is None ==> r->0.stdout is None && r->0.stderr is None && !r->0.interrupted
            &&& more matches Some(s) ==> r->0.stdout == s.str_at("stdout"@) && r->0.stderr
                == s.str_at("stderr"@) && r->0.interrupted == s.flag_at("interrupted"@)
        }),
{
    reveal_strlit("text");
    reveal_strlit("tool_use");
    reveal_strlit("tool_result");
    assert("text"@.len() == 4 && "tool_use"@.len() == 8 && "tool_result"@.len() == 11);
    law_a_result_goes_to_the_last_call_of_its_name(t, rec, block, i);
}

/// The calls and messages of `t` are those of `u` in front, but for the results of the calls.
spec fn grows_to(t: TranscriptModel, u: TranscriptModel) -> bool {
    &&& t.tool_calls.len() <= u.tool_calls.len()
    &&& t.assistant_texts.len() <= u.assistant_texts.len()
    &&& forall|i: int|
        0 <= i < t.tool_calls.len() ==> (#[trigger] u.tool_calls[i]).seq == t.tool_calls[i].seq
            && u.tool_calls[i].id == t.tool_calls[i].id && u.tool_calls[i].name
            == t.tool_calls[i].name && u.tool_calls[i].input == t.tool_calls[i].input
            && u.tool_calls[i].timestamp == t.tool_calls[i].timestamp
    &&& forall|i: int|
        0 <= i < t.assistant_texts.len() ==> #[trigger] u.assistant_texts[i] == t.assistant_texts[i]
}

proof fn lemma_block_grows(t: TranscriptModel, rec: JsonModel, block: JsonModel)
    ensures
        grows_to(t, with_block(t, rec, block)),
{
    lemma_result_under(
        t.tool_calls,
        text_or_empty(block.str_at("tool_use_id"@)),
        t.tool_calls.len() as int,
    );
}

proof fn lemma_blocks_grow(t: TranscriptModel, rec: JsonModel, blocks: Seq<JsonModel>, m: int, n: int)
    requires
        0 <= m <= n <= blocks.len(),
    ensures
        grows_to(with_blocks(t, rec, blocks, m), with_blocks(t, rec, blocks, n)),
    decreases n - m,
{
    if m < n {
        lemma_blocks_grow(t, rec, blocks, m, n - 1);
        lemma_block_grows(with_blocks(t, rec, blocks, n - 1), rec, blocks[n - 1]);
    }
}

proof fn lemma_records_grow(records: Seq<JsonModel>, m: int, n: int)
    requires
        0 <= m <= n <= records.len(),
    ensures
        grows_to(with_records(records, m), with_records(records, n)),
    decreases n - m,
{
    if m < n {
        lemma_records_grow(records, m, n - 1);
        let t = with_records(records, n - 1);
        let rec = records[n - 1];
        let u = with_surroundings(t, rec);
        if let Some(blocks) = blocks_of(rec) {
            lemma_blocks_grow(u, rec, blocks, 0, blocks.len() as int);
        }
    }
}

/// Every tool that the agent called is among the calls of the session, with what it was given.
pub proof fn law_every_call_is_recorded(
    records: Seq<JsonModel>,
    i: int,
    blocks: Seq<JsonModel>,
    k: int,
)
    requires
        0 <= i < records.len(),
        records[i].str_at("type"@) == Some("assistant"@),
        records[i].get("message"@) is Some,
        records[i].get("message"@)->0.get("content"@) == Some(JsonModel::Array(blocks)),
        0 <= k < blocks.len(),
        blocks[k].str_at("type"@) == Some("tool_use"@),
    ensures
        exists|j: int|
            0 <= j < session_of(records).tool_calls.len() && ({
                let c = #[trigger] session_of(records).tool_calls[j];
                &&& blocks[k].str_at("id"@) matches Some(id) ==> c.id == id
                &&& blocks[k].str_at("name"@) matches Some(name) ==> c.name == name
                &&& blocks[k].get("input"@) matches Some(input) ==> c.input == input
                &&& c.timestamp == records[i].str_at("timestamp"@)
            }),
{
    reveal_strlit("text");
    reveal_strlit("tool_use");
    assert("text"@.len() == 4 && "tool_use"@.len() == 8);
    let n = records.len() as int;
    let u = with_surroundings(with_records(records, i), records[i]);
    let a = with_blocks(u, records[i], blocks, k);
    let b = with_blocks(u, records[i], blocks, k + 1);
    let j = a.tool_calls.len() as int;
    assert(b == with_call(a, blocks[k], records[i].str_at("timestamp"@)));
    assert(b.tool_calls.len() == j + 1);
    lemma_blocks_grow(u, records[i], blocks, k + 1, blocks.len() as int);
    let c = with_records(records, i + 1);
    assert(c == with_blocks(u, records[i], blocks, blocks.len() as int));
    lemma_records_grow(records, i + 1, n);
    let d = with_records(records, n);
    assert(c.tool_calls[j].id == b.tool_calls[j].id);
    assert(d.tool_calls[j].id == c.tool_calls[j].id);
    assert(session_of(records).tool_calls == d.tool_calls);
    assert(session_of(records).tool_calls[j].timestamp == records[i].str_at("timestamp"@));
}

/// Everything that the agent said is among the messages of the session, as it was said.
pub proof fn law_every_message_is_recorded(
    records: Seq<JsonModel>,
    i: int,
    blocks: Seq<JsonModel>,
    k: int,
    said: Seq<char>,
)
    requires
        0 <= i < records.len(),
        records[i].str_at("type"@) == Some("assistant"@),
        records[i].get("message"@) is Some,
        records[i].get("message"@)->0.get("content"@) == Some(JsonModel::Array(blocks)),
        0 <= k < blocks.len(),
        blocks[k].str_at("type"@) == Some("text"@),
        blocks[k].str_at("text"@) == Some(said),
        text::trimmed(said).len() > 0,
    ensures
        exists|j: int|
            0 <= j < session_of(records).assistant_texts.len() && (#[trigger] session_of(
                records,
            ).assistant_texts[j]).text == said && session_of(records).assistant_texts[j].timestamp
                == records[i].str_at("timestamp"@),
{
    let n = records.len() as int;
    let u = with_surroundings(with_records(records, i), records[i]);
    let a = with_blocks(u, records[i], blocks, k);
    let b = with_blocks(u, records[i], blocks, k + 1);
    let j = a.assistant_texts.len() as int;
    assert(b == with_text(a, blocks[k], records[i].str_at("timestamp"@)));
    lemma_blocks_grow(u, records[i], blocks, k + 1, blocks.len() as int);
    let c = with_records(records, i + 1);
    assert(c == with_blocks(u, records[i], blocks, blocks.len() as int));
    lemma_records_grow(records, i + 1, n);
    let d = with_records(records, n);
    assert(c.assistant_texts[j] == b.assistant_texts[j]);
    assert(d.assistant_texts[j] == c.assistant_texts[j]);
    assert(session_of(records).assistant_texts[j].text == said);
}

/// Where a session ran and what it is called is what the first record says that says it.
pub proof fn law_where_a_session_ran(records: Seq<JsonModel>, i: int)
    requires
        0 <= i < records.len(),
    ensures
        records[i].str_at("cwd"@) is Some && (forall|j: int|
            0 <= j < i ==> (#[trigger] records[j]).str_at("cwd"@) is None) ==> session_of(
            records,
        ).cwd == records[i].str_at("cwd"@),
        records[i].str_at("sessionId"@) is Some && (forall|j: int|
            0 <= j < i ==> (#[trigger] records[j]).str_at("sessionId"@) is None
                && records[j].str_at("session_id"@) is None) ==> session_of(records).session_id
            == records[i].str_at("sessionId"@),
        records[i].get("sessionId"@) is None && records[i].str_at("session_id"@) is Some && (forall|
            j: int,
        |
            0 <= j < i ==> (#[trigger] records[j]).str_at("sessionId"@) is None
                && records[j].str_at("session_id"@) is None) ==> session_of(records).session_id
            == records[i].str_at("session_id"@),
        (forall|j: int| 0 <= j < records.len() ==> (#[trigger] records[j]).str_at("cwd"@) is None)
            ==> session_of(records).cwd is None,
{
    let n = records.len() as int;
    lemma_surroundings(records, i, n);
    lemma_no_surroundings(records, i);
    lemma_no_surroundings(records, n);
    lemma_blocks_keep_surroundings_at(records, i);
}

/// What the records up to `n` say of the surroundings once a record said it.
proof fn lemma_surroundings(records: Seq<JsonModel>, m: int, n: int)
    requires
        0 <= m <= n <= records.len(),
    ensures
        with_records(records, m).cwd is Some ==> with_records(records, n).cwd == with_records(
            records,
            m,
        ).cwd,
        with_records(records, m).session_id is Some ==> with_records(records, n).session_id
            == with_records(records, m).session_id,
        m < n && with_records(records, m + 1).cwd is Some ==> with_records(records, n).cwd
            == with_records(records, m + 1).cwd,
        m < n && with_records(records, m + 1).session_id is Some ==> with_records(
            records,
            n,
        ).session_id == with_records(records, m + 1).session_id,
    decreases n - m,
{
    if m < n {
        lemma_surroundings(records, m, n - 1);
        lemma_blocks_keep_surroundings_at(records, n - 1);
        if m + 1 < n {
            lemma_surroundings(records, m + 1, n);
        }
    }
}

proof fn lemma_no_surroundings(records: Seq<JsonModel>, n: int)
    requires
        0 <= n <= records.len(),
    ensures
        (forall|j: int| 0 <= j < n ==> (#[trigger] records[j]).str_at("cwd"@) is None)
            ==> with_records(records, n).cwd is None,
        (forall|j: int|
            0 <= j < n ==> (#[trigger] records[j]).str_at("sessionId"@) is None
                && records[j].str_at("session_id"@) is None) ==> with_records(records, n).session_id
            is None,
    decreases n,
{
    if n > 0 {
        lemma_no_surroundings(records, n - 1);
        lemma_blocks_keep_surroundings_at(records, n - 1);
    }
}

proof fn lemma_blocks_keep_surroundings_at(records: Seq<JsonModel>, i: int)
    requires
        0 <= i < records.len(),
    ensures
        ({
            let u = with_surroundings(with_records(records, i), records[i]);
            with_records(records, i + 1).cwd == u.cwd && with_records(records, i + 1).session_id
                == u.session_id
        }),
{
    let u = with_surroundings(with_records(records, i), records[i]);
    if let Some(blocks) = blocks_of(records[i]) {
        lemma_blocks_keep_surroundings(u, records[i], blocks, blocks.len() as int);
    }
}

proof fn lemma_blocks_keep_surroundings(
    t: TranscriptModel,
    rec: JsonModel,
    blocks: Seq<JsonModel>,
    n: int,
)
    ensures
        with_blocks(t, rec, blocks, n).cwd == t.cwd,
        with_blocks(t, rec, blocks, n).session_id == t.session_id,
    decreases n,
{
    if n > 0 {
        lemma_blocks_keep_surroundings(t, rec, blocks, n - 1);
    }
}

/// A line that is not blank and holds a document is a record, and no other line is; the records
/// come in the order of the lines.
pub proof fn law_which_lines_are_records(a: Seq<char>, b: Seq<char>, line: Seq<char>)
    requires
        !line.contains('\n'),
    ensures
        records_in(line) == (match crate::json::parsed(text::trimmed(line)) {
            Some(v) => if text::trimmed(line).len() > 0 {
                seq![v]
            } else {
                Seq::empty()
            },
            None => Seq::empty(),
        }),
        records_in(a + seq!['\n'] + b) == records_in(a) + records_in(b),
{
    let f = |l: Seq<char>| record_in(l);
    text::lemma_one_line(line);
    let lines = text::lines_of(line);
    if line.len() > 0 {
        assert(lines.drop_last() =~= Seq::empty());
        assert(lists::selected(lines.drop_last(), f) =~= Seq::empty());
    } else {
        assert(text::trimmed(line) =~= Seq::empty());
    }
    assert(records_in(line) =~= (match record_in(line) {
        Some(v) => seq![v],
        None => Seq::empty(),
    }));
    let all = a + seq!['\n'] + b;
    lemma_records_of_trimmed_lines(all);
    lemma_records_of_trimmed_lines(a);
    lemma_records_of_trimmed_lines(b);
    text::lemma_lines_joined(a, b);
    let blank = text::blank_line_behind(a);
    lists::lemma_selected_concat(text::trimmed_lines(a) + blank, text::trimmed_lines(b), f);
    lists::lemma_selected_concat(text::trimmed_lines(a), blank, f);
    lists::lemma_selected_empty(blank, f);
    assert forall|i: int| 0 <= i < blank.len() implies f(#[trigger] blank[i]) is None by {
        assert(text::trimmed(Seq::<char>::empty()) =~= Seq::empty());
    }
    assert(records_in(all) =~= records_in(a) + records_in(b));
}

/// The calls of a tool are those of its name, in their order.
pub proof fn law_which_calls_are_named(calls: Seq<ToolCallModel>, name: Seq<char>)
    ensures
        named_calls(calls, name) == lists::kept(calls, |c: ToolCallModel| c.name == name),
{
    lists::lemma_selected_is_kept(
        calls,
        |c: ToolCallModel|
            if c.name == name {
                Some(c)
            } else {
                None
            },
        |c: ToolCallModel| c.name == name,
    );
}

/// The highest number of a session is that of its last event.
pub proof fn law_the_highest_number_is_the_last(t: TranscriptModel)
    requires
        is_numbered(t),
        event_count(t) <= usize::MAX,
    ensures
        highest_seq(t) == event_count(t),
{
    let n = event_count(t) as int;
    if n > 0 {
        assert(has_number(t, n));
        if exists|i: int| 0 <= i < t.tool_calls.len() && (#[trigger] t.tool_calls[i]).seq == n {
            let i = choose|i: int|
                0 <= i < t.tool_calls.len() && (#[trigger] t.tool_calls[i]).seq == n;
            let last = t.tool_calls[t.tool_calls.len() - 1];
            assert(last.seq <= n);
            if i < t.tool_calls.len() - 1 {
                assert(t.tool_calls[i].seq < last.seq);
            }
            if t.assistant_texts.len() > 0 {
                assert(t.assistant_texts[t.assistant_texts.len() - 1].seq <= n);
            }
        } else {
            let i = choose|i: int|
                0 <= i < t.assistant_texts.len() && (#[trigger] t.assistant_texts[i]).seq == n;
            let last = t.assistant_texts[t.assistant_texts.len() - 1];
            assert(last.seq <= n);
            if i < t.assistant_texts.len() - 1 {
                assert(t.assistant_texts[i].seq < last.seq);
            }
            if t.tool_calls.len() > 0 {
                assert(t.tool_calls[t.tool_calls.len() - 1].seq <= n);
            }
        }
    }
}

} // verus!
