//! Relay of the Hermes session chat stream.
//!
//! Hermes answers `POST /api/sessions/{id}/chat/stream` with named server-sent
//! events (`event: <name>` then `data: <json>`). The relay receives the body
//! in arbitrary chunks, cuts it into lines and turns each `data:` line into at
//! most one [`StreamEvent`] for the chat window, according to the name of the
//! event that is current.
use vstd::prelude::*;

use crate::text::{
    chars_eq_str, chars_of, has_prefix_str, lemma_line_break, lemma_line_break_bound, line_break,
    push_char, skip_from, slice_range, starts_with, string_of, trim, trim_end, trimmed, trimmed_end,
};

verus! {

/// What the chat window receives.
#[derive(Debug)]
pub enum StreamEvent {
    /// A piece of the answer.
    Delta { content: String },
    /// A piece of the model's reasoning.
    Reasoning { content: String },
    /// A tool step (`started`, `completed`, `failed` or `progress`).
    Tool { name: String, status: String },
    /// The run finished; `usage` is the JSON text of the reported usage.
    Done { usage: String },
    /// The stream reported an error.
    Error { message: String },
}

/// Mathematical form of a [`StreamEvent`].
pub enum EventView {
    Delta(Seq<char>),
    Reasoning(Seq<char>),
    Tool(Seq<char>, Seq<char>),
    Done(Seq<char>),
    Error(Seq<char>),
}

impl View for StreamEvent {
    type V = EventView;

    open spec fn view(&self) -> EventView {
        match self {
            StreamEvent::Delta { content } => EventView::Delta(content@),
            StreamEvent::Reasoning { content } => EventView::Reasoning(content@),
            StreamEvent::Tool { name, status } => EventView::Tool(name@, status@),
            StreamEvent::Done { usage } => EventView::Done(usage@),
            StreamEvent::Error { message } => EventView::Error(message@),
        }
    }
}

/// The fields of a `data:` JSON object that the relay reads: the string
/// members `delta`, `content`, `tool_name` and `message` (absent when the
/// member is missing or not a string) and the JSON text of `usage`.
#[derive(Debug)]
pub struct EventPayload {
    pub delta: Option<String>,
    pub content: Option<String>,
    pub tool_name: Option<String>,
    pub message: Option<String>,
    pub usage: String,
}

/// Mathematical form of an [`EventPayload`].
pub struct PayloadView {
    pub delta: Option<Seq<char>>,
    pub content: Option<Seq<char>>,
    pub tool_name: Option<Seq<char>>,
    pub message: Option<Seq<char>>,
    pub usage: Seq<char>,
}

pub open spec fn opt_view(o: Option<String>) -> Option<Seq<char>> {
    match o {
        Some(s) => Some(s@),
        None => None,
    }
}

impl View for EventPayload {
    type V = PayloadView;

    open spec fn view(&self) -> PayloadView {
        PayloadView {
            delta: opt_view(self.delta),
            content: opt_view(self.content),
            tool_name: opt_view(self.tool_name),
            message: opt_view(self.message),
            usage: self.usage@,
        }
    }
}

/// The payload that `serde_json` reads from the text of a `data:` line:
/// `None` when the text is not JSON.
pub uninterp spec fn json_event_payload(data: Seq<char>) -> Option<PayloadView>;

/// Parses the text of a `data:` line with `serde_json::from_str::<Value>` and
/// reads the string members `delta`, `content`, `tool_name`, `message` with
/// `Value::as_str` and the member `usage` as JSON text (`Value`'s `Display`).
/// Trusted: the result is `json_event_payload` of the text, a name for what
/// serde_json computes; nothing more is claimed of it.
#[verifier::external_body]
pub(crate) fn parse_event_payload(data: &str) -> (r: Option<EventPayload>)
    ensures
        match r {
            Some(p) => json_event_payload(data@) == Some(p@),
            None => json_event_payload(data@) is None,
        },
{
    match serde_json::from_str::<serde_json::Value>(data) {
        Ok(p) => Some(EventPayload {
            delta: p["delta"].as_str().map(|s| s.to_string()),
            content: p["content"].as_str().map(|s| s.to_string()),
            tool_name: p["tool_name"].as_str().map(|s| s.to_string()),
            message: p["message"].as_str().map(|s| s.to_string()),
            usage: p["usage"].to_string(),
        }),
        Err(_) => None,
    }
}

/// The part of the relay state that outlives a line: the name of the current
/// event and whether answer content has been sent.
pub struct Mode {
    pub event: Seq<char>,
    pub got_content: bool,
}

/// The whole relay state: the text not yet ended by `'\n'`, and the mode.
pub struct RelayState {
    pub buf: Seq<char>,
    pub mode: Mode,
}

pub open spec fn initial_mode() -> Mode {
    Mode { event: seq![], got_content: false }
}

/// The event a `data:` payload gives under `mode`, and the next mode.
pub open spec fn dispatch(mode: Mode, p: PayloadView) -> (Mode, Option<EventView>) {
    let ev = mode.event;
    if ev == "assistant.delta"@ {
        if p.delta is Some && p.delta->0.len() > 0 {
            (Mode { event: ev, got_content: true }, Some(EventView::Delta(p.delta->0)))
        } else {
            (mode, None)
        }
    } else if ev == "assistant.completed"@ {
        if !mode.got_content && p.content is Some && p.content->0.len() > 0 {
            (Mode { event: ev, got_content: true }, Some(EventView::Delta(p.content->0)))
        } else {
            (mode, None)
        }
    } else if ev == "reasoning.delta"@ {
        if p.delta is Some && p.delta->0.len() > 0 {
            (mode, Some(EventView::Reasoning(p.delta->0)))
        } else {
            (mode, None)
        }
    } else if ev == "tool.progress"@ {
        let name = match p.tool_name {
            Some(n) => n,
            None => seq![],
        };
        let d = match p.delta {
            Some(d) => d,
            None => seq![],
        };
        if name == "_thinking"@ {
            if d.len() > 0 {
                (mode, Some(EventView::Reasoning(d)))
            } else {
                (mode, None)
            }
        } else if name.len() > 0 {
            (mode, Some(EventView::Tool(name, "progress"@)))
        } else {
            (mode, None)
        }
    } else if ev == "tool.started"@ || ev == "tool.completed"@ || ev == "tool.failed"@ {
        let name = match p.tool_name {
            Some(n) => n,
            None => "tool"@,
        };
        (mode, Some(EventView::Tool(name, ev.skip("tool."@.len() as int))))
    } else if ev == "run.completed"@ {
        (mode, Some(EventView::Done(p.usage)))
    } else if ev == "error"@ {
        let msg = match p.message {
            Some(m) => m,
            None => "error"@,
        };
        (mode, Some(EventView::Error(msg)))
    } else {
        (mode, None)
    }
}

/// What one complete line (without its `'\n'`) does: `event:` names the
/// current event, `data:` with a JSON payload is dispatched, anything else is
/// ignored.
pub open spec fn on_line(mode: Mode, raw: Seq<char>) -> (Mode, Option<EventView>) {
    let line = trim_end(raw);
    if starts_with(line, "event:"@) {
        (Mode { event: trim(line.skip("event:"@.len() as int)), got_content: mode.got_content }, None)
    } else if starts_with(line, "data:"@) {
        match json_event_payload(trim(line.skip("data:"@.len() as int))) {
            Some(p) => dispatch(mode, p),
            None => (mode, None),
        }
    } else {
        (mode, None)
    }
}

pub open spec fn opt_seq(e: Option<EventView>) -> Seq<EventView> {
    match e {
        Some(x) => seq![x],
        None => seq![],
    }
}

/// Processes every complete line of `buf`, in order: the final mode, the text
/// after the last `'\n'`, and the events.
pub open spec fn drain(mode: Mode, buf: Seq<char>) -> (Mode, Seq<char>, Seq<EventView>)
    decreases buf.len(),
{
    let k = line_break(buf);
    if k < buf.len() {
        let (m1, e) = on_line(mode, buf.take(k as int));
        let (m2, rest, es) = drain(m1, buf.skip(k as int + 1));
        (m2, rest, opt_seq(e) + es)
    } else {
        (mode, buf, seq![])
    }
}

/// The relay state after receiving `chunk`, and the events it emits.
pub open spec fn feed_spec(st: RelayState, chunk: Seq<char>) -> (RelayState, Seq<EventView>) {
    let (m, rest, es) = drain(st.mode, st.buf + chunk);
    (RelayState { buf: rest, mode: m }, es)
}

pub open spec fn event_views(evs: Seq<StreamEvent>) -> Seq<EventView> {
    evs.map_values(|e: StreamEvent| e@)
}

/// Draining `s + t` is draining `s` and then what is left of it followed by `t`.
pub proof fn lemma_drain_append(mode: Mode, s: Seq<char>, t: Seq<char>)
    ensures
        ({
            let (m1, r1, e1) = drain(mode, s);
            let (m2, r2, e2) = drain(m1, r1 + t);
            drain(mode, s + t) == (m2, r2, e1 + e2)
        }),
    decreases s.len(),
{
    lemma_line_break_bound(s);
    let k = line_break(s);
    if k < s.len() {
        lemma_line_break(s + t, k as int);
        assert((s + t).take(k as int) == s.take(k as int));
        assert((s + t).skip(k as int + 1) == s.skip(k as int + 1) + t);
        let (m1, e) = on_line(mode, s.take(k as int));
        lemma_drain_append(m1, s.skip(k as int + 1), t);
        let (ma, ra, ea) = drain(m1, s.skip(k as int + 1));
        let (mb, rb, eb) = drain(ma, ra + t);
        assert(opt_seq(e) + (ea + eb) == (opt_seq(e) + ea) + eb);
    } else {
        assert(s + t == (s + t));
        assert(Seq::<EventView>::empty() + drain(mode, s + t).2 == drain(mode, s + t).2);
    }
}

/// Receiving `a` and then `b` emits the same events, and leaves the same
/// state, as receiving `a + b` at once: how the body is cut into chunks does
/// not change what the chat window is sent.
pub proof fn lemma_feed_chunking(st: RelayState, a: Seq<char>, b: Seq<char>)
    ensures
        ({
            let (s1, e1) = feed_spec(st, a);
            let (s2, e2) = feed_spec(s1, b);
            feed_spec(st, a + b) == (s2, e1 + e2)
        }),
{
    assert(st.buf + (a + b) == (st.buf + a) + b);
    lemma_drain_append(st.mode, st.buf + a, b);
}

/// The chunks one after another.
pub open spec fn concat_chunks(chunks: Seq<Seq<char>>) -> Seq<char>
    decreases chunks.len(),
{
    if chunks.len() == 0 {
        seq![]
    } else {
        chunks[0] + concat_chunks(chunks.drop_first())
    }
}

/// The relay state after receiving `chunks` in turn, and all the events
/// emitted on the way.
pub open spec fn feed_all(st: RelayState, chunks: Seq<Seq<char>>) -> (RelayState, Seq<EventView>)
    decreases chunks.len(),
{
    if chunks.len() == 0 {
        (st, seq![])
    } else {
        let (s1, e1) = feed_spec(st, chunks[0]);
        let (s2, e2) = feed_all(s1, chunks.drop_first());
        (s2, e1 + e2)
    }
}

/// However a body is cut into chunks, receiving them one by one emits the
/// same events, and leaves the same state, as receiving the whole body at
/// once.
pub proof fn law_feed_any_chunking(st: RelayState, chunks: Seq<Seq<char>>)
    requires
        chunks.len() > 0,
    ensures
        feed_all(st, chunks) == feed_spec(st, concat_chunks(chunks)),
    decreases chunks.len(),
{
    let rest = chunks.drop_first();
    assert(concat_chunks(chunks) == chunks[0] + concat_chunks(rest));
    let (s1, e1) = feed_spec(st, chunks[0]);
    if rest.len() == 0 {
        assert(concat_chunks(rest) == Seq::<char>::empty());
        assert(chunks[0] + Seq::<char>::empty() == chunks[0]);
        assert(feed_all(s1, rest) == (s1, Seq::<EventView>::empty()));
        assert(e1 + Seq::<EventView>::empty() == e1);
    } else {
        law_feed_any_chunking(s1, rest);
        lemma_feed_chunking(st, chunks[0], concat_chunks(rest));
    }
}

/// Some event of `es` is a piece of the answer.
pub open spec fn has_delta(es: Seq<EventView>) -> bool {
    exists|i: int| 0 <= i < es.len() && #[trigger] es[i] is Delta
}

proof fn lemma_has_delta_concat(a: Seq<EventView>, b: Seq<EventView>)
    ensures
        has_delta(a + b) == (has_delta(a) || has_delta(b)),
{
    if has_delta(a + b) {
        let i = choose|i: int| 0 <= i < (a + b).len() && #[trigger] (a + b)[i] is Delta;
        if i < a.len() {
            assert(a[i] is Delta);
        } else {
            assert(b[i - a.len()] is Delta);
        }
    }
    if has_delta(a) {
        let i = choose|i: int| 0 <= i < a.len() && #[trigger] a[i] is Delta;
        assert((a + b)[i] is Delta);
    }
    if has_delta(b) {
        let i = choose|i: int| 0 <= i < b.len() && #[trigger] b[i] is Delta;
        assert((a + b)[a.len() + i] is Delta);
    }
}

/// The answer is sent once. An `assistant.completed` payload sends its
/// `content` as the answer only while no answer content has been sent (the
/// answer never streamed as deltas). Whether content has been sent is
/// exactly whether a piece of the answer went out: over any run of lines,
/// the flag ends set if and only if it was set before or a `Delta` was
/// emitted. So from a fresh relay, a completion with content emits it if and
/// only if no `Delta` was emitted earlier in the stream, and at most one
/// `Delta` comes from completions.
pub proof fn law_completed_answer_sent_once(mode: Mode, p: PayloadView, buf: Seq<char>)
    ensures
        mode.event == "assistant.completed"@ ==> dispatch(mode, p).1 == (
        if !mode.got_content && p.content is Some && p.content->0.len() > 0 {
            Some(EventView::Delta(p.content->0))
        } else {
            None
        }),
        dispatch(mode, p).0.got_content == (mode.got_content || dispatch(mode, p).1 matches Some(
            EventView::Delta(_),
        )),
        drain(mode, buf).0.got_content == (mode.got_content || has_delta(drain(mode, buf).2)),
    decreases buf.len(),
{
    reveal_strlit("assistant.completed");
    reveal_strlit("assistant.delta");
    assert("assistant.completed"@.len() != "assistant.delta"@.len());
    lemma_line_break_bound(buf);
    let k = line_break(buf);
    if k < buf.len() {
        let (m1, e) = on_line(mode, buf.take(k as int));
        law_completed_answer_sent_once(m1, p, buf.skip(k as int + 1));
        let line = trim_end(buf.take(k as int));
        if starts_with(line, "data:"@) && !starts_with(line, "event:"@) {
            match json_event_payload(trim(line.skip("data:"@.len() as int))) {
                Some(q) => {
                    law_completed_answer_sent_once(mode, q, seq![]);
                },
                None => {},
            }
        }
        let (m2, r2, es) = drain(m1, buf.skip(k as int + 1));
        lemma_has_delta_concat(opt_seq(e), es);
        assert(has_delta(opt_seq(e)) == (e matches Some(EventView::Delta(_)))) by {
            if e is Some {
                assert(opt_seq(e)[0] == e->0);
            }
        }
    } else {
        assert(!has_delta(drain(mode, buf).2));
    }
}

/// The stream relay: the text received but not yet ended by `'\n'`, the name
/// of the current event, and whether answer content has been sent.
pub struct SseRelay {
    buf: Vec<char>,
    cur_event: Vec<char>,
    got_content: bool,
}

impl View for SseRelay {
    type V = RelayState;

    closed spec fn view(&self) -> RelayState {
        RelayState {
            buf: self.buf@,
            mode: Mode { event: self.cur_event@, got_content: self.got_content },
        }
    }
}

impl SseRelay {
    /// A relay that has received nothing.
    pub fn new() -> (r: SseRelay)
        ensures
            r@.buf == Seq::<char>::empty(),
            r@.mode == initial_mode(),
    {
        SseRelay { buf: Vec::new(), cur_event: Vec::new(), got_content: false }
    }

    /// The event that a parsed `data:` payload gives under the current event
    /// name; `None` (no payload: the data was not JSON) changes nothing.
    pub fn apply_payload(&mut self, payload: Option<EventPayload>) -> (e: Option<StreamEvent>)
        ensures
            final(self)@.buf == old(self)@.buf,
            match payload {
                Some(p) => (final(self)@.mode, opt_event_view(e)) == dispatch(old(self)@.mode, p@),
                None => final(self)@.mode == old(self)@.mode && e is None,
            },
    {
        let p = match payload {
            Some(p) => p,
            None => return None,
        };
        proof {
            reveal_strlit("tool.started");
            reveal_strlit("tool.completed");
            reveal_strlit("tool.failed");
            reveal_strlit("tool.");
        }
        let ev = &self.cur_event;
        if chars_eq_str(ev, "assistant.delta") {
            match p.delta {
                Some(d) => {
                    if !d.as_str().is_empty() {
                        proof { assert(d@.len() > 0); }
                        self.got_content = true;
                        Some(StreamEvent::Delta { content: d })
                    } else {
                        None
                    }
                },
                None => None,
            }
        } else if chars_eq_str(ev, "assistant.completed") {
            if !self.got_content {
                match p.content {
                    Some(c) => {
                        if !c.as_str().is_empty() {
                            proof { assert(c@.len() > 0); }
                            self.got_content = true;
                            Some(StreamEvent::Delta { content: c })
                        } else {
                            None
                        }
                    },
                    None => None,
                }
            } else {
                None
            }
        } else if chars_eq_str(ev, "reasoning.delta") {
            match p.delta {
                Some(d) => {
                    if !d.as_str().is_empty() {
                        proof { assert(d@.len() > 0); }
                        Some(StreamEvent::Reasoning { content: d })
                    } else {
                        None
                    }
                },
                None => None,
            }
        } else if chars_eq_str(ev, "tool.progress") {
            let name = match p.tool_name {
                Some(n) => n,
                None => String::new(),
            };
            let d = match p.delta {
                Some(d) => d,
                None => String::new(),
            };
            let name_chars = chars_of(name.as_str());
            if chars_eq_str(&name_chars, "_thinking") {
                if !d.as_str().is_empty() {
                    proof { assert(d@.len() > 0); }
                    Some(StreamEvent::Reasoning { content: d })
                } else {
                    None
                }
            } else if !name.as_str().is_empty() {
                proof { assert(name@.len() > 0); }
                Some(StreamEvent::Tool { name, status: String::from_str("progress") })
            } else {
                None
            }
        } else if chars_eq_str(ev, "tool.started") || chars_eq_str(ev, "tool.completed")
            || chars_eq_str(ev, "tool.failed") {
            let name = match p.tool_name {
                Some(n) => n,
                None => String::from_str("tool"),
            };
            let status = string_of(&skip_from(ev, 5));
            Some(StreamEvent::Tool { name, status })
        } else if chars_eq_str(ev, "run.completed") {
            Some(StreamEvent::Done { usage: p.usage })
        } else if chars_eq_str(ev, "error") {
            let message = match p.message {
                Some(m) => m,
                None => String::from_str("error"),
            };
            Some(StreamEvent::Error { message })
        } else {
            None
        }
    }

    /// Handles one complete line (without its `'\n'`).
    fn apply_line(&mut self, raw: &Vec<char>) -> (e: Option<StreamEvent>)
        ensures
            final(self)@.buf == old(self)@.buf,
            (final(self)@.mode, opt_event_view(e)) == on_line(old(self)@.mode, raw@),
    {
        proof {
            reveal_strlit("event:");
            reveal_strlit("data:");
        }
        let line = trimmed_end(raw);
        if has_prefix_str(&line, "event:") {
            let rest = skip_from(&line, 6);
            self.cur_event = trimmed(&rest);
            None
        } else if has_prefix_str(&line, "data:") {
            let rest = skip_from(&line, 5);
            let data = string_of(&trimmed(&rest));
            let payload = parse_event_payload(data.as_str());
            self.apply_payload(payload)
        } else {
            None
        }
    }

    /// Receives a chunk of the response body and returns the events of the
    /// lines it completes, in order.
    pub fn feed(&mut self, chunk: &str) -> (evs: Vec<StreamEvent>)
        ensures
            feed_spec(old(self)@, chunk@) == (final(self)@, event_views(evs@)),
    {
        let c = chars_of(chunk);
        let mut i: usize = 0;
        let ghost buf0 = self.buf@;
        while i < c.len()
            invariant
                i <= c@.len(),
                self.buf@ == buf0 + c@.take(i as int),
                self.cur_event@ == old(self)@.mode.event,
                self.got_content == old(self)@.mode.got_content,
                buf0 == old(self)@.buf,
            decreases c@.len() - i,
        {
            self.buf.push(c[i]);
            i = i + 1;
            assert(self.buf@ == buf0 + c@.take(i as int));
        }
        assert(c@.take(c@.len() as int) == c@);
        let ghost target = drain(old(self)@.mode, old(self)@.buf + chunk@);
        let mut evs: Vec<StreamEvent> = Vec::new();
        loop
            invariant
                ({
                    let (m, r, es) = drain(self@.mode, self@.buf);
                    target == (m, r, event_views(evs@) + es)
                }),
            ensures
                target == (self@.mode, self@.buf, event_views(evs@)),
            decreases self.buf@.len(),
        {
            let k = find_newline(&self.buf);
            match k {
                None => {
                    proof {
                        lemma_line_break(self.buf@, self.buf@.len() as int);
                        assert(event_views(evs@) + Seq::<EventView>::empty() == event_views(evs@));
                        assert(drain(self@.mode, self@.buf) == (self@.mode, self@.buf, Seq::<EventView>::empty()));
                    }
                    break;
                },
                Some(k) => {
                    proof {
                        lemma_line_break(self.buf@, k as int);
                    }
                    let ghost before = self@;
                    let n = self.buf.len();
                    let line = slice_range(&self.buf, 0, k);
                    self.buf = skip_from(&self.buf, k + 1);
                    assert(line@ == before.buf.take(k as int));
                    let e = self.apply_line(&line);
                    proof {
                        let (m1, e1) = on_line(before.mode, before.buf.take(k as int));
                        assert(self@.mode == m1);
                        let (m2, r2, es2) = drain(m1, before.buf.skip(k as int + 1));
                        assert(opt_seq(e1) + es2 == opt_seq(opt_event_view(e)) + es2);
                    }
                    match e {
                        Some(ev) => {
                            let ghost old_evs = evs@;
                            evs.push(ev);
                            proof {
                                assert(event_views(evs@) == event_views(old_evs).push(ev@));
                                let (m2, r2, es2) = drain(self@.mode, self@.buf);
                                assert(event_views(old_evs) + (seq![ev@] + es2) == event_views(
                                    evs@,
                                ) + es2);
                            }
                        },
                        None => {
                            proof {
                                let (m2, r2, es2) = drain(self@.mode, self@.buf);
                                assert(Seq::<EventView>::empty() + es2 == es2);
                            }
                        },
                    }
                },
            }
        }
        evs
    }
}

pub open spec fn opt_event_view(e: Option<StreamEvent>) -> Option<EventView> {
    match e {
        Some(x) => Some(x@),
        None => None,
    }
}

/// Index of the first `'\n'` in `v`.
fn find_newline(v: &Vec<char>) -> (k: Option<usize>)
    ensures
        match k {
            Some(k) => k < v@.len() && v@[k as int] == '\n' && forall|j: int|
                0 <= j < k ==> v@[j] != '\n',
            None => forall|j: int| 0 <= j < v@.len() ==> v@[j] != '\n',
        },
{
    let mut i: usize = 0;
    while i < v.len()
        invariant
            i <= v@.len(),
            forall|j: int| 0 <= j < i ==> v@[j] != '\n',
        decreases v@.len() - i,
    {
        if v[i] == '\n' {
            return Some(i);
        }
        i = i + 1;
    }
    None
}

} // verus!
