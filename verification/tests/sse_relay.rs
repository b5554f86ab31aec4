use neuraldeep_desktop::sse::{SseRelay, StreamEvent};

fn kinds(evs: &[StreamEvent]) -> Vec<String> {
    evs.iter()
        .map(|e| match e {
            StreamEvent::Delta { content } => format!("delta:{content}"),
            StreamEvent::Reasoning { content } => format!("reasoning:{content}"),
            StreamEvent::Tool { name, status } => format!("tool:{name}:{status}"),
            StreamEvent::Done { usage } => format!("done:{usage}"),
            StreamEvent::Error { message } => format!("error:{message}"),
        })
        .collect()
}

#[test]
fn relays_assistant_delta() {
    let mut r = SseRelay::new();
    let evs = r.feed("event: assistant.delta\ndata: {\"delta\": \"Hel\"}\n\n");
    assert_eq!(kinds(&evs), vec!["delta:Hel"]);
}

#[test]
fn empty_delta_is_dropped() {
    let mut r = SseRelay::new();
    let evs = r.feed("event: assistant.delta\ndata: {\"delta\": \"\"}\n");
    assert!(evs.is_empty());
}

#[test]
fn completed_is_a_fallback_only() {
    let mut r = SseRelay::new();
    let evs = r.feed(
        "event: assistant.delta\ndata: {\"delta\":\"hi\"}\nevent: assistant.completed\ndata: {\"content\":\"hi\"}\n",
    );
    assert_eq!(kinds(&evs), vec!["delta:hi"]);

    let mut r2 = SseRelay::new();
    let evs2 = r2.feed("event: assistant.completed\ndata: {\"content\":\"whole answer\"}\n");
    assert_eq!(kinds(&evs2), vec!["delta:whole answer"]);
    // once sent, the answer is not sent again by a later completion
    let evs3 = r2.feed("data: {\"content\":\"whole answer\"}\nevent: assistant.completed\ndata: {\"content\":\"x\"}\n");
    assert!(evs3.is_empty());
    // an empty completion sends nothing and leaves the fallback open
    let mut r3 = SseRelay::new();
    assert!(r3.feed("event: assistant.completed\ndata: {\"content\":\"\"}\n").is_empty());
    assert_eq!(kinds(&r3.feed("data: {\"content\":\"late\"}\n")), vec!["delta:late"]);
}

#[test]
fn reasoning_and_thinking_progress() {
    let mut r = SseRelay::new();
    let evs = r.feed(
        "event: reasoning.delta\ndata: {\"delta\":\"think\"}\nevent: tool.progress\ndata: {\"tool_name\":\"_thinking\",\"delta\":\"more\"}\nevent: tool.progress\ndata: {\"tool_name\":\"terminal\"}\nevent: tool.progress\ndata: {}\n",
    );
    assert_eq!(
        kinds(&evs),
        vec!["reasoning:think", "reasoning:more", "tool:terminal:progress"]
    );
}

#[test]
fn tool_steps_take_status_from_event() {
    let mut r = SseRelay::new();
    let evs = r.feed(
        "event: tool.started\ndata: {\"tool_name\":\"web\"}\nevent: tool.completed\ndata: {}\nevent: tool.failed\ndata: {\"tool_name\":\"x\"}\n",
    );
    assert_eq!(
        kinds(&evs),
        vec!["tool:web:started", "tool:tool:completed", "tool:x:failed"]
    );
}

#[test]
fn run_completed_carries_usage() {
    let mut r = SseRelay::new();
    let evs = r.feed("event: run.completed\ndata: {\"usage\":{\"total_tokens\":5}}\n");
    assert_eq!(kinds(&evs), vec!["done:{\"total_tokens\":5}"]);
    let evs = r.feed("data: {}\n");
    assert_eq!(kinds(&evs), vec!["done:null"]);
}

#[test]
fn error_event_message_defaults() {
    let mut r = SseRelay::new();
    let evs = r.feed("event: error\ndata: {\"message\":\"boom\"}\ndata: {}\n");
    assert_eq!(kinds(&evs), vec!["error:boom", "error:error"]);
}

#[test]
fn non_json_data_and_unknown_events_are_ignored() {
    let mut r = SseRelay::new();
    let evs = r.feed("event: assistant.delta\ndata: not json\n: comment\nevent: other\ndata: {\"delta\":\"x\"}\n");
    assert!(evs.is_empty());
}

#[test]
fn chunk_boundaries_do_not_matter() {
    let body = "event: assistant.delta\r\ndata: {\"delta\":\"a\"}\r\n\r\nevent: reasoning.delta\ndata: {\"delta\":\"b\"}\nevent: assistant.delta\ndata: {\"delta\":\"c\"}\n";
    let mut whole = SseRelay::new();
    let all = kinds(&whole.feed(body));
    assert_eq!(all, vec!["delta:a", "reasoning:b", "delta:c"]);
    for cut in 0..body.len() {
        if !body.is_char_boundary(cut) {
            continue;
        }
        let mut r = SseRelay::new();
        let mut evs = kinds(&r.feed(&body[..cut]));
        evs.extend(kinds(&r.feed(&body[cut..])));
        assert_eq!(evs, all, "cut at {cut}");
    }
}

#[test]
fn unfinished_line_waits_for_newline() {
    let mut r = SseRelay::new();
    assert!(r.feed("event: assistant.delta\ndata: {\"delta\":\"x\"}").is_empty());
    assert_eq!(kinds(&r.feed("\n")), vec!["delta:x"]);
}

#[test]
fn any_number_of_chunks() {
    let body = "event: tool.started\ndata: {\"tool_name\":\"web\"}\nevent: assistant.completed\r\ndata: {\"content\":\"всё\"}\n";
    let mut whole = SseRelay::new();
    let all = kinds(&whole.feed(body));
    assert_eq!(all, vec!["tool:web:started", "delta:всё"]);
    let mut r = SseRelay::new();
    let mut evs = Vec::new();
    for (i, c) in body.char_indices() {
        evs.extend(kinds(&r.feed(&body[i..i + c.len_utf8()])));
    }
    assert_eq!(evs, all);
}
