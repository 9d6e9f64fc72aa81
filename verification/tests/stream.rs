use strata::stream::{frame_end, Action, Decoder, MAX_STREAM_LINE};

/// What comes out, one text per action.
fn shown(actions: Vec<Action>) -> Vec<String> {
    actions
        .into_iter()
        .map(|a| match a {
            Action::Send(s) => format!("send {s}"),
            Action::Complete { prompt_tokens, completion_tokens } => {
                format!("complete {prompt_tokens} {completion_tokens}")
            }
            Action::CompleteIfOpen => "complete if open".to_string(),
        })
        .collect()
}

#[test]
fn a_frame_ends_at_a_blank_line() {
    assert_eq!(frame_end(b""), None);
    assert_eq!(frame_end(b"a\nb\n"), None);
    assert_eq!(frame_end(b"a\n\nb"), Some((1, 2)));
    assert_eq!(frame_end(b"a\r\n\r\nb"), Some((1, 4)));
    assert_eq!(frame_end(b"a\r\n\r"), None);
    assert_eq!(frame_end(b"\n\n"), Some((0, 2)));
}

#[test]
fn frames_are_passed_on_and_read_in_passing() {
    let mut d = Decoder::new();
    let usage = r#"{"usage":{"prompt_tokens":3,"completion_tokens":4}}"#;
    assert!(d.feed(format!("data: {{\"a\":1}}\n\n: comment\n\ndata:{usage}\r\n\r\n").as_bytes()).is_none());
    assert_eq!(shown(d.next().unwrap()), vec![r#"send {"a":1}"#]);
    // A frame without a payload is passed over.
    assert_eq!(shown(d.next().unwrap()), vec!["complete 3 4".to_string(), format!("send {usage}")]);
    assert!(d.next().is_none());
    assert!(!d.is_done());
    assert!(d.feed(b"data: [DONE]\n\n").is_none());
    assert_eq!(shown(d.next().unwrap()), vec!["complete if open", "send [DONE]"]);
    assert!(d.is_done());
}

#[test]
fn frames_may_arrive_in_pieces() {
    let mut d = Decoder::new();
    for piece in ["da", "ta: x", "\n", "\ndata: y\n\n"] {
        assert!(d.feed(piece.as_bytes()).is_none());
    }
    assert_eq!(shown(d.next().unwrap()), vec!["send x"]);
    assert_eq!(shown(d.next().unwrap()), vec!["send y"]);
    assert!(d.next().is_none());
}

#[test]
fn usage_of_nothing_does_not_settle_a_turn() {
    let mut d = Decoder::new();
    let none = r#"{"usage":{"prompt_tokens":0}}"#;
    d.feed(format!("data: {none}\ndata: {{not json\n\n").as_bytes());
    assert_eq!(shown(d.next().unwrap()), vec![format!("send {none}"), "send {not json".to_string()]);
    d.feed(b"data: {\"usage\":null}\n\n");
    assert_eq!(shown(d.next().unwrap()), vec!["send {\"usage\":null}"]);
}

/// Everything that comes out of chunks.
fn relayed(chunks: &[&[u8]]) -> Vec<String> {
    let mut d = Decoder::new();
    let mut out = Vec::new();
    for chunk in chunks {
        if d.is_done() {
            break;
        }
        assert!(d.feed(chunk).is_none());
        while !d.is_done() {
            match d.next() {
                Some(actions) => out.extend(shown(actions)),
                None => break,
            }
        }
    }
    out
}

#[test]
fn where_a_chunk_ends_makes_no_difference() {
    let bytes = "data: \u{e9}\u{20ac}\u{1f600}\r\n\r\n: x\n\ndata: \u{1f600}\n\ndata: [DONE]\n\ndata: y\n\n"
        .as_bytes();
    let whole = relayed(&[bytes]);
    assert_eq!(
        whole,
        vec![
            "send \u{e9}\u{20ac}\u{1f600}",
            "send \u{1f600}",
            "complete if open",
            "send [DONE]",
        ]
    );
    for i in 0..=bytes.len() {
        for j in i..=bytes.len() {
            assert_eq!(relayed(&[&bytes[..i], &bytes[i..j], &bytes[j..]]), whole, "{i} {j}");
        }
    }
    let single: Vec<&[u8]> = bytes.chunks(1).collect();
    assert_eq!(relayed(&single), whole);
}

#[test]
fn bytes_that_are_no_text_are_replaced() {
    let mut d = Decoder::new();
    d.feed(b"data: a\xffb\n\n");
    assert_eq!(shown(d.next().unwrap()), vec!["send a\u{fffd}b"]);
}

#[test]
fn a_stream_without_frames_is_cut_off() {
    let mut d = Decoder::new();
    let block = vec![b'x'; MAX_STREAM_LINE];
    assert!(d.feed(&block).is_none());
    assert!(!d.is_done());
    assert_eq!(shown(d.feed(b"y").unwrap()), vec!["send [DONE]"]);
    assert!(d.is_done());
}

#[test]
fn a_stream_that_ends_is_ended() {
    let mut d = Decoder::new();
    d.feed(b"data: half");
    assert_eq!(shown(d.finish()), vec!["complete if open", "send [DONE]"]);
    assert!(d.is_done());
}
