use serde_json::Value;
use strata::compact::{
    boundary, digest_msg, digest_of, lost_note, read_summary, rewrite, split_marker, sum,
    summary_body, summary_budget, summary_timeout, token_count, transcript, Compactor, Plan,
    Prepared, COMPRESSION_RATIO, COUNTS_KEPT, MARKER, MAX_SUMMARY_TOKENS, MIN_SUMMARY_TOKENS,
    PER_MESSAGE_OVERHEAD, SAFETY_TOKENS, SUMMARY_PROMPT, SUMMARY_TIMEOUT_CEILING_S,
    SUMMARY_TIMEOUT_FLOOR_S,
};
use strata::message::Msg;
use std::time::Duration;

const TRIGGER: f32 = 0.80;
const DROP: f32 = 0.50;
const MAX_RESERVE: f32 = 0.34;

fn msg(role: &str, content: &str) -> Msg {
    Msg::new(role, content)
}

fn json(s: &str) -> Value {
    serde_json::from_str(s).unwrap()
}

#[test]
fn marker_round_trips() {
    let (base, prior) = split_marker("be terse");
    assert_eq!(base, "be terse");
    assert!(prior.is_none());

    let joined = format!("be terse{MARKER}GOAL - ship it");
    let (base, prior) = split_marker(&joined);
    assert_eq!(base, "be terse");
    assert_eq!(prior.as_deref(), Some("GOAL - ship it"));
}

#[test]
fn digest_tracks_exactly_what_it_replaces() {
    let a = [msg("user", "one"), msg("assistant", "two")];
    let b = [msg("user", "one"), msg("assistant", "three")];
    assert_eq!(digest_of(None, &a), digest_of(None, &a));
    assert_ne!(digest_of(None, &a), digest_of(None, &b));
    assert_ne!(digest_of(None, &a), digest_of(Some("earlier"), &a));
}

/// A conversation of `pairs` exchanges, every message the same size.
fn conversation(pairs: usize) -> (Vec<Msg>, Vec<usize>) {
    let mut m = vec![msg("system", "be terse")];
    for i in 0..pairs {
        m.push(msg("user", &format!("question {i}")));
        m.push(msg("assistant", &format!("answer {i}")));
    }
    let counts = vec![100usize; m.len()];
    (m, counts)
}

#[test]
fn boundary_does_not_move_when_the_conversation_grows() {
    let (mut m, mut counts) = conversation(30);
    let (budget, trigger) = (5000, 4000);
    let first = boundary(&counts, &m, 1, budget, trigger, 768);
    assert!(first > 1 && first < m.len(), "cut lands inside the conversation");
    assert_eq!(m[first].role, "user", "the kept tail opens on a user message");

    // Two more turns arrive. The cut is measured from the start, so it must
    // stay put - that is what keeps the summary cached and the KV prefix
    // intact. It may only advance once the tail has grown past the trigger.
    for _ in 0..2 {
        m.push(msg("user", "another question"));
        m.push(msg("assistant", "another answer"));
        counts.push(100);
        counts.push(100);
    }
    assert_eq!(boundary(&counts, &m, 1, budget, trigger, 768), first);
}

#[test]
fn boundary_advances_once_the_tail_outgrows_the_trigger() {
    let (short, short_counts) = conversation(30);
    let (long, long_counts) = conversation(120);
    let (budget, trigger) = (5000, 4000);
    assert!(
        boundary(&long_counts, &long, 1, budget, trigger, 768)
            > boundary(&short_counts, &short, 1, budget, trigger, 768)
    );
}

#[test]
fn boundary_never_swallows_the_message_being_answered() {
    let (m, counts) = conversation(2);
    // A trigger nothing can satisfy: the cut must still stop short of the end.
    let cut = boundary(&counts, &m, 1, 5000, 0, 768);
    assert!(cut < m.len());
}

#[test]
fn summary_budget_tracks_what_is_being_dropped() {
    // The squeeze should stay near COMPRESSION_RATIO across contexts rather
    // than worsening as the window grows, which is what a fixed size did:
    // 5:1 at ctx 8192 and 43:1 at ctx 65536.
    for budget in [8_000usize, 61_312, 65_344] {
        let dropped = (budget as f32 * DROP) as usize;
        let squeeze = dropped / summary_budget(budget);
        assert!(
            squeeze <= COMPRESSION_RATIO + 1,
            "budget {budget}: {dropped} tokens into {} is {squeeze}:1",
            summary_budget(budget)
        );
    }
    // Floor and ceiling still hold at the extremes.
    assert_eq!(summary_budget(100), MIN_SUMMARY_TOKENS);
    assert_eq!(summary_budget(10_000_000), MAX_SUMMARY_TOKENS);
}

#[test]
fn the_summary_allowance_covers_the_work_it_was_measured_doing() {
    // A compaction that was measured: ~32,700 tokens read, a 4,075-token
    // summary written, 121 seconds. A fixed 180s left almost no margin over
    // that, and exceeding it discards the history.
    let allowed = Duration::from_secs(summary_timeout(32_700, 4_075));
    assert!(allowed >= Duration::from_secs(240), "got {allowed:?}");
    assert!(allowed <= Duration::from_secs(SUMMARY_TIMEOUT_CEILING_S));
}

#[test]
fn a_small_summary_still_gets_a_usable_floor() {
    assert_eq!(
        Duration::from_secs(summary_timeout(0, 0)),
        Duration::from_secs(SUMMARY_TIMEOUT_FLOOR_S)
    );
}

#[test]
fn reserve_is_capped_at_a_third_of_context() {
    let c = Compactor::new(8192, true);
    // A client asking to reserve half the window gets a third.
    assert_eq!(c.budget(4096), 8192 - (8192.0 * MAX_RESERVE) as usize - SAFETY_TOKENS);
    // A modest request is honoured as asked.
    assert_eq!(c.budget(512), 8192 - 512 - SAFETY_TOKENS);
}

#[test]
fn fractions_are_those_of_single_precision() {
    for ctx in [0usize, 1, 127, 128, 2048, 8192, 65536, 262144, 16_777_217, 33_554_435] {
        let c = Compactor::new(ctx, true);
        for reserve in [0usize, 100, 4096, 1 << 20] {
            let cap = (ctx as f32 * MAX_RESERVE) as usize;
            let budget = ctx.saturating_sub(reserve.min(cap) + SAFETY_TOKENS);
            assert_eq!(c.budget(reserve), budget, "{ctx} {reserve}");
            let after = budget as f32 * (1.0 - DROP) + summary_budget(budget) as f32;
            let want = ((budget as f32 * TRIGGER) as usize, after as usize);
            assert_eq!(c.thresholds(reserve), want, "{ctx} {reserve}");
        }
    }
    for budget in [1usize, 8191, 8192, 61_312, 100_001, usize::MAX] {
        let dropped = (budget as f32 * DROP) as usize;
        let want = (dropped / COMPRESSION_RATIO).clamp(MIN_SUMMARY_TOKENS, MAX_SUMMARY_TOKENS);
        assert_eq!(summary_budget(budget), want);
    }
}

#[test]
fn the_allowance_follows_the_work() {
    assert_eq!(summary_timeout(4000, 400), 60 + 100 + 100);
    assert_eq!(summary_timeout(usize::MAX, usize::MAX), SUMMARY_TIMEOUT_CEILING_S);
}

#[test]
fn the_boundary_is_exact() {
    let (m, counts) = conversation(30);
    // Rungs of 2500 tokens: 25 messages, which ends on a question, so the cut
    // lands on the next one.
    assert_eq!(boundary(&counts, &m, 1, 5000, 4400, 768), 27);
    // The next rung, where the first leaves too much.
    assert_eq!(boundary(&counts, &m, 1, 5000, 4000, 768), 51);
    // A head longer than the conversation leaves nothing to cut.
    assert_eq!(boundary(&counts, &m, 61, 5000, 0, 768), 61);
    let empty: [Msg; 0] = [];
    assert_eq!(boundary(&[], &empty, 0, 5000, 0, 768), 0);
    assert_eq!(sum(&counts), 6100);
}

#[test]
fn a_marker_is_found_where_it_first_stands() {
    let s = format!("a{MARKER}b{MARKER}c");
    let (base, rest) = split_marker(&s);
    assert_eq!(base, "a");
    assert_eq!(rest.unwrap(), format!("b{MARKER}c"));
}

#[test]
fn lost_history_is_said_to_be_lost() {
    assert_eq!(
        lost_note(12),
        "12 earlier messages were dropped to fit the context window, and summarising them did \
         not complete. Their content is not available: ask the user rather than assuming what \
         they said."
    );
}

#[test]
fn a_transcript_names_who_spoke() {
    let m = [msg("user", "hi"), msg("stra\u{df}e", "x")];
    assert_eq!(transcript(None, &m), "USER:\nhi\n\nSTRASSE:\nx\n\n");
    assert_eq!(
        transcript(Some("notes"), &m[..1]),
        "[record of still earlier messages]\nnotes\n\nUSER:\nhi\n\n"
    );
}

#[test]
fn a_turn_that_is_only_a_tool_call_is_not_lost() {
    let mut m = msg("assistant", "");
    m.extra.insert("tool_calls".to_string(), json(r#"[{"id":"1"}]"#));
    assert_eq!(transcript(None, &[m.clone()]), "ASSISTANT:\n[{\"id\":\"1\"}]\n\n");
    assert_ne!(digest_msg(&m), digest_msg(&msg("assistant", "")));
}

#[test]
fn a_summary_is_asked_for_and_read() {
    let body = summary_body("T", 700, json("0.0"));
    assert_eq!(body["messages"][0]["role"], "system");
    assert_eq!(body["messages"][0]["content"], SUMMARY_PROMPT);
    assert_eq!(body["messages"][1], json(r#"{"role":"user","content":"T"}"#));
    assert_eq!(body["max_tokens"], 700);
    assert_eq!(body["stream"], false);
    assert_eq!(body["temperature"], 0.0);
    assert_eq!(body.as_object().unwrap().len(), 4);

    let reply = json(r#"{"choices":[{"message":{"content":"  GOAL \n"}}]}"#);
    assert_eq!(read_summary(Some(&reply)).as_deref(), Some("GOAL"));
    let blank = json(r#"{"choices":[{"message":{"content":" \n"}}]}"#);
    assert_eq!(read_summary(Some(&blank)), None);
    assert_eq!(read_summary(Some(&json(r#"{"choices":[]}"#))), None);
    assert_eq!(read_summary(None), None);
}

#[test]
fn tokens_are_counted_or_estimated() {
    assert_eq!(token_count(Some(&json(r#"{"tokens":[1,2,3]}"#)), "abcdefghij"), 3);
    // A third of the characters, rounded up.
    assert_eq!(token_count(Some(&json(r#"{"tokens":7}"#)), "abcdefghij"), 4);
    assert_eq!(token_count(None, "abcdefghi"), 3);
    assert_eq!(token_count(None, "\u{e9}\u{e9}\u{e9}\u{e9}"), 2);
    assert_eq!(token_count(None, ""), 0);
}

/// Measures a conversation whose every message has `each` tokens.
fn measured(c: &mut Compactor, m: &[Msg], each: usize) -> Vec<usize> {
    let start = c.measure_start(m);
    let fetched = vec![each; start.missing.len()];
    c.measure_finish(start, &fetched)
}

#[test]
fn only_unseen_messages_are_measured() {
    let mut c = Compactor::new(8192, true);
    let (m, _) = conversation(2);
    let start = c.measure_start(&m);
    assert_eq!(start.missing, vec![0, 1, 2, 3, 4]);
    let counts = c.measure_finish(start, &[1, 2, 3, 4, 5]);
    let overhead = PER_MESSAGE_OVERHEAD;
    assert_eq!(counts, vec![1 + overhead, 2 + overhead, 3 + overhead, 4 + overhead, 5 + overhead]);

    let (longer, _) = conversation(3);
    let start = c.measure_start(&longer);
    assert_eq!(start.missing, vec![5, 6]);
    let counts = c.measure_finish(start, &[6, 7]);
    assert_eq!(counts.iter().sum::<usize>(), 28 + 7 * overhead);
}

#[test]
fn the_counts_are_dropped_when_there_are_too_many() {
    let mut c = Compactor::new(8192, true);
    let many: Vec<Msg> = (0..COUNTS_KEPT).map(|i| msg("user", &format!("m{i}"))).collect();
    measured(&mut c, &many, 1);
    assert!(c.measure_start(&many).missing.is_empty());
    measured(&mut c, &[msg("user", "one more")], 1);
    assert_eq!(c.measure_start(&many).missing.len(), COUNTS_KEPT);
}

#[test]
fn what_fits_is_left_alone() {
    let mut c = Compactor::new(8192, true);
    let (m, _) = conversation(2);
    let counts = measured(&mut c, &m, 100);
    assert!(c.is_plannable(&counts, 512));
    assert!(matches!(c.plan(&m, &counts, 512), Plan::AsIs { tokens: 540 }));
    assert_eq!(c.stats.last_prompt, 540);
    assert_eq!(c.stats.last_budget, 8192 - 512 - 128);

    // Switched off, nothing is ever cut.
    let mut off = Compactor::new(1000, false);
    let counts = measured(&mut off, &m, 1000);
    assert!(matches!(off.plan(&m, &counts, 0), Plan::AsIs { .. }));
    // Nor where the last exchange alone is over budget.
    let mut c = Compactor::new(1000, true);
    let one = [msg("user", "q")];
    let counts = measured(&mut c, &one, 5000);
    assert!(matches!(c.plan(&one, &counts, 0), Plan::AsIs { tokens: 5008 }));
}

#[test]
fn a_long_conversation_is_compacted_once_and_stays() {
    let mut c = Compactor::new(4096, true);
    let (m, _) = conversation(20);
    let counts = measured(&mut c, &m, 92);
    let budget = c.budget(512);
    assert_eq!(budget, 4096 - 512 - 128);
    let cut = match c.plan(&m, &counts, 512) {
        Plan::Cut(cut) => cut,
        other => panic!("{other:?}"),
    };
    assert_eq!((cut.total, cut.head_len), (4100, 1));
    assert_eq!(cut.system_base, "be terse");
    assert!(cut.prior.is_none() && cut.cached.is_none());
    assert_eq!(cut.summary_tokens, 512);
    assert_eq!(cut.digest, digest_of(None, &m[1..cut.start]));
    assert_eq!(m[cut.start].role, "user");

    // A summary that was not written is not kept.
    let (note, reused) = c.settle(&cut, None);
    assert_eq!((note, reused), (lost_note(cut.start - 1), false));
    let (text, reused) = c.settle(&cut, Some("GOAL".to_string()));
    assert_eq!((text.as_str(), reused), ("GOAL", false));

    let out = rewrite(&m, &cut, &text);
    assert_eq!(out.len(), 1 + m.len() - cut.start);
    assert_eq!(out[0].role, "system");
    assert_eq!(out[0].content, format!("be terse{MARKER}GOAL"));
    for (kept, was) in out[1..].iter().zip(&m[cut.start..]) {
        assert_eq!((&kept.role, &kept.content), (&was.role, &was.content));
    }
    let after = sum(&measured(&mut c, &out, 92));
    let kept = m.len() - cut.start;
    let summarised = cut.start - 1;
    match c.conclude(&cut, out, m.len(), after, reused, 33) {
        Prepared::Compacted { messages, event } => {
            assert_eq!(messages.len(), kept + 1);
            assert_eq!((event.before_tokens, event.after_tokens), (4100, after));
            assert_eq!((event.summarised_messages, event.kept_messages), (summarised, kept));
            assert_eq!((event.reused, event.took_ms), (false, 33));
        }
        other => panic!("{other:?}"),
    }
    assert_eq!((c.stats.summarised, c.stats.reused), (1, 0));
    assert_eq!(c.stats.reclaimed, (4100 - after) as u64);
    assert_eq!(c.stats.last_prompt, after as u64);

    // The next turn finds the summary and sends the same beginning.
    let mut longer = m.clone();
    longer.push(msg("user", "more"));
    let counts = measured(&mut c, &longer, 92);
    let again = match c.plan(&longer, &counts, 512) {
        Plan::Cut(cut) => cut,
        other => panic!("{other:?}"),
    };
    assert_eq!(again.start, cut.start);
    assert_eq!(again.cached.as_deref(), Some("GOAL"));
    let (text, reused) = c.settle(&again, None);
    assert_eq!((text.as_str(), reused), ("GOAL", true));
    let out = rewrite(&longer, &again, &text);
    assert_eq!(out[0].content, format!("be terse{MARKER}GOAL"));
    let before = c.stats;
    c.conclude(&again, out, longer.len(), 10_000, reused, 1);
    assert_eq!(c.stats.reused, 1);
    // Growing reclaims nothing.
    assert_eq!(c.stats.reclaimed, before.reclaimed);

    let standing = c.report();
    assert!(standing.enabled);
    assert_eq!((standing.ctx, standing.summary_tokens), (4096, 512));
    let shown = standing.to_json(json("0.75"), json("0.5"));
    assert_eq!(shown["last"]["kept_messages"], longer.len() - again.start);
    assert_eq!(shown["last"]["reused"], true);
    assert_eq!(shown["reused"], 1);
    assert_eq!(shown["prompt_tokens"], 10_000);
}

#[test]
fn a_conversation_without_a_system_gets_one() {
    let mut c = Compactor::new(4096, true);
    let (m, _) = conversation(20);
    let m = m[1..].to_vec();
    let counts = measured(&mut c, &m, 92);
    let cut = match c.plan(&m, &counts, 512) {
        Plan::Cut(cut) => cut,
        other => panic!("{other:?}"),
    };
    assert_eq!((cut.head_len, cut.system_base.as_str()), (0, ""));
    let out = rewrite(&m, &cut, "S");
    assert_eq!(out.len(), 1 + m.len() - cut.start);
    assert_eq!(out[0].role, "system");
    assert_eq!(out[0].content, format!("{MARKER}S"));

    // The next compaction finds the summary and replaces it.
    let mut again = out;
    again.extend(conversation(20).0[1..].to_vec());
    let counts = measured(&mut c, &again, 92);
    let cut = match c.plan(&again, &counts, 512) {
        Plan::Cut(cut) => cut,
        other => panic!("{other:?}"),
    };
    assert_eq!((cut.head_len, cut.system_base.as_str()), (1, ""));
    assert_eq!(cut.prior.as_deref(), Some("S"));
    assert_eq!(rewrite(&again, &cut, "T")[0].content, format!("{MARKER}T"));
}

#[test]
fn a_previous_summary_is_folded_into_the_next() {
    let mut c = Compactor::new(4096, true);
    let (mut m, _) = conversation(20);
    m.insert(0, msg("system", "first"));
    m[1] = msg("system", &format!("be terse{MARKER}OLD"));
    let counts = measured(&mut c, &m, 92);
    let cut = match c.plan(&m, &counts, 512) {
        Plan::Cut(cut) => cut,
        other => panic!("{other:?}"),
    };
    assert_eq!(cut.head_len, 2);
    assert_eq!(cut.prior.as_deref(), Some("OLD"));
    let out = rewrite(&m, &cut, "NEW");
    assert_eq!(out[0].content, "first");
    assert_eq!(out[1].content, format!("be terse{MARKER}NEW"));
}

#[test]
fn counts_past_the_machine_are_not_plannable() {
    let c = Compactor::new(8192, true);
    assert!(!c.is_plannable(&[usize::MAX, 1], 0));
    assert!(c.is_plannable(&[1, 1], 0));
}
