use serde_json::Value;
use strata::tune::{
    candidates, decode_body, legacy_path, load, neighbours, now_utc, prefill_body, sized_prompt,
    tokens_read, tokens_written, tuned_path, Sweep, Tuned, FILLER, PREFILL_TOKENS, PROMPT, TOKENS,
};

fn json(s: &str) -> Value {
    serde_json::from_str(s).unwrap()
}

fn tuned(ctx: usize, layers: usize) -> Tuned {
    Tuned {
        cpu_moe_layers: layers,
        ctx,
        flash_attention: true,
        threads: 6,
        kv_type: None,
        expert_override: None,
        tok_s: 42.5f32.to_bits(),
        prefill_tok_s: 0,
        turn_s: 0,
        vram_gb: 0,
        measured_utc: now_utc(17),
    }
}

#[test]
fn every_context_has_a_file_of_its_own() {
    assert_eq!(tuned_path(8192, None), "tuned-8192.json");
    assert_eq!(tuned_path(65536, Some("q8_0")), "tuned-65536-q8_0.json");
    assert_eq!(legacy_path(), "tuned.json");
    let types = [None, Some("q8_0"), Some("q4_0"), Some("2"), Some("2-2"), Some("")];
    let mut names = Vec::new();
    for ctx in [2usize, 22, 8192] {
        for t in types {
            names.push(tuned_path(ctx, t));
        }
    }
    let all = names.len();
    names.sort();
    names.dedup();
    assert_eq!(names.len(), all);
    assert_eq!(now_utc(17), "unix:17");
}

#[test]
fn a_measurement_is_used_for_its_context_only() {
    let got = |own: Option<Tuned>, legacy: Option<Tuned>| load(own, legacy, 8192).map(|t| t.cpu_moe_layers);
    assert_eq!(got(Some(tuned(8192, 1)), Some(tuned(8192, 2))), Some(1));
    assert_eq!(got(Some(tuned(4096, 1)), Some(tuned(8192, 2))), Some(2));
    assert_eq!(got(None, Some(tuned(8192, 2))), Some(2));
    assert_eq!(got(Some(tuned(4096, 1)), Some(tuned(4096, 2))), None);
    assert_eq!(got(None, None), None);
}

#[test]
fn the_first_pass_brackets_half_the_layers() {
    assert_eq!(candidates(41, 19), vec![0, 12, 16, 19, 21, 25, 31]);
    assert_eq!(candidates(41, 16), vec![0, 12, 16, 21, 25, 31]);
    assert_eq!(candidates(1, 1), vec![0]);
    assert_eq!(candidates(0, 0), Vec::<usize>::new());
    for layers in 0..200usize {
        let mut want: Vec<usize> = [0.0f32, 0.3, 0.4, 0.5, 0.6, 0.75]
            .iter()
            .map(|f| ((layers as f32) * f).round() as usize)
            .collect();
        want.push(7);
        want.sort_unstable();
        want.dedup();
        want.retain(|&c| c < layers);
        assert_eq!(candidates(layers, 7), want, "{layers}");
    }
}

#[test]
fn neighbours_come_nearest_last() {
    assert_eq!(neighbours(10, 41, &vec![]), vec![12, 8, 11, 9]);
    assert_eq!(neighbours(10, 41, &vec![11, 8]), vec![12, 9]);
    assert_eq!(neighbours(0, 2, &vec![]), vec![1]);
    assert_eq!(neighbours(1, 3, &vec![]), vec![2, 0]);
}

#[test]
fn a_sweep_measures_each_split_once_and_then_beside_the_best() {
    let mut s = Sweep::new(41, 19);
    let mut seen = Vec::new();
    let mut best: Option<(usize, usize)> = None;
    while let Some(split) = s.next() {
        assert!(!seen.contains(&split));
        seen.push(split);
        // The fastest is 14, between two splits of the first pass.
        let cost = split.abs_diff(14);
        let improved = best.map_or(true, |(c, _)| cost < c);
        if improved {
            best = Some((cost, split));
        }
        let second = s.record(split, improved);
        assert_eq!(second, seen.len() == 7);
    }
    assert_eq!(seen, vec![31, 25, 21, 19, 16, 12, 0, 15, 17, 14, 18]);
    assert_eq!(best, Some((0, 14)));
}

#[test]
fn a_sweep_where_nothing_works_ends() {
    let mut s = Sweep::new(10, 10);
    let mut n = 0;
    while let Some(split) = s.next() {
        n += 1;
        assert!(!s.record(split, false));
    }
    assert_eq!(n, candidates(10, 10).len());
}

#[test]
fn a_prompt_is_about_as_long_as_asked_for() {
    for tokens in [0u32, 1, 100, 8192] {
        let mut want = String::new();
        while want.len() < (tokens as f32 * 3.4) as usize {
            want.push_str(FILLER);
        }
        assert_eq!(sized_prompt(tokens), want, "{tokens}");
    }
}

#[test]
fn the_two_questions_a_measurement_asks() {
    let body = prefill_body(json("0.0"));
    let content = body["messages"][0]["content"].as_str().unwrap();
    assert_eq!(content, format!("{}\n\nReply with one word.", sized_prompt(PREFILL_TOKENS)));
    assert_eq!(body["messages"][0]["role"], "user");
    assert_eq!(body["max_tokens"], 1);
    assert_eq!(body["stream"], false);
    assert_eq!(body["temperature"], 0.0);

    let body = decode_body(json("0.0"));
    assert_eq!(body["messages"][0]["content"], PROMPT);
    assert_eq!(body["max_tokens"], TOKENS);

    let reply = json(r#"{"usage":{"prompt_tokens":8000,"completion_tokens":160}}"#);
    assert_eq!((tokens_read(&reply), tokens_written(&reply)), (8000, 160));
    assert_eq!((tokens_read(&json("{}")), tokens_written(&json("[]"))), (0, 0));
}
