use serde_json::Value;
use strata::compact::{Compactor, Event};
use strata::grid::Experts;
use strata::message::Msg;
use strata::runner::Flags;
use strata::server::{
    access, change_body, chat_body, choose_flags, cpu_name, effective_key, experts_body, fail_turn,
    gpu_label, is_loopback, model_for, model_ids, model_list, open_turn, origin_allowed, push_turn,
    reply_budget, reported_loaded, request_id, require_key, response_headers, secret_eq, source_of,
    suggest_key, ticks, turn_gate, upstream_detail, usage_of, Access, ApiError, Call, Compute,
    Health, Held, Report, Sched, Source, SplitSource, TurnGuard, Waited, DEFAULT_MAX_TOKENS,
    PROFILE_KEEP,
};
use strata::tune::Tuned;

fn json(s: &str) -> Value {
    serde_json::from_str(s).unwrap()
}

#[test]
fn loopback_addresses_are_recognised() {
    for listen in ["127.0.0.1:8080", "localhost:8080", "[::1]:8080", "127.5.5.5:1"] {
        assert!(is_loopback(listen), "{listen} should be loopback");
    }
}

#[test]
fn everything_reachable_from_outside_is_not() {
    // 0.0.0.0 is the one that matters: it is what someone types when they want
    // a friend to connect, and it is the one that must demand a key.
    for listen in ["0.0.0.0:8080", "192.168.1.20:8080", "[::]:8080", "10.0.0.5:80"] {
        assert!(!is_loopback(listen), "{listen} should not be loopback");
    }
}

#[test]
fn keys_compare_by_value_not_by_prefix() {
    assert!(secret_eq(b"correct-horse", b"correct-horse"));
    assert!(!secret_eq(b"correct-horse", b"correct-hors"));
    assert!(!secret_eq(b"correct-horse", b"correct-horsf"));
    assert!(!secret_eq(b"", b"x"));
    assert!(secret_eq(b"", b""));
}

#[test]
fn a_suggested_key_is_long_enough_to_be_worth_suggesting() {
    let key = suggest_key(0x1234_5678_9abc_def0);
    assert!(key.len() >= 24, "{key}");
    assert!(key.chars().all(|c| c.is_ascii_alphanumeric()));
    assert_ne!(key, suggest_key(0x1234_5678_9abc_def1), "two suggestions should differ");
}

#[test]
fn a_suggested_key_is_drawn_from_its_seed() {
    let mut seed = 0xfeed_u64;
    let alphabet = b"abcdefghijkmnopqrstuvwxyz23456789";
    let want: String = (0..28)
        .map(|_| {
            seed ^= seed >> 12;
            seed ^= seed << 25;
            seed ^= seed >> 27;
            let n = seed.wrapping_mul(0x2545_F491_4F6C_DD1D);
            alphabet[(n >> 33) as usize % alphabet.len()] as char
        })
        .collect();
    assert_eq!(suggest_key(0xfeed), want);
}

#[test]
fn hosts_without_a_port() {
    assert!(is_loopback("localhost"));
    assert!(is_loopback("127.0.0.1"));
    assert!(is_loopback("[[::1]]:1"));
    assert!(!is_loopback("[::1]"));
    assert!(!is_loopback("localhost.example.com:80"));
    assert!(!is_loopback("12.7.0.1:80"));
    // Some systems take the empty host to mean every interface.
    assert!(!is_loopback(""));
    assert!(!is_loopback(":8080"));
}

#[test]
fn a_host_name_is_not_an_address() {
    for listen in [
        "127.example.com:8080",
        "127.0.0.1.example.com:8080",
        "127:80",
        "127.0.0.1.1:80",
        "127.16777216:80",
        "127.0.65536:80",
        "127.256.0:80",
        "127.256.0.1:80",
        "127.0.256.1:80",
        "127.0.0.256:80",
        "127.0.0.:80",
        "127.0.0.+1:80",
        "127.0.0.1x:80",
        "0127.0.0.1:80",
        "127.:80",
    ] {
        assert!(!is_loopback(listen), "{listen}");
        assert_eq!(access(listen, false), Access::Refused, "{listen}");
    }
    for listen in [
        "127.255.255.255:80",
        "127.1:8080",
        "127.16777215:80",
        "127.0.0:80",
        "127.255.65535:80",
        "127.0.1",
    ] {
        assert!(is_loopback(listen), "{listen}");
        assert_eq!(access(listen, false), Access::Local, "{listen}");
    }
}

#[test]
fn a_request_is_let_through_by_its_key() {
    let passes = |key, bearer, header| match require_key(key, bearer, header) {
        None => true,
        Some(e) => {
            assert_eq!((e.status(), e.kind().as_str()), (401, "unauthorized"));
            false
        }
    };
    assert!(passes(None, None, None));
    assert!(!passes(Some("k"), None, None));
    assert!(passes(Some("k"), Some("Bearer k"), None));
    assert!(!passes(Some("k"), Some("Bearer kk"), None));
    assert!(!passes(Some("k"), Some("bearer k"), None));
    assert!(passes(Some("k"), None, Some("k")));
    assert!(passes(Some("k"), Some("Basic k"), Some("k")));
    // A bearer token that is wrong is not made good by the other header.
    assert!(!passes(Some("k"), Some("Bearer x"), Some("k")));
    assert!(!passes(Some("k"), None, Some("x")));
}

#[test]
fn a_public_address_needs_a_key() {
    assert_eq!(access("0.0.0.0:8080", false), Access::Refused);
    assert_eq!(access("0.0.0.0:8080", true), Access::Keyed);
    assert_eq!(access("127.0.0.1:8080", false), Access::Local);
    assert_eq!(access("127.0.0.1:8080", true), Access::Keyed);
}

#[test]
fn a_blank_key_is_none() {
    let s = |x: &str| Some(x.to_string());
    assert_eq!(effective_key(s("a"), s("b")), s("a"));
    assert_eq!(effective_key(None, s(" b ")), s(" b "));
    assert_eq!(effective_key(s("  \t"), s("b")), None);
    assert_eq!(effective_key(None, None), None);
}

#[test]
fn pages_of_this_machine_may_call() {
    assert!(origin_allowed(b"http://localhost:5173"));
    assert!(origin_allowed(b"http://127.0.0.1:1"));
    assert!(!origin_allowed(b"https://localhost:5173"));
    assert!(!origin_allowed(b"http://localhost"));
    assert!(!origin_allowed(b"http://localhost.evil:1"));
}

#[test]
fn a_turn_is_counted_once_however_it_ends() {
    let mut s = Sched::default();
    s.enter_queue();
    assert_eq!(s.queued, 1);
    let mut g = open_turn(&mut s, Waited::Granted, Held::Loaded).unwrap();
    assert_eq!((s.queued, s.active, s.admitted), (0, 1, 1));
    assert!(g.settle(&mut s, Call::Complete));
    assert!(!g.settle(&mut s, Call::Complete));
    assert!(!g.settle(&mut s, Call::Reject));
    g.close(&mut s);
    let want = Sched { admitted: 1, completed: 1, ..Sched::default() };
    assert_eq!(s, want);

    let mut g = TurnGuard::new(&mut s);
    g.close(&mut s);
    assert_eq!(s, Sched { admitted: 2, cancelled: 1, ..want });

    let mut g = TurnGuard::new(&mut s);
    let e = fail_turn(&mut g, &mut s, "d".to_string());
    g.close(&mut s);
    assert!(matches!(e, ApiError::Upstream(d) if d == "d"));
    assert_eq!(s, Sched { admitted: 3, cancelled: 1, rejected: 1, ..want });
}

#[test]
fn a_turn_that_is_turned_away_was_never_in() {
    let cases = [
        (Waited::TimedOut, Held::Loaded, "queue_timeout"),
        (Waited::Closed, Held::Unloaded, "queue_timeout"),
        (Waited::Granted, Held::Locked, "model_busy"),
        (Waited::Granted, Held::Unloaded, "model_unloaded"),
    ];
    for (how, held, kind) in cases {
        let mut s = Sched::default();
        s.enter_queue();
        let e = open_turn(&mut s, how, held).unwrap_err();
        assert_eq!(e.kind(), kind);
        let late = if how == Waited::TimedOut { 1 } else { 0 };
        assert_eq!(s, Sched { timed_out: late, ..Sched::default() });
    }
    let mut s = Sched::default();
    s.enter_queue();
    assert!(open_turn(&mut s, Waited::Granted, Held::Foreign).is_ok());
}

#[test]
fn every_error_has_a_status_a_type_and_a_message() {
    let all = [
        (ApiError::NotOwned, 409, "not_owned", "strata does not own the compute process (--upstream); it is not ours to load or unload"),
        (ApiError::Draining, 503, "busy", "turns still running after 90s; nothing unloaded"),
        (ApiError::LoadFailed("why".to_string()), 500, "load_failed", "why"),
        (ApiError::ModelBusy, 503, "model_busy", "strata: the model is being loaded or unloaded. Try again shortly."),
        (ApiError::ModelUnloaded, 503, "model_unloaded", "strata: the model is unloaded. POST /model/load, or press Load in the console."),
        (ApiError::QueueTimeout, 503, "queue_timeout", "strata: all 4 scheduler slots busy for 120s"),
        (ApiError::Upstream("gone".to_string()), 502, "upstream_unavailable", "strata: compute process not answering. gone"),
        (ApiError::Unauthorized, 401, "unauthorized", "strata: this server requires an API key. Send it as `Authorization: Bearer <key>` or `x-api-key: <key>`."),
    ];
    for (e, status, kind, message) in all {
        assert_eq!(e.status(), status);
        assert_eq!(e.kind(), kind);
        assert_eq!(e.message(), message);
        let body = e.body();
        assert_eq!(body.pointer("/error/message").unwrap(), message);
        assert_eq!(body.pointer("/error/type").unwrap(), kind);
    }
}

#[test]
fn the_gate_does_not_wait_for_a_load() {
    assert!(turn_gate(Held::Foreign).is_none());
    assert!(turn_gate(Held::Loaded).is_none());
    assert!(matches!(turn_gate(Held::Locked), Some(ApiError::ModelBusy)));
    assert!(matches!(turn_gate(Held::Unloaded), Some(ApiError::ModelUnloaded)));
    assert!(reported_loaded(Held::Locked) && reported_loaded(Held::Foreign));
    assert!(!reported_loaded(Held::Unloaded));
}

#[test]
fn what_went_wrong_upstream() {
    assert_eq!(
        upstream_detail("http://u", Some("502 Bad Gateway"), ""),
        "upstream 502 Bad Gateway from http://u"
    );
    assert_eq!(upstream_detail("http://u", None, "refused"), "cannot reach http://u (refused)");
}

#[test]
fn a_turn_moves_the_grid_so_far_and_no_further() {
    assert_eq!(ticks(0), 0);
    assert_eq!(ticks(511), 511);
    assert_eq!(ticks(100_000), 512);
}

#[test]
fn the_profile_keeps_the_newest_turns() {
    let mut turns = Vec::new();
    for i in 0..PROFILE_KEEP + 3 {
        push_turn(&mut turns, i);
    }
    assert_eq!(turns.len(), PROFILE_KEEP);
    assert_eq!((turns[0], turns[PROFILE_KEEP - 1]), (3, PROFILE_KEEP + 2));
    let mut long: Vec<usize> = (0..100).collect();
    push_turn(&mut long, 100);
    assert_eq!((long.len(), long[0]), (PROFILE_KEEP, 69));
}

fn flags() -> Flags {
    Flags {
        ctx: 8192,
        cpu_moe_layers: 9,
        flash_attention: true,
        threads: 6,
        expert_override: None,
        kv_type: None,
    }
}

#[test]
fn a_process_is_given_up_and_taken_again() {
    let mut c = Compute { runner: Some("one"), model_path: "m", flags: flags(), port: 8099 };
    assert!(c.is_loaded());
    assert_eq!(c.load("two"), Some("two"));
    assert_eq!(c.unload(), Some("one"));
    assert!(!c.is_loaded());
    assert_eq!(c.unload(), None);
    assert_eq!(c.load("two"), None);
    assert!(c.is_loaded());
    assert_eq!((c.model_path, c.port, c.flags.ctx), ("m", 8099, 8192));
}

#[test]
fn where_the_compute_process_is_found() {
    assert!(matches!(source_of(Some("u".to_string()), true), Source::Existing(u) if u == "u"));
    assert!(matches!(source_of(None, true), Source::Start));
    assert!(matches!(source_of(None, false), Source::Nowhere));
}

#[test]
fn a_measurement_overrides_an_estimate_and_the_command_line_both() {
    let tuned = Tuned {
        cpu_moe_layers: 15,
        ctx: 8192,
        flash_attention: false,
        threads: 3,
        kv_type: None,
        expert_override: Some("p".to_string()),
        tok_s: 0,
        prefill_tok_s: 0,
        turn_s: 0,
        vram_gb: 0,
        measured_utc: String::new(),
    };
    let (f, s) = choose_flags(flags(), Some("q8_0".to_string()), None, None);
    assert_eq!((f.cpu_moe_layers, f.flash_attention, s), (9, true, SplitSource::Derived));
    assert_eq!(f.kv_type.as_deref(), Some("q8_0"));
    let (f, s) = choose_flags(flags(), None, Some(&tuned), None);
    assert_eq!((f.cpu_moe_layers, f.flash_attention, s), (15, false, SplitSource::Measured));
    assert_eq!(f.expert_override.as_deref(), Some("p"));
    // The threads are those of this machine.
    assert_eq!(f.threads, 6);
    let (f, s) = choose_flags(flags(), None, Some(&tuned), Some(2));
    assert_eq!((f.cpu_moe_layers, f.flash_attention, s), (2, false, SplitSource::CommandLine));
    // A split that is given is not undone by a measured pattern.
    assert_eq!(f.expert_override, None);
    let args = f.to_args("m", 1);
    assert!(args.windows(2).any(|w| w[0] == "-ncmoe" && w[1] == "2"));
    assert!(!args.contains(&"-ot".to_string()));
}

#[test]
fn names_for_people() {
    assert_eq!(gpu_label(Some("RX 7600"), Some("gfx1102")), "RX 7600 (gfx1102)");
    assert_eq!(gpu_label(Some("RX 7600"), None), "RX 7600");
    assert_eq!(gpu_label(None, Some("gfx1102")), "no GPU detected");
    assert_eq!(request_id(0), "chatcmpl-0");
    assert_eq!(request_id(0xdead_beef), "chatcmpl-deadbeef");
    assert_eq!(request_id(u128::MAX), format!("chatcmpl-{:x}", u128::MAX));
    assert_eq!(model_for("", "own"), "own");
    assert_eq!(model_for("other", "own"), "other");
    assert_eq!(reply_budget(None), DEFAULT_MAX_TOKENS);
    assert_eq!(reply_budget(Some(7)), 7);
}

#[test]
fn what_a_client_sends_survives_the_hop() {
    let mut extra = serde_json::Map::new();
    extra.insert("top_p".to_string(), json("0.9"));
    extra.insert("tools".to_string(), json(r#"[{"a":1}]"#));
    extra.insert("model".to_string(), json(r#""theirs""#));
    let messages = [Msg::new("user", "hi")];
    let body = chat_body(&extra, "ours", &messages, true, json("0.5"), 77, false);
    let want = json(
        r#"{"top_p":0.9,"tools":[{"a":1}],"model":"ours",
            "messages":[{"role":"user","content":"hi"}],"stream":true,
            "stream_options":{"include_usage":true},"temperature":0.5,"max_tokens":77,
            "chat_template_kwargs":{"enable_thinking":false}}"#,
    );
    assert_eq!(body, want);
    assert_eq!(extra.len(), 3);
}

#[test]
fn a_response_says_what_compaction_did() {
    let pairs = |v: Vec<strata::server::Header>| -> Vec<(String, String)> {
        v.into_iter().map(|h| (h.name, h.value)).collect()
    };
    let p = |a: &str, b: &str| (a.to_string(), b.to_string());
    let fits = Report::fits(100);
    assert_eq!(
        pairs(response_headers("id", 12, &fits, 900)),
        vec![
            p("x-request-id", "id"),
            p("x-strata-queue-wait-ms", "12"),
            p("x-strata-context-tokens", "100"),
            p("x-strata-context-budget", "900"),
            p("x-strata-compacted", "0"),
        ]
    );
    let event = Event {
        before_tokens: 1000,
        after_tokens: 300,
        summarised_messages: 5,
        kept_messages: 2,
        reused: false,
        took_ms: 9,
    };
    let h = pairs(response_headers("id", 0, &Report::compacted(&event), 900));
    assert_eq!(h[2], p("x-strata-context-tokens", "300"));
    assert_eq!(h[4], p("x-strata-compacted", "1"));
    assert_eq!(h[5], p("x-strata-compacted-tokens", "700"));
    let grown = Event { after_tokens: 1001, ..event };
    assert_eq!(Report::compacted(&grown).reclaimed, Some(0));
}

#[test]
fn usage_is_read_from_an_answer() {
    let body = json(r#"{"usage":{"prompt_tokens":12,"completion_tokens":34}}"#);
    assert_eq!(usage_of(&body), (12, 34));
    assert_eq!(usage_of(&json("{}")), (0, 0));
    assert_eq!(usage_of(&json(r#"{"usage":{"prompt_tokens":-1,"completion_tokens":1.5}}"#)), (0, 0));
}

#[test]
fn models_are_listed_once_in_a_row() {
    let body = json(r#"{"data":[{"id":"own"},{"id":"a"},{"x":1},{"id":"a"},{"id":"own"}]}"#);
    assert_eq!(model_ids("own", Some(&body)), vec!["own", "a", "own"]);
    assert_eq!(model_ids("own", None), vec!["own"]);
    assert_eq!(model_ids("own", Some(&json(r#"{"data":3}"#))), vec!["own"]);
    assert_eq!(
        model_list(&vec!["a".to_string()]),
        json(r#"{"object":"list","data":[{"id":"a","object":"model","owned_by":"strata"}]}"#)
    );
}

#[test]
fn loads_and_unloads_are_answered() {
    assert_eq!(change_body(false, true, None), json(r#"{"loaded":false,"changed":true}"#));
    assert_eq!(
        change_body(true, true, Some(json("1.5"))),
        json(r#"{"loaded":true,"changed":true,"load_seconds":1.5}"#)
    );
}

#[test]
fn the_health_of_the_server() {
    let compactor = Compactor::new(8192, true);
    let h = Health {
        sched: Sched { active: 1, queued: 2, admitted: 9, completed: 5, rejected: 1, timed_out: 3, cancelled: 2 },
        held: Held::Unloaded,
        model: "m".to_string(),
        compaction: compactor.report().to_json(json("0.75"), json("0.5")),
        tiers: (1, 2, 3),
        vram_gb: json("16.0"),
        ram_gb: json("20.0"),
        cores: 12,
        ram_total_gb: json("32.0"),
        ram_avail_gb: json("21.0"),
        gpus: 1,
        vram_total_gb: json("16.0"),
        cpu: "cpu".to_string(),
        gpu: "gpu".to_string(),
    };
    let want = json(
        r#"{"status":"ok","simulated":true,
            "scheduler":{"active":1,"capacity":4,"queued":2,"max_queue":32,
                "queue_timeout_seconds":120,"admitted":9,"completed":5,"rejected":1,
                "timed_out":3,"cancelled":2},
            "kv_slots":4,
            "model":{"owned":true,"loaded":false,"name":"m"},
            "compaction":{"enabled":true,"ctx":8192,"trigger_fraction":0.75,"drop_fraction":0.5,
                "summary_tokens":512,"prompt_tokens":0,"budget":0,"summarised":0,"reused":0,
                "tokens_reclaimed":0,"last":null},
            "tiers":{"vram":1,"ram":2,"disk":3,"vram_gb":16.0,"ram_gb":20.0},
            "hwinfo":{"cores":12,"ram_total_gb":32.0,"ram_avail_gb":21.0,"gpus":1,
                "vram_total_gb":16.0,"cpu":"cpu","gpu":"gpu"}}"#,
    );
    assert_eq!(h.to_json(), want);
}

#[test]
fn the_grid_is_shown_as_simulated() {
    let e = Experts::new(1, 3, 1, 1, 1);
    assert_eq!(
        experts_body(&e, &[63, 1, 0]),
        json(r#"{"rows":1,"cols":3,"map":"bf4100","hits":"00","seq":0,"simulated":true}"#)
    );
}

#[test]
fn the_processor_is_named_by_the_registry() {
    let answer = "\r\nHKEY_LOCAL_MACHINE\\HARDWARE\r\n    \
        ProcessorNameString    REG_SZ    AMD Ryzen 5 7600 6-Core Processor  \r\n\r\n";
    assert_eq!(cpu_name(answer).unwrap(), "AMD Ryzen 5 7600 6-Core Processor");
    assert_eq!(cpu_name("ProcessorNameString REG_SZ a REG_SZ b").unwrap(), "a");
    assert_eq!(cpu_name("ProcessorNameString REG_SZ  "), None);
    assert_eq!(cpu_name("ProcessorNameString"), None);
    // Only the first line that names it counts.
    assert_eq!(cpu_name("ProcessorNameString\nProcessorNameString REG_SZ x"), None);
    assert_eq!(cpu_name("nothing"), None);
}
