use strata::gguf::{Gguf, GgmlType, MetaValue, Metadata, TensorInfo};
use strata::placement::Placement;
use strata::runner::{
    endpoint, is_interesting, loader_path, pick_backend, wait_after, wait_begin, Backend, Flags,
    Library, LogTail, Runtime, Subdir, Waiting, LOG_KEEP,
};

fn base() -> Flags {
    Flags {
        ctx: 65536,
        cpu_moe_layers: 15,
        flash_attention: true,
        threads: 6,
        expert_override: None,
        kv_type: None,
    }
}

/// The exact command line a tuned configuration was measured with. Every later
/// feature is additive, and this is what proves it: if adding one changes these
/// arguments, the measurement no longer describes what runs.
#[test]
fn the_tuned_configuration_produces_the_arguments_it_was_measured_with() {
    let args = base().to_args("model.gguf", 8099);
    assert_eq!(
        args,
        vec![
            "-m", "model.gguf",
            "--host", "127.0.0.1",
            "--port", "8099",
            "-c", "65536",
            "-ngl", "99",
            "-t", "6",
            "--no-webui",
            "-np", "1",
            "--jinja",
            "-ncmoe", "15",
            "-fa", "on",
        ]
    );
}

#[test]
fn a_pattern_replaces_the_count_rather_than_joining_it() {
    let mut flags = base();
    flags.expert_override = Some(r"blk\.(0|1|5)\.ffn_.*_exps\.=CPU".into());
    let args = flags.to_args("model.gguf", 8099);
    assert!(args.contains(&"-ot".to_string()));
    assert!(!args.contains(&"-ncmoe".to_string()));
}

#[test]
fn a_kv_type_adds_both_halves_of_the_cache() {
    let mut flags = base();
    flags.kv_type = Some("q8_0".into());
    let args = flags.to_args("model.gguf", 8099);
    let at = |k: &str| args.iter().position(|a| a == k).map(|i| args[i + 1].clone());
    assert_eq!(at("-ctk").as_deref(), Some("q8_0"));
    assert_eq!(at("-ctv").as_deref(), Some("q8_0"));
}

#[test]
fn nothing_on_the_cpu_asks_for_nothing() {
    let mut flags = base();
    flags.cpu_moe_layers = 0;
    flags.flash_attention = false;
    let args = flags.to_args("m", 1);
    assert!(!args.contains(&"-ncmoe".to_string()));
    assert!(!args.contains(&"-fa".to_string()));
    assert_eq!(args.len(), 16);
    assert_eq!(flags.clone().to_args("m", 1), args);
}

fn solved(vram: u64) -> Placement {
    let mut metadata = Metadata::new();
    metadata.insert("general.architecture".to_string(), MetaValue::Str("t".to_string()));
    for (k, v) in [("block_count", 10), ("expert_count", 4)] {
        metadata.insert(format!("t.{k}"), MetaValue::U32(v));
    }
    metadata
        .insert("tokenizer.ggml.tokens".to_string(), MetaValue::Array(vec![MetaValue::U8(0)]));
    let tensor = |name: &str, n: u64| TensorInfo {
        name: name.to_string(),
        dims: vec![n],
        kind: GgmlType::F32,
        offset: 0,
    };
    let g = Gguf {
        version: 3,
        metadata,
        tensors: vec![tensor("output.weight", 25), tensor("blk.0.ffn_up_exps.weight", 250)],
        data_offset: 0,
        file_size: 0,
    };
    Placement::solve(&g, 512, vram, 0).unwrap()
}

#[test]
fn flags_are_derived_from_what_is_left_of_the_card() {
    // A hundred dense bytes and a fifth held back leave 300 of 500, which is
    // three layers of a hundred bytes each.
    let f = Flags::derive(&solved(500), Some(12));
    assert_eq!(f.ctx, 512);
    assert_eq!(f.cpu_moe_layers, 7);
    assert_eq!(f.threads, 6);
    assert!(f.flash_attention);
    assert!(f.expert_override.is_none() && f.kv_type.is_none());
    assert_eq!(Flags::derive(&solved(100), Some(1)).cpu_moe_layers, 10);
    assert_eq!(Flags::derive(&solved(100), Some(1)).threads, 1);
    assert_eq!(Flags::derive(&solved(100_000), None).cpu_moe_layers, 0);
    assert_eq!(Flags::derive(&solved(100_000), None).threads, 6);
}

#[test]
fn runtimes_are_looked_for_in_order() {
    let all = Runtime::discover(Some("set"), "runtime", Some("ollama"));
    assert_eq!(all, vec!["set", "runtime", "ollama"]);
    assert_eq!(Runtime::discover(None, "runtime", None), vec!["runtime"]);
}

fn subdir(name: &str, has_hip: bool, has_vulkan: bool) -> Subdir {
    Subdir { name: name.to_string(), has_hip, has_vulkan }
}

#[test]
fn rocm_is_preferred_to_vulkan() {
    let none: Vec<Subdir> = vec![];
    assert_eq!(pick_backend(true, true, &none), Some(Backend::Beside(Library::Hip)));
    assert_eq!(pick_backend(false, true, &none), Some(Backend::Beside(Library::Vulkan)));
    assert_eq!(pick_backend(false, false, &none), None);
    let dirs = vec![
        subdir("cuda_v12", true, true),
        subdir("vulkan", false, true),
        subdir("vulkan2", false, true),
        subdir("rocm_v6", false, true),
        subdir("rocm_v7", true, false),
    ];
    assert_eq!(pick_backend(false, false, &dirs), Some(Backend::Within(4, Library::Hip)));
    // A ROCm backend in a subdirectory comes before Vulkan beside the server.
    assert_eq!(pick_backend(false, true, &dirs), Some(Backend::Within(4, Library::Hip)));
    assert_eq!(pick_backend(true, true, &dirs), Some(Backend::Beside(Library::Hip)));
    let dirs = vec![subdir("x", true, true), subdir("vulkan", false, true), subdir("vulkan2", false, true)];
    assert_eq!(pick_backend(false, true, &dirs), Some(Backend::Beside(Library::Vulkan)));
    assert_eq!(pick_backend(false, false, &dirs), Some(Backend::Within(1, Library::Vulkan)));
}

#[test]
fn the_loader_path_leads_with_the_sdk() {
    let p = loader_path(vec!["s1", "s2"], "lib", Some("backend"), vec!["usr", "bin"]);
    assert_eq!(p, vec!["s1", "s2", "lib", "backend", "usr", "bin"]);
    let p = loader_path(vec![], "lib", None, vec!["usr"]);
    assert_eq!(p, vec!["lib", "usr"]);
}

#[test]
fn the_tail_of_the_log_is_its_end() {
    let mut log = LogTail::new();
    assert_eq!(log.log_tail(25), "");
    for i in 0..LOG_KEEP + 5 {
        log.push(format!("line {i}  "));
    }
    assert_eq!(log.log_tail(2), "    line 63\n    line 64");
    let all = log.log_tail(1000);
    assert_eq!(all.lines().count(), LOG_KEEP);
    assert!(all.starts_with("    line 5\n"));
}

#[test]
fn only_what_matters_reaches_the_console() {
    for line in [
        "ERROR: no device",
        "hipMalloc Failed",
        "cannot open",
        "unable to allocate",
        "Out Of Memory",
        "not supported",
        "load_tensors: offloading 41 layers",
        "ggml_cuda_init: found 1 device",
    ] {
        assert!(is_interesting(line), "{line}");
    }
    for line in ["llm_load_print_meta: n_layer", "  load_tensors: offloading", ""] {
        assert!(!is_interesting(line), "{line}");
    }
}

#[test]
fn waiting_ends_one_way_or_another() {
    assert_eq!(endpoint(8099), "http://127.0.0.1:8099");
    assert_eq!(wait_begin(599_999, 600_000), Waiting::Ask);
    assert_eq!(wait_begin(600_000, 600_000), Waiting::Expired);
    assert_eq!(wait_after(true, true), Waiting::Ready);
    assert_eq!(wait_after(false, true), Waiting::Exited);
    assert_eq!(wait_after(false, false), Waiting::Pause);
}
