use strata::gguf::{Gguf, GgmlType, MetaValue, Metadata, TensorInfo};
use strata::hardware::{Device, Machine};
use strata::placement::PlacementError;
use strata::setup::{
    choose_context, is_plannable, next_step, plan_for, plan_on, role_of, sole_model, Choice,
    PlanError, Role, Step,
};

/// A 35B model with hybrid attention, so only some layers keep a cache.
const ORNITH_KV: u64 = 20480;

const LADDER: [usize; 8] = [2048, 4096, 8192, 16384, 32768, 65536, 131072, 262144];

const GIB: u64 = 1024 * 1024 * 1024;

/// Gigabytes as the mebibytes a device reports.
fn mib(gb: f32) -> u64 {
    (gb * 1024.0) as u64
}

#[test]
fn reproduces_the_context_chosen_by_hand_on_a_16gb_card() {
    // 65536 was arrived at by measurement; a rule that disagreed with it would
    // be the wrong rule.
    assert_eq!(choose_context(262144, ORNITH_KV, mib(16.0)), 65536);
}

#[test]
fn smaller_cards_get_smaller_contexts() {
    assert_eq!(choose_context(262144, ORNITH_KV, mib(8.0)), 32768);
    assert_eq!(choose_context(262144, ORNITH_KV, mib(4.0)), 16384);
    assert_eq!(choose_context(262144, ORNITH_KV, mib(2.0)), 8192);
}

#[test]
fn a_dense_model_with_a_fat_cache_gets_a_short_context() {
    // A non-hybrid 70B at 8 bytes/token/layer over 80 layers.
    let dense_kv = 640_000u64;
    assert!(choose_context(131072, dense_kv, mib(16.0)) <= 2048);
}

#[test]
fn never_exceeds_what_the_model_was_trained_for() {
    assert_eq!(choose_context(8192, ORNITH_KV, mib(48.0)), 8192);
    assert_eq!(choose_context(4096, ORNITH_KV, mib(96.0)), 4096);
}

#[test]
fn always_lands_on_the_ladder() {
    for vram in [1.0f32, 3.5, 7.0, 11.0, 24.0, 80.0] {
        let c = choose_context(262144, ORNITH_KV, mib(vram));
        assert!(LADDER.contains(&c), "{vram} GB gave {c}");
    }
}

#[test]
fn the_share_of_the_card_is_that_of_single_precision() {
    for vram_mib in [0u64, 1, 12472, 16368, 16384, 24564, 81559, 1 << 40] {
        for kv in [0u64, 1, 20480, 98304, 640_000] {
            let vram_gb = vram_mib as f32 / 1024.0;
            let budget = (vram_gb * 0.10 * 1024.0 * 1024.0 * 1024.0) as u64;
            let affordable = if kv > 0 { (budget / kv) as usize } else { 262144 };
            let want = LADDER.iter().rev().copied().find(|&c| c <= affordable).unwrap_or(2048);
            assert_eq!(choose_context(262144, kv, vram_mib), want, "{vram_mib} MiB, {kv}");
        }
    }
}

fn model(kv_heads: u32, expert_blocks: u64) -> Gguf {
    let mut metadata = Metadata::new();
    metadata.insert("general.architecture".to_string(), MetaValue::Str("t".to_string()));
    for (k, v) in [
        ("block_count", 2),
        ("expert_count", 4),
        ("attention.head_count_kv", kv_heads),
        ("attention.key_length", 64),
        ("attention.value_length", 64),
        ("context_length", 32768),
    ] {
        metadata.insert(format!("t.{k}"), MetaValue::U32(v));
    }
    metadata
        .insert("tokenizer.ggml.tokens".to_string(), MetaValue::Array(vec![MetaValue::U8(0)]));
    let tensor = |name: &str, n: u64| TensorInfo {
        name: name.to_string(),
        dims: vec![1024, n],
        kind: GgmlType::F32,
        offset: 0,
    };
    Gguf {
        version: 3,
        metadata,
        tensors: vec![tensor("output.weight", 256), tensor("blk.0.ffn_down_exps.weight", expert_blocks)],
        data_offset: 0,
        file_size: 0,
    }
}

fn machine(total_mib: u64, avail: u64) -> Machine {
    let d = Device { id: "A".to_string(), name: "Card".to_string(), total_mib, free_mib: 0 };
    Machine { devices: vec![d], ram_total_bytes: 2 * avail, ram_avail_bytes: avail, cores: 8 }
}

#[test]
fn a_machine_is_planned_for() {
    // 512 bytes of cache a token; 64 MiB of experts.
    let g = model(1, 16384);
    let m = machine(64, 5 * GIB);
    assert!(is_plannable(&g, &m));
    let c = plan_for(&g, &m).unwrap();
    // A tenth of 64 MiB holds 13107 tokens.
    assert_eq!(c.ctx, 8192);
    assert_eq!(c.kv_bytes, 8192 * 512);
    assert_eq!(c.dense_bytes, 1 << 20);
    assert_eq!(c.expert_count, 8);
    // 59 MiB left for experts of 8 MiB, and a gibibyte of the host.
    assert_eq!(c.disk_experts, 0);
    assert!(c.fits_in_memory);
    assert_eq!((c.vram_mib, c.ram_bytes), (64, GIB));
    assert!(!c.spills());
    assert!(!c.is_hopeless());

    // With nothing to spare on the host, what the card cannot hold spills.
    let c = plan_for(&g, &machine(64, 4 * GIB)).unwrap();
    assert_eq!(c.disk_experts, 1);
    assert!(!c.fits_in_memory);
    assert!(c.spills());
    assert!(!c.is_hopeless());
}

#[test]
fn every_reason_not_to_plan_is_told() {
    let g = model(1, 16384);
    let none = Machine { devices: vec![], ..machine(64, 5 * GIB) };
    assert!(matches!(plan_for(&g, &none), Err(PlanError::NoDevice)));

    let mut small = model(1, 16384);
    small.metadata = Metadata::new();
    assert!(matches!(
        plan_for(&small, &machine(64, 5 * GIB)),
        Err(PlanError::Placement(PlacementError::Facts(_)))
    ));

    match plan_on(&g, 1, 0) {
        Err(PlanError::TooLarge { vram_mib, dense_bytes, kv_bytes }) => {
            assert_eq!((vram_mib, dense_bytes, kv_bytes), (1, 1 << 20, 2048 * 512));
        }
        other => panic!("{other:?}"),
    }
}

fn choice(disk_experts: usize, expert_count: usize) -> Choice {
    Choice {
        ctx: 8192,
        kv_bytes: 0,
        dense_bytes: 0,
        disk_experts,
        expert_count,
        fits_in_memory: disk_experts == 0,
        vram_mib: 1,
        ram_bytes: 1,
    }
}

#[test]
fn more_than_half_on_disk_is_hopeless() {
    assert!(choice(51, 100).is_hopeless());
    assert!(!choice(50, 100).is_hopeless());
    assert!(!choice(0, 0).is_hopeless());
    assert!(!choice(0, 100).spills());
    assert!(choice(1, 100).spills());
}

#[test]
fn setup_refuses_then_reports_then_keeps_then_measures() {
    let (good, bad) = (choice(0, 100), choice(90, 100));
    assert_eq!(next_step(&bad, false, true, true, true), Step::Refuse);
    assert_eq!(next_step(&bad, true, true, true, true), Step::Report);
    assert_eq!(next_step(&good, false, true, false, false), Step::Report);
    assert_eq!(next_step(&good, false, false, true, false), Step::Keep);
    assert_eq!(next_step(&good, false, false, true, true), Step::Measure);
    assert_eq!(next_step(&good, false, false, false, false), Step::Measure);
}

#[test]
fn devices_have_roles() {
    let mut m = machine(1000, 0);
    let igpu =
        Device { id: "B".to_string(), name: "X Graphics".to_string(), total_mib: 9, free_mib: 0 };
    let other = Device { id: "C".to_string(), name: "X".to_string(), total_mib: 9, free_mib: 0 };
    m.devices.push(igpu);
    m.devices.push(other);
    assert_eq!(role_of(&m, &m.devices[0]), Role::Planned);
    assert_eq!(role_of(&m, &m.devices[1]), Role::Integrated);
    assert_eq!(role_of(&m, &m.devices[2]), Role::Other);
}

#[test]
fn one_model_needs_no_name() {
    assert_eq!(sole_model(vec![]), Ok(None));
    assert_eq!(sole_model(vec!["a".to_string()]), Ok(Some("a".to_string())));
    assert_eq!(
        sole_model(vec!["a".to_string(), "b".to_string()]),
        Err("a, b".to_string())
    );
}
