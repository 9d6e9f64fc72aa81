use strata::gguf::{FactsError, Gguf, GgmlType, MetaValue, Metadata, TensorInfo};
use strata::placement::{
    candidates, fill_tiers, make_safe, resolve_path, Place, Placement, PlacementError, Tiers,
};

const GIB: u64 = 1024 * 1024 * 1024;

/// A 35B model on a desktop: 20.21 GiB total, 1.56 GiB of it dense, 10,496
/// routed experts, 1.25 GiB of cache at ctx 65536.
#[test]
fn the_model_we_run_needs_no_disk() {
    let expert_bytes = (20.21 - 1.56) * GIB as f64;
    let count = 41 * 256;
    let per_expert = (expert_bytes / count as f64) as u64;
    let vram_left = 16 * GIB - (1.56 * GIB as f64) as u64 - (1.25 * GIB as f64) as u64;

    let t = fill_tiers(count, per_expert, vram_left, 21 * GIB);
    assert_eq!(t.disk_experts, 0, "this configuration is measured and does not spill");
    assert!(t.vram_experts > count / 2, "most experts are on the card");
}

/// A 200B MoE at Q4_K on the same machine. The point of the test is that the
/// answer is "most of it has nowhere to go".
#[test]
fn a_200b_model_spills_most_of_itself() {
    let total = 112.0 * GIB as f64;
    let dense = total * 0.08;
    let count = 96 * 256;
    let per_expert = ((total - dense) / count as f64) as u64;
    let vram_left = 16 * GIB - dense as u64 - (1.25 * GIB as f64) as u64;

    let t = fill_tiers(count, per_expert, vram_left, 21 * GIB);
    let spill = t.disk_experts as f32 / count as f32;
    assert!(spill > 0.5, "expected most of a 200B to spill, got {:.0}%", 100.0 * spill);
}

#[test]
fn every_expert_is_accounted_for() {
    let count = 1000;
    for vram in [0u64, GIB, 8 * GIB, 64 * GIB] {
        for ram in [0u64, 4 * GIB, 512 * GIB] {
            let t = fill_tiers(count, 16 * 1024 * 1024, vram, ram);
            assert_eq!(t.vram_experts + t.ram_experts + t.disk_experts, count);
        }
    }
}

#[test]
fn a_model_with_no_room_anywhere_is_entirely_spilled() {
    let t = fill_tiers(512, GIB, 0, 0);
    assert_eq!(t.disk_experts, 512);
}

#[test]
fn a_dense_model_has_no_experts_to_place() {
    let t = fill_tiers(0, 0, 8 * GIB, 32 * GIB);
    assert_eq!(t, Tiers { vram_experts: 0, ram_experts: 0, disk_experts: 0 });
}

#[test]
fn the_card_is_filled_before_the_host() {
    let t = fill_tiers(10, 3, 14, 7);
    assert_eq!(t, Tiers { vram_experts: 4, ram_experts: 2, disk_experts: 4 });
    let more = fill_tiers(10, 3, 15, 7);
    assert_eq!(more, Tiers { vram_experts: 5, ram_experts: 2, disk_experts: 3 });
    // Experts of no size are placed nowhere.
    let t = fill_tiers(10, 0, 14, 7);
    assert_eq!(t, Tiers { vram_experts: 0, ram_experts: 0, disk_experts: 10 });
}

#[test]
fn a_safe_name_is_one_directory() {
    assert_eq!(make_safe("ornith:35b"), "ornith_35b");
    assert_eq!(make_safe("org/name\\x"), "org_name_x");
    assert_eq!(make_safe("plain-1.5"), "plain-1.5");
}

#[test]
fn a_model_is_looked_for_in_order() {
    let c = candidates("a:b");
    assert_eq!(c.len(), 4);
    assert_eq!((c[0].place, c[0].name.as_str()), (Place::Direct, "a:b"));
    assert_eq!((c[1].place, c[1].name.as_str()), (Place::Local, "a_b"));
    assert_eq!((c[2].place, c[2].name.as_str()), (Place::Local, "a:b"));
    assert_eq!((c[3].place, c[3].name.as_str()), (Place::Bundled, "a_b"));

    assert!(resolve_path("a:b", &[false, false, false, false]).is_none());
    let r = resolve_path("a:b", &[false, false, true, true]).unwrap();
    assert_eq!((r.place, r.name.as_str()), (Place::Local, "a:b"));
    let r = resolve_path("a:b", &[true, true, true, true]).unwrap();
    assert_eq!((r.place, r.name.as_str()), (Place::Direct, "a:b"));
    let r = resolve_path("a:b", &[false, false, false, true]).unwrap();
    assert_eq!((r.place, r.name.as_str()), (Place::Bundled, "a_b"));
}

fn tensor(name: &str, dims: Vec<u64>, kind: GgmlType) -> TensorInfo {
    TensorInfo { name: name.to_string(), dims, kind, offset: 0 }
}

/// Four layers of eight experts; every second layer keeps a cache.
fn model() -> Gguf {
    let mut metadata = Metadata::new();
    let set = [
        ("block_count", 4),
        ("expert_count", 8),
        ("expert_used_count", 2),
        ("attention.head_count_kv", 2),
        ("attention.key_length", 16),
        ("attention.value_length", 16),
        ("full_attention_interval", 2),
        ("context_length", 4096),
    ];
    metadata.insert("general.architecture".to_string(), MetaValue::Str("test".to_string()));
    metadata.insert("general.name".to_string(), MetaValue::Str("Test".to_string()));
    for (k, v) in set {
        metadata.insert(format!("test.{k}"), MetaValue::U32(v));
    }
    metadata.insert(
        "tokenizer.ggml.tokens".to_string(),
        MetaValue::Array(vec![MetaValue::Str("a".to_string()), MetaValue::Str("b".to_string())]),
    );
    Gguf {
        version: 3,
        metadata,
        tensors: vec![
            tensor("token_embd.weight", vec![256, 4], GgmlType::F32),
            tensor("blk.0.ffn_up_exps.weight", vec![256, 8], GgmlType::F16),
            tensor("blk.1.ffn_up_exps.weight", vec![256, 8, 1], GgmlType::F16),
            tensor("blk.0.ffn_up_shexp.weight", vec![32], GgmlType::Q8_0),
            tensor("blk.0.odd", vec![1000], GgmlType::Other(99)),
        ],
        data_offset: 0,
        file_size: 1,
    }
}

#[test]
fn a_plan_adds_up() {
    let g = model();
    assert!(Placement::is_solvable(&g, 1000));
    let p = Placement::solve(&g, 1000, 300_000, 2000).unwrap();
    assert_eq!(p.total_weight_bytes, 4096 + 4096 + 4096 + 34);
    assert_eq!(p.expert_bytes, 8192);
    assert_eq!(p.dense_bytes, 4130);
    assert_eq!(p.expert_count, 32);
    assert_eq!(p.attention_layers, 2);
    // Two layers, two heads, 32 elements, two bytes each.
    assert_eq!(p.kv_bytes_per_token, 256);
    assert_eq!(p.kv_bytes, 256_000);
    assert_eq!((p.vram_budget, p.ram_budget, p.ctx), (300_000, 2000, 1000));
    // 8192 / 32 bytes an expert, 39870 bytes of card left.
    assert_eq!((p.vram_experts, p.ram_experts, p.disk_experts), (32, 0, 0));
    assert!(p.fits_without_disk());
    // (300000 - 256000) / (12322 / 4), at most the model.
    assert_eq!(p.gpu_layers(), 4);
    assert_eq!(p.facts.layers, 4);
    assert_eq!(p.facts.vocab, 2);

    let p = Placement::solve(&g, 1000, 261_000, 2000).unwrap();
    assert_eq!((p.vram_experts, p.ram_experts, p.disk_experts), (3, 7, 22));
    assert!(!p.fits_without_disk());
    assert_eq!(p.gpu_layers(), 1);

    let p = Placement::solve(&g, 1000, 1000, 0).unwrap();
    assert_eq!((p.vram_experts, p.ram_experts, p.disk_experts), (0, 0, 32));
    assert_eq!(p.gpu_layers(), 0);
}

#[test]
fn a_model_that_says_too_little_is_refused() {
    let mut g = model();
    g.tensors = vec![tensor("blk.0.odd", vec![1000], GgmlType::Other(99))];
    assert!(matches!(Placement::solve(&g, 10, 1, 1), Err(PlacementError::NoSizes)));
    g.metadata = Metadata::new();
    assert!(matches!(
        Placement::solve(&g, 10, 1, 1),
        Err(PlacementError::Facts(FactsError::NoVocabulary))
    ));
    assert_eq!(FactsError::NoVocabulary.message(), "no tokenizer.ggml.tokens array in file");
}

#[test]
fn figures_past_the_machine_are_not_solvable() {
    let mut g = model();
    g.metadata.insert("test.attention.head_count_kv".to_string(), MetaValue::U64(u64::MAX));
    assert!(!Placement::is_solvable(&g, 1000));
}
