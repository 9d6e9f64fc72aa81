use strata::format::{GgufError, DEFAULT_ALIGNMENT, LONGEST_STRING};
use strata::gguf::{
    FactsError, Gguf, GgmlType, MetaValue, Metadata, ModelFacts, Real, TensorInfo,
};

/// Writes a file of the format.
struct Writer {
    bytes: Vec<u8>,
}

impl Writer {
    fn new(version: u32, tensors: u64, fields: u64) -> Writer {
        let mut w = Writer { bytes: b"GGUF".to_vec() };
        w.u32(version);
        w.u64(tensors);
        w.u64(fields);
        w
    }
    fn u8(&mut self, n: u8) {
        self.bytes.push(n);
    }
    fn u32(&mut self, n: u32) {
        self.bytes.extend(n.to_le_bytes());
    }
    fn u64(&mut self, n: u64) {
        self.bytes.extend(n.to_le_bytes());
    }
    fn string(&mut self, s: &[u8]) {
        self.u64(s.len() as u64);
        self.bytes.extend(s);
    }
    fn field(&mut self, key: &str, tag: u32, value: &[u8]) {
        self.string(key.as_bytes());
        self.u32(tag);
        self.bytes.extend(value);
    }
    fn text(&mut self, key: &str, s: &str) {
        self.string(key.as_bytes());
        self.u32(8);
        self.string(s.as_bytes());
    }
    fn tensor(&mut self, name: &str, dims: &[u64], kind: u32, offset: u64) {
        self.string(name.as_bytes());
        self.u32(dims.len() as u32);
        for d in dims {
            self.u64(*d);
        }
        self.u32(kind);
        self.u64(offset);
    }
}

/// A file with one field of every type.
fn file() -> Vec<u8> {
    let mut w = Writer::new(3, 4, 19);
    w.text("general.architecture", "arch");
    w.text("general.name", "Model");
    w.field("u8", 0, &[200]);
    w.field("i8", 1, &[0xff]);
    w.field("u16", 2, &40000u16.to_le_bytes());
    w.field("i16", 3, &(-2i16).to_le_bytes());
    w.field("u32", 4, &4_000_000_000u32.to_le_bytes());
    w.field("i32", 5, &(-3i32).to_le_bytes());
    w.field("f32", 6, &1.5f32.to_le_bytes());
    w.field("bool", 7, &[2]);
    w.field("u64", 10, &u64::MAX.to_le_bytes());
    w.field("i64", 11, &(-4i64).to_le_bytes());
    w.field("f64", 12, &0.1f64.to_le_bytes());
    w.field("arch.block_count", 4, &2u32.to_le_bytes());
    w.field("arch.rope.freq_base", 6, &10000.0f32.to_le_bytes());
    w.field("arch.ssm.state_size", 4, &128u32.to_le_bytes());
    w.field("arch.expert_count", 4, &8u32.to_le_bytes());
    w.field("general.alignment", 4, &64u32.to_le_bytes());
    w.string(b"tokenizer.ggml.tokens");
    w.u32(9);
    w.u32(8);
    w.u64(3);
    w.string(b"a");
    w.string(b"\xff");
    w.string(b"");
    w.tensor("blk.0.a", &[256, 3], 12, 0);
    w.tensor("blk.0.b", &[], 0, 432);
    w.tensor("blk.10.c", &[64, 2, 2, 2], 8, 436);
    w.tensor("odd", &[5], 99, 980);
    w.bytes
}

#[test]
fn a_file_is_read() {
    let bytes = file();
    let g = Gguf::open(&bytes, 12345).unwrap();
    assert_eq!((g.version, g.file_size), (3, 12345));
    assert_eq!((g.arch(), g.name()), ("arch", "Model"));
    let n = |k: &str| g.metadata.get(k).unwrap().as_u64();
    assert_eq!(n("u8"), Some(200));
    assert_eq!(n("i8"), Some(u64::MAX));
    assert_eq!(n("u16"), Some(40000));
    assert_eq!(n("i16"), Some(u64::MAX - 1));
    assert_eq!(n("u32"), Some(4_000_000_000));
    assert_eq!(n("i32"), Some(u64::MAX - 2));
    assert_eq!(n("u64"), Some(u64::MAX));
    assert_eq!(n("i64"), Some(u64::MAX - 3));
    assert_eq!(n("f32"), None);
    assert_eq!(n("bool"), None);
    assert!(matches!(g.metadata.get("bool"), Some(MetaValue::Bool(true))));
    let r = |k: &str| g.metadata.get(k).unwrap().as_f64();
    assert_eq!(r("f32"), Some(Real::Single(1.5f32.to_bits())));
    assert_eq!(r("f64"), Some(Real::Double(0.1f64.to_bits())));
    assert_eq!(r("u8"), Some(Real::Whole(200)));
    assert_eq!(r("bool"), None);
    let tokens = g.metadata.get("tokenizer.ggml.tokens").unwrap();
    assert_eq!(tokens.len(), Some(3));
    assert_eq!(tokens.as_str(), None);
    match tokens {
        MetaValue::Array(v) => assert_eq!(v[1].as_str(), Some("\u{fffd}")),
        other => panic!("{other:?}"),
    }
    assert!(g.metadata.get("absent").is_none());
    assert_eq!(g.data_offset, (bytes.len() as u64).div_ceil(64) * 64);

    assert_eq!(g.tensors.len(), 4);
    let t = g.tensor("blk.10.c").unwrap();
    assert_eq!((t.dims.clone(), t.kind, t.offset), (vec![64, 2, 2, 2], GgmlType::Q8_0, 436));
    assert!(g.tensor("blk.1").is_none());
    assert_eq!(t.elements(), 512);
    assert_eq!(t.bytes(), Some(16 * 34));
    // A tensor without dimensions is a single element.
    assert_eq!(g.tensor("blk.0.b").unwrap().elements(), 1);
    assert_eq!(g.tensor("blk.0.a").unwrap().bytes(), Some(3 * 144));
    assert_eq!(g.tensor("odd").unwrap().bytes(), None);
    assert!(g.is_measurable());
    assert_eq!(g.tensor_bytes(), 432 + 4 + 544);
    let layer: Vec<&str> = g.layer_tensors(0).iter().map(|t| t.name.as_str()).collect();
    assert_eq!(layer, vec!["blk.0.a", "blk.0.b"]);
    assert!(g.layer_tensors(1).is_empty());
    let kinds: Vec<(String, usize, u64)> = g.by_type();
    assert_eq!(kinds.iter().map(|k| k.1).sum::<usize>(), g.tensors.len());
    assert_eq!(kinds.iter().map(|k| k.2).sum::<u64>(), g.tensor_bytes());
    let want = [("Q8_0", 1, 544), ("Q4_K", 1, 432), ("F32", 1, 4), ("type99", 1, 0)];
    assert_eq!(kinds.len(), want.len());
    for (k, w) in kinds.iter().zip(want) {
        assert_eq!((k.0.as_str(), k.1, k.2), w);
    }
}

#[test]
fn the_facts_of_a_model() {
    let bytes = file();
    let g = Gguf::open(&bytes, 99).unwrap();
    let f = ModelFacts::read(&g).unwrap();
    assert_eq!((f.name.as_str(), f.arch.as_str()), ("Model", "arch"));
    assert_eq!((f.layers, f.experts, f.vocab, f.embedding), (2, 8, 3, 0));
    assert_eq!(f.rope_base, Real::Single(10000.0f32.to_bits()));
    assert_eq!((f.ssm_state, f.ssm_inner, f.full_attention_interval), (Some(128), None, None));
    assert_eq!((f.file_bytes, f.tensor_count), (99, 4));
    assert!(f.is_moe() && f.is_hybrid_ssm());
    assert_eq!(g.key_u64("block_count"), Some(2));
    assert_eq!(g.key_u64("rope.freq_base"), None);
    assert_eq!(g.key_f64("rope.freq_base"), Some(Real::Single(10000.0f32.to_bits())));
    assert!(g.key("nothing").is_none());
}

#[test]
fn a_model_without_a_vocabulary_is_refused() {
    let w = Writer::new(2, 0, 0);
    let g = Gguf::open(&w.bytes, 0).unwrap();
    assert_eq!((g.arch(), g.name(), g.version), ("unknown", "unnamed", 2));
    assert_eq!(g.data_offset, DEFAULT_ALIGNMENT);
    assert!(matches!(ModelFacts::read(&g), Err(FactsError::NoVocabulary)));
}

#[test]
fn the_last_of_two_fields_counts() {
    let mut w = Writer::new(3, 0, 2);
    w.field("k", 0, &[1]);
    w.field("k", 0, &[2]);
    let g = Gguf::open(&w.bytes, 0).unwrap();
    assert_eq!(g.metadata.get("k").unwrap().as_u64(), Some(2));
}

fn error(bytes: &[u8]) -> GgufError {
    match Gguf::open(bytes, 0) {
        Err(e) => e,
        Ok(_) => panic!("read"),
    }
}

#[test]
fn every_way_to_be_unreadable() {
    let e = error(b"GGML\x03\x00\x00\x00");
    assert!(matches!(e, GgufError::Magic(71, 71, 77, 76)));
    assert_eq!(e.message(), "not a GGUF file: magic was [71, 71, 77, 76]");

    let e = error(&Writer::new(4, 0, 0).bytes);
    assert!(matches!(e, GgufError::Version(4)));
    assert_eq!(e.message(), "unsupported GGUF version 4");
    assert!(matches!(error(&Writer::new(1, 0, 0).bytes), GgufError::Version(1)));

    let mut w = Writer::new(3, 0, 1);
    w.u64(LONGEST_STRING + 1);
    let e = error(&w.bytes);
    assert!(matches!(e, GgufError::StringLength(67_108_865)));
    assert_eq!(e.message(), "implausible string length 67108865 in GGUF metadata");

    let mut w = Writer::new(3, 0, 1);
    w.field("k", 13, &[]);
    let e = error(&w.bytes);
    assert!(matches!(e, GgufError::Tag(13)));
    assert_eq!(e.message(), "unknown GGUF value tag 13");

    let mut w = Writer::new(3, 1, 0);
    w.tensor("t", &[1, 1, 1, 1, 1], 0, 0);
    let e = error(&w.bytes);
    assert!(matches!(&e, GgufError::Dimensions { name, n_dims: 5 } if name == "t"));
    assert_eq!(e.message(), "tensor t claims 5 dimensions");

    let mut w = Writer::new(3, 0, 1);
    w.field("general.alignment", 4, &[0, 0, 0, 0]);
    assert!(matches!(error(&w.bytes), GgufError::Alignment));

    let bytes = file();
    for n in 0..bytes.len() {
        assert!(matches!(error(&bytes[..n]), GgufError::Truncated), "{n}");
    }
}

#[test]
fn more_bytes_read_the_same() {
    let mut bytes = file();
    let short = Gguf::open(&bytes, 7).unwrap();
    bytes.extend([1u8; 100]);
    let long = Gguf::open(&bytes, 7).unwrap();
    assert_eq!(short.data_offset, long.data_offset);
    assert_eq!(format!("{:?}", short.metadata), format!("{:?}", long.metadata));
    assert_eq!(format!("{:?}", short.tensors), format!("{:?}", long.tensors));
}

#[test]
fn nested_arrays_are_read() {
    let mut w = Writer::new(3, 0, 1);
    w.string(b"k");
    w.u32(9);
    w.u32(9);
    w.u64(2);
    w.u32(0);
    w.u64(1);
    w.u8(5);
    w.u32(8);
    w.u64(0);
    let g = Gguf::open(&w.bytes, 0).unwrap();
    match g.metadata.get("k").unwrap() {
        MetaValue::Array(v) => {
            assert!(matches!(&v[0], MetaValue::Array(a) if a.len() == 1 && a[0].as_u64() == Some(5)));
            assert_eq!(v[1].len(), Some(0));
        }
        other => panic!("{other:?}"),
    }
}

#[test]
fn types_have_names_and_blocks() {
    let all = [
        (0, "F32", Some((1, 4))),
        (1, "F16", Some((1, 2))),
        (2, "Q4_0", Some((32, 18))),
        (3, "Q4_1", Some((32, 20))),
        (6, "Q5_0", Some((32, 22))),
        (7, "Q5_1", Some((32, 24))),
        (8, "Q8_0", Some((32, 34))),
        (9, "Q8_1", Some((32, 36))),
        (10, "Q2_K", Some((256, 84))),
        (11, "Q3_K", Some((256, 110))),
        (12, "Q4_K", Some((256, 144))),
        (13, "Q5_K", Some((256, 176))),
        (14, "Q6_K", Some((256, 210))),
        (15, "Q8_K", Some((256, 292))),
        (30, "BF16", Some((1, 2))),
        (4, "type4", None),
    ];
    for (id, name, block) in all {
        assert_eq!(GgmlType::from_id(id).name(), name);
        assert_eq!(GgmlType::from_id(id).block(), block);
    }
}

#[test]
fn a_tensor_past_the_machine_is_not_measured() {
    let t = TensorInfo {
        name: "t".to_string(),
        dims: vec![u64::MAX, 2],
        kind: GgmlType::F32,
        offset: 0,
    };
    assert!(!t.is_sized());
    let g = Gguf { version: 3, metadata: Metadata::new(), tensors: vec![t], data_offset: 0, file_size: 0 };
    assert!(!g.is_measurable());
}

#[test]
fn the_largest_type_comes_first_and_equal_ones_by_name() {
    let t = |kind: GgmlType, n: u64| TensorInfo { name: String::new(), dims: vec![n], kind, offset: 0 };
    let g = Gguf {
        version: 3,
        metadata: Metadata::new(),
        tensors: vec![t(GgmlType::F16, 2), t(GgmlType::F32, 1), t(GgmlType::BF16, 2), t(GgmlType::F32, 8)],
        data_offset: 0,
        file_size: 0,
    };
    let got: Vec<(String, usize, u64)> = g.by_type();
    let got: Vec<(&str, usize, u64)> = got.iter().map(|k| (k.0.as_str(), k.1, k.2)).collect();
    assert_eq!(got, vec![("F32", 2, 36), ("BF16", 1, 4), ("F16", 1, 4)]);
}
