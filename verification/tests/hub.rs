use serde_json::Value;
use strata::digest::Sha256;
use strata::hub::{
    accepted, api_url, delivery, fallback_shards, file_url, final_name, is_gguf, largest_gguf_blob,
    list_shards, origin, partial_name, plan_fetch, published, repo_for, sanitize, shows_progress,
    to_fetch, Blob, Delivery, Fetch, Hub, Origin,
};

fn json(s: &str) -> Value {
    serde_json::from_str(s).unwrap()
}

#[test]
fn a_model_smaller_than_ten_gigabytes_is_still_a_model() {
    // A size threshold of 10 GB would make every small model look absent.
    let small = b"GGUF\x03\x00\x00\x00rest of a small model";
    assert!(is_gguf(small));

    let not_a_model = b"this is not a model";
    assert!(!is_gguf(not_a_model));

    // A file that does not exist has no bytes.
    assert!(!is_gguf(b""));
    assert!(!is_gguf(b"GGU"));
    assert!(is_gguf(b"GGUF"));
}

#[test]
fn the_hub_keeps_models_in_one_place() {
    assert_eq!(Hub::new().cache_dir, "rocm/models");
}

#[test]
fn names_are_mapped_to_repositories() {
    for (name, repo) in [
        ("Ornith-35B", "ornith-ai/Ornith-1.5-35B-A3B"),
        ("ORNITH:9b", "ornith-ai/Ornith-1.5-9B"),
        ("ornith-397b", "ornith-ai/Ornith-1.5-397B"),
        ("qwen3-35b", "Qwen/Qwen2.5-32B-Instruct"),
        ("GLM-744B", "zai-org/GLM-4.5"),
        ("some/Thing", "some/Thing"),
        ("thing", "ornith-ai/thing"),
    ] {
        assert_eq!(Hub::hf_repo(name), repo);
    }
    assert_eq!(repo_for("X", "ornith 35b"), "ornith-ai/Ornith-1.5-35B-A3B");
    assert_eq!(repo_for("a/b", "plain"), "a/b");
}

#[test]
fn a_sanitised_name_stays_in_place() {
    assert_eq!(Hub::sanitize_model("ornith:35b"), "ornith_35b");
    assert_eq!(Hub::sanitize_model("../../etc/passwd"), "____etc_passwd");
    assert_eq!(Hub::sanitize_model("a b\\c*d"), "abcd");
    assert_eq!(Hub::sanitize_model("mod\u{e9}le-1.5"), "mod\u{e9}le-1.5");
    assert_eq!(Hub::sanitize_model("..."), "_.");
    assert_eq!(sanitize("a-b", &[true, false, false]), "a-");
    for name in ["../..", "a\\..\\b", "C:\\x", "....", "a...b", "\u{e9}/\u{20ac}:x"] {
        let once = Hub::sanitize_model(name);
        assert!(!once.contains(['/', '\\', ':']) && !once.contains(".."), "{once}");
        assert_eq!(Hub::sanitize_model(&once), once);
    }
}

fn blob(is_file: bool, size: u64, is_gguf: bool) -> Blob {
    Blob { is_file, size, is_gguf }
}

#[test]
fn the_largest_model_among_the_blobs_is_taken() {
    let blobs = vec![
        blob(true, 2_000_000, true),
        blob(true, 9_000_000, false),
        blob(true, 5_000_000, true),
        blob(false, 8_000_000, true),
        blob(true, 5_000_000, true),
        blob(true, 999_999, true),
    ];
    assert_eq!(largest_gguf_blob(&blobs), Some(2));
    assert_eq!(largest_gguf_blob(&vec![blob(true, 999_999, true)]), None);
    assert_eq!(largest_gguf_blob(&vec![]), None);
}

#[test]
fn a_copy_beats_a_blob_beats_the_network() {
    assert_eq!(origin(true, Some(3)), Origin::Present);
    assert_eq!(origin(false, Some(3)), Origin::Blob(3));
    assert_eq!(origin(false, None), Origin::Remote);
}

#[test]
fn shards_are_listed_and_fetched() {
    let listing = json(
        r#"{"siblings":[{"rfilename":"README.md"},{"rfilename":"1.safetensors"},{"x":1},
            {"rfilename":"2.safetensors"},{"rfilename":"3.safetensors"},
            {"rfilename":"4.safetensors"},{"rfilename":"5.safetensors"},
            {"rfilename":"6.safetensors"}]}"#,
    );
    let all = list_shards(&listing).unwrap();
    assert_eq!(all.len(), 5);
    assert_eq!(to_fetch(all), vec!["1.safetensors", "2.safetensors", "3.safetensors"]);
    assert_eq!(list_shards(&json(r#"{"siblings":[]}"#)).unwrap(), vec!["model.safetensors"]);
    assert!(list_shards(&json(r#"{"siblings":1}"#)).is_none());
    assert!(list_shards(&json("{}")).is_none());
    assert_eq!(
        fallback_shards(),
        vec![
            "model-00001-of-00003.safetensors",
            "model-00002-of-00003.safetensors",
            "model-00003-of-00003.safetensors",
        ]
    );
}

#[test]
fn where_files_are() {
    assert_eq!(api_url("a/b"), "https://huggingface.co/api/models/a/b");
    assert_eq!(file_url("a/b", "f"), "https://huggingface.co/a/b/resolve/main/f");
    assert_eq!(partial_name("f.safetensors"), "f.safetensors.partial");
}

#[test]
fn a_download_resumes_where_it_stopped() {
    assert!(matches!(plan_fetch(true, Some(3)), Fetch::Skip));
    assert!(matches!(plan_fetch(false, None), Fetch::Whole));
    assert!(matches!(plan_fetch(false, Some(1024)), Fetch::Resume(r) if r == "bytes=1024-"));
}

#[test]
fn what_is_kept_of_an_answer() {
    assert!(matches!(delivery(Some(200)), Delivery::Body));
    assert!(matches!(delivery(Some(206)), Delivery::Body));
    assert!(matches!(
        delivery(Some(404)),
        Delivery::Stub(s) if s == "stub shard - set HF_TOKEN for real download"
    ));
    assert!(matches!(delivery(None), Delivery::Stub(s) if s == "stub"));
    assert!(shows_progress(50_000_000) && shows_progress(100_008_191));
    assert!(!shows_progress(49_999_999) && !shows_progress(50_008_192));
}

#[test]
fn a_listing_publishes_digests() {
    let listing = json(
        r#"{"siblings":[{"rfilename":"README.md"},{"x":1},{"rfilename":"a","lfs":{"sha256":1}},
            {"rfilename":"a","lfs":{"sha256":"one"}},{"rfilename":"b","lfs":{"sha256":"two"}},
            {"rfilename":"b","lfs":{"sha256":"three"}},{"lfs":{"sha256":"four"}}]}"#,
    );
    assert_eq!(published(&listing, "a").as_deref(), Some("one"));
    assert_eq!(published(&listing, "b").as_deref(), Some("two"));
    assert_eq!(published(&listing, "README.md"), None);
    assert_eq!(published(&listing, "c"), None);
    assert_eq!(published(&json(r#"{"siblings":1}"#), "a"), None);
    assert_eq!(published(&json("{}"), "a"), None);
}

#[test]
fn a_file_that_was_not_published_never_gets_its_name() {
    let right = "2cf24dba5fb0a30e26e83b2ac5b9e29e1b161e5c1fa7425e73043362938b9824";
    let capitals = right.to_uppercase();
    assert!(accepted(Some(right), right) && accepted(Some(&capitals), right));
    assert!(!accepted(Some(""), right) && !accepted(Some(right), ""));
    assert!(accepted(None, right));

    let mut content = Sha256::new();
    content.feed(b"hello");
    let name = |kept: Option<u16>, digest| final_name("f", &delivery(kept), digest, &content);
    assert_eq!(name(Some(200), Some(right)).as_deref(), Some("f"));
    assert_eq!(name(Some(206), Some(capitals.as_str())).as_deref(), Some("f"));
    assert_eq!(name(Some(200), None).as_deref(), Some("f"));
    assert_eq!(name(Some(200), Some("0")), None);
    content.feed(b"!");
    assert_eq!(final_name("f", &Delivery::Body, Some(right), &content), None);
    // A note in the place of a file is not taken for it.
    let note = delivery(None);
    assert_eq!(final_name("f", &note, Some(right), &content).as_deref(), Some("f"));
}
