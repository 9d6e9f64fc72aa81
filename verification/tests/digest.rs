//! SHA-256.

use strata::digest::Sha256;

fn hex(bytes: &[u8]) -> String {
    let mut d = Sha256::new();
    d.feed(bytes);
    d.hex()
}

#[test]
fn published_digests() {
    let long = "abcdefghbcdefghicdefghijdefghijkefghijklfghijklmghijklmnhijklmno\
                ijklmnopjklmnopqklmnopqrlmnopqrsmnopqrstnopqrstu";
    for (message, want) in [
        ("", "e3b0c44298fc1c149afbf4c8996fb92427ae41e4649b934ca495991b7852b855"),
        ("abc", "ba7816bf8f01cfea414140de5dae2223b00361a396177a9cb410ff61f20015ad"),
        (
            "abcdbcdecdefdefgefghfghighijhijkijkljklmklmnlmnomnopnopq",
            "248d6a61d20638b8e5c026930c3e6039a33ce45964ff2167f6ecedd419db06c1",
        ),
        (long, "cf5b16a778af8380036ce59e7b0492370b249b11e8f07a51afac45037afee9d1"),
    ] {
        assert_eq!(hex(message.as_bytes()), want, "{message}");
    }
    assert_eq!(
        hex(&vec![b'a'; 1_000_000]),
        "cdc76e5c9914fb9281a1c7e284d73e67f1809a48a497200e046d39ccc7112cd0"
    );
}

#[test]
fn pieces_make_no_difference() {
    let message: Vec<u8> = (0..300u32).map(|i| (i * 7) as u8).collect();
    for n in [0usize, 1, 54, 55, 56, 57, 63, 64, 65, 119, 120, 128, 300] {
        let whole = hex(&message[..n]);
        for at in [0, n / 3, n / 2, n] {
            let mut d = Sha256::new();
            d.feed(&message[..at]);
            // Asking does not change what follows.
            assert_eq!(d.hex(), hex(&message[..at]));
            d.feed(&message[at..n]);
            assert_eq!(d.hex(), whole);
            assert_eq!(whole.len(), 64);
        }
    }
    assert!(Sha256::new().has_room(1));
}
