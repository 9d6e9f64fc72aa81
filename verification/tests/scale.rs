use strata::scale::{clip, round_to_nearest, rounded_share_of, share_of, single_product};
use strata::text;

/// Numbers around every power of two, where rounding changes.
fn samples() -> Vec<u64> {
    let mut v = vec![0u64, 1, 2, 3, 1000, 123_456_789, 0xdead_beef_cafe_f00d];
    for k in 20..64u32 {
        let p = 1u64 << k;
        for d in [0u64, 1, 2, 3, 5, 127, 128, 129, 255, 256, 257, 383, 384, 385, 511, 512, 513, 768] {
            v.push(p.saturating_add(d));
            v.push(p - d.min(p));
        }
    }
    v.push(u64::MAX);
    v.push(u64::MAX - 1);
    v
}

#[test]
fn rounding_is_that_of_single_precision() {
    for n in samples() {
        assert_eq!(round_to_nearest(n as u128), (n as f32) as u128, "{n}");
    }
    for n in [(1u128 << 111) - 1, (1 << 100) + (1 << 76), (1 << 100) + (1 << 76) + 1] {
        assert_eq!(round_to_nearest(n), (n as f32) as u128, "{n}");
    }
}

#[test]
fn shares_are_those_of_single_precision() {
    for n in samples() {
        // 0.8, 0.34 and 0.3 as the machine holds them.
        assert_eq!(share_of(n as usize, 13421773, 16777216), (n as f32 * 0.8) as usize, "{n}");
        assert_eq!(share_of(n as usize, 11408507, 33554432), (n as f32 * 0.34) as usize, "{n}");
        assert_eq!(
            rounded_share_of(n as usize, 10066330, 33554432),
            (n as f32 * 0.3).round() as usize,
            "{n}"
        );
        assert_eq!(
            single_product(n, 14260634) / 4194304,
            (n as f32 * 3.4) as u128,
            "{n}"
        );
    }
    assert_eq!(clip(u128::MAX), usize::MAX);
    assert_eq!(clip(7), 7);
}

#[test]
fn white_space_is_that_of_unicode() {
    for n in 0..=0x10ffffu32 {
        if let Some(c) = char::from_u32(n) {
            assert_eq!(text::white(c), c.is_whitespace(), "{n:x}");
        }
    }
}

fn chars(s: &str) -> Vec<char> {
    s.chars().collect()
}

fn strings(v: Vec<Vec<char>>) -> Vec<String> {
    v.into_iter().map(|s| s.into_iter().collect()).collect()
}

#[test]
fn text_is_cut_as_the_language_cuts_it() {
    for s in ["", "a", "a\nb", "a\r\nb\r\n", "\n", "\r\n\r\n", "a\n\nb\n", "x\ry\n", "\u{2003}a b\t c \u{85}"] {
        let v = chars(s);
        let want: Vec<String> = s.lines().map(|l| l.to_string()).collect();
        assert_eq!(strings(text::lines_of(&v)), want, "{s:?}");
        let want: String = s.trim().to_string();
        assert_eq!(text::trim_chars(&v).into_iter().collect::<String>(), want, "{s:?}");
        assert_eq!(text::trim_start_chars(&v).into_iter().collect::<String>(), s.trim_start());
        assert_eq!(text::trim_end_chars(&v).into_iter().collect::<String>(), s.trim_end());
        let mut words = s.split_whitespace().map(|w| w.to_string());
        assert_eq!(text::first_word_of(&v).map(|w| w.into_iter().collect::<String>()), words.next());
        assert_eq!(text::second_word_of(&v).map(|w| w.into_iter().collect::<String>()), words.next());
        let want: Vec<String> = s.split('b').map(|p| p.to_string()).collect();
        assert_eq!(strings(text::split_chars(&v, 'b')), want, "{s:?}");
    }
}

#[test]
fn numbers_are_written_and_read() {
    for n in [0u64, 7, 10, 99, 100, 65536, u64::MAX] {
        assert_eq!(text::number(n), n.to_string());
        assert_eq!(text::parse_number(&chars(&n.to_string())), Some(n));
    }
    for s in ["", "+", "-", "-1", "1 ", "0x1", "18446744073709551616", "99999999999999999999999"] {
        assert_eq!(text::parse_number(&chars(s)), s.parse::<u64>().ok(), "{s}");
    }
    for s in ["+5", "007", "00000000000000000000000001"] {
        assert_eq!(text::parse_number(&chars(s)), s.parse::<u64>().ok(), "{s}");
    }
    let mut s = String::new();
    text::append_hex(&mut s, 0);
    text::append_hex(&mut s, u128::MAX);
    text::append_byte(&mut s, 0x0a);
    text::append_byte(&mut s, 0xf0);
    assert_eq!(s, format!("0{:x}0af0", u128::MAX));
}

#[test]
fn text_is_searched() {
    for (hay, needle) in [("abcabc", "bc"), ("aaab", "ab"), ("abc", ""), ("", "a"), ("\u{e9}a", "a")] {
        assert_eq!(text::contains(hay, needle), hay.contains(needle));
        assert_eq!(text::starts_with(hay, needle), hay.starts_with(needle));
        assert_eq!(text::ends_with(hay, needle), hay.ends_with(needle));
    }
    assert_eq!(text::find_chars(&chars("xaab"), &chars("ab")), Some(2));
    assert_eq!(text::find_char(&chars("xaab"), 'a'), Some(1));
    assert_eq!(text::rfind(&chars("xaab"), 'a'), Some(2));
    assert_eq!(text::join(&vec!["a".to_string(), "b".to_string()], ", "), "a, b");
    assert_eq!(text::lower_chars(&chars("A\u{c9}z")), chars("a\u{c9}z"));
}
