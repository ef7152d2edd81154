use libedit::double::Double;
use libedit::text::{
    byte_len, from_chars, is_whitespace, join, parse, prefix_within, replace, same, show,
    split_on, split_once, split_whitespace, strip_prefix, strip_suffix, to_ascii_lowercase,
    to_chars, trim, trim_end, trim_start,
};

fn double(x: f64) -> Double {
    Double::from_bits(x.to_bits())
}

/// Numbers of many sizes, each with a full significand.
fn samples() -> Vec<f64> {
    let mut out = vec![0.0, 0.25, 0.5, 0.8, 0.95, 1.0, 1.5, 2.0, 3.0, 7.0, 100.0];
    let mut state: u64 = 0x9E37_79B9_7F4A_7C15;
    for _ in 0..400 {
        state ^= state << 13;
        state ^= state >> 7;
        state ^= state << 17;
        let scale = (state % 60) as i32 - 30;
        let fraction = (state >> 11) as f64 / 9_007_199_254_740_992.0;
        out.push((1.0 + fraction) * 2f64.powi(scale));
    }
    out
}

#[test]
fn sums_agree_with_machine_numbers() {
    let all = samples();
    for &a in &all {
        for &b in &all {
            assert_eq!(double(a).plus(double(b)).to_bits(), (a + b).to_bits(), "{} + {}", a, b);
        }
    }
}

#[test]
fn differences_agree_with_machine_numbers() {
    let all = samples();
    for &a in &all {
        for &b in &all {
            if b <= a {
                assert_eq!(double(a).minus(double(b)).to_bits(), (a - b).to_bits(), "{} - {}", a, b);
            }
        }
    }
}

#[test]
fn products_agree_with_machine_numbers() {
    let all = samples();
    for &a in &all {
        for &b in &all {
            assert_eq!(double(a).times(double(b)).to_bits(), (a * b).to_bits(), "{} * {}", a, b);
        }
    }
}

#[test]
fn quotients_agree_with_machine_numbers() {
    let all = samples();
    for &a in &all {
        for &b in &all {
            if b >= 1.0 {
                assert_eq!(double(a).over(double(b)).to_bits(), (a / b).to_bits(), "{} / {}", a, b);
            }
        }
    }
}

#[test]
fn integers_round_as_machine_numbers() {
    for n in [0usize, 1, 2, 3, 1000, (1 << 53) - 1, 1 << 53, (1 << 53) + 1, (1 << 60) + 12345, usize::MAX] {
        assert_eq!(Double::from_usize(n).to_bits(), (n as f64).to_bits());
    }
}

#[test]
fn order_agrees_with_machine_numbers() {
    let all = [
        0.0,
        -0.0,
        1.0,
        -1.0,
        0.5,
        f64::NAN,
        f64::INFINITY,
        f64::NEG_INFINITY,
        f64::MIN_POSITIVE,
        5e-324,
    ];
    for a in all {
        for b in all {
            assert_eq!(double(a).ge(double(b)), a >= b, "{} >= {}", a, b);
            assert_eq!(double(a).gt(double(b)), a > b, "{} > {}", a, b);
        }
    }
    assert_eq!(double(0.3).lesser_of(double(0.2)).to_bits(), 0.2f64.to_bits());
    assert_eq!(double(0.3).lesser_of(double(f64::NAN)).to_bits(), 0.3f64.to_bits());
    assert_eq!(double(f64::NAN).lesser_of(double(0.3)).to_bits(), 0.3f64.to_bits());
}

#[test]
fn ceiling_and_percent_agree_with_machine_numbers() {
    for x in samples() {
        assert_eq!(double(x).ceiling(), x.ceil() as u128, "ceil {}", x);
        if x <= 1.0 {
            assert_eq!(double(x).percent(), (x * 100.0).round() as usize, "percent {}", x);
        }
    }
    assert_eq!(double(0.995).percent(), 100);
    assert_eq!(double(0.125).percent(), 13);
}

#[test]
fn white_space_is_that_of_std() {
    for n in 0..=0x10FFFFu32 {
        if let Some(c) = char::from_u32(n) {
            assert_eq!(is_whitespace(c), c.is_whitespace(), "{:?}", c);
        }
    }
}

#[test]
fn text_functions_do_what_std_does() {
    let all = [
        "",
        " ",
        "a",
        "  a b\t",
        "a,b,,c",
        ",",
        "\u{a0}x\u{3000}",
        "x\ny\n",
        "日本語 テキスト",
        "aXbXc",
        "XX",
    ];
    for s in all {
        assert_eq!(trim(s), s.trim());
        assert_eq!(trim_start(s), s.trim_start());
        assert_eq!(trim_end(s), s.trim_end());
        assert_eq!(byte_len(s), s.len());
        assert_eq!(to_ascii_lowercase(s), s.to_ascii_lowercase());
        assert_eq!(from_chars(&to_chars(s)), s);
        let std_words: Vec<&str> = s.split_whitespace().collect();
        assert_eq!(split_whitespace(s), std_words);
        for sep in [',', '\n', 'X'] {
            let std_pieces: Vec<&str> = s.split(sep).collect();
            assert_eq!(split_on(s, sep), std_pieces);
            assert_eq!(join(&split_on(s, sep), &sep.to_string()), s);
            assert_eq!(split_once(s, sep), s.split_once(sep));
        }
        for p in ["X", "a", " ", "XX", "日"] {
            assert_eq!(replace(s, p, "--"), s.replace(p, "--"));
            assert_eq!(strip_prefix(s, p), s.strip_prefix(p));
            assert_eq!(strip_suffix(s, p), s.strip_suffix(p));
        }
        for t in all {
            assert_eq!(same(s, t), s == t);
        }
    }
    assert_eq!(prefix_within("日本", 3), "日");
    assert_eq!(prefix_within("日本", 5), "日");
    assert_eq!(prefix_within("ab", 9), "ab");
}

#[test]
fn decimal_numbers_read_back() {
    for n in [0usize, 1, 9, 10, 99, 100, 12345, usize::MAX] {
        assert_eq!(show(n), n.to_string());
        assert_eq!(parse(&show(n)), Some(n));
    }
    for s in ["", "+", "-1", "+7", "1x", " 1", "18446744073709551616", "007", "٣"] {
        assert_eq!(parse(s), s.parse::<usize>().ok(), "{:?}", s);
    }
}
