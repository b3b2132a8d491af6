use brc::float_text::{accepts_float_text, digits_only};

fn f32_accepts(text: &str) -> bool {
    text.parse::<f32>().is_ok()
}

#[test]
fn accepts_what_f32_parsing_accepts() {
    let samples = [
        "12.3", "-0.5", "4", "+7.0", "0", "-0", "007.5", "1.25", ".5", "5.", "1e3", "1E3",
        "2.5e-10", "-2.5E+10", "inf", "-inf", "+infinity", "Infinity", "INF", "NaN", "nan",
        "-NAN", "1e39", "1e-50", "99999999999999999999999", "0.000000000000000000001", "",
        "-", "+", ".", "e5", "1e", "1e+", "1.2.3", "--1", " 1", "1 ", "1,5", "abc", "in",
        "infin", "nana", "1.e5", ".e5", "+.5", "-5.", "0x10", "1_000", "١", "1e5.5", "e",
        "infinityy", "+-1", "1f",
    ];
    for s in samples {
        assert_eq!(accepts_float_text(s.as_bytes()), f32_accepts(s), "{:?}", s);
    }
}

#[test]
fn agrees_with_f32_parsing_on_short_texts() {
    let alphabet = [b'0', b'7', b'.', b'e', b'E', b'+', b'-', b'i', b'n', b'a', b'x', b';'];
    let mut texts: Vec<Vec<u8>> = vec![Vec::new()];
    for _ in 0..4 {
        let mut next = Vec::new();
        for t in &texts {
            for &c in &alphabet {
                let mut u = t.clone();
                u.push(c);
                next.push(u);
            }
        }
        texts.extend(next.clone());
        texts = texts.into_iter().filter(|t| t.len() <= 4).collect();
        texts.sort();
        texts.dedup();
    }
    for t in texts {
        let s = String::from_utf8(t.clone()).unwrap();
        assert_eq!(accepts_float_text(&t), f32_accepts(&s), "{:?}", s);
    }
}

#[test]
fn refuses_bytes_that_are_not_text() {
    assert!(!accepts_float_text(&[0xff, b'1']));
    assert!(!accepts_float_text(&[b'1', 0xc3, 0xa9]));
}

#[test]
fn digits_only_checks_every_byte() {
    assert!(digits_only(b"0123456789"));
    assert!(digits_only(b""));
    assert!(!digits_only(b"12a"));
    assert!(!digits_only(b"/"));
    assert!(!digits_only(b":"));
}
