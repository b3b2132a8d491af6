use brc::size::size_bytes;
use brc::size::format_bytes;

fn float_format(bytes: u128) -> String {
    let mut b = bytes as f64;
    let mut unit = "bytes";
    if b > 1024.0 {
        b /= 1024.0;
        unit = "KiB";
        if b > 1024.0 {
            b /= 1024.0;
            unit = "MiB";
            if b > 1024.0 {
                b /= 1024.0;
                unit = "GiB";
            }
        }
    }
    format!("{:.3} {}", b, unit)
}

#[test]
fn formats_each_unit() {
    assert_eq!(format_bytes(0), "0.000 bytes");
    assert_eq!(format_bytes(1024), "1024.000 bytes");
    assert_eq!(format_bytes(1025), "1.001 KiB");
    assert_eq!(format_bytes(1536), "1.500 KiB");
    assert_eq!(format_bytes(1048576), "1024.000 KiB");
    assert_eq!(format_bytes(1048577), "1.000 MiB");
    assert_eq!(format_bytes(3 * 1073741824 + 268435456), "3.250 GiB");
    assert_eq!(format_bytes(5 * 1099511627776), "5120.000 GiB");
}

#[test]
fn rounds_ties_to_even() {
    assert_eq!(format_bytes(1088), float_format(1088));
    assert_eq!(format_bytes(1088), "1.062 KiB");
}

#[test]
fn agrees_with_float_formatting() {
    let mut b: u128 = 0;
    while b < 5_000_000 {
        assert_eq!(format_bytes(b), float_format(b), "{}", b);
        b += 97;
    }
    for b in [1u128 << 40, (1 << 40) + 12345, 13_800_000_000, 999_999_999_999] {
        assert_eq!(format_bytes(b), float_format(b), "{}", b);
    }
}

#[test]
fn size_text_as_bytes() {
    assert_eq!(size_bytes(2048), b"2.000 KiB".to_vec());
    assert_eq!(size_bytes(u128::MAX), format!("{}.000 GiB", u128::MAX / 1073741824 + 1).into_bytes());
}

#[test]
fn a_greater_count_is_not_shown_smaller() {
    fn rank(text: &str) -> (usize, f64) {
        let (number, unit) = text.split_once(' ').unwrap();
        let r = ["bytes", "KiB", "MiB", "GiB"].iter().position(|u| *u == unit).unwrap();
        (r, number.parse().unwrap())
    }
    let mut previous = rank(&format_bytes(0));
    let mut b: u128 = 1;
    while b < 3_000_000_000 {
        let r = rank(&format_bytes(b));
        assert!(r.0 > previous.0 || (r.0 == previous.0 && r.1 >= previous.1), "{}", b);
        previous = r;
        b = b * 5 / 4 + 1;
    }
}

#[test]
fn rounds_the_count_as_a_double_first() {
    let b: u128 = ((1u128 << 53) + 1) << 26;
    assert_eq!(b, 604462909807314654461952);
    assert_eq!(format_bytes(b), "562949953421312.000 GiB");
    assert_eq!(format_bytes(b), float_format(b));
    assert_eq!(format_bytes(u128::MAX), float_format(u128::MAX));
}

#[test]
fn agrees_with_float_formatting_on_large_counts() {
    let mut x: u128 = 0x2545_f491_4f6c_dd1d;
    for shift in 0..128u32 {
        for offset in [0u128, 1, 2, 3, 511, 512, 513, 1023, 1024, 1025] {
            let b = (1u128 << shift).wrapping_add(offset).wrapping_sub(1);
            assert_eq!(format_bytes(b), float_format(b), "{}", b);
        }
        x = x.wrapping_mul(6364136223846793005).wrapping_add(1442695040888963407);
        let b = x >> (shift % 100);
        assert_eq!(format_bytes(b), float_format(b), "{}", b);
    }
}
