use sync_vault::fmt_bytes;

/// The reference rendering: float division and
/// formatting with one or two decimals.
fn float_rendering(b: u64) -> String {
    if b < 1024 {
        format!("{} B", b)
    } else if b < 1024 * 1024 {
        format!("{:.1} KB", b as f64 / 1024.0)
    } else if b < 1024 * 1024 * 1024 {
        format!("{:.1} MB", b as f64 / 1024.0 / 1024.0)
    } else {
        format!("{:.2} GB", b as f64 / 1024.0 / 1024.0 / 1024.0)
    }
}

#[test]
fn fmt_bytes_small_values() {
    assert_eq!(fmt_bytes(0), "0 B");
    assert_eq!(fmt_bytes(1), "1 B");
    assert_eq!(fmt_bytes(892), "892 B");
    assert_eq!(fmt_bytes(1023), "1023 B");
}

#[test]
fn fmt_bytes_unit_boundaries() {
    assert_eq!(fmt_bytes(1024), "1.0 KB");
    assert_eq!(fmt_bytes(1536), "1.5 KB");
    assert_eq!(fmt_bytes(4300), "4.2 KB");
    assert_eq!(fmt_bytes(1024 * 1024 - 1), "1024.0 KB");
    assert_eq!(fmt_bytes(1024 * 1024), "1.0 MB");
    assert_eq!(fmt_bytes(1024 * 1024 * 1024), "1.00 GB");
    assert_eq!(fmt_bytes(3 * 1024 * 1024 * 1024 / 2), "1.50 GB");
}

#[test]
fn fmt_bytes_ties_round_to_even() {
    // 1280 B is exactly 1.25 KB: the tie goes to the even digit.
    assert_eq!(fmt_bytes(1280), "1.2 KB");
    // 1.75 KB
    assert_eq!(fmt_bytes(1792), "1.8 KB");
}

#[test]
fn fmt_bytes_matches_float_rendering_everywhere() {
    for b in 0u64..70000 {
        assert_eq!(fmt_bytes(b), float_rendering(b), "b = {}", b);
    }
    let mut b: u64 = 1;
    while b < u64::MAX / 3 {
        for d in [0u64, 1, 2, 511, 512, 513, 1023, 1024, 1025] {
            for v in [b.wrapping_sub(d), b + d, b * 3 / 2 + d, b * 5 / 4] {
                assert_eq!(fmt_bytes(v), float_rendering(v), "v = {}", v);
            }
        }
        b *= 2;
    }
    let mut x: u64 = 0x9E37_79B9_7F4A_7C15;
    for _ in 0..200000 {
        x ^= x << 13;
        x ^= x >> 7;
        x ^= x << 17;
        for v in [x, x >> 20, x >> 34, x >> 44, x >> 54] {
            assert_eq!(fmt_bytes(v), float_rendering(v), "v = {}", v);
        }
    }
    for v in [u64::MAX, u64::MAX - 1, 1 << 53, (1 << 53) + 1, (1 << 54) + 2, (1 << 54) + 6] {
        assert_eq!(fmt_bytes(v), float_rendering(v), "v = {}", v);
    }
}

#[test]
fn fmt_bytes_largest_value() {
    assert_eq!(fmt_bytes(u64::MAX), "17179869184.00 GB");
}

/// The unit rank and the shown number, read back from the text.
fn shown(s: &str) -> (u32, f64) {
    let (num, unit) = s.split_once(' ').unwrap();
    let rank = match unit {
        "B" => 0,
        "KB" => 1,
        "MB" => 2,
        "GB" => 3,
        _ => panic!("unknown unit {}", unit),
    };
    (rank, num.parse().unwrap())
}

#[test]
fn fmt_bytes_never_reads_less_for_more_bytes() {
    let mut prev = shown(&fmt_bytes(0));
    for b in 1u64..1_200_000 {
        let cur = shown(&fmt_bytes(b));
        assert!(prev.0 < cur.0 || (prev.0 == cur.0 && prev.1 <= cur.1), "b = {}", b);
        prev = cur;
    }
    for base in [(1u64 << 53) - 8, (1u64 << 54) - 8, u64::MAX - 20] {
        let mut prev = shown(&fmt_bytes(base));
        for b in base + 1..base + 20 {
            let cur = shown(&fmt_bytes(b));
            assert!(prev.0 < cur.0 || (prev.0 == cur.0 && prev.1 <= cur.1), "b = {}", b);
            prev = cur;
        }
    }
}
