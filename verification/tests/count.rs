use reposcope::svg::format_count;

/// The compact form as a binary64 computation prints it.
fn via_f64(n: u64) -> String {
    fn trimmed(v: f64, suffix: &str) -> String {
        let t = format!("{v:.1}");
        format!("{}{}", t.strip_suffix(".0").unwrap_or(&t), suffix)
    }
    if n >= 1_000_000 {
        trimmed(n as f64 / 1e6, "M")
    } else if n >= 1_000 {
        trimmed(n as f64 / 1e3, "K")
    } else {
        n.to_string()
    }
}

#[test]
fn count_formatting() {
    assert_eq!(format_count(0), "0");
    assert_eq!(format_count(999), "999");
    assert_eq!(format_count(1_000), "1K");
    assert_eq!(format_count(12_000), "12K");
    assert_eq!(format_count(12_500), "12.5K");
    assert_eq!(format_count(1_000_000), "1M");
    assert_eq!(format_count(1_500_000), "1.5M");
}

#[test]
fn count_formatting_rounding_edges() {
    assert_eq!(format_count(1_250), "1.2K");
    assert_eq!(format_count(1_750), "1.8K");
    assert_eq!(format_count(999_950), "1000K");
    assert_eq!(format_count(1_049), "1K");
    assert_eq!(format_count(u64::MAX), via_f64(u64::MAX));
}

#[test]
fn count_formatting_agrees_with_binary64_thousands() {
    for n in 0..1_000_000u64 {
        assert_eq!(format_count(n), via_f64(n), "{n}");
    }
}

#[test]
fn count_formatting_agrees_with_binary64_millions() {
    let mut x: u64 = 0x9e37_79b9_7f4a_7c15;
    for k in 0..200_000u64 {
        // Half-way values, values near powers of two, and scattered ones.
        let tie = 1_000_000 + k * 100_000 + 50_000;
        assert_eq!(format_count(tie), via_f64(tie), "{tie}");
        x = x.wrapping_mul(6364136223846793005).wrapping_add(1442695040888963407);
        let shift = (k % 44) as u32;
        let v = (x >> shift).max(1_000_000);
        assert_eq!(format_count(v), via_f64(v), "{v}");
        let near = (1u64 << (20 + (k % 44))).wrapping_add((k % 7).wrapping_sub(3));
        if near >= 1_000_000 {
            assert_eq!(format_count(near), via_f64(near), "{near}");
        }
    }
}
