use tapeer::format::{epoch_millis, format_expiry_at, nearest_double_exec};
use tapeer::{format_expiry, format_size};

/// The size label computed directly with floating-point arithmetic.
fn float_size(bytes: u64) -> String {
    const KB: f64 = 1024.0;
    const MB: f64 = KB * 1024.0;
    const GB: f64 = MB * 1024.0;
    let b = bytes as f64;
    if b >= GB {
        format!("{:.2} GB", b / GB)
    } else if b >= MB {
        format!("{:.2} MB", b / MB)
    } else if b >= KB {
        format!("{:.1} KB", b / KB)
    } else {
        format!("{} B", bytes)
    }
}

#[test]
fn size_labels_exact_values() {
    assert_eq!(format_size(0), "0 B");
    assert_eq!(format_size(28), "28 B");
    assert_eq!(format_size(1023), "1023 B");
    assert_eq!(format_size(1024), "1.0 KB");
    assert_eq!(format_size(1536), "1.5 KB");
    assert_eq!(format_size(1048576), "1.00 MB");
    assert_eq!(format_size(1520435), "1.45 MB");
    assert_eq!(format_size(1073741824), "1.00 GB");
    assert_eq!(format_size(1073741823), "1024.00 MB");
}

#[test]
fn size_labels_round_ties_to_even() {
    // 1280 B = 1.25 KB, 1179648 B = 1.125 MB: exact ties.
    assert_eq!(format_size(1280), float_size(1280));
    assert_eq!(format_size(1179648), float_size(1179648));
}

#[test]
fn size_labels_agree_with_float_formatting() {
    let mut samples: Vec<u64> = Vec::new();
    for b in 0..5000u64 {
        samples.push(b);
    }
    let mut x: u64 = 0x9E3779B97F4A7C15;
    for _ in 0..20000 {
        x ^= x << 13;
        x ^= x >> 7;
        x ^= x << 17;
        samples.push(x >> (x % 64));
        samples.push(x);
    }
    for k in 0..64u32 {
        let p = 1u64 << k;
        samples.push(p);
        samples.push(p - 1);
        samples.push(p.wrapping_add(1));
        samples.push(p.wrapping_add(p >> 1));
    }
    for m in 1..2000u64 {
        samples.push(m << 7);
        samples.push(m << 17);
        samples.push(m << 27);
    }
    samples.push(u64::MAX);
    samples.push(u64::MAX - 1024);
    samples.push((1u64 << 53) + 1);
    samples.push((1u64 << 54) + 2);
    samples.push((1u64 << 54) + 6);
    for &b in &samples {
        assert_eq!(format_size(b), float_size(b), "bytes = {}", b);
    }
}

#[test]
fn nearest_double_agrees_with_conversion() {
    for &n in &[0u64, 1, (1 << 53) - 1, 1 << 53, (1 << 53) + 1, (1 << 53) + 3, u64::MAX, 12345678901234567890] {
        assert_eq!(nearest_double_exec(n), n as f64 as u128, "n = {}", n);
    }
}

#[test]
fn expiry_labels() {
    assert_eq!(format_expiry_at(1000, 1000), "Expirado");
    assert_eq!(format_expiry_at(999, 1000), "Expirado");
    assert_eq!(format_expiry_at(1000 + 59_999, 1000), "expira en 0m");
    assert_eq!(format_expiry_at(1000 + 60_000, 1000), "expira en 1m");
    assert_eq!(format_expiry_at(3_600_000, 0), "expira en 1h 0m");
    assert_eq!(format_expiry_at(85_200_000 + 2_400_000, 0), "expira en 24h 20m");
    assert_eq!(format_expiry_at(23 * 3_600_000 + 40 * 60_000 + 999, 0), "expira en 23h 40m");
}

#[test]
fn past_expiry_is_expired_now() {
    assert_eq!(format_expiry(0), "Expirado");
    assert!(format_expiry(u64::MAX).starts_with("expira en "));
}

#[test]
fn epoch_readings_keep_low_bits_or_zero() {
    assert_eq!(epoch_millis(None), 0);
    assert_eq!(epoch_millis(Some(1_725_029_869_000)), 1_725_029_869_000);
    assert_eq!(epoch_millis(Some((1u128 << 64) + 5)), 5);
}

fn unit_rank(label: &str) -> u32 {
    match label.rsplit(' ').next().unwrap() {
        "B" => 0,
        "KB" => 1,
        "MB" => 2,
        "GB" => 3,
        other => panic!("unknown unit {}", other),
    }
}

#[test]
fn larger_sizes_never_get_smaller_units() {
    let sizes = [0u64, 1023, 1024, 1048575, 1048576, 1073741823, 1073741824, 1 << 53, u64::MAX];
    for w in sizes.windows(2) {
        assert!(unit_rank(&format_size(w[0])) <= unit_rank(&format_size(w[1])));
    }
}

fn minutes_shown(label: &str) -> i64 {
    if label == "Expirado" {
        return -1;
    }
    let rest = label.strip_prefix("expira en ").unwrap();
    let parts: Vec<&str> = rest.split(' ').collect();
    if parts.len() == 2 {
        let h: i64 = parts[0].trim_end_matches('h').parse().unwrap();
        let m: i64 = parts[1].trim_end_matches('m').parse().unwrap();
        60 * h + m
    } else {
        parts[0].trim_end_matches('m').parse().unwrap()
    }
}

#[test]
fn later_expiries_never_show_less_time() {
    let now = 1_000_000u64;
    let expiries = [0u64, now, now + 59_999, now + 60_000, now + 3_599_999, now + 3_600_000, now + 90_000_000];
    for w in expiries.windows(2) {
        assert!(minutes_shown(&format_expiry_at(w[0], now)) <= minutes_shown(&format_expiry_at(w[1], now)));
    }
}
