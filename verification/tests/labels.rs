use diskhoji::labels::{fmt_bytes, fmt_n, fmt_pct, fmt_time, shorten};

fn float_bytes(n: u64) -> String {
    let units = ["B", "KiB", "MiB", "GiB", "TiB", "PiB"];
    let mut v = n as f64;
    let mut u = 0;
    while v >= 1024.0 && u < units.len() - 1 {
        v /= 1024.0;
        u += 1;
    }
    if u == 0 || v >= 100.0 {
        format!("{:.0} {}", v, units[u])
    } else if v >= 10.0 {
        format!("{:.1} {}", v, units[u])
    } else {
        format!("{:.2} {}", v, units[u])
    }
}

fn float_pct(part: u64, whole: u64) -> String {
    let p = 100.0 * part as f64 / whole as f64;
    if p >= 10.0 {
        format!("{:.0}%", p)
    } else {
        format!("{:.1}%", p)
    }
}

fn float_time(ms: u64) -> String {
    if ms >= 1000 {
        format!("{:.1} s", ms as f64 / 1000.0)
    } else {
        format!("{} ms", ms)
    }
}

/// Numbers of every size, plain and odd.
fn samples() -> Vec<u64> {
    let mut v = vec![0, 1, 999, 1000, 1023, 1024, 1025, 1050, 1150, 1250, 10_240, 102_400, 1_048_575];
    let mut seed: u64 = 0x9E37_79B9_7F4A_7C15;
    for i in 0..20_000u32 {
        seed = seed.wrapping_mul(6364136223846793005).wrapping_add(1442695040888963407);
        v.push(seed >> (i % 64));
    }
    for k in 0..64u32 {
        let p = 1u64 << k;
        v.push(p);
        v.push(p - 1);
        v.push(p | (p >> 1));
        v.push(p | (p >> 1) | 1);
        v.push(p.wrapping_add(p >> 8).wrapping_add(p >> 9));
    }
    v.push(u64::MAX);
    v.push(u64::MAX - 1024);
    v
}

#[test]
fn bytes_in_binary_units() {
    assert_eq!(fmt_bytes(0), "0 B");
    assert_eq!(fmt_bytes(1023), "1023 B");
    assert_eq!(fmt_bytes(1024), "1.00 KiB");
    assert_eq!(fmt_bytes(1536), "1.50 KiB");
    assert_eq!(fmt_bytes(10 * 1024), "10.0 KiB");
    assert_eq!(fmt_bytes(100 * 1024), "100 KiB");
    assert_eq!(fmt_bytes(5 << 30), "5.00 GiB");
    assert_eq!(fmt_bytes(u64::MAX), "16384 PiB");
}

#[test]
fn bytes_as_doubles_show_them() {
    for n in samples() {
        assert_eq!(fmt_bytes(n), float_bytes(n), "{}", n);
    }
}

#[test]
fn bytes_at_ties() {
    for k in 0..4000u64 {
        for unit in [1024u64, 1 << 20, 1 << 30, 1 << 40] {
            let n = k * (unit / 8) + unit;
            assert_eq!(fmt_bytes(n), float_bytes(n), "{}", n);
            let m = k * (unit / 1024) + unit;
            assert_eq!(fmt_bytes(m), float_bytes(m), "{}", m);
        }
    }
}

#[test]
fn times_in_seconds_and_milliseconds() {
    assert_eq!(fmt_time(0), "0 ms");
    assert_eq!(fmt_time(999), "999 ms");
    assert_eq!(fmt_time(1000), "1.0 s");
    assert_eq!(fmt_time(1050), "1.1 s");
    assert_eq!(fmt_time(1150), "1.1 s");
    assert_eq!(fmt_time(2_700), "2.7 s");
    for ms in 0..20_000 {
        assert_eq!(fmt_time(ms), float_time(ms), "{}", ms);
    }
    for ms in samples() {
        assert_eq!(fmt_time(ms), float_time(ms), "{}", ms);
    }
}

#[test]
fn shares_in_percent() {
    assert_eq!(fmt_pct(0, 7), "0.0%");
    assert_eq!(fmt_pct(1, 3), "33%");
    assert_eq!(fmt_pct(1, 40), "2.5%");
    assert_eq!(fmt_pct(1, 80), "1.2%");
    assert_eq!(fmt_pct(9, 9), "100%");
    assert_eq!(fmt_pct(u64::MAX, 1), float_pct(u64::MAX, 1));
    let v = samples();
    for i in 0..v.len() {
        let whole = v[(i * 7 + 3) % v.len()].max(1);
        assert_eq!(fmt_pct(v[i], whole), float_pct(v[i], whole), "{} of {}", v[i], whole);
    }
    for part in 0..400 {
        for whole in 1..200 {
            assert_eq!(fmt_pct(part, whole), float_pct(part, whole), "{} of {}", part, whole);
        }
    }
}

#[test]
fn counts_in_groups_of_three() {
    assert_eq!(fmt_n(0), "0");
    assert_eq!(fmt_n(999), "999");
    assert_eq!(fmt_n(1000), "1,000");
    assert_eq!(fmt_n(1_850_000), "1,850,000");
    assert_eq!(fmt_n(u64::MAX), "18,446,744,073,709,551,615");
}

#[test]
fn long_text_is_shortened() {
    assert_eq!(shorten("abcdef", 6), "abcdef");
    assert_eq!(shorten("abcdef", 4), "abc…");
    assert_eq!(shorten("äöüß…x", 4), "äöü…");
    assert_eq!(shorten("ab", 0), "…");
    assert_eq!(shorten("", 0), "");
}
