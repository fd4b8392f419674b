use diskhoji::kinds::{ext_of, kind};
use diskhoji::numbers::{decimal_text, fixed_text, parse_up_to};
use diskhoji::split::{replace, split, split_words, starts_with, trim};
use diskhoji::text::{bytes_in, is_white_space, same_text, to_lower};

#[test]
fn extension_of_a_name() {
    assert_eq!(ext_of("photo.JPG"), "JPG");
    assert_eq!(ext_of("archive.tar.gz"), "gz");
    assert_eq!(ext_of("Makefile"), "");
    assert_eq!(ext_of(".bashrc"), "");
    assert_eq!(ext_of("ends."), "");
    assert_eq!(ext_of("a.123456789012"), "123456789012");
    assert_eq!(ext_of("a.1234567890123"), "");
    assert_eq!(ext_of("a.b c"), "");
    assert_eq!(ext_of("a.\u{3000}"), "");
    assert_eq!(ext_of("a.ääääää"), "ääääää");
    assert_eq!(ext_of("a.äääääää"), "");
    assert_eq!(ext_of("..x"), "x");
    assert_eq!(ext_of(""), "");
}

#[test]
fn type_of_a_name_is_in_small_letters() {
    assert_eq!(kind("photo.JPG"), "jpg");
    assert_eq!(kind("x.ÄZ"), "Äz");
    assert_eq!(kind("plain"), "");
}

#[test]
fn white_space_as_unicode_has_it() {
    for u in 0..=0x10FFFFu32 {
        if let Some(c) = char::from_u32(u) {
            assert_eq!(is_white_space(c), c.is_whitespace(), "{:x}", u);
        }
    }
}

#[test]
fn small_letters_as_ascii_has_them() {
    for u in 0..0x500u32 {
        if let Some(c) = char::from_u32(u) {
            let s = c.to_string();
            assert_eq!(to_lower(&s), s.to_ascii_lowercase());
        }
    }
    assert_eq!(bytes_in("aä…"), 6);
    assert!(same_text("ab", "ab"));
    assert!(!same_text("ab", "abc"));
}

const TEXTS: [&str; 12] = [
    "",
    " ",
    "a",
    "a b",
    "  a\t b\nc ",
    "a&b&&c",
    "&",
    "key=value&w=10",
    "\u{a0}x\u{2003}y\u{3000}",
    "aaaa",
    "abab\\040abab",
    "ends with &",
];

#[test]
fn splitting_as_std_does() {
    for s in TEXTS {
        for c in ['&', ' ', 'a', '\n', '='] {
            let ours = split(s, c);
            let theirs: Vec<String> = s.split(c).map(|p| p.to_string()).collect();
            assert_eq!(ours, theirs, "{:?} {:?}", s, c);
        }
        let ours = split_words(s);
        let theirs: Vec<String> = s.split_whitespace().map(|p| p.to_string()).collect();
        assert_eq!(ours, theirs, "{:?}", s);
        assert_eq!(trim(s), s.trim(), "{:?}", s);
    }
}

#[test]
fn replacing_and_prefixes_as_std_does() {
    for s in TEXTS {
        for p in ["a", "aa", "ab", "\\040", " ", "&&", "=v"] {
            for w in ["", "x", "aa"] {
                assert_eq!(replace(s, p, w), s.replace(p, w), "{:?} {:?} {:?}", s, p, w);
            }
            assert_eq!(starts_with(s, p), s.starts_with(p));
        }
        assert!(starts_with(s, ""));
    }
}

#[test]
fn numbers_as_std_reads_them() {
    for s in [
        "", "+", "-", "0", "+0", "-0", "007", "12", " 12", "12 ", "1_0", "4294967295", "4294967296",
        "18446744073709551615", "18446744073709551616", "99999999999999999999", "٣", "0x10", "++1",
        "000000000000000000000000000000001",
    ] {
        assert_eq!(parse_up_to(s, u64::MAX), s.parse::<u64>().ok(), "{:?}", s);
        assert_eq!(parse_up_to(s, u32::MAX as u64), s.parse::<u32>().ok().map(|n| n as u64), "{:?}", s);
        assert_eq!(parse_up_to(s, u16::MAX as u64), s.parse::<u16>().ok().map(|n| n as u64), "{:?}", s);
    }
}

#[test]
fn numbers_read_back_as_written() {
    for n in [0, 7, 10, 99, 100, 65535, 1_000_000_007, u64::MAX] {
        assert_eq!(decimal_text(n), n.to_string());
        assert_eq!(parse_up_to(&decimal_text(n), u64::MAX), Some(n));
    }
    assert_eq!(fixed_text(1234, 0), "1234");
    assert_eq!(fixed_text(1234, 1), "123.4");
    assert_eq!(fixed_text(1203, 2), "12.03");
    assert_eq!(fixed_text(3, 2), "0.03");
}
