//! The colors of the window.

use crate::config::ThemeKind;
use crate::text::chars_of;
use crate::treemap::{SLOT_DIRAGG, SLOT_SMALL};
use vstd::prelude::*;

verus! {

/// A color.
#[derive(Clone, Copy, PartialEq, Eq, Structural)]
pub struct Rgb {
    pub r: u8,
    pub g: u8,
    pub b: u8,
}

/// The value of a hexadecimal digit, large or small.
pub open spec fn digit_value(c: char) -> Option<nat> {
    if '0' <= c && c <= '9' {
        Some((c as int - 48) as nat)
    } else if 'a' <= c && c <= 'f' {
        Some((c as int - 87) as nat)
    } else if 'A' <= c && c <= 'F' {
        Some((c as int - 55) as nat)
    } else {
        None
    }
}

/// The number that hexadecimal digits spell, where they are digits.
pub open spec fn hex_number(s: Seq<char>) -> Option<nat>
    decreases s.len(),
{
    if s.len() == 0 {
        Some(0)
    } else {
        match (hex_number(s.drop_last()), digit_value(s.last())) {
            (Some(n), Some(d)) => Some(16 * n + d),
            _ => None,
        }
    }
}

/// What follows the first character of a color's text, without the plus sign that
/// may stand in front of a number.
pub open spec fn color_digits(s: Seq<char>) -> Seq<char> {
    if s.len() > 1 && s[1] == '+' {
        s.skip(2)
    } else {
        s.skip(1)
    }
}

/// The number that a color's text spells: nothing but digits, at least one, and no
/// more than 32 bits; otherwise it is zero.
pub open spec fn color_number(s: Seq<char>) -> nat {
    match hex_number(color_digits(s)) {
        Some(n) => if color_digits(s).len() > 0 && n <= u32::MAX {
            n
        } else {
            0
        },
        None => 0,
    }
}

/// The color that a text such as `#0E1116` stands for.
pub open spec fn color(s: Seq<char>) -> Rgb {
    let n = color_number(s);
    Rgb {
        r: (n / 0x10000 % 0x100) as u8,
        g: (n / 0x100 % 0x100) as u8,
        b: (n % 0x100) as u8,
    }
}

fn digit_of(c: char) -> (r: Option<u64>)
    ensures
        match r {
            Some(d) => digit_value(c) == Some(d as nat) && d < 16,
            None => digit_value(c) is None,
        },
{
    if '0' <= c && c <= '9' {
        Some(c as u64 - 48)
    } else if 'a' <= c && c <= 'f' {
        Some(c as u64 - 87)
    } else if 'A' <= c && c <= 'F' {
        Some(c as u64 - 55)
    } else {
        None
    }
}

proof fn lemma_hex_grows(s: Seq<char>, i: int)
    requires
        0 <= i <= s.len(),
    ensures
        hex_number(s) is Some ==> hex_number(s.take(i)) is Some && hex_number(s.take(i))->0
            <= hex_number(s)->0,
    decreases s.len() - i,
{
    if i < s.len() {
        lemma_hex_grows(s, i + 1);
        assert(s.take(i + 1).drop_last() == s.take(i));
    } else {
        assert(s.take(i) == s);
    }
}

fn number_of(v: &Vec<char>, from: usize) -> (r: u64)
    requires
        from <= v@.len(),
    ensures
        r == match hex_number(v@.skip(from as int)) {
            Some(n) => if v@.skip(from as int).len() > 0 && n <= u32::MAX {
                n
            } else {
                0
            },
            None => 0,
        },
        r <= u32::MAX,
{
    let ghost d = v@.skip(from as int);
    let mut n: u64 = 0;
    let mut i: usize = from;
    assert(d.take(0) == Seq::<char>::empty());
    while i < v.len()
        invariant
            from <= i <= v@.len(),
            d == v@.skip(from as int),
            n <= u32::MAX,
            hex_number(d.take(i - from)) == Some(n as nat),
        decreases v@.len() - i,
    {
        proof {
            assert(d.take(i - from + 1).drop_last() == d.take(i - from));
            assert(d.take(i - from + 1).last() == v@[i as int]);
            lemma_hex_grows(d, i - from + 1);
        }
        match digit_of(v[i]) {
            Some(x) => {
                n = 16 * n + x;
                if n > 0xFFFF_FFFF {
                    return 0;
                }
            },
            None => {
                return 0;
            },
        }
        i = i + 1;
    }
    assert(d.take(d.len() as int) == d);
    n
}

/// The color that a text such as `#0E1116` stands for.
pub fn hex(c: &str) -> (r: Rgb)
    requires
        c@.len() > 0,
        (c@[0] as int) < 128,
    ensures
        r == color(c@),
{
    let v = chars_of(c);
    let n: u64 = if v.len() > 1 && v[1] == '+' {
        number_of(&v, 2)
    } else {
        number_of(&v, 1)
    };
    Rgb {
        r: (n / 0x10000 % 0x100) as u8,
        g: (n / 0x100 % 0x100) as u8,
        b: (n % 0x100) as u8,
    }
}

/// The colors of one theme.
pub struct Theme {
    pub bg: Rgb,
    pub well: Rgb,
    pub panel: Rgb,
    pub panel2: Rgb,
    pub line: Rgb,
    pub ink: Rgb,
    pub ink2: Rgb,
    pub ink3: Rgb,
    pub acc: Rgb,
    pub danger: Rgb,
    pub slots: [Rgb; 8],
    pub other: Rgb,
    pub diragg: Rgb,
    pub small: Rgb,
    pub heat: [Rgb; 5],
}

/// The colors of a theme.
pub open spec fn has_colors(t: Theme, kind: ThemeKind) -> bool {
    match kind {
        ThemeKind::Dark => {
            &&& t.bg == color("#0E1116"@)
            &&& t.well == color("#0A0D12"@)
            &&& t.panel == color("#141922"@)
            &&& t.panel2 == color("#1B2130"@)
            &&& t.line == color("#232C3A"@)
            &&& t.ink == color("#E8ECF4"@)
            &&& t.ink2 == color("#A6B0C3"@)
            &&& t.ink3 == color("#7A879E"@)
            &&& t.acc == color("#E5B96B"@)
            &&& t.danger == color("#E66767"@)
            &&& t.slots@[0] == color("#3987e5"@)
            &&& t.slots@[1] == color("#199e70"@)
            &&& t.slots@[2] == color("#c98500"@)
            &&& t.slots@[3] == color("#008300"@)
            &&& t.slots@[4] == color("#9085e9"@)
            &&& t.slots@[5] == color("#e66767"@)
            &&& t.slots@[6] == color("#d55181"@)
            &&& t.slots@[7] == color("#d95926"@)
            &&& t.other == color("#566072"@)
            &&& t.diragg == color("#3E4654"@)
            &&& t.small == color("#2E3542"@)
            &&& t.heat@[0] == color("#1D2531"@)
            &&& t.heat@[1] == color("#0E4429"@)
            &&& t.heat@[2] == color("#006D32"@)
            &&& t.heat@[3] == color("#26A641"@)
            &&& t.heat@[4] == color("#39D353"@)
        },
        ThemeKind::Light => {
            &&& t.bg == color("#F2EEE6"@)
            &&& t.well == color("#E9E4D8"@)
            &&& t.panel == color("#FAF7F0"@)
            &&& t.panel2 == color("#F1ECE0"@)
            &&& t.line == color("#D9D2C3"@)
            &&& t.ink == color("#1D2532"@)
            &&& t.ink2 == color("#4A566B"@)
            &&& t.ink3 == color("#75808F"@)
            &&& t.acc == color("#9C7326"@)
            &&& t.danger == color("#B03A3A"@)
            &&& t.slots@[0] == color("#2F6FBF"@)
            &&& t.slots@[1] == color("#0F7A52"@)
            &&& t.slots@[2] == color("#9A6A00"@)
            &&& t.slots@[3] == color("#1F6B00"@)
            &&& t.slots@[4] == color("#6F63C9"@)
            &&& t.slots@[5] == color("#C24848"@)
            &&& t.slots@[6] == color("#AD3C64"@)
            &&& t.slots@[7] == color("#B0451C"@)
            &&& t.other == color("#8A94A6"@)
            &&& t.diragg == color("#B9C0CC"@)
            &&& t.small == color("#C9CFD8"@)
            &&& t.heat@[0] == color("#E4DFD2"@)
            &&& t.heat@[1] == color("#9BE9A8"@)
            &&& t.heat@[2] == color("#40C463"@)
            &&& t.heat@[3] == color("#30A14E"@)
            &&& t.heat@[4] == color("#216E39"@)
        },
    }
}

/// The colors of a theme.
pub fn theme(kind: ThemeKind) -> (t: Theme)
    ensures
        has_colors(t, kind),
{
    proof {
        reveal_strlit("#0E1116");
        reveal_strlit("#0A0D12");
        reveal_strlit("#141922");
        reveal_strlit("#1B2130");
        reveal_strlit("#232C3A");
        reveal_strlit("#E8ECF4");
        reveal_strlit("#A6B0C3");
        reveal_strlit("#7A879E");
        reveal_strlit("#E5B96B");
        reveal_strlit("#E66767");
        reveal_strlit("#566072");
        reveal_strlit("#3E4654");
        reveal_strlit("#2E3542");
        reveal_strlit("#3987e5");
        reveal_strlit("#199e70");
        reveal_strlit("#c98500");
        reveal_strlit("#008300");
        reveal_strlit("#9085e9");
        reveal_strlit("#e66767");
        reveal_strlit("#d55181");
        reveal_strlit("#d95926");
        reveal_strlit("#1D2531");
        reveal_strlit("#0E4429");
        reveal_strlit("#006D32");
        reveal_strlit("#26A641");
        reveal_strlit("#39D353");
        reveal_strlit("#F2EEE6");
        reveal_strlit("#E9E4D8");
        reveal_strlit("#FAF7F0");
        reveal_strlit("#F1ECE0");
        reveal_strlit("#D9D2C3");
        reveal_strlit("#1D2532");
        reveal_strlit("#4A566B");
        reveal_strlit("#75808F");
        reveal_strlit("#9C7326");
        reveal_strlit("#B03A3A");
        reveal_strlit("#8A94A6");
        reveal_strlit("#B9C0CC");
        reveal_strlit("#C9CFD8");
        reveal_strlit("#2F6FBF");
        reveal_strlit("#0F7A52");
        reveal_strlit("#9A6A00");
        reveal_strlit("#1F6B00");
        reveal_strlit("#6F63C9");
        reveal_strlit("#C24848");
        reveal_strlit("#AD3C64");
        reveal_strlit("#B0451C");
        reveal_strlit("#E4DFD2");
        reveal_strlit("#9BE9A8");
        reveal_strlit("#40C463");
        reveal_strlit("#30A14E");
        reveal_strlit("#216E39");
    }
    match kind {
        ThemeKind::Dark => Theme {
            bg: hex("#0E1116"),
            well: hex("#0A0D12"),
            panel: hex("#141922"),
            panel2: hex("#1B2130"),
            line: hex("#232C3A"),
            ink: hex("#E8ECF4"),
            ink2: hex("#A6B0C3"),
            ink3: hex("#7A879E"),
            acc: hex("#E5B96B"),
            danger: hex("#E66767"),
            slots: [
                hex("#3987e5"),
                hex("#199e70"),
                hex("#c98500"),
                hex("#008300"),
                hex("#9085e9"),
                hex("#e66767"),
                hex("#d55181"),
                hex("#d95926"),
            ],
            other: hex("#566072"),
            diragg: hex("#3E4654"),
            small: hex("#2E3542"),
            heat: [
                hex("#1D2531"),
                hex("#0E4429"),
                hex("#006D32"),
                hex("#26A641"),
                hex("#39D353"),
            ],
        },
        ThemeKind::Light => Theme {
            bg: hex("#F2EEE6"),
            well: hex("#E9E4D8"),
            panel: hex("#FAF7F0"),
            panel2: hex("#F1ECE0"),
            line: hex("#D9D2C3"),
            ink: hex("#1D2532"),
            ink2: hex("#4A566B"),
            ink3: hex("#75808F"),
            acc: hex("#9C7326"),
            danger: hex("#B03A3A"),
            slots: [
                hex("#2F6FBF"),
                hex("#0F7A52"),
                hex("#9A6A00"),
                hex("#1F6B00"),
                hex("#6F63C9"),
                hex("#C24848"),
                hex("#AD3C64"),
                hex("#B0451C"),
            ],
            other: hex("#8A94A6"),
            diragg: hex("#B9C0CC"),
            small: hex("#C9CFD8"),
            heat: [
                hex("#E4DFD2"),
                hex("#9BE9A8"),
                hex("#40C463"),
                hex("#30A14E"),
                hex("#216E39"),
            ],
        },
    }
}

impl Theme {
    /// The color of a slot.
    pub open spec fn color_of(&self, s: u8) -> Rgb {
        if s < 8 {
            self.slots@[s as int]
        } else if s == SLOT_SMALL {
            self.small
        } else if s == SLOT_DIRAGG {
            self.diragg
        } else {
            self.other
        }
    }

    /// The color of a slot.
    pub fn slot_color(&self, s: u8) -> (r: Rgb)
        ensures
            r == self.color_of(s),
    {
        if s < 8 {
            self.slots[s as usize]
        } else if s == SLOT_SMALL {
            self.small
        } else if s == SLOT_DIRAGG {
            self.diragg
        } else {
            self.other
        }
    }
}

/// Six hexadecimal digits, large or small, make a color: two each for red, green and blue.
pub proof fn six_digits_make_a_color(s: Seq<char>, d: Seq<int>)
    requires
        s.len() == 7,
        d.len() == 6,
        forall|i: int|
            0 <= i < 6 ==> 0 <= (#[trigger] d[i]) < 16 && (s[i + 1] == "0123456789abcdef"@[d[i]] || s[i
                + 1] == "0123456789ABCDEF"@[d[i]]),
    ensures
        color(s) == (Rgb {
            r: (16 * d[0] + d[1]) as u8,
            g: (16 * d[2] + d[3]) as u8,
            b: (16 * d[4] + d[5]) as u8,
        }),
{
    reveal_strlit("0123456789abcdef");
    reveal_strlit("0123456789ABCDEF");
    assert forall|i: int| 0 <= i < 6 implies digit_value(s[i + 1]) == Some(
        #[trigger] d[i] as nat,
    ) by {
    }
    assert(digit_value(s[1]) == Some(d[0] as nat) && digit_value(s[2]) == Some(d[1] as nat));
    assert(digit_value(s[3]) == Some(d[2] as nat) && digit_value(s[4]) == Some(d[3] as nat));
    assert(digit_value(s[5]) == Some(d[4] as nat) && digit_value(s[6]) == Some(d[5] as nat));
    lemma_six_digits(
        s,
        d[0] as nat,
        d[1] as nat,
        d[2] as nat,
        d[3] as nat,
        d[4] as nat,
        d[5] as nat,
    );
}

/// One digit more makes sixteen times the number and the digit.
proof fn lemma_hex_digit_more(t: Seq<char>, i: int, d: nat)
    requires
        1 <= i <= t.len(),
        hex_number(t.take(i - 1)) is Some,
        digit_value(t[i - 1]) == Some(d),
    ensures
        hex_number(t.take(i)) == Some(16 * hex_number(t.take(i - 1))->0 + d),
{
    assert(t.take(i).drop_last() == t.take(i - 1));
    assert(t.take(i).last() == t[i - 1]);
}

/// A text that holds anything but hexadecimal digits behind its first character is black,
/// and so is one that holds none. A plus sign in front of the digits changes nothing.
pub proof fn other_texts_are_black(mark: char, s: Seq<char>, i: int)
    ensures
        color(seq![mark]) == (Rgb { r: 0, g: 0, b: 0 }),
        0 <= i < s.len() && s[0] != '+' && !"0123456789abcdef"@.contains(s[i])
            && !"0123456789ABCDEF"@.contains(s[i]) ==> color(seq![mark] + s) == (Rgb {
            r: 0,
            g: 0,
            b: 0,
        }),
        s.len() > 0 && s[0] != '+' ==> color(seq![mark, '+'] + s) == color(seq![mark] + s),
{
    reveal_strlit("0123456789abcdef");
    reveal_strlit("0123456789ABCDEF");
    assert(seq![mark].skip(1) == Seq::<char>::empty());
    assert((seq![mark] + s).skip(1) == s);
    assert((seq![mark, '+'] + s).skip(2) == s);
    if s.len() > 0 {
        assert((seq![mark] + s)[1] == s[0]);
    }
    if 0 <= i < s.len() && s[0] != '+' && !"0123456789abcdef"@.contains(s[i])
        && !"0123456789ABCDEF"@.contains(s[i]) {
        let c = s[i];
        let small = "0123456789abcdef"@;
        let large = "0123456789ABCDEF"@;
        if '0' <= c && c <= '9' {
            assert(small[c as int - 48] == c);
        }
        if 'a' <= c && c <= 'f' {
            assert(small[c as int - 87] == c);
        }
        if 'A' <= c && c <= 'F' {
            assert(large[c as int - 55] == c);
        }
        assert(digit_value(c) is None);
        lemma_hex_grows(s, i + 1);
        assert(s.take(i + 1).last() == c);
    }
}

/// The first eight slots have colors of their own; small items, closed directories and all
/// other types have one each.
pub proof fn every_slot_has_a_color(t: Theme, s: u8)
    ensures
        s < 8 ==> t.color_of(s) == t.slots@[s as int],
        s == 253 ==> t.color_of(s) == t.small,
        s == 254 ==> t.color_of(s) == t.diragg,
        s >= 8 && s != 253 && s != 254 ==> t.color_of(s) == t.other,
{
}

proof fn lemma_six_digits(s: Seq<char>, a: nat, b: nat, c: nat, d: nat, e: nat, f: nat)
    requires
        s.len() == 7,
        a < 16 && b < 16 && c < 16 && d < 16 && e < 16 && f < 16,
        digit_value(s[1]) == Some(a),
        digit_value(s[2]) == Some(b),
        digit_value(s[3]) == Some(c),
        digit_value(s[4]) == Some(d),
        digit_value(s[5]) == Some(e),
        digit_value(s[6]) == Some(f),
    ensures
        color(s) == (Rgb {
            r: (16 * a + b) as u8,
            g: (16 * c + d) as u8,
            b: (16 * e + f) as u8,
        }),
{
    let t = s.skip(1);
    assert(t.take(0) == Seq::<char>::empty());
    lemma_hex_digit_more(t, 1, a);
    lemma_hex_digit_more(t, 2, b);
    lemma_hex_digit_more(t, 3, c);
    lemma_hex_digit_more(t, 4, d);
    lemma_hex_digit_more(t, 5, e);
    lemma_hex_digit_more(t, 6, f);
    assert(t.take(6) == t);
    let h = 16 * a + b;
    let m = 16 * c + d;
    let l = 16 * e + f;
    assert(hex_number(t) == Some(0x10000 * h + 0x100 * m + l));
    assert(s[1] != '+');
    assert(color_digits(s) == t);
    lemma_three_bytes(h, m, l);
}

/// Three bytes one behind the other come apart again.
proof fn lemma_three_bytes(h: nat, m: nat, l: nat)
    requires
        h < 0x100,
        m < 0x100,
        l < 0x100,
    ensures
        (0x10000 * h + 0x100 * m + l) / 0x10000 % 0x100 == h,
        (0x10000 * h + 0x100 * m + l) / 0x100 % 0x100 == m,
        (0x10000 * h + 0x100 * m + l) % 0x100 == l,
{
    let all = 0x10000 * h + 0x100 * m + l;
    assert(all / 0x10000 == h);
    assert(all / 0x100 == 0x100 * h + m);
    vstd::arithmetic::div_mod::lemma_mod_multiples_vanish(h as int, m as int, 0x100);
    vstd::arithmetic::div_mod::lemma_mod_multiples_vanish((0x100 * h + m) as int, l as int, 0x100);
}

/// The colors of the dark theme.
pub proof fn dark_is_made_of_these(t: Theme)
    requires
        has_colors(t, ThemeKind::Dark),
    ensures
        t.bg == (Rgb { r: 0x0E, g: 0x11, b: 0x16 }),
        t.well == (Rgb { r: 0x0A, g: 0x0D, b: 0x12 }),
        t.panel == (Rgb { r: 0x14, g: 0x19, b: 0x22 }),
        t.panel2 == (Rgb { r: 0x1B, g: 0x21, b: 0x30 }),
        t.line == (Rgb { r: 0x23, g: 0x2C, b: 0x3A }),
        t.ink == (Rgb { r: 0xE8, g: 0xEC, b: 0xF4 }),
        t.ink2 == (Rgb { r: 0xA6, g: 0xB0, b: 0xC3 }),
        t.ink3 == (Rgb { r: 0x7A, g: 0x87, b: 0x9E }),
        t.acc == (Rgb { r: 0xE5, g: 0xB9, b: 0x6B }),
        t.danger == (Rgb { r: 0xE6, g: 0x67, b: 0x67 }),
        t.slots@[0] == (Rgb { r: 0x39, g: 0x87, b: 0xE5 }),
        t.slots@[1] == (Rgb { r: 0x19, g: 0x9E, b: 0x70 }),
        t.slots@[2] == (Rgb { r: 0xC9, g: 0x85, b: 0x00 }),
        t.slots@[3] == (Rgb { r: 0x00, g: 0x83, b: 0x00 }),
        t.slots@[4] == (Rgb { r: 0x90, g: 0x85, b: 0xE9 }),
        t.slots@[5] == (Rgb { r: 0xE6, g: 0x67, b: 0x67 }),
        t.slots@[6] == (Rgb { r: 0xD5, g: 0x51, b: 0x81 }),
        t.slots@[7] == (Rgb { r: 0xD9, g: 0x59, b: 0x26 }),
        t.other == (Rgb { r: 0x56, g: 0x60, b: 0x72 }),
        t.diragg == (Rgb { r: 0x3E, g: 0x46, b: 0x54 }),
        t.small == (Rgb { r: 0x2E, g: 0x35, b: 0x42 }),
        t.heat@[0] == (Rgb { r: 0x1D, g: 0x25, b: 0x31 }),
        t.heat@[1] == (Rgb { r: 0x0E, g: 0x44, b: 0x29 }),
        t.heat@[2] == (Rgb { r: 0x00, g: 0x6D, b: 0x32 }),
        t.heat@[3] == (Rgb { r: 0x26, g: 0xA6, b: 0x41 }),
        t.heat@[4] == (Rgb { r: 0x39, g: 0xD3, b: 0x53 }),
{
    assert(color("#0E1116"@) == (Rgb { r: 0x0E, g: 0x11, b: 0x16 })) by {
        reveal_strlit("#0E1116");
        lemma_six_digits("#0E1116"@, 0, 14, 1, 1, 1, 6);
    }
    assert(color("#0A0D12"@) == (Rgb { r: 0x0A, g: 0x0D, b: 0x12 })) by {
        reveal_strlit("#0A0D12");
        lemma_six_digits("#0A0D12"@, 0, 10, 0, 13, 1, 2);
    }
    assert(color("#141922"@) == (Rgb { r: 0x14, g: 0x19, b: 0x22 })) by {
        reveal_strlit("#141922");
        lemma_six_digits("#141922"@, 1, 4, 1, 9, 2, 2);
    }
    assert(color("#1B2130"@) == (Rgb { r: 0x1B, g: 0x21, b: 0x30 })) by {
        reveal_strlit("#1B2130");
        lemma_six_digits("#1B2130"@, 1, 11, 2, 1, 3, 0);
    }
    assert(color("#232C3A"@) == (Rgb { r: 0x23, g: 0x2C, b: 0x3A })) by {
        reveal_strlit("#232C3A");
        lemma_six_digits("#232C3A"@, 2, 3, 2, 12, 3, 10);
    }
    assert(color("#E8ECF4"@) == (Rgb { r: 0xE8, g: 0xEC, b: 0xF4 })) by {
        reveal_strlit("#E8ECF4");
        lemma_six_digits("#E8ECF4"@, 14, 8, 14, 12, 15, 4);
    }
    assert(color("#A6B0C3"@) == (Rgb { r: 0xA6, g: 0xB0, b: 0xC3 })) by {
        reveal_strlit("#A6B0C3");
        lemma_six_digits("#A6B0C3"@, 10, 6, 11, 0, 12, 3);
    }
    assert(color("#7A879E"@) == (Rgb { r: 0x7A, g: 0x87, b: 0x9E })) by {
        reveal_strlit("#7A879E");
        lemma_six_digits("#7A879E"@, 7, 10, 8, 7, 9, 14);
    }
    assert(color("#E5B96B"@) == (Rgb { r: 0xE5, g: 0xB9, b: 0x6B })) by {
        reveal_strlit("#E5B96B");
        lemma_six_digits("#E5B96B"@, 14, 5, 11, 9, 6, 11);
    }
    assert(color("#E66767"@) == (Rgb { r: 0xE6, g: 0x67, b: 0x67 })) by {
        reveal_strlit("#E66767");
        lemma_six_digits("#E66767"@, 14, 6, 6, 7, 6, 7);
    }
    assert(color("#3987e5"@) == (Rgb { r: 0x39, g: 0x87, b: 0xE5 })) by {
        reveal_strlit("#3987e5");
        lemma_six_digits("#3987e5"@, 3, 9, 8, 7, 14, 5);
    }
    assert(color("#199e70"@) == (Rgb { r: 0x19, g: 0x9E, b: 0x70 })) by {
        reveal_strlit("#199e70");
        lemma_six_digits("#199e70"@, 1, 9, 9, 14, 7, 0);
    }
    assert(color("#c98500"@) == (Rgb { r: 0xC9, g: 0x85, b: 0x00 })) by {
        reveal_strlit("#c98500");
        lemma_six_digits("#c98500"@, 12, 9, 8, 5, 0, 0);
    }
    assert(color("#008300"@) == (Rgb { r: 0x00, g: 0x83, b: 0x00 })) by {
        reveal_strlit("#008300");
        lemma_six_digits("#008300"@, 0, 0, 8, 3, 0, 0);
    }
    assert(color("#9085e9"@) == (Rgb { r: 0x90, g: 0x85, b: 0xE9 })) by {
        reveal_strlit("#9085e9");
        lemma_six_digits("#9085e9"@, 9, 0, 8, 5, 14, 9);
    }
    assert(color("#e66767"@) == (Rgb { r: 0xE6, g: 0x67, b: 0x67 })) by {
        reveal_strlit("#e66767");
        lemma_six_digits("#e66767"@, 14, 6, 6, 7, 6, 7);
    }
    assert(color("#d55181"@) == (Rgb { r: 0xD5, g: 0x51, b: 0x81 })) by {
        reveal_strlit("#d55181");
        lemma_six_digits("#d55181"@, 13, 5, 5, 1, 8, 1);
    }
    assert(color("#d95926"@) == (Rgb { r: 0xD9, g: 0x59, b: 0x26 })) by {
        reveal_strlit("#d95926");
        lemma_six_digits("#d95926"@, 13, 9, 5, 9, 2, 6);
    }
    assert(color("#566072"@) == (Rgb { r: 0x56, g: 0x60, b: 0x72 })) by {
        reveal_strlit("#566072");
        lemma_six_digits("#566072"@, 5, 6, 6, 0, 7, 2);
    }
    assert(color("#3E4654"@) == (Rgb { r: 0x3E, g: 0x46, b: 0x54 })) by {
        reveal_strlit("#3E4654");
        lemma_six_digits("#3E4654"@, 3, 14, 4, 6, 5, 4);
    }
    assert(color("#2E3542"@) == (Rgb { r: 0x2E, g: 0x35, b: 0x42 })) by {
        reveal_strlit("#2E3542");
        lemma_six_digits("#2E3542"@, 2, 14, 3, 5, 4, 2);
    }
    assert(color("#1D2531"@) == (Rgb { r: 0x1D, g: 0x25, b: 0x31 })) by {
        reveal_strlit("#1D2531");
        lemma_six_digits("#1D2531"@, 1, 13, 2, 5, 3, 1);
    }
    assert(color("#0E4429"@) == (Rgb { r: 0x0E, g: 0x44, b: 0x29 })) by {
        reveal_strlit("#0E4429");
        lemma_six_digits("#0E4429"@, 0, 14, 4, 4, 2, 9);
    }
    assert(color("#006D32"@) == (Rgb { r: 0x00, g: 0x6D, b: 0x32 })) by {
        reveal_strlit("#006D32");
        lemma_six_digits("#006D32"@, 0, 0, 6, 13, 3, 2);
    }
    assert(color("#26A641"@) == (Rgb { r: 0x26, g: 0xA6, b: 0x41 })) by {
        reveal_strlit("#26A641");
        lemma_six_digits("#26A641"@, 2, 6, 10, 6, 4, 1);
    }
    assert(color("#39D353"@) == (Rgb { r: 0x39, g: 0xD3, b: 0x53 })) by {
        reveal_strlit("#39D353");
        lemma_six_digits("#39D353"@, 3, 9, 13, 3, 5, 3);
    }
}

/// The colors of the light theme.
pub proof fn light_is_made_of_these(t: Theme)
    requires
        has_colors(t, ThemeKind::Light),
    ensures
        t.bg == (Rgb { r: 0xF2, g: 0xEE, b: 0xE6 }),
        t.well == (Rgb { r: 0xE9, g: 0xE4, b: 0xD8 }),
        t.panel == (Rgb { r: 0xFA, g: 0xF7, b: 0xF0 }),
        t.panel2 == (Rgb { r: 0xF1, g: 0xEC, b: 0xE0 }),
        t.line == (Rgb { r: 0xD9, g: 0xD2, b: 0xC3 }),
        t.ink == (Rgb { r: 0x1D, g: 0x25, b: 0x32 }),
        t.ink2 == (Rgb { r: 0x4A, g: 0x56, b: 0x6B }),
        t.ink3 == (Rgb { r: 0x75, g: 0x80, b: 0x8F }),
        t.acc == (Rgb { r: 0x9C, g: 0x73, b: 0x26 }),
        t.danger == (Rgb { r: 0xB0, g: 0x3A, b: 0x3A }),
        t.slots@[0] == (Rgb { r: 0x2F, g: 0x6F, b: 0xBF }),
        t.slots@[1] == (Rgb { r: 0x0F, g: 0x7A, b: 0x52 }),
        t.slots@[2] == (Rgb { r: 0x9A, g: 0x6A, b: 0x00 }),
        t.slots@[3] == (Rgb { r: 0x1F, g: 0x6B, b: 0x00 }),
        t.slots@[4] == (Rgb { r: 0x6F, g: 0x63, b: 0xC9 }),
        t.slots@[5] == (Rgb { r: 0xC2, g: 0x48, b: 0x48 }),
        t.slots@[6] == (Rgb { r: 0xAD, g: 0x3C, b: 0x64 }),
        t.slots@[7] == (Rgb { r: 0xB0, g: 0x45, b: 0x1C }),
        t.other == (Rgb { r: 0x8A, g: 0x94, b: 0xA6 }),
        t.diragg == (Rgb { r: 0xB9, g: 0xC0, b: 0xCC }),
        t.small == (Rgb { r: 0xC9, g: 0xCF, b: 0xD8 }),
        t.heat@[0] == (Rgb { r: 0xE4, g: 0xDF, b: 0xD2 }),
        t.heat@[1] == (Rgb { r: 0x9B, g: 0xE9, b: 0xA8 }),
        t.heat@[2] == (Rgb { r: 0x40, g: 0xC4, b: 0x63 }),
        t.heat@[3] == (Rgb { r: 0x30, g: 0xA1, b: 0x4E }),
        t.heat@[4] == (Rgb { r: 0x21, g: 0x6E, b: 0x39 }),
{
    assert(color("#F2EEE6"@) == (Rgb { r: 0xF2, g: 0xEE, b: 0xE6 })) by {
        reveal_strlit("#F2EEE6");
        lemma_six_digits("#F2EEE6"@, 15, 2, 14, 14, 14, 6);
    }
    assert(color("#E9E4D8"@) == (Rgb { r: 0xE9, g: 0xE4, b: 0xD8 })) by {
        reveal_strlit("#E9E4D8");
        lemma_six_digits("#E9E4D8"@, 14, 9, 14, 4, 13, 8);
    }
    assert(color("#FAF7F0"@) == (Rgb { r: 0xFA, g: 0xF7, b: 0xF0 })) by {
        reveal_strlit("#FAF7F0");
        lemma_six_digits("#FAF7F0"@, 15, 10, 15, 7, 15, 0);
    }
    assert(color("#F1ECE0"@) == (Rgb { r: 0xF1, g: 0xEC, b: 0xE0 })) by {
        reveal_strlit("#F1ECE0");
        lemma_six_digits("#F1ECE0"@, 15, 1, 14, 12, 14, 0);
    }
    assert(color("#D9D2C3"@) == (Rgb { r: 0xD9, g: 0xD2, b: 0xC3 })) by {
        reveal_strlit("#D9D2C3");
        lemma_six_digits("#D9D2C3"@, 13, 9, 13, 2, 12, 3);
    }
    assert(color("#1D2532"@) == (Rgb { r: 0x1D, g: 0x25, b: 0x32 })) by {
        reveal_strlit("#1D2532");
        lemma_six_digits("#1D2532"@, 1, 13, 2, 5, 3, 2);
    }
    assert(color("#4A566B"@) == (Rgb { r: 0x4A, g: 0x56, b: 0x6B })) by {
        reveal_strlit("#4A566B");
        lemma_six_digits("#4A566B"@, 4, 10, 5, 6, 6, 11);
    }
    assert(color("#75808F"@) == (Rgb { r: 0x75, g: 0x80, b: 0x8F })) by {
        reveal_strlit("#75808F");
        lemma_six_digits("#75808F"@, 7, 5, 8, 0, 8, 15);
    }
    assert(color("#9C7326"@) == (Rgb { r: 0x9C, g: 0x73, b: 0x26 })) by {
        reveal_strlit("#9C7326");
        lemma_six_digits("#9C7326"@, 9, 12, 7, 3, 2, 6);
    }
    assert(color("#B03A3A"@) == (Rgb { r: 0xB0, g: 0x3A, b: 0x3A })) by {
        reveal_strlit("#B03A3A");
        lemma_six_digits("#B03A3A"@, 11, 0, 3, 10, 3, 10);
    }
    assert(color("#2F6FBF"@) == (Rgb { r: 0x2F, g: 0x6F, b: 0xBF })) by {
        reveal_strlit("#2F6FBF");
        lemma_six_digits("#2F6FBF"@, 2, 15, 6, 15, 11, 15);
    }
    assert(color("#0F7A52"@) == (Rgb { r: 0x0F, g: 0x7A, b: 0x52 })) by {
        reveal_strlit("#0F7A52");
        lemma_six_digits("#0F7A52"@, 0, 15, 7, 10, 5, 2);
    }
    assert(color("#9A6A00"@) == (Rgb { r: 0x9A, g: 0x6A, b: 0x00 })) by {
        reveal_strlit("#9A6A00");
        lemma_six_digits("#9A6A00"@, 9, 10, 6, 10, 0, 0);
    }
    assert(color("#1F6B00"@) == (Rgb { r: 0x1F, g: 0x6B, b: 0x00 })) by {
        reveal_strlit("#1F6B00");
        lemma_six_digits("#1F6B00"@, 1, 15, 6, 11, 0, 0);
    }
    assert(color("#6F63C9"@) == (Rgb { r: 0x6F, g: 0x63, b: 0xC9 })) by {
        reveal_strlit("#6F63C9");
        lemma_six_digits("#6F63C9"@, 6, 15, 6, 3, 12, 9);
    }
    assert(color("#C24848"@) == (Rgb { r: 0xC2, g: 0x48, b: 0x48 })) by {
        reveal_strlit("#C24848");
        lemma_six_digits("#C24848"@, 12, 2, 4, 8, 4, 8);
    }
    assert(color("#AD3C64"@) == (Rgb { r: 0xAD, g: 0x3C, b: 0x64 })) by {
        reveal_strlit("#AD3C64");
        lemma_six_digits("#AD3C64"@, 10, 13, 3, 12, 6, 4);
    }
    assert(color("#B0451C"@) == (Rgb { r: 0xB0, g: 0x45, b: 0x1C })) by {
        reveal_strlit("#B0451C");
        lemma_six_digits("#B0451C"@, 11, 0, 4, 5, 1, 12);
    }
    assert(color("#8A94A6"@) == (Rgb { r: 0x8A, g: 0x94, b: 0xA6 })) by {
        reveal_strlit("#8A94A6");
        lemma_six_digits("#8A94A6"@, 8, 10, 9, 4, 10, 6);
    }
    assert(color("#B9C0CC"@) == (Rgb { r: 0xB9, g: 0xC0, b: 0xCC })) by {
        reveal_strlit("#B9C0CC");
        lemma_six_digits("#B9C0CC"@, 11, 9, 12, 0, 12, 12);
    }
    assert(color("#C9CFD8"@) == (Rgb { r: 0xC9, g: 0xCF, b: 0xD8 })) by {
        reveal_strlit("#C9CFD8");
        lemma_six_digits("#C9CFD8"@, 12, 9, 12, 15, 13, 8);
    }
    assert(color("#E4DFD2"@) == (Rgb { r: 0xE4, g: 0xDF, b: 0xD2 })) by {
        reveal_strlit("#E4DFD2");
        lemma_six_digits("#E4DFD2"@, 14, 4, 13, 15, 13, 2);
    }
    assert(color("#9BE9A8"@) == (Rgb { r: 0x9B, g: 0xE9, b: 0xA8 })) by {
        reveal_strlit("#9BE9A8");
        lemma_six_digits("#9BE9A8"@, 9, 11, 14, 9, 10, 8);
    }
    assert(color("#40C463"@) == (Rgb { r: 0x40, g: 0xC4, b: 0x63 })) by {
        reveal_strlit("#40C463");
        lemma_six_digits("#40C463"@, 4, 0, 12, 4, 6, 3);
    }
    assert(color("#30A14E"@) == (Rgb { r: 0x30, g: 0xA1, b: 0x4E })) by {
        reveal_strlit("#30A14E");
        lemma_six_digits("#30A14E"@, 3, 0, 10, 1, 4, 14);
    }
    assert(color("#216E39"@) == (Rgb { r: 0x21, g: 0x6E, b: 0x39 })) by {
        reveal_strlit("#216E39");
        lemma_six_digits("#216E39"@, 2, 1, 6, 14, 3, 9);
    }
}

/// A digit in front of others counts for a power of sixteen.
proof fn lemma_hex_digit_before(c: char, t: Seq<char>, d: nat)
    requires
        digit_value(c) == Some(d),
    ensures
        hex_number(t) is None ==> hex_number(seq![c] + t) is None,
        hex_number(t) is Some ==> hex_number(seq![c] + t) == Some(
            d * vstd::arithmetic::power::pow(16, t.len()) as nat + hex_number(t)->0,
        ),
        hex_number(t) is Some ==> hex_number(t)->0 < vstd::arithmetic::power::pow(16, t.len()),
    decreases t.len(),
{
    let s = seq![c] + t;
    vstd::arithmetic::power::lemma_pow_positive(16, t.len());
    if t.len() == 0 {
        vstd::arithmetic::power::lemma_pow0(16);
        assert(s.drop_last() == Seq::<char>::empty());
        assert(s.last() == c);
        reveal_with_fuel(hex_number, 2);
    } else {
        let r = t.drop_last();
        lemma_hex_digit_before(c, r, d);
        assert(s.drop_last() == seq![c] + r);
        assert(s.last() == t.last());
        let p = vstd::arithmetic::power::pow(16, r.len()) as nat;
        assert(vstd::arithmetic::power::pow(16, t.len()) == 16 * p) by {
            vstd::arithmetic::power::lemma_pow_adds(16, 1, r.len());
            vstd::arithmetic::power::lemma_pow1(16);
        }
        assert(16 * (d * p) == d * (16 * p)) by (nonlinear_arith);
    }
}

/// What stands in front of six digits does not count.
proof fn lemma_front_falls(n: nat, k: nat)
    ensures
        (0x100_0000 * k + n) / 0x10000 % 0x100 == n / 0x10000 % 0x100,
        (0x100_0000 * k + n) / 0x100 % 0x100 == n / 0x100 % 0x100,
        (0x100_0000 * k + n) % 0x100 == n % 0x100,
{
    let all = 0x100_0000 * k + n;
    let a = n / 0x10000;
    let b = n / 0x100;
    assert(all / 0x10000 == 0x100 * k + a);
    assert(all / 0x100 == 0x100 * (0x100 * k) + b);
    vstd::arithmetic::div_mod::lemma_mod_multiples_vanish(k as int, a as int, 0x100);
    vstd::arithmetic::div_mod::lemma_mod_multiples_vanish((0x100 * k) as int, b as int, 0x100);
    vstd::arithmetic::div_mod::lemma_mod_multiples_vanish((0x10000 * k) as int, n as int, 0x100);
}

/// The digits of a color are read from the right: a zero in front changes nothing, what
/// stands in front of six digits is passed over as long as there are no more than eight,
/// and a number that takes more is black.
pub proof fn colors_are_read_from_the_right(mark: char, c: char, t: Seq<char>)
    requires
        t.len() > 0,
        t[0] != '+',
    ensures
        color(seq![mark, '0'] + t) == color(seq![mark] + t),
        6 <= t.len() <= 7 && digit_value(c) is Some ==> color(seq![mark, c] + t) == color(
            seq![mark] + t,
        ),
        t.len() >= 8 && c != '0' && digit_value(c) is Some ==> color(seq![mark, c] + t) == (Rgb {
            r: 0,
            g: 0,
            b: 0,
        }),
{
    assert((seq![mark] + t).skip(1) == t);
    assert((seq![mark] + t)[1] == t[0]);
    assert((seq![mark, '0'] + t).skip(1) == seq!['0'] + t);
    assert((seq![mark, c] + t).skip(1) == seq![c] + t);
    lemma_hex_digit_before('0', t, 0);
    let p = vstd::arithmetic::power::pow(16, t.len()) as nat;
    vstd::arithmetic::power::lemma_pow_positive(16, t.len());
    assert(0 * p == 0);
    if digit_value(c) is Some {
        let d = digit_value(c)->0;
        lemma_hex_digit_before(c, t, d);
        if hex_number(t) is Some {
            let n = hex_number(t)->0;
            if t.len() == 6 {
                assert(p == 0x100_0000) by {
                    reveal_with_fuel(vstd::arithmetic::power::pow, 7);
                }
                assert(d * p == 0x100_0000 * d) by (nonlinear_arith)
                    requires
                        p == 0x100_0000,
                ;
                lemma_front_falls(n, d);
            } else if t.len() == 7 {
                assert(p == 0x1000_0000) by {
                    reveal_with_fuel(vstd::arithmetic::power::pow, 8);
                }
                assert(d * p == 0x100_0000 * (16 * d)) by (nonlinear_arith)
                    requires
                        p == 0x1000_0000,
                ;
                lemma_front_falls(n, 16 * d);
            } else if t.len() >= 8 && c != '0' {
                assert(vstd::arithmetic::power::pow(16, 8) == 0x1_0000_0000) by {
                    reveal_with_fuel(vstd::arithmetic::power::pow, 9);
                }
                vstd::arithmetic::power::lemma_pow_increases(16, 8, t.len());
                assert(d * p >= p) by (nonlinear_arith)
                    requires
                        d >= 1,
                ;
            }
        }
    }
}

/// Colors, themes and slots are handed out as what is said of them.
pub proof fn themes_are_handed_out(c: &str, r: Rgb, kind: ThemeKind, t: Theme, s: u8, q: Rgb)
    requires
        c@.len() > 0,
        (c@[0] as int) < 128,
        call_ensures(hex, (c,), r),
        call_ensures(theme, (kind,), t),
        call_ensures(Theme::slot_color, (&t, s), q),
    ensures
        r == color(c@),
        has_colors(t, kind),
        q == t.color_of(s),
{
}

} // verus!
