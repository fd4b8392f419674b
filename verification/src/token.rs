//! The secret of one run: made at the start, embedded in the page, and asked back
//! with every request that changes anything.

use crate::json::small_hex;
use crate::text::{lower, same_text, to_lower};
use vstd::prelude::*;

verus! {

/// The bytes in small hexadecimal digits, two for each.
pub open spec fn hex_text(bytes: Seq<u8>) -> Seq<char>
    decreases bytes.len(),
{
    if bytes.len() == 0 {
        Seq::empty()
    } else {
        hex_text(bytes.drop_last()) + seq![
            small_hex(bytes.last() as int / 16),
            small_hex(bytes.last() as int % 16),
        ]
    }
}

fn hex_char(d: u8) -> (c: char)
    requires
        d < 16,
    ensures
        c == small_hex(d as int),
{
    if d < 10 {
        (48u8 + d) as char
    } else {
        (87u8 + d) as char
    }
}

/// The token made of the given bytes.
pub fn token_text(bytes: &Vec<u8>) -> (r: String)
    ensures
        r@ == hex_text(bytes@),
{
    let mut r = String::new();
    assert(bytes@.take(0) == Seq::<u8>::empty());
    for i in 0..bytes.len()
        invariant
            r@ == hex_text(bytes@.take(i as int)),
    {
        let ghost before = r@;
        proof {
            assert(bytes@.take(i + 1).drop_last() == bytes@.take(i as int));
        }
        let b = bytes[i];
        r.push(hex_char(b / 16));
        r.push(hex_char(b % 16));
        assert(r@ == before + seq![small_hex(b as int / 16), small_hex(b as int % 16)]);
    }
    assert(bytes@.take(bytes@.len() as int) == bytes@);
    r
}

/// Byte `i` made from a seed.
pub open spec fn seeded_byte(seed: u64, i: u64) -> u8 {
    (seed.wrapping_mul(6364136223846793005).wrapping_add(i.wrapping_mul(1442695040888963407)) >> ((i
        % 8) * 8)) as u8
}

/// The bytes of a token where the system hands out none: made from the clock and the
/// number of the process.
pub fn seeded_bytes(nanos: u64, pid: u32) -> (bytes: Vec<u8>)
    ensures
        bytes@.len() == 16,
        forall|i: int|
            0 <= i < 16 ==> #[trigger] bytes@[i] == seeded_byte(
                nanos ^ ((pid as u64) << 32),
                i as u64,
            ),
{
    let seed: u64 = nanos ^ ((pid as u64) << 32);
    let mut bytes: Vec<u8> = Vec::new();
    for i in 0..16u64
        invariant
            seed == nanos ^ ((pid as u64) << 32),
            bytes@.len() == i,
            forall|k: int| 0 <= k < i ==> #[trigger] bytes@[k] == seeded_byte(seed, k as u64),
    {
        let mixed: u64 = seed.wrapping_mul(6364136223846793005).wrapping_add(
            i.wrapping_mul(1442695040888963407),
        );
        let by: u64 = (i % 8) * 8;
        bytes.push((mixed >> by) as u8);
    }
    bytes
}

/// The token: from the random bytes that the system handed out or, where it did not,
/// from the clock and the number of the process.
pub fn gen_token(random: Option<Vec<u8>>, nanos: u64, pid: u32) -> (r: String)
    ensures
        match random {
            Some(b) => r@ == hex_text(b@),
            None => r@ == hex_text(
                Seq::new(16, |i: int| seeded_byte(nanos ^ ((pid as u64) << 32), i as u64)),
            ),
        },
{
    match random {
        Some(b) => token_text(&b),
        None => {
            let b = seeded_bytes(nanos, pid);
            assert(b@ == Seq::new(
                16,
                |i: int| seeded_byte(nanos ^ ((pid as u64) << 32), i as u64),
            ));
            token_text(&b)
        },
    }
}

/// The header that the token comes back in.
pub open spec fn is_token_header(field: Seq<char>) -> bool {
    lower(field) == lower("X-Diskhoji-Token"@)
}

/// Whether one of the headers carries the token. Their names are compared without
/// regard to case.
pub open spec fn carries_token(headers: Seq<(String, String)>, token: Seq<char>) -> bool {
    exists|i: int|
        0 <= i < headers.len() && is_token_header((#[trigger] headers[i]).0@) && headers[i].1@
            == token
}

/// Whether one of the headers carries the token.
pub fn token_ok(headers: &Vec<(String, String)>, token: &str) -> (r: bool)
    ensures
        r == carries_token(headers@, token@),
{
    let wanted = to_lower("X-Diskhoji-Token");
    for i in 0..headers.len()
        invariant
            wanted@ == lower("X-Diskhoji-Token"@),
            forall|k: int|
                0 <= k < i ==> !(is_token_header((#[trigger] headers@[k]).0@) && headers@[k].1@
                    == token@),
    {
        if to_lower(headers[i].0.as_str()) == wanted && same_text(headers[i].1.as_str(), token) {
            return true;
        }
    }
    false
}

/// A token has two characters for every byte, each of them a small hexadecimal
/// digit, and no two byte strings make the same token.
pub proof fn tokens_tell_bytes_apart(a: Seq<u8>, b: Seq<u8>)
    ensures
        hex_text(a).len() == 2 * a.len(),
        forall|i: int|
            0 <= i < hex_text(a).len() ==> ('0' <= #[trigger] hex_text(a)[i] && hex_text(a)[i]
                <= '9') || ('a' <= hex_text(a)[i] && hex_text(a)[i] <= 'f'),
        hex_text(a) == hex_text(b) ==> a == b,
    decreases a.len(),
{
    if a.len() > 0 {
        let x = hex_text(a);
        let rest = hex_text(a.drop_last());
        if b.len() > 0 {
            tokens_tell_bytes_apart(a.drop_last(), b.drop_last());
        } else {
            tokens_tell_bytes_apart(a.drop_last(), b);
        }
        assert forall|i: int| 0 <= i < x.len() implies ('0' <= #[trigger] x[i] && x[i] <= '9') || (
        'a' <= x[i] && x[i] <= 'f') by {
            if i < rest.len() {
                assert(x[i] == rest[i]);
            }
        }
        if x == hex_text(b) {
            assert(b.len() > 0);
            let y = hex_text(b);
            assert(x.take(x.len() - 2) == rest);
            assert(y.take(y.len() - 2) == hex_text(b.drop_last()));
            assert(x[x.len() - 2] == small_hex(a.last() as int / 16));
            assert(x[x.len() - 1] == small_hex(a.last() as int % 16));
            assert(y[y.len() - 2] == small_hex(b.last() as int / 16));
            assert(y[y.len() - 1] == small_hex(b.last() as int % 16));
            assert(a.last() == b.last());
            assert(a == a.drop_last().push(a.last()));
            assert(b == b.drop_last().push(b.last()));
        }
    } else if b.len() > 0 {
        assert(hex_text(b).len() > 0);
    } else {
        assert(a == b);
    }
}

/// A token spells its bytes one after the other, each with the digit of its upper half
/// before that of its lower one.
pub proof fn tokens_spell_bytes_in_order(a: Seq<u8>, b: u8)
    ensures
        hex_text(Seq::empty()) == Seq::<char>::empty(),
        hex_text(a.push(b)) == hex_text(a) + seq![
            "0123456789abcdef"@[b as int / 16],
            "0123456789abcdef"@[b as int % 16],
        ],
{
    reveal_strlit("0123456789abcdef");
    assert(a.push(b).drop_last() == a);
    assert(a.push(b).last() == b);
}

/// The seed is mixed modulo 2 to the 64th.
proof fn lemma_mixed(seed: u64, i: u64)
    ensures
        seed.wrapping_mul(6364136223846793005).wrapping_add(i.wrapping_mul(1442695040888963407))
            as int == (seed * 6364136223846793005 + i * 1442695040888963407)
            % 0x1_0000_0000_0000_0000,
{
    let p = seed * 6364136223846793005;
    let q = i * 1442695040888963407;
    let a = seed.wrapping_mul(6364136223846793005) as int;
    let b = i.wrapping_mul(1442695040888963407) as int;
    assert(a == p % 0x1_0000_0000_0000_0000);
    assert(b == q % 0x1_0000_0000_0000_0000);
    vstd::arithmetic::div_mod::lemma_add_mod_noop(p, q, 0x1_0000_0000_0000_0000);
}

/// One byte of a number, counted from the lowest.
proof fn lemma_one_byte(m: u64, k: u64)
    requires
        k < 8,
    ensures
        k == 0 ==> (m >> (k * 8) as u64) as u8 == m % 0x100,
        k == 1 ==> (m >> (k * 8) as u64) as u8 == m / 0x100 % 0x100,
        k == 2 ==> (m >> (k * 8) as u64) as u8 == m / 0x1_0000 % 0x100,
        k == 3 ==> (m >> (k * 8) as u64) as u8 == m / 0x100_0000 % 0x100,
        k == 4 ==> (m >> (k * 8) as u64) as u8 == m / 0x1_0000_0000 % 0x100,
        k == 5 ==> (m >> (k * 8) as u64) as u8 == m / 0x100_0000_0000 % 0x100,
        k == 6 ==> (m >> (k * 8) as u64) as u8 == m / 0x1_0000_0000_0000 % 0x100,
        k == 7 ==> (m >> (k * 8) as u64) as u8 == m / 0x100_0000_0000_0000 % 0x100,
{
    assert((m >> 0u64) as u8 == m % 0x100) by (bit_vector);
    assert((m >> 8u64) as u8 == m / 0x100 % 0x100) by (bit_vector);
    assert((m >> 16u64) as u8 == m / 0x1_0000 % 0x100) by (bit_vector);
    assert((m >> 24u64) as u8 == m / 0x100_0000 % 0x100) by (bit_vector);
    assert((m >> 32u64) as u8 == m / 0x1_0000_0000 % 0x100) by (bit_vector);
    assert((m >> 40u64) as u8 == m / 0x100_0000_0000 % 0x100) by (bit_vector);
    assert((m >> 48u64) as u8 == m / 0x1_0000_0000_0000 % 0x100) by (bit_vector);
    assert((m >> 56u64) as u8 == m / 0x100_0000_0000_0000 % 0x100) by (bit_vector);
}

/// Byte `i` of a token without random bytes is one byte of the mixed seed, which is taken
/// modulo 2 to the 64th: the lowest first, and after the eighth the lowest again.
pub proof fn seeded_bytes_come_from_the_mixed_seed(seed: u64, i: u64)
    ensures
        ({
            let mixed = (seed * 6364136223846793005 + i * 1442695040888963407)
                % 0x1_0000_0000_0000_0000;
            let k = i % 8;
            &&& k == 0 ==> seeded_byte(seed, i) == mixed % 0x100
            &&& k == 1 ==> seeded_byte(seed, i) == mixed / 0x100 % 0x100
            &&& k == 2 ==> seeded_byte(seed, i) == mixed / 0x1_0000 % 0x100
            &&& k == 3 ==> seeded_byte(seed, i) == mixed / 0x100_0000 % 0x100
            &&& k == 4 ==> seeded_byte(seed, i) == mixed / 0x1_0000_0000 % 0x100
            &&& k == 5 ==> seeded_byte(seed, i) == mixed / 0x100_0000_0000 % 0x100
            &&& k == 6 ==> seeded_byte(seed, i) == mixed / 0x1_0000_0000_0000 % 0x100
            &&& k == 7 ==> seeded_byte(seed, i) == mixed / 0x100_0000_0000_0000 % 0x100
        }),
{
    let m = seed.wrapping_mul(6364136223846793005).wrapping_add(
        i.wrapping_mul(1442695040888963407),
    );
    lemma_mixed(seed, i);
    lemma_one_byte(m, i % 8);
}

/// A token spells the random bytes that the system handed out, all of them; where it handed
/// out none, sixteen bytes made of the clock and the process. It is asked back in a header.
pub proof fn token_is_made_of_bytes(
    random: Option<Vec<u8>>,
    nanos: u64,
    pid: u32,
    r: String,
    bytes: Vec<u8>,
    text: String,
    headers: Vec<(String, String)>,
    token: &str,
    ok: bool,
    seeded: Vec<u8>,
)
    requires
        call_ensures(gen_token, (random, nanos, pid), r),
        call_ensures(token_text, (&bytes,), text),
        call_ensures(token_ok, (&headers, token), ok),
        call_ensures(seeded_bytes, (nanos, pid), seeded),
    ensures
        random is Some ==> r@ == hex_text(random->0@),
        random is None ==> r@ == hex_text(seeded@),
        seeded@.len() == 16,
        forall|i: int|
            0 <= i < 16 ==> #[trigger] seeded@[i] == seeded_byte(
                nanos ^ ((pid as u64) << 32),
                i as u64,
            ),
        text@ == hex_text(bytes@),
        ok <==> carries_token(headers@, token@),
{
    assert(seeded@ =~= Seq::new(
        16,
        |i: int| seeded_byte(nanos ^ ((pid as u64) << 32), i as u64),
    ));
}

} // verus!
