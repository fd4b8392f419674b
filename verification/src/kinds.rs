//! File types: the part of a name that tells them apart.

use crate::text::{byte_len, bytes_in, chars_of, is_white_space, last_index,
    last_place_is_the_last, lower, lower_char, rfind, text_between, to_lower, white_space};
use vstd::prelude::*;
use vstd::utf8::encode_utf8;

verus! {

/// What follows the last dot of a name: not for a name that starts with its only
/// dot or ends in one, and not where it is longer than twelve bytes or holds
/// white space.
pub open spec fn extension(name: Seq<char>) -> Seq<char> {
    let d = last_index(name, '.');
    let e = name.skip(d + 1);
    if d > 0 && e.len() > 0 && byte_len(e) <= 12 && !(exists|i: int|
        0 <= i < e.len() && white_space(#[trigger] e[i])) {
        e
    } else {
        Seq::empty()
    }
}

/// The name a file's type goes by: its extension in small letters.
pub open spec fn kind_of(name: Seq<char>) -> Seq<char> {
    lower(extension(name))
}

/// The extension of a file name, empty where there is none.
pub fn ext_of(name: &str) -> (r: String)
    ensures
        r@ == extension(name@),
{
    let v = chars_of(name);
    match rfind(&v, '.') {
        Some(d) => {
            if d == 0 || d + 1 >= v.len() {
                return String::new();
            }
            let e = text_between(&v, d + 1, v.len());
            let ghost x = name@.skip(d + 1);
            assert(e@ == x);
            if bytes_in(e.as_str()) > 12 {
                return String::new();
            }
            for i in d + 1..v.len()
                invariant
                    v@ == name@,
                    d < v@.len(),
                    x == name@.skip(d + 1),
                    d == last_index(name@, '.'),
                    forall|j: int| 0 <= j < i - d - 1 ==> !white_space(#[trigger] x[j]),
            {
                assert(x[i - d - 1] == v@[i as int]);
                if is_white_space(v[i]) {
                    return String::new();
                }
            }
            e
        },
        None => String::new(),
    }
}

/// The name a file's type goes by.
pub fn kind(name: &str) -> (r: String)
    ensures
        r@ == kind_of(name@),
{
    to_lower(ext_of(name).as_str())
}

/// A name that ends in a dot and an extension has that extension, whatever stands in
/// front of the dot, as long as anything does: an extension is of up to twelve bytes
/// and holds neither a dot nor white space.
pub proof fn extension_follows_the_last_dot(base: Seq<char>, e: Seq<char>)
    requires
        base.len() > 0,
        e.len() > 0,
        encode_utf8(e).len() <= 12,
        forall|i: int|
            0 <= i < e.len() ==> (#[trigger] e[i]) != '.' && !(9 <= e[i] as u32 <= 13 || e[i] as u32
                == 32 || e[i] as u32 == 0x85 || e[i] as u32 == 0xA0 || e[i] as u32 == 0x1680
                || 0x2000 <= e[i] as u32 <= 0x200A || e[i] as u32 == 0x2028 || e[i] as u32 == 0x2029
                || e[i] as u32 == 0x202F || e[i] as u32 == 0x205F || e[i] as u32 == 0x3000),
    ensures
        extension(base + seq!['.'] + e) == e,
{
    let name = base + seq!['.'] + e;
    last_place_is_the_last(name, '.');
    let d = last_index(name, '.');
    assert(name[base.len() as int] == '.');
    assert forall|i: int| base.len() < i < name.len() implies #[trigger] name[i] != '.' by {
        assert(name[i] == e[i - base.len() - 1]);
    }
    assert(d == base.len());
    assert(name.skip(d + 1) == e);
}

/// Whatever is an extension follows the last dot of a name that does not start with
/// that dot, takes no more than twelve bytes, and holds no dot and no white space.
pub proof fn extension_is_part_of_the_name(name: Seq<char>)
    requires
        extension(name).len() > 0,
    ensures
        exists|base: Seq<char>|
            base.len() > 0 && name == #[trigger] (base + seq!['.']) + extension(name),
        encode_utf8(extension(name)).len() <= 12,
        forall|i: int|
            0 <= i < extension(name).len() ==> (#[trigger] extension(name)[i]) != '.'
                && !white_space(extension(name)[i]),
{
    last_place_is_the_last(name, '.');
    let d = last_index(name, '.');
    let base = name.take(d);
    assert(name == (base + seq!['.']) + extension(name));
    assert forall|i: int| 0 <= i < extension(name).len() implies (#[trigger] extension(name)[i])
        != '.' && !white_space(extension(name)[i]) by {
        assert(extension(name)[i] == name[d + 1 + i]);
    }
}

/// The type of a file goes by its extension in small letters: as long, letter for
/// letter, with A to Z made small and everything else as it is. Two names whose
/// extensions differ in case only are of one type.
pub proof fn types_disregard_case(name: Seq<char>, other: Seq<char>)
    ensures
        kind_of(name).len() == extension(name).len(),
        forall|i: int|
            0 <= i < extension(name).len() ==> {
                let c = #[trigger] extension(name)[i];
                kind_of(name)[i] as u32 == if 'A' <= c && c <= 'Z' {
                    (c as u32 + 32) as u32
                } else {
                    c as u32
                }
            },
        extension(name).len() == extension(other).len() && (forall|i: int|
            0 <= i < extension(name).len() ==> {
                let a = (#[trigger] extension(name)[i]) as u32;
                let b = extension(other)[i] as u32;
                a == b || (65 <= a <= 90 && b == a + 32) || (65 <= b <= 90 && a == b + 32)
            }) ==> kind_of(name) == kind_of(other),
{
    let x = extension(name);
    let y = extension(other);
    assert forall|c: char| (#[trigger] lower_char(c)) as u32 == if 'A' <= c && c <= 'Z' {
        (c as u32 + 32) as u32
    } else {
        c as u32
    } by {}
    assert forall|i: int| 0 <= i < x.len() implies kind_of(name)[i] == lower_char(
        #[trigger] x[i],
    ) by {}
    if x.len() == y.len() && (forall|i: int|
        0 <= i < x.len() ==> {
            let a = (#[trigger] x[i]) as u32;
            let b = y[i] as u32;
            a == b || (65 <= a <= 90 && b == a + 32) || (65 <= b <= 90 && a == b + 32)
        }) {
        assert forall|i: int| 0 <= i < x.len() implies kind_of(name)[i] == kind_of(other)[i] by {
            let a = x[i] as u32;
            let b = y[i] as u32;
            assert(a == b || (65 <= a <= 90 && b == a + 32) || (65 <= b <= 90 && a == b + 32));
            assert(lower_char(x[i]) as u32 == lower_char(y[i]) as u32);
        }
        assert(kind_of(name) =~= kind_of(other));
    }
}

/// A name that ends in a dot and an extension has that extension, and goes by it in small
/// letters; whatever a name's extension is, the function says so.
pub proof fn names_tell_their_extension(
    name: &str,
    r: String,
    k: String,
    base: Seq<char>,
    e: Seq<char>,
)
    requires
        call_ensures(ext_of, (name,), r),
        call_ensures(kind, (name,), k),
        base.len() > 0,
        e.len() > 0,
        encode_utf8(e).len() <= 12,
        forall|i: int| 0 <= i < e.len() ==> (#[trigger] e[i]) != '.' && !white_space(e[i]),
    ensures
        r@ == extension(name@),
        k@ == kind_of(name@),
        name@ == base + seq!['.'] + e ==> r@ == e && k@ == lower(e),
{
    extension_follows_the_last_dot(base, e);
}

} // verus!
