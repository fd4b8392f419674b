//! The small JSON documents that the dashboard is answered with.

use crate::numbers::{decimal, push_decimal};
use crate::text::push_text;
use vstd::prelude::*;

verus! {

/// The small hexadecimal digit for `d`.
pub open spec fn small_hex(d: int) -> char {
    if d < 10 {
        (48 + d) as char
    } else {
        (87 + d) as char
    }
}

/// A character as it stands in a JSON string: the quotation mark, the backslash and
/// the control characters are escaped, anything else stands for itself.
pub open spec fn json_char(c: char) -> Seq<char> {
    let u = c as int;
    if c == '"' {
        seq!['\\', '"']
    } else if c == '\\' {
        seq!['\\', '\\']
    } else if u == 0x08 {
        seq!['\\', 'b']
    } else if u == 0x0C {
        seq!['\\', 'f']
    } else if u == 0x0A {
        seq!['\\', 'n']
    } else if u == 0x0D {
        seq!['\\', 'r']
    } else if u == 0x09 {
        seq!['\\', 't']
    } else if u < 0x20 {
        seq!['\\', 'u', '0', '0', small_hex(u / 16), small_hex(u % 16)]
    } else {
        seq![c]
    }
}

/// Text as it stands between the quotation marks of a JSON string.
pub open spec fn json_chars(s: Seq<char>) -> Seq<char>
    decreases s.len(),
{
    if s.len() == 0 {
        Seq::empty()
    } else {
        json_chars(s.drop_last()) + json_char(s.last())
    }
}

/// Text as a JSON string.
pub open spec fn json_string(s: Seq<char>) -> Seq<char> {
    seq!['"'] + json_chars(s) + seq!['"']
}

/// `serde_json::to_string` on a text: a JSON string, with the quotation mark, the
/// backslash and the control characters escaped and nothing else. It fails only
/// where what is serialised or the writer fails, and neither a text nor a vector of
/// bytes does.
#[verifier::external_body]
fn quote(s: &str) -> (r: String)
    ensures
        r@ == json_string(s@),
{
    serde_json::to_string(s).unwrap()
}

/// The document that tells of an error.
pub open spec fn error_text(msg: Seq<char>) -> Seq<char> {
    "{\"error\":"@ + json_string(msg) + "}"@
}

/// The document that tells of an error.
pub fn error_body(msg: &str) -> (r: String)
    ensures
        r@ == error_text(msg@),
{
    let mut r = "{\"error\":".to_owned();
    push_text(&mut r, quote(msg).as_str());
    push_text(&mut r, "}");
    r
}

/// The document that tells that all went well.
pub fn ok_body() -> (r: String)
    ensures
        r@ == "{\"ok\":true}"@,
{
    "{\"ok\":true}".to_owned()
}

/// The document that tells what a deletion took away.
pub open spec fn deleted_text(freed: nat, files: nat, path: Seq<char>) -> Seq<char> {
    "{\"files\":"@ + decimal(files) + ",\"freed\":"@ + decimal(freed) + ",\"ok\":true,\"path\":"@
        + json_string(path) + "}"@
}

/// The document that tells what a deletion took away.
pub fn deleted_body(freed: u64, files: u64, path: &str) -> (r: String)
    ensures
        r@ == deleted_text(freed as nat, files as nat, path@),
{
    let mut r = "{\"files\":".to_owned();
    push_decimal(&mut r, files as u128);
    push_text(&mut r, ",\"freed\":");
    push_decimal(&mut r, freed as u128);
    push_text(&mut r, ",\"ok\":true,\"path\":");
    push_text(&mut r, quote(path).as_str());
    push_text(&mut r, "}");
    r
}

proof fn lemma_json_char(c: char)
    ensures
        forall|k: int| 0 <= k < json_char(c).len() ==> (#[trigger] json_char(c)[k]) as int >= 0x20,
        forall|k: int|
            0 <= k < json_char(c).len() && #[trigger] json_char(c)[k] == '"' ==> k > 0
                && json_char(c)[k - 1] == '\\',
{
    let u = c as int;
    let e = json_char(c);
    if u < 0x20 && e.len() == 6 {
        assert(0 <= u / 16 <= 1 && 0 <= u % 16 < 16);
        assert(e[0] == '\\' && e[1] == 'u' && e[2] == '0' && e[3] == '0');
        assert(e[4] == small_hex(u / 16) && e[5] == small_hex(u % 16));
        assert(e[4] != '"' && e[5] != '"');
        assert forall|k: int| 0 <= k < e.len() implies (#[trigger] e[k]) as int >= 0x20 && e[k]
            != '"' by {
            assert(k == 0 || k == 1 || k == 2 || k == 3 || k == 4 || k == 5);
        }
    }
}

/// The inside of a JSON string holds no control character, and no quotation mark but
/// behind a backslash: whatever the text, the string ends where it should.
pub proof fn json_string_is_closed(s: Seq<char>)
    ensures
        forall|i: int| 0 <= i < json_chars(s).len() ==> (#[trigger] json_chars(s)[i]) as int >= 0x20,
        forall|i: int|
            0 <= i < json_chars(s).len() && #[trigger] json_chars(s)[i] == '"' ==> i > 0
                && json_chars(s)[i - 1] == '\\',
    decreases s.len(),
{
    if s.len() > 0 {
        let rest = json_chars(s.drop_last());
        let e = json_char(s.last());
        let all = json_chars(s);
        json_string_is_closed(s.drop_last());
        lemma_json_char(s.last());
        assert forall|i: int| 0 <= i < all.len() implies (#[trigger] all[i]) as int >= 0x20 by {
            if i < rest.len() {
                assert(all[i] == rest[i]);
            } else {
                assert(all[i] == e[i - rest.len()]);
            }
        }
        assert forall|i: int| 0 <= i < all.len() && #[trigger] all[i] == '"' implies i > 0 && all[i
            - 1] == '\\' by {
            if i < rest.len() {
                assert(all[i] == rest[i]);
                assert(all[i - 1] == rest[i - 1]);
            } else {
                assert(all[i] == e[i - rest.len()]);
                assert(all[i - 1] == e[i - 1 - rest.len()]);
            }
        }
    }
}

/// A text is written into a JSON string one character after the other. The quotation mark
/// and the backslash get a backslash in front; backspace, form feed, newline, return and
/// tab are named by a letter, the other controls by their number; all else stays.
pub proof fn json_is_written_char_by_char(s: Seq<char>, c: char)
    ensures
        json_chars(Seq::empty()) == Seq::<char>::empty(),
        c == '"' || c == '\\' ==> json_chars(s.push(c)) == json_chars(s) + seq!['\\', c],
        c == '\u{8}' ==> json_chars(s.push(c)) == json_chars(s) + seq!['\\', 'b'],
        c == '\u{c}' ==> json_chars(s.push(c)) == json_chars(s) + seq!['\\', 'f'],
        c == '\n' ==> json_chars(s.push(c)) == json_chars(s) + seq!['\\', 'n'],
        c == '\r' ==> json_chars(s.push(c)) == json_chars(s) + seq!['\\', 'r'],
        c == '\t' ==> json_chars(s.push(c)) == json_chars(s) + seq!['\\', 't'],
        c < ' ' && c != '\u{8}' && c != '\u{c}' && c != '\n' && c != '\r' && c != '\t'
            ==> json_chars(s.push(c)) == json_chars(s) + seq![
            '\\',
            'u',
            '0',
            '0',
            "0123456789abcdef"@[c as int / 16],
            "0123456789abcdef"@[c as int % 16],
        ],
        c >= ' ' && c != '"' && c != '\\' ==> json_chars(s.push(c)) == json_chars(s).push(c),
        json_string(s) == seq!['"'] + json_chars(s) + seq!['"'],
{
    reveal_strlit("0123456789abcdef");
    assert(s.push(c).drop_last() == s);
    assert(s.push(c).last() == c);
    assert(json_chars(s) + seq![c] == json_chars(s).push(c));
}

/// The documents hold what they tell of, and nothing else.
pub proof fn documents_hold_what_they_tell(freed: nat, files: nat, text: Seq<char>)
    ensures
        error_text(text) == "{\"error\":\""@ + json_chars(text) + "\"}"@,
        deleted_text(freed, files, text) == "{\"files\":"@ + decimal(files) + ",\"freed\":"@
            + decimal(freed) + ",\"ok\":true,\"path\":\""@ + json_chars(text) + "\"}"@,
{
    reveal_strlit("{\"error\":");
    reveal_strlit("{\"error\":\"");
    reveal_strlit("}");
    reveal_strlit("\"}");
    reveal_strlit(",\"ok\":true,\"path\":");
    reveal_strlit(",\"ok\":true,\"path\":\"");
    assert(error_text(text) =~= "{\"error\":\""@ + json_chars(text) + "\"}"@);
    assert(deleted_text(freed, files, text) =~= "{\"files\":"@ + decimal(files) + ",\"freed\":"@
        + decimal(freed) + ",\"ok\":true,\"path\":\""@ + json_chars(text) + "\"}"@);
}

/// The documents that are answered are those that tell of the error, of success, and of what
/// a deletion took away.
pub proof fn documents_are_answered(
    msg: &str,
    a: String,
    b: String,
    freed: u64,
    files: u64,
    c: String,
)
    requires
        call_ensures(error_body, (msg,), a),
        call_ensures(ok_body, (), b),
        call_ensures(deleted_body, (freed, files, msg), c),
    ensures
        a@ == error_text(msg@),
        b@ == "{\"ok\":true}"@,
        c@ == deleted_text(freed as nat, files as nat, msg@),
{
}

} // verus!
