//! The commands that hand a path or an address over to the desktop.

use crate::text::join;
use vstd::prelude::*;
use vstd::utf8::encode_utf8;

verus! {

/// The systems that are told apart.
#[derive(Clone, Copy)]
pub enum Platform {
    Linux,
    MacOs,
    Windows,
}

/// A program and what it is called with.
pub struct Invocation {
    pub program: String,
    pub args: Vec<String>,
}

/// What an invocation says.
pub struct InvocationView {
    pub program: Seq<char>,
    pub args: Seq<Seq<char>>,
}

impl View for Invocation {
    type V = InvocationView;

    open spec fn view(&self) -> InvocationView {
        InvocationView {
            program: self.program@,
            args: self.args@.map_values(|a: String| a@),
        }
    }
}

impl Invocation {
    /// A program without arguments.
    pub fn of(program: &str) -> (r: Invocation)
        ensures
            r@ == (InvocationView { program: program@, args: Seq::empty() }),
    {
        let r = Invocation { program: program.to_owned(), args: Vec::new() };
        assert(r@.args == Seq::<Seq<char>>::empty());
        r
    }

    /// The same with one more argument.
    pub fn with(self, arg: &str) -> (r: Invocation)
        ensures
            r@ == (InvocationView { program: self@.program, args: self@.args.push(arg@) }),
    {
        let mut r = self;
        let ghost before = r.args@;
        r.args.push(arg.to_owned());
        assert(r@.args == before.map_values(|a: String| a@).push(arg@));
        r
    }
}

/// Whether a byte stands for itself in a URI path.
pub open spec fn plain(b: u8) -> bool {
    ||| 65 <= b <= 90
    ||| 97 <= b <= 122
    ||| 48 <= b <= 57
    ||| b == 45
    ||| b == 46
    ||| b == 95
    ||| b == 126
    ||| b == 47
}

/// The capital hexadecimal digit for `d`.
pub open spec fn hex_digit(d: int) -> char {
    if d < 10 {
        (48 + d) as char
    } else {
        (55 + d) as char
    }
}

/// A byte as it stands in a URI: itself, or a percent sign and two digits.
pub open spec fn encoded_byte(b: u8) -> Seq<char> {
    if plain(b) {
        seq![b as char]
    } else {
        seq!['%', hex_digit(b as int / 16), hex_digit(b as int % 16)]
    }
}

/// Bytes as they stand in a URI.
pub open spec fn encoded(bytes: Seq<u8>) -> Seq<char>
    decreases bytes.len(),
{
    if bytes.len() == 0 {
        Seq::empty()
    } else {
        encoded(bytes.drop_last()) + encoded_byte(bytes.last())
    }
}

fn hex_char(d: u8) -> (c: char)
    requires
        d < 16,
    ensures
        c == hex_digit(d as int),
{
    if d < 10 {
        (48u8 + d) as char
    } else {
        (55u8 + d) as char
    }
}

/// A path as it stands in a URI.
pub fn uri_encode(path: &str) -> (r: String)
    ensures
        r@ == encoded(encode_utf8(path@)),
{
    let bytes = path.as_bytes();
    let ghost all = encode_utf8(path@);
    let mut out = String::new();
    assert(all.take(0) == Seq::<u8>::empty());
    for i in 0..bytes.len()
        invariant
            bytes@ == all,
            out@ == encoded(all.take(i as int)),
    {
        let b = bytes[i];
        let ghost before = out@;
        proof {
            assert(all.take(i + 1).drop_last() == all.take(i as int));
            assert(all.take(i + 1).last() == b);
        }
        if (65 <= b && b <= 90) || (97 <= b && b <= 122) || (48 <= b && b <= 57) || b == 45 || b
            == 46 || b == 95 || b == 126 || b == 47 {
            out.push(b as char);
        } else {
            out.push('%');
            out.push(hex_char(b / 16));
            out.push(hex_char(b % 16));
        }
        assert(out@ == before + encoded_byte(b));
    }
    assert(all.take(all.len() as int) == all);
    out
}

/// The value of a capital hexadecimal digit.
pub open spec fn hex_value(c: char) -> int {
    if c <= '9' {
        c as int - 48
    } else {
        c as int - 55
    }
}

/// The bytes that a URI path stands for.
pub open spec fn decoded(s: Seq<char>) -> Seq<u8>
    decreases s.len(),
{
    if s.len() == 0 {
        Seq::empty()
    } else if s.len() >= 3 && s[s.len() - 3] == '%' {
        decoded(s.take(s.len() - 3)).push(
            (16 * hex_value(s[s.len() - 2]) + hex_value(s[s.len() - 1])) as u8,
        )
    } else {
        decoded(s.drop_last()).push(s.last() as u8)
    }
}

/// Whether a character may stand in a URI path.
pub open spec fn uri_char(c: char) -> bool {
    c == '%' || ((c as int) < 128 && plain(c as u8))
}

proof fn lemma_no_percent_behind(bytes: Seq<u8>)
    ensures
        forall|i: int| 0 <= i < encoded(bytes).len() ==> uri_char(#[trigger] encoded(bytes)[i]),
        encoded(bytes).len() >= 1 ==> encoded(bytes)[encoded(bytes).len() - 1] != '%',
        encoded(bytes).len() >= 2 ==> encoded(bytes)[encoded(bytes).len() - 2] != '%',
    decreases bytes.len(),
{
    if bytes.len() > 0 {
        let rest = bytes.drop_last();
        let b = bytes.last();
        lemma_no_percent_behind(rest);
        let e = encoded_byte(b);
        let s = encoded(bytes);
        assert(s == encoded(rest) + e);
        assert forall|i: int| 0 <= i < e.len() implies uri_char(#[trigger] e[i]) by {}
        assert forall|i: int| 0 <= i < s.len() implies uri_char(#[trigger] s[i]) by {
            if i < encoded(rest).len() {
                assert(s[i] == encoded(rest)[i]);
            } else {
                assert(s[i] == e[i - encoded(rest).len()]);
            }
        }
        if plain(b) && encoded(rest).len() > 0 {
            assert(s[s.len() - 2] == encoded(rest)[encoded(rest).len() - 1]);
        }
    }
}

/// An encoded path holds only characters that may stand in a URI, and stands for
/// exactly the bytes of the path.
pub proof fn encoding_is_faithful(bytes: Seq<u8>)
    ensures
        forall|i: int| 0 <= i < encoded(bytes).len() ==> uri_char(#[trigger] encoded(bytes)[i]),
        decoded(encoded(bytes)) == bytes,
    decreases bytes.len(),
{
    lemma_no_percent_behind(bytes);
    if bytes.len() > 0 {
        let rest = bytes.drop_last();
        let b = bytes.last();
        let s = encoded(bytes);
        let r = encoded(rest);
        encoding_is_faithful(rest);
        lemma_no_percent_behind(rest);
        if plain(b) {
            assert(s.drop_last() == r);
            assert(s.last() as u8 == b);
            if s.len() >= 3 {
                assert(s[s.len() - 3] == r[r.len() - 2]);
            }
        } else {
            assert(s.take(s.len() - 3) == r);
            assert(16 * hex_value(hex_digit(b as int / 16)) + hex_value(
                hex_digit(b as int % 16),
            ) == b);
        }
        assert(rest.push(b) == bytes);
    }
}

/// The command that shows a path in the file manager.
pub open spec fn reveal_command(platform: Platform, path: Seq<char>) -> InvocationView {
    match platform {
        Platform::Linux => InvocationView {
            program: "dbus-send"@,
            args: seq![
                "--session"@,
                "--print-reply"@,
                "--dest=org.freedesktop.FileManager1"@,
                "/org/freedesktop/FileManager1"@,
                "org.freedesktop.FileManager1.ShowItems"@,
                "array:string:"@ + ("file://"@ + encoded(encode_utf8(path))),
                "string:"@,
            ],
        },
        Platform::MacOs => InvocationView { program: "open"@, args: seq!["-R"@, path] },
        Platform::Windows => InvocationView {
            program: "explorer"@,
            args: seq!["/select,"@ + path],
        },
    }
}

/// The command that shows a path in the file manager.
pub fn reveal_in_file_manager(platform: Platform, path: &str) -> (r: Invocation)
    ensures
        r@ == reveal_command(platform, path@),
{
    match platform {
        Platform::Linux => {
            let uri = join("file://", uri_encode(path).as_str());
            let r = Invocation::of("dbus-send").with("--session").with("--print-reply").with(
                "--dest=org.freedesktop.FileManager1",
            ).with("/org/freedesktop/FileManager1").with(
                "org.freedesktop.FileManager1.ShowItems",
            ).with(join("array:string:", uri.as_str()).as_str()).with("string:");
            assert(r@.args == reveal_command(platform, path@).args);
            r
        },
        Platform::MacOs => {
            let r = Invocation::of("open").with("-R").with(path);
            assert(r@.args == reveal_command(platform, path@).args);
            r
        },
        Platform::Windows => {
            let r = Invocation::of("explorer").with(join("/select,", path).as_str());
            assert(r@.args == reveal_command(platform, path@).args);
            r
        },
    }
}

/// The program that opens things with whatever is set up for them.
pub open spec fn opener(platform: Platform) -> Seq<char> {
    match platform {
        Platform::Linux => "xdg-open"@,
        Platform::MacOs => "open"@,
        Platform::Windows => "explorer"@,
    }
}

/// The command that opens a path with whatever is set up for it.
pub fn open_with_default(platform: Platform, path: &str) -> (r: Invocation)
    ensures
        r@ == (InvocationView { program: opener(platform), args: seq![path@] }),
{
    let program = match platform {
        Platform::Linux => "xdg-open",
        Platform::MacOs => "open",
        Platform::Windows => "explorer",
    };
    let r = Invocation::of(program).with(path);
    assert(r@.args == seq![path@]);
    r
}

/// What is opened instead where the file manager could not be asked to show a path: on
/// Linux, where it is asked over the bus, the directory that the path lies in, or the
/// topmost one. The other systems give no answer to go by.
pub fn reveal_instead(platform: Platform, answered: bool, parent: &Option<String>) -> (r: Option<
    Invocation,
>)
    ensures
        r is Some <==> platform is Linux && !answered,
        r is Some ==> r->0@ == (InvocationView {
            program: opener(platform),
            args: seq![
                match parent {
                    Some(p) => p@,
                    None => "/"@,
                },
            ],
        }),
{
    match platform {
        Platform::Linux => {
            if answered {
                return None;
            }
            match parent {
                Some(p) => Some(open_with_default(platform, p.as_str())),
                None => Some(open_with_default(platform, "/")),
            }
        },
        _ => None,
    }
}

/// The address as a window of its own, in a browser that has such windows.
pub open spec fn app_window(browser: Seq<char>, url: Seq<char>) -> InvocationView {
    InvocationView { program: browser, args: seq!["--app="@ + url, "--new-window"@] }
}

fn app_window_in(browser: &str, url: &str) -> (r: Invocation)
    ensures
        r@ == app_window(browser@, url@),
{
    let r = Invocation::of(browser).with(join("--app=", url).as_str()).with("--new-window");
    assert(r@.args == app_window(browser@, url@).args);
    r
}

/// The commands that show an address, in the order in which they are to be tried:
/// on Linux a window of its own in one of the browsers that have such windows, then
/// whatever is set up for addresses.
pub open spec fn browser_commands(platform: Platform, url: Seq<char>) -> Seq<InvocationView> {
    match platform {
        Platform::Linux => seq![
            app_window("google-chrome"@, url),
            app_window("google-chrome-stable"@, url),
            app_window("chromium"@, url),
            app_window("chromium-browser"@, url),
            app_window("brave-browser"@, url),
            app_window("microsoft-edge"@, url),
            InvocationView { program: "xdg-open"@, args: seq![url] },
        ],
        Platform::MacOs => seq![InvocationView { program: "open"@, args: seq![url] }],
        Platform::Windows => seq![
            InvocationView { program: "cmd"@, args: seq!["/C"@, "start"@, ""@, url] },
        ],
    }
}

/// The commands that show an address, in the order in which they are to be tried.
pub fn open_browser(platform: Platform, url: &str) -> (r: Vec<Invocation>)
    ensures
        r@.map_values(|i: Invocation| i@) == browser_commands(platform, url@),
{
    let mut r: Vec<Invocation> = Vec::new();
    match platform {
        Platform::Linux => {
            r.push(app_window_in("google-chrome", url));
            r.push(app_window_in("google-chrome-stable", url));
            r.push(app_window_in("chromium", url));
            r.push(app_window_in("chromium-browser", url));
            r.push(app_window_in("brave-browser", url));
            r.push(app_window_in("microsoft-edge", url));
            r.push(open_with_default(platform, url));
        },
        Platform::MacOs => {
            r.push(open_with_default(platform, url));
        },
        Platform::Windows => {
            let i = Invocation::of("cmd").with("/C").with("start").with("").with(url);
            assert(i@.args == seq!["/C"@, "start"@, ""@, url@]);
            r.push(i);
        },
    }
    assert(r@.map_values(|i: Invocation| i@) == browser_commands(platform, url@));
    r
}

/// How a byte stands in a URI path: letters, digits, `-`, `.`, `_`, `~` and `/` as
/// themselves, every other byte as a percent sign and its two hexadecimal digits. What is
/// encoded piece by piece is encoded as a whole.
pub proof fn bytes_are_encoded_one_by_one(a: Seq<u8>, b: u8)
    ensures
        encoded(Seq::empty()) == Seq::<char>::empty(),
        ({
            let c = b as char;
            ('a' <= c && c <= 'z') || ('A' <= c && c <= 'Z') || ('0' <= c && c <= '9') || c == '-'
                || c == '.' || c == '_' || c == '~' || c == '/'
        }) ==> encoded(a.push(b)) == encoded(a).push(b as char),
        !({
            let c = b as char;
            ('a' <= c && c <= 'z') || ('A' <= c && c <= 'Z') || ('0' <= c && c <= '9') || c == '-'
                || c == '.' || c == '_' || c == '~' || c == '/'
        }) ==> encoded(a.push(b)) == encoded(a) + seq![
            '%',
            "0123456789ABCDEF"@[b as int / 16],
            "0123456789ABCDEF"@[b as int % 16],
        ],
{
    reveal_strlit("0123456789ABCDEF");
    assert(a.push(b).drop_last() == a);
    assert(a.push(b).last() == b);
    assert(encoded(a) + seq![b as char] == encoded(a).push(b as char));
}

/// Every file manager is handed the path itself: over the bus, as a URI, on Linux; as an
/// argument of its own on macOS; right behind the switch on Windows.
pub proof fn reveal_hands_over_the_path(path: Seq<char>)
    ensures
        reveal_command(Platform::Linux, path).program == "dbus-send"@,
        reveal_command(Platform::Linux, path).args == seq![
            "--session"@,
            "--print-reply"@,
            "--dest=org.freedesktop.FileManager1"@,
            "/org/freedesktop/FileManager1"@,
            "org.freedesktop.FileManager1.ShowItems"@,
            "array:string:file://"@ + encoded(encode_utf8(path)),
            "string:"@,
        ],
        reveal_command(Platform::MacOs, path).program == "open"@,
        reveal_command(Platform::MacOs, path).args == seq!["-R"@, path],
        reveal_command(Platform::Windows, path).program == "explorer"@,
        reveal_command(Platform::Windows, path).args == seq!["/select,"@ + path],
{
    reveal_strlit("array:string:");
    reveal_strlit("file://");
    reveal_strlit("array:string:file://");
    let e = encoded(encode_utf8(path));
    assert("array:string:"@ + ("file://"@ + e) == "array:string:file://"@ + e);
}

/// An address is always shown in the end by whatever is set up for addresses. On Linux the
/// browsers that have windows of their own are tried before, Chrome first, each with the
/// address to show and a window to itself.
pub proof fn address_is_shown_somewhere(url: Seq<char>)
    ensures
        browser_commands(Platform::Linux, url).len() == 7,
        browser_commands(Platform::Linux, url).last() == (InvocationView {
            program: "xdg-open"@,
            args: seq![url],
        }),
        forall|i: int|
            0 <= i < 6 ==> (#[trigger] browser_commands(Platform::Linux, url)[i]).args == seq![
                "--app="@ + url,
                "--new-window"@,
            ],
        browser_commands(Platform::Linux, url)[0].program == "google-chrome"@,
        browser_commands(Platform::Linux, url)[1].program == "google-chrome-stable"@,
        browser_commands(Platform::Linux, url)[2].program == "chromium"@,
        browser_commands(Platform::Linux, url)[3].program == "chromium-browser"@,
        browser_commands(Platform::Linux, url)[4].program == "brave-browser"@,
        browser_commands(Platform::Linux, url)[5].program == "microsoft-edge"@,
        browser_commands(Platform::MacOs, url) == seq![
            InvocationView { program: "open"@, args: seq![url] },
        ],
        browser_commands(Platform::Windows, url).len() == 1,
        browser_commands(Platform::Windows, url)[0].program == "cmd"@,
        browser_commands(Platform::Windows, url)[0].args == seq!["/C"@, "start"@, ""@, url],
        opener(Platform::Linux) == "xdg-open"@,
        opener(Platform::MacOs) == "open"@,
        opener(Platform::Windows) == "explorer"@,
{
}

/// What an invocation says is its program and its arguments, in order.
pub proof fn invocation_says_what_it_holds(c: Invocation, i: int)
    ensures
        c@.program == c.program@,
        c@.args.len() == c.args@.len(),
        0 <= i < c.args@.len() ==> c@.args[i] == c.args@[i]@,
{
}

/// Every command hands over what it was given: the path to show or to open, or the address.
/// Where the file manager does not answer on Linux, the directory of the path is opened
/// instead.
pub proof fn commands_hand_over_what_is_given(
    platform: Platform,
    path: &str,
    a: Invocation,
    b: Invocation,
    answered: bool,
    parent: Option<String>,
    c: Option<Invocation>,
    v: Vec<Invocation>,
    e: String,
)
    requires
        call_ensures(reveal_in_file_manager, (platform, path), a),
        call_ensures(open_with_default, (platform, path), b),
        call_ensures(reveal_instead, (platform, answered, &parent), c),
        call_ensures(open_browser, (platform, path), v),
        call_ensures(uri_encode, (path,), e),
    ensures
        a@ == reveal_command(platform, path@),
        b@.program == opener(platform),
        b@.args == seq![path@],
        c is Some <==> platform is Linux && !answered,
        c is Some ==> c->0@.program == "xdg-open"@ && c->0@.args.len() == 1 && (parent is Some
            ==> c->0@.args[0] == parent->0@) && (parent is None ==> c->0@.args[0] == "/"@),
        v@.len() == browser_commands(platform, path@).len(),
        forall|i: int|
            0 <= i < v@.len() ==> (#[trigger] v@[i])@ == browser_commands(platform, path@)[i],
        e@ == encoded(encode_utf8(path@)),
{
    let m = v@.map_values(|i: Invocation| i@);
    assert(m.len() == v@.len());
    assert forall|i: int| 0 <= i < v@.len() implies (#[trigger] v@[i])@ == browser_commands(
        platform,
        path@,
    )[i] by {
        assert(m[i] == v@[i]@);
    }
}

/// An invocation grows by its arguments, one behind the other.
pub proof fn arguments_line_up(program: &str, a: Invocation, b: Invocation, arg: &str, c: Invocation)
    requires
        call_ensures(Invocation::of, (program,), a),
        call_ensures(Invocation::with, (b, arg), c),
    ensures
        a@.program == program@,
        a@.args.len() == 0,
        c@.program == b@.program,
        c@.args == b@.args.push(arg@),
{
}

} // verus!
