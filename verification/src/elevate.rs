//! Starting again with administrator rights: who may be asked to leave, what the new
//! instance is started with, and what is said when it fails. Nothing here touches the
//! network; asking for the rights is up to the system at hand.

use crate::config::{config_dir, dirs_config, inside, path_inside};
use crate::launch::{Invocation, InvocationView, Platform};
use crate::numbers::{decimal, decimal_text};
use crate::split::{pieces, replace, replaced, split, splitting_undoes_joining, trim, trimmed};
use crate::text::{byte_len, bytes_in, chars_of, join, lemma_bytes_add, lemma_bytes_at_least, push_text,
    text_between};
use vstd::prelude::*;
use vstd::utf8::{decode_utf8, decode_utf8_encode_utf8, decode_utf8_split, encode_utf8,
    encode_utf8_decode_utf8, encode_utf8_valid_utf8, is_char_boundary, valid_utf8_split};

verus! {

/// Whether the user with this number has administrator rights.
pub fn is_elevated(euid: u32) -> (r: bool)
    ensures
        r == (euid == 0),
{
    euid == 0
}

/// The process to be asked to leave once the new instance is up: the old one, unless
/// that is the first process of the system. On Windows the old one leaves by itself.
pub fn takeover(platform: Platform, pid: u32) -> (r: Option<i32>)
    ensures
        r == if platform !is Windows && pid > 1 {
            Some(pid as i32)
        } else {
            None::<i32>
        },
{
    match platform {
        Platform::Windows => None,
        _ => if pid > 1 {
            Some(pid as i32)
        } else {
            None
        },
    }
}

/// The command that grants or withdraws access to the display, where there is one.
pub open spec fn xhost_command(spec: Seq<char>) -> InvocationView {
    InvocationView { program: "xhost"@, args: seq![spec] }
}

fn xhost(spec: &str, have_display: bool) -> (r: Option<Invocation>)
    ensures
        match r {
            Some(i) => have_display && i@ == xhost_command(spec@),
            None => !have_display,
        },
{
    if !have_display {
        return None;
    }
    let i = Invocation::of("xhost").with(spec);
    assert(i@.args == seq![spec@]);
    Some(i)
}

/// The command that lets local programs of the administrator use the display.
pub fn grant_root_x_access(have_display: bool) -> (r: Option<Invocation>)
    ensures
        match r {
            Some(i) => have_display && i@ == xhost_command("+si:localuser:root"@),
            None => !have_display,
        },
{
    xhost("+si:localuser:root", have_display)
}

/// The command that withdraws that access again.
pub fn revoke_root_x_access(have_display: bool) -> (r: Option<Invocation>)
    ensures
        match r {
            Some(i) => have_display && i@ == xhost_command("-si:localuser:root"@),
            None => !have_display,
        },
{
    xhost("-si:localuser:root", have_display)
}

/// Where the new instance leaves its complaints.
pub fn log_path(xdg: &Option<String>, home: &Option<String>, sep: char) -> (r: String)
    ensures
        r@ == inside(config_dir(*xdg, *home, sep), "diskhoji-elevate.log"@, sep),
{
    path_inside(dirs_config(xdg, home, sep).as_str(), "diskhoji-elevate.log", sep)
}

/// What the environment says of the desktop session.
pub struct Desktop {
    pub display: Option<String>,
    pub xauthority: Option<String>,
    /// The cookie file in the home directory, where it exists.
    pub home_cookie: Option<String>,
    pub wayland_display: Option<String>,
    pub runtime_dir: Option<String>,
    pub bus_address: Option<String>,
    pub home: Option<String>,
    pub uid: u32,
}

/// `args` with the setting `key` added, where there is a value.
pub open spec fn with_setting(args: Seq<Seq<char>>, key: Seq<char>, value: Option<String>) -> Seq<
    Seq<char>,
> {
    match value {
        Some(v) => args.push(key + v@),
        None => args,
    }
}

/// The X display and its cookie, where there is one; otherwise the Wayland one.
pub open spec fn display_settings(d: Desktop) -> Seq<Seq<char>> {
    let start = seq!["env"@];
    match d.display {
        Some(_) => with_setting(
            with_setting(start, "DISPLAY="@, d.display),
            "XAUTHORITY="@,
            match d.xauthority {
                Some(x) => Some(x),
                None => d.home_cookie,
            },
        ),
        None => with_setting(
            with_setting(start, "WAYLAND_DISPLAY="@, d.wayland_display),
            "XDG_RUNTIME_DIR="@,
            d.runtime_dir,
        ),
    }
}

/// All that the new instance is told of the session it comes from: how to show
/// itself, and whom to hand things to that the administrator cannot open.
pub open spec fn session_settings(d: Desktop) -> Seq<Seq<char>> {
    let a = display_settings(d).push("DISKHOJI_USER_UID="@ + decimal(d.uid as nat));
    let b = with_setting(a, "DISKHOJI_USER_DBUS_SESSION_BUS_ADDRESS="@, d.bus_address);
    let c = with_setting(b, "DISKHOJI_USER_XDG_RUNTIME_DIR="@, d.runtime_dir);
    with_setting(c, "DISKHOJI_USER_HOME="@, d.home)
}

fn add_setting(i: Invocation, key: &str, value: &Option<String>) -> (r: Invocation)
    ensures
        r@ == (InvocationView {
            program: i@.program,
            args: with_setting(i@.args, key@, *value),
        }),
{
    match value {
        Some(v) => i.with(join(key, v.as_str()).as_str()),
        None => i,
    }
}

/// The command that starts the program again through polkit, up to the program
/// itself; behind that follow the [`takeover_args`].
pub fn relaunch_elevated(d: &Desktop) -> (r: Invocation)
    ensures
        r@ == (InvocationView { program: "pkexec"@, args: session_settings(*d) }),
{
    let mut i = Invocation::of("pkexec").with("env");
    assert(i@.args == seq!["env"@]);
    match &d.display {
        Some(_) => {
            i = add_setting(i, "DISPLAY=", &d.display);
            match &d.xauthority {
                Some(_) => {
                    i = add_setting(i, "XAUTHORITY=", &d.xauthority);
                },
                None => {
                    i = add_setting(i, "XAUTHORITY=", &d.home_cookie);
                },
            }
        },
        None => {
            i = add_setting(i, "WAYLAND_DISPLAY=", &d.wayland_display);
            i = add_setting(i, "XDG_RUNTIME_DIR=", &d.runtime_dir);
        },
    }
    assert(i@.args == display_settings(*d));
    i = i.with(join("DISKHOJI_USER_UID=", decimal_text(d.uid as u64).as_str()).as_str());
    i = add_setting(i, "DISKHOJI_USER_DBUS_SESSION_BUS_ADDRESS=", &d.bus_address);
    i = add_setting(i, "DISKHOJI_USER_XDG_RUNTIME_DIR=", &d.runtime_dir);
    add_setting(i, "DISKHOJI_USER_HOME=", &d.home)
}

/// What the new instance is started with: the process that it takes over from.
pub fn takeover_args(pid: u32) -> (r: Vec<String>)
    ensures
        r@.map_values(|a: String| a@) == seq!["--takeover"@, decimal(pid as nat)],
{
    let mut r: Vec<String> = Vec::new();
    r.push("--takeover".to_owned());
    r.push(decimal_text(pid as u64));
    assert(r@.map_values(|a: String| a@) == seq!["--takeover"@, decimal(pid as nat)]);
    r
}

/// The program in single quotes, as a shell reads it.
pub open spec fn shell_quoted(exe: Seq<char>) -> Seq<char> {
    "'"@ + replaced(exe, "'"@, "'\\''"@) + "'"@
}

/// The script that asks for the rights on macOS and starts the program again in the
/// background.
pub open spec fn script_text(exe: Seq<char>, pid: nat) -> Seq<char> {
    "do shell script \""@ + replaced(
        replaced(shell_quoted(exe), "\\"@, "\\\\"@),
        "\""@,
        "\\\""@,
    ) + " --takeover "@ + decimal(pid) + " >/dev/null 2>&1 &\" with administrator privileges"@
}

/// The command that asks for the rights on macOS and starts the program again.
pub fn relaunch_script(exe: &str, pid: u32) -> (r: Invocation)
    ensures
        r@ == (InvocationView {
            program: "osascript"@,
            args: seq!["-e"@, script_text(exe@, pid as nat)],
        }),
{
    proof {
        reveal_strlit("'");
        reveal_strlit("\\");
        reveal_strlit("\"");
    }
    let mut quoted = join("'", replace(exe, "'", "'\\''").as_str());
    push_text(&mut quoted, "'");
    let escaped = replace(
        replace(quoted.as_str(), "\\", "\\\\").as_str(),
        "\"",
        "\\\"",
    );
    let mut script = join("do shell script \"", escaped.as_str());
    push_text(&mut script, " --takeover ");
    push_text(&mut script, decimal_text(pid as u64).as_str());
    push_text(&mut script, " >/dev/null 2>&1 &\" with administrator privileges");
    assert(script@ == script_text(exe@, pid as nat));
    let r = Invocation::of("osascript").with("-e").with(script.as_str());
    assert(r@.args == seq!["-e"@, script_text(exe@, pid as nat)]);
    r
}

/// What Windows said to the request: anything above 32 is consent.
pub fn shell_consent(answer: isize) -> (r: Result<(), String>)
    ensures
        match r {
            Ok(_) => answer > 32,
            Err(e) => answer <= 32 && e@ == "Windows declined the elevation request"@,
        },
{
    if answer > 32 {
        Ok(())
    } else {
        Err("Windows declined the elevation request".to_owned())
    }
}

/// What is said where polkit is missing.
pub fn no_polkit() -> (r: String)
    ensures
        r@ == "pkexec not found \u{2014} install polkit to elevate"@,
{
    "pkexec not found \u{2014} install polkit to elevate".to_owned()
}

/// The first line from `i` on that is not blank, without white space around it.
pub open spec fn first_line(lines: Seq<Seq<char>>, i: int) -> Option<Seq<char>>
    decreases lines.len() - i,
{
    if i >= lines.len() {
        None
    } else if trimmed(lines[i]).len() > 0 {
        Some(trimmed(lines[i]))
    } else {
        first_line(lines, i + 1)
    }
}

/// The first line of a log that says anything.
pub fn log_line(log: &str) -> (r: Option<String>)
    ensures
        match r {
            Some(l) => first_line(pieces(log@, '\n'), 0) == Some(l@),
            None => first_line(pieces(log@, '\n'), 0) is None,
        },
{
    let lines = split(log, '\n');
    let ghost all = pieces(log@, '\n');
    assert(lines@.map_values(|p: String| p@).len() == lines@.len());
    for i in 0..lines.len()
        invariant
            lines@.map_values(|p: String| p@) == all,
            lines@.len() == all.len(),
            all == pieces(log@, '\n'),
            first_line(all, 0) == first_line(all, i as int),
    {
        assert(lines@[i as int]@ == all[i as int]);
        let l = trim(lines[i].as_str());
        if !l.as_str().is_empty() {
            return Some(l);
        }
    }
    None
}

/// How many bytes of a complaint are shown.
pub const SHOWN_BYTES: usize = 160;

/// Whether the limit falls between two characters of a complaint, or past its end.
pub open spec fn cuts_clean(line: Seq<char>) -> bool {
    let bytes = encode_utf8(line);
    bytes.len() <= SHOWN_BYTES || is_char_boundary(bytes, SHOWN_BYTES as int)
}

/// Whether what is shown of a complaint fills the limit to the last byte, or is all
/// of it.
pub fn can_cut(line: &str) -> (r: bool)
    ensures
        r == cuts_clean(line@),
{
    line.as_bytes().len() <= SHOWN_BYTES || line.is_char_boundary(SHOWN_BYTES)
}

/// The part of a complaint that is shown: whole characters from its start, as many as
/// fit.
pub open spec fn shown_part(line: Seq<char>) -> Seq<char>
    decreases line.len(),
{
    if byte_len(line) <= SHOWN_BYTES || line.len() == 0 {
        line
    } else {
        shown_part(line.drop_last())
    }
}

proof fn lemma_longer_takes_more(line: Seq<char>, n: int, m: int)
    requires
        0 <= n <= m <= line.len(),
    ensures
        byte_len(line.take(n)) + (m - n) <= byte_len(line.take(m)),
{
    let rest = line.subrange(n, m);
    assert(line.take(m) == line.take(n) + rest);
    lemma_bytes_add(line.take(n), rest);
    lemma_bytes_at_least(rest);
}

/// What fits, where one character more does not, is what is shown.
proof fn lemma_shown(line: Seq<char>, n: int)
    requires
        0 <= n <= line.len(),
        byte_len(line.take(n)) <= SHOWN_BYTES,
        n < line.len() ==> byte_len(line.take(n + 1)) > SHOWN_BYTES,
    ensures
        shown_part(line) == line.take(n),
    decreases line.len(),
{
    assert(line.take(line.len() as int) == line);
    if n < line.len() {
        lemma_longer_takes_more(line, n + 1, line.len() as int);
        let less = line.drop_last();
        assert(less.take(n) == line.take(n));
        if n < less.len() {
            assert(less.take(n + 1) == line.take(n + 1));
        }
        lemma_shown(less, n);
    }
}

/// What is shown of a complaint is its longest start of whole characters that keeps
/// within the limit. Where the limit falls between two characters, nothing of it goes
/// to waste.
pub proof fn shows_as_much_as_fits(line: Seq<char>)
    ensures
        shown_part(line).len() <= line.len(),
        shown_part(line) == line.take(shown_part(line).len() as int),
        byte_len(shown_part(line)) <= SHOWN_BYTES,
        forall|n: int|
            0 <= n <= line.len() && byte_len(#[trigger] line.take(n)) <= SHOWN_BYTES ==> n
                <= shown_part(line).len(),
        byte_len(line) > SHOWN_BYTES && cuts_clean(line) ==> byte_len(shown_part(line))
            == SHOWN_BYTES,
    decreases line.len(),
{
    let whole = line.take(line.len() as int);
    assert(whole == line);
    if byte_len(line) > SHOWN_BYTES {
        let less = line.drop_last();
        shows_as_much_as_fits(less);
        let k = shown_part(less).len() as int;
        assert(less.take(k) == line.take(k));
        assert forall|n: int|
            0 <= n <= line.len() && byte_len(#[trigger] line.take(n)) <= SHOWN_BYTES implies n
            <= k by {
            if n < line.len() {
                assert(less.take(n) == line.take(n));
            }
        }
        if cuts_clean(line) {
            let bytes = encode_utf8(line);
            let head = bytes.subrange(0, SHOWN_BYTES as int);
            let tail = bytes.subrange(SHOWN_BYTES as int, bytes.len() as int);
            encode_utf8_valid_utf8(line);
            encode_utf8_decode_utf8(line);
            valid_utf8_split(bytes, SHOWN_BYTES as int);
            decode_utf8_split(bytes, SHOWN_BYTES as int);
            decode_utf8_encode_utf8(head);
            let n = decode_utf8(head).len() as int;
            assert(line == decode_utf8(head) + decode_utf8(tail));
            assert(line.take(n) == decode_utf8(head));
            lemma_longer_takes_more(line, n, k);
        }
    }
}

fn cut(line: &str) -> (r: String)
    ensures
        r@ == shown_part(line@),
{
    if bytes_in(line) <= SHOWN_BYTES {
        return line.to_owned();
    }
    let v = chars_of(line);
    let ghost all = line@;
    let mut n: usize = 0;
    let mut r = "".to_owned();
    proof {
        reveal_strlit("");
        assert(all.take(0) == Seq::<char>::empty());
        assert(all.take(all.len() as int) == all);
    }
    loop
        invariant
            v@ == all,
            byte_len(all) > SHOWN_BYTES,
            all.take(all.len() as int) == all,
            n <= all.len(),
            r@ == all.take(n as int),
            byte_len(r@) <= SHOWN_BYTES,
        ensures
            n < all.len(),
            byte_len(all.take(n + 1)) > SHOWN_BYTES,
        decreases all.len() - n,
    {
        assert(n < v.len());
        let longer = text_between(&v, 0, n + 1);
        assert(longer@ == all.take(n + 1));
        if bytes_in(longer.as_str()) > SHOWN_BYTES {
            break;
        }
        r = longer;
        n = n + 1;
    }
    proof {
        lemma_shown(all, n as int);
    }
    r
}

/// What is said of a failed attempt.
pub open spec fn tells_failure(
    r: Seq<char>,
    platform: Platform,
    code: Option<i32>,
    log: Option<Seq<char>>,
) -> bool {
    if platform !is Linux || code == Some(126i32) {
        r == "Authorization was cancelled."@
    } else if code == Some(127i32) {
        r == "Not authorized \u{2014} no polkit agent answered."@
    } else if log is Some && first_line(pieces(log->0, '\n'), 0) is Some {
        r == "The elevated Diskhoji failed to start: "@ + shown_part(
            first_line(pieces(log->0, '\n'), 0)->0,
        )
    } else {
        r
            == "The elevated Diskhoji failed to start \u{2014} try `sudo diskhoji` from a terminal."@
    }
}

/// What is said of a failed attempt, from the exit code and from the log, where there
/// is one: polkit has codes of its own for a dismissed dialog and for nobody to ask.
pub fn describe_failure(platform: Platform, code: Option<i32>, log: &Option<String>) -> (r: String)
    ensures
        tells_failure(
            r@,
            platform,
            code,
            match log {
                Some(l) => Some(l@),
                None => None,
            },
        ),
{
    match platform {
        Platform::Linux => {},
        _ => {
            return "Authorization was cancelled.".to_owned();
        },
    }
    match code {
        Some(c) => {
            if c == 126 {
                return "Authorization was cancelled.".to_owned();
            }
            if c == 127 {
                return "Not authorized \u{2014} no polkit agent answered.".to_owned();
            }
        },
        None => {},
    }
    let line = match log {
        Some(l) => log_line(l.as_str()),
        None => None,
    };
    match line {
        Some(l) => {
            let shown = cut(l.as_str());
            join("The elevated Diskhoji failed to start: ", shown.as_str())
        },
        None =>
            "The elevated Diskhoji failed to start \u{2014} try `sudo diskhoji` from a terminal.".to_owned(),
    }
}

/// A setting as it is handed over, where it has a value.
pub open spec fn setting(key: Seq<char>, value: Option<String>) -> Seq<Seq<char>> {
    if value is Some {
        seq![key + value->0@]
    } else {
        Seq::empty()
    }
}

/// The new instance is told of the session whatever is known of it and nothing else: how
/// to reach the display, X before Wayland, and who the user is.
pub proof fn session_is_handed_over(d: Desktop)
    ensures
        session_settings(d) == seq!["env"@] + (if d.display is Some {
            setting("DISPLAY="@, d.display) + (if d.xauthority is Some {
                setting("XAUTHORITY="@, d.xauthority)
            } else {
                setting("XAUTHORITY="@, d.home_cookie)
            })
        } else {
            setting("WAYLAND_DISPLAY="@, d.wayland_display) + setting(
                "XDG_RUNTIME_DIR="@,
                d.runtime_dir,
            )
        }) + seq!["DISKHOJI_USER_UID="@ + decimal(d.uid as nat)] + setting(
            "DISKHOJI_USER_DBUS_SESSION_BUS_ADDRESS="@,
            d.bus_address,
        ) + setting("DISKHOJI_USER_XDG_RUNTIME_DIR="@, d.runtime_dir) + setting(
            "DISKHOJI_USER_HOME="@,
            d.home,
        ),
        forall|spec: Seq<char>| #[trigger]
            xhost_command(spec) == (InvocationView { program: "xhost"@, args: seq![spec] }),
{
    assert(session_settings(d) =~= seq!["env"@] + (if d.display is Some {
        setting("DISPLAY="@, d.display) + (if d.xauthority is Some {
            setting("XAUTHORITY="@, d.xauthority)
        } else {
            setting("XAUTHORITY="@, d.home_cookie)
        })
    } else {
        setting("WAYLAND_DISPLAY="@, d.wayland_display) + setting(
            "XDG_RUNTIME_DIR="@,
            d.runtime_dir,
        )
    }) + seq!["DISKHOJI_USER_UID="@ + decimal(d.uid as nat)] + setting(
        "DISKHOJI_USER_DBUS_SESSION_BUS_ADDRESS="@,
        d.bus_address,
    ) + setting("DISKHOJI_USER_XDG_RUNTIME_DIR="@, d.runtime_dir) + setting(
        "DISKHOJI_USER_HOME="@,
        d.home,
    ));
}

/// A path as it is typed between the quotes of the script: a single quote leaves the
/// shell's quotes and comes back, and backslashes and double quotes are escaped.
pub open spec fn typed(exe: Seq<char>) -> Seq<char>
    decreases exe.len(),
{
    if exe.len() == 0 {
        exe
    } else {
        typed(exe.drop_last()) + if exe.last() == '\'' {
            seq!['\'', '\\', '\\', '\'', '\'']
        } else if exe.last() == '\\' {
            seq!['\\', '\\']
        } else if exe.last() == '"' {
            seq!['\\', '"']
        } else {
            seq![exe.last()]
        }
    }
}

/// A single character is replaced wherever it stands, one place after the other.
proof fn lemma_replaced_char(a: Seq<char>, b: Seq<char>, pat: Seq<char>, with: Seq<char>)
    requires
        pat.len() == 1,
    ensures
        replaced(a + b, pat, with) == replaced(a, pat, with) + replaced(b, pat, with),
    decreases a.len(),
{
    if a.len() == 0 {
        assert(a + b == b);
        assert(replaced(a, pat, with) + replaced(b, pat, with) == replaced(b, pat, with));
    } else {
        let s = a + b;
        assert(s.skip(1) == a.skip(1) + b);
        assert(s.take(1) == seq![a[0]]);
        assert(a.take(1) == seq![a[0]]);
        lemma_replaced_char(a.skip(1), b, pat, with);
        if crate::split::begins(a, pat) {
            assert(with + (replaced(a.skip(1), pat, with) + replaced(b, pat, with)) == (with
                + replaced(a.skip(1), pat, with)) + replaced(b, pat, with));
        } else {
            assert(seq![a[0]] + (replaced(a.skip(1), pat, with) + replaced(b, pat, with)) == (
            seq![a[0]] + replaced(a.skip(1), pat, with)) + replaced(b, pat, with));
        }
    }
}

proof fn lemma_replaced_one(c: char, pat: Seq<char>, with: Seq<char>)
    requires
        pat.len() == 1,
    ensures
        replaced(seq![c], pat, with) == if c == pat[0] {
            with
        } else {
            seq![c]
        },
{
    let s = seq![c];
    assert(s.take(1) == s);
    assert(s.skip(1) == Seq::<char>::empty());
    reveal_with_fuel(replaced, 2);
    if c == pat[0] {
        assert(s == pat);
        assert(with + Seq::<char>::empty() == with);
    } else {
        assert(s[0] != pat[0]);
        assert(seq![c] + Seq::<char>::empty() == seq![c]);
    }
}

/// Three replacements of single characters, one after the other, on a text one character
/// longer.
proof fn lemma_escaped(exe: Seq<char>)
    ensures
        replaced(
            replaced(replaced(exe, "'"@, "'\\''"@), "\\"@, "\\\\"@),
            "\""@,
            "\\\""@,
        ) == typed(exe),
    decreases exe.len(),
{
    reveal_strlit("'");
    reveal_strlit("'\\''");
    reveal_strlit("\\");
    reveal_strlit("\\\\");
    reveal_strlit("\"");
    reveal_strlit("\\\"");
    let q = "'"@;
    let qw = "'\\''"@;
    let s = "\\"@;
    let sw = "\\\\"@;
    let d = "\""@;
    let dw = "\\\""@;
    if exe.len() > 0 {
        let rest = exe.drop_last();
        let c = exe.last();
        lemma_escaped(rest);
        assert(exe == rest + seq![c]);
        lemma_replaced_char(rest, seq![c], q, qw);
        lemma_replaced_one(c, q, qw);
        let one = replaced(seq![c], q, qw);
        lemma_replaced_char(replaced(rest, q, qw), one, s, sw);
        let two = replaced(one, s, sw);
        lemma_replaced_char(replaced(replaced(rest, q, qw), s, sw), two, d, dw);
        if c == '\'' {
            assert(one == seq!['\''] + (seq!['\\'] + (seq!['\''] + seq!['\''])));
            lemma_replaced_char(seq!['\''], seq!['\\'] + (seq!['\''] + seq!['\'']), s, sw);
            lemma_replaced_char(seq!['\\'], seq!['\''] + seq!['\''], s, sw);
            lemma_replaced_char(seq!['\''], seq!['\''], s, sw);
            lemma_replaced_one('\'', s, sw);
            lemma_replaced_one('\\', s, sw);
            assert(two == seq!['\''] + (sw + (seq!['\''] + seq!['\''])));
            assert(sw == seq!['\\'] + seq!['\\']);
            lemma_replaced_char(seq!['\''], sw + (seq!['\''] + seq!['\'']), d, dw);
            lemma_replaced_char(sw, seq!['\''] + seq!['\''], d, dw);
            lemma_replaced_char(seq!['\\'], seq!['\\'], d, dw);
            lemma_replaced_char(seq!['\''], seq!['\''], d, dw);
            lemma_replaced_one('\'', d, dw);
            lemma_replaced_one('\\', d, dw);
            assert(replaced(two, d, dw) =~= seq!['\'', '\\', '\\', '\'', '\'']);
        } else {
            lemma_replaced_one(c, s, sw);
            if c == '\\' {
                assert(sw == seq!['\\'] + seq!['\\']);
                lemma_replaced_char(seq!['\\'], seq!['\\'], d, dw);
                lemma_replaced_one('\\', d, dw);
                assert(replaced(two, d, dw) =~= seq!['\\', '\\']);
            } else {
                lemma_replaced_one(c, d, dw);
                if c == '"' {
                    assert(dw =~= seq!['\\', '"']);
                }
            }
        }
    } else {
        assert(exe == Seq::<char>::empty());
        reveal_with_fuel(replaced, 2);
    }
}

/// The script starts the very program it is given, whatever characters its path holds: the
/// path stands in the script as it has to be typed.
pub proof fn script_starts_the_program(exe: Seq<char>, pid: nat)
    ensures
        script_text(exe, pid) == "do shell script \"'"@ + typed(exe) + "' --takeover "@ + decimal(
            pid,
        ) + " >/dev/null 2>&1 &\" with administrator privileges"@,
{
    reveal_strlit("'");
    reveal_strlit("'\\''");
    reveal_strlit("\\");
    reveal_strlit("\\\\");
    reveal_strlit("\"");
    reveal_strlit("\\\"");
    reveal_strlit("do shell script \"'");
    reveal_strlit("do shell script \"");
    reveal_strlit("' --takeover ");
    reveal_strlit(" --takeover ");
    let r = replaced(exe, "'"@, "'\\''"@);
    assert("'"@ =~= seq!['\'']);
    assert(shell_quoted(exe) == "'"@ + r + "'"@);
    lemma_replaced_char("'"@ + r, "'"@, "\\"@, "\\\\"@);
    lemma_replaced_char("'"@, r, "\\"@, "\\\\"@);
    lemma_replaced_one('\'', "\\"@, "\\\\"@);
    let t = replaced(r, "\\"@, "\\\\"@);
    lemma_replaced_char("'"@ + t, "'"@, "\""@, "\\\""@);
    lemma_replaced_char("'"@, t, "\""@, "\\\""@);
    lemma_replaced_one('\'', "\""@, "\\\""@);
    lemma_escaped(exe);
    assert(script_text(exe, pid) =~= "do shell script \"'"@ + typed(exe) + "' --takeover "@
        + decimal(pid) + " >/dev/null 2>&1 &\" with administrator privileges"@);
}

proof fn lemma_first_line_moves(line: Seq<char>, rest: Seq<Seq<char>>, i: int)
    requires
        0 <= i <= rest.len(),
    ensures
        first_line(seq![line] + rest, i + 1) == first_line(rest, i),
    decreases rest.len() - i,
{
    if i < rest.len() {
        assert((seq![line] + rest)[i + 1] == rest[i]);
        lemma_first_line_moves(line, rest, i + 1);
    }
}

/// A complaint is the first line of the log that says anything, without white space around
/// it; blank lines before it are passed over.
pub proof fn complaint_is_the_first_line(line: Seq<char>, rest: Seq<char>)
    requires
        forall|i: int| 0 <= i < line.len() ==> #[trigger] line[i] != '\n',
    ensures
        trimmed(line).len() > 0 ==> first_line(pieces(line, '\n'), 0) == Some(trimmed(line))
            && first_line(pieces(line + seq!['\n'] + rest, '\n'), 0) == Some(trimmed(line)),
        trimmed(line).len() == 0 ==> first_line(pieces(line, '\n'), 0) is None && first_line(
            pieces(line + seq!['\n'] + rest, '\n'),
            0,
        ) == first_line(pieces(rest, '\n'), 0),
{
    splitting_undoes_joining(line, '\n', rest);
    assert(seq![line][0] == line);
    assert((seq![line] + pieces(rest, '\n'))[0] == line);
    lemma_first_line_moves(line, pieces(rest, '\n'), 0);
    reveal_with_fuel(first_line, 2);
}

/// What is said of a failed attempt: outside Linux, and where the dialog was dismissed,
/// that it was cancelled; where nobody was there to ask, that; otherwise what the log says
/// in its first 160 bytes, whole characters only, and where it says nothing, what to do.
pub proof fn failure_is_told_as_it_was(
    r: Seq<char>,
    platform: Platform,
    code: Option<i32>,
    log: Option<Seq<char>>,
)
    requires
        tells_failure(r, platform, code, log),
    ensures
        !(platform is Linux) ==> r == "Authorization was cancelled."@,
        platform is Linux && code == Some(126i32) ==> r == "Authorization was cancelled."@,
        platform is Linux && code == Some(127i32) ==> r
            == "Not authorized \u{2014} no polkit agent answered."@,
        platform is Linux && code != Some(126i32) && code != Some(127i32) && (log is None
            || first_line(pieces(log->0, '\n'), 0) is None) ==> r
            == "The elevated Diskhoji failed to start \u{2014} try `sudo diskhoji` from a terminal."@,
        platform is Linux && code != Some(126i32) && code != Some(127i32) && log is Some
            && first_line(pieces(log->0, '\n'), 0) is Some ==> exists|n: int|
            0 <= n <= (first_line(pieces(log->0, '\n'), 0)->0).len() && r
                == "The elevated Diskhoji failed to start: "@ + #[trigger] (first_line(
                pieces(log->0, '\n'),
                0,
            )->0).take(n) && encode_utf8((first_line(pieces(log->0, '\n'), 0)->0).take(n)).len()
                <= 160 && (n < (first_line(pieces(log->0, '\n'), 0)->0).len() ==> encode_utf8(
                (first_line(pieces(log->0, '\n'), 0)->0).take(n + 1),
            ).len() > 160),
{
    if platform is Linux && code != Some(126i32) && code != Some(127i32) && log is Some
        && first_line(pieces(log->0, '\n'), 0) is Some {
        let line = first_line(pieces(log->0, '\n'), 0)->0;
        shows_as_much_as_fits(line);
        let n = shown_part(line).len() as int;
        assert(shown_part(line) == line.take(n));
        if n < line.len() {
            assert(byte_len(line.take(n + 1)) > 160);
        }
    }
}

/// A complaint can be cut where it takes no more than 160 bytes, or where a character ends
/// with the last of them.
pub proof fn complaint_is_cut_between_characters(line: Seq<char>)
    ensures
        cuts_clean(line) <==> encode_utf8(line).len() <= 160 || is_char_boundary(
            encode_utf8(line),
            160,
        ),
{
}

/// The administrator is user zero. The old instance is asked to leave by its number, unless
/// that is the first process of all, and on Windows it leaves by itself; consent is any
/// answer above 32.
pub proof fn old_instance_is_asked_to_leave(
    euid: u32,
    root: bool,
    platform: Platform,
    pid: u32,
    r: Option<i32>,
    answer: isize,
    consent: Result<(), String>,
)
    requires
        call_ensures(is_elevated, (euid,), root),
        call_ensures(takeover, (platform, pid), r),
        call_ensures(shell_consent, (answer,), consent),
    ensures
        root <==> euid == 0,
        platform is Windows ==> r is None,
        pid <= 1 ==> r is None,
        !(platform is Windows) && pid > 1 ==> r == Some(pid as i32),
        consent is Ok <==> answer > 32,
        consent is Err ==> consent->Err_0@ == "Windows declined the elevation request"@,
{
}

/// Access to the display is granted and withdrawn for the same user, and only where there is
/// a display.
pub proof fn access_is_granted_and_withdrawn(
    have_display: bool,
    a: Option<Invocation>,
    b: Option<Invocation>,
)
    requires
        call_ensures(grant_root_x_access, (have_display,), a),
        call_ensures(revoke_root_x_access, (have_display,), b),
    ensures
        a is Some <==> have_display,
        b is Some <==> have_display,
        a is Some ==> a->0@.program == "xhost"@ && a->0@.args == seq!["+si:localuser:root"@],
        b is Some ==> b->0@.program == "xhost"@ && b->0@.args == seq!["-si:localuser:root"@],
{
}

/// How the new instance is started: through polkit, with all that is known of the session,
/// or by a script; either way it is told which process it takes over from. What goes wrong
/// is left in the settings directory and told as it was.
pub proof fn new_instance_is_started(
    d: Desktop,
    a: Invocation,
    pid: u32,
    args: Vec<String>,
    exe: &str,
    b: Invocation,
    xdg: Option<String>,
    home: Option<String>,
    sep: char,
    log: String,
    platform: Platform,
    code: Option<i32>,
    text: Option<String>,
    told: String,
)
    requires
        call_ensures(relaunch_elevated, (&d,), a),
        call_ensures(takeover_args, (pid,), args),
        call_ensures(relaunch_script, (exe, pid), b),
        call_ensures(log_path, (&xdg, &home, sep), log),
        call_ensures(describe_failure, (platform, code, &text), told),
    ensures
        a@.program == "pkexec"@,
        a@.args == session_settings(d),
        args@.len() == 2,
        args@[0]@ == "--takeover"@,
        args@[1]@ == decimal(pid as nat),
        b@.program == "osascript"@,
        b@.args == seq!["-e"@, script_text(exe@, pid as nat)],
        log@ == inside(config_dir(xdg, home, sep), "diskhoji-elevate.log"@, sep),
        tells_failure(
            told@,
            platform,
            code,
            match text {
                Some(l) => Some(l@),
                None => None,
            },
        ),
{
    let m = args@.map_values(|s: String| s@);
    assert(m == seq!["--takeover"@, decimal(pid as nat)]);
    assert(m.len() == args@.len());
    assert(m[0] == args@[0]@ && m[1] == args@[1]@);
}

/// What is missing is named, and a log is read for its first line; whether a complaint can
/// be cut is answered as it is.
pub proof fn complaints_are_read(
    missing: String,
    log: &str,
    line: Option<String>,
    text: &str,
    clean: bool,
)
    requires
        call_ensures(no_polkit, (), missing),
        call_ensures(log_line, (log,), line),
        call_ensures(can_cut, (text,), clean),
    ensures
        missing@ == "pkexec not found \u{2014} install polkit to elevate"@,
        line is Some ==> first_line(pieces(log@, '\n'), 0) == Some(line->0@),
        line is None ==> first_line(pieces(log@, '\n'), 0) is None,
        clean <==> cuts_clean(text@),
{
}

} // verus!
