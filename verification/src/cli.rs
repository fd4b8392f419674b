//! The command line.

use crate::numbers::{parse_up_to, parsed};
use crate::text::same_text;
use vstd::prelude::*;

verus! {

/// The port that is tried first.
pub const DEFAULT_PORT: u16 = 5717;

/// What the command line asks for.
pub struct Options {
    pub port: u16,
    pub no_open: bool,
    pub web: bool,
    pub help: bool,
    pub path: Option<String>,
}

/// What the options say.
pub struct OptionsView {
    pub port: u16,
    pub no_open: bool,
    pub web: bool,
    pub help: bool,
    pub path: Option<Seq<char>>,
}

impl View for Options {
    type V = OptionsView;

    open spec fn view(&self) -> OptionsView {
        OptionsView {
            port: self.port,
            no_open: self.no_open,
            web: self.web,
            help: self.help,
            path: match self.path {
                Some(p) => Some(p@),
                None => None,
            },
        }
    }
}

/// What the arguments from `i` on make of `o`. A port that is no port number is
/// passed over, a call for help ends the reading, and of several paths the last one
/// counts.
pub open spec fn read_from(args: Seq<Seq<char>>, i: int, o: OptionsView) -> OptionsView
    decreases args.len() + 1 - i,
{
    if i >= args.len() {
        o
    } else if args[i] == "--port"@ {
        let next = if i + 1 < args.len() {
            match parsed(args[i + 1], u16::MAX as nat) {
                Some(p) => OptionsView { port: p as u16, ..o },
                None => o,
            }
        } else {
            o
        };
        read_from(args, i + 2, next)
    } else if args[i] == "--no-open"@ {
        read_from(args, i + 1, OptionsView { no_open: true, ..o })
    } else if args[i] == "--web"@ {
        read_from(args, i + 1, OptionsView { web: true, ..o })
    } else if args[i] == "--help"@ || args[i] == "-h"@ {
        OptionsView { help: true, ..o }
    } else {
        read_from(args, i + 1, OptionsView { path: Some(args[i]), ..o })
    }
}

/// What is done where nothing is asked for: the native window, and no scan yet.
pub open spec fn plain_options() -> OptionsView {
    OptionsView { port: DEFAULT_PORT, no_open: false, web: false, help: false, path: None }
}

/// What the arguments behind the program's name ask for.
pub fn parse_args(args: &Vec<String>) -> (o: Options)
    ensures
        o@ == read_from(args@.map_values(|a: String| a@), 0, plain_options()),
{
    let ghost all = args@.map_values(|a: String| a@);
    let n = args.len();
    let mut o = Options {
        port: DEFAULT_PORT,
        no_open: false,
        web: false,
        help: false,
        path: None,
    };
    let mut i: usize = 0;
    while i < n
        invariant
            n == args@.len() == all.len(),
            all == args@.map_values(|a: String| a@),
            i <= n,
            read_from(all, 0, plain_options()) == read_from(all, i as int, o@),
        decreases n - i,
    {
        let a = args[i].as_str();
        assert(a@ == all[i as int]);
        if same_text(a, "--port") {
            if i + 1 < n {
                assert(args@[i + 1]@ == all[i + 1]);
                match parse_up_to(args[i + 1].as_str(), u16::MAX as u64) {
                    Some(p) => {
                        o.port = p as u16;
                    },
                    None => {},
                }
                i = i + 2;
            } else {
                assert(read_from(all, i + 2, o@) == o@);
                i = i + 1;
            }
        } else if same_text(a, "--no-open") {
            o.no_open = true;
            i = i + 1;
        } else if same_text(a, "--web") {
            o.web = true;
            i = i + 1;
        } else if same_text(a, "--help") || same_text(a, "-h") {
            o.help = true;
            return o;
        } else {
            o.path = Some(args[i].clone());
            i = i + 1;
        }
    }
    o
}

/// What is read from a place on is what is read of the rest from its start.
proof fn lemma_read_moves(first: Seq<Seq<char>>, rest: Seq<Seq<char>>, i: int, o: OptionsView)
    requires
        0 <= i,
    ensures
        read_from(first + rest, first.len() + i, o) == read_from(rest, i, o),
    decreases rest.len() + 1 - i,
{
    let all = first + rest;
    let k = first.len() + i;
    if i < rest.len() {
        assert(all[k] == rest[i]);
        if i + 1 < rest.len() {
            assert(all[k + 1] == rest[i + 1]);
        }
        if rest[i] == "--port"@ {
            let next = if i + 1 < rest.len() {
                match parsed(rest[i + 1], u16::MAX as nat) {
                    Some(p) => OptionsView { port: p as u16, ..o },
                    None => o,
                }
            } else {
                o
            };
            if i + 2 <= rest.len() {
                lemma_read_moves(first, rest, i + 2, next);
            } else {
                assert(read_from(all, k + 2, next) == next);
                assert(read_from(rest, i + 2, next) == next);
            }
        } else {
            lemma_read_moves(first, rest, i + 1, OptionsView { no_open: true, ..o });
            lemma_read_moves(first, rest, i + 1, OptionsView { web: true, ..o });
            lemma_read_moves(first, rest, i + 1, OptionsView { path: Some(rest[i]), ..o });
        }
    }
}

/// Arguments are read one after the other, each as if it were the first: `--port` takes the
/// next one for its number and lets go of it where it is none, `--no-open` and `--web` stand
/// for themselves, `--help` ends the reading, and all else is a path, the last of which
/// counts. Without any, the port is 5717 and nothing is asked for.
pub proof fn arguments_are_read_in_turn(a: Seq<char>, rest: Seq<Seq<char>>, o: OptionsView)
    ensures
        read_from(Seq::empty(), 0, o) == o,
        read_from(seq!["--port"@], 0, o) == o,
        parsed(a, 0xFFFF) is Some ==> read_from(seq!["--port"@, a] + rest, 0, o) == read_from(
            rest,
            0,
            OptionsView { port: parsed(a, 0xFFFF)->0 as u16, ..o },
        ),
        parsed(a, 0xFFFF) is None ==> read_from(seq!["--port"@, a] + rest, 0, o) == read_from(
            rest,
            0,
            o,
        ),
        read_from(seq!["--no-open"@] + rest, 0, o) == read_from(
            rest,
            0,
            OptionsView { no_open: true, ..o },
        ),
        read_from(seq!["--web"@] + rest, 0, o) == read_from(rest, 0, OptionsView { web: true, ..o }),
        read_from(seq!["--help"@] + rest, 0, o) == (OptionsView { help: true, ..o }),
        read_from(seq!["-h"@] + rest, 0, o) == (OptionsView { help: true, ..o }),
        a != "--port"@ && a != "--no-open"@ && a != "--web"@ && a != "--help"@ && a != "-h"@
            ==> read_from(seq![a] + rest, 0, o) == read_from(
            rest,
            0,
            OptionsView { path: Some(a), ..o },
        ),
        plain_options() == (OptionsView {
            port: 5717,
            no_open: false,
            web: false,
            help: false,
            path: None,
        }),
{
    reveal_strlit("--port");
    reveal_strlit("--no-open");
    reveal_strlit("--web");
    reveal_strlit("--help");
    reveal_strlit("-h");
    assert("--port"@[2] == 'p' && "--no-open"@[2] == 'n' && "--web"@[2] == 'w' && "--help"@[2]
        == 'h' && "-h"@.len() == 2);
    let port = seq!["--port"@, a];
    let next = match parsed(a, 0xFFFF) {
        Some(p) => OptionsView { port: p as u16, ..o },
        None => o,
    };
    lemma_read_moves(port, rest, 0, next);
    assert((port + rest)[0] == "--port"@ && (port + rest)[1] == a);
    lemma_read_moves(seq!["--no-open"@], rest, 0, OptionsView { no_open: true, ..o });
    assert((seq!["--no-open"@] + rest)[0] == "--no-open"@);
    lemma_read_moves(seq!["--web"@], rest, 0, OptionsView { web: true, ..o });
    assert((seq!["--web"@] + rest)[0] == "--web"@);
    assert((seq!["--help"@] + rest)[0] == "--help"@);
    assert((seq!["-h"@] + rest)[0] == "-h"@);
    lemma_read_moves(seq![a], rest, 0, OptionsView { path: Some(a), ..o });
    assert((seq![a] + rest)[0] == a);
    assert(seq!["--port"@][0] == "--port"@);
    reveal_with_fuel(read_from, 2);
}

/// What the options say is all that they hold.
pub proof fn options_say_what_they_hold(o: Options)
    ensures
        o@.port == o.port && o@.no_open == o.no_open && o@.web == o.web && o@.help == o.help,
        o.path is None ==> o@.path is None,
        o.path is Some ==> o@.path == Some(o.path->0@),
{
}

/// The command line asks for what its arguments read as.
pub proof fn command_line_is_read(args: Vec<String>, o: Options, all: Seq<Seq<char>>)
    requires
        call_ensures(parse_args, (&args,), o),
        all.len() == args@.len(),
        forall|i: int| 0 <= i < all.len() ==> #[trigger] all[i] == args@[i]@,
    ensures
        o@ == read_from(all, 0, plain_options()),
{
    assert(args@.map_values(|a: String| a@) =~= all);
}

} // verus!
