//! Where settings live, and what they say.

use crate::split::{trim, trimmed, trimming_bares_the_text};
use crate::text::{chars_of, push_text, same_text, white_space};
use vstd::prelude::*;

verus! {

/// Light or dark.
#[derive(Clone, Copy, PartialEq, Eq, Structural)]
pub enum ThemeKind {
    Dark,
    Light,
}

/// `name` inside the directory `base`.
pub open spec fn inside(base: Seq<char>, name: Seq<char>, sep: char) -> Seq<char> {
    if base.len() == 0 || base.last() == sep {
        base + name
    } else {
        base + seq![sep] + name
    }
}

/// `name` inside the directory `base`.
pub fn path_inside(base: &str, name: &str, sep: char) -> (r: String)
    ensures
        r@ == inside(base@, name@, sep),
{
    let v = chars_of(base);
    let mut r = base.to_owned();
    if v.len() > 0 && v[v.len() - 1] != sep {
        r.push(sep);
        assert(r@ == base@ + seq![sep]);
    }
    push_text(&mut r, name);
    r
}

/// Where settings live: where the environment says or, where it does not, in the
/// home directory, which is the current one where there is none.
pub open spec fn config_dir(xdg: Option<String>, home: Option<String>, sep: char) -> Seq<char> {
    match xdg {
        Some(x) => x@,
        None => inside(
            match home {
                Some(h) => h@,
                None => "."@,
            },
            ".config"@,
            sep,
        ),
    }
}

/// Where settings live, from `XDG_CONFIG_HOME` and `HOME`.
pub fn dirs_config(xdg: &Option<String>, home: &Option<String>, sep: char) -> (r: String)
    ensures
        r@ == config_dir(*xdg, *home, sep),
{
    match xdg {
        Some(x) => x.clone(),
        None => match home {
            Some(h) => path_inside(h.as_str(), ".config", sep),
            None => path_inside(".", ".config", sep),
        },
    }
}

/// The file that remembers the theme.
pub fn prefs_path(xdg: &Option<String>, home: &Option<String>, sep: char) -> (r: String)
    ensures
        r@ == inside(config_dir(*xdg, *home, sep), "diskhoji-prefs"@, sep),
{
    path_inside(dirs_config(xdg, home, sep).as_str(), "diskhoji-prefs", sep)
}

/// The theme that the settings ask for: light where they say so, dark otherwise.
pub open spec fn theme_asked(prefs: Option<String>) -> ThemeKind {
    match prefs {
        Some(p) => if trimmed(p@) == "light"@ {
            ThemeKind::Light
        } else {
            ThemeKind::Dark
        },
        None => ThemeKind::Dark,
    }
}

/// The theme that the settings ask for.
pub fn theme_from(prefs: &Option<String>) -> (r: ThemeKind)
    ensures
        r == theme_asked(*prefs),
{
    match prefs {
        Some(p) => if same_text(trim(p.as_str()).as_str(), "light") {
            ThemeKind::Light
        } else {
            ThemeKind::Dark
        },
        None => ThemeKind::Dark,
    }
}

/// The other theme.
pub fn flipped(kind: ThemeKind) -> (r: ThemeKind)
    ensures
        r != kind,
{
    match kind {
        ThemeKind::Dark => ThemeKind::Light,
        ThemeKind::Light => ThemeKind::Dark,
    }
}

/// How the settings ask for a theme.
pub open spec fn prefs_for(kind: ThemeKind) -> Seq<char> {
    match kind {
        ThemeKind::Dark => "dark"@,
        ThemeKind::Light => "light"@,
    }
}

/// How the settings ask for a theme.
pub fn prefs_text(kind: ThemeKind) -> (r: &'static str)
    ensures
        r@ == prefs_for(kind),
{
    match kind {
        ThemeKind::Dark => "dark",
        ThemeKind::Light => "light",
    }
}

/// The theme that was remembered is the one that comes back.
pub proof fn theme_is_remembered(kind: ThemeKind, stored: String)
    requires
        stored@ == prefs_for(kind),
    ensures
        theme_asked(Some(stored)) == kind,
{
    reveal_strlit("dark");
    reveal_strlit("light");
    assert(trimmed(stored@) == stored@);
    assert("dark"@[0] != "light"@[0]);
}

/// A name goes into a directory behind one separator, which is not doubled where the
/// directory ends in one already.
pub proof fn one_separator_between(base: Seq<char>, name: Seq<char>, sep: char)
    ensures
        inside(Seq::empty(), name, sep) == name,
        inside(base + seq![sep], name, sep) == base + seq![sep] + name,
        base.len() > 0 && base.last() != sep ==> inside(base, name, sep) == base + seq![sep] + name,
{
    assert((base + seq![sep]).last() == sep);
    assert(Seq::<char>::empty() + name == name);
}

/// Settings live where the environment says, whatever the home directory is; otherwise
/// under the home directory; without one, under the current directory.
pub proof fn settings_live_somewhere(xdg: Option<String>, home: Option<String>, sep: char)
    ensures
        xdg is Some ==> config_dir(xdg, home, sep) == xdg->0@,
        xdg is None && home is Some ==> config_dir(xdg, home, sep) == inside(
            home->0@,
            ".config"@,
            sep,
        ),
        xdg is None && home is None ==> config_dir(xdg, home, sep) == inside(
            "."@,
            ".config"@,
            sep,
        ),
{
}

/// The light theme is asked for by its name alone, with or without white space around it;
/// anything else asks for the dark one, and so does nothing.
pub proof fn theme_goes_by_its_name(a: Seq<char>, b: Seq<char>, stored: String)
    requires
        forall|i: int| 0 <= i < a.len() ==> white_space(#[trigger] a[i]),
        forall|i: int| 0 <= i < b.len() ==> white_space(#[trigger] b[i]),
    ensures
        theme_asked(None) == ThemeKind::Dark,
        stored@ == a + "light"@ + b ==> theme_asked(Some(stored)) == ThemeKind::Light,
        trimmed(stored@) != "light"@ ==> theme_asked(Some(stored)) == ThemeKind::Dark,
        prefs_for(ThemeKind::Light) == "light"@,
        prefs_for(ThemeKind::Dark) == "dark"@,
{
    reveal_strlit("light");
    trimming_bares_the_text(a, "light"@, b);
}

/// The theme is remembered in a file of its own in the settings directory, read back as what
/// it asks for, and flipping it twice leaves it as it was.
pub proof fn theme_is_kept_in_a_file(
    xdg: Option<String>,
    home: Option<String>,
    sep: char,
    file: String,
    dir: String,
    prefs: Option<String>,
    asked: ThemeKind,
    kind: ThemeKind,
    other: ThemeKind,
    again: ThemeKind,
    text: &'static str,
    base: &str,
    name: &str,
    path: String,
)
    requires
        call_ensures(prefs_path, (&xdg, &home, sep), file),
        call_ensures(dirs_config, (&xdg, &home, sep), dir),
        call_ensures(theme_from, (&prefs,), asked),
        call_ensures(flipped, (kind,), other),
        call_ensures(flipped, (other,), again),
        call_ensures(prefs_text, (kind,), text),
        call_ensures(path_inside, (base, name, sep), path),
    ensures
        file@ == inside(config_dir(xdg, home, sep), "diskhoji-prefs"@, sep),
        dir@ == config_dir(xdg, home, sep),
        asked == theme_asked(prefs),
        other != kind,
        again == kind,
        text@ == prefs_for(kind),
        path@ == inside(base@, name@, sep),
{
}

} // verus!
