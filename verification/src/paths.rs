//! Paths, as text: putting them together, and showing them.

use vstd::prelude::*;
use vstd::string::*;
use crate::text::{self, CharClass};

verus! {

/// Whether a path starts at the root.
pub open spec fn is_absolute_spec(path: Seq<char>) -> bool {
    path.len() > 0 && path[0] == '/'
}

/// A path behind a directory. An absolute one stands alone.
pub open spec fn join_spec(dir: Seq<char>, path: Seq<char>) -> Seq<char> {
    if is_absolute_spec(path) || dir.len() == 0 {
        path
    } else if dir.last() == '/' {
        dir + path
    } else {
        dir.push('/') + path
    }
}

/// A path without what names no directory of its own at its start: slashes, and
/// dots that stand alone.
pub open spec fn entered_spec(path: Seq<char>) -> Seq<char>
    decreases path.len(),
{
    let slash = path.len() > 0 && path[0] == '/';
    let dot = path.len() > 0 && path[0] == '.' && (path.len() == 1 || path[1] == '/');
    if slash || dot {
        entered_spec(path.skip(1))
    } else {
        path
    }
}

/// A path without what names no file of its own at its end.
pub open spec fn closed_spec(path: Seq<char>) -> Seq<char>
    decreases path.len(),
{
    let n = path.len() as int;
    let slash = n > 0 && path[n - 1] == '/';
    let dot = n > 0 && path[n - 1] == '.' && (n == 1 || path[n - 2] == '/');
    if slash || dot {
        closed_spec(path.drop_last())
    } else {
        path
    }
}

/// What is left of a path below a directory, both taken from the root: `None`
/// where it is not below it.
pub open spec fn below_spec(path: Seq<char>, dir: Seq<char>) -> Option<Seq<char>>
    decreases dir.len(),
{
    let d = entered_spec(dir);
    let p = entered_spec(path);
    let n = text::run_spec(d, CharClass::Is('/'), false);
    let m = text::run_spec(p, CharClass::Is('/'), false);
    if d.len() == 0 {
        Some(closed_spec(p))
    } else if p.take(m) == d.take(n) {
        proof {
            lemma_entered(dir);
            text::lemma_run(d, CharClass::Is('/'), false);
        }
        below_spec(p.skip(m), d.skip(n))
    } else {
        None
    }
}

/// Entering a path leaves what does not start with a slash.
pub proof fn lemma_entered(path: Seq<char>)
    ensures
        entered_spec(path).len() <= path.len(),
        entered_spec(path).len() > 0 ==> entered_spec(path)[0] != '/',
    decreases path.len(),
{
    let slash = path.len() > 0 && path[0] == '/';
    let dot = path.len() > 0 && path[0] == '.' && (path.len() == 1 || path[1] == '/');
    if slash || dot {
        lemma_entered(path.skip(1));
    }
}

/// A path as it is worth showing.
pub open spec fn display_spec(path: Seq<char>, cwd: Option<Seq<char>>) -> Seq<char> {
    match cwd {
        Some(dir) if is_absolute_spec(path) && is_absolute_spec(dir) => match below_spec(
            path,
            dir,
        ) {
            Some(rest) => rest,
            None => path,
        },
        _ => path,
    }
}

/// A configured path: `~/` against the home directory, a relative path against
/// a base.
pub open spec fn resolve_spec(
    value: Seq<char>,
    home: Option<Seq<char>>,
    base: Option<Seq<char>>,
) -> Seq<char> {
    let tilde = value.len() > 0 && value[0] == '~' && (value.len() == 1 || value[1] == '/');
    match (home, base) {
        (Some(home), _) if tilde => join_spec(home, closed_spec(entered_spec(value.skip(1)))),
        (_, Some(dir)) => join_spec(dir, value),
        _ => value,
    }
}

/// Where state is kept: in the directory set for it, or else below the home
/// directory, or else below the current one.
pub open spec fn state_dir_spec(xdg: Option<Seq<char>>, home: Option<Seq<char>>) -> Seq<char> {
    let base = match (xdg, home) {
        (Some(x), _) => x,
        (None, Some(h)) => join_spec(h, ".local/state"@),
        (None, None) => "./.local/state"@,
    };
    join_spec(base, "hledger-x"@)
}

/// The user's configuration file: in the directory set for such files, or else
/// below the home directory, if there is one.
pub open spec fn user_config_spec(xdg: Option<Seq<char>>, home: Option<Seq<char>>) -> Option<
    Seq<char>,
> {
    match (xdg, home) {
        (Some(x), _) => Some(join_spec(x, "hledger-x/config.toml"@)),
        (None, Some(h)) => Some(join_spec(join_spec(h, ".config"@), "hledger-x/config.toml"@)),
        (None, None) => None,
    }
}

/// A path behind a directory. An absolute one stands alone.
#[must_use]
pub fn join(dir: &str, path: &str) -> (r: String)
    ensures
        r@ == join_spec(dir@, path@),
{
    if text::starts_in(path, CharClass::Is('/')) || dir.is_empty() {
        return path.to_owned();
    }
    let n: usize = dir.unicode_len();
    if dir.get_char(n - 1) == '/' {
        text::cat(dir, path)
    } else {
        proof {
            reveal_strlit("/");
        }
        let r = text::cat3(dir, "/", path);
        assert(r@ =~= dir@.push('/') + path@);
        r
    }
}

fn entered(path: &str) -> (r: &str)
    ensures
        r@ == entered_spec(path@),
    decreases path@.len(),
{
    let n: usize = path.unicode_len();
    let slash = n > 0 && path.get_char(0) == '/';
    let dot = n > 0 && path.get_char(0) == '.' && (n == 1 || path.get_char(1) == '/');
    if slash || dot {
        entered(text::suffix(path, 1))
    } else {
        path
    }
}

fn closed(path: &str) -> (r: &str)
    ensures
        r@ == closed_spec(path@),
    decreases path@.len(),
{
    let n: usize = path.unicode_len();
    let slash = n > 0 && path.get_char(n - 1) == '/';
    let dot = n > 0 && path.get_char(n - 1) == '.' && (n == 1 || path.get_char(n - 2) == '/');
    if slash || dot {
        let shorter = text::prefix(path, n - 1);
        assert(shorter@ =~= path@.drop_last());
        closed(shorter)
    } else {
        path
    }
}

fn below<'a>(path: &'a str, dir: &str) -> (r: Option<&'a str>)
    ensures
        text::opt_str(r) == below_spec(path@, dir@),
    decreases dir@.len(),
{
    let d = entered(dir);
    let p = entered(path);
    if d.is_empty() {
        return Some(closed(p));
    }
    let n: usize = text::run(d, CharClass::Is('/'), false);
    let m: usize = text::run(p, CharClass::Is('/'), false);
    proof {
        lemma_entered(dir@);
        text::lemma_run(d@, CharClass::Is('/'), false);
        text::lemma_run(p@, CharClass::Is('/'), false);
    }
    if text::same(text::prefix(p, m), text::prefix(d, n)) {
        below(text::suffix(p, m), text::suffix(d, n))
    } else {
        None
    }
}

/// A path as it is worth showing.
///
/// Relative to the working directory when it sits underneath it, since that is
/// how the user named it and how they will find it again. Anything outside — a
/// config file under `$HOME`, an include reached by absolute path — stays
/// absolute, because there the full path is the information.
#[must_use]
pub fn display_path(path: &str, cwd: Option<&str>) -> (r: String)
    ensures
        r@ == display_spec(path@, text::opt_str(cwd)),
{
    if let Some(dir) = cwd {
        if text::starts_in(path, CharClass::Is('/')) && text::starts_in(dir, CharClass::Is('/')) {
            if let Some(rest) = below(path, dir) {
                return rest.to_owned();
            }
        }
    }
    path.to_owned()
}

/// Resolve a configured path: `~/` against `$HOME`, a relative path against
/// the directory holding the config file that set it.
#[must_use]
pub fn resolve_path(value: &str, home: Option<&str>, base: Option<&str>) -> (r: String)
    ensures
        r@ == resolve_spec(value@, text::opt_str(home), text::opt_str(base)),
{
    let n: usize = value.unicode_len();
    let tilde = n > 0 && value.get_char(0) == '~' && (n == 1 || value.get_char(1) == '/');
    if tilde {
        if let Some(home) = home {
            return join(home, closed(entered(text::suffix(value, 1))));
        }
    }
    match base {
        Some(dir) => join(dir, value),
        None => value.to_owned(),
    }
}

/// `$XDG_STATE_HOME/hledger-x`, defaulting to `~/.local/state/hledger-x`.
#[must_use]
pub fn state_dir(xdg: Option<&str>, home: Option<&str>) -> (r: String)
    ensures
        r@ == state_dir_spec(text::opt_str(xdg), text::opt_str(home)),
{
    match xdg {
        Some(x) => join(x, "hledger-x"),
        None => match home {
            Some(h) => join(join(h, ".local/state").as_str(), "hledger-x"),
            None => join("./.local/state", "hledger-x"),
        },
    }
}

/// `~/.config/hledger-x/config.toml`, respecting `$XDG_CONFIG_HOME`.
#[must_use]
pub fn user_config(xdg: Option<&str>, home: Option<&str>) -> (r: Option<String>)
    ensures
        text::opt_text(r) == user_config_spec(text::opt_str(xdg), text::opt_str(home)),
{
    match xdg {
        Some(x) => Some(join(x, "hledger-x/config.toml")),
        None => match home {
            Some(h) => Some(join(join(h, ".config").as_str(), "hledger-x/config.toml")),
            None => None,
        },
    }
}

} // verus!
