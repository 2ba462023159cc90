//! What a run over files comes to.

use vstd::prelude::*;
use crate::add::ui::submit;
use crate::amount::Ctx;
use crate::config::{EquityConversion, LayerRead, Setup};
use crate::fmt::{self, Options};
use crate::fmt::filled;
use crate::fmt::tree;
use crate::paths;
use crate::run::{self, Doing, Mode};
use crate::status::Status;

verus! {

// ---- formatting ----

/// A text that inherits nothing is formatted by the styles that it declares.
proof fn lemma_alone(s: Seq<char>, opts: Options)
    ensures
        tree::format_at_spec(s, Seq::empty(), opts) == fmt::format_spec(
            s,
            fmt::scan_ctx_spec(fmt::lines_spec(s)),
            opts,
        ),
{
    let none = Seq::<(usize, Ctx)>::empty();
    let own = fmt::scan_ctx_spec(fmt::lines_spec(s));
    tree::a_file_without_includes_has_one_context(s, none, opts);
    let ctx = tree::overlaid(tree::merged_spec(none), own);
    assert(ctx.styles =~= own.styles);
    assert(ctx == own);
}

/// A run writes what formatting gives, and only where it differs from what the
/// file says. A run that checks writes nothing and reports exactly the files that
/// a run would write. What has been written is kept by the next run with the same
/// settings, whichever they are.
pub proof fn a_second_run_changes_nothing(
    mode: Mode,
    display: Seq<char>,
    src: Seq<char>,
    inherited: Option<Seq<(usize, Ctx)>>,
    opts: Options,
)
    requires
        inherited matches Some(i) ==> filled::clean_inheritance(i),
    ensures
        ({
            let out = run::transformed(src, inherited, opts);
            let next = run::transformed(out, inherited, opts);
            &&& run::step_spec(mode, display, out, next) == Doing::Keep
            &&& run::stdin_spec(mode, out, next).1 == Status::Success
            &&& (run::step_spec(mode, display, src, out) == Doing::Keep) == (src == out)
            &&& !mode.check && src != out ==> (run::step_spec(mode, display, src, out)
                matches Doing::Rewrite(_, text, _) && text == out)
            &&& mode.check && src != out ==> run::step_spec(mode, display, src, out) is Report
            &&& (run::stdin_spec(mode, src, out).1 == Status::Unformatted) == (mode.check && src
                != out)
            &&& !mode.check && !mode.diff ==> run::stdin_spec(mode, src, out).0 == out
        }),
{
    let out = run::transformed(src, inherited, opts);
    match inherited {
        Some(i) => {
            filled::a_file_in_a_tree_settles(src, i, opts);
        },
        None => {
            let none = Seq::<(usize, Ctx)>::empty();
            filled::a_file_in_a_tree_settles(src, none, opts);
            lemma_alone(src, opts);
            lemma_alone(out, opts);
        },
    }
}

/// The journal of a run is the one named on the command line, or else the one
/// configured, or else the one of the environment.
pub proof fn the_flag_outranks_the_configuration(
    flag: Seq<char>,
    configured: Seq<char>,
    a: Option<Seq<char>>,
    b: Option<Seq<char>>,
)
    ensures
        run::journal_spec(Some(flag), a, b) == Some(flag),
        run::journal_spec(None, Some(configured), b) == Some(configured),
        run::journal_spec(None, None, b) == b,
{
}

/// How bad an end is: success is outranked by files that need formatting, those
/// by an invocation that makes no sense, and everything by an error.
pub proof fn an_error_outranks_everything(s: Status)
    ensures
        Status::Error.worse(s) == Status::Error,
        s.worse(Status::Error) == Status::Error,
        s != Status::Error ==> Status::Usage.worse(s) == Status::Usage,
        Status::Unformatted.worse(Status::Success) == Status::Unformatted,
        s.code_spec() == 0 <==> s == Status::Success,
        s.code_spec() == 1 <==> s == Status::Unformatted,
{
}

// ---- styles of a tree ----

/// Of two contexts the one laid over the other decides, commodity by commodity;
/// what it says nothing of is as it was.
pub proof fn the_nearer_declaration_decides(under: Ctx, over: Ctx, name: Seq<char>)
    ensures
        tree::overlaid(under, over).style_of(name) == (if over.style_of(name) is Some {
            over.style_of(name)
        } else {
            under.style_of(name)
        }),
        over.decimal_mark is Some ==> tree::overlaid(under, over).decimal_mark
            == over.decimal_mark,
        over.decimal_mark is None ==> tree::overlaid(under, over).decimal_mark
            == under.decimal_mark,
{
}

// ---- settings ----

/// Each key that a file sets counts, and each that it leaves alone stays as it
/// was; so the local file wins over the user file key by key.
pub proof fn a_file_sets_what_it_names(base: Setup, layer: LayerRead)
    ensures
        ({
            let now = base.overridden(layer);
            &&& now.ledger_file == (if layer.ledger_file is Some {
                layer.ledger_file
            } else {
                base.ledger_file
            })
            &&& layer.format_file matches Some(v) ==> now.format_file == v
            &&& layer.format_file is None ==> now.format_file == base.format_file
            &&& layer.sort matches Some(v) ==> now.sort == v
            &&& layer.sort is None ==> now.sort == base.sort
            &&& layer.insertion matches Some(v) ==> now.insertion == v
            &&& layer.insertion is None ==> now.insertion == base.insertion
            &&& layer.strict matches Some(v) ==> now.strict == v
            &&& layer.strict is None ==> now.strict == base.strict
            &&& layer.half_life matches Some(v) ==> now.half_life == v
            &&& layer.half_life is None ==> now.half_life == base.half_life
            &&& layer.account_matching matches Some(v) ==> now.account_matching == v
            &&& layer.account_matching is None ==> now.account_matching == base.account_matching
            &&& layer.description_matching matches Some(v) ==> now.description_matching == v
            &&& layer.description_matching is None ==> now.description_matching
                == base.description_matching
            &&& now.default_commodity == (if layer.default_commodity is Some {
                layer.default_commodity
            } else {
                base.default_commodity
            })
            &&& layer.equity_conversion == Some(true) ==> now.equity_conversion
                == EquityConversion::On
            &&& layer.equity_conversion == Some(false) ==> now.equity_conversion
                == EquityConversion::Off
            &&& layer.equity_conversion is None ==> now.equity_conversion
                == base.equity_conversion
            &&& layer.equity_conversion_account matches Some(v)
                ==> now.equity_conversion_account == v
            &&& layer.equity_conversion_account is None ==> now.equity_conversion_account
                == base.equity_conversion_account
        }),
{
}

/// A configuration is refused that would sort a file without formatting it, that
/// names no account for conversions, or whose half-life is not positive; and no
/// other is.
pub proof fn a_contradictory_configuration_is_refused(s: Setup)
    ensures
        (s.problem() is Some) == (s.sort && !s.format_file || !s.half_life.positive
            || submit::blank(s.equity_conversion_account)),
{
}

// ---- paths ----

/// An absolute path stands for itself, `~/` for the home directory, and any other
/// path for one below the directory that it is taken against.
pub proof fn a_path_is_taken_against_its_directory(
    path: Seq<char>,
    home: Seq<char>,
    base: Seq<char>,
    name: Seq<char>,
)
    requires
        path.len() > 0,
        base.len() > 0,
        base.last() != '/',
        home.len() > 0,
        home.last() != '/',
        name.len() > 0,
        name[0] != '/' && name[0] != '.',
        name.last() != '/' && name.last() != '.',
    ensures
        path[0] == '/' ==> paths::resolve_spec(path, Some(home), Some(base)) == path,
        path[0] != '/' && path[0] != '~' ==> paths::resolve_spec(path, Some(home), Some(base))
            == base + seq!['/'] + path,
        paths::resolve_spec("~/"@ + name, Some(home), Some(base)) == home + seq!['/'] + name,
{
    reveal_strlit("~/");
    assert(base.push('/') + path =~= base + seq!['/'] + path);
    let v = "~/"@ + name;
    let r = v.skip(1);
    assert(r =~= seq!['/'] + name);
    assert(r.skip(1) =~= name);
    assert(paths::entered_spec(name) == name);
    assert(paths::entered_spec(r) == name);
    assert(paths::closed_spec(name) == name);
    assert(home.push('/') + name =~= home + seq!['/'] + name);
}

} // verus!
