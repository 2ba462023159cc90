//! Posting parsing and rendering.

use vstd::prelude::*;
use vstd::string::*;
use crate::amount::{AmountCtx, Ctx};
use crate::restyle::{self, Places};
use crate::text::{self, CharClass};
use crate::lex;

verus! {

/// A parsed posting line.
#[derive(Debug, PartialEq, Eq)]
pub enum Posting {
    /// Standalone in-transaction comment line (indented `;` ...).
    Comment(String),
    /// Amount-less posting: account plus optional inline comment.
    Bare(String, Option<String>),
    /// account, number field, commodity, cost/assertion tokens, comment.
    Amount {
        account: String,
        num: String,
        commodity: String,
        rest: Vec<String>,
        comment: Option<String>,
    },
}

/// What a posting line says.
#[verifier::ext_equal]
pub enum Post {
    Comment(Seq<char>),
    Bare(Seq<char>, Option<Seq<char>>),
    Amount {
        account: Seq<char>,
        num: Seq<char>,
        commodity: Seq<char>,
        rest: Seq<Seq<char>>,
        comment: Option<Seq<char>>,
    },
}

impl View for Posting {
    type V = Post;

    open spec fn view(&self) -> Post {
        match self {
            Posting::Comment(c) => Post::Comment(c@),
            Posting::Bare(a, c) => Post::Bare(a@, text::opt_text(*c)),
            Posting::Amount { account, num, commodity, rest, comment } => Post::Amount {
                account: account@,
                num: num@,
                commodity: commodity@,
                rest: text::texts(rest@),
                comment: text::opt_text(*comment),
            },
        }
    }
}

/// What a list of postings says.
pub open spec fn posts(v: Seq<Posting>) -> Seq<Post> {
    v.map_values(|p: Posting| p@)
}

impl Post {
    /// The account name, where there is one.
    pub open spec fn account(self) -> Option<Seq<char>> {
        match self {
            Post::Comment(_) => None,
            Post::Bare(a, _) => Some(a),
            Post::Amount { account, .. } => Some(account),
        }
    }

    /// The number field, where there is one.
    pub open spec fn number(self) -> Option<Seq<char>> {
        match self {
            Post::Amount { num, .. } => Some(num),
            _ => None,
        }
    }

    /// Whether the line still waits for an amount: it has no amount at all, or
    /// only a cost or an assertion.
    pub open spec fn waits(self) -> bool {
        match self {
            Post::Comment(_) => false,
            Post::Bare(..) => true,
            Post::Amount { num, commodity, .. } => num.len() == 0 && commodity.len() == 0,
        }
    }
}

/// A posting line, read.
pub open spec fn parse_posting_spec(raw: Seq<char>) -> Post {
    let s = lex::rstrip_spec(text::trim_start_spec(raw, CharClass::White));
    if s.len() > 0 && s[0] == ';' {
        Post::Comment(s)
    } else {
        let (body, comment) = lex::split_comment_spec(s);
        let (account, amt) = lex::split_account_spec(body);
        if amt.len() == 0 {
            Post::Bare(account, comment)
        } else {
            let (num, commodity, rest) = lex::split_amount_spec(text::words_spec(amt));
            Post::Amount { account, num, commodity, rest, comment }
        }
    }
}

/// A posting with its amounts in their declared styles. An amount that its
/// style writes in one piece stays as it is where something stands behind it
/// that is neither a cost nor an assertion.
pub open spec fn restyle_post_spec(p: Post, ctx: Ctx, places: Places) -> Post {
    match p {
        Post::Amount { account, num, commodity, rest, comment } => {
            let (num2, commodity2) = match restyle::restyle_fields_spec(
                num,
                commodity,
                ctx,
                places,
            ) {
                Some((n, c)) if c.len() > 0 || rest.len() == 0 || lex::is_rest_start_spec(rest[0]) => (
                    n,
                    c,
                ),
                _ => (num, commodity),
            };
            Post::Amount {
                account,
                num: num2,
                commodity: commodity2,
                rest: restyle::restyle_tail_spec(rest, ctx, places),
                comment,
            }
        },
        other => other,
    }
}

/// `s` followed by spaces up to `n` characters.
pub open spec fn pad_right_spec(s: Seq<char>, n: nat) -> Seq<char> {
    if s.len() < n {
        s + text::repeat_spec(' ', (n - s.len()) as nat)
    } else {
        s
    }
}

/// `s` preceded by spaces up to `n` characters.
pub open spec fn pad_left_spec(s: Seq<char>, n: nat) -> Seq<char> {
    if s.len() < n {
        text::repeat_spec(' ', (n - s.len()) as nat) + s
    } else {
        s
    }
}

/// A comment two spaces behind what it follows.
pub open spec fn comment_part_spec(comment: Option<Seq<char>>) -> Seq<char> {
    match comment {
        None => Seq::empty(),
        Some(c) => "  "@ + c,
    }
}

/// The first token of a tail that is neither an operator nor a number.
pub open spec fn tail_commodity_spec(rest: Seq<Seq<char>>) -> Option<Seq<char>>
    decreases rest.len(),
{
    if rest.len() == 0 {
        None
    } else if !lex::is_rest_start_spec(rest[0]) && !lex::is_number_like_spec(rest[0]) {
        Some(rest[0])
    } else {
        tail_commodity_spec(rest.skip(1))
    }
}

/// The amount column of a posting: the number right-aligned and the commodity
/// behind it, or as much room as they would take.
pub open spec fn amount_field_spec(
    num_w: nat,
    num: Seq<char>,
    commodity: Seq<char>,
    rest: Seq<Seq<char>>,
) -> Seq<char> {
    if num.len() == 0 {
        text::repeat_spec(' ', num_w) + match tail_commodity_spec(rest) {
            None => Seq::empty(),
            Some(c) => " "@ + text::repeat_spec(' ', c.len()),
        }
    } else if commodity.len() == 0 {
        pad_left_spec(num, num_w)
    } else {
        pad_left_spec(num, num_w) + " "@ + commodity
    }
}

/// A posting line laid out against the file's widths.
pub open spec fn render_spec(acc_w: nat, num_w: nat, p: Post) -> Seq<char> {
    match p {
        Post::Comment(c) => "    "@ + c,
        Post::Bare(account, comment) => "    "@ + account + comment_part_spec(comment),
        Post::Amount { account, num, commodity, rest, comment } => "    "@ + pad_right_spec(
            account,
            acc_w,
        ) + "  "@ + amount_field_spec(num_w, num, commodity, rest) + (if rest.len() == 0 {
            Seq::empty()
        } else {
            " "@ + text::join_spec(rest, " "@)
        }) + comment_part_spec(comment),
    }
}

/// The account name of a posting that has one (comment lines have none).
#[must_use]
pub fn account_of(p: &Posting) -> (r: Option<&str>)
    ensures
        text::opt_str(r) == p@.account(),
{
    match p {
        Posting::Comment(_) => None,
        Posting::Bare(a, _) => Some(a.as_str()),
        Posting::Amount { account, .. } => Some(account.as_str()),
    }
}

impl Posting {
    /// The same posting again.
    pub fn duplicate(&self) -> (r: Posting)
        ensures
            r@ == self@,
    {
        match self {
            Posting::Comment(c) => Posting::Comment(c.clone()),
            Posting::Bare(a, c) => Posting::Bare(a.clone(), text::copy_opt(c)),
            Posting::Amount { account, num, commodity, rest, comment } => Posting::Amount {
                account: account.clone(),
                num: num.clone(),
                commodity: commodity.clone(),
                rest: text::copies(rest.as_slice()),
                comment: text::copy_opt(comment),
            },
        }
    }
}

fn own(o: Option<&str>) -> (r: Option<String>)
    ensures
        text::opt_text(r) == text::opt_str(o),
{
    match o {
        Some(s) => Some(s.to_owned()),
        None => None,
    }
}

/// Parse one posting line (leading indent and trailing white space ignored).
#[must_use]
pub fn parse_posting(raw: &str) -> (r: Posting)
    ensures
        r@ == parse_posting_spec(raw@),
{
    let s = lex::rstrip(text::trim_start(raw, CharClass::White));
    if text::starts_in(s, CharClass::Is(';')) {
        return Posting::Comment(s.to_owned());
    }
    let (body, comment) = lex::split_comment(s);
    let comment = own(comment);
    let (account, amt) = lex::split_account_amount(body);
    if amt.is_empty() {
        return Posting::Bare(account.to_owned(), comment);
    }
    let toks = text::words(amt);
    let (num, commodity, rest) = lex::split_amount(toks.as_slice());
    Posting::Amount {
        account: account.to_owned(),
        num,
        commodity,
        rest: text::owned(rest.as_slice()),
        comment,
    }
}

/// Re-render a posting's amounts in their commodities' declared styles.
///
/// Amounts of undeclared commodities, unitless amounts, and anything that
/// does not parse stay exactly as written.
#[must_use]
pub fn restyle(p: Posting, ctx: &AmountCtx) -> (r: Posting)
    ensures
        r@ == restyle_post_spec(p@, ctx@, Places::AsWritten),
{
    restyle_with(p, ctx, Places::AsWritten)
}

/// [`restyle()`] under an explicit precision policy.
///
/// [`Places::AsWritten`] is the only one used by default: padding an amount
/// already in the journal changes what `hledger print` emits.
/// [`Places::AtLeastDeclared`] is for `--explicit`, where that rewrite is
/// exactly what was asked for.
#[must_use]
pub fn restyle_with(p: Posting, ctx: &AmountCtx, places: Places) -> (r: Posting)
    ensures
        r@ == restyle_post_spec(p@, ctx@, places),
{
    match p {
        Posting::Amount { account, num, commodity, rest, comment } => {
            let refs = text::refs(rest.as_slice());
            let tail = restyle::restyle_tail_with(refs.as_slice(), ctx, places);
            assert(text::strs(refs@).len() == refs@.len());
            // A token that is no cost and no assertion would run into an amount
            // that is written in one piece.
            let apart = refs.len() == 0 || lex::is_rest_start(refs[0]);
            match restyle::restyle_face_fields_with(num.as_str(), commodity.as_str(), ctx, places) {
                Some((num2, commodity2)) if apart || !commodity2.as_str().is_empty() =>
                    Posting::Amount {
                        account,
                        num: num2,
                        commodity: commodity2,
                        rest: tail,
                        comment,
                    },
                _ => Posting::Amount { account, num, commodity, rest: tail, comment },
            }
        },
        other => other,
    }
}

/// The commodity of a cost/assertion tail: the first token that is neither an
/// operator (`@`, `@@`, `=`, `==`) nor a number.
fn tail_commodity(rest: &[String]) -> (r: Option<&str>)
    ensures
        text::opt_str(r) == tail_commodity_spec(text::texts(rest@)),
{
    let ghost all = text::texts(rest@);
    let mut i: usize = 0;
    assert(all.skip(0) =~= all);
    while i < rest.len()
        invariant
            i <= rest.len(),
            all == text::texts(rest@),
            tail_commodity_spec(all) == tail_commodity_spec(all.skip(i as int)),
        decreases rest.len() - i,
    {
        assert(all.skip(i as int)[0] == rest@[i as int]@);
        assert(all.skip(i as int).skip(1) =~= all.skip(i + 1));
        if !lex::is_rest_start(rest[i].as_str()) && !lex::is_number_like(rest[i].as_str()) {
            return Some(rest[i].as_str());
        }
        i = i + 1;
    }
    None
}

/// Pad on the right to `n` characters, never truncating.
fn pad_right(s: &str, n: usize) -> (r: String)
    ensures
        r@ == pad_right_spec(s@, n as nat),
{
    let len: usize = text::count(s);
    if len < n {
        text::cat(s, text::repeat(' ', n - len).as_str())
    } else {
        s.to_owned()
    }
}

/// Pad on the left to `n` characters, never truncating.
fn pad_left(s: &str, n: usize) -> (r: String)
    ensures
        r@ == pad_left_spec(s@, n as nat),
{
    let len: usize = text::count(s);
    if len < n {
        text::cat(text::repeat(' ', n - len).as_str(), s)
    } else {
        s.to_owned()
    }
}

/// Put a comment two spaces behind what it follows.
fn push_comment(out: &mut String, comment: &Option<String>)
    ensures
        final(out)@ == old(out)@ + comment_part_spec(text::opt_text(*comment)),
{
    match comment {
        None => {
            assert(out@ =~= old(out)@ + Seq::<char>::empty());
        },
        Some(c) => {
            out.append("  ");
            out.append(c.as_str());
            assert(out@ =~= old(out)@ + ("  "@ + c@));
        },
    }
}

fn amount_field(num_w: usize, num: &str, commodity: &str, rest: &[String]) -> (r: String)
    ensures
        r@ == amount_field_spec(num_w as nat, num@, commodity@, text::texts(rest@)),
{
    if num.is_empty() {
        let mut out = text::repeat(' ', num_w);
        if let Some(c) = tail_commodity(rest) {
            let ghost pad = out@;
            out.append(" ");
            out.append(text::repeat(' ', text::count(c)).as_str());
            assert(out@ =~= pad + (" "@ + text::repeat_spec(' ', c@.len())));
        } else {
            assert(out@ =~= out@ + Seq::<char>::empty());
        }
        out
    } else if commodity.is_empty() {
        pad_left(num, num_w)
    } else {
        text::cat3(pad_left(num, num_w).as_str(), " ", commodity)
    }
}

/// Render a posting against the file-wide widths.
///
/// The account is padded to `acc_w`, then two spaces, then the number
/// right-aligned in `num_w`, then the commodity. The cost/assertion tail
/// follows with single-space separators and is never column-aligned.
#[must_use]
pub fn render(acc_w: usize, num_w: usize, p: &Posting) -> (r: String)
    ensures
        r@ == render_spec(acc_w as nat, num_w as nat, p@),
{
    match p {
        Posting::Comment(c) => text::cat("    ", c.as_str()),
        Posting::Bare(account, comment) => {
            let mut out = text::cat("    ", account.as_str());
            push_comment(&mut out, comment);
            out
        },
        Posting::Amount { account, num, commodity, rest, comment } => {
            let mut out = text::cat("    ", pad_right(account.as_str(), acc_w).as_str());
            out.append("  ");
            out.append(
                amount_field(num_w, num.as_str(), commodity.as_str(), rest.as_slice()).as_str(),
            );
            assert(text::texts(rest@).len() == rest@.len());
            let ghost head = out@;
            if rest.len() > 0 {
                out.append(" ");
                out.append(text::join(text::refs(rest.as_slice()).as_slice(), " ").as_str());
                assert(out@ =~= head + (" "@ + text::join_spec(text::texts(rest@), " "@)));
            } else {
                assert(out@ =~= head + Seq::<char>::empty());
            }
            push_comment(&mut out, comment);
            out
        },
    }
}

} // verus!
