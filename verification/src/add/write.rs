//! The write path: rendering new transactions, insertion and write modes, and
//! reading back what a dead session left behind.
//!
//! Everything is buffered during the session and written once on exit; the
//! recovery journal under `$XDG_STATE_HOME/hledger-x/` is the crash net in
//! between.

use vstd::prelude::*;
use vstd::string::*;
use crate::add::scope::{self, Rewrites, Scope};
use crate::date::{self, Date, Day};
use crate::fmt;
use crate::lex;
use crate::text::{self, CharClass};

verus! {

/// Where a new transaction goes in the file.
#[derive(Debug, Clone, Copy, PartialEq, Eq, Structural)]
pub enum Insertion {
    /// At the end of the file.
    Append,
    /// After the last transaction with a date `<=` the new one, following
    /// `fmt --sort` semantics.
    Chronological,
}

impl Default for Insertion {
    fn default() -> (r: Self)
        ensures
            r == Insertion::Append,
    {
        Insertion::Append
    }
}

/// Write-mode settings.
#[derive(Debug, Clone, Copy, PartialEq, Eq, Structural)]
pub struct WriteOptions {
    /// Reformat the whole file on write (default). When the file is already
    /// formatted and widths do not grow this is byte-identical to a pure
    /// append.
    pub format_file: bool,
    /// Also sort transactions by date (`fmt --sort` semantics).
    pub sort: bool,
    /// Insertion point for new transactions.
    pub insertion: Insertion,
}

impl Default for WriteOptions {
    fn default() -> (r: Self)
        ensures
            r == (WriteOptions {
                format_file: true,
                sort: false,
                insertion: Insertion::Append,
            }),
    {
        WriteOptions { format_file: true, sort: false, insertion: Insertion::Append }
    }
}

// ---- new transactions ----

/// What a [`Posting`] says.
#[verifier::ext_equal]
pub struct NewPost {
    pub account: Seq<char>,
    pub amount: Seq<char>,
    pub comment: Seq<char>,
}

/// What a [`NewTransaction`] says.
#[verifier::ext_equal]
pub struct NewTxn {
    pub date: Day,
    pub description: Seq<char>,
    pub comment: Seq<char>,
    pub postings: Seq<NewPost>,
}

/// One posting of a transaction being written.
#[derive(Debug)]
pub struct Posting {
    /// Account name, **resolved** — spelled for the insertion point only at
    /// the moment of writing (see [`NewTransaction::raw_lines_in`]).
    pub account: String,
    /// Raw amount text; may be empty for a bare posting.
    pub amount: String,
    /// Comment text *without* the leading `;`, as typed. Empty for none.
    pub comment: String,
}

impl View for Posting {
    type V = NewPost;

    open spec fn view(&self) -> NewPost {
        NewPost { account: self.account@, amount: self.amount@, comment: self.comment@ }
    }
}

pub open spec fn new_posts(v: Seq<Posting>) -> Seq<NewPost> {
    v.map_values(|p: Posting| p@)
}

/// A completed transaction, ready to write.
#[derive(Debug)]
pub struct NewTransaction {
    /// Fully resolved date.
    pub date: Date,
    /// Description as typed.
    pub description: String,
    /// Transaction comment text without the leading `;`. Empty for none.
    pub comment: String,
    /// Postings in order.
    pub postings: Vec<Posting>,
}

impl View for NewTransaction {
    type V = NewTxn;

    open spec fn view(&self) -> NewTxn {
        NewTxn {
            date: self.date@,
            description: self.description@,
            comment: self.comment@,
            postings: new_posts(self.postings@),
        }
    }
}

pub open spec fn new_txns(v: Seq<NewTransaction>) -> Seq<NewTxn> {
    v.map_values(|t: NewTransaction| t@)
}

impl Clone for Posting {
    fn clone(&self) -> (r: Self)
        ensures
            r@ == self@,
    {
        Posting {
            account: self.account.as_str().to_owned(),
            amount: self.amount.as_str().to_owned(),
            comment: self.comment.as_str().to_owned(),
        }
    }
}

/// Copies of postings.
pub(crate) fn copy_posts(ps: &[Posting]) -> (r: Vec<Posting>)
    ensures
        new_posts(r@) == new_posts(ps@),
{
    let mut out: Vec<Posting> = Vec::new();
    let mut i: usize = 0;
    while i < ps.len()
        invariant
            i <= ps@.len(),
            new_posts(out@) =~= new_posts(ps@).take(i as int),
        decreases ps@.len() - i,
    {
        let ghost before = new_posts(out@);
        out.push(ps[i].clone());
        assert(new_posts(out@) =~= before.push(ps@[i as int]@));
        i = i + 1;
    }
    out
}

impl Clone for NewTransaction {
    fn clone(&self) -> (r: Self)
        ensures
            r@ == self@,
    {
        NewTransaction {
            date: self.date,
            description: self.description.as_str().to_owned(),
            comment: self.comment.as_str().to_owned(),
            postings: copy_posts(self.postings.as_slice()),
        }
    }
}

impl Default for Posting {
    fn default() -> (r: Self)
        ensures
            r@ == (NewPost {
                account: Seq::empty(),
                amount: Seq::empty(),
                comment: Seq::empty(),
            }),
    {
        Posting { account: String::new(), amount: String::new(), comment: String::new() }
    }
}

impl Posting {
    /// A posting with no comment.
    #[must_use]
    pub fn new(account: &str, amount: &str) -> (r: Self)
        ensures
            r@ == (NewPost { account: account@, amount: amount@, comment: Seq::empty() }),
    {
        Posting {
            account: account.to_owned(),
            amount: amount.to_owned(),
            comment: String::new(),
        }
    }
}

// ---- comments ----

/// A comment without its marker and the space around it.
pub open spec fn comment_text_spec(comment: Option<Seq<char>>) -> Seq<char> {
    match comment {
        None => Seq::empty(),
        Some(c) => text::trim_spec(
            text::trim_start_spec(
                text::trim_start_spec(c, CharClass::White),
                CharClass::Is(';'),
            ),
            CharClass::White,
        ),
    }
}

/// The text of a `; comment` with the marker and surrounding space removed —
/// the form a field's buffer holds after the `;` and the user edits.
#[must_use]
pub fn comment_text(comment: Option<&str>) -> (r: String)
    ensures
        r@ == comment_text_spec(text::opt_str(comment)),
{
    match comment {
        None => String::new(),
        Some(c) => text::trim(
            text::trim_start(text::trim_start(c, CharClass::White), CharClass::Is(';')),
            CharClass::White,
        ).to_owned(),
    }
}

/// A comment as the end of a line.
pub open spec fn comment_suffix_spec(comment: Seq<char>) -> Seq<char> {
    let c = text::trim_spec(comment, CharClass::White);
    if c.len() == 0 {
        Seq::empty()
    } else if c[0] == ';' {
        "  "@ + c
    } else {
        "  ; "@ + c
    }
}

/// Render a comment as the trailing `  ; text` of a line, or nothing.
#[must_use]
pub fn comment_suffix(comment: &str) -> (r: String)
    ensures
        r@ == comment_suffix_spec(comment@),
{
    let c = text::trim(comment, CharClass::White);
    if c.is_empty() {
        String::new()
    } else if text::starts_in(c, CharClass::Is(';')) {
        text::cat("  ", c)
    } else {
        text::cat("  ; ", c)
    }
}

// ---- journal syntax ----

/// A posting's line, its account spelled as given.
pub open spec fn post_line(spelled: Seq<char>, p: NewPost) -> Seq<char> {
    let amount = text::trim_spec(p.amount, CharClass::White);
    "    "@ + spelled + (if amount.len() == 0 {
        Seq::empty()
    } else {
        "  "@ + amount
    }) + comment_suffix_spec(p.comment)
}

/// The lines of the postings whose accounts can be spelled.
pub open spec fn post_lines(ps: Seq<NewPost>, scope: Rewrites) -> Seq<Seq<char>>
    decreases ps.len(),
{
    if ps.len() == 0 {
        Seq::empty()
    } else {
        let before = post_lines(ps.drop_last(), scope);
        match scope.spell(ps.last().account) {
            Some(spelled) => before.push(post_line(spelled, ps.last())),
            None => before,
        }
    }
}

/// The accounts that cannot be spelled, each once.
pub open spec fn unspellable(ps: Seq<NewPost>, scope: Rewrites) -> Seq<Seq<char>>
    decreases ps.len(),
{
    if ps.len() == 0 {
        Seq::empty()
    } else {
        let before = unspellable(ps.drop_last(), scope);
        if scope.spell(ps.last().account) is Some || before.contains(ps.last().account) {
            before
        } else {
            before.push(ps.last().account)
        }
    }
}

impl NewTxn {
    /// The header line: date, description and comment.
    pub open spec fn header(self) -> Seq<char> {
        text::trim_end_spec(self.date.text() + " "@ + self.description, CharClass::White)
            + comment_suffix_spec(self.comment)
    }

    /// The transaction in raw journal syntax, or the accounts that cannot be
    /// written.
    pub open spec fn raw_lines(self, scope: Rewrites) -> Result<Seq<Seq<char>>, Seq<Seq<char>>> {
        let refused = unspellable(self.postings, scope);
        if refused.len() == 0 {
            Ok(seq![self.header()] + post_lines(self.postings, scope))
        } else {
            Err(refused)
        }
    }

    /// The widest account of some postings.
    pub open spec fn own_account_width(ps: Seq<NewPost>) -> nat
        decreases ps.len(),
    {
        if ps.len() == 0 {
            0
        } else {
            fmt::longer(NewTxn::own_account_width(ps.drop_last()), ps.last().account.len())
        }
    }

    /// The widest number of some postings.
    pub open spec fn own_number_width(ps: Seq<NewPost>) -> nat
        decreases ps.len(),
    {
        if ps.len() == 0 {
            0
        } else {
            fmt::longer(
                NewTxn::own_number_width(ps.drop_last()),
                lex::split_amount_spec(text::words_spec(ps.last().amount)).0.len(),
            )
        }
    }
}

impl NewTransaction {
    /// The transaction in raw journal syntax (header + minimally separated
    /// postings), before any alignment.
    ///
    /// The date is always written in full `YYYY-MM-DD` form, even into a file
    /// where a `Y` directive would let the year be omitted: explicit over
    /// implicit, and a full date cannot be silently rebound by someone later
    /// editing the `Y` line above it.
    #[must_use]
    pub fn raw_lines(&self) -> (r: Vec<String>)
        ensures
            text::texts(r@) == seq![self@.header()] + post_lines(
                self@.postings,
                Rewrites::none(),
            ),
    {
        proof {
            lemma_all_spellable(self@.postings);
        }
        match self.raw_lines_in(&Scope::default()) {
            Ok(lines) => lines,
            Err(_) => Vec::new(),
        }
    }

    /// [`Self::raw_lines`] with account names spelled for `scope` — the text
    /// that reads back as the account the user chose.
    ///
    /// # Errors
    ///
    /// The names that cannot be expressed under `scope` at all.
    pub fn raw_lines_in(&self, scope: &Scope) -> (r: Result<Vec<String>, Vec<String>>)
        ensures
            (match r {
                Ok(ls) => Ok(text::texts(ls@)),
                Err(names) => Err(text::texts(names@)),
            }) == self@.raw_lines(scope@),
    {
        let dated = text::cat3(self.date.to_text().as_str(), " ", self.description.as_str());
        let mut header = text::trim_end(dated.as_str(), CharClass::White).to_owned();
        header.append(comment_suffix(self.comment.as_str()).as_str());
        assert(header@ == self@.header());
        let mut out: Vec<String> = Vec::new();
        out.push(header);
        let mut refused: Vec<String> = Vec::new();
        let ghost ps = self@.postings;
        let mut i: usize = 0;
        assert(text::texts(out@) =~= seq![self@.header()] + post_lines(ps.take(0), scope@));
        assert(text::texts(refused@) =~= unspellable(ps.take(0), scope@));
        while i < self.postings.len()
            invariant
                i <= self.postings@.len(),
                ps == self@.postings,
                text::texts(out@) == seq![self@.header()] + post_lines(
                    ps.take(i as int),
                    scope@,
                ),
                text::texts(refused@) == unspellable(ps.take(i as int), scope@),
            decreases self.postings@.len() - i,
        {
            let p = &self.postings[i];
            assert(ps.take(i + 1).drop_last() =~= ps.take(i as int));
            assert(ps.take(i + 1).last() == p@);
            let ghost before = text::texts(out@);
            let ghost refused_before = text::texts(refused@);
            match scope.spell(p.account.as_str()) {
                None => {
                    if !text::has_text(refused.as_slice(), p.account.as_str()) {
                        refused.push(p.account.as_str().to_owned());
                        assert(text::texts(refused@) =~= refused_before.push(p@.account));
                    }
                },
                Some(spelled) => {
                    let mut line = text::cat("    ", spelled.as_str());
                    let amount = text::trim(p.amount.as_str(), CharClass::White);
                    if !amount.is_empty() {
                        line.append("  ");
                        line.append(amount);
                    }
                    line.append(comment_suffix(p.comment.as_str()).as_str());
                    assert(line@ =~= post_line(spelled@, p@));
                    let ghost lv = line@;
                    out.push(line);
                    assert(text::texts(out@) =~= before.push(lv));
                    assert(before.push(lv) =~= seq![self@.header()] + post_lines(
                        ps.take(i + 1),
                        scope@,
                    ));
                },
            }
            i = i + 1;
        }
        assert(ps.take(ps.len() as int) =~= ps);
        if refused.len() == 0 {
            Ok(out)
        } else {
            Err(refused)
        }
    }

    /// The widths this transaction's postings need.
    pub(crate) fn own_widths(&self) -> (r: (usize, usize))
        ensures
            r.0 == NewTxn::own_account_width(self@.postings),
            r.1 == NewTxn::own_number_width(self@.postings),
    {
        let ghost ps = self@.postings;
        let mut acc_w: usize = 0;
        let mut num_w: usize = 0;
        let mut i: usize = 0;
        while i < self.postings.len()
            invariant
                i <= self.postings@.len(),
                ps == self@.postings,
                acc_w == NewTxn::own_account_width(ps.take(i as int)),
                num_w == NewTxn::own_number_width(ps.take(i as int)),
            decreases self.postings@.len() - i,
        {
            let p = &self.postings[i];
            assert(ps.take(i + 1).drop_last() =~= ps.take(i as int));
            assert(ps.take(i + 1).last() == p@);
            let a: usize = text::count(p.account.as_str());
            if a > acc_w {
                acc_w = a;
            }
            let toks = text::words(p.amount.as_str());
            let fields = lex::split_amount(toks.as_slice());
            let n: usize = text::count(fields.0.as_str());
            if n > num_w {
                num_w = n;
            }
            i = i + 1;
        }
        assert(ps.take(ps.len() as int) =~= ps);
        (acc_w, num_w)
    }
}

/// Where nothing rewrites names, every account can be written.
pub proof fn lemma_all_spellable(ps: Seq<NewPost>)
    ensures
        unspellable(ps, Rewrites::none()) == Seq::<Seq<char>>::empty(),
    decreases ps.len(),
{
    if ps.len() > 0 {
        lemma_all_spellable(ps.drop_last());
    }
}

} // verus!
