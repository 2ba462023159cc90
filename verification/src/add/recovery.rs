//! What a session leaves behind for the case that it dies.
//!
//! Completed transactions are appended to a recovery journal as the session
//! progresses, and the file is removed after a successful write. If it exists
//! at launch, the previous session died — its transactions are replayed into
//! the new session.

use vstd::prelude::*;
use vstd::string::*;
use crate::add::filemap::{self, Span};
use crate::add::parser;
use crate::add::scope::Rewrites;
use crate::add::write::{NewPost, NewTransaction, NewTxn, Posting};
use crate::date;
use crate::fmt;
use crate::fmt::posting::{self, Post};
use crate::lex;
use crate::paths;
use crate::text::{self, CharClass};

verus! {

/// What a recovery journal holds of a transaction: its lines, and a blank one.
pub open spec fn record_spec(t: NewTxn) -> Seq<char> {
    fmt::unlines_spec(
        seq![t.header()] + crate::add::write::post_lines(t.postings, Rewrites::none()),
    ).push('\n')
}

/// What a recovery journal holds of a transaction.
#[must_use]
pub fn record(t: &NewTransaction) -> (r: String)
    ensures
        r@ == record_spec(t@),
{
    let raw = t.raw_lines();
    let mut out = fmt::unlines(text::refs(raw.as_slice()).as_slice());
    out.push('\n');
    out
}

/// Whether a character may stand in the name of a recovery journal.
pub open spec fn is_name_char(c: char) -> bool {
    ('a' <= c && c <= 'z') || ('A' <= c && c <= 'Z') || ('0' <= c && c <= '9') || c == '.' || c
        == '-'
}

/// The name of the recovery journal of a file.
pub open spec fn recovery_name_spec(target: Seq<char>) -> Seq<char> {
    "recovery-"@ + target.map_values(
        |c: char|
            if is_name_char(c) {
                c
            } else {
                '_'
            },
    ) + ".journal"@
}

/// The name of the recovery journal for a given write target: a readable,
/// filesystem-safe encoding of the target path.
#[must_use]
pub fn recovery_name(target: &str) -> (r: String)
    ensures
        r@ == recovery_name_spec(target@),
{
    let v = text::chars(target);
    let mut out = "recovery-".to_owned();
    let ghost lead = out@;
    let ghost want = target@.map_values(
        |c: char|
            if is_name_char(c) {
                c
            } else {
                '_'
            },
    );
    let mut i: usize = 0;
    assert(out@ =~= lead + want.take(0));
    while i < v.len()
        invariant
            i <= v@.len(),
            v@ == target@,
            want == target@.map_values(
                |c: char|
                    if is_name_char(c) {
                        c
                    } else {
                        '_'
                    },
            ),
            out@ == lead + want.take(i as int),
        decreases v@.len() - i,
    {
        let c = v[i];
        let plain = ('a' <= c && c <= 'z') || ('A' <= c && c <= 'Z') || ('0' <= c && c <= '9') || c
            == '.' || c == '-';
        if plain {
            out.push(c);
        } else {
            out.push('_');
        }
        assert(want.take(i + 1) =~= want.take(i as int).push(want[i as int]));
        assert(out@ =~= lead + want.take(i + 1));
        i = i + 1;
    }
    assert(want.take(want.len() as int) =~= want);
    out.append(".journal");
    out
}

/// The crash-recovery journal: where a session's completed transactions are
/// kept until they are written.
#[derive(Debug)]
pub struct Recovery {
    path: String,
}

impl View for Recovery {
    type V = Seq<char>;

    closed spec fn view(&self) -> Seq<char> {
        self.path@
    }
}

impl Recovery {
    /// A recovery journal at an explicit path (tests, unusual setups).
    #[must_use]
    pub fn at(path: String) -> (r: Self)
        ensures
            r@ == path@,
    {
        Recovery { path }
    }

    /// The recovery file for a given write target, in the directory where
    /// such files are kept.
    #[must_use]
    pub fn for_target(target: &str, dir: &str) -> (r: Self)
        ensures
            r@ == paths::join_spec(dir@, recovery_name_spec(target@)),
    {
        Recovery { path: paths::join(dir, recovery_name(target).as_str()) }
    }

    /// Where the recovery journal lives (for messages).
    #[must_use]
    pub fn path(&self) -> (r: &str)
        ensures
            r@ == self@,
    {
        self.path.as_str()
    }
}

// ---- reading back ----

/// A posting line as a posting to write, if it is one.
pub open spec fn post_of(p: Post) -> Option<NewPost> {
    match p {
        Post::Comment(_) => None,
        Post::Bare(account, comment) => Some(
            NewPost {
                account,
                amount: Seq::empty(),
                comment: crate::add::write::comment_text_spec(comment),
            },
        ),
        Post::Amount { account, num, commodity, rest, comment } => Some(
            NewPost {
                account,
                amount: num + (if commodity.len() == 0 {
                    Seq::empty()
                } else {
                    seq![' '] + commodity
                }) + (if rest.len() == 0 {
                    Seq::empty()
                } else {
                    seq![' '] + text::join_spec(rest, " "@)
                }),
                comment: crate::add::write::comment_text_spec(comment),
            },
        ),
    }
}

/// The postings among lines.
pub open spec fn posts_of(ls: Seq<Seq<char>>) -> Seq<NewPost>
    decreases ls.len(),
{
    if ls.len() == 0 {
        Seq::empty()
    } else {
        match post_of(posting::parse_posting_spec(ls.last())) {
            Some(p) => posts_of(ls.drop_last()).push(p),
            None => posts_of(ls.drop_last()),
        }
    }
}

/// The transaction at a span of lines, if its date parses.
pub open spec fn txn_of(ls: Seq<Seq<char>>, span: Span) -> Option<NewTxn> {
    match span.date {
        None => None,
        Some(date) => {
            let header = lex::split_comment_spec(ls[span.start]);
            Some(
                NewTxn {
                    date,
                    description: text::trim_spec(
                        parser::header_parts(header.0).1,
                        CharClass::White,
                    ),
                    comment: crate::add::write::comment_text_spec(header.1),
                    postings: posts_of(ls.subrange(span.start + 1, span.end)),
                },
            )
        },
    }
}

/// The transactions at spans of lines.
pub open spec fn txns_of(ls: Seq<Seq<char>>, spans: Seq<Span>) -> Seq<NewTxn>
    decreases spans.len(),
{
    if spans.len() == 0 {
        Seq::empty()
    } else {
        match txn_of(ls, spans.last()) {
            Some(t) => txns_of(ls, spans.drop_last()).push(t),
            None => txns_of(ls, spans.drop_last()),
        }
    }
}

/// The transactions of a journal text.
pub open spec fn parse_transactions_spec(src: Seq<char>, this_year: i32) -> Seq<NewTxn> {
    let ls = fmt::lines_spec(src);
    txns_of(ls, filemap::all_spans(ls, this_year))
}

/// A posting line as a posting to write, if it is one.
fn to_post(line: &str) -> (r: Option<Posting>)
    ensures
        (match r {
            Some(p) => Some(p@),
            None => None,
        }) == post_of(posting::parse_posting_spec(line@)),
{
    match posting::parse_posting(line) {
        posting::Posting::Comment(_) => None,
        posting::Posting::Bare(account, comment) => Some(
            Posting {
                account,
                amount: String::new(),
                comment: crate::add::write::comment_text(as_str(&comment)),
            },
        ),
        posting::Posting::Amount { account, num, commodity, rest, comment } => {
            let mut amount = num;
            let ghost nv = amount@;
            if !commodity.as_str().is_empty() {
                amount.push(' ');
                amount.append(commodity.as_str());
            }
            let ghost cv = amount@;
            if rest.len() > 0 {
                amount.push(' ');
                amount.append(text::join(text::refs(rest.as_slice()).as_slice(), " ").as_str());
            }
            assert(cv =~= nv + (if commodity@.len() == 0 {
                Seq::empty()
            } else {
                seq![' '] + commodity@
            }));
            assert(text::texts(rest@).len() == rest@.len());
            assert(amount@ =~= cv + (if rest@.len() == 0 {
                Seq::empty()
            } else {
                seq![' '] + text::join_spec(text::texts(rest@), " "@)
            }));
            Some(
                Posting {
                    account,
                    amount,
                    comment: crate::add::write::comment_text(as_str(&comment)),
                },
            )
        },
    }
}

/// An optional text, borrowed.
pub(crate) fn as_str(o: &Option<String>) -> (r: Option<&str>)
    ensures
        text::opt_str(r) == text::opt_text(*o),
{
    match o {
        Some(s) => Some(s.as_str()),
        None => None,
    }
}

/// The postings among lines.
fn to_posts(ls: &[&str], from: usize, to: usize) -> (r: Vec<Posting>)
    requires
        from <= to <= ls@.len(),
    ensures
        crate::add::write::new_posts(r@) == posts_of(
            text::strs(ls@).subrange(from as int, to as int),
        ),
{
    let ghost all = text::strs(ls@).subrange(from as int, to as int);
    let mut out: Vec<Posting> = Vec::new();
    let mut i: usize = from;
    assert(crate::add::write::new_posts(out@) =~= posts_of(all.take(0)));
    while i < to
        invariant
            from <= i <= to <= ls@.len(),
            all == text::strs(ls@).subrange(from as int, to as int),
            crate::add::write::new_posts(out@) == posts_of(all.take(i - from)),
        decreases to - i,
    {
        assert(all.take(i - from + 1).drop_last() =~= all.take(i - from));
        assert(all.take(i - from + 1).last() == ls@[i as int]@);
        if let Some(p) = to_post(ls[i]) {
            let ghost before = crate::add::write::new_posts(out@);
            let ghost pv = p@;
            out.push(p);
            assert(crate::add::write::new_posts(out@) =~= before.push(pv));
        }
        i = i + 1;
    }
    assert(all.take(all.len() as int) =~= all);
    out
}

/// Parse journal text back into [`NewTransaction`]s in a given year. Lenient:
/// unparseable blocks are dropped.
#[must_use]
pub fn parse_transactions_in(src: &str, this_year: i32) -> (r: Vec<NewTransaction>)
    ensures
        crate::add::write::new_txns(r@) == parse_transactions_spec(src@, this_year),
{
    let ls = fmt::lines(src);
    let ghost lv = text::strs(ls@);
    let spans = filemap::txn_spans(ls.as_slice(), this_year);
    let ghost all = filemap::spans_view(spans@);
    proof {
        filemap::transactions_stand_in_order(lv, this_year);
    }
    let mut out: Vec<NewTransaction> = Vec::new();
    let mut i: usize = 0;
    assert(crate::add::write::new_txns(out@) =~= txns_of(lv, all.take(0)));
    while i < spans.len()
        invariant
            i <= spans@.len(),
            lv == text::strs(ls@),
            all == filemap::spans_view(spans@),
            all == filemap::all_spans(lv, this_year),
            forall|k: int| 0 <= k < all.len() ==> 0 <= (#[trigger] all[k]).start < all[k].end
                <= lv.len(),
            crate::add::write::new_txns(out@) == txns_of(lv, all.take(i as int)),
        decreases spans@.len() - i,
    {
        let span = spans[i];
        assert(all[i as int] == span@);
        assert(all.take(i + 1).drop_last() =~= all.take(i as int));
        assert(all.take(i + 1).last() == span@);
        if let Some(date) = span.date {
            assert(lv[span.start as int] == ls@[span.start as int]@);
            let (body, comment) = lex::split_comment(ls[span.start]);
            let rest = match text::find(body, CharClass::White) {
                Some(n) => {
                    proof {
                        text::lemma_run(body@, CharClass::White, false);
                    }
                    text::suffix(body, n + 1)
                },
                None => {
                    proof {
                        reveal_strlit("");
                        assert(""@ =~= Seq::<char>::empty());
                    }
                    ""
                },
            };
            let t = NewTransaction {
                date,
                description: text::trim(rest, CharClass::White).to_owned(),
                comment: crate::add::write::comment_text(comment),
                postings: to_posts(ls.as_slice(), span.start + 1, span.end),
            };
            let ghost before = crate::add::write::new_txns(out@);
            let ghost tv = t@;
            assert(txn_of(lv, span@) == Some(tv));
            out.push(t);
            assert(crate::add::write::new_txns(out@) =~= before.push(tv));
        }
        i = i + 1;
    }
    assert(all.take(all.len() as int) =~= all);
    out
}

/// Parse journal text back into [`NewTransaction`]s (recovery replay and the
/// Ctrl-E editor round-trip). Lenient: unparseable blocks are dropped.
#[must_use]
pub fn parse_transactions(src: &str) -> (r: Vec<NewTransaction>)
    ensures
        exists|y: i32|
            crate::add::write::new_txns(r@) == #[trigger] parse_transactions_spec(src@, y),
{
    let this_year: i32 = date::current_year();
    parse_transactions_in(src, this_year)
}

} // verus!
