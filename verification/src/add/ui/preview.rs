//! What a session shows while a transaction is entered.

use vstd::prelude::*;
use vstd::string::*;
use crate::add::ui::draft::{Draft, Entering};
use crate::add::ui::field::Field;
use crate::add::ui::session::{Session, Sitting};
use crate::add::ui::submit;
use crate::add::write::{NewPost, NewTransaction, NewTxn};
use crate::amount;
use crate::date;
use crate::decimal::Quantity;
use crate::fmt;
use crate::fmt::posting::{self, Post};
use crate::text::{self, CharClass};

verus! {

/// The lines of the postings that have an account, before any alignment.
pub open spec fn shown_lines(ps: Seq<NewPost>) -> Seq<Seq<char>>
    decreases ps.len(),
{
    if ps.len() == 0 {
        Seq::empty()
    } else if submit::blank(ps.last().account) {
        shown_lines(ps.drop_last())
    } else {
        shown_lines(ps.drop_last()).push(
            crate::add::write::post_line(ps.last().account, ps.last()),
        )
    }
}

/// Lines as postings.
pub open spec fn as_posts(ls: Seq<Seq<char>>) -> Seq<Post> {
    ls.map_values(|l: Seq<char>| posting::parse_posting_spec(l))
}

impl Sitting {
    /// The preview block: the transaction as it will be written, aligned to
    /// the file's widths or wider.
    pub open spec fn preview(self) -> Seq<Seq<char>> {
        let d = self.draft.stashed();
        let dated = match d.date {
            Some(day) => day.text(),
            None => match date::resolve_spec(d.date_input, self.ctx.today) {
                Some(day) => day.text(),
                None => d.date_input + "?"@,
            },
        };
        let ps = as_posts(shown_lines(d.postings));
        let acc_w = fmt::longer(self.ctx.acc_w, fmt::account_width(ps));
        let num_w = fmt::longer(self.ctx.num_w, fmt::number_width(ps));
        seq![
            text::trim_end_spec(dated + " "@ + d.description, CharClass::White)
                + crate::add::write::comment_suffix_spec(d.comment),
        ] + ps.map_values(|p: Post| posting::render_spec(acc_w, num_w, p))
    }

    /// The hint under the prompt.
    pub open spec fn hint(self) -> Option<Seq<char>> {
        let empty = submit::blank(self.draft.buffer);
        if empty && self.suggestion() is Some {
            Some(
                match self.draft.field {
                    Field::Account(_) => "Enter accepts · Tab or → edits it · Ctrl-U dismisses it"@,
                    Field::Amount(i) => if self.balancing_finishes(i) {
                        "Enter writes it and finishes · Tab or → edits it"@
                    } else {
                        "Enter accepts · Tab or → edits it"@
                    },
                    _ => "Enter accepts · Tab or → edits it"@,
                },
            )
        } else {
            match self.draft.field {
                Field::Date => Some(
                    "Enter accepts · u undoes the last transaction · q saves and quits"@,
                ),
                Field::Account(i) => if i >= 1 && empty {
                    Some("Enter on the empty account finishes the transaction"@)
                } else {
                    None
                },
                _ => None,
            }
        }
    }

    /// With the draft's content replaced by an edited transaction.
    pub open spec fn loaded(self, t: NewTxn) -> Sitting {
        let next = Field::Account(t.postings.len() as usize);
        self.with_draft(
            Entering {
                date: Some(t.date),
                date_input: t.date.text(),
                description: t.description,
                comment: t.comment,
                postings: t.postings,
                frontier: next.ordinal_spec(),
                field: next,
                ..Entering::fresh()
            },
        )
    }
}

/// Lines as postings, with the widths they need.
pub(crate) fn measure(ls: &[String], start: (usize, usize)) -> (r: (Vec<posting::Posting>, usize, usize))
    ensures
        posting::posts(r.0@) == as_posts(text::texts(ls@)),
        r.1 == fmt::longer(start.0 as nat, fmt::account_width(as_posts(text::texts(ls@)))),
        r.2 == fmt::longer(start.1 as nat, fmt::number_width(as_posts(text::texts(ls@)))),
{
    let ghost want = as_posts(text::texts(ls@));
    let mut out: Vec<posting::Posting> = Vec::new();
    let mut acc_w: usize = start.0;
    let mut num_w: usize = start.1;
    let mut i: usize = 0;
    assert(want.take(0) =~= Seq::empty());
    while i < ls.len()
        invariant
            i <= ls@.len(),
            want == as_posts(text::texts(ls@)),
            posting::posts(out@) =~= want.take(i as int),
            acc_w == fmt::longer(start.0 as nat, fmt::account_width(want.take(i as int))),
            num_w == fmt::longer(start.1 as nat, fmt::number_width(want.take(i as int))),
        decreases ls@.len() - i,
    {
        let p = posting::parse_posting(ls[i].as_str());
        let ghost pv = p@;
        assert(text::texts(ls@)[i as int] == ls@[i as int]@);
        assert(want[i as int] == pv);
        assert(want.take(i + 1).drop_last() =~= want.take(i as int));
        assert(want.take(i + 1).last() == pv);
        if let Some(a) = posting::account_of(&p) {
            let n: usize = text::count(a);
            if n > acc_w {
                acc_w = n;
            }
        }
        if let posting::Posting::Amount { num, .. } = &p {
            let n: usize = text::count(num.as_str());
            if n > num_w {
                num_w = n;
            }
        }
        let ghost before = posting::posts(out@);
        out.push(p);
        assert(posting::posts(out@) =~= before.push(pv));
        assert(want.take(i + 1) =~= want.take(i as int).push(pv));
        i = i + 1;
    }
    assert(want.take(want.len() as int) =~= want);
    (out, acc_w, num_w)
}

impl Session {
    /// A discoverability hint for the current field, shown dimmed under the
    /// prompt when nothing more urgent (menu, ghost, note) is on screen.
    #[must_use]
    pub fn hint(&self) -> (r: Option<String>)
        ensures
            text::opt_text(r) == self@.hint(),
    {
        let empty = text::trim(self.draft.buffer.as_str(), CharClass::White).is_empty();
        // One rule, said the same way everywhere: a ghost is accepted by
        // Enter and edited with Tab or →. The only field that adds anything
        // is the account, where refusing the ghost is how you finish the
        // transaction — that difference is forced by the account prompt
        // meaning two things, and is the only one.
        if empty && self.suggestion().is_some() {
            return Some(
                match self.draft.field {
                    Field::Account(_) => {
                        "Enter accepts · Tab or → edits it · Ctrl-U dismisses it".to_owned()
                    },
                    // Say which Enter this is: on the balancing amount it also
                    // ends the transaction, and a hint that promised only
                    // "accepts" would be lying about the one prompt that does
                    // something extra.
                    Field::Amount(i) => if self.balancing_finishes(i) {
                        "Enter writes it and finishes · Tab or → edits it".to_owned()
                    } else {
                        "Enter accepts · Tab or → edits it".to_owned()
                    },
                    _ => "Enter accepts · Tab or → edits it".to_owned(),
                },
            );
        }
        match self.draft.field {
            Field::Date => Some(
                "Enter accepts · u undoes the last transaction · q saves and quits".to_owned(),
            ),
            Field::Account(i) => if i >= 1 && empty {
                Some("Enter on the empty account finishes the transaction".to_owned())
            } else {
                None
            },
            _ => None,
        }
    }

    /// The running imbalance of the committed postings, for display.
    /// `None` when some amount is unparseable ("imbalance unknown").
    #[must_use]
    pub fn running_imbalance(&self) -> (r: Option<Vec<(String, Quantity)>>)
        ensures
            amount::opt_sums(r) == amount::imbalance_spec(
                self@.draft.amounts(),
                self@.ctx.amounts,
                false,
            ),
    {
        amount::imbalance(self.draft.committed_amounts().as_slice(), &self.ctx.amount_ctx)
    }

    /// The live preview block, formatted exactly as it will be written:
    /// rendered against the file's widths so an entry that will reflow the
    /// file visibly shifts the preview.
    #[must_use]
    pub fn preview_lines(&self) -> (r: Vec<String>)
        ensures
            text::texts(r@) == self@.preview(),
    {
        let mut d = self.draft.duplicate();
        d.stash();  // include the in-progress buffer
        let dated = match d.date {
            Some(day) => day.to_text(),
            None => match date::resolve(d.date_input.as_str(), self.ctx.today) {
                Some(day) => day.to_text(),
                None => text::cat(d.date_input.as_str(), "?"),
            },
        };
        let mut raw: Vec<String> = Vec::new();
        let ghost ps = d@.postings;
        let mut i: usize = 0;
        assert(text::texts(raw@) =~= shown_lines(ps.take(0)));
        while i < d.postings.len()
            invariant
                i <= d.postings@.len(),
                ps == d@.postings,
                text::texts(raw@) == shown_lines(ps.take(i as int)),
            decreases d.postings@.len() - i,
        {
            let p = &d.postings[i];
            assert(ps.take(i + 1).drop_last() =~= ps.take(i as int));
            assert(ps.take(i + 1).last() == p@);
            if !text::trim(p.account.as_str(), CharClass::White).is_empty() {
                let mut line = text::cat("    ", p.account.as_str());
                let amt = text::trim(p.amount.as_str(), CharClass::White);
                if !amt.is_empty() {
                    line.append("  ");
                    line.append(amt);
                }
                line.append(crate::add::write::comment_suffix(p.comment.as_str()).as_str());
                assert(line@ =~= crate::add::write::post_line(p@.account, p@));
                let ghost before = text::texts(raw@);
                let ghost lv = line@;
                raw.push(line);
                assert(text::texts(raw@) =~= before.push(lv));
            }
            i = i + 1;
        }
        assert(ps.take(ps.len() as int) =~= ps);
        let (posts, acc_w, num_w) = measure(raw.as_slice(), (self.ctx.acc_w, self.ctx.num_w));
        let whole = text::cat3(dated.as_str(), " ", d.description.as_str());
        let mut header = text::trim_end(whole.as_str(), CharClass::White).to_owned();
        header.append(crate::add::write::comment_suffix(d.comment.as_str()).as_str());
        let ghost want = self@.preview();
        let mut out: Vec<String> = Vec::new();
        out.push(header);
        let ghost rendered = posting::posts(posts@).map_values(
            |p: Post| posting::render_spec(acc_w as nat, num_w as nat, p),
        );
        assert(want =~= seq![header@] + rendered);
        assert(text::texts(out@) =~= want.take(1));
        let mut j: usize = 0;
        while j < posts.len()
            invariant
                j <= posts@.len(),
                rendered == posting::posts(posts@).map_values(
                    |p: Post| posting::render_spec(acc_w as nat, num_w as nat, p),
                ),
                want == seq![header@] + rendered,
                text::texts(out@) == want.take(1 + j),
            decreases posts@.len() - j,
        {
            let line = posting::render(acc_w, num_w, &posts[j]);
            assert(posting::posts(posts@)[j as int] == posts@[j as int]@);
            assert(want[1 + j] == line@);
            let ghost before = text::texts(out@);
            out.push(line);
            assert(text::texts(out@) =~= before.push(want[1 + j]));
            assert(want.take(2 + j) =~= want.take(1 + j).push(want[1 + j]));
            j = j + 1;
        }
        assert(want.take(want.len() as int) =~= want);
        out
    }

    /// Replace the draft's content from an edited transaction (the Ctrl-E
    /// editor round-trip), leaving the user at a fresh account prompt.
    pub fn load_draft_from(&mut self, txn: &NewTransaction)
        ensures
            final(self)@ == old(self)@.loaded(txn@),
    {
        let ghost was = self@;
        let next = Field::Account(txn.postings.len());
        let mut d = Draft::new();
        d.date = Some(txn.date);
        d.date_input = txn.date.to_text();
        d.description = txn.description.as_str().to_owned();
        d.comment = txn.comment.as_str().to_owned();
        d.postings = crate::add::write::copy_posts(txn.postings.as_slice());
        d.frontier = next.ordinal();
        d.field = next;
        self.draft = d;
        assert(crate::add::write::new_posts(txn.postings@).len() == txn.postings@.len());
        assert(self@ =~= was.loaded(txn@));
    }
}

} // verus!
