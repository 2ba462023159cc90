//! What Enter does: the field state machine.
//!
//! The state machine is the *only* place that knows a posting is two fields.

use vstd::prelude::*;
use vstd::string::*;
use crate::add::index;
use crate::add::parser::{self, PostingRead, Transaction, Txn};
use crate::add::scope;
use crate::add::ui::context;
use crate::add::ui::draft::{self, Entering};
use crate::add::ui::field::{self, Field};
use crate::add::ui::session::{Session, Sitting};
use crate::add::write::{NewPost, NewTransaction, NewTxn, Posting};
use crate::amount;
use crate::config::EquityConversion;
use crate::date;
use crate::decimal::{Num, Quantity};
use crate::equity::{self, Group, Layout};
use crate::lex;
use crate::restyle;
use crate::text::{self, CharClass};

verus! {

/// What a [`Submit`] says.
#[verifier::ext_equal]
pub enum Reply {
    Advanced,
    Done(NewTxn),
    Invalid(Seq<char>),
    Confirm(Seq<char>),
    Note(Seq<char>),
    Undo,
    Quit,
}

/// What submitting a field produced.
#[derive(Debug)]
pub enum Submit {
    /// Field accepted; the draft has advanced (or moved) and the buffer is
    /// loaded for the new current field.
    Advanced,
    /// The transaction is complete.
    Done(NewTransaction),
    /// Input rejected; message explains why. The field is unchanged.
    Invalid(String),
    /// Strict mode: the entered name is not declared; ask before using it.
    /// Answer yes by calling [`Session::submit_confirmed`]; anything else
    /// leaves the field as it was.
    Confirm {
        /// The full question, including any "did you mean …?" near-miss.
        question: String,
    },
    /// Accepted, but with a note (e.g. an account new to the journal).
    AdvancedWithNote(String),
    /// `u` at the date prompt: undo the last completed transaction.
    Undo,
    /// `q` at the date prompt: save everything completed and exit.
    Quit,
}

impl View for Submit {
    type V = Reply;

    open spec fn view(&self) -> Reply {
        match self {
            Submit::Advanced => Reply::Advanced,
            Submit::Done(t) => Reply::Done(t@),
            Submit::Invalid(s) => Reply::Invalid(s@),
            Submit::Confirm { question } => Reply::Confirm(question@),
            Submit::AdvancedWithNote(s) => Reply::Note(s@),
            Submit::Undo => Reply::Undo,
            Submit::Quit => Reply::Quit,
        }
    }
}

// ---- finishing ----

/// At most `n` postings.
pub open spec fn at_most(ps: Seq<NewPost>, n: usize) -> Seq<NewPost> {
    if n < ps.len() {
        ps.take(n as int)
    } else {
        ps
    }
}

/// Whether a text is nothing but white space.
pub open spec fn blank(s: Seq<char>) -> bool {
    text::trim_spec(s, CharClass::White).len() == 0
}

/// The postings without those at the end that have no account.
pub open spec fn trimmed(ps: Seq<NewPost>) -> Seq<NewPost>
    decreases ps.len(),
{
    if ps.len() > 0 && blank(ps.last().account) {
        trimmed(ps.drop_last())
    } else {
        ps
    }
}

/// Whether some posting has no amount.
pub open spec fn has_bare(ps: Seq<NewPost>) -> bool {
    exists|i: int| 0 <= i < ps.len() && blank((#[trigger] ps[i]).amount)
}

/// The postings at indices.
pub open spec fn picked_posts(ps: Seq<NewPost>, idxs: Seq<usize>) -> Seq<NewPost>
    decreases idxs.len(),
{
    if idxs.len() == 0 {
        Seq::empty()
    } else {
        let before = picked_posts(ps, idxs.drop_last());
        if idxs.last() < ps.len() {
            before.push(ps[idxs.last() as int])
        } else {
            before
        }
    }
}

/// The postings of one conversion: its own, then the equity postings.
pub open spec fn section_of(ps: Seq<NewPost>, group: Group, account: Seq<char>) -> Seq<NewPost> {
    picked_posts(ps, group.postings) + group.equity.map_values(
        |a: Seq<char>| NewPost { account, amount: a, comment: Seq::empty() },
    )
}

/// The sections of a transaction with conversions: the groups, then what
/// belongs to no single one.
pub open spec fn sections_of(ps: Seq<NewPost>, layout: Layout, account: Seq<char>) -> Seq<
    Seq<NewPost>,
> {
    let trailing = picked_posts(ps, layout.unassigned);
    layout.groups.map_values(|g: Group| section_of(ps, g, account)) + (if trailing.len() == 0 {
        Seq::empty()
    } else {
        seq![trailing]
    })
}

/// Sections with a bare `;` line between them.
pub open spec fn separated(sections: Seq<Seq<NewPost>>) -> Seq<NewPost>
    decreases sections.len(),
{
    if sections.len() == 0 {
        Seq::empty()
    } else if sections.len() == 1 {
        sections[0]
    } else {
        separated(sections.drop_last()).push(
            NewPost { account: ";"@, amount: Seq::empty(), comment: Seq::empty() },
        ) + sections.last()
    }
}

/// A "did you mean" at the end of a message.
pub open spec fn did_you_mean(o: Option<Seq<char>>) -> Seq<char> {
    match o {
        Some(s) => " — did you mean "@ + s + "?"@,
        None => Seq::empty(),
    }
}

/// The first name that is in neither of two lists.
pub open spec fn first_unknown(
    names: Seq<Seq<char>>,
    a: Seq<Seq<char>>,
    b: Seq<Seq<char>>,
) -> Option<Seq<char>>
    decreases names.len(),
{
    if names.len() == 0 {
        None
    } else if !a.contains(names[0]) && !b.contains(names[0]) {
        Some(names[0])
    } else {
        first_unknown(names.skip(1), a, b)
    }
}

/// The accounts and amounts of a historical transaction.
pub open spec fn template_of(t: Txn) -> Seq<(Seq<char>, Seq<char>)> {
    t.postings.map_values(|p: PostingRead| (p.account, p.amount))
}

impl Sitting {
    pub open spec fn with_draft(self, d: Entering) -> Sitting {
        Sitting { draft: d, ..self }
    }

    /// Whether any posting after `i` has been started.
    pub open spec fn has_later(self, i: usize) -> bool {
        exists|j: int|
            i < j < self.draft.postings.len() && !(blank(
                (#[trigger] self.draft.postings[j]).account,
            ) && blank(self.draft.postings[j].amount))
    }

    /// Whether an empty Enter at an amount would end the transaction.
    pub open spec fn balancing_finishes(self, i: usize) -> bool {
        !self.has_later(i) && self.balancing(i) is Some && self.balancing(i)
            == self.suggestion()
    }

    /// The draft's postings with the equity conversion postings they need.
    pub open spec fn with_conversions(self) -> Seq<NewPost> {
        let ps = self.draft.postings;
        if self.ctx.setup.equity_conversion != EquityConversion::On {
            ps
        } else {
            match equity::layout_spec(self.draft.amounts(), self.ctx.amounts) {
                None => ps,
                Some(layout) => separated(
                    sections_of(ps, layout, self.ctx.setup.equity_conversion_account),
                ),
            }
        }
    }

    /// By how much the draft does not balance, rendered.
    pub open spec fn off_by(self, sums: Seq<(Seq<char>, Num)>) -> Seq<char> {
        text::join_spec(
            sums.map_values(
                |s: (Seq<char>, Num)|
                    restyle::render_like_spec(s.1, s.0, self.ctx.amounts, self.draft.amounts()),
            ),
            ", "@,
        )
    }

    /// The finished transaction, or why the draft is none.
    pub open spec fn finished(self) -> Reply {
        let d = self.draft;
        let sums = amount::imbalance_spec(d.amounts(), self.ctx.amounts, false);
        if d.postings.len() < 2 {
            Reply::Invalid("a transaction needs at least two postings (Ctrl-C to abort)"@)
        } else if !has_bare(d.postings) && sums is Some && sums->0.len() > 0 {
            Reply::Invalid(
                "transaction does not balance (off by "@ + self.off_by(sums->0) + ")"@,
            )
        } else {
            match d.date {
                None => Reply::Invalid("no date"@),
                Some(date) => Reply::Done(
                    NewTxn {
                        date,
                        description: d.description,
                        comment: d.comment,
                        postings: self.with_conversions(),
                    },
                ),
            }
        }
    }

    /// Finish at an empty account prompt for posting `i`.
    pub open spec fn finish(self, i: usize) -> (Sitting, Reply) {
        let s = self.with_draft(
            Entering { postings: trimmed(at_most(self.draft.postings, i)), ..self.draft },
        );
        (s, s.finished())
    }

    // ---- the fields ----

    pub open spec fn submit_date(self) -> (Sitting, Reply) {
        let typed = text::trim_spec(self.draft.buffer, CharClass::White);
        if typed == "u"@ {
            (
                self,
                if self.completed.len() == 0 {
                    Reply::Invalid("nothing to undo"@)
                } else {
                    Reply::Undo
                },
            )
        } else if typed == "q"@ {
            (self, Reply::Quit)
        } else {
            // Empty accepts the ghost suggestion: the already-accepted date
            // when navigating back, today otherwise.
            let resolved = if typed.len() == 0 {
                Some(
                    match self.draft.date {
                        Some(d) => d,
                        None => self.ctx.today,
                    },
                )
            } else {
                date::resolve_spec(typed, self.ctx.today)
            };
            match resolved {
                None => (
                    self,
                    Reply::Invalid("cannot understand date "@ + parser::quoted(typed)),
                ),
                Some(d) => (
                    self.with_draft(
                        (Entering { date: Some(d), date_input: typed, ..self.draft }).gone_to(
                            Field::Description,
                        ),
                    ),
                    Reply::Advanced,
                ),
            }
        }
    }

    /// The draft with a description accepted and the template of its payee
    /// loaded.
    pub open spec fn described(self, typed: Seq<char>, payee: Seq<char>) -> Sitting {
        let d = self.draft;
        Sitting {
            draft: Entering {
                description: typed,
                template: if d.postings.len() == 0 && d.template.len() == 0 {
                    match index::template_spec(self.ctx.book.transactions, payee) {
                        Some(i) => template_of(self.ctx.book.transactions[i]),
                        None => d.template,
                    }
                } else {
                    d.template
                },
                ..d
            },
            entered_payees: if payee.len() == 0 {
                self.entered_payees
            } else {
                scope::with_new(self.entered_payees, seq![payee])
            },
            ..self
        }
    }

    pub open spec fn submit_description(self, confirmed: bool) -> (Sitting, Reply) {
        let parts = field::field_parts(self.draft.buffer);
        let s = self.with_draft(
            Entering { comment: draft::or_empty(parts.1), ..self.draft },
        );
        let payee = lex::split_payee_note_spec(parts.0).0;
        let ask = !confirmed && payee.len() > 0;
        if ask && self.ctx.strict && !self.ctx.payees_visible.contains(payee) {
            (
                s,
                Reply::Confirm(
                    payee + " is not a declared payee — use it anyway?"@ + did_you_mean(
                        self.near_payee(payee),
                    ),
                ),
            )
        } else {
            let next = s.described(parts.0, payee);
            (
                next.with_draft(next.draft.gone_to(Field::Account(0))),
                if ask && !self.payee_known(payee) {
                    Reply::Note(
                        payee + " is new to this journal"@ + did_you_mean(
                            self.near_payee(payee),
                        ),
                    )
                } else {
                    Reply::Advanced
                },
            )
        }
    }

    /// With a comment on a posting's line.
    pub open spec fn commented(self, i: usize, comment: Seq<char>) -> Sitting {
        let ps = draft::at_least(self.draft.postings, field::bounded(i + 1));
        self.with_draft(
            Entering {
                postings: draft::with_post(ps, i, NewPost { comment, ..ps[i as int] }),
                ..self.draft
            },
        )
    }

    /// With an account accepted for a posting.
    pub open spec fn with_account(self, i: usize, account: Seq<char>) -> Sitting {
        let ps = draft::at_least(self.draft.postings, field::bounded(i + 1));
        Sitting {
            entered_accounts: scope::with_new(self.entered_accounts, seq![account]),
            draft: (Entering {
                postings: draft::with_post(ps, i, NewPost { account, ..ps[i as int] }),
                ..self.draft
            }).gone_to(Field::Amount(i)),
            ..self
        }
    }

    /// Accept an account, asking or noting where it is not known.
    pub open spec fn settle_account(self, i: usize, account: Seq<char>, confirmed: bool) -> (
        Sitting,
        Reply,
    ) {
        if !confirmed && self.ctx.strict && !self.ctx.accounts_visible.contains(account)
            && !self.entered_accounts.contains(account) {
            (
                self,
                Reply::Confirm(
                    account + " is not a declared account — use it anyway?"@ + did_you_mean(
                        self.near_miss(account),
                    ),
                ),
            )
        } else {
            (
                self.with_account(i, account),
                if !self.account_known(account) && !confirmed {
                    Reply::Note(account + " is new to this journal"@)
                } else {
                    Reply::Advanced
                },
            )
        }
    }

    pub open spec fn submit_account(self, i: usize, confirmed: bool) -> (Sitting, Reply) {
        let parts = field::field_parts(self.draft.buffer);
        let comment = draft::or_empty(parts.1);
        let s = if comment.len() == 0 {
            self
        } else {
            self.commented(i, comment)
        };
        if parts.0.len() > 0 {
            s.settle_account(i, parts.0, confirmed)
        } else {
            match s.suggestion() {
                Some(suggested) => s.with_draft(
                    s.draft.with_buffer(suggested),
                ).settle_account(i, suggested, confirmed),
                None => s.finish(i),
            }
        }
    }

    /// With an amount accepted for a posting.
    pub open spec fn with_amount(self, i: usize, typed: Seq<char>) -> Sitting {
        let ps = draft::at_least(self.draft.postings, field::bounded(i + 1));
        let comment = if i < ps.len() {
            ps[i as int].comment
        } else {
            Seq::empty()
        };
        self.with_draft(
            (Entering { postings: ps, ..self.draft }).with_buffer(
                field::joined_field(typed, comment),
            ).gone_to(Field::Account(field::bounded(i + 1))),
        )
    }

    /// The typed amount as it is written, and its commodity: a bare number
    /// gets the default commodity, and the amount its declared style.
    pub open spec fn dressed(self, typed: Seq<char>, commodity: Seq<char>) -> (
        Seq<char>,
        Seq<char>,
    ) {
        let attach = commodity.len() == 0 && !text::any_spec(typed, CharClass::Is('@'))
            && !text::any_spec(typed, CharClass::Is('=')) && self.ctx.symbol() is Some;
        let symbol = self.ctx.symbol()->0;
        (
            restyle::restyle_entered_spec(
                if attach {
                    field::attached_commodity(typed, symbol, self.ctx.amounts)
                } else {
                    typed
                },
                self.ctx.amounts,
            ),
            if attach {
                symbol
            } else {
                commodity
            },
        )
    }

    /// The commodities that an amount names.
    pub open spec fn commodities_named(written: Seq<char>, commodity: Seq<char>) -> Seq<
        Seq<char>,
    > {
        scope::with_new(
            if commodity.len() == 0 {
                Seq::empty()
            } else {
                seq![commodity]
            },
            amount::tail_commodities_spec(written),
        )
    }

    /// Accept an amount, asking or noting where a commodity is not known.
    pub open spec fn settle_amount(self, i: usize, typed: Seq<char>, confirmed: bool) -> (
        Sitting,
        Reply,
    ) {
        match amount::parse_amount_spec(typed, self.ctx.amounts) {
            None => (
                self,
                Reply::Invalid("cannot parse amount "@ + parser::quoted(typed)),
            ),
            Some(parsed) => {
                let dressed = self.dressed(typed, parsed.commodity);
                let names = Sitting::commodities_named(dressed.0, dressed.1);
                let unknown = first_unknown(
                    names,
                    self.ctx.commodities_visible,
                    if self.ctx.strict {
                        Seq::empty()
                    } else {
                        self.ctx.used.commodities
                    },
                );
                if !confirmed && self.ctx.strict && unknown is Some {
                    (
                        self,
                        Reply::Confirm(
                            unknown->0 + " is not a declared commodity — use it anyway?"@
                                + did_you_mean(
                                field::closest_spec(unknown->0, self.ctx.commodities_visible),
                            ),
                        ),
                    )
                } else {
                    (
                        self.with_amount(i, dressed.0),
                        if !confirmed && unknown is Some {
                            Reply::Note(
                                unknown->0 + " is a commodity new to this journal"@,
                            )
                        } else {
                            Reply::Advanced
                        },
                    )
                }
            },
        }
    }

    /// With the balancing amount written into the last posting.
    pub open spec fn balanced(self, i: usize, amount: Seq<char>) -> Sitting {
        let ps = draft::at_least(self.draft.postings, field::bounded(i + 1));
        self.with_draft(
            Entering {
                postings: at_most(
                    draft::with_post(ps, i, NewPost { amount, ..ps[i as int] }),
                    field::bounded(i + 1),
                ),
                ..self.draft.with_buffer(amount)
            },
        )
    }

    pub open spec fn submit_amount(self, i: usize, confirmed: bool) -> (Sitting, Reply) {
        let parts = field::field_parts(self.draft.buffer);
        let s = self.commented(i, draft::or_empty(parts.1));
        if parts.0.len() > 0 {
            s.settle_amount(i, parts.0, confirmed)
        } else {
            match s.suggestion() {
                None => (
                    s,
                    Reply::Invalid(
                        if i == 0 {
                            "an amount is required on the first posting"@
                        } else {
                            "an amount is needed here — the balancing amount cannot be worked out yet"@
                        },
                    ),
                ),
                Some(suggested) => if !s.has_later(i) && s.balancing(i) == Some(suggested) {
                    let done = s.balanced(i, suggested);
                    (done, done.finished())
                } else {
                    s.with_draft(s.draft.with_buffer(suggested)).settle_amount(
                        i,
                        suggested,
                        confirmed,
                    )
                },
            }
        }
    }

    /// What Enter does.
    #[verifier::opaque]
    pub open spec fn submitted(self) -> (Sitting, Reply) {
        match self.draft.field {
            Field::Date => self.submit_date(),
            Field::Description => self.submit_description(false),
            Field::Account(i) => self.submit_account(i, false),
            Field::Amount(i) => self.submit_amount(i, false),
        }
    }

    /// What answering a question with yes does.
    #[verifier::opaque]
    pub open spec fn confirmed(self) -> (Sitting, Reply) {
        match self.draft.field {
            Field::Date => (self, Reply::Invalid("nothing to confirm"@)),
            Field::Description => self.submit_description(true),
            Field::Account(i) => self.submit_account(i, true),
            Field::Amount(i) => self.submit_amount(i, true),
        }
    }
}

// ---- doing it ----

/// A "did you mean" at the end of a message.
fn suggest_instead(o: &Option<String>) -> (r: String)
    ensures
        r@ == did_you_mean(text::opt_text(*o)),
{
    match o {
        Some(s) => text::cat3(" — did you mean ", s.as_str(), "?"),
        None => String::new(),
    }
}

/// The first name that is in neither of two lists.
fn find_unknown<'a>(names: &'a [String], a: &[String], b: &[String]) -> (r: Option<&'a str>)
    ensures
        text::opt_str(r) == first_unknown(text::texts(names@), text::texts(a@), text::texts(b@)),
{
    let ghost all = text::texts(names@);
    let mut i: usize = 0;
    assert(all.skip(0) =~= all);
    while i < names.len()
        invariant
            i <= names@.len(),
            all == text::texts(names@),
            first_unknown(all, text::texts(a@), text::texts(b@)) == first_unknown(
                all.skip(i as int),
                text::texts(a@),
                text::texts(b@),
            ),
        decreases names@.len() - i,
    {
        let c: &'a str = names[i].as_str();
        assert(all.skip(i as int)[0] == c@);
        if !text::has_text(a, c) && !text::has_text(b, c) {
            return Some(c);
        }
        assert(all.skip(i as int).skip(1) =~= all.skip(i + 1));
        i = i + 1;
    }
    None
}

/// The postings at indices.
fn pick_posts(ps: &[Posting], idxs: &[usize]) -> (r: Vec<Posting>)
    ensures
        crate::add::write::new_posts(r@) == picked_posts(
            crate::add::write::new_posts(ps@),
            idxs@,
        ),
{
    let ghost all = crate::add::write::new_posts(ps@);
    let mut out: Vec<Posting> = Vec::new();
    let mut i: usize = 0;
    assert(crate::add::write::new_posts(out@) =~= picked_posts(all, idxs@.take(0)));
    while i < idxs.len()
        invariant
            i <= idxs@.len(),
            all == crate::add::write::new_posts(ps@),
            crate::add::write::new_posts(out@) == picked_posts(all, idxs@.take(i as int)),
        decreases idxs@.len() - i,
    {
        assert(idxs@.take(i + 1).drop_last() =~= idxs@.take(i as int));
        assert(idxs@.take(i + 1).last() == idxs@[i as int]);
        if idxs[i] < ps.len() {
            let ghost before = crate::add::write::new_posts(out@);
            let k: usize = idxs[i];
            out.push(ps[k].clone());
            assert(crate::add::write::new_posts(out@) =~= before.push(all[k as int]));
        }
        i = i + 1;
    }
    assert(idxs@.take(idxs@.len() as int) =~= idxs@);
    out
}

/// Append the equity postings of a conversion.
fn push_equity(out: &mut Vec<Posting>, account: &str, amounts: &[String])
    ensures
        crate::add::write::new_posts(final(out)@) == crate::add::write::new_posts(old(out)@)
            + text::texts(amounts@).map_values(
            |a: Seq<char>| NewPost { account: account@, amount: a, comment: Seq::empty() },
        ),
{
    let ghost was = crate::add::write::new_posts(out@);
    let ghost more = text::texts(amounts@).map_values(
        |a: Seq<char>| NewPost { account: account@, amount: a, comment: Seq::empty() },
    );
    let mut i: usize = 0;
    while i < amounts.len()
        invariant
            i <= amounts@.len(),
            more == text::texts(amounts@).map_values(
                |a: Seq<char>| NewPost { account: account@, amount: a, comment: Seq::empty() },
            ),
            crate::add::write::new_posts(out@) =~= was + more.take(i as int),
        decreases amounts@.len() - i,
    {
        let ghost before = crate::add::write::new_posts(out@);
        let p = Posting::new(account, amounts[i].as_str());
        assert(more[i as int] == p@);
        out.push(p);
        assert(crate::add::write::new_posts(out@) =~= before.push(more[i as int]));
        assert(more.take(i + 1) =~= more.take(i as int).push(more[i as int]));
        i = i + 1;
    }
    assert(more.take(more.len() as int) =~= more);
}

/// Append a section behind those before it.
fn push_section(out: &mut Vec<Posting>, first: bool, section: Vec<Posting>)
    ensures
        crate::add::write::new_posts(final(out)@) == (if first {
            crate::add::write::new_posts(old(out)@)
        } else {
            crate::add::write::new_posts(old(out)@).push(
                NewPost { account: ";"@, amount: Seq::empty(), comment: Seq::empty() },
            )
        }) + crate::add::write::new_posts(section@),
{
    let ghost was = crate::add::write::new_posts(out@);
    let ghost sep = NewPost { account: ";"@, amount: Seq::empty(), comment: Seq::empty() };
    if !first {
        proof {
            reveal_strlit("");
            assert(""@ =~= Seq::<char>::empty());
        }
        out.push(Posting::new(";", ""));
        assert(crate::add::write::new_posts(out@) =~= was.push(sep));
    }
    let ghost led = crate::add::write::new_posts(out@);
    let ghost sv = crate::add::write::new_posts(section@);
    let mut section = section;
    out.append(&mut section);
    assert(crate::add::write::new_posts(out@) =~= led + sv);
}

/// The accounts and amounts of a historical transaction.
fn template_postings(t: &Transaction) -> (r: Vec<(String, String)>)
    ensures
        draft::template_view(r@) == template_of(t@),
{
    let mut out: Vec<(String, String)> = Vec::new();
    let ghost want = template_of(t@);
    let mut i: usize = 0;
    while i < t.postings.len()
        invariant
            i <= t.postings@.len(),
            want == template_of(t@),
            draft::template_view(out@) =~= want.take(i as int),
        decreases t.postings@.len() - i,
    {
        let ghost before = draft::template_view(out@);
        out.push(
            (
                t.postings[i].account.as_str().to_owned(),
                t.postings[i].amount.as_str().to_owned(),
            ),
        );
        assert(draft::template_view(out@) =~= before.push(want[i as int]));
        i = i + 1;
    }
    assert(want.take(want.len() as int) =~= want);
    out
}

impl Session {
    /// Submit the current buffer for the current field.
    pub fn submit(&mut self) -> (r: Submit)
        ensures
            (final(self)@, r@) == old(self)@.submitted(),
    {
        reveal(Sitting::submitted);
        match self.draft.field {
            Field::Date => self.submit_date(),
            Field::Description => self.submit_description(false),
            Field::Account(i) => self.submit_account(i, false),
            Field::Amount(i) => self.submit_amount(i, false),
        }
    }

    /// Re-submit the current field after the user answered a
    /// [`Submit::Confirm`] question with yes.
    pub fn submit_confirmed(&mut self) -> (r: Submit)
        ensures
            (final(self)@, r@) == old(self)@.confirmed(),
    {
        reveal(Sitting::confirmed);
        match self.draft.field {
            Field::Description => self.submit_description(true),
            Field::Account(i) => self.submit_account(i, true),
            Field::Amount(i) => self.submit_amount(i, true),
            Field::Date => Submit::Invalid("nothing to confirm".to_owned()),
        }
    }

    fn submit_date(&mut self) -> (r: Submit)
        ensures
            (final(self)@, r@) == old(self)@.submit_date(),
    {
        let typed = text::trim(self.draft.buffer.as_str(), CharClass::White).to_owned();
        if text::same(typed.as_str(), "u") {
            return if self.completed.len() == 0 {
                Submit::Invalid("nothing to undo".to_owned())
            } else {
                Submit::Undo
            };
        }
        if text::same(typed.as_str(), "q") {
            return Submit::Quit;
        }
        // Empty accepts the ghost suggestion: the already-accepted date
        // when navigating back, today otherwise.

        let resolved = if typed.as_str().is_empty() {
            Some(
                match self.draft.date {
                    Some(d) => d,
                    None => self.ctx.today,
                },
            )
        } else {
            date::resolve(typed.as_str(), self.ctx.today)
        };
        match resolved {
            None => Submit::Invalid(
                text::cat("cannot understand date ", parser::quote(typed.as_str()).as_str()),
            ),
            Some(d) => {
                self.draft.date = Some(d);
                self.draft.date_input = typed;
                self.draft.goto(Field::Description);
                Submit::Advanced
            },
        }
    }

    fn submit_description(&mut self, confirmed: bool) -> (r: Submit)
        ensures
            (final(self)@, r@) == old(self)@.submit_description(confirmed),
    {
        let ghost was = self@;
        let (typed, comment) = field::split_field_comment(self.draft.buffer.as_str());
        self.draft.comment = match comment {
            Some(c) => c,
            None => String::new(),
        };
        // The description is `payee | note`; everything that treats it as an
        // *identity* — the checks, the near-miss, the template — uses the
        // payee half, exactly as hledger does. Only the file gets the whole
        // string.
        let payee = lex::split_payee_note(typed.as_str()).0;
        // The payee checks mirror the account ones exactly: `strict` asks
        // before using an undeclared payee (as `hledger check payees` would),
        // otherwise a name new to the journal gets a passing note. This is
        // the fix for hledger `add` matching `bahn` against `Deutsche Bahn`
        // to pick defaults and then writing the literal `bahn`.
        let mut note: Option<String> = None;
        if !confirmed && !payee.is_empty() {
            if self.ctx.strict && !text::has_text(
                self.ctx.declared_payees_visible.as_slice(),
                payee,
            ) {
                let hint = suggest_instead(&self.near_payee(payee));
                return Submit::Confirm {
                    question: text::cat3(
                        payee,
                        " is not a declared payee — use it anyway?",
                        hint.as_str(),
                    ),
                };
            }
            if !self.payee_known(payee) {
                let hint = suggest_instead(&self.near_payee(payee));
                note = Some(text::cat3(payee, " is new to this journal", hint.as_str()));
            }
        }
        let ghost s = self@;
        self.draft.description = typed.as_str().to_owned();
        if !payee.is_empty() {
            context::add_new(&mut self.entered_payees, payee);
        }
        // Load the template once, from the payee's most recent transaction.
        // Predictability: most recent, not highest scoring.
        if self.draft.postings.len() == 0 && self.draft.template.len() == 0 {
            if let Some(tpl) = self.ctx.index.template(&self.ctx.journal, payee) {
                self.draft.template = template_postings(tpl);
            }
        }
        assert(self@ =~= s.described(typed@, payee@));
        self.draft.goto(Field::Account(0));
        match note {
            None => Submit::Advanced,
            Some(n) => Submit::AdvancedWithNote(n),
        }
    }

    /// Put a comment on a posting's line.
    fn comment_on(&mut self, i: usize, comment: String)
        ensures
            final(self)@ == old(self)@.commented(i, comment@),
    {
        draft::ensure_len(&mut self.draft.postings, field::next(i));
        let ghost ps = crate::add::write::new_posts(self.draft.postings@);
        if i < self.draft.postings.len() {
            let p = &mut self.draft.postings[i];
            p.comment = comment;
            let ghost after = p@;
            assert(crate::add::write::new_posts(self.draft.postings@) =~= ps.update(
                i as int,
                after,
            ));
        }
    }

    fn submit_account(&mut self, i: usize, confirmed: bool) -> (r: Submit)
        ensures
            (final(self)@, r@) == old(self)@.submit_account(i, confirmed),
    {
        // A `;` here is a comment for this posting's line, not part of the
        // account name — writing it into the name would produce a corrupt
        // posting line.
        let (typed, comment) = field::split_field_comment(self.draft.buffer.as_str());
        if let Some(c) = comment {
            if !c.as_str().is_empty() {
                self.comment_on(i, c);
            }
        }
        if !typed.as_str().is_empty() {
            return self.settle_account(i, typed.as_str(), confirmed);
        }
        // Enter on an empty account accepts the suggested one, the way it
        // does at the date and amount prompts. With nothing suggested —
        // the template is exhausted, or the suggestion was dismissed —
        // an empty account is the end of the transaction.

        match self.suggestion() {
            Some(suggested) => {
                // Into the buffer, not just into the name: advancing stashes
                // the buffer into this field's slot, so an accepted
                // suggestion that stayed out of it would be stashed away
                // again as empty.
                self.draft.set_buffer(suggested.as_str());
                self.settle_account(i, suggested.as_str(), confirmed)
            },
            None => self.finish(i),
        }
    }

    fn settle_account(&mut self, i: usize, account: &str, confirmed: bool) -> (r: Submit)
        ensures
            (final(self)@, r@) == old(self)@.settle_account(i, account@, confirmed),
    {
        // Strict mode mirrors `hledger check accounts`: only declarations
        // visible at the insertion point count. hledger-x never declares
        // anything itself — the question is whether to *use* the name.
        //
        // An account accepted earlier in this session counts as settled:
        // asking about `expenses:coffee` on every posting would be noise.
        if !confirmed && self.ctx.strict && !text::has_text(
            self.ctx.declared_accounts_visible.as_slice(),
            account,
        ) && !text::has_text(self.entered_accounts.as_slice(), account) {
            let hint = suggest_instead(&self.near_miss(account));
            return Submit::Confirm {
                question: text::cat3(
                    account,
                    " is not a declared account — use it anyway?",
                    hint.as_str(),
                ),
            };
        }
        // Not strict: accept, but surface names that are genuinely new to
        // the journal (neither declared nor ever used) — once.

        let brand_new = !self.account_known(account);
        self.commit_account(i, account);
        if brand_new && !confirmed {
            return Submit::AdvancedWithNote(text::cat(account, " is new to this journal"));
        }
        Submit::Advanced
    }

    fn commit_account(&mut self, i: usize, account: &str)
        ensures
            final(self)@ == old(self)@.with_account(i, account@),
    {
        // Record it before it is written, so later postings of *this*
        // transaction can complete it too.
        context::add_new(&mut self.entered_accounts, account);
        draft::ensure_len(&mut self.draft.postings, field::next(i));
        let ghost ps = crate::add::write::new_posts(self.draft.postings@);
        if i < self.draft.postings.len() {
            let p = &mut self.draft.postings[i];
            p.account = account.to_owned();
            let ghost after = p@;
            assert(crate::add::write::new_posts(self.draft.postings@) =~= ps.update(
                i as int,
                after,
            ));
        }
        self.draft.goto(Field::Amount(i));
    }

    fn submit_amount(&mut self, i: usize, confirmed: bool) -> (r: Submit)
        ensures
            (final(self)@, r@) == old(self)@.submit_amount(i, confirmed),
    {
        // The amount field owns this posting's comment: it is the end of the
        // line, so what is typed here is the whole truth about it.
        let (typed, comment) = field::split_field_comment(self.draft.buffer.as_str());
        self.comment_on(
            i,
            match comment {
                Some(c) => c,
                None => String::new(),
            },
        );
        if !typed.as_str().is_empty() {
            return self.settle_amount(i, typed.as_str(), confirmed);
        }
        let suggested = match self.suggestion() {
            None => {
                return Submit::Invalid(
                    if i == 0 {
                        "an amount is required on the first posting".to_owned()
                    } else {
                        "an amount is needed here — the balancing amount cannot be worked out yet".to_owned()
                    },
                );
            },
            Some(s) => s,
        };
        // Enter accepts the ghost, as at every prompt. One deliberate
        // extra: when that ghost is the *balancing* amount and no later
        // posting is waiting, accepting it also ends the transaction —
        // the shortcut that keeps a routine entry at one keystroke per
        // field. A template amount never finishes; only arithmetic that
        // has nothing left to balance does.
        //
        // The strict commodity check is skipped here for the same reason
        // the equity conversion postings skip it: hledger-x generated
        // this amount rather than the user typing it, and its commodity
        // is the negation of one already vetted on the posting it
        // balances.
        if !self.has_later_postings(i) {
            if let Some(b) = self.balancing_prefill(i) {
                if text::same(b.as_str(), suggested.as_str()) {
                    self.write_balancing(i, suggested.as_str());
                    return self.complete_draft();
                }
            }
        }
        self.draft.set_buffer(suggested.as_str());
        self.settle_amount(i, suggested.as_str(), confirmed)
    }

    /// Write the balancing amount into the last posting.
    fn write_balancing(&mut self, i: usize, amount: &str)
        ensures
            final(self)@ == old(self)@.balanced(i, amount@),
    {
        draft::ensure_len(&mut self.draft.postings, field::next(i));
        let ghost ps = crate::add::write::new_posts(self.draft.postings@);
        if i < self.draft.postings.len() {
            let p = &mut self.draft.postings[i];
            p.amount = amount.to_owned();
            let ghost after = p@;
            assert(crate::add::write::new_posts(self.draft.postings@) =~= ps.update(
                i as int,
                after,
            ));
        }
        self.draft.set_buffer(amount);
        self.truncate(field::next(i));
    }

    /// Keep at most `n` postings.
    fn truncate(&mut self, n: usize)
        ensures
            final(self)@ == old(self)@.with_draft(
                Entering {
                    postings: at_most(old(self)@.draft.postings, n),
                    ..old(self)@.draft
                },
            ),
    {
        let ghost ps = crate::add::write::new_posts(self.draft.postings@);
        self.draft.postings.truncate(n);
        assert(crate::add::write::new_posts(self.draft.postings@) =~= at_most(ps, n));
    }

    fn settle_amount(&mut self, i: usize, typed: &str, confirmed: bool) -> (r: Submit)
        ensures
            (final(self)@, r@) == old(self)@.settle_amount(i, typed@, confirmed),
    {
        let parsed = match amount::parse_amount(typed, &self.ctx.amount_ctx) {
            None => {
                return Submit::Invalid(
                    text::cat("cannot parse amount ", parser::quote(typed).as_str()),
                );
            },
            Some(p) => p,
        };
        let (written, commodity) = self.dress(typed, parsed.commodity);
        // Strict mode mirrors `hledger check commodities`, covering the face
        // commodity and any second commodity in a cost/assertion tail. A
        // unitless amount is always valid, even in strict mode.
        if confirmed {
            self.accept_amount(i, written.as_str());
            return Submit::Advanced;
        }
        let mut names: Vec<String> = Vec::new();
        if !commodity.as_str().is_empty() {
            names.push(commodity.as_str().to_owned());
        }
        assert(text::texts(names@) =~= if commodity@.len() == 0 {
            Seq::empty()
        } else {
            seq![commodity@]
        });
        let tail = amount::tail_commodities(written.as_str());
        context::add_all(&mut names, tail.as_slice());
        let none: Vec<String> = Vec::new();
        assert(text::texts(none@) =~= Seq::empty());
        let unknown = find_unknown(
            names.as_slice(),
            self.ctx.declared_commodities_visible.as_slice(),
            if self.ctx.strict {
                none.as_slice()
            } else {
                self.ctx.used_commodities.as_slice()
            },
        );
        match unknown {
            None => {
                self.accept_amount(i, written.as_str());
                Submit::Advanced
            },
            Some(c) => {
                if self.ctx.strict {
                    let near = field::closest(
                        c,
                        self.ctx.declared_commodities_visible.as_slice(),
                    );
                    let hint = suggest_instead(&near);
                    return Submit::Confirm {
                        question: text::cat3(
                            c,
                            " is not a declared commodity — use it anyway?",
                            hint.as_str(),
                        ),
                    };
                }
                let note = text::cat(c, " is a commodity new to this journal");
                self.accept_amount(i, written.as_str());
                Submit::AdvancedWithNote(note)
            },
        }
    }

    /// The typed amount as it is written, and its commodity.
    fn dress(&self, typed: &str, commodity: String) -> (r: (String, String))
        ensures
            (r.0@, r.1@) == self@.dressed(typed@, commodity@),
    {
        // A bare number gets the default commodity written into the
        // transaction being built — visibly, and still editable via ↑.
        // Otherwise this posting and a balancing prefill carrying the
        // default would read as two different commodities and the
        // transaction could never balance.
        if commodity.as_str().is_empty() && !text::any(typed, CharClass::Is('@')) && !text::any(
            typed,
            CharClass::Is('='),
        ) {
            if let Some(symbol) = self.ctx.default_commodity_symbol() {
                let whole = field::attach_commodity(
                    typed,
                    symbol.as_str(),
                    &self.ctx.amount_ctx,
                );
                return (
                    restyle::restyle_entered(whole.as_str(), &self.ctx.amount_ctx),
                    symbol,
                );
            }
        }
        // Normalize what was typed to the declared display style — the form
        // `fmt` (and `hledger print`) would write. Amounts of undeclared
        // commodities stay as typed.

        (restyle::restyle_entered(typed, &self.ctx.amount_ctx), commodity)
    }

    /// Commit an amount and advance to the next account prompt.
    fn accept_amount(&mut self, i: usize, typed: &str)
        ensures
            final(self)@ == old(self)@.with_amount(i, typed@),
    {
        // Put the (possibly commodity-completed) text back in the buffer:
        // advancing stashes the buffer into this field's slot, so the comment
        // has to travel with it or stashing would drop it.
        draft::ensure_len(&mut self.draft.postings, field::next(i));
        let comment = if i < self.draft.postings.len() {
            self.draft.postings[i].comment.as_str().to_owned()
        } else {
            String::new()
        };
        self.draft.set_buffer(field::join_field_comment(typed, comment.as_str()).as_str());
        self.draft.goto(Field::Account(field::next(i)));
    }

    /// Whether an empty Enter at amount `i` would write the balancing
    /// amount and end the transaction, rather than merely accept a ghost.
    #[must_use]
    pub fn balancing_finishes(&self, i: usize) -> (r: bool)
        ensures
            r == self@.balancing_finishes(i),
    {
        if self.has_later_postings(i) {
            return false;
        }
        match (self.balancing_prefill(i), self.suggestion()) {
            (Some(b), Some(s)) => text::same(b.as_str(), s.as_str()),
            _ => false,
        }
    }

    /// Whether any posting after `i` has been started. The balancing
    /// shortcut must not finish over the top of one.
    fn has_later_postings(&self, i: usize) -> (r: bool)
        ensures
            r == self@.has_later(i),
    {
        let ghost ps = self@.draft.postings;
        let n: usize = self.draft.postings.len();
        let mut j: usize = i;
        while j < n && j + 1 < n
            invariant
                i <= j,
                n == self.draft.postings@.len(),
                ps == self@.draft.postings,
                forall|k: int|
                    i < k <= j && k < n ==> blank((#[trigger] ps[k]).account) && blank(
                        ps[k].amount,
                    ),
            decreases n - j,
        {
            j = j + 1;
            let p = &self.draft.postings[j];
            assert(ps[j as int] == p@);
            if !text::trim(p.account.as_str(), CharClass::White).is_empty() || !text::trim(
                p.amount.as_str(),
                CharClass::White,
            ).is_empty() {
                return true;
            }
        }
        false
    }

    /// Finish the transaction at an empty account prompt for posting `i`.
    fn finish(&mut self, i: usize) -> (r: Submit)
        ensures
            (final(self)@, r@) == old(self)@.finish(i),
    {
        // Drop any trailing empty posting slots.
        self.truncate(i);
        let ghost was = self@;
        while self.draft.postings.len() > 0 && text::trim(
            self.draft.postings[self.draft.postings.len() - 1].account.as_str(),
            CharClass::White,
        ).is_empty()
            invariant
                trimmed(was.draft.postings) == trimmed(self@.draft.postings),
                self@ == was.with_draft(
                    Entering { postings: self@.draft.postings, ..was.draft },
                ),
            decreases self.draft.postings@.len(),
        {
            let ghost ps = self@.draft.postings;
            let _ = self.draft.postings.pop();
            assert(self@.draft.postings =~= ps.drop_last());
        }
        self.complete_draft()
    }

    /// Validate the drafted postings and produce the finished transaction.
    fn complete_draft(&self) -> (r: Submit)
        ensures
            r@ == self@.finished(),
    {
        if self.draft.postings.len() < 2 {
            return Submit::Invalid(
                "a transaction needs at least two postings (Ctrl-C to abort)".to_owned(),
            );
        }
        // Refuse to write a transaction that provably does not balance.
        // Unknown imbalance (unparseable or elided amounts) passes — entry
        // tool, not validator.

        if !self.has_bare_posting() {
            let amounts = self.draft.committed_amounts();
            if let Some(sums) = amount::imbalance(amounts.as_slice(), &self.ctx.amount_ctx) {
                assert(amount::sums_view(sums@).len() == sums@.len());
                if sums.len() > 0 {
                    let off = self.render_sums(sums.as_slice());
                    return Submit::Invalid(
                        text::cat3("transaction does not balance (off by ", off.as_str(), ")"),
                    );
                }
            }
        }
        match self.draft.date {
            None => Submit::Invalid("no date".to_owned()),
            Some(date) => Submit::Done(
                NewTransaction {
                    date,
                    description: self.draft.description.as_str().to_owned(),
                    comment: self.draft.comment.as_str().to_owned(),
                    postings: self.with_equity_conversions(),
                },
            ),
        }
    }

    /// By how much the draft does not balance, rendered.
    pub(crate) fn render_sums(&self, sums: &[(String, Quantity)]) -> (r: String)
        ensures
            r@ == self@.off_by(amount::sums_view(sums@)),
    {
        let amounts = self.draft.committed_amounts();
        let mut detail: Vec<String> = Vec::new();
        let ghost want = amount::sums_view(sums@).map_values(
            |s: (Seq<char>, Num)|
                restyle::render_like_spec(s.1, s.0, self@.ctx.amounts, self@.draft.amounts()),
        );
        let mut i: usize = 0;
        while i < sums.len()
            invariant
                i <= sums@.len(),
                text::strs(amounts@) == self@.draft.amounts(),
                want == amount::sums_view(sums@).map_values(
                    |s: (Seq<char>, Num)|
                        restyle::render_like_spec(
                            s.1,
                            s.0,
                            self@.ctx.amounts,
                            self@.draft.amounts(),
                        ),
                ),
                text::texts(detail@) =~= want.take(i as int),
            decreases sums@.len() - i,
        {
            let ghost before = text::texts(detail@);
            assert(amount::sums_view(sums@)[i as int] == (
                sums@[i as int].0@,
                sums@[i as int].1@,
            ));
            let s = restyle::render_amount_like(
                sums[i].1,
                sums[i].0.as_str(),
                &self.ctx.amount_ctx,
                amounts.as_slice(),
            );
            assert(want[i as int] == s@);
            detail.push(s);
            assert(text::texts(detail@) =~= before.push(want[i as int]));
            i = i + 1;
        }
        assert(want.take(want.len() as int) =~= want);
        text::join(text::refs(detail.as_slice()).as_slice(), ", ")
    }

    /// Whether some posting has no amount.
    fn has_bare_posting(&self) -> (r: bool)
        ensures
            r == has_bare(self@.draft.postings),
    {
        let ghost ps = self@.draft.postings;
        let mut i: usize = 0;
        while i < self.draft.postings.len()
            invariant
                i <= self.draft.postings@.len(),
                ps == self@.draft.postings,
                forall|k: int| 0 <= k < i ==> !blank((#[trigger] ps[k]).amount),
            decreases self.draft.postings@.len() - i,
        {
            assert(ps[i as int] == self.draft.postings@[i as int]@);
            if text::trim(self.draft.postings[i].amount.as_str(), CharClass::White).is_empty() {
                return true;
            }
            i = i + 1;
        }
        false
    }

    /// Lay out the finished draft's postings, adding the equity conversion
    /// postings its `@`/`@@` costs need.
    ///
    /// Each conversion is written as a group — its own postings, then the
    /// pair of equity postings cancelling its cost — and groups are
    /// separated by a bare `;` line. A posting belonging to no single
    /// conversion, such as one payment funding two of them, is written after
    /// every group rather than assigned to one arbitrarily. Grouping can
    /// reorder the postings; see [`crate::equity::conversion_layout`].
    ///
    /// Unchanged when `equity_conversion` is off, when nothing is converted,
    /// or when any amount does not parse.
    pub fn with_equity_conversions(&self) -> (r: Vec<Posting>)
        ensures
            crate::add::write::new_posts(r@) == self@.with_conversions(),
    {
        let ps = self.draft.postings.as_slice();
        if !self.ctx.config.equity_conversion.is_on() {
            return crate::add::write::copy_posts(ps);
        }
        let amounts = self.draft.committed_amounts();
        let layout = match equity::conversion_layout(
            amounts.as_slice(),
            &self.ctx.amount_ctx,
        ) {
            None => {
                return crate::add::write::copy_posts(ps);
            },
            Some(layout) => layout,
        };
        let account = self.ctx.config.equity_conversion_account.as_str();
        let ghost pv = crate::add::write::new_posts(ps@);
        let ghost sections = sections_of(pv, layout@, account@);
        let trailing = pick_posts(ps, layout.unassigned.as_slice());
        let mut out: Vec<Posting> = Vec::new();
        let mut i: usize = 0;
        assert(crate::add::write::new_posts(out@) =~= separated(sections.take(0)));
        while i < layout.groups.len()
            invariant
                i <= layout.groups@.len(),
                pv == crate::add::write::new_posts(ps@),
                sections == sections_of(pv, layout@, account@),
                crate::add::write::new_posts(out@) == separated(sections.take(i as int)),
            decreases layout.groups@.len() - i,
        {
            let g = &layout.groups[i];
            assert(layout@.groups[i as int] == g@);
            let mut section = pick_posts(ps, g.postings.as_slice());
            push_equity(&mut section, account, g.equity.as_slice());
            assert(crate::add::write::new_posts(section@) == sections[i as int]);
            assert(sections.take(i + 1).drop_last() =~= sections.take(i as int));
            assert(sections.take(i + 1).last() == sections[i as int]);
            push_section(&mut out, i == 0, section);
            assert(crate::add::write::new_posts(out@) =~= separated(sections.take(i + 1)));
            i = i + 1;
        }
        assert(crate::add::write::new_posts(trailing@).len() == trailing@.len());
        assert(layout@.groups.len() == layout.groups@.len());
        if trailing.len() > 0 {
            assert(sections.len() == i + 1);
            assert(sections.take(i + 1).drop_last() =~= sections.take(i as int));
            assert(sections.take(i + 1).last() == crate::add::write::new_posts(trailing@));
            push_section(&mut out, i == 0, trailing);
            assert(crate::add::write::new_posts(out@) =~= separated(sections.take(i + 1)));
        }
        assert(sections.take(sections.len() as int) =~= sections);
        out
    }
}

// ---- what submitting promises ----

/// A transaction that provably does not balance is never finished: it has at
/// least two postings, and where every amount is written and can be read, they
/// cancel out.
pub proof fn a_finished_transaction_balances(s: Sitting)
    requires
        s.finished() is Done,
    ensures
        s.draft.postings.len() >= 2,
        !has_bare(s.draft.postings) && amount::imbalance_spec(
            s.draft.amounts(),
            s.ctx.amounts,
            false,
        ) is Some ==> amount::imbalance_spec(s.draft.amounts(), s.ctx.amounts, false)->0.len()
            == 0,
{
}

/// A rejected field stays where it is: the draft is still at the same field.
pub proof fn a_rejected_field_is_kept(s: Sitting)
    requires
        s.submitted().1 is Invalid || s.submitted().1 is Confirm,
    ensures
        s.submitted().0.draft.field == s.draft.field,
        s.submitted().0.completed == s.completed,
{
    reveal(Sitting::submitted);
}

/// Answering yes never asks again.
pub proof fn yes_is_never_asked_again(s: Sitting)
    ensures
        !(s.confirmed().1 is Confirm),
{
    reveal(Sitting::confirmed);
}

} // verus!
