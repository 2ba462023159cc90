//! The running session: completed transactions plus the current draft, and
//! what is offered while the draft is edited.

use vstd::prelude::*;
use vstd::string::*;
use crate::add::index::{Index, Tally};
use crate::add::ui::complete::{self, Shape};
use crate::add::ui::context::{SessionCtx, Surroundings};
use crate::add::ui::draft::{Draft, Entering};
use crate::add::ui::field::{self, Field};
use crate::add::write::{NewPost, NewTransaction, NewTxn};
use crate::amount::{self, Ctx};
use crate::config::Completion;
use crate::decimal::{self, Num, Quantity};
use crate::restyle;
use crate::text::{self, CharClass};

verus! {

/// What a [`Session`] says.
#[verifier::ext_equal]
pub struct Sitting {
    pub ctx: Surroundings,
    pub completed: Seq<NewTxn>,
    pub draft: Entering,
    pub entered_accounts: Seq<Seq<char>>,
    pub entered_payees: Seq<Seq<char>>,
}

/// The running session: completed transactions plus the current draft.
#[derive(Debug)]
pub struct Session {
    /// Context, immutable but for its indices.
    pub ctx: SessionCtx,
    /// Completed, not-yet-written transactions.
    pub completed: Vec<NewTransaction>,
    /// The draft being edited.
    pub draft: Draft,
    /// Accounts the user has committed to during this session, oldest
    /// first. They complete like any other account, and they stop counting
    /// as new — having accepted `expenses:coffee` once, the user should not
    /// be asked about it again in the same sitting. Undo does not retract
    /// them: the acceptance was deliberate either way.
    pub entered_accounts: Vec<String>,
    /// Descriptions committed to during this session, for the same reason:
    /// having accepted a new payee once, do not ask again in the same
    /// sitting.
    pub entered_payees: Vec<String>,
}

impl View for Session {
    type V = Sitting;

    open spec fn view(&self) -> Sitting {
        Sitting {
            ctx: self.ctx@,
            completed: crate::add::write::new_txns(self.completed@),
            draft: self.draft@,
            entered_accounts: text::texts(self.entered_accounts@),
            entered_payees: text::texts(self.entered_payees@),
        }
    }
}

// ---- pools ----

/// A pool with texts that it lacks put in front, the last of them first of
/// all to be put there.
pub open spec fn fronted(front: Seq<Seq<char>>, pool: Seq<Seq<char>>) -> Seq<Seq<char>>
    decreases front.len(),
{
    if front.len() == 0 {
        pool
    } else {
        fronted(
            front.drop_last(),
            if pool.contains(front.last()) {
                pool
            } else {
                pool.insert(0, front.last())
            },
        )
    }
}

/// The first candidate that holds a text, whatever the case.
pub open spec fn first_containing(pool: Seq<Seq<char>>, lower: Seq<char>) -> Option<Seq<char>>
    decreases pool.len(),
{
    if pool.len() == 0 {
        None
    } else if text::contains_spec(text::lowercase(pool[0]), lower) {
        Some(pool[0])
    } else {
        first_containing(pool.skip(1), lower)
    }
}

/// How far a candidate may be from a name to be offered for it.
pub open spec fn reach(name: Seq<char>) -> nat {
    if name.len() / 2 > 2 {
        name.len() / 2
    } else {
        2
    }
}

/// The commodities and accounts of a transaction's postings.
pub open spec fn posted_spec(ps: Seq<NewPost>, ctx: Ctx) -> Seq<(Seq<char>, Option<Seq<char>>)> {
    ps.map_values(
        |p: NewPost|
            (
                p.account,
                match amount::parse_amount_spec(p.amount, ctx) {
                    Some(a) => if a.commodity.len() > 0 {
                        Some(a.commodity)
                    } else {
                        None
                    },
                    None => None,
                },
            ),
    )
}

/// A completion problem.
#[verifier::ext_equal]
pub struct Question {
    pub style: Completion,
    pub shape: Shape,
    pub text: Seq<char>,
    pub head: Seq<char>,
    pub tail: Seq<char>,
    pub pool: Seq<Seq<char>>,
}

impl Question {
    /// A completed candidate in buffer terms.
    pub open spec fn rejoined(self, candidate: Seq<char>) -> Seq<char> {
        self.head + candidate + self.tail
    }
}

impl Sitting {
    pub open spec fn start(ctx: Surroundings) -> Sitting {
        Sitting {
            ctx,
            completed: Seq::empty(),
            draft: Entering::fresh(),
            entered_accounts: Seq::empty(),
            entered_payees: Seq::empty(),
        }
    }

    /// Accounts to offer for the current draft.
    pub open spec fn account_pool(self) -> Seq<Seq<char>> {
        let payee = self.draft.payee();
        fronted(
            self.entered_accounts,
            self.ctx.account_pool(
                if payee.len() == 0 {
                    None
                } else {
                    Some(payee)
                },
            ),
        )
    }

    pub open spec fn account_known(self, account: Seq<char>) -> bool {
        self.ctx.accounts_visible.contains(account) || self.ctx.used.accounts.contains(account)
            || self.entered_accounts.contains(account)
    }

    pub open spec fn payee_known(self, payee: Seq<char>) -> bool {
        self.ctx.payees_visible.contains(payee) || self.ctx.used.payees.contains(payee)
            || self.entered_payees.contains(payee)
    }

    /// A close existing payee: one that holds the name, else a near one.
    pub open spec fn near_payee(self, name: Seq<char>) -> Option<Seq<char>> {
        let pool = self.ctx.payee_pool();
        let lower = text::lowercase(name);
        if lower.len() == 0 {
            None
        } else {
            match first_containing(pool, lower) {
                Some(c) => Some(c),
                None => match field::nearest_spec(lower, pool) {
                    Some(best) => if best.0 <= reach(name) {
                        Some(best.1)
                    } else {
                        None
                    },
                    None => None,
                },
            }
        }
    }

    /// A close existing account: the nearest one, if it is near or the name
    /// abbreviates it segment by segment.
    pub open spec fn near_miss(self, name: Seq<char>) -> Option<Seq<char>> {
        match field::first_nearest(text::lowercase(name), self.ctx.account_pool(None)) {
            None => None,
            Some(best) => if complete::quality_spec(
                Completion::Prefix,
                Shape::Account,
                name,
                best.1,
            ) is Some || best.0 <= reach(name) {
                Some(best.1)
            } else {
                None
            },
        }
    }

    /// The indices over the journal and what is completed.
    pub open spec fn tally_of(ctx: Surroundings, completed: Seq<NewTxn>) -> Tally
        decreases completed.len(),
    {
        if completed.len() == 0 {
            Tally::of(ctx.book.transactions, ctx.today)
        } else {
            let t = completed.last();
            Sitting::tally_of(ctx, completed.drop_last()).with(
                t.date,
                t.description,
                posted_spec(t.postings, ctx.amounts),
                ctx.today,
            )
        }
    }

    /// With fresh indices and a fresh draft.
    pub open spec fn renewed(self) -> Sitting {
        Sitting {
            ctx: Surroundings { tally: Sitting::tally_of(self.ctx, self.completed), ..self.ctx },
            draft: Entering::fresh(),
            ..self
        }
    }

    // ---- what is suggested ----

    /// The amounts of the other postings.
    pub open spec fn others(self, i: usize) -> Seq<Seq<char>> {
        let all = self.draft.amounts();
        if i < all.len() {
            all.remove(i as int)
        } else {
            all
        }
    }

    /// The amount that balances the other postings.
    pub open spec fn balancing(self, i: usize) -> Option<Seq<char>> {
        match amount::imbalance_spec(self.others(i), self.ctx.amounts, false) {
            None => None,
            Some(sums) => if sums.len() != 1 {
                None
            } else {
                match decimal::difference_of(Num::zero(), sums[0].1) {
                    None => None,
                    Some(n) => Some(
                        restyle::render_like_spec(
                            n,
                            if sums[0].0.len() > 0 {
                                sums[0].0
                            } else {
                                match self.ctx.symbol() {
                                    Some(s) => s,
                                    None => Seq::empty(),
                                }
                            },
                            self.ctx.amounts,
                            self.others(i),
                        ),
                    ),
                }
            },
        }
    }

    /// The template's amount for a posting, where its account is kept.
    pub open spec fn template_amount(self, i: usize) -> Option<Seq<char>> {
        let account = if i < self.draft.postings.len() {
            self.draft.postings[i as int].account
        } else {
            Seq::empty()
        };
        if i < self.draft.template.len() && self.draft.template[i as int].0 == account
            && self.draft.template[i as int].1.len() > 0 {
            Some(self.draft.template[i as int].1)
        } else {
            None
        }
    }

    /// The amount to propose: on the template's last posting the balancing
    /// amount before the template's, else the other way round.
    pub open spec fn amount_prefill(self, i: usize) -> Option<Seq<char>> {
        if field::bounded(i + 1) >= self.draft.template.len() {
            match self.balancing(i) {
                Some(a) => Some(a),
                None => self.template_amount(i),
            }
        } else {
            match self.template_amount(i) {
                Some(a) => Some(a),
                None => self.balancing(i),
            }
        }
    }

    /// The ghost suggestion for an empty field.
    pub open spec fn suggestion(self) -> Option<Seq<char>> {
        let some = if self.draft.buffer.len() > 0 {
            None
        } else {
            match self.draft.field {
                Field::Date => Some(
                    (match self.draft.date {
                        Some(d) => d,
                        None => self.ctx.today,
                    }).text(),
                ),
                Field::Amount(i) => self.amount_prefill(i),
                Field::Account(i) => if !self.draft.account_refused && i
                    < self.draft.template.len() {
                    Some(self.draft.template[i as int].0)
                } else {
                    None
                },
                Field::Description => None,
            }
        };
        match some {
            Some(s) => if s.len() > 0 {
                Some(s)
            } else {
                None
            },
            None => None,
        }
    }

    // ---- completion ----

    /// Tag-name completion in the comment tail of the buffer.
    pub open spec fn tag_question(self) -> Option<Question> {
        match text::find_spec(self.draft.buffer, CharClass::Is(';')) {
            None => None,
            Some(at) => match field::tag_query_spec(self.draft.buffer.skip(at + 1)) {
                None => None,
                Some(q) => Some(
                    Question {
                        style: self.ctx.setup.description_matching.completion_spec(),
                        shape: Shape::Plain,
                        text: q.1,
                        head: self.draft.buffer.take(at + 1) + q.0,
                        tail: ":"@,
                        pool: self.ctx.tag_pool(),
                    },
                ),
            },
        }
    }

    /// The completion problem of the field itself.
    pub open spec fn field_question(self) -> Option<Question> {
        let query = text::trim_spec(self.draft.buffer, CharClass::White);
        match self.draft.field {
            Field::Date => None,
            Field::Description => Some(
                Question {
                    style: self.ctx.setup.description_matching.completion_spec(),
                    shape: Shape::Plain,
                    text: query,
                    head: Seq::empty(),
                    tail: Seq::empty(),
                    pool: self.ctx.description_pool(),
                },
            ),
            Field::Account(_) => Some(
                Question {
                    style: self.ctx.setup.account_matching.completion_spec(),
                    shape: Shape::Account,
                    text: query,
                    head: Seq::empty(),
                    tail: Seq::empty(),
                    pool: self.account_pool(),
                },
            ),
            Field::Amount(_) => match field::commodity_query_spec(query) {
                None => None,
                Some(q) => Some(
                    Question {
                        style: Completion::Prefix,
                        shape: Shape::Plain,
                        text: q.1,
                        head: if q.0.len() == 0 {
                            Seq::empty()
                        } else {
                            q.0.push(' ')
                        },
                        tail: Seq::empty(),
                        pool: self.ctx.commodity_pool(),
                    },
                ),
            },
        }
    }

    /// The completion problem posed by the current field. Past a `;` the
    /// buffer is comment text, and what completes there is a tag name.
    pub open spec fn question(self) -> Option<Question> {
        if self.draft.field != Field::Date && self.tag_question() is Some {
            self.tag_question()
        } else {
            self.field_question()
        }
    }

    /// The completion candidates, best first.
    pub open spec fn candidates(self) -> Seq<Seq<char>> {
        match self.question() {
            None => Seq::empty(),
            Some(q) => complete::filter_ranked_spec(q.style, q.shape, q.text, q.pool).map_values(
                |c: Seq<char>| q.rejoined(c),
            ),
        }
    }

    /// What Tab puts in the buffer.
    pub open spec fn completed_buffer(self) -> Option<Seq<char>> {
        match self.question() {
            None => None,
            Some(q) => match complete::complete_spec(q.style, q.shape, q.text, q.pool) {
                None => None,
                Some(c) => if q.rejoined(c) == self.draft.buffer {
                    None
                } else {
                    Some(q.rejoined(c))
                },
            },
        }
    }
}

/// The completion problem for one field: which style and candidate shape
/// apply, the part of the buffer being completed, and the text that has to
/// go back in front of the result (only the amount field, which completes
/// the trailing commodity of `12.00 EUR @ USD`).
struct CompletionQuery {
    style: Completion,
    shape: Shape,
    text: String,
    /// Literal text preceding the completed part, including any separator.
    head: String,
    /// Literal text appended after it — a tag name's `:`.
    tail: String,
    pool: Vec<String>,
}

impl View for CompletionQuery {
    type V = Question;

    closed spec fn view(&self) -> Question {
        Question {
            style: self.style,
            shape: self.shape,
            text: self.text@,
            head: self.head@,
            tail: self.tail@,
            pool: text::texts(self.pool@),
        }
    }
}

spec fn opt_question(o: Option<CompletionQuery>) -> Option<Question> {
    match o {
        Some(q) => Some(q@),
        None => None,
    }
}

impl CompletionQuery {
    /// Put a completed candidate back into buffer terms.
    fn rejoin(&self, candidate: &str) -> (r: String)
        ensures
            r@ == self@.rejoined(candidate@),
    {
        text::cat3(self.head.as_str(), candidate, self.tail.as_str())
    }
}

impl Session {
    /// Start a session.
    #[must_use]
    pub fn new(ctx: SessionCtx) -> (r: Self)
        ensures
            r@ == Sitting::start(ctx@),
    {
        let r = Session {
            ctx,
            completed: Vec::new(),
            draft: Draft::new(),
            entered_accounts: Vec::new(),
            entered_payees: Vec::new(),
        };
        assert(r@ =~= Sitting::start(ctx@));
        r
    }

    /// The account completion pool: the journal's, with accounts introduced
    /// in this session and not yet in the index put in front — they are the
    /// freshest thing the user could want.
    #[must_use]
    pub fn account_pool(&self) -> (r: Vec<String>)
        ensures
            text::texts(r@) == self@.account_pool(),
    {
        let payee = self.draft.payee();
        let mut pool = self.ctx.account_pool(
            if payee.is_empty() {
                None
            } else {
                Some(payee)
            },
        );
        let ghost all = self@.entered_accounts;
        let mut i: usize = self.entered_accounts.len();
        assert(all.take(i as int) =~= all);
        while i > 0
            invariant
                i <= self.entered_accounts@.len(),
                all == self@.entered_accounts,
                self@.account_pool() == fronted(all.take(i as int), text::texts(pool@)),
            decreases i,
        {
            i = i - 1;
            let ghost before = text::texts(pool@);
            assert(all.take(i + 1).drop_last() =~= all.take(i as int));
            assert(all.take(i + 1).last() == self.entered_accounts@[i as int]@);
            let a = self.entered_accounts[i].as_str();
            if !text::has_text(pool.as_slice(), a) {
                pool.insert(0, a.to_owned());
                assert(text::texts(pool@) =~= before.insert(0, a@));
            }
        }
        pool
    }

    /// Whether `account` is already known: declared, used in the journal, or
    /// entered earlier in this session.
    pub(crate) fn account_known(&self, account: &str) -> (r: bool)
        ensures
            r == self@.account_known(account@),
    {
        text::has_text(self.ctx.declared_accounts_visible.as_slice(), account) || text::has_text(
            self.ctx.used_accounts.as_slice(),
            account,
        ) || text::has_text(self.entered_accounts.as_slice(), account)
    }

    /// Whether `payee` is already known — the same three sources.
    pub fn payee_known(&self, payee: &str) -> (r: bool)
        ensures
            r == self@.payee_known(payee@),
    {
        text::has_text(self.ctx.declared_payees_visible.as_slice(), payee) || text::has_text(
            self.ctx.used_payees.as_slice(),
            payee,
        ) || text::has_text(self.entered_payees.as_slice(), payee)
    }

    /// A close existing payee, for "did you mean". Descriptions are plain
    /// text, so this is edit distance only — there are no segments to match.
    #[must_use]
    pub fn near_payee(&self, name: &str) -> (r: Option<String>)
        ensures
            text::opt_text(r) == self@.near_payee(name@),
    {
        let pool = self.ctx.payee_pool();
        let lower = text::to_lower(name);
        if lower.as_str().is_empty() {
            return None;
        }
        // Containment is checked *first*, and deliberately so: `bahn` sits at
        // edit distance 9 from `Deutsche Bahn` — further than several
        // unrelated payees — so ranking by distance alone would answer with
        // whichever short name happened to be nearest and miss the one case
        // this hint exists for. The pool is frecency-ordered, so the first
        // containing candidate is the likeliest.

        let ghost all = text::texts(pool@);
        let mut i: usize = 0;
        assert(all.skip(0) =~= all);
        while i < pool.len()
            invariant
                i <= pool@.len(),
                all == text::texts(pool@),
                all == self@.ctx.payee_pool(),
                lower@ == text::lowercase(name@),
                lower@.len() > 0,
                first_containing(all, lower@) == first_containing(all.skip(i as int), lower@),
            decreases pool@.len() - i,
        {
            assert(all.skip(i as int)[0] == pool@[i as int]@);
            let low = text::to_lower(pool[i].as_str());
            if text::contains(low.as_str(), lower.as_str()) {
                return Some(pool[i].as_str().to_owned());
            }
            assert(all.skip(i as int).skip(1) =~= all.skip(i + 1));
            i = i + 1;
        }
        match field::nearest(lower.as_str(), pool.as_slice(), true) {
            Some(best) => if best.0 <= reach_of(name) {
                Some(best.1.to_owned())
            } else {
                None
            },
            None => None,
        }
    }

    /// A close existing account name, for "did you mean".
    #[must_use]
    pub fn near_miss(&self, name: &str) -> (r: Option<String>)
        ensures
            text::opt_text(r) == self@.near_miss(name@),
    {
        let pool = self.ctx.account_pool(None);
        let lower = text::to_lower(name);
        match field::nearest(lower.as_str(), pool.as_slice(), false) {
            None => None,
            Some(best) => {
                // Also accept segment near-misses like `exp:trav` for
                // `expenses:travel:train`, which levenshtein alone would miss.
                let segmentish = complete::match_quality(
                    Completion::Prefix,
                    Shape::Account,
                    name,
                    best.1,
                ).is_some();
                if segmentish || best.0 <= reach_of(name) {
                    Some(best.1.to_owned())
                } else {
                    None
                }
            },
        }
    }

    /// Rebuild the indices over the journal plus everything completed so
    /// far, so a description or commodity entered this session completes in
    /// the next transaction. Cheap enough to redo wholesale, which keeps
    /// undo correct for free.
    fn reindex(&mut self)
        ensures
            final(self)@ == (Sitting {
                ctx: Surroundings {
                    tally: Sitting::tally_of(old(self)@.ctx, old(self)@.completed),
                    ..old(self)@.ctx
                },
                ..old(self)@
            }),
    {
        let ghost was = self@;
        let today = self.ctx.today;
        let mut index = Index::build(&self.ctx.journal, today);
        let ghost all = self@.completed;
        let mut i: usize = 0;
        assert(all.take(0) =~= Seq::empty());
        while i < self.completed.len()
            invariant
                i <= self.completed@.len(),
                all == self@.completed,
                self@ == was,
                today@ == was.ctx.today,
                index@ == Sitting::tally_of(was.ctx, all.take(i as int)),
            decreases self.completed@.len() - i,
        {
            let t = &self.completed[i];
            assert(all.take(i + 1).drop_last() =~= all.take(i as int));
            assert(all.take(i + 1).last() == t@);
            let mut ps: Vec<(String, Option<String>)> = Vec::new();
            let ghost want = posted_spec(t@.postings, was.ctx.amounts);
            let mut j: usize = 0;
            while j < t.postings.len()
                invariant
                    j <= t.postings@.len(),
                    self@ == was,
                    want == posted_spec(t@.postings, was.ctx.amounts),
                    crate::add::index::posted(ps@) =~= want.take(j as int),
                decreases t.postings@.len() - j,
            {
                let ghost before = crate::add::index::posted(ps@);
                let p = &t.postings[j];
                let commodity = match amount::parse_amount(
                    p.amount.as_str(),
                    &self.ctx.amount_ctx,
                ) {
                    Some(a) => if a.commodity.as_str().is_empty() {
                        None
                    } else {
                        Some(a.commodity)
                    },
                    None => None,
                };
                assert(want[j as int] == (p.account@, text::opt_text(commodity)));
                ps.push((p.account.as_str().to_owned(), commodity));
                assert(crate::add::index::posted(ps@) =~= before.push(want[j as int]));
                j = j + 1;
            }
            assert(want.take(want.len() as int) =~= want);
            index.bump_session(t.date, t.description.as_str(), ps.as_slice(), today);
            i = i + 1;
        }
        assert(all.take(all.len() as int) =~= all);
        self.ctx.index = index;
    }

    /// Reset to a fresh draft at the date prompt (today ghost-suggested).
    pub fn reset_draft(&mut self)
        ensures
            final(self)@ == (Sitting { draft: Entering::fresh(), ..old(self)@ }),
    {
        self.draft = Draft::new();
    }

    /// Record a finished transaction and reset for the next one.
    pub fn complete(&mut self, txn: NewTransaction)
        ensures
            final(self)@ == (Sitting {
                completed: old(self)@.completed.push(txn@),
                ..old(self)@
            }).renewed(),
    {
        let ghost before = crate::add::write::new_txns(self.completed@);
        let ghost tv = txn@;
        self.completed.push(txn);
        assert(crate::add::write::new_txns(self.completed@) =~= before.push(tv));
        self.reindex();
        self.reset_draft();
    }

    /// Undo the last completed transaction. Returns it, if any.
    pub fn undo(&mut self) -> (r: Option<NewTransaction>)
        ensures
            (match r {
                Some(t) => Some(t@),
                None => None,
            }) == (if old(self)@.completed.len() == 0 {
                None
            } else {
                Some(old(self)@.completed.last())
            }),
            final(self)@ == (Sitting {
                completed: if old(self)@.completed.len() == 0 {
                    old(self)@.completed
                } else {
                    old(self)@.completed.drop_last()
                },
                ..old(self)@
            }).renewed(),
    {
        let ghost before = crate::add::write::new_txns(self.completed@);
        let t = self.completed.pop();
        assert(crate::add::write::new_txns(self.completed@) =~= if before.len() == 0 {
            before
        } else {
            before.drop_last()
        });
        self.reindex();
        self.reset_draft();
        t
    }

    /// The ghost suggestion for the current (empty) field, shown dimmed
    /// after the cursor. Tab or `→` copies it into the buffer for editing;
    /// Enter submits the empty buffer instead — which itself means the
    /// suggested date at the date prompt, and the explicit balancing amount
    /// at a final amount prompt.
    #[must_use]
    pub fn suggestion(&self) -> (r: Option<String>)
        ensures
            text::opt_text(r) == self@.suggestion(),
    {
        if !self.draft.buffer.as_str().is_empty() {
            return None;
        }
        let some = match self.draft.field {
            Field::Date => Some(
                (match self.draft.date {
                    Some(d) => d,
                    None => self.ctx.today,
                }).to_text(),
            ),
            Field::Amount(i) => self.amount_prefill(i),
            // The template's account for this posting. It used to be
            // written into the buffer as pre-filled text, which read as
            // something already entered while behaving like a suggestion:
            // white, yet wiped wholesale by the first keystroke. Ghosting it
            // makes appearance and behaviour agree — dim text is a proposal,
            // buffer text is yours.
            Field::Account(i) => if !self.draft.account_refused && i < self.draft.template.len() {
                Some(self.draft.template[i].0.as_str().to_owned())
            } else {
                None
            },
            // The description suggests nothing.
            Field::Description => None,
        };
        match some {
            Some(s) => if s.as_str().is_empty() {
                None
            } else {
                Some(s)
            },
            None => None,
        }
    }

    /// Template amount when the account matches; otherwise the negated
    /// running sum (the balancing amount), when it is known and nonzero.
    fn amount_prefill(&self, i: usize) -> (r: Option<String>)
        ensures
            text::opt_text(r) == self@.amount_prefill(i),
    {
        let template = if i < self.draft.template.len() {
            let t = &self.draft.template[i];
            let kept = if i < self.draft.postings.len() {
                text::same(t.0.as_str(), self.draft.postings[i].account.as_str())
            } else {
                t.0.as_str().is_empty()
            };
            assert(t.0@.len() == 0 ==> t.0@ =~= Seq::<char>::empty());
            if kept && !t.1.as_str().is_empty() {
                Some(t.1.as_str().to_owned())
            } else {
                None
            }
        } else {
            None
        };
        assert(text::opt_text(template) == self@.template_amount(i));
        let balancing = self.balancing_prefill(i);
        // On the template's *last* posting the balancing sum is the better
        // prediction ("the final posting's amount is pre-filled with the
        // negated running sum"); earlier template postings keep their
        // amounts verbatim.
        if field::next(i) >= self.draft.template.len() {
            if balancing.is_some() {
                balancing
            } else {
                template
            }
        } else if template.is_some() {
            template
        } else {
            balancing
        }
    }

    /// The negated sum over the *other* postings, rendered — the balancing
    /// amount. `None` when it is unknown, zero, or spans commodities.
    pub(crate) fn balancing_prefill(&self, i: usize) -> (r: Option<String>)
        ensures
            text::opt_text(r) == self@.balancing(i),
    {
        let mut amounts = self.draft.committed_amounts();
        let ghost all = self@.draft.amounts();
        assert(text::strs(amounts@).len() == amounts@.len());
        if i < amounts.len() {
            let _ = amounts.remove(i);
            assert(text::strs(amounts@) =~= all.remove(i as int));
        }
        let sums = match amount::imbalance(amounts.as_slice(), &self.ctx.amount_ctx) {
            None => {
                return None;
            },
            Some(sums) => sums,
        };
        assert(amount::sums_view(sums@).len() == sums@.len());
        if sums.len() != 1 {
            return None;
        }
        assert(amount::sums_view(sums@)[0] == (sums@[0].0@, sums@[0].1@));
        let negated = match Quantity::zero().checked_difference(sums[0].1) {
            None => {
                return None;
            },
            Some(n) => n,
        };
        let commodity = if sums[0].0.as_str().is_empty() {
            match self.ctx.default_commodity_symbol() {
                Some(s) => s,
                None => String::new(),
            }
        } else {
            sums[0].0.as_str().to_owned()
        };
        // The other postings settle how this commodity is written when no
        // `commodity` directive does, so `$10` balances with `$-10`.
        Some(
            restyle::render_amount_like(
                negated,
                commodity.as_str(),
                &self.ctx.amount_ctx,
                amounts.as_slice(),
            ),
        )
    }

    /// Ranked completion candidates for the current field and buffer.
    #[must_use]
    pub fn candidates(&self) -> (r: Vec<String>)
        ensures
            text::texts(r@) == self@.candidates(),
    {
        let mut out: Vec<String> = Vec::new();
        let q = match self.completion_query() {
            None => {
                assert(text::texts(out@) =~= Seq::empty());
                return out;
            },
            Some(q) => q,
        };
        let refs = text::refs(q.pool.as_slice());
        let found = complete::filter_ranked(q.style, q.shape, q.text.as_str(), refs.as_slice());
        let ghost want = self@.candidates();
        assert(want == text::strs(found@).map_values(|c: Seq<char>| q@.rejoined(c)));
        let mut i: usize = 0;
        while i < found.len()
            invariant
                i <= found@.len(),
                want == text::strs(found@).map_values(|c: Seq<char>| q@.rejoined(c)),
                text::texts(out@) =~= want.take(i as int),
            decreases found@.len() - i,
        {
            let ghost before = text::texts(out@);
            let s = q.rejoin(found[i]);
            assert(want[i as int] == s@);
            out.push(s);
            assert(text::texts(out@) =~= before.push(want[i as int]));
            i = i + 1;
        }
        assert(want.take(want.len() as int) =~= want);
        out
    }

    /// What Tab should put in the buffer, or `None` when completion makes no
    /// progress and the menu should open instead.
    #[must_use]
    pub fn complete_buffer(&self) -> (r: Option<String>)
        ensures
            text::opt_text(r) == self@.completed_buffer(),
    {
        let q = match self.completion_query() {
            None => {
                return None;
            },
            Some(q) => q,
        };
        let refs = text::refs(q.pool.as_slice());
        match complete::complete(q.style, q.shape, q.text.as_str(), refs.as_slice()) {
            None => None,
            Some(c) => {
                let out = q.rejoin(c.as_str());
                if text::same(out.as_str(), self.draft.buffer.as_str()) {
                    None
                } else {
                    Some(out)
                }
            },
        }
    }

    /// Tag-name completion for the comment tail of the buffer, when there is
    /// one. Only the tag *name* completes: a value is free text, and offering
    /// candidates for it would be guessing.
    fn tag_query(&self) -> (r: Option<CompletionQuery>)
        ensures
            opt_question(r) == self@.tag_question(),
    {
        let buffer = self.draft.buffer.as_str();
        match text::find(buffer, CharClass::Is(';')) {
            None => None,
            Some(at) => {
                proof {
                    text::lemma_run(buffer@, CharClass::Is(';'), false);
                }
                match field::split_tag_query(text::suffix(buffer, at + 1)) {
                    None => None,
                    Some(q) => Some(
                        CompletionQuery {
                            style: self.ctx.config.description_matching.completion(),
                            shape: Shape::Plain,
                            text: q.1.to_owned(),
                            head: text::cat(text::prefix(buffer, at + 1), q.0),
                            // Completing a tag name commits to it being a tag.
                            tail: ":".to_owned(),
                            pool: self.ctx.tag_pool(),
                        },
                    ),
                }
            },
        }
    }

    /// The completion problem posed by the current field.
    fn completion_query(&self) -> (r: Option<CompletionQuery>)
        ensures
            opt_question(r) == self@.question(),
    {
        // Past a `;` the buffer is comment text whatever field it belongs to,
        // and what completes there is a tag name.
        if self.draft.field.takes_comment() {
            let tag = self.tag_query();
            if tag.is_some() {
                return tag;
            }
        }
        let query = text::trim(self.draft.buffer.as_str(), CharClass::White);
        match self.draft.field {
            Field::Date => None,
            Field::Description => Some(
                CompletionQuery {
                    style: self.ctx.config.description_matching.completion(),
                    // A `:` in a description is ordinary text, never a segment
                    // break — hledger's payee separator is `|`.
                    shape: Shape::Plain,
                    text: query.to_owned(),
                    head: String::new(),
                    tail: String::new(),
                    pool: self.ctx.description_pool(),
                },
            ),
            Field::Account(_) => Some(
                CompletionQuery {
                    style: self.ctx.config.account_matching.completion(),
                    shape: Shape::Account,
                    text: query.to_owned(),
                    head: String::new(),
                    tail: String::new(),
                    pool: self.account_pool(),
                },
            ),
            Field::Amount(_) => {
                // Commodities — the face commodity and equally the second
                // one after a cost or assertion tail.
                match field::split_commodity_query(query) {
                    None => None,
                    Some(q) => {
                        let mut head = q.0.to_owned();
                        if !q.0.is_empty() {
                            head.push(' ');
                        }
                        assert(head@ =~= if q.0@.len() == 0 {
                            Seq::empty()
                        } else {
                            q.0@.push(' ')
                        });
                        Some(
                            CompletionQuery {
                                style: Completion::Prefix,
                                shape: Shape::Plain,
                                text: q.1.to_owned(),
                                head,
                                tail: String::new(),
                                pool: self.ctx.commodity_pool(),
                            },
                        )
                    },
                }
            },
        }
    }
}

/// How far a candidate may be from a name to be offered for it.
fn reach_of(name: &str) -> (r: usize)
    ensures
        r == reach(name@),
{
    let half: usize = text::count(name) / 2;
    if half > 2 {
        half
    } else {
        2
    }
}

/// Undoing a completed transaction takes back everything that completing it
/// did to the session, whatever was being entered.
pub proof fn undoing_reverses_completing(s: Sitting, txn: NewTxn)
    ensures
        ({
            let done = (Sitting { completed: s.completed.push(txn), ..s }).renewed();
            (Sitting { completed: done.completed.drop_last(), ..done }).renewed()
                == s.renewed()
        }),
{
    let done = (Sitting { completed: s.completed.push(txn), ..s }).renewed();
    assert(done.completed.drop_last() =~= s.completed);
    lemma_tally_needs_no_tally(s.ctx, done.ctx, s.completed);
}

/// The indices are built from the journal, not from earlier indices.
proof fn lemma_tally_needs_no_tally(a: Surroundings, b: Surroundings, completed: Seq<NewTxn>)
    requires
        a.book == b.book,
        a.today == b.today,
        a.amounts == b.amounts,
    ensures
        Sitting::tally_of(a, completed) == Sitting::tally_of(b, completed),
    decreases completed.len(),
{
    if completed.len() > 0 {
        lemma_tally_needs_no_tally(a, b, completed.drop_last());
    }
}

} // verus!
