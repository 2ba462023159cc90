//! What a session knows before anything is typed.

use vstd::prelude::*;
use vstd::string::*;
use crate::add::filemap::FileMap;
use crate::add::index::{self, Index, Tally};
use crate::add::parser::{self, Book, CommodityRead, Decl, Journal, PostingRead, Txn};
use crate::add::scope;
use crate::add::ui::field;
use crate::amount::{self, AmountCtx, Ctx};
use crate::config::{Config, Setup};
use crate::date::{Date, Day};
use crate::lex;
use crate::text::{self, CharClass};

verus! {

/// What a [`SessionCtx`] says.
#[verifier::ext_equal]
pub struct Surroundings {
    pub book: Book,
    pub tally: Tally,
    pub setup: Setup,
    pub amounts: Ctx,
    pub today: Day,
    pub target: Seq<char>,
    pub acc_w: nat,
    pub num_w: nat,
    pub accounts_visible: Seq<Seq<char>>,
    pub commodities_visible: Seq<Seq<char>>,
    pub payees_visible: Seq<Seq<char>>,
    pub used: Usage,
    pub declared_payees: Seq<Seq<char>>,
    pub declared_tags: Seq<Seq<char>>,
    pub declared_accounts: Seq<Seq<char>>,
    pub strict: bool,
    pub default_commodity: Option<Seq<char>>,
}

/// The names that transactions use, each once.
#[verifier::ext_equal]
pub struct Usage {
    pub accounts: Seq<Seq<char>>,
    pub commodities: Seq<Seq<char>>,
    pub payees: Seq<Seq<char>>,
    pub tags: Seq<Seq<char>>,
}

/// Session-wide immutable context assembled at startup.
#[derive(Debug)]
pub struct SessionCtx {
    /// The parsed journal.
    pub journal: Journal,
    /// Frecency indices.
    pub index: Index,
    /// Resolved configuration.
    pub config: Config,
    /// Amount parsing context at the insertion point.
    pub amount_ctx: AmountCtx,
    /// Today, fixed at startup.
    pub today: Date,
    /// The write-target file.
    pub target: String,
    /// File-wide widths of the target, for the live preview.
    pub acc_w: usize,
    /// See `acc_w`.
    pub num_w: usize,
    /// Account declarations visible at the insertion point — what `hledger
    /// check accounts` would accept there. The strict check tests against
    /// these.
    pub declared_accounts_visible: Vec<String>,
    /// Every account used in a transaction anywhere in the tree. An account
    /// in here is not *new*, even if undeclared.
    pub used_accounts: Vec<String>,
    /// Commodity declarations visible at the insertion point, for the strict
    /// commodity check.
    pub declared_commodities_visible: Vec<String>,
    /// Every commodity seen in a posting.
    pub used_commodities: Vec<String>,
    /// Payee declarations visible at the insertion point — what `hledger
    /// check payees` would accept there.
    pub declared_payees_visible: Vec<String>,
    /// Every *payee* used by a transaction anywhere in the tree — the payee
    /// half of its description. A payee in here is not new, even if
    /// undeclared.
    pub used_payees: Vec<String>,
    /// Declared payees (full pool, for completion).
    pub declared_payees: Vec<String>,
    /// Declared tag names (full pool, for completion inside comments).
    pub declared_tags: Vec<String>,
    /// Tag names seen in comments anywhere in the tree.
    pub used_tags: Vec<String>,
    /// Declared accounts (full pool — offering a name is harmless even when
    /// it is declared below the insertion point).
    pub declared_accounts: Vec<String>,
    /// Strict mode: prompt before using undeclared accounts/commodities.
    pub strict: bool,
    /// The configured default commodity.
    pub default_commodity: Option<String>,
}

impl View for SessionCtx {
    type V = Surroundings;

    open spec fn view(&self) -> Surroundings {
        Surroundings {
            book: self.journal@,
            tally: self.index@,
            setup: self.config@,
            amounts: self.amount_ctx@,
            today: self.today@,
            target: self.target@,
            acc_w: self.acc_w as nat,
            num_w: self.num_w as nat,
            accounts_visible: text::texts(self.declared_accounts_visible@),
            commodities_visible: text::texts(self.declared_commodities_visible@),
            payees_visible: text::texts(self.declared_payees_visible@),
            used: Usage {
                accounts: text::texts(self.used_accounts@),
                commodities: text::texts(self.used_commodities@),
                payees: text::texts(self.used_payees@),
                tags: text::texts(self.used_tags@),
            },
            declared_payees: text::texts(self.declared_payees@),
            declared_tags: text::texts(self.declared_tags@),
            declared_accounts: text::texts(self.declared_accounts@),
            strict: self.strict,
            default_commodity: text::opt_text(self.default_commodity),
        }
    }
}

impl Usage {
    pub open spec fn none() -> Usage {
        Usage {
            accounts: Seq::empty(),
            commodities: Seq::empty(),
            payees: Seq::empty(),
            tags: Seq::empty(),
        }
    }

    /// With the names of a posting.
    pub open spec fn with_posting(self, p: PostingRead) -> Usage {
        Usage {
            accounts: scope::with_new(self.accounts, seq![p.account]),
            commodities: match p.commodity {
                Some(c) => scope::with_new(self.commodities, seq![c]),
                None => self.commodities,
            },
            tags: scope::with_new(self.tags, field::tags_spec(p.comment)),
            ..self
        }
    }

    /// With the names of postings.
    pub open spec fn with_postings(self, ps: Seq<PostingRead>) -> Usage
        decreases ps.len(),
    {
        if ps.len() == 0 {
            self
        } else {
            self.with_postings(ps.drop_last()).with_posting(ps.last())
        }
    }

    /// With the names of a transaction.
    pub open spec fn with(self, t: Txn) -> Usage {
        let headed = Usage {
            payees: if t.description.len() == 0 {
                self.payees
            } else {
                scope::with_new(
                    self.payees,
                    seq![lex::split_payee_note_spec(t.description).0],
                )
            },
            tags: scope::with_new(self.tags, field::tags_spec(t.comment)),
            ..self
        };
        headed.with_postings(t.postings)
    }

    /// The names that transactions use.
    pub open spec fn of(ts: Seq<Txn>) -> Usage
        decreases ts.len(),
    {
        if ts.len() == 0 {
            Usage::none()
        } else {
            Usage::of(ts.drop_last()).with(ts.last())
        }
    }
}

/// The commodities declared before a position.
pub open spec fn commodities_before(cs: Seq<CommodityRead>, pos: usize) -> Seq<Seq<char>>
    decreases cs.len(),
{
    if cs.len() == 0 {
        Seq::empty()
    } else if cs.last().pos < pos {
        commodities_before(cs.drop_last(), pos).push(cs.last().name)
    } else {
        commodities_before(cs.drop_last(), pos)
    }
}

/// The names of declarations.
pub open spec fn names_of(ds: Seq<Decl>) -> Seq<Seq<char>> {
    ds.map_values(|d: Decl| d.name)
}

/// The commodity that a sample of the default commodity names.
pub open spec fn symbol_spec(sample: Option<Seq<char>>, ctx: Ctx) -> Option<Seq<char>> {
    match sample {
        None => None,
        Some(s) => {
            let t = text::trim_spec(s, CharClass::White);
            let bare = if t.len() > 0 && !text::any_spec(t, CharClass::Digit) {
                Some(t)
            } else {
                None
            };
            match amount::parse_amount_spec(s, ctx) {
                Some(p) => if p.commodity.len() > 0 {
                    Some(p.commodity)
                } else {
                    bare
                },
                None => bare,
            }
        },
    }
}

impl Surroundings {
    /// The position at which text appended to the target stands, and the
    /// decimal mark in effect there.
    pub open spec fn insertion(book: Book, target: Seq<char>) -> (usize, Option<char>) {
        match parser::index_spec(book.files, target) {
            Some(i) => (book.files[i].eof_pos, book.files[i].state_at_eof.decimal_mark),
            None => (usize::MAX, None),
        }
    }

    /// The surroundings of a session.
    pub open spec fn of(
        book: Book,
        setup: Setup,
        today: Day,
        target: Seq<char>,
        acc_w: nat,
        num_w: nat,
    ) -> Surroundings {
        let at = Surroundings::insertion(book, target);
        Surroundings {
            book,
            tally: Tally::of(book.transactions, today),
            setup,
            amounts: Ctx { decimal_mark: at.1, ..book.styles_between(0, at.0) },
            today,
            target,
            acc_w,
            num_w,
            accounts_visible: parser::visible_at_spec(book.accounts, at.0),
            commodities_visible: commodities_before(book.commodities, at.0),
            payees_visible: parser::visible_at_spec(book.payees, at.0),
            used: Usage::of(book.transactions),
            declared_payees: names_of(book.payees),
            declared_tags: names_of(book.tags),
            declared_accounts: names_of(book.accounts),
            strict: setup.strict,
            default_commodity: setup.default_commodity,
        }
    }

    /// Descriptions to offer, best first.
    pub open spec fn description_pool(self) -> Seq<Seq<char>> {
        scope::with_new(
            index::ranked_spec(self.tally.descriptions, Seq::empty()),
            self.declared_payees,
        )
    }

    /// Payees to offer, best first.
    pub open spec fn payee_pool(self) -> Seq<Seq<char>> {
        scope::with_new(
            index::ranked_spec(self.tally.payees, Seq::empty()),
            self.declared_payees,
        )
    }

    /// Tags to offer, declared ones first.
    pub open spec fn tag_pool(self) -> Seq<Seq<char>> {
        scope::with_new(self.declared_tags, self.used.tags)
    }

    /// Accounts to offer, best first.
    pub open spec fn account_pool(self, payee: Option<Seq<char>>) -> Seq<Seq<char>> {
        scope::with_new(self.tally.ranked_accounts(payee), self.declared_accounts)
    }

    /// Commodities to offer, best first.
    pub open spec fn commodity_pool(self) -> Seq<Seq<char>> {
        scope::with_new(
            index::ranked_spec(self.tally.commodities, Seq::empty()),
            self.book.commodities.map_values(|c: CommodityRead| c.name),
        )
    }

    /// The default commodity's symbol.
    pub open spec fn symbol(self) -> Option<Seq<char>> {
        symbol_spec(self.default_commodity, self.amounts)
    }
}

/// Append a text that a list lacks.
pub(crate) fn add_new(seen: &mut Vec<String>, s: &str)
    ensures
        text::texts(final(seen)@) == scope::with_new(text::texts(old(seen)@), seq![s@]),
{
    let ghost was = text::texts(seen@);
    assert(seq![s@].drop_last() =~= Seq::empty());
    assert(scope::with_new(was, seq![s@].drop_last()) == was);
    if !text::has_text(seen.as_slice(), s) {
        seen.push(s.to_owned());
        assert(text::texts(seen@) =~= was.push(s@));
    }
}

/// Append the texts that a list lacks.
pub(crate) fn add_all(seen: &mut Vec<String>, more: &[String])
    ensures
        text::texts(final(seen)@) == scope::with_new(
            text::texts(old(seen)@),
            text::texts(more@),
        ),
{
    let ghost was = text::texts(seen@);
    let ghost all = text::texts(more@);
    let mut i: usize = 0;
    while i < more.len()
        invariant
            i <= more@.len(),
            all == text::texts(more@),
            text::texts(seen@) == scope::with_new(was, all.take(i as int)),
        decreases more@.len() - i,
    {
        let ghost before = text::texts(seen@);
        assert(all.take(i + 1).drop_last() =~= all.take(i as int));
        assert(all.take(i + 1).last() == more@[i as int]@);
        if !text::has_text(seen.as_slice(), more[i].as_str()) {
            seen.push(more[i].as_str().to_owned());
            assert(text::texts(seen@) =~= before.push(more@[i as int]@));
        }
        i = i + 1;
    }
    assert(all.take(all.len() as int) =~= all);
}

/// The names of declarations.
fn declared_names(ds: &[parser::Declaration]) -> (r: Vec<String>)
    ensures
        text::texts(r@) == names_of(parser::decls(ds@)),
{
    let mut out: Vec<String> = Vec::new();
    let ghost want = names_of(parser::decls(ds@));
    let mut i: usize = 0;
    while i < ds.len()
        invariant
            i <= ds@.len(),
            want == names_of(parser::decls(ds@)),
            text::texts(out@) =~= want.take(i as int),
        decreases ds@.len() - i,
    {
        let ghost before = text::texts(out@);
        out.push(ds[i].name.as_str().to_owned());
        assert(text::texts(out@) =~= before.push(want[i as int]));
        i = i + 1;
    }
    assert(want.take(want.len() as int) =~= want);
    out
}

/// The commodities declared before a position.
fn commodities_at(cs: &[parser::CommodityDecl], pos: usize) -> (r: Vec<String>)
    ensures
        text::texts(r@) == commodities_before(parser::commodities_read(cs@), pos),
{
    let mut out: Vec<String> = Vec::new();
    let ghost all = parser::commodities_read(cs@);
    let mut i: usize = 0;
    assert(text::texts(out@) =~= commodities_before(all.take(0), pos));
    while i < cs.len()
        invariant
            i <= cs@.len(),
            all == parser::commodities_read(cs@),
            text::texts(out@) == commodities_before(all.take(i as int), pos),
        decreases cs@.len() - i,
    {
        assert(all.take(i + 1).drop_last() =~= all.take(i as int));
        assert(all.take(i + 1).last() == cs@[i as int]@);
        if cs[i].pos < pos {
            let ghost before = text::texts(out@);
            out.push(cs[i].name.as_str().to_owned());
            assert(text::texts(out@) =~= before.push(cs@[i as int]@.name));
        }
        i = i + 1;
    }
    assert(all.take(all.len() as int) =~= all);
    out
}

/// The names that transactions use.
struct Used {
    accounts: Vec<String>,
    commodities: Vec<String>,
    payees: Vec<String>,
    tags: Vec<String>,
}

impl View for Used {
    type V = Usage;

    closed spec fn view(&self) -> Usage {
        Usage {
            accounts: text::texts(self.accounts@),
            commodities: text::texts(self.commodities@),
            payees: text::texts(self.payees@),
            tags: text::texts(self.tags@),
        }
    }
}

impl Used {
    /// Add the names of postings.
    fn add_postings(&mut self, ps: &[parser::RawPosting])
        ensures
            final(self)@ == old(self)@.with_postings(parser::raw_postings(ps@)),
    {
        let ghost was = self@;
        let ghost all = parser::raw_postings(ps@);
        let mut i: usize = 0;
        assert(all.take(0) =~= Seq::empty());
        while i < ps.len()
            invariant
                i <= ps@.len(),
                all == parser::raw_postings(ps@),
                self@ == was.with_postings(all.take(i as int)),
            decreases ps@.len() - i,
        {
            let p = &ps[i];
            assert(all.take(i + 1).drop_last() =~= all.take(i as int));
            assert(all.take(i + 1).last() == p@);
            add_new(&mut self.accounts, p.account.as_str());
            if let Some(c) = &p.commodity {
                add_new(&mut self.commodities, c.as_str());
            }
            let tags = field::tags_in(crate::add::recovery::as_str(&p.comment));
            add_all(&mut self.tags, tags.as_slice());
            i = i + 1;
        }
        assert(all.take(all.len() as int) =~= all);
    }

    /// The names that the transactions of a journal use.
    fn of(journal: &Journal) -> (r: Used)
        ensures
            r@ == Usage::of(journal@.transactions),
    {
        let mut used = Used {
            accounts: Vec::new(),
            commodities: Vec::new(),
            payees: Vec::new(),
            tags: Vec::new(),
        };
        assert(used@ =~= Usage::none());
        let ghost all = journal@.transactions;
        let mut i: usize = 0;
        assert(all.take(0) =~= Seq::empty());
        while i < journal.transactions.len()
            invariant
                i <= journal.transactions@.len(),
                all == journal@.transactions,
                used@ == Usage::of(all.take(i as int)),
            decreases journal.transactions@.len() - i,
        {
            let t = &journal.transactions[i];
            assert(all.take(i + 1).drop_last() =~= all.take(i as int));
            assert(all.take(i + 1).last() == t@);
            if !t.description.as_str().is_empty() {
                let (payee, _) = lex::split_payee_note(t.description.as_str());
                add_new(&mut used.payees, payee);
            }
            let tags = field::tags_in(crate::add::recovery::as_str(&t.comment));
            add_all(&mut used.tags, tags.as_slice());
            used.add_postings(t.postings.as_slice());
            i = i + 1;
        }
        assert(all.take(all.len() as int) =~= all);
        used
    }
}

impl SessionCtx {
    /// Assemble the context for a target file within a parsed journal. The
    /// target is given by its canonical path.
    #[must_use]
    pub fn new(
        journal: Journal,
        config: Config,
        today: Date,
        target: String,
        target_map: &FileMap,
    ) -> (r: Self)
        ensures
            r@ == Surroundings::of(
                journal@,
                config@,
                today@,
                target@,
                target_map@.acc_w,
                target_map@.num_w,
            ),
    {
        let index = Index::build(&journal, today);
        let (pos, mark): (usize, Option<char>) = match journal.file(target.as_str()) {
            Some(f) => (f.eof_pos, f.state_at_eof.decimal_mark),
            None => (usize::MAX, None),
        };
        // The styles in effect at the insertion point — everything the tree
        // declares ahead of it, and nothing declared after.
        let mut amount_ctx = journal.amount_ctx_at(pos);
        amount_ctx.decimal_mark = mark;
        let declared_accounts_visible = text::owned(journal.accounts_visible_at(pos).as_slice());
        let declared_commodities_visible = commodities_at(journal.commodities.as_slice(), pos);
        let declared_payees_visible = text::owned(journal.payees_visible_at(pos).as_slice());
        let used = Used::of(&journal);
        let declared_payees = declared_names(journal.payees.as_slice());
        let declared_tags = declared_names(journal.tags.as_slice());
        let declared_accounts = declared_names(journal.accounts.as_slice());
        let strict = config.strict;
        // The configuration alone, deliberately: a journal's `D` directive is
        // not consulted here. `add` materializes its default into an amount
        // the user typed, and taking that from the file meant a bare `12.50`
        // silently acquiring a commodity nobody asked for. Spelling `D` out
        // is `fmt --explicit`'s job, where it is what was asked for.
        let default_commodity = text::copy_opt(&config.default_commodity);
        SessionCtx {
            journal,
            index,
            config,
            amount_ctx,
            today,
            target,
            acc_w: target_map.acc_w,
            num_w: target_map.num_w,
            declared_accounts_visible,
            used_accounts: used.accounts,
            declared_commodities_visible,
            used_commodities: used.commodities,
            declared_payees_visible,
            used_payees: used.payees,
            declared_payees,
            declared_tags,
            used_tags: used.tags,
            declared_accounts,
            strict,
            default_commodity,
        }
    }

    /// Ranked description candidates for the description field: whole
    /// descriptions as the journal writes them — `payee | note` included,
    /// since re-entering one wholesale is the point — then declared payees
    /// that appear in no transaction yet.
    #[must_use]
    pub fn description_pool(&self) -> (r: Vec<String>)
        ensures
            text::texts(r@) == self@.description_pool(),
    {
        let mut out = text::owned(self.index.ranked_descriptions().as_slice());
        add_all(&mut out, self.declared_payees.as_slice());
        out
    }

    /// Ranked *payee* candidates — the payee halves the journal uses, plus
    /// every declared payee. This is what the near-miss hint searches, so
    /// that `bahn` is answered with `Deutsche Bahn` and not with some whole
    /// description that happens to contain it.
    #[must_use]
    pub fn payee_pool(&self) -> (r: Vec<String>)
        ensures
            text::texts(r@) == self@.payee_pool(),
    {
        let mut out = text::owned(self.index.ranked_payees().as_slice());
        add_all(&mut out, self.declared_payees.as_slice());
        out
    }

    /// The tag completion pool: declared tags first, then tags seen in
    /// comments anywhere in the tree.
    #[must_use]
    pub fn tag_pool(&self) -> (r: Vec<String>)
        ensures
            text::texts(r@) == self@.tag_pool(),
    {
        let mut out = text::copies(self.declared_tags.as_slice());
        add_all(&mut out, self.used_tags.as_slice());
        out
    }

    /// Ranked account candidates, conditioned on a description, with
    /// declared-but-unused accounts appended.
    #[must_use]
    pub fn account_pool(&self, payee: Option<&str>) -> (r: Vec<String>)
        ensures
            text::texts(r@) == self@.account_pool(text::opt_str(payee)),
    {
        let mut out = text::owned(self.index.ranked_accounts(payee).as_slice());
        add_all(&mut out, self.declared_accounts.as_slice());
        out
    }

    /// Ranked commodity candidates, with declared-but-unused ones appended.
    pub(crate) fn commodity_pool(&self) -> (r: Vec<String>)
        ensures
            text::texts(r@) == self@.commodity_pool(),
    {
        let mut out = text::owned(self.index.ranked_commodities().as_slice());
        let mut names: Vec<String> = Vec::new();
        let ghost want = self@.book.commodities.map_values(|c: CommodityRead| c.name);
        let mut i: usize = 0;
        while i < self.journal.commodities.len()
            invariant
                i <= self.journal.commodities@.len(),
                want == self@.book.commodities.map_values(|c: CommodityRead| c.name),
                text::texts(names@) =~= want.take(i as int),
            decreases self.journal.commodities@.len() - i,
        {
            let ghost before = text::texts(names@);
            names.push(self.journal.commodities[i].name.as_str().to_owned());
            assert(text::texts(names@) =~= before.push(want[i as int]));
            i = i + 1;
        }
        assert(want.take(want.len() as int) =~= want);
        add_all(&mut out, names.as_slice());
        out
    }

    /// The commodity of the configured default: what gets attached to
    /// generated unitless balancing amounts as editable pre-fill.
    #[must_use]
    pub fn default_commodity_symbol(&self) -> (r: Option<String>)
        ensures
            text::opt_text(r) == self@.symbol(),
            r matches Some(s) ==> s@.len() > 0,
    {
        let sample = match &self.default_commodity {
            None => {
                return None;
            },
            Some(s) => s.as_str(),
        };
        if let Some(p) = amount::parse_amount(sample, &self.amount_ctx) {
            if !p.commodity.as_str().is_empty() {
                return Some(p.commodity);
            }
        }
        // The sample may be a bare symbol.

        let t = text::trim(sample, CharClass::White);
        if !t.is_empty() && !text::any(t, CharClass::Digit) {
            Some(t.to_owned())
        } else {
            None
        }
    }
}

} // verus!
