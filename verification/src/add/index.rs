//! Frecency indices over the parsed journal.
//!
//! Built in one pass over the transactions of the include tree. Each entry
//! carries a count, the date it was last seen, and the ages of its
//! occurrences, from which its score follows:
//!
//! ```text
//! score = Σ over occurrences of  0.5 ^ (age_days / half_life)
//! ```
//!
//! evaluated relative to today. The caller evaluates the score and sets it;
//! until then an entry's score is zero, and recency ranks.
//!
//! **Pre-fill and ranking deliberately use different rules.** Pre-fill (the
//! template) takes the *most recent* matching transaction, because
//! predictability matters more than cleverness when text is being put in
//! front of the user. The completion menu orders by *score*, because ranking
//! is what makes the second-best candidate reachable. Do not unify them.

use vstd::prelude::*;
use vstd::string::*;
use crate::add::parser::{Journal, PostingRead, Transaction, Txn};
use crate::add::scope;
use crate::date::{Date, Day};
use crate::lex;
use crate::text;

verus! {

/// What an [`Entry`] says.
#[verifier::ext_equal]
pub struct Seen {
    pub group: Seq<char>,
    pub name: Seq<char>,
    pub count: u64,
    pub last_date: Day,
    pub ages: Seq<i64>,
    pub score: u64,
}

/// One index entry.
#[derive(Debug)]
pub struct Entry {
    /// What the name is seen under, where that matters: a payee. Else empty.
    pub group: String,
    /// The name.
    pub name: String,
    /// Number of occurrences.
    pub count: u64,
    /// Date of the most recent occurrence.
    pub last_date: Date,
    /// How many days ago each occurrence was, none in the future.
    pub ages: Vec<i64>,
    /// The frecency score (see module docs) as a number that orders as the
    /// score does.
    pub score: u64,
}

impl View for Entry {
    type V = Seen;

    open spec fn view(&self) -> Seen {
        Seen {
            group: self.group@,
            name: self.name@,
            count: self.count,
            last_date: self.last_date@,
            ages: self.ages@,
            score: self.score,
        }
    }
}

pub open spec fn seen(v: Seq<Entry>) -> Seq<Seen> {
    v.map_values(|e: Entry| e@)
}

// ---- counting ----

/// Where an entry stands.
pub open spec fn entry_at(es: Seq<Seen>, group: Seq<char>, name: Seq<char>) -> Option<int>
    decreases es.len(),
{
    if es.len() == 0 {
        None
    } else if es[0].group == group && es[0].name == name {
        Some(0)
    } else {
        match entry_at(es.skip(1), group, name) {
            Some(i) => Some(i + 1),
            None => None,
        }
    }
}

/// The later of two days.
pub open spec fn later(a: Day, b: Day) -> Day {
    if a.le(b) {
        b
    } else {
        a
    }
}

/// The entries with one more occurrence.
pub open spec fn bumped(
    es: Seq<Seen>,
    group: Seq<char>,
    name: Seq<char>,
    date: Day,
    age: i64,
) -> Seq<Seen> {
    match entry_at(es, group, name) {
        Some(i) => es.update(
            i,
            Seen {
                count: if es[i].count == u64::MAX {
                    u64::MAX
                } else {
                    (es[i].count + 1) as u64
                },
                last_date: later(es[i].last_date, date),
                ages: es[i].ages.push(age),
                ..es[i]
            },
        ),
        None => es.push(
            Seen { group, name, count: 1, last_date: date, ages: seq![age], score: 0 },
        ),
    }
}

proof fn lemma_entry_at(es: Seq<Seen>, group: Seq<char>, name: Seq<char>)
    ensures
        entry_at(es, group, name) matches Some(i) ==> 0 <= i < es.len(),
    decreases es.len(),
{
    if es.len() > 0 {
        lemma_entry_at(es.skip(1), group, name);
    }
}

/// Count one more occurrence.
fn bump(es: &mut Vec<Entry>, group: &str, name: &str, date: Date, age: i64)
    ensures
        seen(final(es)@) == bumped(seen(old(es)@), group@, name@, date@, age),
{
    let ghost all = seen(es@);
    let mut i: usize = 0;
    assert(all.skip(0) =~= all);
    while i < es.len() && !(text::same(es[i].group.as_str(), group) && text::same(
        es[i].name.as_str(),
        name,
    ))
        invariant
            i <= es@.len(),
            all == seen(es@),
            entry_at(all, group@, name@) == (match entry_at(
                all.skip(i as int),
                group@,
                name@,
            ) {
                Some(j) => Some(j + i),
                None => None,
            }),
        decreases es@.len() - i,
    {
        assert(all.skip(i as int)[0] == es@[i as int]@);
        assert(all.skip(i as int).skip(1) =~= all.skip(i + 1));
        i = i + 1;
    }
    if i < es.len() {
        assert(all.skip(i as int)[0] == es@[i as int]@);
        assert(entry_at(all, group@, name@) == Some(i as int));
        let ghost before = es@[i as int]@;
        let e = &mut es[i];
        if e.count < u64::MAX {
            e.count = e.count + 1;
        }
        if e.last_date.at_most(&date) {
            e.last_date = date;
        }
        e.ages.push(age);
        let ghost after = e@;
        assert(seen(es@) =~= all.update(i as int, after));
        assert(seen(es@) =~= bumped(all, group@, name@, date@, age));
    } else {
        let mut ages: Vec<i64> = Vec::new();
        ages.push(age);
        let e = Entry {
            group: group.to_owned(),
            name: name.to_owned(),
            count: 1,
            last_date: date,
            ages,
            score: 0,
        };
        let ghost ev = e@;
        assert(ev.ages =~= seq![age]);
        es.push(e);
        assert(seen(es@) =~= all.push(ev));
    }
}

// ---- ranking ----

/// Whether a text comes before another in the order of their characters.
pub open spec fn text_before(a: Seq<char>, b: Seq<char>) -> bool
    decreases a.len(),
{
    b.len() > 0 && (a.len() == 0 || a[0] < b[0] || (a[0] == b[0] && text_before(
        a.skip(1),
        b.skip(1),
    )))
}

/// Whether a text comes before another in the order of their characters.
pub(crate) fn is_before(a: &str, b: &str) -> (r: bool)
    ensures
        r == text_before(a@, b@),
{
    let n: usize = a.unicode_len();
    let m: usize = b.unicode_len();
    let mut i: usize = 0;
    assert(a@.skip(0) =~= a@);
    assert(b@.skip(0) =~= b@);
    while i < n && i < m
        invariant
            n == a@.len(),
            m == b@.len(),
            i <= n,
            i <= m,
            text_before(a@, b@) == text_before(a@.skip(i as int), b@.skip(i as int)),
        decreases n - i,
    {
        let x = a.get_char(i);
        let y = b.get_char(i);
        assert(a@.skip(i as int)[0] == x);
        assert(b@.skip(i as int)[0] == y);
        if x < y {
            return true;
        }
        if x != y {
            return false;
        }
        assert(a@.skip(i as int).skip(1) =~= a@.skip(i + 1));
        assert(b@.skip(i as int).skip(1) =~= b@.skip(i + 1));
        i = i + 1;
    }
    i < m
}

/// Whether an entry ranks ahead of another: by score, ties broken by recency
/// then name.
pub open spec fn ahead(a: Seen, b: Seen) -> bool {
    ||| a.score > b.score
    ||| a.score == b.score && !a.last_date.le(b.last_date)
    ||| a.score == b.score && a.last_date == b.last_date && text_before(a.name, b.name)
}

fn is_ahead(a: &Entry, b: &Entry) -> (r: bool)
    ensures
        r == ahead(a@, b@),
{
    if a.score != b.score {
        return a.score > b.score;
    }
    if !a.last_date.at_most(&b.last_date) {
        return true;
    }
    b.last_date.at_most(&a.last_date) && is_before(a.name.as_str(), b.name.as_str())
}

/// How many ranked entries an entry does not rank ahead of.
pub open spec fn rank_of(ranked: Seq<Seen>, e: Seen) -> int
    decreases ranked.len(),
{
    if ranked.len() == 0 || ahead(e, ranked[0]) {
        0
    } else {
        1 + rank_of(ranked.skip(1), e)
    }
}

/// The entries of a group, best first.
pub open spec fn ranking(es: Seq<Seen>, group: Seq<char>) -> Seq<Seen>
    decreases es.len(),
{
    if es.len() == 0 {
        Seq::empty()
    } else {
        let before = ranking(es.drop_last(), group);
        if es.last().group == group {
            before.insert(rank_of(before, es.last()), es.last())
        } else {
            before
        }
    }
}

/// The names of a group, best first.
pub open spec fn ranked_spec(es: Seq<Seen>, group: Seq<char>) -> Seq<Seq<char>> {
    ranking(es, group).map_values(|e: Seen| e.name)
}

spec fn seen_refs(v: Seq<&Entry>) -> Seq<Seen> {
    v.map_values(|e: &Entry| e@)
}

/// Names of a group ranked by score descending, ties broken by recency then
/// name for determinism.
fn ranked<'a>(es: &'a [Entry], group: &str) -> (r: Vec<&'a str>)
    ensures
        text::strs(r@) == ranked_spec(seen(es@), group@),
{
    let ghost all = seen(es@);
    let mut sorted: Vec<&'a Entry> = Vec::new();
    let mut i: usize = 0;
    assert(all.take(0) =~= Seq::empty());
    assert(seen_refs(sorted@) =~= Seq::empty());
    while i < es.len()
        invariant
            i <= es@.len(),
            all == seen(es@),
            seen_refs(sorted@) == ranking(all.take(i as int), group@),
        decreases es@.len() - i,
    {
        let e: &'a Entry = &es[i];
        assert(all.take(i + 1).drop_last() =~= all.take(i as int));
        assert(all.take(i + 1).last() == e@);
        if text::same(e.group.as_str(), group) {
            let ghost before = seen_refs(sorted@);
            let mut k: usize = 0;
            assert(before.skip(0) =~= before);
            while k < sorted.len() && !is_ahead(e, sorted[k])
                invariant
                    k <= sorted@.len(),
                    before == seen_refs(sorted@),
                    rank_of(before, e@) == k + rank_of(before.skip(k as int), e@),
                decreases sorted@.len() - k,
            {
                assert(before.skip(k as int)[0] == sorted@[k as int]@);
                assert(before.skip(k as int).skip(1) =~= before.skip(k + 1));
                k = k + 1;
            }
            assert(k < sorted@.len() ==> before.skip(k as int)[0] == sorted@[k as int]@);
            sorted.insert(k, e);
            assert(seen_refs(sorted@) =~= before.insert(k as int, e@));
        }
        i = i + 1;
    }
    assert(all.take(all.len() as int) =~= all);
    let ghost want = ranked_spec(all, group@);
    let mut out: Vec<&'a str> = Vec::new();
    let mut j: usize = 0;
    while j < sorted.len()
        invariant
            j <= sorted@.len(),
            seen_refs(sorted@) == ranking(all, group@),
            want == ranked_spec(all, group@),
            text::strs(out@) =~= want.take(j as int),
        decreases sorted@.len() - j,
    {
        let ghost before = text::strs(out@);
        let name: &'a str = sorted[j].name.as_str();
        assert(seen_refs(sorted@)[j as int] == sorted@[j as int]@);
        out.push(name);
        assert(text::strs(out@) =~= before.push(name@));
        assert(want[j as int] == name@);
        j = j + 1;
    }
    assert(seen_refs(sorted@).len() == sorted@.len());
    assert(want.take(want.len() as int) =~= want);
    out
}

// ---- the indices ----

/// What an [`Index`] says.
#[verifier::ext_equal]
pub struct Tally {
    pub descriptions: Seq<Seen>,
    pub payees: Seq<Seen>,
    pub accounts: Seq<Seen>,
    pub by_payee: Seq<Seen>,
    pub commodities: Seq<Seen>,
}

/// The frecency indices, plus the commodity pool for the amount field.
#[derive(Debug)]
pub struct Index {
    /// Whole descriptions. Description completion.
    pub descriptions: Vec<Entry>,
    /// The payee halves of the descriptions.
    pub payees: Vec<Entry>,
    /// Account completion, unconditioned.
    pub accounts: Vec<Entry>,
    /// Accounts by payee. Account completion conditioned on the description
    /// already entered.
    pub by_payee: Vec<Entry>,
    /// Completion in the amount field.
    pub commodities: Vec<Entry>,
}

impl View for Index {
    type V = Tally;

    open spec fn view(&self) -> Tally {
        Tally {
            descriptions: seen(self.descriptions@),
            payees: seen(self.payees@),
            accounts: seen(self.accounts@),
            by_payee: seen(self.by_payee@),
            commodities: seen(self.commodities@),
        }
    }
}

/// An account and the commodity of its amount.
pub open spec fn posted(v: Seq<(String, Option<String>)>) -> Seq<(Seq<char>, Option<Seq<char>>)> {
    v.map_values(|p: (String, Option<String>)| (p.0@, text::opt_text(p.1)))
}

/// The age of a date. A future date counts as today's — no boost.
pub open spec fn age_of(today: Day, date: Day) -> i64 {
    if today.number() - date.number() > 0 {
        (today.number() - date.number()) as i64
    } else {
        0
    }
}

impl Tally {
    pub open spec fn empty() -> Tally {
        Tally {
            descriptions: Seq::empty(),
            payees: Seq::empty(),
            accounts: Seq::empty(),
            by_payee: Seq::empty(),
            commodities: Seq::empty(),
        }
    }

    /// Count one posting.
    pub open spec fn with_posting(
        self,
        payee: Seq<char>,
        account: Seq<char>,
        commodity: Option<Seq<char>>,
        date: Day,
        age: i64,
    ) -> Tally {
        Tally {
            accounts: bumped(self.accounts, Seq::empty(), account, date, age),
            by_payee: if payee.len() == 0 {
                self.by_payee
            } else {
                bumped(self.by_payee, payee, account, date, age)
            },
            commodities: match commodity {
                Some(c) => bumped(self.commodities, Seq::empty(), c, date, age),
                None => self.commodities,
            },
            ..self
        }
    }

    /// Count postings.
    pub open spec fn with_postings(
        self,
        payee: Seq<char>,
        ps: Seq<(Seq<char>, Option<Seq<char>>)>,
        date: Day,
        age: i64,
    ) -> Tally
        decreases ps.len(),
    {
        if ps.len() == 0 {
            self
        } else {
            self.with_postings(payee, ps.drop_last(), date, age).with_posting(
                payee,
                ps.last().0,
                ps.last().1,
                date,
                age,
            )
        }
    }

    /// Count one transaction.
    pub open spec fn with(
        self,
        date: Day,
        description: Seq<char>,
        ps: Seq<(Seq<char>, Option<Seq<char>>)>,
        today: Day,
    ) -> Tally {
        let age = age_of(today, date);
        let payee = lex::split_payee_note_spec(description).0;
        let named = Tally {
            descriptions: if description.len() == 0 {
                self.descriptions
            } else {
                bumped(self.descriptions, Seq::empty(), description, date, age)
            },
            payees: if payee.len() == 0 {
                self.payees
            } else {
                bumped(self.payees, Seq::empty(), payee, date, age)
            },
            ..self
        };
        named.with_postings(payee, ps, date, age)
    }

    /// Count the transactions of a journal.
    pub open spec fn of(ts: Seq<Txn>, today: Day) -> Tally
        decreases ts.len(),
    {
        if ts.len() == 0 {
            Tally::empty()
        } else {
            Tally::of(ts.drop_last(), today).with(
                ts.last().date,
                ts.last().description,
                ts.last().postings.map_values(|p: PostingRead| (p.account, p.commodity)),
                today,
            )
        }
    }

    /// Accounts, best first: those seen with a payee, then the others.
    pub open spec fn ranked_accounts(self, payee: Option<Seq<char>>) -> Seq<Seq<char>> {
        scope::with_new(
            match payee {
                Some(p) => ranked_spec(self.by_payee, p),
                None => Seq::empty(),
            },
            ranked_spec(self.accounts, Seq::empty()),
        )
    }
}

/// The most recent transaction of a payee, the last of equally recent ones.
pub open spec fn template_spec(ts: Seq<Txn>, payee: Seq<char>) -> Option<int>
    decreases ts.len(),
{
    if ts.len() == 0 {
        None
    } else {
        let before = template_spec(ts.drop_last(), payee);
        if payee.len() == 0 || lex::split_payee_note_spec(ts.last().description).0 != payee {
            before
        } else {
            match before {
                Some(i) => if ts[i].date.le(ts.last().date) {
                    Some(ts.len() - 1)
                } else {
                    before
                },
                None => Some(ts.len() - 1),
            }
        }
    }
}

impl Default for Index {
    fn default() -> (r: Self)
        ensures
            r@ == Tally::empty(),
    {
        let r = Index {
            descriptions: Vec::new(),
            payees: Vec::new(),
            accounts: Vec::new(),
            by_payee: Vec::new(),
            commodities: Vec::new(),
        };
        assert(r@ =~= Tally::empty());
        r
    }
}

impl Index {
    /// Build all indices in one pass.
    #[must_use]
    pub fn build(journal: &Journal, today: Date) -> (r: Self)
        ensures
            r@ == Tally::of(journal@.transactions, today@),
    {
        let mut idx = Index::default();
        let ghost all = journal@.transactions;
        let mut i: usize = 0;
        assert(all.take(0) =~= Seq::empty());
        while i < journal.transactions.len()
            invariant
                i <= journal.transactions@.len(),
                all == journal@.transactions,
                idx@ == Tally::of(all.take(i as int), today@),
            decreases journal.transactions@.len() - i,
        {
            let t = &journal.transactions[i];
            assert(all.take(i + 1).drop_last() =~= all.take(i as int));
            assert(all.take(i + 1).last() == t@);
            let mut ps: Vec<(String, Option<String>)> = Vec::new();
            let ghost want = t@.postings.map_values(|p: PostingRead| (p.account, p.commodity));
            let mut j: usize = 0;
            while j < t.postings.len()
                invariant
                    j <= t.postings@.len(),
                    want == t@.postings.map_values(|p: PostingRead| (p.account, p.commodity)),
                    posted(ps@) =~= want.take(j as int),
                decreases t.postings@.len() - j,
            {
                let ghost before = posted(ps@);
                ps.push(
                    (
                        t.postings[j].account.as_str().to_owned(),
                        text::copy_opt(&t.postings[j].commodity),
                    ),
                );
                assert(posted(ps@) =~= before.push(want[j as int]));
                j = j + 1;
            }
            assert(want.take(want.len() as int) =~= want);
            idx.bump_session(t.date, t.description.as_str(), ps.as_slice(), today);
            i = i + 1;
        }
        assert(all.take(all.len() as int) =~= all);
        idx
    }

    /// Count a transaction that is not in the journal (yet).
    pub fn bump_session(
        &mut self,
        date: Date,
        description: &str,
        postings: &[(String, Option<String>)],
        today: Date,
    )
        ensures
            final(self)@ == old(self)@.with(date@, description@, posted(postings@), today@),
    {
        proof {
            reveal_strlit("");
            assert(""@ =~= Seq::<char>::empty());
        }
        let days: i64 = today.days_since(date);
        let age: i64 = if days > 0 {
            days
        } else {
            0
        };
        let (payee, _) = lex::split_payee_note(description);
        if !description.is_empty() {
            bump(&mut self.descriptions, "", description, date, age);
        }
        if !payee.is_empty() {
            bump(&mut self.payees, "", payee, date, age);
        }
        let ghost named = self@;
        let ghost all = posted(postings@);
        let mut i: usize = 0;
        assert(all.take(0) =~= Seq::empty());
        while i < postings.len()
            invariant
                i <= postings@.len(),
                all == posted(postings@),
                ""@ == Seq::<char>::empty(),
                self@ == named.with_postings(payee@, all.take(i as int), date@, age),
            decreases postings@.len() - i,
        {
            assert(all.take(i + 1).drop_last() =~= all.take(i as int));
            assert(all.take(i + 1).last() == (
                postings@[i as int].0@,
                text::opt_text(postings@[i as int].1),
            ));
            let account = postings[i].0.as_str();
            bump(&mut self.accounts, "", account, date, age);
            if !payee.is_empty() {
                bump(&mut self.by_payee, payee, account, date, age);
            }
            if let Some(c) = &postings[i].1 {
                bump(&mut self.commodities, "", c.as_str(), date, age);
            }
            i = i + 1;
        }
        assert(all.take(all.len() as int) =~= all);
    }

    /// The template transaction for `payee`, if any.
    #[must_use]
    pub fn template<'a>(&self, journal: &'a Journal, payee: &str) -> (r: Option<&'a Transaction>)
        ensures
            (match r {
                Some(t) => Some(t@),
                None => None,
            }) == (match template_spec(journal@.transactions, payee@) {
                Some(i) => Some(journal@.transactions[i]),
                None => None,
            }),
    {
        let ghost all = journal@.transactions;
        let mut best: Option<usize> = None;
        let mut i: usize = 0;
        while i < journal.transactions.len()
            invariant
                i <= journal.transactions@.len(),
                all == journal@.transactions,
                match best {
                    Some(k) => k < i && template_spec(all.take(i as int), payee@) == Some(
                        k as int,
                    ),
                    None => template_spec(all.take(i as int), payee@) is None,
                },
            decreases journal.transactions@.len() - i,
        {
            let t = &journal.transactions[i];
            assert(all.take(i + 1).drop_last() =~= all.take(i as int));
            assert(all.take(i + 1).last() == t@);
            let (p, _) = lex::split_payee_note(t.description.as_str());
            if !payee.is_empty() && text::same(p, payee) {
                match best {
                    None => {
                        best = Some(i);
                    },
                    Some(k) => {
                        assert(all.take(i + 1)[k as int] == journal.transactions@[k as int]@);
                        if journal.transactions[k].date.at_most(&t.date) {
                            best = Some(i);
                        }
                    },
                }
            }
            i = i + 1;
        }
        assert(all.take(all.len() as int) =~= all);
        match best {
            Some(k) => Some(&journal.transactions[k]),
            None => None,
        }
    }

    /// Descriptions ranked by score, best first.
    #[must_use]
    pub fn ranked_descriptions(&self) -> (r: Vec<&str>)
        ensures
            text::strs(r@) == ranked_spec(self@.descriptions, Seq::empty()),
    {
        proof {
            reveal_strlit("");
            assert(""@ =~= Seq::<char>::empty());
        }
        ranked(self.descriptions.as_slice(), "")
    }

    /// Payees ranked by score, best first.
    #[must_use]
    pub fn ranked_payees(&self) -> (r: Vec<&str>)
        ensures
            text::strs(r@) == ranked_spec(self@.payees, Seq::empty()),
    {
        proof {
            reveal_strlit("");
            assert(""@ =~= Seq::<char>::empty());
        }
        ranked(self.payees.as_slice(), "")
    }

    /// Accounts ranked by score, best first. With a payee, accounts seen
    /// under that payee rank first (by their conditioned score), then all
    /// remaining accounts by unconditioned score.
    #[must_use]
    pub fn ranked_accounts(&self, payee: Option<&str>) -> (r: Vec<&str>)
        ensures
            text::strs(r@) == self@.ranked_accounts(text::opt_str(payee)),
    {
        proof {
            reveal_strlit("");
            assert(""@ =~= Seq::<char>::empty());
        }
        let mut out: Vec<&str> = match payee {
            Some(p) => ranked(self.by_payee.as_slice(), p),
            None => Vec::new(),
        };
        let ghost start = text::strs(out@);
        assert(payee is None ==> start =~= Seq::empty());
        let more = ranked(self.accounts.as_slice(), "");
        let ghost all = text::strs(more@);
        let mut i: usize = 0;
        while i < more.len()
            invariant
                i <= more@.len(),
                all == text::strs(more@),
                text::strs(out@) == scope::with_new(start, all.take(i as int)),
            decreases more@.len() - i,
        {
            let ghost before = text::strs(out@);
            assert(all.take(i + 1).drop_last() =~= all.take(i as int));
            assert(all.take(i + 1).last() == more@[i as int]@);
            if !holds(out.as_slice(), more[i]) {
                out.push(more[i]);
                assert(text::strs(out@) =~= before.push(more@[i as int]@));
            }
            i = i + 1;
        }
        assert(all.take(all.len() as int) =~= all);
        out
    }

    /// Commodities ranked by score, best first.
    #[must_use]
    pub fn ranked_commodities(&self) -> (r: Vec<&str>)
        ensures
            text::strs(r@) == ranked_spec(self@.commodities, Seq::empty()),
    {
        proof {
            reveal_strlit("");
            assert(""@ =~= Seq::<char>::empty());
        }
        ranked(self.commodities.as_slice(), "")
    }
}

/// Whether a list holds a text.
pub(crate) fn holds(v: &[&str], s: &str) -> (r: bool)
    ensures
        r == text::strs(v@).contains(s@),
{
    let ghost all = text::strs(v@);
    let mut i: usize = 0;
    while i < v.len()
        invariant
            i <= v@.len(),
            all == text::strs(v@),
            forall|j: int| 0 <= j < i ==> #[trigger] all[j] != s@,
        decreases v@.len() - i,
    {
        assert(all[i as int] == v@[i as int]@);
        if text::same(v[i], s) {
            return true;
        }
        i = i + 1;
    }
    false
}

} // verus!
