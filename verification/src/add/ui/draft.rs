//! The transaction being entered.

use vstd::prelude::*;
use vstd::string::*;
use crate::add::ui::field::{self, Field};
use crate::add::write::{NewPost, Posting};
use crate::date::{self, Date, Day};
use crate::lex;
use crate::text::{self, CharClass};

verus! {

/// What a [`Draft`] says.
#[verifier::ext_equal]
pub struct Entering {
    pub date_input: Seq<char>,
    pub date: Option<Day>,
    pub description: Seq<char>,
    pub comment: Seq<char>,
    pub postings: Seq<NewPost>,
    pub field: Field,
    pub buffer: Seq<char>,
    pub cursor: usize,
    pub pristine: bool,
    pub template: Seq<(Seq<char>, Seq<char>)>,
    pub frontier: usize,
    pub account_refused: bool,
}

/// The transaction being entered.
#[derive(Debug)]
pub struct Draft {
    /// Raw date input and its resolution.
    pub date_input: String,
    /// Resolved date once the date field was accepted.
    pub date: Option<Date>,
    /// Accepted description.
    pub description: String,
    /// The transaction's comment text, without the leading `;`.
    pub comment: String,
    /// Committed postings.
    pub postings: Vec<Posting>,
    /// The current field.
    pub field: Field,
    /// The current field's edit buffer.
    pub buffer: String,
    /// Cursor position in `buffer`, in chars.
    pub cursor: usize,
    /// Whether the buffer still holds untouched pre-filled text. A printable
    /// keystroke then replaces it wholesale (Enter still accepts it, and
    /// editing keys keep it for editing).
    pub pristine: bool,
    /// Template postings pre-filling this draft, from the description's most
    /// recent transaction. Comments are deliberately not pre-filled: they
    /// describe the occasion, not the shape of the transaction.
    pub template: Vec<(String, String)>,
    /// Highest field reached, as an ordinal — the navigation frontier.
    pub frontier: usize,
    /// The suggested account has been refused. Cleared on every move, so it
    /// only ever applies to the prompt it was asked for.
    ///
    /// **Accounts only, on purpose.** Refusing means something there and
    /// nowhere else: an empty account prompt has two readings — accept the
    /// suggestion, or finish the transaction — and this is how you reach the
    /// second while the first is on offer. At the date and amount prompts an
    /// empty Enter does the same thing whether or not a ghost is showing, so
    /// hiding the ghost there would change the display and nothing else.
    pub account_refused: bool,
}

pub open spec fn template_view(v: Seq<(String, String)>) -> Seq<(Seq<char>, Seq<char>)> {
    v.map_values(|p: (String, String)| (p.0@, p.1@))
}

impl View for Draft {
    type V = Entering;

    open spec fn view(&self) -> Entering {
        Entering {
            date_input: self.date_input@,
            date: date::opt_day(self.date),
            description: self.description@,
            comment: self.comment@,
            postings: crate::add::write::new_posts(self.postings@),
            field: self.field,
            buffer: self.buffer@,
            cursor: self.cursor,
            pristine: self.pristine,
            template: template_view(self.template@),
            frontier: self.frontier,
            account_refused: self.account_refused,
        }
    }
}

/// A posting with nothing in it.
pub open spec fn blank_post() -> NewPost {
    NewPost { account: Seq::empty(), amount: Seq::empty(), comment: Seq::empty() }
}

/// At least `n` postings, blank ones added.
pub open spec fn at_least(ps: Seq<NewPost>, n: usize) -> Seq<NewPost> {
    if ps.len() < n {
        ps + Seq::new((n - ps.len()) as nat, |i: int| blank_post())
    } else {
        ps
    }
}

/// The postings with one changed, if there is room for it.
pub open spec fn with_post(ps: Seq<NewPost>, i: usize, p: NewPost) -> Seq<NewPost> {
    if i < ps.len() {
        ps.update(i as int, p)
    } else {
        ps
    }
}

/// A comment, empty where there is none.
pub open spec fn or_empty(o: Option<Seq<char>>) -> Seq<char> {
    match o {
        Some(s) => s,
        None => Seq::empty(),
    }
}

/// Where the word before position `i` begins. For an account the boundary is
/// the colon, and a colon right before the position belongs to the word.
pub open spec fn word_start(b: Seq<char>, i: int, account_mode: bool) -> int {
    if account_mode {
        let j = if i > 0 && b[i - 1] == ':' {
            i - 1
        } else {
            i
        };
        j - text::run_back_spec(b.take(j), CharClass::Is(':'), false)
    } else {
        let j = i - text::run_back_spec(b.take(i), CharClass::White, true);
        j - text::run_back_spec(b.take(j), CharClass::White, false)
    }
}

impl Entering {
    pub open spec fn fresh() -> Entering {
        Entering {
            date_input: Seq::empty(),
            date: None,
            description: Seq::empty(),
            comment: Seq::empty(),
            postings: Seq::empty(),
            field: Field::Date,
            buffer: Seq::empty(),
            cursor: 0,
            pristine: false,
            template: Seq::empty(),
            frontier: 0,
            account_refused: false,
        }
    }

    /// The cursor's place in the buffer.
    pub open spec fn at(self) -> int {
        if self.cursor < self.buffer.len() {
            self.cursor as int
        } else {
            self.buffer.len() as int
        }
    }

    pub open spec fn with_buffer(self, s: Seq<char>) -> Entering {
        Entering { buffer: s, cursor: s.len() as usize, pristine: false, ..self }
    }

    pub open spec fn inserted(self, c: char) -> Entering {
        let base = if self.pristine {
            Entering { buffer: Seq::empty(), cursor: 0, pristine: false, ..self }
        } else {
            self
        };
        Entering {
            buffer: base.buffer.insert(base.at(), c),
            cursor: field::bounded(base.cursor + 1),
            ..base
        }
    }

    pub open spec fn word_deleted(self, account_mode: bool) -> Entering {
        let k = word_start(self.buffer, self.at(), account_mode);
        Entering {
            buffer: self.buffer.take(k) + self.buffer.skip(self.at()),
            cursor: k as usize,
            pristine: false,
            ..self
        }
    }

    pub open spec fn backspaced(self) -> Entering {
        if self.cursor == 0 {
            Entering { pristine: false, ..self }
        } else {
            Entering {
                buffer: self.buffer.remove(self.cursor - 1),
                cursor: (self.cursor - 1) as usize,
                pristine: false,
                ..self
            }
        }
    }

    /// The buffer saved into the current field's slot. The amount field owns
    /// a posting's comment; the account field can only add one.
    pub open spec fn stashed(self) -> Entering {
        let parts = field::field_parts(self.buffer);
        match self.field {
            Field::Date => Entering { date_input: parts.0, ..self },
            Field::Description => Entering {
                description: parts.0,
                comment: or_empty(parts.1),
                ..self
            },
            Field::Account(i) => {
                let ps = at_least(self.postings, field::bounded(i + 1));
                let p = ps[i as int];
                Entering {
                    postings: with_post(
                        ps,
                        i,
                        NewPost {
                            account: parts.0,
                            comment: match parts.1 {
                                Some(c) => c,
                                None => p.comment,
                            },
                            ..p
                        },
                    ),
                    ..self
                }
            },
            Field::Amount(i) => {
                let ps = at_least(self.postings, field::bounded(i + 1));
                let p = ps[i as int];
                Entering {
                    postings: with_post(
                        ps,
                        i,
                        NewPost { amount: parts.0, comment: or_empty(parts.1), ..p },
                    ),
                    ..self
                }
            },
        }
    }

    /// The stored text of a field, comment and all.
    pub open spec fn stored(self, f: Field) -> Seq<char> {
        match f {
            Field::Date => self.date_input,
            Field::Description => field::joined_field(self.description, self.comment),
            Field::Account(i) => if i < self.postings.len() {
                self.postings[i as int].account
            } else {
                Seq::empty()
            },
            Field::Amount(i) => if i < self.postings.len() {
                field::joined_field(
                    self.postings[i as int].amount,
                    self.postings[i as int].comment,
                )
            } else {
                Seq::empty()
            },
        }
    }

    /// Moved to a field, the buffer stashed and the field's text loaded.
    pub open spec fn gone_to(self, f: Field) -> Entering {
        let left = Entering { account_refused: false, field: f, ..self.stashed() };
        let text = left.stored(f);
        Entering {
            frontier: if left.frontier < f.ordinal_spec() {
                f.ordinal_spec()
            } else {
                left.frontier
            },
            pristine: text.len() > 0,
            ..left.with_buffer(text)
        }
    }

    /// Moved to the earlier field, if there is one.
    pub open spec fn up(self) -> Option<Entering> {
        if self.field.ordinal_spec() == 0 {
            None
        } else {
            Some(self.gone_to(Field::at_ordinal((self.field.ordinal_spec() - 1) as usize)))
        }
    }

    /// Moved to the later field, bounded by the frontier.
    pub open spec fn down(self) -> Option<Entering> {
        if self.field.ordinal_spec() >= self.frontier {
            None
        } else {
            Some(self.gone_to(Field::at_ordinal((self.field.ordinal_spec() + 1) as usize)))
        }
    }

    pub open spec fn payee(self) -> Seq<char> {
        lex::split_payee_note_spec(self.description).0
    }

    /// The amounts of the postings.
    pub open spec fn amounts(self) -> Seq<Seq<char>> {
        self.postings.map_values(|p: NewPost| p.amount)
    }
}

impl Default for Draft {
    fn default() -> (r: Self)
        ensures
            r@ == Entering::fresh(),
    {
        let r = Draft {
            date_input: String::new(),
            date: None,
            description: String::new(),
            comment: String::new(),
            postings: Vec::new(),
            field: Field::Date,
            buffer: String::new(),
            cursor: 0,
            pristine: false,
            template: Vec::new(),
            frontier: 0,
            account_refused: false,
        };
        assert(r@ =~= Entering::fresh());
        r
    }
}

/// At least `n` postings, blank ones added.
pub(crate) fn ensure_len(v: &mut Vec<Posting>, n: usize)
    ensures
        crate::add::write::new_posts(final(v)@) == at_least(
            crate::add::write::new_posts(old(v)@),
            n,
        ),
        final(v)@.len() >= n,
{
    let ghost was = crate::add::write::new_posts(v@);
    while v.len() < n
        invariant
            was.len() <= v@.len(),
            v@.len() <= n || v@.len() == was.len(),
            crate::add::write::new_posts(v@) =~= was + Seq::new(
                (v@.len() - was.len()) as nat,
                |i: int| blank_post(),
            ),
        decreases n - v@.len(),
    {
        let ghost before = crate::add::write::new_posts(v@);
        v.push(Posting::default());
        assert(crate::add::write::new_posts(v@) =~= before.push(blank_post()));
    }
    assert(was + Seq::new(0, |i: int| blank_post()) =~= was);
}

impl Draft {
    /// A fresh draft at the date prompt, pre-filled with today.
    #[must_use]
    pub fn new() -> (r: Self)
        ensures
            r@ == Entering::fresh(),
    {
        Draft::default()
    }

    /// A copy of the draft.
    pub fn duplicate(&self) -> (r: Self)
        ensures
            r@ == self@,
    {
        let mut template: Vec<(String, String)> = Vec::new();
        let mut i: usize = 0;
        while i < self.template.len()
            invariant
                i <= self.template@.len(),
                template_view(template@) =~= template_view(self.template@).take(i as int),
            decreases self.template@.len() - i,
        {
            let ghost before = template_view(template@);
            template.push(
                (
                    self.template[i].0.as_str().to_owned(),
                    self.template[i].1.as_str().to_owned(),
                ),
            );
            assert(template_view(template@) =~= before.push(
                template_view(self.template@)[i as int],
            ));
            i = i + 1;
        }
        let r = Draft {
            date_input: self.date_input.as_str().to_owned(),
            date: self.date,
            description: self.description.as_str().to_owned(),
            comment: self.comment.as_str().to_owned(),
            postings: crate::add::write::copy_posts(self.postings.as_slice()),
            field: self.field,
            buffer: self.buffer.as_str().to_owned(),
            cursor: self.cursor,
            pristine: self.pristine,
            template,
            frontier: self.frontier,
            account_refused: self.account_refused,
        };
        assert(r@ =~= self@);
        r
    }

    /// Replace the buffer (accepting a candidate, or a test typing a whole
    /// value). The result counts as the user's own text.
    pub fn set_buffer(&mut self, text: &str)
        ensures
            final(self)@ == old(self)@.with_buffer(text@),
    {
        self.buffer = text.to_owned();
        self.cursor = text::count(text);
        self.pristine = false;
    }

    /// The cursor's place in the buffer.
    fn place(&self) -> (r: usize)
        ensures
            r == self@.at(),
    {
        let n: usize = text::count(self.buffer.as_str());
        if self.cursor < n {
            self.cursor
        } else {
            n
        }
    }

    /// Insert a char at the cursor. On a pristine pre-fill this replaces the
    /// whole buffer — typing over a suggestion starts fresh.
    pub fn insert(&mut self, c: char)
        ensures
            final(self)@ == old(self)@.inserted(c),
    {
        if self.pristine {
            self.buffer = String::new();
            self.cursor = 0;
            self.pristine = false;
        }
        let ghost base = self@;
        let at: usize = self.place();
        let mut out = text::prefix(self.buffer.as_str(), at).to_owned();
        out.push(c);
        out.append(text::suffix(self.buffer.as_str(), at));
        assert(out@ =~= base.buffer.insert(at as int, c));
        self.buffer = out;
        self.cursor = field::next(self.cursor);
    }

    /// Delete the word before the cursor. In account mode the boundary is
    /// the colon: deletion stops just short of the previous `:`, so
    /// `expenses:groceries` becomes `expenses:` — one segment at a time. A
    /// cursor sitting right after a colon consumes that colon along with the
    /// segment before it.
    pub fn delete_word(&mut self, account_mode: bool)
        ensures
            final(self)@ == old(self)@.word_deleted(account_mode),
    {
        self.pristine = false;
        let i: usize = self.place();
        let b = self.buffer.as_str();
        let k: usize = if account_mode {
            let j: usize = if i > 0 && b.get_char(i - 1) == ':' {
                i - 1
            } else {
                i
            };
            let head = text::prefix(b, j);
            proof {
                text::lemma_run_back(head@, CharClass::Is(':'), false);
            }
            j - text::run_back(head, CharClass::Is(':'), false)
        } else {
            let head = text::prefix(b, i);
            proof {
                text::lemma_run_back(head@, CharClass::White, true);
            }
            let j: usize = i - text::run_back(head, CharClass::White, true);
            let front = text::prefix(b, j);
            proof {
                text::lemma_run_back(front@, CharClass::White, false);
            }
            j - text::run_back(front, CharClass::White, false)
        };
        let out = text::cat(text::prefix(b, k), text::suffix(b, i));
        self.buffer = out;
        self.cursor = k;
    }

    /// Delete the char before the cursor.
    pub fn backspace(&mut self)
        requires
            old(self)@.cursor <= old(self)@.buffer.len(),
        ensures
            final(self)@ == old(self)@.backspaced(),
    {
        self.pristine = false;
        if self.cursor == 0 {
            return;
        }
        let ghost was = self@;
        let k: usize = self.cursor - 1;
        let out = text::cat(
            text::prefix(self.buffer.as_str(), k),
            text::suffix(self.buffer.as_str(), k + 1),
        );
        assert(out@ =~= was.buffer.remove(k as int));
        self.buffer = out;
        self.cursor = k;
    }

    /// Refuse the suggested account, so that Enter finishes the transaction
    /// instead of accepting it. No effect on the other prompts — see
    /// [`Self::account_refused`].
    pub fn dismiss_suggestion(&mut self)
        ensures
            final(self)@ == (Entering { account_refused: true, ..old(self)@ }),
    {
        self.account_refused = true;
    }

    /// Number of postings committed so far.
    #[must_use]
    pub fn committed_postings(&self) -> (r: usize)
        ensures
            r == self@.postings.len(),
    {
        self.postings.len()
    }

    /// The payee half of the description — everything before the first `|`,
    /// or the whole thing when there is none. This is the transaction's
    /// identity: what the payee checks test and what the template keys on.
    #[must_use]
    pub fn payee(&self) -> (r: &str)
        ensures
            r@ == self@.payee(),
    {
        lex::split_payee_note(self.description.as_str()).0
    }

    /// The note half — everything after the first `|`. Equal to the payee
    /// when the description carries no `|`, as in hledger.
    #[must_use]
    pub fn note(&self) -> (r: &str)
        ensures
            r@ == lex::split_payee_note_spec(self@.description).1,
    {
        lex::split_payee_note(self.description.as_str()).1
    }

    /// Save the buffer into the current field's slot without validation
    /// (used when navigating away).
    ///
    /// A posting's comment belongs to the *line*, so it can be typed on
    /// either of the line's two fields. The amount field owns it — it is the
    /// end of the line, and the one place clearing it makes sense; the
    /// account field can only add one, which the amount field then carries.
    pub(crate) fn stash(&mut self)
        ensures
            final(self)@ == old(self)@.stashed(),
    {
        let (value, comment) = field::split_field_comment(self.buffer.as_str());
        match self.field {
            Field::Date => {
                self.date_input = value;
            },
            Field::Description => {
                self.description = value;
                self.comment = match comment {
                    Some(c) => c,
                    None => String::new(),
                };
            },
            Field::Account(i) => {
                ensure_len(&mut self.postings, field::next(i));
                let ghost ps = crate::add::write::new_posts(self.postings@);
                if i < self.postings.len() {
                    let p = &mut self.postings[i];
                    p.account = value;
                    if let Some(c) = comment {
                        p.comment = c;
                    }
                    let ghost after = p@;
                    assert(crate::add::write::new_posts(self.postings@) =~= ps.update(
                        i as int,
                        after,
                    ));
                }
            },
            Field::Amount(i) => {
                ensure_len(&mut self.postings, field::next(i));
                let ghost ps = crate::add::write::new_posts(self.postings@);
                if i < self.postings.len() {
                    let p = &mut self.postings[i];
                    p.amount = value;
                    p.comment = match comment {
                        Some(c) => c,
                        None => String::new(),
                    };
                    let ghost after = p@;
                    assert(crate::add::write::new_posts(self.postings@) =~= ps.update(
                        i as int,
                        after,
                    ));
                }
            },
        }
    }

    /// The stored text of a field (for loading on navigation), comment and
    /// all, so navigating back shows what was typed.
    fn stored(&self, f: Field) -> (r: String)
        ensures
            r@ == self@.stored(f),
    {
        match f {
            Field::Date => self.date_input.as_str().to_owned(),
            Field::Description => field::join_field_comment(
                self.description.as_str(),
                self.comment.as_str(),
            ),
            Field::Account(i) => if i < self.postings.len() {
                self.postings[i].account.as_str().to_owned()
            } else {
                String::new()
            },
            Field::Amount(i) => if i < self.postings.len() {
                field::join_field_comment(
                    self.postings[i].amount.as_str(),
                    self.postings[i].comment.as_str(),
                )
            } else {
                String::new()
            },
        }
    }

    /// Move to a field, stashing the buffer and loading the target's text.
    /// The loaded text is pristine: typing replaces it.
    pub(crate) fn goto(&mut self, f: Field)
        ensures
            final(self)@ == old(self)@.gone_to(f),
    {
        self.stash();
        self.account_refused = false;
        self.field = f;
        let ord: usize = f.ordinal();
        if self.frontier < ord {
            self.frontier = ord;
        }
        let text = self.stored(f);
        self.set_buffer(text.as_str());
        self.pristine = !text.as_str().is_empty();
    }

    /// Navigate up (earlier field). Returns whether anything moved.
    pub fn nav_up(&mut self) -> (r: bool)
        ensures
            match old(self)@.up() {
                Some(d) => r && final(self)@ == d,
                None => !r && final(self)@ == old(self)@,
            },
    {
        let ord: usize = self.field.ordinal();
        if ord == 0 {
            return false;
        }
        self.goto(Field::from_ordinal(ord - 1));
        true
    }

    /// Navigate down (later field), bounded by the frontier.
    pub fn nav_down(&mut self) -> (r: bool)
        ensures
            match old(self)@.down() {
                Some(d) => r && final(self)@ == d,
                None => !r && final(self)@ == old(self)@,
            },
    {
        let ord: usize = self.field.ordinal();
        if ord >= self.frontier {
            return false;
        }
        self.goto(Field::from_ordinal(ord + 1));
        true
    }

    /// The amounts committed so far, as raw strings.
    pub(crate) fn committed_amounts(&self) -> (r: Vec<&str>)
        ensures
            text::strs(r@) == self@.amounts(),
    {
        let mut out: Vec<&str> = Vec::new();
        let ghost want = self@.amounts();
        let mut i: usize = 0;
        while i < self.postings.len()
            invariant
                i <= self.postings@.len(),
                want == self@.amounts(),
                text::strs(out@) =~= want.take(i as int),
            decreases self.postings@.len() - i,
        {
            let ghost before = text::strs(out@);
            let a = self.postings[i].amount.as_str();
            out.push(a);
            assert(text::strs(out@) =~= before.push(a@));
            assert(want[i as int] == a@);
            i = i + 1;
        }
        assert(want.take(want.len() as int) =~= want);
        out
    }
}

// ---- what editing keeps ----

/// The cursor never leaves the buffer: whatever is typed, deleted or moved to,
/// it stands within the text.
pub proof fn the_cursor_stays_in_the_buffer(d: Entering, c: char, account_mode: bool, f: Field)
    requires
        d.cursor <= d.buffer.len() < usize::MAX,
        d.stashed().stored(f).len() <= usize::MAX,
    ensures
        d.inserted(c).cursor <= d.inserted(c).buffer.len(),
        d.word_deleted(account_mode).cursor <= d.word_deleted(account_mode).buffer.len(),
        d.backspaced().cursor <= d.backspaced().buffer.len(),
        d.gone_to(f).cursor <= d.gone_to(f).buffer.len(),
{
    let i = d.at();
    let j = if i > 0 && d.buffer[i - 1] == ':' {
        i - 1
    } else {
        i
    };
    text::lemma_run_back(d.buffer.take(j), CharClass::Is(':'), false);
    text::lemma_run_back(d.buffer.take(i), CharClass::White, true);
    let k = i - text::run_back_spec(d.buffer.take(i), CharClass::White, true);
    text::lemma_run_back(d.buffer.take(k), CharClass::White, false);
    let left = Entering { account_refused: false, field: f, ..d.stashed() };
    assert(left.stored(f) == d.stashed().stored(f));
}

/// Deleting right behind a typed character takes it away again.
pub proof fn deleting_undoes_typing(d: Entering, c: char)
    requires
        !d.pristine,
        d.cursor <= d.buffer.len() < usize::MAX,
    ensures
        d.inserted(c).backspaced() == d,
{
    assert(d.buffer.insert(d.at(), c).remove(d.at()) =~= d.buffer);
}

} // verus!
