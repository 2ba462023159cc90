//! Plain line-based entry, used when stdin is not a terminal (pipes,
//! scripts, tests). Same state machine as the interactive mode, no raw-mode
//! anything.
//!
//! Protocol per prompt: the pre-fill is shown in brackets; an empty line
//! accepts it, a line of a single `.` clears it (entering "empty"), anything
//! else replaces it. The end of the input ends the session (like Ctrl-D).
//!
//! The decisions stand here and the caller reads and writes: it shows
//! [`prompt`], hands the line it read to [`take_line`], and performs the
//! [`Action`] that comes back.

use vstd::prelude::*;
use vstd::string::*;
use crate::add::scope::Rewrites;
use crate::add::ui::draft::Entering;
use crate::add::ui::preview;
use crate::add::ui::session::{Session, Sitting};
use crate::add::ui::submit::{Reply, Submit};
use crate::add::write::{NewTransaction, NewTxn};
use crate::fmt;
use crate::fmt::posting::{self, Post};
use crate::text::{self, CharClass};

verus! {

/// What an [`Action`] says.
#[verifier::ext_equal]
pub enum Step {
    Nothing,
    Say(Seq<char>),
    Ask(Seq<char>),
    Record(NewTxn),
    Rewrite(Seq<char>),
    Stop,
}

/// What the caller does next.
#[derive(Debug)]
pub enum Action {
    /// Nothing: show the next prompt.
    Nothing,
    /// Print a line.
    Say(String),
    /// Print a question, read a line and hand it to [`take_answer`].
    Ask(String),
    /// Record the finished transaction for recovery and [`bank`] it.
    Record(NewTransaction),
    /// Rewrite the recovery journal to match what is completed, and print a
    /// line.
    Rewrite(String),
    /// Save everything completed and stop.
    Stop,
}

impl View for Action {
    type V = Step;

    open spec fn view(&self) -> Step {
        match self {
            Action::Nothing => Step::Nothing,
            Action::Say(s) => Step::Say(s@),
            Action::Ask(s) => Step::Ask(s@),
            Action::Record(t) => Step::Record(t@),
            Action::Rewrite(s) => Step::Rewrite(s@),
            Action::Stop => Step::Stop,
        }
    }
}

/// The line about an undone transaction.
pub open spec fn undid(t: NewTxn) -> Seq<char> {
    "undid: "@ + t.date.text() + " "@ + t.description
}

/// The line about an undone transaction.
pub(crate) fn undone_line(t: &NewTransaction) -> (r: String)
    ensures
        r@ == undid(t@),
{
    let mut s = text::cat3("undid: ", t.date.to_text().as_str(), " ");
    s.append(t.description.as_str());
    s
}

/// The lines of a finished transaction, aligned to the given widths or wider.
pub open spec fn done_lines(t: NewTxn, acc_w: nat, num_w: nat) -> Seq<Seq<char>> {
    let ps = preview::as_posts(
        crate::add::write::post_lines(t.postings, Rewrites::none()),
    );
    let a = fmt::longer(acc_w, fmt::account_width(ps));
    let n = fmt::longer(num_w, fmt::number_width(ps));
    seq![t.header()] + ps.map_values(|p: Post| posting::render_spec(a, n, p))
}

impl Sitting {
    /// The prompt: the field, what Enter would take, and a hint.
    pub open spec fn plain_prompt(self) -> Seq<char> {
        let offered = if self.draft.buffer.len() > 0 {
            self.draft.buffer
        } else {
            match self.suggestion() {
                Some(s) => s,
                None => Seq::empty(),
            }
        };
        let hint = match self.hint() {
            Some(h) => " ("@ + h + ")"@,
            None => Seq::empty(),
        };
        self.draft.field.label_spec() + (if offered.len() == 0 {
            Seq::empty()
        } else {
            " ["@ + offered + "]"@
        }) + hint + ": "@
    }

    /// What becomes of a submitted line.
    pub open spec fn plain_reply(self, reply: Reply) -> (Sitting, Step) {
        match reply {
            Reply::Advanced => (self, Step::Nothing),
            Reply::Note(n) => (self, Step::Say("note: "@ + n)),
            Reply::Invalid(m) => (self, Step::Say("error: "@ + m)),
            Reply::Quit => (self, Step::Stop),
            Reply::Confirm(q) => (self, Step::Ask(q + " [y/N]: "@)),
            Reply::Done(t) => (self, Step::Record(t)),
            Reply::Undo => if self.completed.len() == 0 {
                (self.renewed(), Step::Nothing)
            } else {
                (
                    (Sitting { completed: self.completed.drop_last(), ..self }).renewed(),
                    Step::Rewrite(undid(self.completed.last())),
                )
            },
        }
    }

    /// Take a line of input.
    pub open spec fn plain_line(self, line: Seq<char>) -> (Sitting, Step) {
        let typed = text::trim_end_spec(line, CharClass::Break);
        let s = if typed.len() == 0 {
            self
        } else if typed == "."@ {
            self.with_draft(
                Entering {
                    account_refused: true,
                    ..self.draft.with_buffer(Seq::empty())
                },
            )
        } else {
            self.with_draft(self.draft.with_buffer(typed))
        };
        let (after, reply) = s.submitted();
        after.plain_reply(reply)
    }

    /// Take the answer to a question.
    pub open spec fn plain_answer(self, answer: Seq<char>) -> (Sitting, Step) {
        let typed = text::trim_spec(answer, CharClass::White);
        if typed == "y"@ || typed == "Y"@ {
            let (after, reply) = self.confirmed();
            match reply {
                Reply::Invalid(m) => (after, Step::Say("error: "@ + m)),
                Reply::Done(t) => (after, Step::Record(t)),
                _ => (after, Step::Nothing),
            }
        } else {
            (self, Step::Say("kept the field for editing"@))
        }
    }
}

/// The prompt for the current field.
#[must_use]
pub fn prompt(session: &Session) -> (r: String)
    ensures
        r@ == session@.plain_prompt(),
{
    // What Enter would take: the text already in the buffer, or the ghost
    // suggestion offered for an empty one.
    let offered = if session.draft.buffer.as_str().is_empty() {
        match session.suggestion() {
            Some(s) => s,
            None => String::new(),
        }
    } else {
        session.draft.buffer.as_str().to_owned()
    };
    let mut out = session.draft.field.label();
    let ghost label = out@;
    if !offered.as_str().is_empty() {
        out.append(" [");
        out.append(offered.as_str());
        out.append("]");
    }
    assert(out@ =~= label + (if offered@.len() == 0 {
        Seq::empty()
    } else {
        " ["@ + offered@ + "]"@
    }));
    let ghost shown = out@;
    if let Some(h) = session.hint() {
        out.append(" (");
        out.append(h.as_str());
        out.append(")");
        assert(out@ =~= shown + (" ("@ + h@ + ")"@));
    } else {
        assert(out@ =~= shown + Seq::<char>::empty());
    }
    out.append(": ");
    out
}

/// Take a line of input: submit it for the current field.
pub fn take_line(session: &mut Session, line: &str) -> (r: Action)
    ensures
        (final(session)@, r@) == old(session)@.plain_line(line@),
{
    let typed = text::trim_end(line, CharClass::Break);
    if typed.is_empty() {
        // accept whatever is offered
    } else if text::same(typed, ".") {
        // `.` is this frontend's Ctrl-U: refuse what is offered.
        proof {
            reveal_strlit("");
            assert(""@ =~= Seq::<char>::empty());
        }
        session.draft.set_buffer("");
        session.draft.dismiss_suggestion();
    } else {
        session.draft.set_buffer(typed);
    }
    match session.submit() {
        Submit::Advanced => Action::Nothing,
        Submit::AdvancedWithNote(note) => Action::Say(text::cat("note: ", note.as_str())),
        Submit::Invalid(msg) => Action::Say(text::cat("error: ", msg.as_str())),
        Submit::Quit => Action::Stop,
        Submit::Confirm { question } => Action::Ask(text::cat(question.as_str(), " [y/N]: ")),
        Submit::Undo => match session.undo() {
            Some(t) => Action::Rewrite(undone_line(&t)),
            None => Action::Nothing,
        },
        Submit::Done(txn) => Action::Record(txn),
    }
}

/// Take the answer to a question.
pub fn take_answer(session: &mut Session, answer: &str) -> (r: Action)
    ensures
        (final(session)@, r@) == old(session)@.plain_answer(answer@),
{
    let typed = text::trim(answer, CharClass::White);
    if text::same(typed, "y") || text::same(typed, "Y") {
        match session.submit_confirmed() {
            Submit::Invalid(msg) => Action::Say(text::cat("error: ", msg.as_str())),
            Submit::Done(txn) => Action::Record(txn),
            _ => Action::Nothing,
        }
    } else {
        Action::Say("kept the field for editing".to_owned())
    }
}

/// Bank one finished transaction. Gives the lines to echo.
pub fn bank(session: &mut Session, txn: NewTransaction) -> (r: Vec<String>)
    ensures
        text::texts(r@) == done_lines(
            txn@,
            old(session)@.ctx.acc_w,
            old(session)@.ctx.num_w,
        ),
        final(session)@ == (Sitting {
            completed: old(session)@.completed.push(txn@),
            ..old(session)@
        }).renewed(),
{
    let lines = render_done(session, &txn);
    session.complete(txn);
    lines
}

/// Take over the transactions a dead session left behind. Gives what to tell
/// the user, if there are any.
pub fn replay(session: &mut Session, pending: Vec<NewTransaction>) -> (r: Option<String>)
    ensures
        final(session)@ == (Sitting {
            completed: old(session)@.completed + crate::add::write::new_txns(pending@),
            ..old(session)@
        }),
        text::opt_text(r) == (if pending@.len() == 0 {
            None
        } else {
            Some(
                "recovered "@ + text::digits_spec(pending@.len())
                    + " transaction(s) from an interrupted session"@,
            )
        }),
{
    let ghost was = session@;
    let ghost more = crate::add::write::new_txns(pending@);
    let n: usize = pending.len();
    let mut pending = pending;
    session.completed.append(&mut pending);
    assert(session@.completed =~= was.completed + more);
    if n == 0 {
        return None;
    }
    Some(
        text::cat3(
            "recovered ",
            text::digits(n).as_str(),
            " transaction(s) from an interrupted session",
        ),
    )
}

/// The finished transaction, rendered as it will be written (at the file's
/// widths, grown by its own content).
#[must_use]
pub fn render_done(session: &Session, txn: &NewTransaction) -> (r: Vec<String>)
    ensures
        text::texts(r@) == done_lines(txn@, session@.ctx.acc_w, session@.ctx.num_w),
{
    let mut raw = txn.raw_lines();
    let ghost rv = text::texts(raw@);
    assert(rv.len() == raw@.len());
    let header = raw.remove(0);
    assert(header@ == txn@.header()) by {
        assert(rv[0] == header@);
    }
    assert(text::texts(raw@) =~= crate::add::write::post_lines(
        txn@.postings,
        Rewrites::none(),
    )) by {
        assert(text::texts(raw@) =~= rv.skip(1));
    }
    let (posts, acc_w, num_w) = preview::measure(
        raw.as_slice(),
        (session.ctx.acc_w, session.ctx.num_w),
    );
    let ghost want = done_lines(txn@, session@.ctx.acc_w, session@.ctx.num_w);
    let ghost rendered = posting::posts(posts@).map_values(
        |p: Post| posting::render_spec(acc_w as nat, num_w as nat, p),
    );
    let mut out: Vec<String> = Vec::new();
    out.push(header);
    assert(want =~= seq![header@] + rendered);
    assert(text::texts(out@) =~= want.take(1));
    let mut j: usize = 0;
    while j < posts.len()
        invariant
            j <= posts@.len(),
            rendered == posting::posts(posts@).map_values(
                |p: Post| posting::render_spec(acc_w as nat, num_w as nat, p),
            ),
            want == seq![header@] + rendered,
            text::texts(out@) == want.take(1 + j),
        decreases posts@.len() - j,
    {
        let line = posting::render(acc_w, num_w, &posts[j]);
        assert(posting::posts(posts@)[j as int] == posts@[j as int]@);
        assert(want[1 + j] == line@);
        let ghost before = text::texts(out@);
        out.push(line);
        assert(text::texts(out@) =~= before.push(want[1 + j]));
        assert(want.take(2 + j) =~= want.take(1 + j).push(want[1 + j]));
        j = j + 1;
    }
    assert(want.take(want.len() as int) =~= want);
    out
}

} // verus!
