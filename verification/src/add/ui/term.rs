//! The inline raw-mode terminal frontend: what a key does, and what the frame
//! shows.
//!
//! No alternate screen: normal scrollback is preserved and the program
//! controls only the lines around the cursor — the log of completed
//! transactions, the live transaction block, a separator carrying the running
//! imbalance, the prompt, and either the ghost suggestion or the completion
//! menu. The log lives in the live frame rather than in scrollback, so that
//! undoing a transaction takes it back off the screen; it is printed
//! permanently into scrollback only when the session ends.
//!
//! The decisions stand here and the caller has the terminal: it hands each key
//! to [`Ui::handle`], performs the [`Act`] that comes back, and paints
//! [`Ui::frame`].

use vstd::prelude::*;
use vstd::string::*;
use crate::add::ui::draft::Entering;
use crate::add::ui::field::{self, Field};
use crate::add::ui::plain;
use crate::add::ui::session::{Session, Sitting};
use crate::add::ui::submit::{self, Reply, Submit};
use crate::add::write::{NewTransaction, NewTxn};
use crate::text::{self, CharClass};

verus! {

// ---- keys and what they do ----

/// A key.
#[derive(Debug, Clone, Copy, PartialEq, Eq, Structural)]
pub enum Code {
    Char(char),
    Backspace,
    Left,
    Right,
    Up,
    Down,
    Tab,
    BackTab,
    Esc,
    Enter,
    Other,
}

/// A key press.
#[derive(Debug, Clone, Copy, PartialEq, Eq, Structural)]
pub struct Key {
    pub code: Code,
    /// Whether Control is held.
    pub ctrl: bool,
}

/// What an [`Act`] says.
#[verifier::ext_equal]
pub enum Then {
    Continue,
    Quit,
    Record(NewTxn),
    Rewrite,
    Edit(Seq<char>),
}

/// What the caller does next.
#[derive(Debug)]
pub enum Act {
    /// Nothing: draw and read the next key.
    Continue,
    /// Save everything completed and stop.
    Quit,
    /// Record the finished transaction for recovery and hand it to
    /// [`Ui::recorded`].
    Record(NewTransaction),
    /// Rewrite the recovery journal to match what is completed.
    Rewrite,
    /// Edit this text in `$EDITOR` and hand the outcome to [`Ui::edited`].
    Edit(String),
}

impl View for Act {
    type V = Then;

    open spec fn view(&self) -> Then {
        match self {
            Act::Continue => Then::Continue,
            Act::Quit => Then::Quit,
            Act::Record(t) => Then::Record(t@),
            Act::Rewrite => Then::Rewrite,
            Act::Edit(s) => Then::Edit(s@),
        }
    }
}

/// What a [`Menu`] says.
#[verifier::ext_equal]
pub struct Choices {
    pub candidates: Seq<Seq<char>>,
    pub selected: usize,
    pub offset: usize,
}

/// Open completion menu state.
#[derive(Debug)]
pub struct Menu {
    pub candidates: Vec<String>,
    pub selected: usize,
    pub offset: usize,
}

impl View for Menu {
    type V = Choices;

    open spec fn view(&self) -> Choices {
        Choices {
            candidates: text::texts(self.candidates@),
            selected: self.selected,
            offset: self.offset,
        }
    }
}

/// What a [`Note`] says.
#[verifier::ext_equal]
pub enum Notice {
    Silent,
    Info(Seq<char>),
    Error(Seq<char>),
    Confirm(Seq<char>),
}

/// A transient message under the prompt.
#[derive(Debug)]
pub enum Note {
    Silent,
    Info(String),
    Error(String),
    /// Waiting for y/n on a new account.
    Confirm(String),
}

impl View for Note {
    type V = Notice;

    open spec fn view(&self) -> Notice {
        match self {
            Note::Silent => Notice::Silent,
            Note::Info(s) => Notice::Info(s@),
            Note::Error(s) => Notice::Error(s@),
            Note::Confirm(s) => Notice::Confirm(s@),
        }
    }
}

/// What a [`Ui`] says.
#[verifier::ext_equal]
pub struct Screen {
    pub menu: Option<Choices>,
    pub note: Notice,
    pub menu_rows: usize,
}

/// What is open around the prompt.
#[derive(Debug)]
pub struct Ui {
    pub menu: Option<Menu>,
    pub note: Note,
    /// Menu entries that fit below the prompt, recomputed for each frame from
    /// the terminal height.
    pub menu_rows: usize,
}

pub open spec fn opt_choices(o: Option<Menu>) -> Option<Choices> {
    match o {
        Some(m) => Some(m@),
        None => None,
    }
}

impl View for Ui {
    type V = Screen;

    open spec fn view(&self) -> Screen {
        Screen {
            menu: opt_choices(self.menu),
            note: self.note@,
            menu_rows: self.menu_rows,
        }
    }
}

impl Choices {
    /// With the selection within the visible rows.
    pub open spec fn scrolled(self, rows: usize) -> Choices {
        let rows = if rows == 0 {
            1int
        } else {
            rows as int
        };
        let up = if self.selected < self.offset {
            self.selected
        } else {
            self.offset
        };
        Choices {
            offset: if self.selected >= field::bounded(up + rows) {
                field::bounded(
                    if self.selected < rows {
                        1
                    } else {
                        self.selected - rows + 1
                    },
                )
            } else {
                up
            },
            ..self
        }
    }

    /// With the selection moved by a navigation key.
    pub open spec fn moved(self, code: Code, rows: usize) -> Choices {
        let n = self.candidates.len();
        let last = if n == 0 {
            0
        } else {
            n - 1
        };
        let next = field::bounded(self.selected + 1);
        let selected = match code {
            Code::Up => if self.selected == 0 {
                0
            } else {
                self.selected - 1
            },
            Code::Down => if next < last {
                next as int
            } else {
                last as int
            },
            Code::Tab => if n == 0 {
                0
            } else {
                next as int % n as int
            },
            _ => if self.selected == 0 {
                last as int
            } else {
                self.selected - 1
            },
        };
        (Choices { selected: selected as usize, ..self }).scrolled(rows)
    }
}

impl Screen {
    pub open spec fn fresh() -> Screen {
        Screen { menu: None, note: Notice::Silent, menu_rows: 8 }
    }

    pub open spec fn noting(self, note: Notice) -> Screen {
        Screen { note, ..self }
    }

    pub open spec fn closed(self) -> Screen {
        Screen { menu: None, ..self }
    }

    /// With a menu of candidates, or the note that there are none.
    pub open spec fn opened(self, candidates: Seq<Seq<char>>) -> Screen {
        if candidates.len() == 0 {
            self.noting(Notice::Info("no completions"@))
        } else {
            Screen { menu: Some(Choices { candidates, selected: 0, offset: 0 }), ..self }
        }
    }

    /// What becomes of a submitted field.
    pub open spec fn apply(self, s: Sitting, reply: Reply) -> (Screen, Sitting, Then) {
        match reply {
            Reply::Advanced => (self.noting(Notice::Silent), s, Then::Continue),
            Reply::Note(n) => (self.noting(Notice::Info(n)), s, Then::Continue),
            Reply::Invalid(m) => (self.noting(Notice::Error(m)), s, Then::Continue),
            Reply::Confirm(q) => (
                self.noting(Notice::Confirm(q + " [y/n]"@)),
                s,
                Then::Continue,
            ),
            Reply::Quit => (self, s, Then::Quit),
            Reply::Undo => if s.completed.len() == 0 {
                (self, s.renewed(), Then::Continue)
            } else {
                (
                    self.noting(Notice::Info(plain::undid(s.completed.last()))),
                    (Sitting { completed: s.completed.drop_last(), ..s }).renewed(),
                    Then::Rewrite,
                )
            },
            Reply::Done(t) => (self, s, Then::Record(t)),
        }
    }

    /// A key while a question waits for its answer.
    pub open spec fn answer(self, s: Sitting, code: Code) -> (Screen, Sitting, Then) {
        if code == Code::Char('y') || code == Code::Char('Y') {
            let (after, reply) = s.confirmed();
            self.noting(Notice::Silent).apply(after, reply)
        } else if code == Code::Char('n') || code == Code::Char('N') || code == Code::Esc {
            (self.noting(Notice::Silent), s, Then::Continue)
        } else {
            (self, s, Then::Continue)
        }
    }

    /// A control-key chord.
    pub open spec fn chord(self, s: Sitting, code: Code) -> (Screen, Sitting, Then) {
        match code {
            Code::Char('c') => (
                self.closed().noting(Notice::Info("transaction aborted"@)),
                s.with_draft(Entering::fresh()),
                Then::Continue,
            ),
            Code::Char('d') => (self, s, Then::Quit),
            Code::Char('u') => (
                self.closed(),
                s.with_draft(
                    if s.draft.buffer.len() == 0 {
                        Entering { account_refused: true, ..s.draft }
                    } else {
                        s.draft.with_buffer(Seq::empty())
                    },
                ),
                Then::Continue,
            ),
            Code::Char('w') => (
                self.closed(),
                s.with_draft(s.draft.word_deleted(s.draft.field is Account)),
                Then::Continue,
            ),
            Code::Char('e') => (self.closed(), s, Then::Edit(s.editor_text())),
            _ => (self, s, Then::Continue),
        }
    }

    /// A navigation key: within an open menu it moves the selection, otherwise
    /// it moves between fields, picks up the suggestion or completes.
    pub open spec fn navigate(self, s: Sitting, code: Code) -> (Screen, Sitting) {
        match self.menu {
            Some(m) => (Screen { menu: Some(m.moved(code, self.menu_rows)), ..self }, s),
            None => match code {
                Code::Up => (
                    self.noting(Notice::Silent),
                    match s.draft.up() {
                        Some(d) => s.with_draft(d),
                        None => s,
                    },
                ),
                Code::Down => (
                    self.noting(Notice::Silent),
                    match s.draft.down() {
                        Some(d) => s.with_draft(d),
                        None => s,
                    },
                ),
                _ => match s.suggestion() {
                    Some(g) => (self, s.with_draft(s.draft.with_buffer(g))),
                    None => match s.completed_buffer() {
                        Some(t) => {
                            let after = s.with_draft(s.draft.with_buffer(t));
                            (
                                if after.candidates().len() > 1 {
                                    self.opened(after.candidates())
                                } else {
                                    self.closed()
                                },
                                after,
                            )
                        },
                        None => (self.opened(s.candidates()), s),
                    },
                },
            },
        }
    }

    /// An editing key.
    pub open spec fn edit(self, s: Sitting, code: Code) -> (Screen, Sitting, Then) {
        let d = s.draft;
        match code {
            Code::Char(c) => (
                self.closed().noting(Notice::Silent),
                s.with_draft(d.inserted(c)),
                Then::Continue,
            ),
            Code::Backspace => (
                self.closed(),
                if d.cursor <= d.buffer.len() {
                    s.with_draft(d.backspaced())
                } else {
                    s
                },
                Then::Continue,
            ),
            Code::Left => (
                self,
                if d.cursor == 0 {
                    s
                } else {
                    s.with_draft(Entering { cursor: (d.cursor - 1) as usize, ..d })
                },
                Then::Continue,
            ),
            Code::Right => if d.cursor < d.buffer.len() {
                (
                    self,
                    s.with_draft(Entering { cursor: (d.cursor + 1) as usize, ..d }),
                    Then::Continue,
                )
            } else {
                match (s.suggestion(), s.ghost_text()) {
                    (Some(g), _) => (
                        self.closed(),
                        s.with_draft(d.with_buffer(g)),
                        Then::Continue,
                    ),
                    (None, Some(g)) => (
                        self.closed(),
                        s.with_draft(d.with_buffer(g)),
                        Then::Continue,
                    ),
                    (None, None) => (self, s, Then::Continue),
                }
            },
            Code::Up | Code::Down | Code::Tab | Code::BackTab => {
                let (u, after) = self.navigate(s, code);
                (u, after, Then::Continue)
            },
            Code::Esc => (self.closed().noting(Notice::Silent), s, Then::Continue),
            Code::Enter => match self.menu {
                Some(m) => (
                    self.closed(),
                    if m.selected < m.candidates.len() {
                        s.with_draft(d.with_buffer(m.candidates[m.selected as int]))
                    } else {
                        s
                    },
                    Then::Continue,
                ),
                None => {
                    let (after, reply) = s.submitted();
                    self.apply(after, reply)
                },
            },
            Code::Other => (self, s, Then::Continue),
        }
    }

    /// What a key does. A question waiting for its answer takes every key.
    pub open spec fn handle(self, s: Sitting, key: Key) -> (Screen, Sitting, Then) {
        if self.note is Confirm {
            self.answer(s, key.code)
        } else if key.ctrl {
            self.chord(s, key.code)
        } else {
            self.edit(s, key.code)
        }
    }
}

impl Sitting {
    /// The ghost suggestion: the top candidate, when it extends the buffer.
    pub open spec fn ghost_text(self) -> Option<Seq<char>> {
        if submit::blank(self.draft.buffer) || self.candidates().len() == 0
            || self.candidates()[0] == self.draft.buffer {
            None
        } else {
            Some(self.candidates()[0])
        }
    }

    /// The draft as editor text: the preview with its indent normalised.
    pub open spec fn editor_text(self) -> Seq<char> {
        editor_lines(self.preview())
    }
}

/// Lines as editor text: all but the first indented.
pub open spec fn editor_lines(ls: Seq<Seq<char>>) -> Seq<char>
    decreases ls.len(),
{
    if ls.len() == 0 {
        Seq::empty()
    } else {
        editor_lines(ls.drop_last()) + (if ls.len() > 1 {
            "    "@
        } else {
            Seq::empty()
        }) + text::trim_start_spec(ls.last(), CharClass::White) + seq!['\n']
    }
}

/// The draft as editor text (Ctrl-E).
fn editor_text(session: &Session) -> (r: String)
    ensures
        r@ == session@.editor_text(),
{
    let lines = session.preview_lines();
    let ghost all = text::texts(lines@);
    let mut out = String::new();
    let mut i: usize = 0;
    assert(out@ =~= editor_lines(all.take(0)));
    while i < lines.len()
        invariant
            i <= lines@.len(),
            all == text::texts(lines@),
            out@ == editor_lines(all.take(i as int)),
        decreases lines@.len() - i,
    {
        let ghost before = out@;
        assert(all.take(i + 1).drop_last() =~= all.take(i as int));
        assert(all.take(i + 1).last() == lines@[i as int]@);
        let l = text::trim_start(lines[i].as_str(), CharClass::White);
        // Postings need their indent back.
        if i > 0 {
            out.append("    ");
        }
        out.append(l);
        out.push('\n');
        assert(out@ =~= before + (if i > 0 {
            "    "@
        } else {
            Seq::empty()
        }) + l@ + seq!['\n']);
        i = i + 1;
    }
    assert(all.take(all.len() as int) =~= all);
    out
}

/// The ghost suggestion: the top candidate, when it extends the buffer.
pub(crate) fn ghost_of(session: &Session) -> (r: Option<String>)
    ensures
        text::opt_text(r) == session@.ghost_text(),
{
    if text::trim(session.draft.buffer.as_str(), CharClass::White).is_empty() {
        return None;
    }
    let candidates = session.candidates();
    assert(text::texts(candidates@).len() == candidates@.len());
    if candidates.len() == 0 {
        return None;
    }
    assert(text::texts(candidates@)[0] == candidates@[0]@);
    if text::same(candidates[0].as_str(), session.draft.buffer.as_str()) {
        None
    } else {
        Some(candidates[0].as_str().to_owned())
    }
}

impl Menu {
    /// Keep the selection within a `rows`-tall visible window.
    fn scroll(&mut self, rows: usize)
        ensures
            final(self)@ == old(self)@.scrolled(rows),
    {
        let rows: usize = if rows == 0 {
            1
        } else {
            rows
        };
        if self.selected < self.offset {
            self.offset = self.selected;
        }
        let bottom: usize = if rows > usize::MAX - self.offset {
            usize::MAX
        } else {
            self.offset + rows
        };
        if self.selected >= bottom {
            self.offset = if self.selected < rows {
                1
            } else {
                self.selected - rows + 1
            };
        }
    }

    /// Move the selection.
    fn move_by(&mut self, code: Code, rows: usize)
        ensures
            final(self)@ == old(self)@.moved(code, rows),
    {
        let n: usize = self.candidates.len();
        let last: usize = if n == 0 {
            0
        } else {
            n - 1
        };
        let next: usize = field::next(self.selected);
        assert(self@.candidates.len() == n);
        self.selected = match code {
            Code::Up => if self.selected == 0 {
                0
            } else {
                self.selected - 1
            },
            Code::Down => if next < last {
                next
            } else {
                last
            },
            Code::Tab => if n == 0 {
                0
            } else {
                next % n
            },
            _ => if self.selected == 0 {
                last
            } else {
                self.selected - 1
            },
        };
        self.scroll(rows);
    }
}

impl Default for Ui {
    fn default() -> (r: Self)
        ensures
            r@ == Screen::fresh(),
    {
        Ui { menu: None, note: Note::Silent, menu_rows: 8 }
    }
}

impl Ui {
    /// Handle a key.
    pub fn handle(&mut self, session: &mut Session, key: Key) -> (r: Act)
        ensures
            (final(self)@, final(session)@, r@) == old(self)@.handle(old(session)@, key),
    {
        // A pending new-account confirmation swallows y/n/Esc.
        let asked = match &self.note {
            Note::Confirm(_) => true,
            _ => false,
        };
        if asked {
            self.handle_answer(session, key.code)
        } else if key.ctrl {
            self.handle_ctrl(session, key.code)
        } else {
            self.handle_edit(session, key.code)
        }
    }

    fn handle_answer(&mut self, session: &mut Session, code: Code) -> (r: Act)
        ensures
            (final(self)@, final(session)@, r@) == old(self)@.answer(old(session)@, code),
    {
        match code {
            Code::Char('y') | Code::Char('Y') => {
                self.note = Note::Silent;
                let reply = session.submit_confirmed();
                self.apply_submit(session, reply)
            },
            Code::Char('n') | Code::Char('N') | Code::Esc => {
                self.note = Note::Silent;
                Act::Continue
            },
            _ => Act::Continue,
        }
    }

    /// Control-key chords.
    fn handle_ctrl(&mut self, session: &mut Session, code: Code) -> (r: Act)
        ensures
            (final(self)@, final(session)@, r@) == old(self)@.chord(old(session)@, code),
    {
        match code {
            Code::Char('c') => {
                session.reset_draft();
                self.menu = None;
                self.note = Note::Info("transaction aborted".to_owned());
                Act::Continue
            },
            Code::Char('d') => Act::Quit,
            Code::Char('u') => {
                // Clear what is typed. On an already-empty account prompt
                // there is nothing to clear, so it refuses the suggested
                // account instead — the only way to reach "finish the
                // transaction" while an account is being offered. Elsewhere
                // an empty buffer means Ctrl-U has nothing to do.
                if session.draft.buffer.as_str().is_empty() {
                    session.draft.dismiss_suggestion();
                } else {
                    proof {
                        reveal_strlit("");
                        assert(""@ =~= Seq::<char>::empty());
                    }
                    session.draft.set_buffer("");
                }
                self.menu = None;
                Act::Continue
            },
            Code::Char('w') => {
                let account_mode = match session.draft.field {
                    Field::Account(_) => true,
                    _ => false,
                };
                session.draft.delete_word(account_mode);
                self.menu = None;
                Act::Continue
            },
            Code::Char('e') => {
                self.menu = None;
                Act::Edit(editor_text(session))
            },
            _ => Act::Continue,
        }
    }

    fn handle_edit(&mut self, session: &mut Session, code: Code) -> (r: Act)
        ensures
            (final(self)@, final(session)@, r@) == old(self)@.edit(old(session)@, code),
    {
        match code {
            Code::Char(c) => {
                session.draft.insert(c);
                self.menu = None;
                self.note = Note::Silent;
                Act::Continue
            },
            Code::Backspace => {
                let len: usize = text::count(session.draft.buffer.as_str());
                if session.draft.cursor <= len {
                    session.draft.backspace();
                }
                self.menu = None;
                Act::Continue
            },
            Code::Left => {
                if session.draft.cursor > 0 {
                    session.draft.cursor = session.draft.cursor - 1;
                }
                Act::Continue
            },
            Code::Right => {
                self.pick_up(session);
                Act::Continue
            },
            Code::Up | Code::Down | Code::Tab | Code::BackTab => {
                self.navigate(session, code);
                Act::Continue
            },
            Code::Esc => {
                self.menu = None;
                self.note = Note::Silent;
                Act::Continue
            },
            Code::Enter => {
                if let Some(m) = &self.menu {
                    assert(text::texts(m.candidates@).len() == m.candidates@.len());
                    if m.selected < m.candidates.len() {
                        session.draft.set_buffer(m.candidates[m.selected].as_str());
                    }
                    self.menu = None;
                    return Act::Continue;
                }
                let reply = session.submit();
                self.apply_submit(session, reply)
            },
            Code::Other => Act::Continue,
        }
    }

    /// → moves the cursor; at the end of the line it accepts the grey
    /// suggestion.
    fn pick_up(&mut self, session: &mut Session)
        ensures
            (final(self)@, final(session)@, Then::Continue) == old(self)@.edit(
                old(session)@,
                Code::Right,
            ),
    {
        let len: usize = text::count(session.draft.buffer.as_str());
        if session.draft.cursor < len {
            session.draft.cursor = session.draft.cursor + 1;
        } else if let Some(s) = session.suggestion() {
            // → on the empty field picks up the grey suggestion.
            session.draft.set_buffer(s.as_str());
            self.menu = None;
        } else if let Some(g) = ghost_of(session) {
            // → at end of line accepts the ghost suggestion.
            session.draft.set_buffer(g.as_str());
            self.menu = None;
        }
    }

    /// The navigation keys: within an open menu they move the selection,
    /// otherwise ↑/↓ move between fields and Tab/Shift-Tab pick up the grey
    /// suggestion or open the menu. On an empty buffer that menu is the
    /// field's whole candidate list, so it doubles as history.
    fn navigate(&mut self, session: &mut Session, code: Code)
        ensures
            (final(self)@, final(session)@) == old(self)@.navigate(old(session)@, code),
    {
        let rows: usize = self.menu_rows;
        if let Some(m) = &mut self.menu {
            m.move_by(code, rows);
            return;
        }
        match code {
            Code::Up => {
                let _ = session.draft.nav_up();
                self.note = Note::Silent;
            },
            Code::Down => {
                let _ = session.draft.nav_down();
                self.note = Note::Silent;
            },
            _ => {
                if let Some(s) = session.suggestion() {
                    session.draft.set_buffer(s.as_str());
                } else if let Some(t) = session.complete_buffer() {
                    // Tab completes as far as the candidates unanimously
                    // agree. If that settled it, get out of the way;
                    // otherwise show what is left to choose between.
                    session.draft.set_buffer(t.as_str());
                    let candidates = session.candidates();
                    assert(text::texts(candidates@).len() == candidates@.len());
                    if candidates.len() > 1 {
                        self.open_menu(candidates);
                    } else {
                        self.menu = None;
                    }
                } else {
                    let candidates = session.candidates();
                    self.open_menu(candidates);
                }
            },
        }
    }

    fn apply_submit(&mut self, session: &mut Session, result: Submit) -> (r: Act)
        ensures
            (final(self)@, final(session)@, r@) == old(self)@.apply(old(session)@, result@),
    {
        match result {
            Submit::Advanced => {
                self.note = Note::Silent;
                Act::Continue
            },
            Submit::AdvancedWithNote(n) => {
                self.note = Note::Info(n);
                Act::Continue
            },
            Submit::Invalid(m) => {
                self.note = Note::Error(m);
                Act::Continue
            },
            Submit::Confirm { question } => {
                self.note = Note::Confirm(text::cat(question.as_str(), " [y/n]"));
                Act::Continue
            },
            Submit::Quit => Act::Quit,
            Submit::Undo => match session.undo() {
                Some(t) => {
                    self.note = Note::Info(plain::undone_line(&t));
                    Act::Rewrite
                },
                None => Act::Continue,
            },
            Submit::Done(txn) => Act::Record(txn),
        }
    }

    fn open_menu(&mut self, candidates: Vec<String>)
        ensures
            final(self)@ == old(self)@.opened(text::texts(candidates@)),
    {
        assert(text::texts(candidates@).len() == candidates@.len());
        if candidates.len() == 0 {
            self.note = Note::Info("no completions".to_owned());
        } else {
            self.menu = Some(Menu { candidates, selected: 0, offset: 0 });
        }
    }

    /// Bank a finished transaction that was recorded for recovery, or could
    /// not be for the given reason. The finished block joins the in-frame log;
    /// the next frame shows it above the prompt. Nothing goes to scrollback
    /// yet — `u` may still take it back.
    pub fn recorded(
        &mut self,
        session: &mut Session,
        txn: NewTransaction,
        failure: Option<String>,
    )
        ensures
            final(session)@ == (Sitting {
                completed: old(session)@.completed.push(txn@),
                ..old(session)@
            }).renewed(),
            final(self)@ == (match failure {
                Some(why) => old(self)@.noting(
                    Notice::Error("could not write the recovery journal: "@ + why@),
                ),
                None => old(self)@,
            }),
    {
        if let Some(why) = failure {
            self.note = Note::Error(
                text::cat("could not write the recovery journal: ", why.as_str()),
            );
        }
        session.complete(txn);
    }

    /// Take what came back from the editor: the first transaction of its text,
    /// or nothing where it did not succeed.
    pub fn edited(&mut self, session: &mut Session, result: EditorResult)
        ensures
            (final(self)@, final(session)@) == old(self)@.after_editor(
                old(session)@,
                result@,
            ),
    {
        match result {
            EditorResult::Saved(txn) => match txn {
                Some(t) => {
                    session.load_draft_from(&t);
                    self.note = Note::Info("reloaded from editor".to_owned());
                },
                None => {
                    self.note = Note::Error("editor result did not parse; draft kept".to_owned());
                },
            },
            EditorResult::Failed => {
                self.note = Note::Info("editor exited nonzero; draft kept".to_owned());
            },
            // A missing editor is the usual cause here, and `$EDITOR` is what
            // to change; the OS's word for it on its own explains nothing.
            EditorResult::Missing { editor } => {
                let m = text::cat3("no editor called ", editor.as_str(), " — check $EDITOR");
                self.note = Note::Error(m);
            },
            EditorResult::Unusable { editor, why } => {
                let mut m = text::cat3("could not run ", editor.as_str(), ": ");
                m.append(why.as_str());
                self.note = Note::Error(m);
            },
        }
    }
}

/// What an [`EditorResult`] says.
#[verifier::ext_equal]
pub enum Edited {
    Saved(Option<NewTxn>),
    Failed,
    Missing(Seq<char>),
    Unusable(Seq<char>, Seq<char>),
}

/// What came of editing the draft in `$EDITOR`.
#[derive(Debug)]
pub enum EditorResult {
    /// The editor ended well, with this first transaction in its text.
    Saved(Option<NewTransaction>),
    /// The editor ended badly.
    Failed,
    /// There is no such editor.
    Missing { editor: String },
    /// The editor cannot be run.
    Unusable { editor: String, why: String },
}

impl View for EditorResult {
    type V = Edited;

    open spec fn view(&self) -> Edited {
        match self {
            EditorResult::Saved(t) => Edited::Saved(
                match t {
                    Some(t) => Some(t@),
                    None => None,
                },
            ),
            EditorResult::Failed => Edited::Failed,
            EditorResult::Missing { editor } => Edited::Missing(editor@),
            EditorResult::Unusable { editor, why } => Edited::Unusable(editor@, why@),
        }
    }
}

impl Screen {
    /// What becomes of the outcome of editing.
    pub open spec fn after_editor(self, s: Sitting, e: Edited) -> (Screen, Sitting) {
        match e {
            Edited::Saved(Some(t)) => (
                self.noting(Notice::Info("reloaded from editor"@)),
                s.loaded(t),
            ),
            Edited::Saved(None) => (
                self.noting(Notice::Error("editor result did not parse; draft kept"@)),
                s,
            ),
            Edited::Failed => (
                self.noting(Notice::Info("editor exited nonzero; draft kept"@)),
                s,
            ),
            Edited::Missing(editor) => (
                self.noting(
                    Notice::Error("no editor called "@ + editor + " — check $EDITOR"@),
                ),
                s,
            ),
            Edited::Unusable(editor, why) => (
                self.noting(Notice::Error("could not run "@ + editor + ": "@ + why)),
                s,
            ),
        }
    }
}

/// A waiting question is never lost to a stray key: only y, n or Esc end it.
pub proof fn a_question_waits_for_its_answer(u: Screen, s: Sitting, key: Key)
    requires
        u.note is Confirm,
        key.code != Code::Char('y') && key.code != Code::Char('Y') && key.code != Code::Char('n')
            && key.code != Code::Char('N') && key.code != Code::Esc,
    ensures
        u.handle(s, key) == (u, s, Then::Continue),
{
}

/// The selection of a menu stays among its candidates and in sight.
pub proof fn the_selection_stays_visible(m: Choices, code: Code, rows: usize)
    requires
        m.selected < m.candidates.len() < usize::MAX,
        rows > 0,
        m.offset + rows <= usize::MAX,
    ensures
        m.moved(code, rows).selected < m.candidates.len(),
        m.moved(code, rows).offset <= m.moved(code, rows).selected,
        m.moved(code, rows).selected < m.moved(code, rows).offset + rows,
{
    assert(m.selected + 1 >= 0);
    if code == Code::Tab {
        let n = m.candidates.len() as int;
        assert(0 <= (m.selected + 1) % n < n) by (nonlinear_arith)
            requires
                n > 0,
        ;
    }
}

} // verus!
