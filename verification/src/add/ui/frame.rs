//! The live frame: the rows that the terminal shows.

use vstd::prelude::*;
use vstd::string::*;
use crate::add::ui::field;
use crate::add::ui::plain;
use crate::add::ui::session::{Session, Sitting};
use crate::add::ui::term::{self, Choices, Menu, Note, Notice, Screen, Ui};
use crate::add::write::NewTxn;
use crate::amount;
use crate::text::{self, CharClass};

verus! {

/// What a [`Span`] says: a text, and whether it is dim.
#[verifier::ext_equal]
pub struct Piece {
    pub text: Seq<char>,
    pub dim: bool,
}

/// A piece of a row.
#[derive(Debug)]
pub struct Span {
    pub text: String,
    /// Whether it is shown dim.
    pub dim: bool,
}

impl View for Span {
    type V = Piece;

    open spec fn view(&self) -> Piece {
        Piece { text: self.text@, dim: self.dim }
    }
}

/// A row: one or more pieces.
pub open spec fn row_view(v: Seq<Span>) -> Seq<Piece> {
    v.map_values(|s: Span| s@)
}

/// Rows.
pub open spec fn rows_view(v: Seq<Vec<Span>>) -> Seq<Seq<Piece>> {
    v.map_values(|r: Vec<Span>| row_view(r@))
}

/// A row of one piece.
pub open spec fn one(s: Seq<char>, dim: bool) -> Seq<Piece> {
    seq![Piece { text: s, dim }]
}

/// Append a row of one piece.
fn push_row(rows: &mut Vec<Vec<Span>>, s: String, dim: bool)
    ensures
        rows_view(final(rows)@) == rows_view(old(rows)@).push(one(s@, dim)),
{
    let ghost was = rows_view(rows@);
    let ghost want = one(s@, dim);
    let mut row: Vec<Span> = Vec::new();
    row.push(Span { text: s, dim });
    assert(row_view(row@) =~= want);
    rows.push(row);
    assert(rows_view(rows@) =~= was.push(want));
}

// ---- the log of completed transactions ----

/// The blocks of completed transactions, each with a blank line behind it.
pub open spec fn block_of(t: NewTxn, acc_w: nat, num_w: nat) -> Seq<Seq<char>> {
    plain::done_lines(t, acc_w, num_w).push(Seq::empty())
}

/// How many lines the last `n` of some blocks have.
pub open spec fn height_of(blocks: Seq<Seq<Seq<char>>>, n: int) -> int
    decreases n,
{
    if n <= 0 {
        0
    } else {
        height_of(blocks, n - 1) + blocks[blocks.len() - n].len()
    }
}

/// How many of the last blocks fit, `n` of which do.
pub open spec fn fitting(blocks: Seq<Seq<Seq<char>>>, budget: int, n: int) -> int
    decreases blocks.len() - n,
{
    if 0 <= n < blocks.len() && height_of(blocks, n + 1) <= budget {
        fitting(blocks, budget, n + 1)
    } else {
        n
    }
}

/// How many of the last blocks are shown: those that fit, but one less where
/// the line that stands in for the hidden ones needs its row.
pub open spec fn shown(blocks: Seq<Seq<Seq<char>>>, budget: int) -> int {
    let n = fitting(blocks, budget, 0);
    if n < blocks.len() && n > 0 && height_of(blocks, n) + 1 > budget {
        n - 1
    } else {
        n
    }
}

/// The rows of blocks.
pub open spec fn block_rows(blocks: Seq<Seq<Seq<char>>>) -> Seq<Seq<Piece>>
    decreases blocks.len(),
{
    if blocks.len() == 0 {
        Seq::empty()
    } else {
        block_rows(blocks.drop_last()) + blocks.last().map_values(
            |l: Seq<char>| one(text::trim_end_spec("  "@ + l, CharClass::White), false),
        )
    }
}

/// The completed transactions as rows, newest last, and a line standing in
/// for those that do not fit.
pub open spec fn log_spec(blocks: Seq<Seq<Seq<char>>>, budget: int) -> Seq<Seq<Piece>> {
    if budget == 0 || blocks.len() == 0 {
        Seq::empty()
    } else {
        let n = shown(blocks, budget);
        let hidden = blocks.len() - n;
        (if hidden > 0 {
            seq![
                one(
                    "  … "@ + text::digits_spec(hidden as nat) + " earlier transaction(s)"@,
                    true,
                ),
            ]
        } else {
            Seq::empty()
        }) + block_rows(blocks.skip(hidden))
    }
}

impl Sitting {
    /// The blocks of the completed transactions.
    pub open spec fn blocks(self) -> Seq<Seq<Seq<char>>> {
        self.completed.map_values(
            |t: NewTxn| block_of(t, self.ctx.acc_w, self.ctx.num_w),
        )
    }

    /// The running imbalance, as the separator shows it.
    pub open spec fn status(self) -> Seq<char> {
        match amount::imbalance_spec(self.draft.amounts(), self.ctx.amounts, false) {
            None => " imbalance unknown "@,
            Some(sums) => if sums.len() == 0 {
                Seq::empty()
            } else {
                " imbalance "@ + self.off_by(sums) + " "@
            },
        }
    }

    /// The separator line.
    pub open spec fn separator(self, width: int) -> Seq<char> {
        let front = "  "@ + text::repeat_spec('─', 6) + self.status();
        let left = width - front.len() - 2;
        front + text::repeat_spec(
            '─',
            if left > 0 {
                left as nat
            } else {
                0
            },
        )
    }

    /// The prompt row, with the suggestion where no menu is open.
    pub open spec fn prompt_row(self, menu_open: bool) -> Seq<Piece> {
        let line = one(
            "  "@ + self.draft.field.label_spec() + " › "@ + self.draft.buffer,
            false,
        );
        match self.suggestion() {
            Some(s) => if menu_open {
                line
            } else {
                line.push(Piece { text: s, dim: true })
            },
            None => line,
        }
    }

    /// The rows above the prompt.
    pub open spec fn upper(self, width: int, height: int) -> Seq<Seq<Piece>> {
        let preview = self.preview();
        let left = height - preview.len() - 4;
        log_spec(
            self.blocks(),
            if left > 0 {
                left
            } else {
                0
            },
        ) + preview.map_values(|l: Seq<char>| one("  "@ + l, false)) + seq![
            one(self.separator(width), true),
        ]
    }
}

/// The visible part of a menu.
pub open spec fn menu_spec(m: Choices, rows: int) -> Seq<Seq<Piece>> {
    let n = m.candidates.len();
    let end = if m.offset + rows < n {
        m.offset + rows
    } else {
        n as int
    };
    (if m.offset <= end {
        Seq::new(
            (end - m.offset) as nat,
            |i: int|
                one(
                    "  "@ + (if m.offset + i == m.selected {
                        "▸"@
                    } else {
                        " "@
                    }) + " "@ + m.candidates[m.offset + i],
                    m.offset + i != m.selected,
                ),
        )
    } else {
        Seq::empty()
    }) + (if n > rows {
        seq![
            one(
                "    "@ + text::digits_spec(field::bounded(m.offset + 1) as nat) + "–"@ + text::digits_spec(
                    end as nat,
                ) + " of "@ + text::digits_spec(n),
                true,
            ),
        ]
    } else {
        Seq::empty()
    })
}

/// What stands below the prompt.
pub open spec fn lower_spec(u: Screen, s: Sitting, rows: int) -> Seq<Seq<Piece>> {
    match (u.menu, u.note) {
        (Some(m), _) => menu_spec(m, rows),
        (None, Notice::Silent) => match (s.ghost_text(), s.hint()) {
            (Some(g), _) => seq![one("    "@ + g + "  ← → to accept"@, true)],
            (None, Some(h)) => seq![one("  "@ + h, true)],
            (None, None) => Seq::empty(),
        },
        (None, Notice::Info(n)) => seq![one("  "@ + n, true)],
        (None, Notice::Confirm(n)) => seq![one("  "@ + n, true)],
        (None, Notice::Error(e)) => seq![one("  ✗ "@ + e, false)],
    }
}

/// How many menu entries fit below the prompt.
pub open spec fn room(height: int, above: int) -> int {
    if height - above - 2 > 1 {
        height - above - 2
    } else {
        1
    }
}

/// The blocks of the completed transactions.
fn blocks_of(session: &Session) -> (r: Vec<Vec<String>>)
    ensures
        r@.map_values(|b: Vec<String>| text::texts(b@)) == session@.blocks(),
{
    let mut out: Vec<Vec<String>> = Vec::new();
    let ghost f = |b: Vec<String>| text::texts(b@);
    let ghost want = session@.blocks();
    let mut i: usize = 0;
    while i < session.completed.len()
        invariant
            i <= session.completed@.len(),
            f == (|b: Vec<String>| text::texts(b@)),
            want == session@.blocks(),
            out@.map_values(f) =~= want.take(i as int),
        decreases session.completed@.len() - i,
    {
        let ghost before = out@.map_values(f);
        let mut block = plain::render_done(session, &session.completed[i]);
        let ghost lines = text::texts(block@);
        block.push(String::new());
        assert(text::texts(block@) =~= lines.push(Seq::empty()));
        assert(session@.completed[i as int] == session.completed@[i as int]@);
        assert(want[i as int] == text::texts(block@));
        out.push(block);
        assert(out@.map_values(f) =~= before.push(want[i as int]));
        i = i + 1;
    }
    assert(want.take(want.len() as int) =~= want);
    out
}

/// Append the rows of a block.
fn push_block(rows: &mut Vec<Vec<Span>>, block: &[String])
    ensures
        rows_view(final(rows)@) == rows_view(old(rows)@) + text::texts(block@).map_values(
            |l: Seq<char>| one(text::trim_end_spec("  "@ + l, CharClass::White), false),
        ),
{
    let ghost was = rows_view(rows@);
    let ghost more = text::texts(block@).map_values(
        |l: Seq<char>| one(text::trim_end_spec("  "@ + l, CharClass::White), false),
    );
    let mut i: usize = 0;
    assert(was + more.take(0) =~= was);
    while i < block.len()
        invariant
            i <= block@.len(),
            more == text::texts(block@).map_values(
                |l: Seq<char>| one(text::trim_end_spec("  "@ + l, CharClass::White), false),
            ),
            rows_view(rows@) == was + more.take(i as int),
        decreases block@.len() - i,
    {
        let whole = text::cat("  ", block[i].as_str());
        let line = text::trim_end(whole.as_str(), CharClass::White).to_owned();
        assert(text::texts(block@)[i as int] == block@[i as int]@);
        assert(more[i as int] == one(line@, false));
        push_row(rows, line, false);
        assert(more.take(i + 1) =~= more.take(i as int).push(more[i as int]));
        assert(was + more.take(i + 1) =~= (was + more.take(i as int)).push(more[i as int]));
        i = i + 1;
    }
    assert(more.take(more.len() as int) =~= more);
}

/// The completed transactions, as frame rows: newest last, each block
/// followed by a blank line. Only the newest ones that fit in `budget` rows
/// are kept; the rest are stood in for by a dim elision line. Rendering this
/// from the completed transactions for every frame is what makes an undone
/// transaction disappear.
#[must_use]
pub fn log_rows(session: &Session, budget: usize) -> (r: Vec<Vec<Span>>)
    ensures
        rows_view(r@) == log_spec(session@.blocks(), budget as int),
{
    let mut rows: Vec<Vec<Span>> = Vec::new();
    assert(rows_view(rows@) =~= Seq::empty());
    let ghost bv = session@.blocks();
    if budget == 0 || session.completed.len() == 0 {
        return rows;
    }
    let blocks = blocks_of(session);
    let total: usize = blocks.len();
    let ghost f = |b: Vec<String>| text::texts(b@);
    assert(blocks@.map_values(f) == bv);
    assert(bv.len() == total);
    // Take blocks newest-first for as long as they fit.
    let mut n: usize = 0;
    let mut used: usize = 0;
    loop
        invariant
            n <= total,
            total == blocks@.len(),
            f == (|b: Vec<String>| text::texts(b@)),
            blocks@.map_values(f) == bv,
            used == height_of(bv, n as int),
            used <= budget,
            fitting(bv, budget as int, 0) == fitting(bv, budget as int, n as int),
        ensures
            n == fitting(bv, budget as int, 0),
        decreases total - n,
    {
        if n == total {
            break;
        }
        let k: usize = total - n - 1;
        assert(blocks@.map_values(f)[k as int] == text::texts(blocks@[k as int]@));
        assert(bv[bv.len() - (n + 1)].len() == blocks@[k as int]@.len());
        if blocks[k].len() > budget - used {
            break;
        }
        used = used + blocks[k].len();
        n = n + 1;
    }
    // The elision line needs a row of its own; buy it back from the oldest
    // block shown.

    if n < total && n > 0 && used == budget {
        n = n - 1;
    }
    assert(n == shown(bv, budget as int));
    let hidden: usize = total - n;
    if hidden > 0 {
        push_row(
            &mut rows,
            text::cat3("  … ", text::digits(hidden).as_str(), " earlier transaction(s)"),
            true,
        );
    }
    let ghost head = rows_view(rows@);
    let ghost tail = bv.skip(hidden as int);
    let mut i: usize = hidden;
    assert(head + block_rows(tail.take(0)) =~= head);
    while i < total
        invariant
            hidden <= i <= total,
            total == blocks@.len(),
            f == (|b: Vec<String>| text::texts(b@)),
            blocks@.map_values(f) == bv,
            tail == bv.skip(hidden as int),
            rows_view(rows@) == head + block_rows(tail.take(i - hidden)),
        decreases total - i,
    {
        assert(blocks@.map_values(f)[i as int] == text::texts(blocks@[i as int]@));
        assert(tail.take(i - hidden + 1).drop_last() =~= tail.take(i - hidden));
        assert(tail.take(i - hidden + 1).last() == text::texts(blocks@[i as int]@));
        let ghost before = block_rows(tail.take(i - hidden));
        push_block(&mut rows, blocks[i].as_slice());
        assert(rows_view(rows@) =~= head + block_rows(tail.take(i - hidden + 1)));
        i = i + 1;
    }
    assert(tail.take(tail.len() as int) =~= tail);
    assert(rows_view(rows@) =~= log_spec(bv, budget as int));
    rows
}

/// The separator line: a rule, with the running imbalance surfaced when it
/// is nonzero (or unknown).
fn separator(session: &Session, width: usize) -> (r: String)
    ensures
        r@ == session@.separator(width as int),
{
    // The same amounts the balancing prefill is computed from, so the status
    // line and the amount it will offer are written the same way.
    let amounts = session.draft.committed_amounts();
    let status = match session.running_imbalance() {
        None => " imbalance unknown ".to_owned(),
        Some(sums) => {
            assert(amount::sums_view(sums@).len() == sums@.len());
            if sums.len() == 0 {
                String::new()
            } else {
                let off = session.render_sums(sums.as_slice());
                text::cat3(" imbalance ", off.as_str(), " ")
            }
        },
    };
    assert(status@ =~= session@.status());
    let rule = text::repeat('─', 6);
    let mut line = text::cat3("  ", rule.as_str(), status.as_str());
    let used: usize = text::count(line.as_str());
    let left: usize = if width > used && width - used > 2 {
        width - used - 2
    } else {
        0
    };
    line.append(text::repeat('─', left).as_str());
    line
}

/// The visible part of a menu.
fn menu_rows_of(m: &Menu, visible: usize) -> (r: Vec<Vec<Span>>)
    requires
        visible > 0,
    ensures
        rows_view(r@) == menu_spec(m@, visible as int),
{
    let mut rows: Vec<Vec<Span>> = Vec::new();
    let n: usize = m.candidates.len();
    let ghost mv = m@;
    assert(mv.candidates.len() == n);
    let end: usize = if m.offset < n && visible < n - m.offset {
        m.offset + visible
    } else {
        n
    };
    let ghost want = menu_spec(mv, visible as int);
    let mut i: usize = m.offset;
    assert(rows_view(rows@) =~= want.take(0));
    while i < end
        invariant
            m.offset <= i,
            i <= end || (m.offset > end && i == m.offset),
            end <= n,
            n == m.candidates@.len(),
            mv == m@,
            end == (if m.offset + visible < n {
                m.offset + visible
            } else {
                n as int
            }),
            want == menu_spec(mv, visible as int),
            rows_view(rows@) == want.take(i - m.offset),
        decreases end - i,
    {
        let marker = if i == m.selected {
            "▸"
        } else {
            " "
        };
        let mut line = text::cat3("  ", marker, " ");
        line.append(m.candidates[i].as_str());
        assert(mv.candidates[i as int] == m.candidates@[i as int]@);
        assert(want[i - m.offset] == one(line@, i != m.selected));
        push_row(&mut rows, line, i != m.selected);
        assert(want.take(i - m.offset + 1) =~= want.take(i - m.offset).push(
            want[i - m.offset],
        ));
        i = i + 1;
    }
    let ghost listed = if m.offset <= end {
        end - m.offset
    } else {
        0
    };
    assert(rows_view(rows@) =~= want.take(listed));
    assert(want.len() == listed + if n > visible {
        1int
    } else {
        0
    });
    if n > visible {
        let mut foot = text::cat3(
            "    ",
            text::digits(field::next(m.offset)).as_str(),
            "–",
        );
        foot.append(text::digits(end).as_str());
        foot.append(" of ");
        foot.append(text::digits(n).as_str());
        assert(want[listed] == one(foot@, true));
        push_row(&mut rows, foot, true);
    }
    assert(rows_view(rows@) =~= want);
    rows
}

/// What stands below the prompt.
fn lower(ui: &Ui, session: &Session, visible: usize) -> (r: Vec<Vec<Span>>)
    requires
        visible > 0,
    ensures
        rows_view(r@) == lower_spec(ui@, session@, visible as int),
{
    if let Some(m) = &ui.menu {
        return menu_rows_of(m, visible);
    }
    let mut rows: Vec<Vec<Span>> = Vec::new();
    assert(rows_view(rows@) =~= Seq::empty());
    match &ui.note {
        Note::Silent => {
            if let Some(g) = term::ghost_of(session) {
                push_row(&mut rows, text::cat3("    ", g.as_str(), "  ← → to accept"), true);
            } else if let Some(h) = session.hint() {
                push_row(&mut rows, text::cat("  ", h.as_str()), true);
            }
        },
        Note::Info(n) => {
            push_row(&mut rows, text::cat("  ", n.as_str()), true);
        },
        Note::Confirm(n) => {
            push_row(&mut rows, text::cat("  ", n.as_str()), true);
        },
        Note::Error(e) => {
            push_row(&mut rows, text::cat("  ✗ ", e.as_str()), false);
        },
    }
    assert(rows_view(rows@) =~= lower_spec(ui@, session@, visible as int));
    rows
}

/// The rows above the prompt.
fn upper_rows(session: &Session, width: usize, height: usize) -> (r: Vec<Vec<Span>>)
    ensures
        rows_view(r@) == session@.upper(width as int, height as int),
{
    let preview = session.preview_lines();
    let ghost pv = session@.preview();
    assert(pv.len() == preview@.len());
    // What the log may use: whatever the rest of the frame — preview,
    // separator, prompt, one note or menu row, one spare — leaves over.
    let above: usize = preview.len();
    let budget: usize = if height > above && height - above > 4 {
        height - above - 4
    } else {
        0
    };
    let mut rows = log_rows(session, budget);
    let ghost log = rows_view(rows@);
    let ghost shown = pv.map_values(|l: Seq<char>| one("  "@ + l, false));
    let mut i: usize = 0;
    assert(log + shown.take(0) =~= log);
    while i < preview.len()
        invariant
            i <= preview@.len(),
            pv == text::texts(preview@),
            shown == pv.map_values(|l: Seq<char>| one("  "@ + l, false)),
            rows_view(rows@) == log + shown.take(i as int),
        decreases preview@.len() - i,
    {
        let line = text::cat("  ", preview[i].as_str());
        assert(shown[i as int] == one(line@, false));
        push_row(&mut rows, line, false);
        assert(shown.take(i + 1) =~= shown.take(i as int).push(shown[i as int]));
        assert(log + shown.take(i + 1) =~= (log + shown.take(i as int)).push(shown[i as int]));
        i = i + 1;
    }
    assert(shown.take(shown.len() as int) =~= shown);
    push_row(&mut rows, separator(session, width), true);
    assert(rows_view(rows@) =~= session@.upper(width as int, height as int));
    rows
}

/// The prompt row.
fn prompt_pieces(session: &Session, lead: &str, menu_open: bool) -> (r: Vec<Span>)
    requires
        lead@ == "  "@ + session@.draft.field.label_spec() + " › "@,
    ensures
        row_view(r@) == session@.prompt_row(menu_open),
{
    let mut prompt: Vec<Span> = Vec::new();
    let line = text::cat(lead, session.draft.buffer.as_str());
    let ghost lv = line@;
    prompt.push(Span { text: line, dim: false });
    assert(row_view(prompt@) =~= one(lv, false));
    if !menu_open {
        // The grey inline suggestion sits after the (empty) buffer.
        if let Some(s) = session.suggestion() {
            let ghost sv = s@;
            prompt.push(Span { text: s, dim: true });
            assert(row_view(prompt@) =~= one(lv, false).push(Piece { text: sv, dim: true }));
        }
    }
    prompt
}

/// A frame to paint.
#[derive(Debug)]
pub struct Frame {
    pub rows: Vec<Vec<Span>>,
    /// The row of the prompt.
    pub prompt_row: usize,
    /// The column of the cursor in it.
    pub prompt_col: usize,
}

impl Frame {
    /// Where the cursor parks once the rows are painted: how many rows above
    /// the last, and in which column of a terminal of that width.
    pub fn parking(&self, width: usize) -> (r: (usize, usize))
        ensures
            r.0 == if self.prompt_row + 1 < self.rows@.len() {
                self.rows@.len() - self.prompt_row - 1
            } else {
                0
            },
            r.1 == if self.prompt_col < width {
                self.prompt_col as int
            } else if width > 0 {
                width - 1
            } else {
                0
            },
    {
        let below: usize = if self.prompt_row < self.rows.len() {
            self.rows.len() - self.prompt_row - 1
        } else {
            0
        };
        let column: usize = if self.prompt_col < width {
            self.prompt_col
        } else if width > 0 {
            width - 1
        } else {
            0
        };
        (below, column)
    }
}

impl Ui {
    /// The frame to show at a terminal size.
    pub fn frame(&mut self, session: &Session, width: usize, height: usize) -> (r: Frame)
        ensures
            ({
                let w = if width < 20 {
                    20int
                } else {
                    width as int
                };
                let s = session@;
                let upper = s.upper(w, height as int);
                let visible = room(height as int, upper.len() as int + 1);
                let label = "  "@ + s.draft.field.label_spec() + " › "@;
                &&& final(self)@ == (Screen { menu_rows: visible as usize, ..old(self)@ })
                &&& rows_view(r.rows@) == upper.push(
                    s.prompt_row(old(self)@.menu is Some),
                ) + lower_spec(old(self)@, s, visible)
                &&& r.prompt_row == upper.len()
                &&& r.prompt_col == field::bounded(
                    label.len() + s.draft.cursor,
                )
            }),
    {
        let width: usize = if width < 20 {
            20
        } else {
            width
        };
        let mut rows = upper_rows(session, width, height);
        let ghost upper = session@.upper(width as int, height as int);
        assert(rows_view(rows@).len() == rows@.len());
        let prompt_row: usize = rows.len();
        let label = session.draft.field.label();
        let lead = text::cat3("  ", label.as_str(), " › ");
        let lead_len: usize = text::count(lead.as_str());
        let cursor: usize = session.draft.cursor;
        let prompt_col: usize = if cursor > usize::MAX - lead_len {
            usize::MAX
        } else {
            lead_len + cursor
        };
        let ghost menu_open = self@.menu is Some;
        let prompt = prompt_pieces(session, lead.as_str(), self.menu.is_some());
        rows.push(prompt);
        assert(rows_view(rows@) =~= upper.push(session@.prompt_row(menu_open)));
        // The menu gets whatever fits below the prompt, scrolling beyond
        // that; a footer row and one spare line stay reserved.
        let used: usize = rows.len();
        assert(used == upper.len() + 1);
        let visible: usize = if height > used && height - used > 3 {
            height - used - 2
        } else {
            1
        };
        assert(visible == room(height as int, upper.len() as int + 1));
        self.menu_rows = visible;
        let ghost top = rows_view(rows@);
        let mut below = lower(self, session, visible);
        let ghost bottom = rows_view(below@);
        rows.append(&mut below);
        assert(rows_view(rows@) =~= top + bottom);
        Frame { rows, prompt_row, prompt_col }
    }
}

/// A row cut to a width.
pub open spec fn clipped(row: Seq<Piece>, width: int) -> Seq<Piece>
    decreases row.len(),
{
    if row.len() == 0 {
        Seq::empty()
    } else {
        let before = clipped(row.drop_last(), width);
        let left = width - taken(before);
        let t = row.last().text;
        before.push(
            Piece {
                text: if t.len() <= left {
                    t
                } else {
                    t.take(left)
                },
                dim: row.last().dim,
            },
        )
    }
}

/// The characters of a row.
pub open spec fn taken(row: Seq<Piece>) -> int
    decreases row.len(),
{
    if row.len() == 0 {
        0
    } else {
        taken(row.drop_last()) + row.last().text.len()
    }
}

/// Cut a row to a width.
#[must_use]
pub fn clip(row: &[Span], width: usize) -> (r: Vec<Span>)
    ensures
        row_view(r@) == clipped(row_view(row@), width as int),
        taken(row_view(r@)) <= width,
{
    let ghost all = row_view(row@);
    let mut out: Vec<Span> = Vec::new();
    let mut left: usize = width;
    let mut i: usize = 0;
    assert(row_view(out@) =~= clipped(all.take(0), width as int));
    while i < row.len()
        invariant
            i <= row@.len(),
            all == row_view(row@),
            row_view(out@) == clipped(all.take(i as int), width as int),
            left == width - taken(row_view(out@)),
            left <= width,
        decreases row@.len() - i,
    {
        assert(all.take(i + 1).drop_last() =~= all.take(i as int));
        assert(all.take(i + 1).last() == row@[i as int]@);
        let ghost before = row_view(out@);
        let t = row[i].text.as_str();
        let n: usize = text::count(t);
        let piece = if n <= left {
            t
        } else {
            text::prefix(t, left)
        };
        let span = Span { text: piece.to_owned(), dim: row[i].dim };
        let ghost sv = span@;
        out.push(span);
        assert(row_view(out@) =~= before.push(sv));
        assert(before.push(sv).drop_last() =~= before);
        left = left - text::count(piece);
        i = i + 1;
    }
    assert(all.take(all.len() as int) =~= all);
    out
}

} // verus!
