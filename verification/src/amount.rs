//! Exact-decimal amount parsing and rendering.
//!
//! Numbers are parsed to compute the running imbalance and the balancing
//! amount of a transaction, and to re-render an amount in its commodity's
//! declared style. On any parse failure the imbalance is *unknown*, never
//! wrong.
//!
//! Decimal-mark rules:
//!
//! - both `.` and `,` present → the last one is the decimal mark
//! - a single mark occurring once → it is the decimal mark (`1,234` is
//!   1.234, not 1234)
//! - a single mark occurring more than once → digit grouping
//! - `_` is always a digit group mark
//! - an explicit `decimal-mark` directive, or the commodity's declared style,
//!   overrides the guess
//!
//! Cost tails contribute at cost: `N C @ P C2` adds `N*P C2`, `N C @@ T C2`
//! adds `sign(N)*T C2`.

use vstd::prelude::*;
use vstd::string::*;
use crate::decimal::{self, Num, Quantity};
use crate::style::Style;
use crate::text::{self, CharClass};
use crate::lex;
use crate::style;

pub use crate::equity::{conversion_layout, equity_conversions};
pub use crate::restyle::{
    render_amount, render_amount_like, restyle_entered, restyle_face_fields,
    restyle_face_fields_with, restyle_face_text, restyle_tail, restyle_tail_with, split_rendered,
    style_from_amounts, Places,
};
pub use crate::style::{style_from_sample, DisplayStyle, Side, StyleMap};

verus! {

/// Everything amount parsing needs to know about its surroundings: the
/// `decimal-mark` in effect at the insertion point, and declared commodity
/// styles.
#[derive(Debug, Clone)]
pub struct AmountCtx {
    /// `decimal-mark` directive in effect, if any. Takes precedence.
    pub decimal_mark: Option<char>,
    /// Declared display styles by commodity symbol.
    pub styles: StyleMap,
    /// The style of the journal's `D` directive, whose decimal mark reads the
    /// amounts of commodities that declare no style of their own.
    pub default_style: Option<DisplayStyle>,
}

/// What an amount context says.
#[verifier::ext_equal]
pub struct Ctx {
    pub decimal_mark: Option<char>,
    pub styles: Map<Seq<char>, Style>,
    pub default_style: Option<Style>,
}

impl View for AmountCtx {
    type V = Ctx;

    open spec fn view(&self) -> Ctx {
        Ctx {
            decimal_mark: self.decimal_mark,
            styles: self.styles@,
            default_style: style::opt_style(self.default_style),
        }
    }
}

impl Ctx {
    /// Nothing declared.
    pub open spec fn bare() -> Ctx {
        Ctx { decimal_mark: None, styles: Map::empty(), default_style: None }
    }

    /// The style declared for a commodity.
    pub open spec fn style_of(self, commodity: Seq<char>) -> Option<Style> {
        style::lookup(self.styles, commodity)
    }

    /// The decimal mark to read an amount of a commodity with, if anything
    /// settles it.
    pub open spec fn mark_for(self, commodity: Seq<char>) -> Option<char> {
        match self.decimal_mark {
            Some(m) => Some(m),
            None => match self.style_of(commodity) {
                Some(s) => Some(s.decimal_mark),
                None => match self.default_style {
                    Some(s) => Some(s.decimal_mark),
                    None => None,
                },
            },
        }
    }
}

impl Default for AmountCtx {
    fn default() -> (r: Self)
        ensures
            r@ == Ctx::bare(),
    {
        AmountCtx { decimal_mark: None, styles: StyleMap::new(), default_style: None }
    }
}

impl AmountCtx {
    /// The same context again.
    pub fn duplicate(&self) -> (r: AmountCtx)
        ensures
            r@ == self@,
    {
        AmountCtx {
            decimal_mark: self.decimal_mark,
            styles: self.styles.duplicate(),
            default_style: match &self.default_style {
                Some(s) => Some(s.duplicate()),
                None => None,
            },
        }
    }

    /// The decimal mark to read an amount of a commodity with.
    fn mark_for(&self, commodity: &str) -> (r: Option<char>)
        ensures
            r == self@.mark_for(commodity@),
    {
        match self.decimal_mark {
            Some(m) => Some(m),
            None => match self.styles.get(commodity) {
                Some(s) => Some(s.decimal_mark),
                None => match &self.default_style {
                    Some(s) => Some(s.decimal_mark),
                    None => None,
                },
            },
        }
    }
}

/// A parsed entered amount: exact value, commodity (may be empty — a
/// unitless amount is valid), and its cost-converted contribution to the
/// balance.
#[derive(Debug, PartialEq, Eq)]
pub struct ParsedAmount {
    /// The face value.
    pub value: Quantity,
    /// The face commodity (`""` for unitless).
    pub commodity: String,
    /// What this posting contributes to the transaction balance: the face
    /// value, or the cost when an `@`/`@@` tail converts it.
    pub contributes: (Quantity, String),
}

/// What a parsed amount says.
pub struct Parsed {
    pub value: Num,
    pub commodity: Seq<char>,
    pub contributes: (Num, Seq<char>),
}

impl View for ParsedAmount {
    type V = Parsed;

    open spec fn view(&self) -> Parsed {
        Parsed {
            value: self.value@,
            commodity: self.commodity@,
            contributes: (self.contributes.0@, self.contributes.1@),
        }
    }
}

pub open spec fn opt_parsed(o: Option<ParsedAmount>) -> Option<Parsed> {
    match o {
        Some(p) => Some(p@),
        None => None,
    }
}

/// The number and the commodity of an optional pair.
pub open spec fn opt_face(o: Option<(Quantity, String)>) -> Option<(Num, Seq<char>)> {
    match o {
        Some(p) => Some((p.0@, p.1@)),
        None => None,
    }
}

// ---- numbers ----

/// The number a raw text writes, marks and group separators read as
/// [`style::split_number_spec`] says.
pub open spec fn parse_number_spec(raw: Seq<char>, forced: Option<char>) -> Option<Num> {
    match style::split_number_spec(raw, forced) {
        None => None,
        Some(p) => {
            let kept = text::keep_spec(p.whole, CharClass::SignedDigit);
            let dropped = match p.sep {
                Some(sep) => text::count_spec(p.whole, CharClass::Is(sep)),
                None => 0,
            };
            if kept.len() + dropped != p.whole.len() || !text::all_spec(p.frac, CharClass::Digit) {
                None
            } else if p.frac.len() == 0 {
                decimal::decimal_read(kept)
            } else {
                decimal::decimal_read(kept + seq!['.'] + p.frac)
            }
        },
    }
}

/// Parse a number with the marks in effect. `forced_mark` comes from a
/// `decimal-mark` directive or the commodity's declared style.
#[must_use]
pub fn parse_number(raw: &str, forced_mark: Option<char>) -> (r: Option<Quantity>)
    ensures
        decimal::opt_num(r) == parse_number_spec(raw@, forced_mark),
{
    match style::split_number(raw, forced_mark) {
        None => None,
        Some((whole, frac, _mark, sep)) => {
            let mut kept = text::keep(whole.as_str(), CharClass::SignedDigit);
            let dropped: usize = match sep {
                Some(s) => text::count_of(whole.as_str(), CharClass::Is(s)),
                None => 0,
            };
            // Anything that is neither a digit, a sign nor the group separator
            // makes it no number.
            let len: usize = text::count(whole.as_str());
            let n: usize = text::count(kept.as_str());
            if n > len || dropped != len - n {
                return None;
            }
            if !text::all(frac.as_str(), CharClass::Digit) {
                return None;
            }
            if !frac.as_str().is_empty() {
                kept.push('.');
                kept.append(frac.as_str());
                assert(kept@ =~= text::keep_spec(whole@, CharClass::SignedDigit) + seq!['.']
                    + frac@);
            }
            Quantity::read(kept.as_str())
        },
    }
}

// ---- the face of an amount ----

/// A token without its attached symbol, and the symbol.
pub open spec fn detach_spec(tok: Seq<char>) -> (Seq<char>, Seq<char>) {
    let n = text::run_spec(tok, CharClass::Sign, true);
    let sign = tok.take(n);
    let body = tok.skip(n);
    let lead = text::run_spec(body, CharClass::NumChar, false);
    let trail = text::run_back_spec(body, CharClass::NumChar, false);
    if lead > 0 {
        let symbol = text::trim_end_spec(body.take(lead), CharClass::Sign);
        (sign + body.skip(symbol.len() as int), symbol)
    } else if trail > 0 {
        (sign + body.take(body.len() - trail), body.skip(body.len() - trail))
    } else {
        (tok, Seq::empty())
    }
}

/// The number token and the commodity of a face: as given, or taken from the
/// two words of the number field, or from the one word that holds both. More
/// words than two are no face, and neither are two digit groups: the second can
/// only be the rest of the number, which no group mark holds together.
pub open spec fn face_parts_spec(num_field: Seq<char>, commodity: Seq<char>) -> Option<
    (Seq<char>, Seq<char>),
> {
    if commodity.len() > 0 {
        Some((num_field, commodity))
    } else {
        let w = text::words_spec(num_field);
        if w.len() == 0 {
            None
        } else if w.len() == 1 {
            Some(detach_spec(w[0]))
        } else if w.len() > 2 || lex::is_number_like_spec(w[0]) && lex::is_digit_group_spec(w[1]) {
            None
        } else if lex::is_number_like_spec(w[1]) {
            Some((w[1], w[0]))
        } else {
            Some((w[0], w[1]))
        }
    }
}

/// The value and the commodity of a face.
pub open spec fn parse_face_spec(num_field: Seq<char>, commodity: Seq<char>, ctx: Ctx) -> Option<
    (Num, Seq<char>),
> {
    match face_parts_spec(num_field, commodity) {
        None => None,
        Some((num, name)) => match parse_number_spec(num, ctx.mark_for(name)) {
            None => None,
            Some(value) => Some((value, name)),
        },
    }
}

/// Split an attached symbol off a token: `$100` → (`100`, `$`), `100€` →
/// (`100`, `€`), `-$5` → (`-5`, `$`). No symbol → unchanged.
///
/// A sign may sit *between* a left-side symbol and its digits: `$-10` is a
/// negative dollar amount of one commodity `$`, not of a commodity `$-`. The
/// sign belongs to the number wherever it was written.
pub fn detach_symbol(tok: &str) -> (r: (String, String))
    ensures
        r.0@ == detach_spec(tok@).0,
        r.1@ == detach_spec(tok@).1,
{
    let n: usize = text::run(tok, CharClass::Sign, true);
    let sign = text::prefix(tok, n);
    let body = text::suffix(tok, n);
    let lead: usize = text::run(body, CharClass::NumChar, false);
    if lead > 0 {
        let leading = text::prefix(body, lead);
        let symbol = text::trim_end(leading, CharClass::Sign);
        proof {
            text::lemma_run_back(leading@, CharClass::Sign, true);
        }
        let rest = text::suffix(body, text::count(symbol));
        return (text::cat(sign, rest), symbol.to_owned());
    }
    let trail: usize = text::run_back(body, CharClass::NumChar, false);
    if trail > 0 {
        let keep: usize = text::count(body) - trail;
        return (text::cat(sign, text::prefix(body, keep)), text::suffix(body, keep).to_owned());
    }
    (tok.to_owned(), String::new())
}

/// The number token and the commodity of a face.
fn face_parts(num_field: &str, commodity: &str) -> (r: Option<(String, String)>)
    ensures
        match r {
            Some(p) => face_parts_spec(num_field@, commodity@) == Some((p.0@, p.1@)),
            None => face_parts_spec(num_field@, commodity@) is None,
        },
{
    if !commodity.is_empty() {
        return Some((num_field.to_owned(), commodity.to_owned()));
    }
    let w = text::words(num_field);
    let ghost all = text::words_spec(num_field@);
    assert(all.len() == w@.len());
    if w.len() == 0 {
        return None;
    }
    assert(all[0] == w@[0]@);
    if w.len() == 1 {
        return Some(detach_symbol(w[0]));
    }
    if w.len() > 2 {
        return None;
    }
    assert(all[1] == w@[1]@);
    if lex::is_number_like(w[0]) && lex::is_digit_group(w[1]) {
        // Digit groups: `1 234`. A symbol holds no digit.
        return None;
    }
    if lex::is_number_like(w[1]) {
        // Symbol first: `USD 100`.
        Some((w[1].to_owned(), w[0].to_owned()))
    } else {
        Some((w[0].to_owned(), w[1].to_owned()))
    }
}

/// Parse the face value: the number token (possibly with an attached symbol)
/// plus the separate commodity token, if any.
pub(crate) fn parse_face(num_field: &str, commodity: &str, ctx: &AmountCtx) -> (r: Option<(Quantity, String)>)
    ensures
        opt_face(r) == parse_face_spec(num_field@, commodity@, ctx@),
{
    match face_parts(num_field, commodity) {
        None => None,
        Some((num, name)) => match parse_number(num.as_str(), ctx.mark_for(name.as_str())) {
            None => None,
            Some(value) => Some((value, name)),
        },
    }
}

// ---- costs ----

/// How long the cost or assertion operator at the start of a token is: one of
/// `==*`, `=*`, `==`, `=`, `@@`, `@`, the longest that fits.
pub open spec fn op_len_spec(tok: Seq<char>) -> int {
    let a = tok.len() > 0 && tok[0] == '=';
    let b = tok.len() > 1 && tok[1] == '=';
    let c = tok.len() > 2 && tok[2] == '*';
    if a && b && c {
        3
    } else if a && tok.len() > 1 && tok[1] == '*' {
        2
    } else if a && b {
        2
    } else if a {
        1
    } else if tok.len() > 1 && tok[0] == '@' && tok[1] == '@' {
        2
    } else if tok.len() > 0 && tok[0] == '@' {
        1
    } else {
        0
    }
}

pub(crate) fn op_len(tok: &str) -> (r: usize)
    ensures
        r == op_len_spec(tok@),
        r <= tok@.len(),
{
    let v = text::chars(tok);
    let a = v.len() > 0 && v[0] == '=';
    let b = v.len() > 1 && v[1] == '=';
    let c = v.len() > 2 && v[2] == '*';
    if a && b && c {
        3
    } else if a && v.len() > 1 && v[1] == '*' {
        2
    } else if a && b {
        2
    } else if a {
        1
    } else if v.len() > 1 && v[0] == '@' && v[1] == '@' {
        2
    } else if v.len() > 0 && v[0] == '@' {
        1
    } else {
        0
    }
}

/// What is attached to an operator, as a list of at most one token.
pub open spec fn attached_spec(tok: Seq<char>) -> Seq<Seq<char>> {
    let rest = tok.skip(op_len_spec(tok));
    if rest.len() == 0 {
        Seq::empty()
    } else {
        seq![rest]
    }
}

/// The tokens of the amount that follows the operator in the first token: what
/// is attached to it, and the tokens up to the next operator.
pub open spec fn operand_spec(rest: Seq<Seq<char>>) -> Seq<Seq<char>> {
    attached_spec(rest[0]) + rest.skip(1).take(lex::rest_at_spec(rest.skip(1)))
}

/// The tokens of the amount that follows the operator in the first token.
pub(crate) fn operand<'a>(rest: &[&'a str]) -> (r: Vec<&'a str>)
    requires
        rest@.len() > 0,
    ensures
        text::strs(r@) == operand_spec(text::strs(rest@)),
{
    let ghost all = text::strs(rest@);
    let mut out: Vec<&'a str> = Vec::new();
    let tok = rest[0];
    assert(all[0] == tok@);
    let attached = text::suffix(tok, op_len(tok));
    if !attached.is_empty() {
        out.push(attached);
    }
    assert(text::strs(out@) =~= attached_spec(all[0]));
    let later = lex::part(rest, 1, rest.len());
    assert(text::strs(later@) =~= all.skip(1));
    let k: usize = lex::rest_at(later.as_slice());
    let mut following = lex::part(later.as_slice(), 0, k);
    let ghost a = out@;
    let ghost b = following@;
    out.append(&mut following);
    assert(text::strs(out@) =~= text::strs(a) + text::strs(b));
    assert(text::strs(b) =~= all.skip(1).take(k as int));
    out
}

/// What a posting contributes to the balance. Without a tail and with a
/// balance assertion, its face; with `@` the face times the price; with `@@`
/// the total, with the sign of the face.
pub open spec fn contribution_spec(
    value: Num,
    commodity: Seq<char>,
    rest: Seq<Seq<char>>,
    ctx: Ctx,
) -> Option<(Num, Seq<char>)> {
    if rest.len() == 0 {
        Some((value, commodity))
    } else if op_len_spec(rest[0]) == 0 {
        None
    } else if rest[0][0] == '=' {
        Some((value, commodity))
    } else {
        let (num, name, _) = lex::split_amount_spec(operand_spec(rest));
        match parse_face_spec(num, name, ctx) {
            None => None,
            Some((price, cost)) => {
                let total = if op_len_spec(rest[0]) == 1 {
                    decimal::product_of(value, price)
                } else if value.mantissa < 0 {
                    decimal::difference_of(Num::zero(), price.abs())
                } else {
                    Some(price.abs())
                };
                match total {
                    None => None,
                    Some(t) => Some((t, cost)),
                }
            },
        }
    }
}

/// What a posting contributes to the balance, converting through an `@`/`@@`
/// cost tail when present (`@` multiplies, `@@` is a total taking the amount's
/// sign). A balance assertion tail (`=`) does not affect the contribution.
fn cost_contribution(value: Quantity, commodity: &str, rest: &[&str], ctx: &AmountCtx) -> (r: Option<
    (Quantity, String),
>)
    ensures
        opt_face(r) == contribution_spec(value@, commodity@, text::strs(rest@), ctx@),
{
    let ghost all = text::strs(rest@);
    if rest.len() == 0 {
        return Some((value, commodity.to_owned()));
    }
    assert(all[0] == rest@[0]@);
    let n: usize = op_len(rest[0]);
    if n == 0 {
        return None;
    }
    // A balance assertion says what the account holds afterwards; it does
    // not change what this posting contributes.
    if rest[0].get_char(0) == '=' {
        return Some((value, commodity.to_owned()));
    }
    let price_toks = operand(rest);
    let (num_field, price_name, _rest) = lex::split_amount(price_toks.as_slice());
    match parse_face(num_field.as_str(), price_name.as_str(), ctx) {
        None => None,
        Some((price, cost)) => {
            let total = if n == 1 {
                value.checked_product(price)
            } else if value.is_negative() {
                Quantity::zero().checked_difference(price.abs())
            } else {
                Some(price.abs())
            };
            match total {
                None => None,
                Some(t) => Some((t, cost)),
            }
        },
    }
}

/// A typed amount field, read.
pub open spec fn parse_amount_spec(field: Seq<char>, ctx: Ctx) -> Option<Parsed> {
    let toks = text::words_spec(field);
    let (num, name, rest) = lex::split_amount_spec(toks);
    if toks.len() == 0 {
        None
    } else {
        match parse_face_spec(num, name, ctx) {
            None => None,
            Some((value, commodity)) => match contribution_spec(value, commodity, rest, ctx) {
                None => None,
                Some(contributes) => Some(Parsed { value, commodity, contributes }),
            },
        }
    }
}

/// Parse one typed amount field: `23.45 EUR`, `-5 EUR @ 1.2 USD`, `$100`,
/// `1_000`, or bare `12`. Empty input is `None`; so is anything
/// unintelligible.
#[must_use]
pub fn parse_amount(field: &str, ctx: &AmountCtx) -> (r: Option<ParsedAmount>)
    ensures
        opt_parsed(r) == parse_amount_spec(field@, ctx@),
{
    let toks = text::words(field);
    assert(text::words_spec(field@).len() == toks@.len());
    if toks.len() == 0 {
        return None;
    }
    let (num_field, name, rest) = lex::split_amount(toks.as_slice());
    match parse_face(num_field.as_str(), name.as_str(), ctx) {
        None => None,
        Some((value, commodity)) => match cost_contribution(
            value,
            commodity.as_str(),
            rest.as_slice(),
            ctx,
        ) {
            None => None,
            Some(contributes) => Some(ParsedAmount { value, commodity, contributes }),
        },
    }
}

/// The commodity that a tail token names behind its operator, if it names one:
/// the symbol attached to its number, or the whole of it where it is no number.
pub open spec fn tail_symbol_spec(tok: Seq<char>) -> Option<Seq<char>> {
    let t = tok.skip(op_len_spec(tok));
    if detach_spec(t).1.len() > 0 {
        Some(detach_spec(t).1)
    } else if lex::is_number_like_spec(t) {
        None
    } else {
        lex::non_empty_spec(t)
    }
}

/// The commodities that a list of tail tokens names, each once, in order of
/// appearance.
pub open spec fn tail_symbols_spec(toks: Seq<Seq<char>>) -> Seq<Seq<char>>
    decreases toks.len(),
{
    if toks.len() == 0 {
        Seq::empty()
    } else {
        let before = tail_symbols_spec(toks.drop_last());
        match tail_symbol_spec(toks.last()) {
            Some(sym) if !before.contains(sym) => before.push(sym),
            _ => before,
        }
    }
}

/// The commodities in the tail of an amount field.
pub open spec fn tail_commodities_spec(field: Seq<char>) -> Seq<Seq<char>> {
    tail_symbols_spec(lex::split_amount_spec(text::words_spec(field)).2)
}

/// The commodity symbols appearing in an amount's cost/assertion tail
/// (`5 USD @ 1.10 EUR = 5.50 EUR` → `["EUR"]`), attached symbols included
/// (`@ $1.10` → `["$"]`), and so are amounts attached to their operator
/// (`@1.10EUR` → `["EUR"]`). Deduplicated, in order of appearance.
#[must_use]
pub fn tail_commodities(field: &str) -> (r: Vec<String>)
    ensures
        text::texts(r@) == tail_commodities_spec(field@),
{
    let toks = text::words(field);
    let (_num, _commodity, rest) = lex::split_amount(toks.as_slice());
    let ghost all = text::strs(rest@);
    let mut out: Vec<String> = Vec::new();
    let mut i: usize = 0;
    assert(text::texts(out@) =~= tail_symbols_spec(all.take(0)));
    while i < rest.len()
        invariant
            i <= rest.len(),
            all == text::strs(rest@),
            text::texts(out@) == tail_symbols_spec(all.take(i as int)),
        decreases rest.len() - i,
    {
        let t = rest[i];
        assert(all.take(i + 1).drop_last() =~= all.take(i as int));
        assert(all.take(i + 1).last() == t@);
        i = i + 1;
        let body = text::suffix(t, op_len(t));
        let (_n, detached) = detach_symbol(body);
        let sym = if !detached.as_str().is_empty() {
            detached
        } else if lex::is_number_like(body) {
            String::new()
        } else {
            body.to_owned()
        };
        if !sym.as_str().is_empty() && !text::has_text(out.as_slice(), sym.as_str()) {
            let ghost before = out@;
            let ghost name = sym@;
            out.push(sym);
            assert(text::texts(out@) =~= text::texts(before).push(name));
        }
    }
    assert(all.take(all.len() as int) =~= all);
    out
}

// ---- sums ----

/// What a list of sums says.
pub open spec fn sums_view(v: Seq<(String, Quantity)>) -> Seq<(Seq<char>, Num)> {
    v.map_values(|e: (String, Quantity)| (e.0@, e.1@))
}

/// What an optional list of sums says.
pub open spec fn opt_sums(o: Option<Vec<(String, Quantity)>>) -> Option<Seq<(Seq<char>, Num)>> {
    match o {
        Some(v) => Some(sums_view(v@)),
        None => None,
    }
}

/// Sums with one more value of a commodity: added to that commodity's sum, or
/// a sum of its own at the end.
pub open spec fn add_spec(sums: Seq<(Seq<char>, Num)>, commodity: Seq<char>, value: Num) -> Option<
    Seq<(Seq<char>, Num)>,
>
    decreases sums.len(),
{
    if sums.len() == 0 {
        Some(seq![(commodity, value)])
    } else if sums[0].0 == commodity {
        match decimal::sum_of(sums[0].1, value) {
            None => None,
            Some(n) => Some(seq![(commodity, n)] + sums.skip(1)),
        }
    } else {
        match add_spec(sums.skip(1), commodity, value) {
            None => None,
            Some(later) => Some(seq![sums[0]] + later),
        }
    }
}

/// Per-commodity sums of amounts, in order of first appearance: of what they
/// contribute, or of their faces. Blank amounts add nothing; one that does not
/// parse makes the sums unknown.
pub open spec fn sums_spec(amounts: Seq<Seq<char>>, ctx: Ctx, face: bool) -> Option<
    Seq<(Seq<char>, Num)>,
>
    decreases amounts.len(),
{
    if amounts.len() == 0 {
        Some(Seq::empty())
    } else {
        match sums_spec(amounts.drop_last(), ctx, face) {
            None => None,
            Some(before) => if lex::is_blank_spec(amounts.last()) {
                Some(before)
            } else {
                match parse_amount_spec(amounts.last(), ctx) {
                    None => None,
                    Some(p) => if face {
                        add_spec(before, p.commodity, p.value)
                    } else {
                        add_spec(before, p.contributes.1, p.contributes.0)
                    },
                }
            },
        }
    }
}

/// Without the zero sums.
pub open spec fn nonzero_spec(sums: Seq<(Seq<char>, Num)>) -> Seq<(Seq<char>, Num)>
    decreases sums.len(),
{
    if sums.len() == 0 {
        Seq::empty()
    } else if sums.last().1.mantissa == 0 {
        nonzero_spec(sums.drop_last())
    } else {
        nonzero_spec(sums.drop_last()).push(sums.last())
    }
}

/// The imbalance of amounts.
pub open spec fn imbalance_spec(amounts: Seq<Seq<char>>, ctx: Ctx, face: bool) -> Option<
    Seq<(Seq<char>, Num)>,
> {
    match sums_spec(amounts, ctx, face) {
        None => None,
        Some(sums) => Some(nonzero_spec(sums)),
    }
}

/// The balance is unknown, never wrong: one amount that cannot be read leaves
/// it unknown, whatever the others are.
pub proof fn an_unreadable_amount_is_never_guessed(
    amounts: Seq<Seq<char>>,
    ctx: Ctx,
    face: bool,
    i: int,
)
    requires
        0 <= i < amounts.len(),
        !lex::is_blank_spec(amounts[i]),
        parse_amount_spec(amounts[i], ctx) is None,
    ensures
        imbalance_spec(amounts, ctx, face) is None,
    decreases amounts.len(),
{
    if i < amounts.len() - 1 {
        an_unreadable_amount_is_never_guessed(amounts.drop_last(), ctx, face, i);
    }
}

/// Where a commodity is not among the first sums, adding a value of it leaves
/// those alone.
pub proof fn lemma_add_past(
    sums: Seq<(Seq<char>, Num)>,
    n: int,
    commodity: Seq<char>,
    value: Num,
)
    requires
        0 <= n <= sums.len(),
        forall|j: int| 0 <= j < n ==> (#[trigger] sums[j]).0 != commodity,
    ensures
        add_spec(sums, commodity, value) == (match add_spec(sums.skip(n), commodity, value) {
            None => None::<Seq<(Seq<char>, Num)>>,
            Some(later) => Some(sums.take(n) + later),
        }),
    decreases n,
{
    if n == 0 {
        assert(sums.skip(0) =~= sums);
        match add_spec(sums, commodity, value) {
            None => {},
            Some(later) => {
                assert(sums.take(0) + later =~= later);
            },
        }
    } else {
        assert forall|j: int| 0 <= j < n - 1 implies (#[trigger] sums.skip(1)[j]).0
            != commodity by {
            assert(sums.skip(1)[j] == sums[j + 1]);
        }
        lemma_add_past(sums.skip(1), n - 1, commodity, value);
        assert(sums.skip(1).skip(n - 1) =~= sums.skip(n));
        match add_spec(sums.skip(n), commodity, value) {
            None => {},
            Some(later) => {
                assert(seq![sums[0]] + (sums.skip(1).take(n - 1) + later) =~= sums.take(n) + later);
            },
        }
    }
}

/// Add a value to the sum of its commodity. `None` where the sum cannot be
/// held.
fn add_to(start: Vec<(String, Quantity)>, commodity: String, value: Quantity) -> (r: Option<
    Vec<(String, Quantity)>,
>)
    ensures
        opt_sums(r) == add_spec(sums_view(start@), commodity@, value@),
{
    let mut sums = start;
    let ghost all = sums_view(sums@);
    let mut i: usize = 0;
    while i < sums.len()
        invariant
            i <= sums.len(),
            all == sums_view(sums@),
            all == sums_view(start@),
            forall|j: int| 0 <= j < i ==> (#[trigger] all[j]).0 != commodity@,
        decreases sums.len() - i,
    {
        assert(all[i as int] == (sums@[i as int].0@, sums@[i as int].1@));
        if text::same(sums[i].0.as_str(), commodity.as_str()) {
            proof {
                lemma_add_past(all, i as int, commodity@, value@);
                assert(all.skip(i as int)[0] == all[i as int]);
            }
            match sums[i].1.checked_sum(value) {
                None => return None,
                Some(n) => {
                    let ghost name = commodity@;
                    sums.set(i, (commodity, n));
                    assert(sums_view(sums@) =~= all.take(i as int) + (seq![(name, n@)] + all.skip(
                        i as int,
                    ).skip(1)));
                    return Some(sums);
                },
            }
        }
        i = i + 1;
    }
    proof {
        lemma_add_past(all, all.len() as int, commodity@, value@);
        assert(all.skip(all.len() as int) =~= Seq::empty());
        assert(all.take(all.len() as int) =~= all);
    }
    let ghost name = commodity@;
    sums.push((commodity, value));
    assert(sums_view(sums@) =~= all + seq![(name, value@)]);
    Some(sums)
}

/// Shared body of [`balance`] and [`face_balance`]: sums in first-appearance
/// order, taking either the face value or the cost contribution.
fn sum_by_commodity(amounts: &[&str], ctx: &AmountCtx, face: bool) -> (r: Option<
    Vec<(String, Quantity)>,
>)
    ensures
        opt_sums(r) == sums_spec(text::strs(amounts@), ctx@, face),
{
    let ghost all = text::strs(amounts@);
    let mut sums: Vec<(String, Quantity)> = Vec::new();
    let mut i: usize = 0;
    assert(sums_view(sums@) =~= Seq::empty());
    while i < amounts.len()
        invariant
            i <= amounts.len(),
            all == text::strs(amounts@),
            sums_spec(all.take(i as int), ctx@, face) == Some(sums_view(sums@)),
        decreases amounts.len() - i,
    {
        let field = amounts[i];
        assert(all.take(i + 1).drop_last() =~= all.take(i as int));
        assert(all.take(i + 1).last() == field@);
        i = i + 1;
        if !lex::is_blank(field) {
            let added = match parse_amount(field, ctx) {
                None => None,
                Some(parsed) => if face {
                    add_to(sums, parsed.commodity, parsed.value)
                } else {
                    add_to(sums, parsed.contributes.1, parsed.contributes.0)
                },
            };
            match added {
                Some(next) => {
                    sums = next;
                },
                None => {
                    proof {
                        lemma_sums_unknown(all, ctx@, face, i as int);
                    }
                    return None;
                },
            }
        }
    }
    assert(all.take(all.len() as int) =~= all);
    Some(sums)
}

/// Once unknown, sums stay unknown.
proof fn lemma_sums_unknown(amounts: Seq<Seq<char>>, ctx: Ctx, face: bool, n: int)
    requires
        0 <= n <= amounts.len(),
        sums_spec(amounts.take(n), ctx, face) is None,
    ensures
        sums_spec(amounts, ctx, face) is None,
    decreases amounts.len() - n,
{
    if n < amounts.len() {
        assert(amounts.take(n + 1).drop_last() =~= amounts.take(n));
        lemma_sums_unknown(amounts, ctx, face, n + 1);
    } else {
        assert(amounts.take(n) =~= amounts);
    }
}

fn nonzero(sums: Vec<(String, Quantity)>) -> (r: Vec<(String, Quantity)>)
    ensures
        sums_view(r@) == nonzero_spec(sums_view(sums@)),
{
    let ghost all = sums_view(sums@);
    let mut out: Vec<(String, Quantity)> = Vec::new();
    let mut i: usize = 0;
    assert(sums_view(out@) =~= Seq::empty());
    while i < sums.len()
        invariant
            i <= sums.len(),
            all == sums_view(sums@),
            sums_view(out@) == nonzero_spec(all.take(i as int)),
        decreases sums.len() - i,
    {
        assert(all.take(i + 1).drop_last() =~= all.take(i as int));
        assert(all.take(i + 1).last() == (sums@[i as int].0@, sums@[i as int].1@));
        let value = sums[i].1;
        if !value.is_zero() {
            let ghost before = out@;
            out.push((sums[i].0.clone(), value));
            assert(sums_view(out@) =~= sums_view(before).push(
                (sums@[i as int].0@, sums@[i as int].1@),
            ));
        }
        i = i + 1;
    }
    assert(all.take(all.len() as int) =~= all);
    out
}

/// Per-commodity sums of the postings entered so far. `None` if any
/// non-empty amount fails to parse — the imbalance is then unknown.
#[must_use]
pub fn balance(amounts: &[&str], ctx: &AmountCtx) -> (r: Option<Vec<(String, Quantity)>>)
    ensures
        opt_sums(r) == sums_spec(text::strs(amounts@), ctx@, false),
{
    sum_by_commodity(amounts, ctx, false)
}

/// Per-commodity sums at *face* value.
///
/// What a posting says, not what it costs: the sum that balances when no
/// cost is being interpreted, and so the sum equity conversion postings have
/// to cancel.
#[must_use]
pub fn face_balance(amounts: &[&str], ctx: &AmountCtx) -> (r: Option<Vec<(String, Quantity)>>)
    ensures
        opt_sums(r) == sums_spec(text::strs(amounts@), ctx@, true),
{
    sum_by_commodity(amounts, ctx, true)
}

/// The commodities whose sums are nonzero — the running imbalance display.
#[must_use]
pub fn imbalance(amounts: &[&str], ctx: &AmountCtx) -> (r: Option<Vec<(String, Quantity)>>)
    ensures
        opt_sums(r) == imbalance_spec(text::strs(amounts@), ctx@, false),
{
    match balance(amounts, ctx) {
        None => None,
        Some(sums) => Some(nonzero(sums)),
    }
}

/// As [`imbalance`], at face value.
#[must_use]
pub fn face_imbalance(amounts: &[&str], ctx: &AmountCtx) -> (r: Option<Vec<(String, Quantity)>>)
    ensures
        opt_sums(r) == imbalance_spec(text::strs(amounts@), ctx@, true),
{
    match face_balance(amounts, ctx) {
        None => None,
        Some(sums) => Some(nonzero(sums)),
    }
}

} // verus!
