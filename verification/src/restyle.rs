//! Rendering amounts, and re-rendering written ones in their commodities'
//! declared styles.

use vstd::prelude::*;
use vstd::string::*;
use crate::amount::{self, AmountCtx, Ctx};
use crate::decimal::{self, Num, Quantity};
use crate::style::{self, DisplayStyle, Side, Style};
use crate::text::{self, CharClass};
use crate::lex;

verus! {

// ---- learning a style from written amounts ----

/// A group of tokens as one text, if there are any.
pub open spec fn group_spec(cur: Seq<Seq<char>>) -> Seq<Seq<char>> {
    if cur.len() == 0 {
        Seq::empty()
    } else {
        seq![text::join_spec(cur, " "@)]
    }
}

/// The amounts that tokens hold, `cur` being the tokens of the one begun: a
/// token that begins with an operator ends it and begins the next with what is
/// attached to the operator.
pub open spec fn sections_spec(cur: Seq<Seq<char>>, toks: Seq<Seq<char>>) -> Seq<Seq<char>>
    decreases toks.len(),
{
    if toks.len() == 0 {
        group_spec(cur)
    } else if lex::is_rest_start_spec(toks[0]) {
        group_spec(cur) + sections_spec(amount::attached_spec(toks[0]), toks.skip(1))
    } else {
        sections_spec(cur.push(toks[0]), toks.skip(1))
    }
}

/// The amounts in an amount field: the face, and each amount in its tail.
pub open spec fn amount_groups_spec(field: Seq<char>) -> Seq<Seq<char>> {
    sections_spec(Seq::empty(), text::words_spec(field))
}

/// The style of the first sample of a commodity.
pub open spec fn find_style_spec(samples: Seq<Seq<char>>, commodity: Seq<char>) -> Option<Style>
    decreases samples.len(),
{
    if samples.len() == 0 {
        None
    } else {
        match style::style_from_sample_spec(samples[0]) {
            Some((name, style)) if name == commodity => Some(style),
            _ => find_style_spec(samples.skip(1), commodity),
        }
    }
}

/// The style of the first amount of a commodity in amount fields.
pub open spec fn style_in_spec(amounts: Seq<Seq<char>>, commodity: Seq<char>) -> Option<Style>
    decreases amounts.len(),
{
    if amounts.len() == 0 {
        None
    } else {
        match find_style_spec(amount_groups_spec(amounts[0]), commodity) {
            Some(style) => Some(style),
            None => style_in_spec(amounts.skip(1), commodity),
        }
    }
}

/// The style that amount fields show for a commodity, if they show one.
pub open spec fn style_from_amounts_spec(amounts: Seq<Seq<char>>, commodity: Seq<char>) -> Option<
    Style,
> {
    if commodity.len() == 0 {
        None
    } else {
        style_in_spec(amounts, commodity)
    }
}

/// Split an amount field into the amount samples it contains: the face, and
/// each amount in its cost/assertion tail. `10 EUR @ 1.1 USD` yields
/// `["10 EUR", "1.1 USD"]`, and an amount attached to its operator (`=5EUR`)
/// joins that operator's group.
fn amount_groups(field: &str) -> (r: Vec<String>)
    ensures
        text::texts(r@) == amount_groups_spec(field@),
{
    let toks = text::words(field);
    let ghost all = text::words_spec(field@);
    let mut out: Vec<String> = Vec::new();
    let mut cur: Vec<&str> = Vec::new();
    let mut i: usize = 0;
    assert(text::strs(cur@) =~= Seq::empty());
    assert(all.skip(0) =~= all);
    assert(text::texts(out@) + sections_spec(text::strs(cur@), all.skip(0)) =~= sections_spec(
        Seq::empty(),
        all,
    ));
    while i < toks.len()
        invariant
            i <= toks.len(),
            all == text::strs(toks@),
            text::texts(out@) + sections_spec(text::strs(cur@), all.skip(i as int))
                == sections_spec(Seq::empty(), all),
        decreases toks.len() - i,
    {
        let tok = toks[i];
        let ghost before = text::texts(out@);
        let ghost cur0 = text::strs(cur@);
        assert(all.skip(i as int)[0] == tok@);
        assert(all.skip(i as int).skip(1) =~= all.skip(i + 1));
        i = i + 1;
        if lex::is_rest_start(tok) {
            flush_group(&mut out, cur);
            cur = Vec::new();
            let attached = text::suffix(tok, amount::op_len(tok));
            if !attached.is_empty() {
                cur.push(attached);
            }
            assert(text::strs(cur@) =~= amount::attached_spec(tok@));
            assert(before + (group_spec(cur0) + sections_spec(
                amount::attached_spec(tok@),
                all.skip(i as int),
            )) =~= text::texts(out@) + sections_spec(text::strs(cur@), all.skip(i as int)));
        } else {
            cur.push(tok);
            assert(text::strs(cur@) =~= cur0.push(tok@));
        }
    }
    assert(all.skip(i as int) =~= Seq::empty());
    flush_group(&mut out, cur);
    out
}

/// Put a group of tokens, if there are any, on the list as one text.
fn flush_group(out: &mut Vec<String>, cur: Vec<&str>)
    ensures
        text::texts(final(out)@) == text::texts(old(out)@) + group_spec(text::strs(cur@)),
{
    let ghost before = text::texts(out@);
    if cur.len() > 0 {
        let joined = text::join(cur.as_slice(), " ");
        let ghost j = joined@;
        out.push(joined);
        assert(text::texts(out@) =~= before + seq![j]);
    } else {
        assert(text::texts(out@) =~= before + group_spec(text::strs(cur@)));
    }
}

fn find_style(samples: &[String], commodity: &str) -> (r: Option<DisplayStyle>)
    ensures
        style::opt_style(r) == find_style_spec(text::texts(samples@), commodity@),
{
    let ghost all = text::texts(samples@);
    let mut i: usize = 0;
    assert(all.skip(0) =~= all);
    while i < samples.len()
        invariant
            i <= samples.len(),
            all == text::texts(samples@),
            find_style_spec(all, commodity@) == find_style_spec(all.skip(i as int), commodity@),
        decreases samples.len() - i,
    {
        assert(all.skip(i as int)[0] == samples@[i as int]@);
        assert(all.skip(i as int).skip(1) =~= all.skip(i + 1));
        if let Some((name, style)) = style::style_from_sample(samples[i].as_str()) {
            if text::same(name.as_str(), commodity) {
                return Some(style);
            }
        }
        i = i + 1;
    }
    None
}

/// Learn a display style for `commodity` from amounts as they are written
/// nearby — the other postings of the transaction being balanced.
///
/// The first amount in that commodity wins. `None` for a unitless amount, for
/// a commodity that appears in none of the samples, and for anything that does
/// not parse.
///
/// Nothing here restyles an existing amount. It only decides how to render an
/// amount we are creating from nothing, where the alternative is not "leave it
/// alone" but a hardcoded guess.
#[must_use]
pub fn style_from_amounts(amounts: &[&str], commodity: &str) -> (r: Option<DisplayStyle>)
    ensures
        style::opt_style(r) == style_from_amounts_spec(text::strs(amounts@), commodity@),
{
    if commodity.is_empty() {
        return None;
    }
    let ghost all = text::strs(amounts@);
    let mut i: usize = 0;
    assert(all.skip(0) =~= all);
    while i < amounts.len()
        invariant
            i <= amounts.len(),
            all == text::strs(amounts@),
            commodity@.len() > 0,
            style_in_spec(all, commodity@) == style_in_spec(all.skip(i as int), commodity@),
        decreases amounts.len() - i,
    {
        assert(all.skip(i as int)[0] == amounts@[i as int]@);
        assert(all.skip(i as int).skip(1) =~= all.skip(i + 1));
        let groups = amount_groups(amounts[i]);
        if let Some(style) = find_style(groups.as_slice(), commodity) {
            return Some(style);
        }
        i = i + 1;
    }
    None
}

// ---- rendering ----

/// The size of the digit group at position `idx` from the right.
pub open spec fn group_size_spec(sizes: Seq<usize>, idx: int) -> int {
    let size = if sizes.len() == 0 {
        3
    } else if idx < sizes.len() {
        sizes[idx] as int
    } else {
        sizes.last() as int
    };
    if size < 1 {
        1
    } else {
        size
    }
}

/// Digits in groups from the right, those from position `idx` on.
pub open spec fn group_digits_spec(digits: Seq<char>, sep: char, sizes: Seq<usize>, idx: int) -> Seq<
    char,
>
    decreases digits.len(),
{
    let size = group_size_spec(sizes, idx);
    if digits.len() <= size {
        digits
    } else {
        let cut = digits.len() - size;
        group_digits_spec(digits.take(cut), sep, sizes, idx + 1) + seq![sep] + digits.skip(cut)
    }
}

/// The number of an amount in a style, with `places` decimal places.
pub open spec fn render_number_spec(value: Num, style: Style, places: nat) -> Seq<char> {
    let plain = decimal::num_text(value.rescaled(places).abs());
    let (whole, frac) = style::cut_spec(plain, Some('.'));
    let grouped = match style.group_sep {
        None => whole,
        Some(sep) => group_digits_spec(whole, sep, style.group_sizes, 0),
    };
    let sign = if value.mantissa < 0 {
        seq!['-']
    } else {
        Seq::empty()
    };
    if frac.len() == 0 {
        sign + grouped
    } else {
        sign + grouped + seq![style.decimal_mark] + frac
    }
}

/// An amount in a style, with `places` decimal places.
pub open spec fn render_styled_spec(value: Num, commodity: Seq<char>, style: Style, places: nat) -> Seq<
    char,
> {
    attach_spec(render_number_spec(value, style, places), commodity, style.symbol_side, style.symbol_space)
}

/// A number with its commodity on one side of it.
pub open spec fn attach_spec(num: Seq<char>, commodity: Seq<char>, side: Side, spaced: bool) -> Seq<
    char,
> {
    let space = if spaced {
        " "@
    } else {
        ""@
    };
    if commodity.len() == 0 {
        num
    } else {
        match side {
            Side::Left => commodity + space + num,
            Side::Right => num + space + commodity,
        }
    }
}

/// The style a generated amount is written in: the declared one, or that of
/// the amounts around it, or a plain one with the value's own places.
pub open spec fn style_for_spec(
    value: Num,
    commodity: Seq<char>,
    ctx: Ctx,
    siblings: Seq<Seq<char>>,
) -> Style {
    match ctx.style_of(commodity) {
        Some(s) => s.under(ctx.decimal_mark),
        None => match style_from_amounts_spec(siblings, commodity) {
            Some(s) => s.under(ctx.decimal_mark),
            None => Style {
                decimal_mark: match ctx.decimal_mark {
                    Some(m) => m,
                    None => '.',
                },
                group_sep: None,
                decimal_places: value.scale as u32,
                ..Style::plain()
            },
        },
    }
}

/// A generated amount: at least its style's decimal places, and as many more
/// as its value needs.
pub open spec fn render_like_spec(
    value: Num,
    commodity: Seq<char>,
    ctx: Ctx,
    siblings: Seq<Seq<char>>,
) -> Seq<char> {
    let style = style_for_spec(value, commodity, ctx, siblings);
    let needed = value.normal().scale;
    let places = if style.floor() > needed {
        style.floor()
    } else {
        needed
    };
    render_styled_spec(value, commodity, style, places)
}

/// Insert group separators from the right, sizes repeating the last.
fn group_digits(digits: &str, sep: char, sizes: &[usize], idx: usize) -> (r: String)
    ensures
        r@ == group_digits_spec(digits@, sep, sizes@, idx as int),
    decreases digits@.len(),
{
    let mut size: usize = 3;
    if sizes.len() > 0 {
        if idx < sizes.len() {
            size = sizes[idx];
        } else {
            size = sizes[sizes.len() - 1];
        }
    }
    if size < 1 {
        size = 1;
    }
    let n: usize = text::count(digits);
    if n <= size {
        return digits.to_owned();
    }
    let cut: usize = n - size;
    // Past the sizes given, every group has the last size, so the position
    // need not be counted any further.
    let next: usize = if idx < sizes.len() {
        idx + 1
    } else {
        idx
    };
    proof {
        if idx >= sizes@.len() {
            lemma_group_tail(digits@.take(cut as int), sep, sizes@, idx as int, idx + 1);
        }
    }
    let mut out = group_digits(text::prefix(digits, cut), sep, sizes, next);
    out.push(sep);
    out.append(text::suffix(digits, cut));
    assert(out@ =~= group_digits_spec(digits@.take(cut as int), sep, sizes@, idx + 1) + seq![sep]
        + digits@.skip(cut as int));
    out
}

/// Past the sizes given, the position makes no difference.
proof fn lemma_group_tail(digits: Seq<char>, sep: char, sizes: Seq<usize>, i: int, j: int)
    requires
        sizes.len() <= i,
        sizes.len() <= j,
    ensures
        group_digits_spec(digits, sep, sizes, i) == group_digits_spec(digits, sep, sizes, j),
    decreases digits.len(),
{
    let size = group_size_spec(sizes, i);
    if digits.len() > size {
        lemma_group_tail(digits.take(digits.len() - size), sep, sizes, i + 1, j + 1);
    }
}

/// Put a commodity on a number's side, spaced or not.
fn attach(num: &str, commodity: &str, side: Side, spaced: bool) -> (r: String)
    ensures
        r@ == attach_spec(num@, commodity@, side, spaced),
{
    if commodity.is_empty() {
        return num.to_owned();
    }
    let space = if spaced {
        " "
    } else {
        ""
    };
    match side {
        Side::Left => text::cat3(commodity, space, num),
        Side::Right => text::cat3(num, space, commodity),
    }
}

/// Render a number in `style` with exactly `places` fraction digits.
fn render_number(value: Quantity, style: &DisplayStyle, places: u32) -> (r: String)
    requires
        value@.exact_at(places as nat),
        places <= decimal::max_scale(),
    ensures
        r@ == render_number_spec(value@, style@, places as nat),
{
    let plain = value.rescale(places).abs().to_text();
    let (whole, frac) = match text::rfind(plain.as_str(), CharClass::Is('.')) {
        None => (plain.as_str(), ""),
        Some(i) => (text::prefix(plain.as_str(), i), text::suffix(plain.as_str(), i + 1)),
    };
    proof {
        reveal_strlit("");
        assert(""@ =~= Seq::<char>::empty());
    }
    let grouped = match style.group_sep {
        None => whole.to_owned(),
        Some(sep) => group_digits(whole, sep, style.group_sizes.as_slice(), 0),
    };
    let mut out = String::new();
    if value.is_negative() {
        out.push('-');
    }
    let ghost sign = out@;
    out.append(grouped.as_str());
    assert(out@ =~= sign + grouped@);
    if !frac.is_empty() {
        out.push(style.decimal_mark);
        out.append(frac);
        assert(out@ =~= sign + grouped@ + seq![style.decimal_mark] + frac@);
    }
    assert(sign =~= if value@.mantissa < 0 {
        seq!['-']
    } else {
        Seq::empty()
    });
    out
}

/// Render `value` in `style` with exactly `places` fraction digits.
fn render_styled(value: Quantity, commodity: &str, style: &DisplayStyle, places: u32) -> (r: String)
    requires
        value@.exact_at(places as nat),
        places <= decimal::max_scale(),
    ensures
        r@ == render_styled_spec(value@, commodity@, style@, places as nat),
{
    let num = render_number(value, style, places);
    attach(num.as_str(), commodity, style.symbol_side, style.symbol_space)
}

/// Dropping trailing zeros rounds nothing.
pub proof fn lemma_normal_exact(n: Num, places: nat)
    requires
        places >= n.normal().scale,
    ensures
        n.exact_at(places),
        n.normal().scale <= n.scale,
    decreases n.scale,
{
    if n.mantissa == 0 {
    } else if n.scale > 0 && n.mantissa % 10 == 0 {
        let m = Num { mantissa: n.mantissa / 10, scale: (n.scale - 1) as nat };
        lemma_normal_exact(m, places);
        if places < n.scale {
            if places == n.scale - 1 {
                assert(decimal::pow10(1) == 10) by {
                    reveal_with_fuel(decimal::pow10, 2);
                }
            } else {
                let k = (m.scale - places) as nat;
                let p = decimal::pow10(k);
                lemma_pow10_pos(k);
                assert((n.scale - places) as nat == k + 1);
                assert(decimal::pow10(k + 1) == 10 * p);
                assert(n.mantissa == m.mantissa * 10);
                assert(m.mantissa % p == 0);
                let q = m.mantissa / p;
                assert(m.mantissa == p * q) by (nonlinear_arith)
                    requires
                        m.mantissa % p == 0,
                        q == m.mantissa / p,
                        p > 0,
                ;
                assert(n.mantissa == (10 * p) * q) by (nonlinear_arith)
                    requires
                        n.mantissa == m.mantissa * 10,
                        m.mantissa == p * q,
                ;
                assert(((10 * p) * q) % (10 * p) == 0) by (nonlinear_arith)
                    requires
                        p > 0,
                ;
            }
        }
    }
}

pub proof fn lemma_pow10_pos(n: nat)
    ensures
        decimal::pow10(n) > 0,
    decreases n,
{
    if n > 0 {
        lemma_pow10_pos((n - 1) as nat);
    }
}

/// The style a generated amount is written in.
fn style_for(value: Quantity, commodity: &str, ctx: &AmountCtx, siblings: &[&str]) -> (r: DisplayStyle)
    ensures
        r@ == style_for_spec(value@, commodity@, ctx@, text::strs(siblings@)),
{
    if let Some(s) = ctx.styles.get(commodity) {
        return s.under(ctx.decimal_mark);
    }
    if let Some(s) = style_from_amounts(siblings, commodity) {
        return s.under(ctx.decimal_mark);
    }
    let mut s = DisplayStyle::default();
    s.decimal_mark = match ctx.decimal_mark {
        Some(m) => m,
        None => '.',
    };
    s.group_sep = None;
    s.decimal_places = value.scale();
    assert(s@ =~= style_for_spec(value@, commodity@, ctx@, text::strs(siblings@)));
    s
}

/// Render a value in a commodity's declared style — or, absent a declared
/// style, plainly with `.` (or the file's decimal mark) and the value's own
/// scale.
///
/// The style's decimal places are a *minimum*: a value needing more
/// precision keeps it. We are writing a balancing amount and must never
/// round it.
#[must_use]
pub fn render_amount(value: Quantity, commodity: &str, ctx: &AmountCtx) -> (r: String)
    ensures
        r@ == render_like_spec(value@, commodity@, ctx@, Seq::empty()),
{
    let none: Vec<&str> = Vec::new();
    assert(text::strs(none@) =~= Seq::empty());
    render_amount_like(value, commodity, ctx, none.as_slice())
}

/// [`render_amount`], falling back to the style of the amounts it is
/// balancing against when the commodity declares none.
///
/// A generated amount has to be rendered *somehow*, and a hardcoded guess
/// puts `$10` and `-10 $` side by side in one transaction. So when no
/// `commodity` directive settles it, the sibling postings do: `$10` balances
/// with `$-10`, `10€` with `-10€`, and a typed `1,234.50` keeps its digit
/// grouping. A declared style still wins over anything observed.
#[must_use]
pub fn render_amount_like(
    value: Quantity,
    commodity: &str,
    ctx: &AmountCtx,
    siblings: &[&str],
) -> (r: String)
    ensures
        r@ == render_like_spec(value@, commodity@, ctx@, text::strs(siblings@)),
{
    let style = style_for(value, commodity, ctx, siblings);
    // `value` is computed, so its scale is an artefact of the arithmetic that
    // produced it: 10.00 × 1.105 lands at scale 5 and would print
    // `11.05000`. Trailing zeros carry no information here — unlike in text a
    // person typed, where they are a deliberate statement of precision and
    // are preserved — so the floor is applied to the normalized scale.
    let needed: u32 = value.normalize().scale();
    let floor: u32 = style.floor();
    let places: u32 = if floor > needed {
        floor
    } else {
        needed
    };
    proof {
        lemma_normal_exact(value@, places as nat);
    }
    render_styled(value, commodity, &style, places)
}

/// The decimal places of a generated amount: its style's, or as many more as
/// its value needs.
pub open spec fn generated_places(value: Num, style: Style) -> nat {
    if style.floor() > value.normal().scale {
        style.floor()
    } else {
        value.normal().scale
    }
}

/// A generated amount that reads as what it is, if it does.
pub open spec fn generated_spec(
    value: Num,
    commodity: Seq<char>,
    ctx: Ctx,
    siblings: Seq<Seq<char>>,
) -> Option<Seq<char>> {
    let style = style_for_spec(value, commodity, ctx, siblings);
    if reads_back_spec(value, commodity, style, generated_places(value, style), ctx) {
        Some(render_like_spec(value, commodity, ctx, siblings))
    } else {
        None
    }
}

/// [`render_amount_like`], where what it renders reads as the value and the
/// commodity it was rendered from. An amount that would say something else is
/// not generated.
pub fn generate_amount_like(
    value: Quantity,
    commodity: &str,
    ctx: &AmountCtx,
    siblings: &[&str],
) -> (r: Option<String>)
    ensures
        text::opt_text(r) == generated_spec(value@, commodity@, ctx@, text::strs(siblings@)),
{
    let style = style_for(value, commodity, ctx, siblings);
    let needed: u32 = value.normalize().scale();
    let floor: u32 = style.floor();
    let places: u32 = if floor > needed {
        floor
    } else {
        needed
    };
    proof {
        lemma_normal_exact(value@, places as nat);
    }
    if reads_back(value, commodity, &style, places, ctx) {
        Some(render_styled(value, commodity, &style, places))
    } else {
        None
    }
}

// ---- restyling ----

/// How much precision a restyle should produce.
#[derive(Debug, Clone, Copy, PartialEq, Eq, Structural)]
pub enum Places {
    /// Exactly what was written. The formatter's default: changing the
    /// precision of an amount already in the journal changes what
    /// `hledger print` emits.
    AsWritten,
    /// The commodity's declared places, or the amount's own if it carries
    /// more. A floor, never a ceiling — see [`restyle_entered`].
    AtLeastDeclared,
}

impl Places {
    /// The number of decimal places a value is written with.
    pub open spec fn places_of(self, value: Num, style: Style) -> nat {
        match self {
            Places::AsWritten => value.scale,
            Places::AtLeastDeclared => if style.floor() > value.scale {
                style.floor()
            } else {
                value.scale
            },
        }
    }

    /// The number of fraction digits to render `value` with under this
    /// policy, given its commodity's declared style.
    fn of(self, value: Quantity, style: &DisplayStyle) -> (r: u32)
        ensures
            r == self.places_of(value@, style@),
            value@.exact_at(r as nat),
            r <= decimal::max_scale(),
    {
        let written: u32 = value.scale();
        let floor: u32 = style.floor();
        match self {
            Places::AsWritten => written,
            Places::AtLeastDeclared => if floor > written {
                floor
            } else {
                written
            },
        }
    }
}

/// An amount in a style, as number field and commodity: apart where the style
/// puts the symbol on the right with a space, together otherwise.
pub open spec fn fields_spec(value: Num, name: Seq<char>, style: Style, places: nat) -> (
    Seq<char>,
    Seq<char>,
) {
    if name.len() > 0 && style.symbol_side == Side::Right && style.symbol_space {
        (render_number_spec(value, style, places), name)
    } else {
        (render_styled_spec(value, name, style, places), Seq::empty())
    }
}

/// Whether an amount that is written in a style reads as what it is: its tokens
/// are its number field and its commodity, no comment and no tail, and those
/// read as the value, with the decimal places it is written with, of the
/// commodity.
pub open spec fn reads_back_spec(
    value: Num,
    name: Seq<char>,
    style: Style,
    places: nat,
    ctx: Ctx,
) -> bool {
    let s = render_styled_spec(value, name, style, places);
    let toks = text::words_spec(s);
    let (num, commodity, rest) = lex::split_amount_spec(toks);
    &&& !text::any_spec(s, CharClass::Is(';'))
    &&& lex::rest_at_spec(toks) == toks.len()
    &&& rest.len() == 0
    &&& (num, commodity) == fields_spec(value, name, style, places)
    &&& amount::parse_face_spec(num, commodity, ctx) == Some((value.rescaled(places), name))
}

/// The value, the commodity and the style of a face that restyles: one that
/// parses, whose commodity declares a style, and that reads as what it is once
/// it is written in that style.
pub open spec fn restylable_spec(
    num: Seq<char>,
    commodity: Seq<char>,
    ctx: Ctx,
    places: Places,
) -> Option<(Num, Seq<char>, Style)> {
    match amount::parse_face_spec(num, commodity, ctx) {
        None => None,
        Some((value, name)) => if name.len() == 0 {
            None
        } else {
            match ctx.style_of(name) {
                None => None,
                Some(s) => {
                    let style = s.under(ctx.decimal_mark);
                    if reads_back_spec(value, name, style, places.places_of(value, style), ctx) {
                        Some((value, name, style))
                    } else {
                        None
                    }
                },
            }
        },
    }
}

/// A face in its declared style, as one text.
pub open spec fn restyle_pair_spec(num: Seq<char>, commodity: Seq<char>, ctx: Ctx, places: Places) -> Option<
    Seq<char>,
> {
    match restylable_spec(num, commodity, ctx, places) {
        None => None,
        Some((value, name, style)) => Some(
            render_styled_spec(value, name, style, places.places_of(value, style)),
        ),
    }
}

/// A face in its declared style, as number field and commodity: apart where
/// the style puts the symbol on the right with a space, together otherwise.
pub open spec fn restyle_fields_spec(
    num: Seq<char>,
    commodity: Seq<char>,
    ctx: Ctx,
    places: Places,
) -> Option<(Seq<char>, Seq<char>)> {
    match restylable_spec(num, commodity, ctx, places) {
        None => None,
        Some((value, name, style)) => Some(
            fields_spec(value, name, style, places.places_of(value, style)),
        ),
    }
}

/// A face text in its declared style: `None` where it has a tail or does not
/// restyle.
pub open spec fn restyle_text_spec(field: Seq<char>, ctx: Ctx, places: Places) -> Option<Seq<char>> {
    let (num, commodity, rest) = lex::split_amount_spec(text::words_spec(field));
    if rest.len() > 0 {
        None
    } else {
        restyle_pair_spec(num, commodity, ctx, places)
    }
}

/// A tail with each amount behind an operator in its declared style, where it
/// has one. Everything else stays as written.
pub open spec fn restyle_tail_spec(rest: Seq<Seq<char>>, ctx: Ctx, places: Places) -> Seq<Seq<char>>
    decreases rest.len(),
{
    if rest.len() == 0 {
        Seq::empty()
    } else if !lex::is_rest_start_spec(rest[0]) {
        seq![rest[0]] + restyle_tail_spec(rest.skip(1), ctx, places)
    } else {
        let op = rest[0].take(amount::op_len_spec(rest[0]));
        let k = lex::rest_at_spec(rest.skip(1));
        let group = text::join_spec(amount::operand_spec(rest), " "@);
        let written = match restyle_text_spec(group, ctx, places) {
            Some(s) => seq![op] + text::words_spec(s),
            None => seq![rest[0]] + rest.skip(1).take(k),
        };
        proof {
            lemma_rest_at(rest.skip(1));
        }
        written + restyle_tail_spec(rest.skip(1).skip(k), ctx, places)
    }
}

pub proof fn lemma_rest_at(toks: Seq<Seq<char>>)
    ensures
        0 <= lex::rest_at_spec(toks) <= toks.len(),
    decreases toks.len(),
{
    if toks.len() > 0 && !lex::is_rest_start_spec(toks[0]) {
        lemma_rest_at(toks.skip(1));
    }
}

/// An entered amount in its declared styles.
pub open spec fn restyle_entered_spec(field: Seq<char>, ctx: Ctx) -> Seq<char> {
    let (num, commodity, rest) = lex::split_amount_spec(text::words_spec(field));
    let face = match restyle_pair_spec(num, commodity, ctx, Places::AtLeastDeclared) {
        Some(s) => text::words_spec(s),
        None => if commodity.len() == 0 {
            text::words_spec(num)
        } else {
            text::words_spec(num + " "@ + commodity)
        },
    };
    text::join_spec(face + restyle_tail_spec(rest, ctx, Places::AtLeastDeclared), " "@)
}

/// An amount in a style, as number field and commodity.
fn fields(value: Quantity, name: &str, style: &DisplayStyle, places: u32) -> (r: (String, String))
    requires
        value@.exact_at(places as nat),
        places <= decimal::max_scale(),
    ensures
        (r.0@, r.1@) == fields_spec(value@, name@, style@, places as nat),
{
    if !name.is_empty() && style.symbol_side == Side::Right && style.symbol_space {
        (render_number(value, style, places), name.to_owned())
    } else {
        (render_styled(value, name, style, places), String::new())
    }
}

/// Whether an amount that is written in a style reads as what it is.
fn reads_back(
    value: Quantity,
    name: &str,
    style: &DisplayStyle,
    places: u32,
    ctx: &AmountCtx,
) -> (r: bool)
    requires
        value@.exact_at(places as nat),
        places <= decimal::max_scale(),
    ensures
        r == reads_back_spec(value@, name@, style@, places as nat, ctx@),
{
    let s = render_styled(value, name, style, places);
    if text::any(s.as_str(), CharClass::Is(';')) {
        return false;
    }
    let toks = text::words(s.as_str());
    assert(text::strs(toks@).len() == toks@.len());
    if lex::rest_at(toks.as_slice()) != toks.len() {
        return false;
    }
    let (num, commodity, rest) = lex::split_amount(toks.as_slice());
    assert(text::strs(rest@).len() == rest@.len());
    let want = fields(value, name, style, places);
    if rest.len() != 0 || !text::same(num.as_str(), want.0.as_str()) || !text::same(
        commodity.as_str(),
        want.1.as_str(),
    ) {
        return false;
    }
    match amount::parse_face(num.as_str(), commodity.as_str(), ctx) {
        None => false,
        Some((u, same)) => u.is_written_as(value.rescale(places)) && text::same(
            same.as_str(),
            name,
        ),
    }
}

/// The value, the commodity and the style of a face that restyles.
fn restylable(num: &str, commodity: &str, ctx: &AmountCtx, places: Places) -> (r: Option<
    (Quantity, String, DisplayStyle),
>)
    ensures
        match r {
            Some(p) => restylable_spec(num@, commodity@, ctx@, places) == Some(
                (p.0@, p.1@, p.2@),
            ),
            None => restylable_spec(num@, commodity@, ctx@, places) is None,
        },
{
    match amount::parse_face(num, commodity, ctx) {
        None => None,
        Some((value, name)) => {
            if name.as_str().is_empty() {
                return None;
            }
            match ctx.styles.get(name.as_str()) {
                None => None,
                Some(s) => {
                    let style = s.under(ctx.decimal_mark);
                    let n: u32 = places.of(value, &style);
                    if reads_back(value, name.as_str(), &style, n, ctx) {
                        Some((value, name, style))
                    } else {
                        None
                    }
                },
            }
        },
    }
}

fn restyle_pair(num: &str, commodity: &str, ctx: &AmountCtx, places: Places) -> (r: Option<String>)
    ensures
        text::opt_text(r) == restyle_pair_spec(num@, commodity@, ctx@, places),
{
    match restylable(num, commodity, ctx, places) {
        None => None,
        Some((value, name, style)) => {
            let n: u32 = places.of(value, &style);
            Some(render_styled(value, name.as_str(), &style, n))
        },
    }
}

/// Re-render a face amount in its commodity's declared style, mirroring
/// `hledger print`.
///
/// Symbol side, spacing, digit grouping and decimal mark are normalized; the
/// typed precision is kept exactly — no padding, no rounding. `None` when
/// there is nothing to restyle: a unitless amount, a commodity without a
/// declared style, text that does not parse, or a style in which the amount
/// would read as another.
#[must_use]
pub fn restyle_face_text(field: &str, ctx: &AmountCtx) -> (r: Option<String>)
    ensures
        text::opt_text(r) == restyle_text_spec(field@, ctx@, Places::AsWritten),
{
    restyle_face_text_with(field, ctx, Places::AsWritten)
}

fn restyle_face_text_with(field: &str, ctx: &AmountCtx, places: Places) -> (r: Option<String>)
    ensures
        text::opt_text(r) == restyle_text_spec(field@, ctx@, places),
{
    let toks = text::words(field);
    let (num_field, commodity, rest) = lex::split_amount(toks.as_slice());
    assert(text::strs(rest@).len() == rest@.len());
    if rest.len() > 0 {
        return None;
    }
    restyle_pair(num_field.as_str(), commodity.as_str(), ctx, places)
}

/// Restyle a posting's (number field, commodity token) pair for column
/// rendering.
///
/// A right-side spaced style keeps the commodity in its own column; attached
/// and left-side styles put the whole rendered amount in the number field,
/// the way `$100` is aligned. `None` when nothing restyles — the caller keeps
/// the fields as parsed.
#[must_use]
pub fn restyle_face_fields(num: &str, commodity: &str, ctx: &AmountCtx) -> (r: Option<
    (String, String),
>)
    ensures
        match r {
            Some(p) => restyle_fields_spec(num@, commodity@, ctx@, Places::AsWritten) == Some(
                (p.0@, p.1@),
            ),
            None => restyle_fields_spec(num@, commodity@, ctx@, Places::AsWritten) is None,
        },
{
    restyle_face_fields_with(num, commodity, ctx, Places::AsWritten)
}

/// [`restyle_face_fields`] with an explicit precision policy.
#[must_use]
pub fn restyle_face_fields_with(num: &str, commodity: &str, ctx: &AmountCtx, places: Places) -> (r:
    Option<(String, String)>)
    ensures
        match r {
            Some(p) => restyle_fields_spec(num@, commodity@, ctx@, places) == Some((p.0@, p.1@)),
            None => restyle_fields_spec(num@, commodity@, ctx@, places) is None,
        },
{
    match restylable(num, commodity, ctx, places) {
        None => None,
        Some((value, name, style)) => {
            let n: u32 = places.of(value, &style);
            Some(fields(value, name.as_str(), &style, n))
        },
    }
}

/// Split a rendered amount back into the (number field, commodity) pair the
/// column renderer wants — the inverse of [`restyle_face_fields`]'s output
/// shape, for an amount produced by [`render_amount`].
///
/// A right-side spaced style leaves the symbol in its own column; anything
/// attached or symbol-first keeps the whole rendering in the number field,
/// the way `$100` is aligned.
#[must_use]
pub fn split_rendered(rendered: &str) -> (r: (String, String))
    ensures
        r.0@ == lex::split_amount_spec(text::words_spec(rendered@)).0,
        r.1@ == lex::split_amount_spec(text::words_spec(rendered@)).1,
{
    let toks = text::words(rendered);
    let (num, commodity, _rest) = lex::split_amount(toks.as_slice());
    (num, commodity)
}

/// Restyle the amounts inside a cost/assertion tail. Operator tokens pass
/// through; each amount group after an operator is restyled like a face.
/// Any group that does not restyle stays exactly as written.
#[must_use]
pub fn restyle_tail(rest: &[&str], ctx: &AmountCtx) -> (r: Vec<String>)
    ensures
        text::texts(r@) == restyle_tail_spec(text::strs(rest@), ctx@, Places::AsWritten),
{
    restyle_tail_with(rest, ctx, Places::AsWritten)
}

/// [`restyle_tail`] with an explicit precision policy.
#[must_use]
#[verifier::rlimit(60)]
pub fn restyle_tail_with(rest: &[&str], ctx: &AmountCtx, places: Places) -> (r: Vec<String>)
    ensures
        text::texts(r@) == restyle_tail_spec(text::strs(rest@), ctx@, places),
{
    let ghost all = text::strs(rest@);
    let mut out: Vec<String> = Vec::new();
    let mut i: usize = 0;
    assert(all.skip(0) =~= all);
    assert(text::texts(out@) + restyle_tail_spec(all, ctx@, places) =~= restyle_tail_spec(
        all,
        ctx@,
        places,
    ));
    while i < rest.len()
        invariant
            i <= rest.len(),
            all == text::strs(rest@),
            text::texts(out@) + restyle_tail_spec(all.skip(i as int), ctx@, places)
                == restyle_tail_spec(all, ctx@, places),
        decreases rest.len() - i,
    {
        let tok = rest[i];
        let ghost before = text::texts(out@);
        let ghost here = all.skip(i as int);
        assert(here[0] == tok@);
        assert(here.skip(1) =~= all.skip(i + 1));
        if !lex::is_rest_start(tok) {
            out.push(tok.to_owned());
            i = i + 1;
            assert(text::texts(out@) =~= before.push(tok@));
            assert(before + (seq![tok@] + restyle_tail_spec(all.skip(i as int), ctx@, places))
                =~= text::texts(out@) + restyle_tail_spec(all.skip(i as int), ctx@, places));
            continue ;
        }
        let from_here = lex::part(rest, i, rest.len());
        assert(text::strs(from_here@) =~= here);
        let later = lex::part(rest, i + 1, rest.len());
        assert(text::strs(later@) =~= here.skip(1));
        let k: usize = lex::rest_at(later.as_slice());
        // An amount attached to the operator (`=5EUR`) joins the group.
        let group = amount::operand(from_here.as_slice());
        let joined = text::join(group.as_slice(), " ");
        let mut written: Vec<String> = Vec::new();
        match restyle_face_text_with(joined.as_str(), ctx, places) {
            Some(s) => {
                let op = text::prefix(tok, amount::op_len(tok));
                written.push(op.to_owned());
                let mut ws = text::owned(text::words(s.as_str()).as_slice());
                let ghost w = ws@;
                written.append(&mut ws);
                assert(text::texts(written@) =~= seq![op@] + text::texts(w));
            },
            None => {
                written.push(tok.to_owned());
                let mut ts = text::owned(lex::part(later.as_slice(), 0, k).as_slice());
                let ghost w = ts@;
                written.append(&mut ts);
                assert(text::texts(w) =~= here.skip(1).take(k as int));
                assert(text::texts(written@) =~= seq![tok@] + text::texts(w));
            },
        }
        let ghost w = text::texts(written@);
        let ghost o = out@;
        out.append(&mut written);
        assert(text::texts(out@) =~= before + w);
        i = i + 1 + k;
        assert(here.skip(1).skip(k as int) =~= all.skip(i as int));
        assert(before + (w + restyle_tail_spec(all.skip(i as int), ctx@, places)) =~= text::texts(
            out@,
        ) + restyle_tail_spec(all.skip(i as int), ctx@, places));
    }
    assert(all.skip(i as int) =~= Seq::empty());
    assert(text::texts(out@) + Seq::<Seq<char>>::empty() =~= text::texts(out@));
    out
}

/// Restyle an amount the user has **just entered** — face plus any
/// cost/assertion tail — leaving every part without a declared style, or that
/// does not parse, exactly as typed.
///
/// It differs from [`restyle_face_fields`] in one way: the amount is padded
/// out to the commodity's declared number of decimal places. Entering `4 EUR`
/// under `commodity 1_000.00 EUR` stores `4.00 EUR`, which is also what the
/// generated balancing amount would have been, so the two sides of a
/// transaction agree.
///
/// The declared places are a **minimum, never a maximum**: `4.000` and
/// `4.001` are left alone. The directive sets the default, not a limit — and
/// rounding `4.001` down would lose value, which no rewrite here is allowed to
/// do.
///
/// Applies to every amount in the field, the face as well as a cost or
/// assertion tail: `10EUR @ 1.1USD` becomes `10.00 EUR @ 1.10 USD`.
#[must_use]
pub fn restyle_entered(field: &str, ctx: &AmountCtx) -> (r: String)
    ensures
        r@ == restyle_entered_spec(field@, ctx@),
{
    let toks = text::words(field);
    let (num_field, commodity, rest) = lex::split_amount(toks.as_slice());
    let face = match restyle_pair(
        num_field.as_str(),
        commodity.as_str(),
        ctx,
        Places::AtLeastDeclared,
    ) {
        Some(s) => s,
        None => if commodity.as_str().is_empty() {
            num_field
        } else {
            text::cat3(num_field.as_str(), " ", commodity.as_str())
        },
    };
    let mut out = text::owned(text::words(face.as_str()).as_slice());
    let mut tail = restyle_tail_with(rest.as_slice(), ctx, Places::AtLeastDeclared);
    let ghost a = out@;
    let ghost b = tail@;
    out.append(&mut tail);
    assert(text::texts(out@) =~= text::texts(a) + text::texts(b));
    text::join(text::refs(out.as_slice()).as_slice(), " ")
}

} // verus!
