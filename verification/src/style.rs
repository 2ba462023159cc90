//! Commodity display styles: what a `commodity` directive's sample says about
//! how amounts of that commodity are written.

use vstd::prelude::*;
use vstd::string::*;
use crate::decimal;
use crate::text::{self, CharClass};
use crate::lex;

verus! {

/// Which side of the number a commodity symbol sits on.
#[derive(Debug, Clone, Copy, PartialEq, Eq, Structural)]
pub enum Side {
    /// `$100`, `USD 100`
    Left,
    /// `100 EUR`, `100€`
    Right,
}

/// A commodity's display style, learned from a `commodity` directive sample
/// such as `1_000.00 EUR`.
#[derive(Debug, Clone, PartialEq, Eq)]
pub struct DisplayStyle {
    /// Decimal mark.
    pub decimal_mark: char,
    /// Digit group separator, if grouping is used.
    pub group_sep: Option<char>,
    /// Group sizes from the right; the last repeats. Typically `[3]`.
    pub group_sizes: Vec<usize>,
    /// Number of decimal places in the sample.
    pub decimal_places: u32,
    /// Symbol placement.
    pub symbol_side: Side,
    /// Whether a space separates symbol and number.
    pub symbol_space: bool,
}

/// What a display style says.
#[verifier::ext_equal]
pub struct Style {
    pub decimal_mark: char,
    pub group_sep: Option<char>,
    pub group_sizes: Seq<usize>,
    pub decimal_places: u32,
    pub symbol_side: Side,
    pub symbol_space: bool,
}

impl View for DisplayStyle {
    type V = Style;

    open spec fn view(&self) -> Style {
        Style {
            decimal_mark: self.decimal_mark,
            group_sep: self.group_sep,
            group_sizes: self.group_sizes@,
            decimal_places: self.decimal_places,
            symbol_side: self.symbol_side,
            symbol_space: self.symbol_space,
        }
    }
}

/// The style of an optional display style.
pub open spec fn opt_style(o: Option<DisplayStyle>) -> Option<Style> {
    match o {
        Some(s) => Some(s@),
        None => None,
    }
}

/// A number and its style where there are both.
pub open spec fn opt_named(o: Option<(String, DisplayStyle)>) -> Option<(Seq<char>, Style)> {
    match o {
        Some(p) => Some((p.0@, p.1@)),
        None => None,
    }
}

impl Style {
    /// The style of an amount nothing is known about.
    pub open spec fn plain() -> Style {
        Style {
            decimal_mark: '.',
            group_sep: None,
            group_sizes: seq![3usize],
            decimal_places: 2,
            symbol_side: Side::Right,
            symbol_space: true,
        }
    }

    /// The fewest decimal places an amount in this style is filled out to: the
    /// declared ones, as far as a quantity can hold them.
    pub open spec fn floor(self) -> nat {
        if self.decimal_places > decimal::max_scale() {
            decimal::max_scale()
        } else {
            self.decimal_places as nat
        }
    }

    /// The style used where a `decimal-mark` directive forces the mark. A
    /// group separator that collides with the forced mark becomes the mark it
    /// replaces.
    pub open spec fn under(self, forced: Option<char>) -> Style {
        match forced {
            Some(mark) if self.decimal_mark != mark => Style {
                decimal_mark: mark,
                group_sep: if self.group_sep == Some(mark) {
                    Some(self.decimal_mark)
                } else {
                    self.group_sep
                },
                ..self
            },
            _ => self,
        }
    }
}

impl Default for DisplayStyle {
    fn default() -> (r: Self)
        ensures
            r@ == Style::plain(),
    {
        let mut sizes: Vec<usize> = Vec::new();
        sizes.push(3);
        let r = DisplayStyle {
            decimal_mark: '.',
            group_sep: None,
            group_sizes: sizes,
            decimal_places: 2,
            symbol_side: Side::Right,
            symbol_space: true,
        };
        assert(r@ =~= Style::plain());
        r
    }
}

impl DisplayStyle {
    /// The same style again.
    pub fn duplicate(&self) -> (r: DisplayStyle)
        ensures
            r@ == self@,
    {
        let mut sizes: Vec<usize> = Vec::new();
        let mut i: usize = 0;
        while i < self.group_sizes.len()
            invariant
                i <= self.group_sizes@.len(),
                sizes@ == self.group_sizes@.take(i as int),
            decreases self.group_sizes@.len() - i,
        {
            sizes.push(self.group_sizes[i]);
            i = i + 1;
            assert(sizes@ =~= self.group_sizes@.take(i as int));
        }
        assert(sizes@ =~= self.group_sizes@);
        DisplayStyle {
            decimal_mark: self.decimal_mark,
            group_sep: self.group_sep,
            group_sizes: sizes,
            decimal_places: self.decimal_places,
            symbol_side: self.symbol_side,
            symbol_space: self.symbol_space,
        }
    }

    /// The fewest decimal places an amount in this style is filled out to.
    pub fn floor(&self) -> (r: u32)
        ensures
            r == self@.floor(),
    {
        if self.decimal_places > 28 {
            28
        } else {
            self.decimal_places
        }
    }

    /// The style actually used for rendering under a `decimal-mark` directive.
    ///
    /// The directive forces how amounts in its file *parse*, so a rendered
    /// amount must keep that mark or it would re-read as a different value
    /// (`10.5` under `decimal-mark ,` is 105). When the style's group separator
    /// collides with the forced mark, the two marks swap: `1.000,00` under
    /// `decimal-mark .` renders as `1,000.00`.
    pub fn under(&self, forced: Option<char>) -> (r: DisplayStyle)
        ensures
            r@ == self@.under(forced),
    {
        let mut s = self.duplicate();
        if let Some(mark) = forced {
            if s.decimal_mark != mark {
                let collides = match s.group_sep {
                    Some(g) => g == mark,
                    None => false,
                };
                if collides {
                    s.group_sep = Some(s.decimal_mark);
                }
                s.decimal_mark = mark;
            }
        }
        assert(s@ =~= self@.under(forced));
        s
    }
}

/// Declared display styles by commodity symbol.
#[derive(Debug, Clone)]
pub struct StyleMap {
    entries: Vec<(String, DisplayStyle)>,
}

/// The map that a list of entries writes down, a later one replacing an
/// earlier one of the same commodity.
pub open spec fn map_of(entries: Seq<(Seq<char>, Style)>) -> Map<Seq<char>, Style>
    decreases entries.len(),
{
    if entries.len() == 0 {
        Map::empty()
    } else {
        map_of(entries.drop_last()).insert(entries.last().0, entries.last().1)
    }
}

spec fn pairs(v: Seq<(String, DisplayStyle)>) -> Seq<(Seq<char>, Style)> {
    v.map_values(|e: (String, DisplayStyle)| (e.0@, e.1@))
}

impl View for StyleMap {
    type V = Map<Seq<char>, Style>;

    closed spec fn view(&self) -> Map<Seq<char>, Style> {
        map_of(pairs(self.entries@))
    }
}

/// The style a map declares for a commodity.
pub open spec fn lookup(m: Map<Seq<char>, Style>, name: Seq<char>) -> Option<Style> {
    if m.dom().contains(name) {
        Some(m[name])
    } else {
        None
    }
}

impl StyleMap {
    /// No styles.
    pub fn new() -> (r: StyleMap)
        ensures
            r@ == Map::<Seq<char>, Style>::empty(),
    {
        StyleMap { entries: Vec::new() }
    }

    /// Declare a style, replacing an earlier one of the same commodity.
    pub fn insert(&mut self, name: String, style: DisplayStyle)
        ensures
            final(self)@ == old(self)@.insert(name@, style@),
    {
        let ghost before = pairs(self.entries@);
        let ghost entry = (name@, style@);
        self.entries.push((name, style));
        assert(pairs(self.entries@) =~= before.push(entry));
        assert(pairs(self.entries@).drop_last() =~= before);
    }

    /// Whether no commodity has a style.
    pub fn is_empty(&self) -> (r: bool)
        ensures
            r == (self@ == Map::<Seq<char>, Style>::empty()),
    {
        proof {
            let es = pairs(self.entries@);
            if es.len() > 0 {
                assert(self@.dom().contains(es.last().0));
            }
        }
        self.entries.len() == 0
    }

    /// The style declared for a commodity.
    pub fn get(&self, name: &str) -> (r: Option<&DisplayStyle>)
        ensures
            (match r {
                Some(s) => Some(s@),
                None => None,
            }) == lookup(self@, name@),
    {
        let ghost all = pairs(self.entries@);
        let mut i: usize = self.entries.len();
        assert(all.take(all.len() as int) =~= all);
        while i > 0
            invariant
                i <= self.entries.len(),
                all == pairs(self.entries@),
                lookup(map_of(all), name@) == lookup(map_of(all.take(i as int)), name@),
            decreases i,
        {
            assert(all.take(i as int).drop_last() =~= all.take(i - 1));
            assert(all.take(i as int).last() == all[i - 1]);
            assert(all[i - 1] == (self.entries@[i - 1].0@, self.entries@[i - 1].1@));
            if text::same(self.entries[i - 1].0.as_str(), name) {
                return Some(&self.entries[i - 1].1);
            }
            i = i - 1;
        }
        None
    }

    /// The same styles again.
    pub fn duplicate(&self) -> (r: StyleMap)
        ensures
            r@ == self@,
    {
        let mut out = StyleMap::new();
        out.absorb(self);
        assert(self@ =~= Map::<Seq<char>, Style>::empty().union_prefer_right(self@));
        out
    }

    /// Declare every style of another map, replacing those of the same
    /// commodities.
    pub fn absorb(&mut self, other: &StyleMap)
        ensures
            final(self)@ == old(self)@.union_prefer_right(other@),
    {
        let ghost all = pairs(other.entries@);
        let mut i: usize = 0;
        assert(self@ =~= old(self)@.union_prefer_right(map_of(all.take(0))));
        while i < other.entries.len()
            invariant
                i <= other.entries.len(),
                all == pairs(other.entries@),
                self@ == old(self)@.union_prefer_right(map_of(all.take(i as int))),
            decreases other.entries.len() - i,
        {
            assert(all.take(i + 1).drop_last() =~= all.take(i as int));
            assert(all.take(i + 1).last() == all[i as int]);
            assert(all[i as int] == (other.entries@[i as int].0@, other.entries@[i as int].1@));
            self.insert(other.entries[i].0.clone(), other.entries[i].1.duplicate());
            i = i + 1;
            assert(self@ =~= old(self)@.union_prefer_right(map_of(all.take(i as int))));
        }
        assert(all.take(all.len() as int) =~= all);
    }
}

impl Default for StyleMap {
    fn default() -> (r: Self)
        ensures
            r@ == Map::<Seq<char>, Style>::empty(),
    {
        StyleMap::new()
    }
}

// ---- reading numbers ----

/// A raw number taken apart.
pub struct NumberParts {
    /// Before the decimal mark, group separators and sign included.
    pub whole: Seq<char>,
    /// Behind the decimal mark.
    pub frac: Seq<char>,
    /// The decimal mark found.
    pub mark: Option<char>,
    /// The group separator found.
    pub sep: Option<char>,
}

/// The decimal mark of a raw number: `Err` where its marks contradict each
/// other.
///
/// A forced mark is the decimal mark where it occurs. Otherwise the last of
/// the characters `.` and `,` is, if it occurs once; repeated and alone it
/// groups digits, and repeated beside the other it makes no sense.
pub open spec fn mark_spec(num: Seq<char>, forced: Option<char>) -> Result<Option<char>, ()> {
    match forced {
        Some(f) => if CharClass::Mark.has(f) && text::any_spec(num, CharClass::Is(f)) {
            Ok(Some(f))
        } else {
            Ok(None)
        },
        None => match text::rfind_spec(num, CharClass::Mark) {
            None => Ok(None),
            Some(i) => {
                let last = num[i];
                let n = text::count_spec(num, CharClass::Is(last));
                if n == 1 {
                    Ok(Some(last))
                } else if text::count_spec(num, CharClass::Mark) > n {
                    Err(())
                } else {
                    Ok(None)
                }
            },
        },
    }
}

/// The group separator of a whole part: `Err` where there are two different
/// ones.
pub open spec fn sep_spec(whole: Seq<char>, mark: Option<char>) -> Result<Option<char>, ()> {
    let class = CharClass::Grouping(mark);
    match text::find_spec(whole, class) {
        None => Ok(None),
        Some(i) => if text::count_spec(whole, CharClass::Is(whole[i])) == text::count_spec(
            whole,
            class,
        ) {
            Ok(Some(whole[i]))
        } else {
            Err(())
        },
    }
}

/// A number before and behind its last decimal mark.
pub open spec fn cut_spec(num: Seq<char>, mark: Option<char>) -> (Seq<char>, Seq<char>) {
    match mark {
        None => (num, Seq::empty()),
        Some(m) => match text::rfind_spec(num, CharClass::Is(m)) {
            None => (num, Seq::empty()),
            Some(i) => (num.take(i), num.skip(i + 1)),
        },
    }
}

/// A raw number taken apart, if it can be one.
pub open spec fn split_number_spec(raw: Seq<char>, forced: Option<char>) -> Option<NumberParts> {
    let num = text::trim_spec(raw, CharClass::White);
    if !text::any_spec(num, CharClass::Digit) {
        None
    } else {
        match mark_spec(num, forced) {
            Err(_) => None,
            Ok(mark) => {
                let (whole, frac) = cut_spec(num, mark);
                match sep_spec(whole, mark) {
                    Err(_) => None,
                    Ok(sep) => if text::any_spec(frac, CharClass::Punct) {
                        None
                    } else {
                        Some(NumberParts { whole, frac, mark, sep })
                    },
                }
            },
        }
    }
}

fn decimal_mark(num: &str, forced: Option<char>) -> (r: Result<Option<char>, ()>)
    ensures
        r == mark_spec(num@, forced),
{
    match forced {
        Some(f) => if CharClass::Mark.holds(f) && text::any(num, CharClass::Is(f)) {
            Ok(Some(f))
        } else {
            Ok(None)
        },
        None => match text::rfind(num, CharClass::Mark) {
            None => Ok(None),
            Some(i) => {
                let last = num.get_char(i);
                let n: usize = text::count_of(num, CharClass::Is(last));
                if n == 1 {
                    Ok(Some(last))
                } else if text::count_of(num, CharClass::Mark) > n {
                    Err(())
                } else {
                    Ok(None)
                }
            },
        },
    }
}

fn group_sep(whole: &str, mark: Option<char>) -> (r: Result<Option<char>, ()>)
    ensures
        r == sep_spec(whole@, mark),
{
    let class = CharClass::Grouping(mark);
    match text::find(whole, class) {
        None => Ok(None),
        Some(i) => {
            let c = whole.get_char(i);
            if text::count_of(whole, CharClass::Is(c)) == text::count_of(whole, class) {
                Ok(Some(c))
            } else {
                Err(())
            }
        },
    }
}

/// Split a raw number into whole part (group separators intact), fraction
/// digits, the decimal mark found, and the group separator found. Applies
/// the auto-detection rules; `forced` (from a directive or style) overrides
/// them.
///
/// Returns `None` when the text cannot be a number.
pub(crate) fn split_number(raw: &str, forced: Option<char>) -> (r: Option<
    (String, String, Option<char>, Option<char>),
>)
    ensures
        match r {
            Some(p) => split_number_spec(raw@, forced) == Some(
                NumberParts { whole: p.0@, frac: p.1@, mark: p.2, sep: p.3 },
            ),
            None => split_number_spec(raw@, forced) is None,
        },
{
    let num = text::trim(raw, CharClass::White);
    if !text::any(num, CharClass::Digit) {
        return None;
    }
    let mark = match decimal_mark(num, forced) {
        Ok(m) => m,
        Err(_) => return None,
    };
    // Everything after the last decimal-mark occurrence is the fraction.
    let (whole, frac) = match mark {
        None => (num, ""),
        Some(m) => match text::rfind(num, CharClass::Is(m)) {
            None => (num, ""),
            Some(i) => (text::prefix(num, i), text::suffix(num, i + 1)),
        },
    };
    proof {
        reveal_strlit("");
        assert(""@ =~= Seq::<char>::empty());
    }
    let sep = match group_sep(whole, mark) {
        Ok(s) => s,
        Err(_) => return None,
    };
    if text::any(frac, CharClass::Punct) {
        return None;
    }
    Some((whole.to_owned(), frac.to_owned(), mark, sep))
}

// ---- reading samples ----

/// Group sizes from the right: the lengths of all groups but the first.
pub open spec fn sizes_spec(groups: Seq<Seq<char>>) -> Seq<usize> {
    Seq::new(
        (groups.len() - 1) as nat,
        |i: int| groups[groups.len() - 1 - i].len() as usize,
    )
}

/// The style that a sample number such as `1_000.00` shows.
pub open spec fn style_of_number_spec(num: Seq<char>, side: Side, spaced: bool) -> Option<Style> {
    match split_number_spec(num, None) {
        None => None,
        Some(p) => {
            let sizes = match p.sep {
                None => seq![3usize],
                Some(sep) => {
                    let sizes = sizes_spec(text::split_spec(p.whole, CharClass::Is(sep)));
                    if sizes.len() == 0 {
                        seq![3usize]
                    } else {
                        sizes
                    }
                },
            };
            if p.frac.len() > u32::MAX {
                None
            } else {
                Some(
                    Style {
                        decimal_mark: match p.mark {
                            Some(m) => m,
                            None => '.',
                        },
                        group_sep: p.sep,
                        group_sizes: sizes,
                        decimal_places: p.frac.len() as u32,
                        symbol_side: side,
                        symbol_space: spaced,
                    },
                )
            }
        },
    }
}

pub open spec fn named_spec(name: Seq<char>, style: Option<Style>) -> Option<(Seq<char>, Style)> {
    match style {
        Some(s) => Some((name, s)),
        None => None,
    }
}

/// The commodity and the style that a sample shows: one token with the symbol
/// attached on the left or on the right, or a number and a symbol apart.
pub open spec fn style_from_sample_spec(sample: Seq<char>) -> Option<(Seq<char>, Style)> {
    let toks = text::words_spec(sample);
    if toks.len() == 1 {
        let t = toks[0];
        match (text::find_spec(t, CharClass::Digit), text::rfind_spec(t, CharClass::Digit)) {
            (Some(start), Some(end)) => {
                let left = text::trim_spec(t.take(start), CharClass::Sign);
                let digits = t.subrange(start, end + 1);
                let right = t.skip(end + 1);
                if left.len() > 0 {
                    named_spec(left, style_of_number_spec(digits, Side::Left, false))
                } else if right.len() > 0 {
                    named_spec(right, style_of_number_spec(digits, Side::Right, false))
                } else {
                    None
                }
            },
            _ => None,
        }
    } else if toks.len() == 2 {
        if lex::is_number_like_spec(toks[0]) {
            named_spec(toks[1], style_of_number_spec(toks[0], Side::Right, true))
        } else if lex::is_number_like_spec(toks[1]) {
            named_spec(toks[0], style_of_number_spec(toks[1], Side::Left, true))
        } else {
            None
        }
    } else {
        None
    }
}

/// The sizes of the digit groups of a whole part, from the right.
fn group_sizes(whole: &str, sep: char) -> (r: Vec<usize>)
    ensures
        r@ == sizes_spec(text::split_spec(whole@, CharClass::Is(sep))),
{
    let pieces = text::split(whole, CharClass::Is(sep));
    let ghost groups = text::split_spec(whole@, CharClass::Is(sep));
    let mut out: Vec<usize> = Vec::new();
    let mut i: usize = pieces.len();
    assert(groups.len() == pieces@.len());
    assert(groups.len() >= 1);
    while i > 1
        invariant
            1 <= i <= pieces.len(),
            groups == text::strs(pieces@),
            out@ =~= sizes_spec(groups).take(pieces.len() - i),
        decreases i,
    {
        assert(groups[i - 1] == pieces@[i - 1]@);
        out.push(text::count(pieces[i - 1]));
        i = i - 1;
        assert(out@ =~= sizes_spec(groups).take(pieces.len() - i));
    }
    assert(out@ =~= sizes_spec(groups));
    out
}

/// Derive a style from a sample number like `1_000.00` or `1.234,56`.
fn style_of_number(num: &str, side: Side, spaced: bool) -> (r: Option<DisplayStyle>)
    ensures
        opt_style(r) == style_of_number_spec(num@, side, spaced),
{
    match split_number(num, None) {
        None => None,
        Some((whole, frac, mark, sep)) => {
            let mut sizes: Vec<usize> = Vec::new();
            if let Some(s) = sep {
                sizes = group_sizes(whole.as_str(), s);
            }
            if sizes.len() == 0 {
                sizes.push(3);
                assert(sizes@ =~= seq![3usize]);
            }
            let places: usize = text::count(frac.as_str());
            if places > 0xffff_ffff {
                return None;
            }
            Some(
                DisplayStyle {
                    decimal_mark: match mark {
                        Some(m) => m,
                        None => '.',
                    },
                    group_sep: sep,
                    group_sizes: sizes,
                    decimal_places: places as u32,
                    symbol_side: side,
                    symbol_space: spaced,
                },
            )
        },
    }
}

/// Parse a commodity directive sample (`1_000.00 EUR`, `$1000.00`,
/// `1.000,000 X`) into its symbol and style. `None` when the sample is a
/// bare symbol with no number.
#[must_use]
pub fn style_from_sample(sample: &str) -> (r: Option<(String, DisplayStyle)>)
    ensures
        opt_named(r) == style_from_sample_spec(sample@),
{
    let toks = text::words(sample);
    let ghost all = text::words_spec(sample@);
    assert(all.len() == toks@.len());
    if toks.len() == 1 {
        let t = toks[0];
        assert(all[0] == t@);
        match (text::find(t, CharClass::Digit), text::rfind(t, CharClass::Digit)) {
            (Some(start), Some(end)) => {
                // A sign belongs to the number on either side of the symbol:
                // both `-$10` and `$-10` sample the commodity `$`.
                let left = text::trim(text::prefix(t, start), CharClass::Sign);
                proof {
                    lemma_find_rfind(t@, CharClass::Digit);
                }
                let digits = t.substring_char(start, end + 1);
                let right = text::suffix(t, end + 1);
                if !left.is_empty() {
                    match style_of_number(digits, Side::Left, false) {
                        Some(style) => Some((left.to_owned(), style)),
                        None => None,
                    }
                } else if !right.is_empty() {
                    match style_of_number(digits, Side::Right, false) {
                        Some(style) => Some((right.to_owned(), style)),
                        None => None,
                    }
                } else {
                    None
                }
            },
            _ => None,
        }
    } else if toks.len() == 2 {
        let a = toks[0];
        let b = toks[1];
        assert(all[0] == a@ && all[1] == b@);
        if lex::is_number_like(a) {
            match style_of_number(a, Side::Right, true) {
                Some(style) => Some((b.to_owned(), style)),
                None => None,
            }
        } else if lex::is_number_like(b) {
            match style_of_number(b, Side::Left, true) {
                Some(style) => Some((a.to_owned(), style)),
                None => None,
            }
        } else {
            None
        }
    } else {
        None
    }
}

/// The first character of a class is not behind the last.
proof fn lemma_find_rfind(s: Seq<char>, class: CharClass)
    ensures
        match (text::find_spec(s, class), text::rfind_spec(s, class)) {
            (Some(i), Some(j)) => 0 <= i <= j < s.len(),
            (None, None) => true,
            _ => false,
        },
{
    text::lemma_run(s, class, false);
    text::lemma_run_back(s, class, false);
    let n = text::run_spec(s, class, false);
    let m = text::run_back_spec(s, class, false);
    if n < s.len() {
        assert(class.has(s[n]));
        if s.len() - m <= n {
            assert(false);
        }
    }
    if m < s.len() {
        assert(class.has(s[s.len() - m - 1]));
    }
}

} // verus!
