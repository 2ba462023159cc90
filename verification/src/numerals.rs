//! How numbers are written in a style, and read back from it.

use vstd::prelude::*;
use crate::amount;
use crate::decimal::{self, Num};
use crate::restyle::{self, Places};
use crate::style::{self, Style};
use crate::text::{self, CharClass};

verus! {

// ---- digits ----

/// The digits of a number are digits, and at least one.
pub proof fn lemma_digits(n: nat)
    ensures
        text::digits_spec(n).len() > 0,
        text::all_digits(text::digits_spec(n)),
        text::digits_value(text::digits_spec(n)) == n,
    decreases n,
{
    let s = text::digits_spec(n);
    if n < 10 {
        assert(s =~= seq![text::digit_char(n)]);
        assert(s.drop_last() =~= Seq::empty());
        assert(text::digits_value(s.drop_last()) == 0);
        assert(s.last() as int == '0' as int + n);
    } else {
        lemma_digits(n / 10);
        let front = text::digits_spec(n / 10);
        assert(s.drop_last() =~= front);
        assert(s.last() as int == '0' as int + n % 10);
        assert forall|i: int| 0 <= i < s.len() implies text::is_digit(#[trigger] s[i]) by {
            if i < front.len() {
                assert(s[i] == front[i]);
            }
        }
    }
}

/// A fixed number of digits holds the number that fits in them.
pub proof fn lemma_fixed(n: nat, width: nat)
    requires
        n < decimal::pow10(width),
    ensures
        decimal::fixed_digits(n, width).len() == width,
        text::all_digits(decimal::fixed_digits(n, width)),
        text::digits_value(decimal::fixed_digits(n, width)) == n,
    decreases width,
{
    let s = decimal::fixed_digits(n, width);
    if width > 0 {
        let w = (width - 1) as nat;
        assert(n / 10 < decimal::pow10(w)) by {
            assert(decimal::pow10(width) == 10 * decimal::pow10(w));
        }
        lemma_fixed(n / 10, w);
        let front = decimal::fixed_digits(n / 10, w);
        assert(s.drop_last() =~= front);
        assert(s.last() as int == '0' as int + n % 10);
        assert forall|i: int| 0 <= i < s.len() implies text::is_digit(#[trigger] s[i]) by {
            if i < front.len() {
                assert(s[i] == front[i]);
            }
        }
    }
}

/// The number that digits behind digits write.
pub proof fn lemma_digits_concat(a: Seq<char>, b: Seq<char>)
    ensures
        text::digits_value(a + b) == text::digits_value(a) * decimal::pow10(b.len())
            + text::digits_value(b),
    decreases b.len(),
{
    let ab = a + b;
    let q = decimal::pow10(b.len());
    if b.len() == 0 {
        assert(ab =~= a);
        let v = text::digits_value(a);
        assert(v * q == v) by (nonlinear_arith)
            requires
                q == 1,
        ;
    } else {
        let front = b.drop_last();
        lemma_digits_concat(a, front);
        assert(ab.drop_last() =~= a + front);
        assert(ab.last() == b.last());
        let p = decimal::pow10(front.len());
        let v = text::digits_value(a);
        let f = text::digits_value(front);
        assert(q == 10 * p);
        assert((v * p + f) * 10 == v * q + f * 10) by (nonlinear_arith)
            requires
                q == 10 * p,
        ;
    }
}

/// A number's whole digits and its decimal places together write its
/// mantissa.
pub proof fn lemma_unsigned_digits(m: nat, scale: nat)
    ensures
        ({
            let p = decimal::pow10(scale) as nat;
            let whole = text::digits_spec(m / p);
            let frac = decimal::fixed_digits(m % p, scale);
            &&& p > 0
            &&& whole.len() > 0
            &&& text::all_digits(whole)
            &&& frac.len() == scale
            &&& text::all_digits(frac)
            &&& text::digits_value(whole + frac) == m
        }),
{
    restyle::lemma_pow10_pos(scale);
    let p = decimal::pow10(scale) as nat;
    lemma_digits(m / p);
    assert(m % p < p) by (nonlinear_arith)
        requires
            p > 0,
    ;
    lemma_fixed(m % p, scale);
    let whole = text::digits_spec(m / p);
    let frac = decimal::fixed_digits(m % p, scale);
    lemma_digits_concat(whole, frac);
    assert((m / p) * p + m % p == m) by (nonlinear_arith)
        requires
            p > 0,
    ;
}

/// A plain text comes apart at its point.
pub proof fn lemma_plain_parts(n: Num)
    requires
        n.mantissa >= 0,
    ensures
        ({
            let p = decimal::pow10(n.scale) as nat;
            let m = n.mantissa as nat;
            let frac = if n.scale == 0 {
                Seq::<char>::empty()
            } else {
                decimal::fixed_digits(m % p, n.scale)
            };
            style::cut_spec(decimal::num_text(n), Some('.')) == (text::digits_spec(m / p), frac)
        }),
{
    let m = n.mantissa as nat;
    let p = decimal::pow10(n.scale) as nat;
    lemma_unsigned_digits(m, n.scale);
    let whole = text::digits_spec(m / p);
    let t = decimal::num_text(n);
    let class = CharClass::Is('.');
    if n.scale == 0 {
        assert(p == 1);
        assert(m / 1 == m);
        assert(t == whole);
        assert forall|i: int| t.len() - t.len() <= i < t.len() implies class.has(#[trigger] t[i])
            == false by {
            assert(text::is_digit(whole[i]));
        }
        text::lemma_run_back_is(t, class, false, t.len() as int);
    } else {
        let frac = decimal::fixed_digits(m % p, n.scale);
        assert(t == whole + seq!['.'] + frac);
        let k = frac.len() as int;
        assert forall|i: int| t.len() - k <= i < t.len() implies class.has(#[trigger] t[i])
            == false by {
            assert(t[i] == frac[i - whole.len() - 1]);
            assert(text::is_digit(frac[i - whole.len() - 1]));
        }
        assert(t[t.len() - k - 1] == '.');
        text::lemma_run_back_is(t, class, false, k);
        assert(t.take(whole.len() as int) =~= whole);
        assert(t.skip(whole.len() as int + 1) =~= frac);
    }
}

// ---- groups ----

/// Whether every character is a digit or a separator.
pub open spec fn grouped(s: Seq<char>, sep: char) -> bool {
    forall|i: int| 0 <= i < s.len() ==> text::is_digit(#[trigger] s[i]) || s[i] == sep
}

pub proof fn lemma_keep_concat(a: Seq<char>, b: Seq<char>, class: CharClass)
    ensures
        text::keep_spec(a + b, class) == text::keep_spec(a, class) + text::keep_spec(b, class),
        text::count_spec(a + b, class) == text::count_spec(a, class) + text::count_spec(b, class),
    decreases b.len(),
{
    let ab = a + b;
    if b.len() == 0 {
        assert(ab =~= a);
        assert(text::keep_spec(a, class) + text::keep_spec(b, class) =~= text::keep_spec(a, class));
    } else {
        lemma_keep_concat(a, b.drop_last(), class);
        assert(ab.drop_last() =~= a + b.drop_last());
        assert(ab.last() == b.last());
        assert(text::keep_spec(ab, class) =~= text::keep_spec(a, class) + text::keep_spec(
            b,
            class,
        ));
    }
}

/// All of a text is kept where all of it is of the class.
pub proof fn lemma_keep_all(a: Seq<char>, class: CharClass)
    requires
        text::all_spec(a, class),
    ensures
        text::keep_spec(a, class) == a,
        text::count_spec(a, class) == a.len(),
    decreases a.len(),
{
    if a.len() > 0 {
        let f = a.drop_last();
        assert forall|i: int| 0 <= i < f.len() implies class.has(#[trigger] f[i]) by {
            assert(class.has(a[i]));
        }
        lemma_keep_all(f, class);
        assert(class.has(a[a.len() - 1]));
        assert(f.push(a.last()) =~= a);
    }
}

/// None of a text is kept where none of it is of the class.
pub proof fn lemma_keep_none(a: Seq<char>, class: CharClass)
    requires
        forall|i: int| 0 <= i < a.len() ==> !class.has(#[trigger] a[i]),
    ensures
        text::keep_spec(a, class) == Seq::<char>::empty(),
        text::count_spec(a, class) == 0,
    decreases a.len(),
{
    if a.len() > 0 {
        let f = a.drop_last();
        assert forall|i: int| 0 <= i < f.len() implies !class.has(#[trigger] f[i]) by {
            assert(f[i] == a[i]);
        }
        lemma_keep_none(f, class);
        assert(!class.has(a[a.len() - 1]));
    }
}

/// Digits in groups are the digits with separators in between: they start and
/// end as the digits do, and the digits are what is left without the
/// separators.
pub proof fn lemma_grouped(digits: Seq<char>, sep: char, sizes: Seq<usize>, idx: int)
    requires
        digits.len() > 0,
        text::all_digits(digits),
        !text::is_digit(sep),
        !CharClass::Sign.has(sep),
    ensures
        ({
            let g = restyle::group_digits_spec(digits, sep, sizes, idx);
            &&& g.len() > 0
            &&& grouped(g, sep)
            &&& g[0] == digits[0]
            &&& g.last() == digits.last()
            &&& text::keep_spec(g, CharClass::SignedDigit) == digits
            &&& text::count_spec(g, CharClass::Is(sep)) + digits.len() == g.len()
        }),
    decreases digits.len(),
{
    let size = restyle::group_size_spec(sizes, idx);
    let g = restyle::group_digits_spec(digits, sep, sizes, idx);
    let signed = CharClass::SignedDigit;
    let that = CharClass::Is(sep);
    if digits.len() <= size {
        assert(g == digits);
        assert(text::all_spec(digits, signed));
        lemma_keep_all(digits, signed);
        lemma_keep_none(digits, that);
    } else {
        let cut = digits.len() - size;
        let a = digits.take(cut);
        let b = digits.skip(cut);
        lemma_grouped(a, sep, sizes, idx + 1);
        let ga = restyle::group_digits_spec(a, sep, sizes, idx + 1);
        assert(g == ga + seq![sep] + b);
        assert forall|i: int| 0 <= i < g.len() implies text::is_digit(#[trigger] g[i]) || g[i]
            == sep by {
            if i < ga.len() {
                assert(g[i] == ga[i]);
            } else if i > ga.len() {
                assert(g[i] == b[i - ga.len() - 1]);
                assert(b[i - ga.len() - 1] == digits[cut + i - ga.len() - 1]);
            }
        }
        assert forall|i: int| 0 <= i < b.len() implies signed.has(#[trigger] b[i]) && !that.has(
            b[i],
        ) by {
            assert(b[i] == digits[cut + i]);
        }
        lemma_keep_concat(ga + seq![sep], b, signed);
        lemma_keep_concat(ga, seq![sep], signed);
        lemma_keep_none(seq![sep], signed);
        lemma_keep_all(b, signed);
        lemma_keep_concat(ga + seq![sep], b, that);
        lemma_keep_concat(ga, seq![sep], that);
        lemma_keep_all(seq![sep], that);
        lemma_keep_none(b, that);
        assert(text::keep_spec(g, signed) =~= a + b);
        assert(a + b =~= digits);
        assert(g[0] == ga[0]);
        assert(g.last() == b.last());
    }
}

// ---- numbers ----

/// Whether a style writes numbers with marks: its decimal mark is one, and so
/// is what separates its digit groups.
pub open spec fn punctuated(style: Style) -> bool {
    &&& CharClass::Mark.has(style.decimal_mark)
    &&& style.group_sep matches Some(sep) ==> CharClass::Punct.has(sep)
}

/// Whether a style writes numbers that it reads back: what separates its digit
/// groups is not its decimal mark.
pub open spec fn readable(style: Style) -> bool {
    punctuated(style) && style.group_sep != Some(style.decimal_mark)
}

/// Forcing a decimal mark leaves a style with marks, and one that reads back
/// what it writes.
pub proof fn lemma_under(style: Style, forced: Option<char>)
    requires
        punctuated(style),
        forced matches Some(m) ==> CharClass::Mark.has(m),
    ensures
        punctuated(style.under(forced)),
        readable(style) ==> readable(style.under(forced)),
        forced matches Some(m) ==> style.under(forced).decimal_mark == m,
        forced is None ==> style.under(forced) == style,
        style.under(forced).symbol_side == style.symbol_side,
        style.under(forced).symbol_space == style.symbol_space,
        style.under(forced).decimal_places == style.decimal_places,
{
}

/// What a number in a style consists of.
pub struct Written {
    pub sign: Seq<char>,
    pub whole: Seq<char>,
    pub grouped: Seq<char>,
    pub frac: Seq<char>,
}

pub open spec fn written(value: Num, style: Style, places: nat) -> Written {
    let u = value.rescaled(places).abs();
    let p = decimal::pow10(u.scale) as nat;
    let whole = text::digits_spec(u.mantissa as nat / p);
    Written {
        sign: if value.mantissa < 0 {
            seq!['-']
        } else {
            Seq::empty()
        },
        whole,
        grouped: match style.group_sep {
            None => whole,
            Some(sep) => restyle::group_digits_spec(whole, sep, style.group_sizes, 0),
        },
        frac: if u.scale == 0 {
            Seq::empty()
        } else {
            decimal::fixed_digits(u.mantissa as nat % p, u.scale)
        },
    }
}

/// A number in a style is its sign, its grouped digits, and its decimal places
/// behind the mark.
pub proof fn lemma_written(value: Num, style: Style, places: nat)
    ensures
        ({
            let w = written(value, style, places);
            &&& restyle::render_number_spec(value, style, places) == w.sign + w.grouped + (
            if w.frac.len() == 0 {
                Seq::<char>::empty()
            } else {
                seq![style.decimal_mark] + w.frac
            })
            &&& w.frac.len() == value.rescaled(places).scale
        }),
{
    let u = value.rescaled(places).abs();
    lemma_plain_parts(u);
    lemma_unsigned_digits(u.mantissa as nat, u.scale);
    let w = written(value, style, places);
    let t = restyle::render_number_spec(value, style, places);
    if w.frac.len() == 0 {
        assert(t =~= w.sign + w.grouped + Seq::<char>::empty());
    } else {
        assert(t =~= w.sign + w.grouped + (seq![style.decimal_mark] + w.frac));
    }
}

/// What the pieces of a number in a style with marks are like.
pub proof fn lemma_pieces(value: Num, style: Style, places: nat)
    requires
        punctuated(style),
    ensures
        ({
            let w = written(value, style, places);
            let sep = match style.group_sep {
                Some(sep) => sep,
                None => '_',
            };
            &&& w.whole.len() > 0
            &&& text::all_digits(w.whole)
            &&& text::all_digits(w.frac)
            &&& w.grouped.len() > 0
            &&& grouped(w.grouped, sep)
            &&& CharClass::Punct.has(sep)
            &&& text::is_digit(w.grouped[0])
            &&& text::is_digit(w.grouped.last())
            &&& text::keep_spec(w.grouped, CharClass::SignedDigit) == w.whole
            &&& text::count_spec(w.grouped, CharClass::Is(sep)) + w.whole.len()
                == w.grouped.len()
            &&& text::digits_value(w.whole + w.frac) == decimal::abs(
                value.rescaled(places).mantissa,
            )
        }),
{
    let u = value.rescaled(places).abs();
    lemma_unsigned_digits(u.mantissa as nat, u.scale);
    let w = written(value, style, places);
    if u.scale == 0 {
        let p = decimal::pow10(u.scale) as nat;
        assert(w.frac =~= decimal::fixed_digits(u.mantissa as nat % p, u.scale));
    }
    match style.group_sep {
        Some(sep) => {
            lemma_grouped(w.whole, sep, style.group_sizes, 0);
        },
        None => {
            assert(text::all_spec(w.whole, CharClass::SignedDigit));
            lemma_keep_all(w.whole, CharClass::SignedDigit);
            lemma_keep_none(w.whole, CharClass::Is('_'));
        },
    }
    assert(text::is_digit(w.whole[0]) && text::is_digit(w.whole[w.whole.len() - 1]));
}

/// The characters of a number in a style.
pub proof fn lemma_number_chars(value: Num, style: Style, places: nat)
    requires
        punctuated(style),
    ensures
        ({
            let t = restyle::render_number_spec(value, style, places);
            &&& t.len() > 0
            &&& t[0] == '-' || text::is_digit(t[0])
            &&& text::is_digit(t.last())
            &&& forall|i: int|
                0 <= i < t.len() ==> #[trigger] t[i] == '-' || CharClass::NumChar.has(t[i])
            &&& forall|i: int| 1 <= i < t.len() ==> CharClass::NumChar.has(#[trigger] t[i])
            &&& t[0] == '-' ==> t.len() > 1 && text::is_digit(t[1])
        }),
{
    lemma_written(value, style, places);
    lemma_pieces(value, style, places);
    let w = written(value, style, places);
    let t = restyle::render_number_spec(value, style, places);
    let tail = if w.frac.len() == 0 {
        Seq::<char>::empty()
    } else {
        seq![style.decimal_mark] + w.frac
    };
    assert(t == w.sign + w.grouped + tail);
    assert forall|i: int| 0 <= i < t.len() implies (#[trigger] t[i] == '-' && i == 0)
        || CharClass::NumChar.has(t[i]) by {
        if i < w.sign.len() {
        } else if i < w.sign.len() + w.grouped.len() {
            assert(t[i] == w.grouped[i - w.sign.len()]);
        } else {
            let k = i - w.sign.len() - w.grouped.len();
            assert(t[i] == tail[k]);
            if k > 0 {
                assert(tail[k] == w.frac[k - 1]);
                assert(text::is_digit(w.frac[k - 1]));
            }
        }
    }
    assert(t[w.sign.len() as int] == w.grouped[0]);
    if w.frac.len() == 0 {
        assert(t.last() == w.grouped.last());
    } else {
        assert(t.last() == w.frac.last());
        assert(text::is_digit(w.frac[w.frac.len() - 1]));
    }
}

/// The whole part of a number in a readable style has one group separator at
/// most.
proof fn lemma_sep(w: Written, sep: char, mark: Option<char>)
    requires
        w.sign.len() == 0 || w.sign == seq!['-'],
        grouped(w.grouped, sep),
        CharClass::Punct.has(sep),
        mark != Some(sep),
    ensures
        ({
            let whole = w.sign + w.grouped;
            let n = text::count_spec(whole, CharClass::Is(sep));
            &&& n == text::count_spec(w.grouped, CharClass::Is(sep))
            &&& style::sep_spec(whole, mark) == (if n > 0 {
                Ok::<Option<char>, ()>(Some(sep))
            } else {
                Ok::<Option<char>, ()>(None)
            })
        }),
{
    let whole = w.sign + w.grouped;
    let class = CharClass::Grouping(mark);
    let that = CharClass::Is(sep);
    lemma_keep_concat(w.sign, w.grouped, that);
    lemma_keep_none(w.sign, that);
    assert forall|i: int| 0 <= i < whole.len() implies class.has(#[trigger] whole[i]) == that.has(
        whole[i],
    ) by {
        if i >= w.sign.len() {
            assert(whole[i] == w.grouped[i - w.sign.len()]);
        }
    }
    lemma_same_count(whole, class, that);
    text::lemma_run(whole, class, false);
    let k = text::run_spec(whole, class, false);
    if k < whole.len() {
        lemma_count_positive(whole, that, k);
    } else {
        assert forall|i: int| 0 <= i < whole.len() implies !that.has(#[trigger] whole[i]) by {
            assert(class.has(whole[i]) == false);
        }
        lemma_keep_none(whole, that);
    }
}

proof fn lemma_same_count(s: Seq<char>, a: CharClass, b: CharClass)
    requires
        forall|i: int| 0 <= i < s.len() ==> a.has(#[trigger] s[i]) == b.has(s[i]),
    ensures
        text::count_spec(s, a) == text::count_spec(s, b),
    decreases s.len(),
{
    if s.len() > 0 {
        let f = s.drop_last();
        assert forall|i: int| 0 <= i < f.len() implies a.has(#[trigger] f[i]) == b.has(f[i]) by {
            assert(f[i] == s[i]);
        }
        lemma_same_count(f, a, b);
        assert(s.last() == s[s.len() - 1]);
    }
}

proof fn lemma_count_positive(s: Seq<char>, class: CharClass, k: int)
    requires
        0 <= k < s.len(),
        class.has(s[k]),
    ensures
        text::count_spec(s, class) > 0,
    decreases s.len(),
{
    lemma_count_nonneg(s.drop_last(), class);
    if k < s.len() - 1 {
        assert(s.drop_last()[k] == s[k]);
        lemma_count_positive(s.drop_last(), class, k);
    }
}

proof fn lemma_count_nonneg(s: Seq<char>, class: CharClass)
    ensures
        text::count_spec(s, class) >= 0,
    decreases s.len(),
{
    if s.len() > 0 {
        lemma_count_nonneg(s.drop_last(), class);
    }
}

/// A number in a readable style comes apart into its pieces.
proof fn lemma_comes_apart(value: Num, style: Style, places: nat)
    requires
        readable(style),
    ensures
        ({
            let w = written(value, style, places);
            let t = restyle::render_number_spec(value, style, places);
            &&& style::split_number_spec(t, Some(style.decimal_mark)) matches Some(p)
            &&& p.whole == w.sign + w.grouped
            &&& p.frac == w.frac
            &&& p.sep == (match style.group_sep {
                Some(sep) if text::count_spec(w.grouped, CharClass::Is(sep)) > 0 => Some(sep),
                _ => None,
            })
        }),
{
    let d = style.decimal_mark;
    let w = written(value, style, places);
    let t = restyle::render_number_spec(value, style, places);
    lemma_written(value, style, places);
    lemma_pieces(value, style, places);
    lemma_number_chars(value, style, places);
    let sep = match style.group_sep {
        Some(sep) => sep,
        None => '_',
    };
    let whole = w.sign + w.grouped;
    // Nothing to trim.
    text::lemma_run_is(t, CharClass::White, true, 0);
    assert(t.skip(0) =~= t);
    assert(t[t.len() - 0 - 1] == t.last());
    text::lemma_run_back_is(t, CharClass::White, true, 0);
    assert(t.take(t.len() - 0) =~= t);
    assert(CharClass::Digit.has(t[t.len() - 1]));
    assert(text::any_spec(t, CharClass::Digit));
    let that = CharClass::Is(d);
    assert forall|i: int| 0 <= i < whole.len() implies !that.has(#[trigger] whole[i]) by {
        if i >= w.sign.len() {
            assert(whole[i] == w.grouped[i - w.sign.len()]);
            match style.group_sep {
                Some(_) => {},
                None => {
                    assert(d == '.' || d == ',');
                },
            }
        }
    }
    if w.frac.len() == 0 {
        assert(t =~= whole);
        assert(!text::any_spec(t, that));
        assert(style::mark_spec(t, Some(d)) == Ok::<Option<char>, ()>(None));
        lemma_sep(w, sep, None);
        assert(w.frac =~= Seq::empty());
    } else {
        let tail = seq![d] + w.frac;
        assert(t == whole + tail);
        assert(t[whole.len() as int] == d);
        assert(text::any_spec(t, that));
        assert(style::mark_spec(t, Some(d)) == Ok::<Option<char>, ()>(Some(d)));
        let k = w.frac.len() as int;
        assert forall|i: int| t.len() - k <= i < t.len() implies that.has(#[trigger] t[i])
            == false by {
            assert(t[i] == w.frac[i - whole.len() - 1]);
            assert(text::is_digit(w.frac[i - whole.len() - 1]));
        }
        assert(t[t.len() - k - 1] == d);
        text::lemma_run_back_is(t, that, false, k);
        assert(t.take(whole.len() as int) =~= whole);
        assert(t.skip(whole.len() as int + 1) =~= w.frac);
        lemma_sep(w, sep, Some(d));
    }
    assert forall|i: int| 0 <= i < w.frac.len() implies !CharClass::Punct.has(
        #[trigger] w.frac[i],
    ) by {
        assert(text::is_digit(w.frac[i]));
    }
    if style.group_sep is None {
        assert forall|i: int| 0 <= i < w.grouped.len() implies !CharClass::Is('_').has(
            #[trigger] w.grouped[i],
        ) by {
            assert(text::is_digit(w.whole[i]));
        }
        lemma_keep_none(w.grouped, CharClass::Is('_'));
    }
}

/// A plain decimal text reads as its digits say.
pub proof fn lemma_plain_read(sign: Seq<char>, whole: Seq<char>, frac: Seq<char>, m: int)
    requires
        sign.len() == 0 || sign == seq!['-'],
        whole.len() > 0,
        text::all_digits(whole),
        text::all_digits(frac),
        frac.len() <= decimal::max_scale(),
        m == text::digits_value(whole + frac),
        decimal::fits(m),
    ensures
        ({
            let s = if frac.len() == 0 {
                sign + whole
            } else {
                sign + whole + seq!['.'] + frac
            };
            decimal::plain_decimal(s) == Some(
                Num { mantissa: if sign.len() > 0 { -m } else { m }, scale: frac.len() },
            )
        }),
{
    let body = if frac.len() == 0 {
        whole
    } else {
        whole + seq!['.'] + frac
    };
    let s = if frac.len() == 0 {
        sign + whole
    } else {
        sign + whole + seq!['.'] + frac
    };
    assert(s =~= sign + body);
    assert(text::is_digit(whole[0]));
    if sign.len() == 0 {
        assert(s =~= body);
        assert(s[0] == whole[0]);
    } else {
        assert(s[0] == '-');
        assert(s.skip(1) =~= body);
    }
    assert forall|i: int| 0 <= i < whole.len() implies CharClass::Digit.has(#[trigger] body[i])
        == true by {
        assert(body[i] == whole[i]);
    }
    if frac.len() > 0 {
        assert(body[whole.len() as int] == '.');
    }
    text::lemma_run_is(body, CharClass::Digit, true, whole.len() as int);
    assert(body.take(whole.len() as int) =~= whole);
    if frac.len() > 0 {
        assert(body.skip(whole.len() as int + 1) =~= frac);
    } else {
        assert(frac =~= Seq::empty());
    }
}

/// A number written in a readable style and read back is the number with the
/// decimal places it was written with: restyling never changes a value.
pub proof fn a_written_number_reads_back(value: Num, style: Style, places: nat)
    requires
        readable(style),
        value.rescaled(places).representable(),
        (value.rescaled(places).mantissa < 0) == (value.mantissa < 0),
    ensures
        amount::parse_number_spec(
            restyle::render_number_spec(value, style, places),
            Some(style.decimal_mark),
        ) == Some(value.rescaled(places)),
{
    let u = value.rescaled(places);
    let w = written(value, style, places);
    lemma_written(value, style, places);
    lemma_pieces(value, style, places);
    lemma_comes_apart(value, style, places);
    let t = restyle::render_number_spec(value, style, places);
    let p = style::split_number_spec(t, Some(style.decimal_mark))->0;
    let signed = CharClass::SignedDigit;
    lemma_keep_concat(w.sign, w.grouped, signed);
    assert(text::all_spec(w.sign, signed));
    lemma_keep_all(w.sign, signed);
    let kept = text::keep_spec(p.whole, signed);
    assert(kept == w.sign + w.whole);
    match style.group_sep {
        Some(sep) => {
            lemma_keep_concat(w.sign, w.grouped, CharClass::Is(sep));
            lemma_keep_none(w.sign, CharClass::Is(sep));
            lemma_count_nonneg(w.grouped, CharClass::Is(sep));
        },
        None => {
            assert(w.grouped == w.whole);
        },
    }
    assert forall|i: int| 0 <= i < w.frac.len() implies CharClass::Digit.has(#[trigger] w.frac[i]) by {
        assert(text::is_digit(w.frac[i]));
    }
    lemma_plain_read(w.sign, w.whole, w.frac, decimal::abs(u.mantissa));
    if w.frac.len() > 0 {
        assert(kept + seq!['.'] + p.frac =~= w.sign + w.whole + seq!['.'] + w.frac);
    }
}

// ---- places ----

/// A number that fits stays one that fits with more decimal places, and keeps
/// its sign.
pub proof fn lemma_grown(n: Num, places: nat)
    requires
        decimal::fits(n.mantissa),
    ensures
        decimal::fits(n.grown(places).mantissa),
        n.grown(places).scale >= n.scale,
        n.scale <= places ==> n.grown(places).scale <= places,
        (n.grown(places).mantissa < 0) == (n.mantissa < 0),
        (n.grown(places).mantissa == 0) == (n.mantissa == 0),
        n.grown(places).scale >= places || !decimal::fits(n.grown(places).mantissa * 10),
        n.grown(places).equals(n),
    decreases places - n.scale,
{
    if n.scale < places && decimal::fits(n.mantissa * 10) {
        lemma_grown(Num { mantissa: n.mantissa * 10, scale: n.scale + 1 }, places);
    }
}

/// A value written with the places a policy asks for is a value that fits.
pub proof fn lemma_rescaled(value: Num, places: Places, style: Style)
    requires
        value.representable(),
    ensures
        ({
            let u = value.rescaled(places.places_of(value, style));
            &&& u.representable()
            &&& (u.mantissa < 0) == (value.mantissa < 0)
            &&& u.rescaled(places.places_of(u, style)) == u
            &&& u.equals(value)
        }),
{
    let n = places.places_of(value, style);
    let u = value.rescaled(n);
    assert(decimal::pow10(0) == 1);
    if value.mantissa == 0 {
    } else if n <= value.scale {
        assert(n == value.scale);
        assert(value.mantissa / 1 == value.mantissa);
        assert(u =~= value);
    } else {
        lemma_grown(value, n);
        let m = places.places_of(u, style);
        if m <= u.scale {
            assert(m == u.scale);
            assert(u.mantissa / 1 == u.mantissa);
        } else {
            assert(m == n);
            assert(u.grown(m) == u);
        }
    }
}

/// A number that is written in a readable style and read back has the value it
/// had, whatever places it is filled out to, and is written the same again.
pub proof fn a_written_number_is_settled(value: Num, style: Style, places: Places)
    requires
        readable(style),
        value.representable(),
    ensures
        ({
            let t = restyle::render_number_spec(value, style, places.places_of(value, style));
            &&& amount::parse_number_spec(t, Some(style.decimal_mark)) matches Some(u)
            &&& u.representable()
            &&& u.equals(value)
            &&& places == Places::AsWritten ==> u == value
            &&& restyle::render_number_spec(u, style, places.places_of(u, style)) == t
        }),
{
    let n = places.places_of(value, style);
    let u = value.rescaled(n);
    lemma_rescaled(value, places, style);
    a_written_number_reads_back(value, style, n);
    assert(value.mantissa / 1 == value.mantissa);
    let again = places.places_of(u, style);
    assert(u.rescaled(again).abs() == value.rescaled(n).abs());
}

/// A value written with fewer decimal places, where only zeros are dropped, is
/// the same value.
proof fn lemma_shrunk(n: Num, k: nat)
    requires
        n.mantissa != 0,
        k <= n.scale,
        n.mantissa % decimal::pow10(k) == 0,
    ensures
        ({
            let u = Num { mantissa: n.mantissa / decimal::pow10(k), scale: (n.scale - k) as nat };
            &&& u.equals(n)
            &&& (u.mantissa < 0) == (n.mantissa < 0)
            &&& u.mantissa != 0
            &&& decimal::abs(u.mantissa) <= decimal::abs(n.mantissa)
        }),
    decreases k,
{
    if k == 0 {
        assert(decimal::pow10(0) == 1);
        assert(n.mantissa / 1 == n.mantissa);
    } else {
        let m = n.mantissa;
        let p = decimal::pow10((k - 1) as nat);
        restyle::lemma_pow10_pos((k - 1) as nat);
        let d = 10 * p;
        assert(decimal::pow10(k) == d);
        let q = m / d;
        vstd::arithmetic::div_mod::lemma_fundamental_div_mod(m, d);
        let z = p * q;
        assert(d * q == 10 * z) by (nonlinear_arith)
            requires
                d == 10 * p,
                z == p * q,
        ;
        assert(m == 10 * z);
        assert(m / 10 == z && m % 10 == 0);
        let next = Num { mantissa: z, scale: (n.scale - 1) as nat };
        vstd::arithmetic::div_mod::lemma_div_multiples_vanish(q, p);
        vstd::arithmetic::div_mod::lemma_mod_multiples_basic(q, p);
        assert(z == q * p) by (nonlinear_arith)
            requires
                z == p * q,
        ;
        lemma_shrunk(next, (k - 1) as nat);
        assert(n.normal() == next.normal());
    }
}

/// A value written with at least the decimal places it needs is the same value,
/// and fits.
pub proof fn lemma_exactly(value: Num, places: nat)
    requires
        value.representable(),
        places >= value.normal().scale,
        places <= decimal::max_scale(),
    ensures
        ({
            let u = value.rescaled(places);
            &&& u.representable()
            &&& u.equals(value)
            &&& (u.mantissa < 0) == (value.mantissa < 0)
            &&& value.normal().scale <= value.scale
        }),
{
    restyle::lemma_normal_exact(value, places);
    if value.mantissa == 0 {
    } else if places <= value.scale {
        lemma_shrunk(value, (value.scale - places) as nat);
    } else {
        lemma_grown(value, places);
    }
}

/// A balancing amount is never rounded: with its style's decimal places, or as
/// many more as its value needs, it reads back as the value it has.
pub proof fn a_balancing_amount_is_never_rounded(value: Num, style: Style)
    requires
        readable(style),
        value.representable(),
    ensures
        ({
            let needed = value.normal().scale;
            let places = if style.floor() > needed {
                style.floor()
            } else {
                needed
            };
            let t = restyle::render_number_spec(value, style, places);
            &&& amount::parse_number_spec(t, Some(style.decimal_mark)) matches Some(u)
            &&& u.equals(value)
        }),
{
    let needed = value.normal().scale;
    let places = if style.floor() > needed {
        style.floor()
    } else {
        needed
    };
    restyle::lemma_normal_exact(value, places);
    lemma_exactly(value, places);
    a_written_number_reads_back(value, style, places);
}

} // verus!
