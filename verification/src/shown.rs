//! How numbers are read and shown.

use vstd::prelude::*;
use crate::amount::{self, Ctx};
use crate::decimal::{self, Num};
use crate::fmt::{self, Scan};
use crate::lex;
use crate::numerals;
use crate::restyle::{self, Places};
use crate::style::{self, Side, Style};
use crate::text::{self, CharClass};
use crate::tokens;

verus! {

// ---- reading ----

/// Whether a text is a minus sign or nothing.
pub open spec fn is_sign(s: Seq<char>) -> bool {
    s.len() == 0 || s == seq!['-']
}

/// Whether a text is digits, and some.
pub open spec fn digits(s: Seq<char>) -> bool {
    s.len() > 0 && text::all_digits(s)
}

proof fn lemma_count_concat(a: Seq<char>, b: Seq<char>, class: CharClass)
    ensures
        text::count_spec(a + b, class) == text::count_spec(a, class) + text::count_spec(b, class),
    decreases b.len(),
{
    if b.len() == 0 {
        assert(a + b =~= a);
    } else {
        lemma_count_concat(a, b.drop_last(), class);
        assert((a + b).drop_last() =~= a + b.drop_last());
        assert((a + b).last() == b.last());
    }
}

proof fn lemma_count_none(a: Seq<char>, class: CharClass)
    requires
        forall|i: int| 0 <= i < a.len() ==> !class.has(#[trigger] a[i]),
    ensures
        text::count_spec(a, class) == 0,
    decreases a.len(),
{
    if a.len() > 0 {
        let f = a.drop_last();
        assert forall|i: int| 0 <= i < f.len() implies !class.has(#[trigger] f[i]) by {
            assert(f[i] == a[i]);
        }
        lemma_count_none(f, class);
        assert(!class.has(a[a.len() - 1]));
    }
}

/// One character of a class between others.
proof fn lemma_count_one(a: Seq<char>, c: char, b: Seq<char>, class: CharClass)
    requires
        forall|i: int| 0 <= i < a.len() ==> !class.has(#[trigger] a[i]),
        forall|i: int| 0 <= i < b.len() ==> !class.has(#[trigger] b[i]),
        class.has(c),
    ensures
        text::count_spec(a + seq![c] + b, class) == 1,
{
    lemma_count_none(a, class);
    lemma_count_none(b, class);
    lemma_count_concat(a + seq![c], b, class);
    lemma_count_concat(a, seq![c], class);
    let one = seq![c];
    assert(one.drop_last() =~= Seq::empty());
    assert(text::count_spec(one.drop_last(), class) == 0);
    assert(text::count_spec(one, class) == 1);
}

/// What digits and a sign before them hold.
proof fn lemma_signed(sign: Seq<char>, w: Seq<char>)
    requires
        is_sign(sign),
        text::all_digits(w),
    ensures
        forall|i: int|
            0 <= i < (sign + w).len() ==> text::is_digit(#[trigger] (sign + w)[i]) || (sign + w)[i]
                == '-',
{
    let s = sign + w;
    assert forall|i: int| 0 <= i < s.len() implies text::is_digit(#[trigger] s[i]) || s[i]
        == '-' by {
        if i >= sign.len() {
            assert(s[i] == w[i - sign.len()]);
        }
    }
}

/// A number of digits, a mark and decimal places is read as it is written,
/// whichever of the two marks it is, as long as no other is in effect.
pub proof fn a_decimal_number_is_read_as_written(
    sign: Seq<char>,
    w: Seq<char>,
    mark: char,
    f: Seq<char>,
    forced: Option<char>,
)
    requires
        is_sign(sign),
        digits(w),
        digits(f),
        f.len() <= decimal::max_scale(),
        decimal::fits(text::digits_value(w + f) as int),
        mark == '.' || mark == ',',
        forced is None || forced == Some(mark),
    ensures
        ({
            let m = text::digits_value(w + f) as int;
            amount::parse_number_spec(sign + w + seq![mark] + f, forced) == Some(
                Num {
                    mantissa: if sign.len() > 0 {
                        -m
                    } else {
                        m
                    },
                    scale: f.len(),
                },
            )
        }),
{
    let a = sign + w;
    let num = a + seq![mark] + f;
    let k = a.len() as int;
    lemma_signed(sign, w);
    assert(num[k] == mark);
    assert(num[sign.len() as int] == w[0]);
    assert(text::is_digit(w[0]));
    lemma_untrimmed(sign, w, num, f);
    assert(text::any_spec(num, CharClass::Digit)) by {
        assert(CharClass::Digit.has(num[sign.len() as int]));
    }
    let marks = CharClass::Mark;
    let it = CharClass::Is(mark);
    assert forall|i: int| 0 <= i < a.len() implies !marks.has(#[trigger] a[i]) && !it.has(a[i]) by {
        assert(text::is_digit(a[i]) || a[i] == '-');
    }
    assert forall|i: int| 0 <= i < f.len() implies !marks.has(#[trigger] f[i]) && !it.has(f[i]) by {
        assert(text::is_digit(f[i]));
    }
    assert forall|i: int| num.len() - f.len() <= i < num.len() implies marks.has(#[trigger] num[i])
        == false && it.has(num[i]) == false by {
        assert(num[i] == f[i - k - 1]);
    }
    assert(num[num.len() - f.len() - 1] == mark);
    text::lemma_run_back_is(num, marks, false, f.len() as int);
    text::lemma_run_back_is(num, it, false, f.len() as int);
    lemma_count_one(a, mark, f, it);
    assert(text::any_spec(num, it)) by {
        assert(it.has(num[k]));
    }
    assert(style::mark_spec(num, forced) == Ok::<Option<char>, ()>(Some(mark)));
    assert(num.take(k) =~= a);
    assert(num.skip(k + 1) =~= f);
    let class = CharClass::Grouping(Some(mark));
    assert forall|i: int| 0 <= i < a.len() implies class.has(#[trigger] a[i]) == false by {
        assert(text::is_digit(a[i]) || a[i] == '-');
    }
    text::lemma_run_is(a, class, false, a.len() as int);
    assert(!text::any_spec(f, CharClass::Punct)) by {
        assert forall|i: int| 0 <= i < f.len() implies !CharClass::Punct.has(#[trigger] f[i]) by {
            assert(text::is_digit(f[i]));
        }
    }
    assert(text::all_spec(a, CharClass::SignedDigit)) by {
        assert forall|i: int| 0 <= i < a.len() implies CharClass::SignedDigit.has(
            #[trigger] a[i],
        ) by {
            assert(text::is_digit(a[i]) || a[i] == '-');
        }
    }
    numerals::lemma_keep_all(a, CharClass::SignedDigit);
    assert(text::all_spec(f, CharClass::Digit));
    lemma_read(sign, w, f);
    assert(a + seq!['.'] + f =~= sign + w + seq!['.'] + f);
}

/// A text of digits and marks is not trimmed.
proof fn lemma_untrimmed(sign: Seq<char>, w: Seq<char>, num: Seq<char>, last: Seq<char>)
    requires
        is_sign(sign),
        digits(w),
        digits(last),
        num.len() > sign.len(),
        num[0] == (sign + w)[0],
        num.last() == last.last(),
    ensures
        text::trim_spec(num, CharClass::White) == num,
{
    lemma_signed(sign, w);
    let white = CharClass::White;
    assert(text::is_digit((sign + w)[0]) || (sign + w)[0] == '-');
    assert(text::is_digit(last[last.len() - 1]));
    text::lemma_run_is(num, white, true, 0);
    assert(num.skip(0) =~= num);
    assert(num[num.len() - 0 - 1] == num.last());
    text::lemma_run_back_is(num, white, true, 0);
    assert(num.take(num.len() as int) =~= num);
}

/// A plain decimal.
proof fn lemma_read(sign: Seq<char>, w: Seq<char>, f: Seq<char>)
    requires
        is_sign(sign),
        digits(w),
        text::all_digits(f),
        f.len() <= decimal::max_scale(),
        decimal::fits(text::digits_value(w + f) as int),
    ensures
        ({
            let m = text::digits_value(w + f) as int;
            let n = Num {
                mantissa: if sign.len() > 0 {
                    -m
                } else {
                    m
                },
                scale: f.len(),
            };
            &&& f.len() > 0 ==> decimal::decimal_read(sign + w + seq!['.'] + f) == Some(n)
            &&& f.len() == 0 ==> decimal::decimal_read(sign + w) == Some(n)
        }),
{
    let s = if f.len() == 0 {
        sign + w
    } else {
        sign + w + seq!['.'] + f
    };
    let body = if f.len() == 0 {
        w
    } else {
        w + seq!['.'] + f
    };
    assert(text::is_digit(w[0]));
    assert(s[sign.len() as int] == w[0]);
    if sign.len() > 0 {
        assert(s[0] == '-');
        assert(s.skip(1) =~= body);
    } else {
        assert(s =~= body);
    }
    let n = w.len() as int;
    assert forall|i: int| 0 <= i < n implies CharClass::Digit.has(#[trigger] body[i]) == true by {
        assert(body[i] == w[i]);
        assert(text::is_digit(w[i]));
    }
    if f.len() > 0 {
        assert(body[n] == '.');
        assert(body.skip(n + 1) =~= f);
    } else {
        assert(f =~= Seq::empty());
    }
    text::lemma_run_is(body, CharClass::Digit, true, n);
    assert(body.take(n) =~= w);
}

/// Where another decimal mark is in effect a mark only groups digits.
pub proof fn a_grouped_number_is_read_without_its_groups(
    sign: Seq<char>,
    w: Seq<char>,
    sep: char,
    g: Seq<char>,
    forced: Option<char>,
)
    requires
        is_sign(sign),
        digits(w),
        digits(g),
        decimal::fits(text::digits_value(w + g) as int),
        sep == '_' || (sep == '.' && forced == Some(',')) || (sep == ',' && forced == Some('.')),
    ensures
        ({
            let m = text::digits_value(w + g) as int;
            amount::parse_number_spec(sign + w + seq![sep] + g, forced) == Some(
                Num {
                    mantissa: if sign.len() > 0 {
                        -m
                    } else {
                        m
                    },
                    scale: 0,
                },
            )
        }),
{
    let a = sign + w;
    let num = a + seq![sep] + g;
    let k = a.len() as int;
    lemma_signed(sign, w);
    assert(num[k] == sep);
    assert(num[sign.len() as int] == w[0]);
    assert(text::is_digit(w[0]));
    lemma_untrimmed(sign, w, num, g);
    assert(text::any_spec(num, CharClass::Digit)) by {
        assert(CharClass::Digit.has(num[sign.len() as int]));
    }
    assert forall|i: int| 0 <= i < num.len() && i != k implies text::is_digit(#[trigger] num[i])
        || num[i] == '-' by {
        if i < k {
            assert(num[i] == a[i]);
            assert(text::is_digit(a[i]) || a[i] == '-');
        } else {
            assert(num[i] == g[i - k - 1]);
            assert(text::is_digit(g[i - k - 1]));
        }
    }
    assert(style::mark_spec(num, forced) == Ok::<Option<char>, ()>(None)) by {
        match forced {
            Some(m) => {
                if CharClass::Mark.has(m) && text::any_spec(num, CharClass::Is(m)) {
                    let i = choose|i: int| 0 <= i < num.len() && CharClass::Is(m).has(
                        #[trigger] num[i],
                    );
                    assert(i == k || text::is_digit(num[i]) || num[i] == '-');
                }
            },
            None => {
                assert forall|i: int| 0 <= i < num.len() implies CharClass::Mark.has(
                    #[trigger] num[i],
                ) == false by {
                    assert(i == k || text::is_digit(num[i]) || num[i] == '-');
                }
                text::lemma_run_back_is(num, CharClass::Mark, false, num.len() as int);
            },
        }
    }
    let class = CharClass::Grouping(None);
    let it = CharClass::Is(sep);
    assert forall|i: int| 0 <= i < k implies class.has(#[trigger] num[i]) == false by {
        assert(text::is_digit(num[i]) || num[i] == '-');
    }
    text::lemma_run_is(num, class, false, k);
    assert forall|i: int| 0 <= i < a.len() implies !class.has(#[trigger] a[i]) && !it.has(a[i]) by {
        assert(text::is_digit(a[i]) || a[i] == '-');
    }
    assert forall|i: int| 0 <= i < g.len() implies !class.has(#[trigger] g[i]) && !it.has(g[i]) by {
        assert(text::is_digit(g[i]));
    }
    lemma_count_one(a, sep, g, it);
    lemma_count_one(a, sep, g, class);
    let keep = CharClass::SignedDigit;
    numerals::lemma_keep_concat(a + seq![sep], g, keep);
    numerals::lemma_keep_concat(a, seq![sep], keep);
    assert(text::all_spec(a, keep)) by {
        assert forall|i: int| 0 <= i < a.len() implies keep.has(#[trigger] a[i]) by {
            assert(text::is_digit(a[i]) || a[i] == '-');
        }
    }
    numerals::lemma_keep_all(a, keep);
    assert(text::all_spec(g, keep));
    numerals::lemma_keep_all(g, keep);
    numerals::lemma_keep_none(seq![sep], keep);
    assert(text::keep_spec(num, keep) =~= a + g);
    let none = Seq::<char>::empty();
    assert forall|i: int| 0 <= i < (w + g).len() implies text::is_digit(#[trigger] (w + g)[i]) by {
        if i < w.len() {
            assert(text::is_digit(w[i]));
        } else {
            assert(text::is_digit(g[i - w.len()]));
        }
    }
    assert((w + g) + none =~= w + g);
    lemma_read(sign, w + g, none);
    assert(a + g =~= sign + (w + g));
}

// ---- showing ----

/// Digits are grouped from the right: behind every so many digits one separator,
/// and the digits as they were.
pub proof fn digits_are_grouped_from_the_right(
    ds: Seq<char>,
    sep: char,
    size: usize,
    idx: int,
    k: int,
)
    requires
        size > 0,
        0 <= idx,
    ensures
        ({
            let r = restyle::group_digits_spec(ds, sep, seq![size], idx);
            0 <= k < r.len() ==> r[r.len() - 1 - k] == (if k % (size + 1) == size {
                sep
            } else {
                ds[ds.len() - 1 - (k - k / (size + 1))]
            })
        }),
        ds.len() > 0 ==> restyle::group_digits_spec(ds, sep, seq![size], idx).len() == ds.len() + (
        ds.len() - 1) / size as int,
    decreases ds.len(),
{
    let r = restyle::group_digits_spec(ds, sep, seq![size], idx);
    let n = size as int;
    assert(restyle::group_size_spec(seq![size], idx) == n);
    if ds.len() <= n {
        if 0 <= k < r.len() {
            assert(k % (n + 1) == k && k / (n + 1) == 0) by (nonlinear_arith)
                requires
                    0 <= k < n + 1,
            ;
        }
        if ds.len() > 0 {
            let l = ds.len() - 1;
            assert(l / n == 0) by (nonlinear_arith)
                requires
                    0 <= l < n,
            ;
        }
    } else {
        let cut = ds.len() - n;
        let front = ds.take(cut);
        digits_are_grouped_from_the_right(front, sep, size, idx + 1, k - n - 1);
        let q = restyle::group_digits_spec(front, sep, seq![size], idx + 1);
        assert(r == q + seq![sep] + ds.skip(cut));
        let l = cut - 1;
        assert((l + n) / n == l / n + 1) by (nonlinear_arith)
            requires
                n > 0,
        ;
        if 0 <= k < r.len() {
            if k < n {
                assert(k % (n + 1) == k && k / (n + 1) == 0) by (nonlinear_arith)
                    requires
                        0 <= k < n + 1,
                ;
                assert(r[r.len() - 1 - k] == ds.skip(cut)[n - 1 - k]);
            } else if k == n {
                assert(n % (n + 1) == n) by (nonlinear_arith)
                    requires
                        n > 0,
                ;
            } else {
                let j = k - n - 1;
                assert(k % (n + 1) == j % (n + 1) && k / (n + 1) == j / (n + 1) + 1) by (
                    nonlinear_arith)
                    requires
                        j == k - n - 1,
                        j >= 0,
                        n > 0,
                ;
                assert(r[r.len() - 1 - k] == q[q.len() - 1 - j]);
                let x = j / (n + 1);
                if j % (n + 1) != n {
                    let at = front.len() - 1 - (j - x);
                    assert(ds.len() - 1 - (k - (x + 1)) == at);
                    lemma_inside(front, sep, size, idx + 1, j);
                    assert(front[at] == ds[at]);
                }
            }
        }
    }
}

/// The digits that a grouped number shows are those of the number.
proof fn lemma_inside(ds: Seq<char>, sep: char, size: usize, idx: int, k: int)
    requires
        size > 0,
        0 <= idx,
        0 <= k < restyle::group_digits_spec(ds, sep, seq![size], idx).len(),
        k % (size + 1) != size,
    ensures
        0 <= k - k / (size + 1) < ds.len(),
    decreases ds.len(),
{
    let n = size as int;
    let r = restyle::group_digits_spec(ds, sep, seq![size], idx);
    assert(restyle::group_size_spec(seq![size], idx) == n);
    if ds.len() <= n {
        assert(k / (n + 1) == 0) by (nonlinear_arith)
            requires
                0 <= k < n + 1,
        ;
    } else {
        let cut = ds.len() - n;
        let front = ds.take(cut);
        let q = restyle::group_digits_spec(front, sep, seq![size], idx + 1);
        assert(r == q + seq![sep] + ds.skip(cut));
        if k < n {
            assert(k / (n + 1) == 0) by (nonlinear_arith)
                requires
                    0 <= k < n + 1,
            ;
        } else {
            assert(n % (n + 1) == n) by (nonlinear_arith)
                requires
                    n > 0,
            ;
            let j = k - n - 1;
            assert(j >= 0);
            assert(k % (n + 1) == j % (n + 1) && k / (n + 1) == j / (n + 1) + 1) by (nonlinear_arith)
                requires
                    j == k - n - 1,
                    j >= 0,
                    n > 0,
            ;
            lemma_inside(front, sep, size, idx + 1, j);
        }
    }
}

/// An amount is shown with its symbol where its style puts it, a space between
/// them where the style has one.
pub proof fn a_symbol_stands_where_its_style_puts_it(
    value: Num,
    name: Seq<char>,
    st: Style,
    places: nat,
)
    requires
        name.len() > 0,
    ensures
        ({
            let shown = restyle::render_styled_spec(value, name, st, places);
            let num = restyle::render_number_spec(value, st, places);
            let gap = if st.symbol_space {
                1int
            } else {
                0
            };
            &&& shown.len() == name.len() + gap + num.len()
            &&& st.symbol_side == Side::Left ==> shown.take(name.len() as int) == name
                && shown.skip(name.len() + gap) == num
            &&& st.symbol_side == Side::Right ==> shown.take(num.len() as int) == num
                && shown.skip(num.len() + gap) == name
            &&& st.symbol_space ==> shown[if st.symbol_side == Side::Left {
                name.len() as int
            } else {
                num.len() as int
            }] == ' '
        }),
{
    reveal_strlit(" ");
    reveal_strlit("");
    let shown = restyle::render_styled_spec(value, name, st, places);
    let num = restyle::render_number_spec(value, st, places);
    let gap = if st.symbol_space {
        1int
    } else {
        0
    };
    if st.symbol_side == Side::Left {
        assert(shown.take(name.len() as int) =~= name);
        assert(shown.skip(name.len() + gap) =~= num);
    } else {
        assert(shown.take(num.len() as int) =~= num);
        assert(shown.skip(num.len() + gap) =~= name);
    }
}

/// A number is shown with its mark and its decimal places at the end, and a
/// minus sign in front where it is negative.
pub proof fn a_number_ends_in_its_places(value: Num, st: Style, places: nat)
    ensures
        ({
            let shown = restyle::render_number_spec(value, st, places);
            let n = value.rescaled(places).scale;
            &&& n > 0 ==> shown.len() > n && shown[shown.len() - 1 - n] == st.decimal_mark
            &&& n > 0 ==> text::all_digits(shown.skip(shown.len() - n))
            &&& value.mantissa < 0 ==> shown.len() > 0 && shown[0] == '-'
        }),
{
    let shown = restyle::render_number_spec(value, st, places);
    let u = value.rescaled(places).abs();
    let w = numerals::written(value, st, places);
    numerals::lemma_written(value, st, places);
    numerals::lemma_unsigned_digits(u.mantissa as nat, u.scale);
    let n = value.rescaled(places).scale;
    if n > 0 {
        assert(shown.skip(shown.len() - n) =~= w.frac);
    }
}

/// Restyling changes how an amount looks and nothing else: as it is written it
/// keeps its very value with every decimal place, and filled out it has the
/// places that its style declares or its own, if those are more.
pub proof fn restyling_keeps_the_places(
    num: Seq<char>,
    commodity: Seq<char>,
    ctx: Ctx,
    places: Places,
)
    ensures
        restyle::restyle_fields_spec(num, commodity, ctx, places) matches Some((n, c)) ==> {
            &&& amount::parse_face_spec(num, commodity, ctx) matches Some((value, name))
            &&& amount::parse_face_spec(n, c, ctx) matches Some((again, same))
            &&& same == name
            &&& ctx.style_of(name) matches Some(st)
            &&& places == Places::AsWritten && value.representable() ==> again == value
            &&& places == Places::AtLeastDeclared ==> again == value.rescaled(
                if st.floor() > value.scale {
                    st.floor()
                } else {
                    value.scale
                },
            )
        },
{
    if let Some((value, name, st)) = restyle::restylable_spec(num, commodity, ctx, places) {
        assert(decimal::pow10(0) == 1);
        assert(value.mantissa / 1 == value.mantissa);
    }
}

// ---- declaring ----

/// What a sample number shows: its digit groups, what separates them, its mark
/// and its decimal places.
pub proof fn a_sample_shows_its_style(
    w: Seq<char>,
    sep: char,
    g: Seq<char>,
    mark: char,
    f: Seq<char>,
    side: Side,
    spaced: bool,
)
    requires
        digits(w),
        digits(g),
        digits(f),
        f.len() <= u32::MAX,
        g.len() <= usize::MAX,
        mark == '.' || mark == ',',
        sep == '_' || sep == '.' || sep == ',',
        sep != mark,
    ensures
        style::style_of_number_spec(w + seq![sep] + g + seq![mark] + f, side, spaced) == Some(
            Style {
                decimal_mark: mark,
                group_sep: Some(sep),
                group_sizes: seq![g.len() as usize],
                decimal_places: f.len() as u32,
                symbol_side: side,
                symbol_space: spaced,
            },
        ),
{
    let a = w + seq![sep] + g;
    let num = a + seq![mark] + f;
    let none = Seq::<char>::empty();
    let k = a.len() as int;
    assert(num[k] == mark);
    assert(num[0] == w[0]);
    assert(text::is_digit(w[0]));
    assert(none + w =~= w);
    lemma_untrimmed(none, w, num, f);
    assert(text::any_spec(num, CharClass::Digit)) by {
        assert(CharClass::Digit.has(num[0]));
    }
    let it = CharClass::Is(mark);
    let marks = CharClass::Mark;
    assert forall|i: int| 0 <= i < a.len() implies (#[trigger] a[i] == sep && i == w.len())
        || text::is_digit(a[i]) by {
        if i < w.len() {
            assert(a[i] == w[i]);
            assert(text::is_digit(w[i]));
        } else if i > w.len() {
            assert(a[i] == g[i - w.len() - 1]);
            assert(text::is_digit(g[i - w.len() - 1]));
        }
    }
    assert forall|i: int| 0 <= i < a.len() implies !it.has(#[trigger] a[i]) by {
        assert(a[i] == sep || text::is_digit(a[i]));
    }
    assert forall|i: int| 0 <= i < f.len() implies !it.has(#[trigger] f[i]) by {
        assert(text::is_digit(f[i]));
    }
    assert forall|i: int| num.len() - f.len() <= i < num.len() implies marks.has(#[trigger] num[i])
        == false && it.has(num[i]) == false by {
        assert(num[i] == f[i - k - 1]);
        assert(text::is_digit(f[i - k - 1]));
    }
    assert(num[num.len() - f.len() - 1] == mark);
    text::lemma_run_back_is(num, marks, false, f.len() as int);
    text::lemma_run_back_is(num, it, false, f.len() as int);
    lemma_count_one(a, mark, f, it);
    assert(num.take(k) =~= a);
    assert(num.skip(k + 1) =~= f);
    lemma_grouped_apart(w, sep, g, mark);
    assert(!text::any_spec(f, CharClass::Punct)) by {
        assert forall|i: int| 0 <= i < f.len() implies !CharClass::Punct.has(#[trigger] f[i]) by {
            assert(text::is_digit(f[i]));
        }
    }
    assert(style::sizes_spec(seq![w, g]) =~= seq![g.len() as usize]);
}

proof fn lemma_grouped_apart(w: Seq<char>, sep: char, g: Seq<char>, mark: char)
    requires
        digits(w),
        digits(g),
        mark == '.' || mark == ',',
        sep == '_' || sep == '.' || sep == ',',
        sep != mark,
    ensures
        style::sep_spec(w + seq![sep] + g, Some(mark)) == Ok::<Option<char>, ()>(Some(sep)),
        text::split_spec(w + seq![sep] + g, CharClass::Is(sep)) == seq![w, g],
{
    let a = w + seq![sep] + g;
    let n = w.len() as int;
    let class = CharClass::Grouping(Some(mark));
    let it = CharClass::Is(sep);
    assert forall|i: int| 0 <= i < w.len() implies !class.has(#[trigger] w[i]) && !it.has(w[i]) by {
        assert(text::is_digit(w[i]));
    }
    assert forall|i: int| 0 <= i < g.len() implies !class.has(#[trigger] g[i]) && !it.has(g[i]) by {
        assert(text::is_digit(g[i]));
    }
    assert(a[n] == sep);
    assert forall|i: int| 0 <= i < n implies class.has(#[trigger] a[i]) == false && it.has(a[i])
        == false by {
        assert(a[i] == w[i]);
    }
    text::lemma_run_is(a, class, false, n);
    text::lemma_run_is(a, it, false, n);
    lemma_count_one(w, sep, g, class);
    lemma_count_one(w, sep, g, it);
    assert(a.take(n) =~= w);
    assert(a.skip(n + 1) =~= g);
    text::lemma_run_is(g, it, false, g.len() as int);
    assert(text::split_spec(g, it) =~= seq![g]);
    assert(seq![w] + seq![g] =~= seq![w, g]);
}

/// A sample names the commodity that it is of: a number and a symbol, in the
/// order in which the style has them.
pub proof fn a_sample_names_its_commodity(num: Seq<char>, name: Seq<char>, gap: Seq<char>)
    requires
        tokens::is_word(num),
        tokens::is_word(name),
        lex::is_number_like_spec(num),
        !lex::is_number_like_spec(name),
        gap.len() > 0,
        text::all_spec(gap, CharClass::White),
    ensures
        style::style_from_sample_spec(num + gap + name) == (match style::style_of_number_spec(
            num,
            Side::Right,
            true,
        ) {
            Some(st) => Some((name, st)),
            None => None,
        }),
        style::style_from_sample_spec(name + gap + num) == (match style::style_of_number_spec(
            num,
            Side::Left,
            true,
        ) {
            Some(st) => Some((name, st)),
            None => None,
        }),
{
    assert(text::is_white(gap[0]));
    assert(text::is_white(gap[gap.len() - 1]));
    tokens::lemma_words_one(num);
    tokens::lemma_words_one(name);
    tokens::lemma_words_white(gap);
    tokens::lemma_words_concat(num + gap, name);
    tokens::lemma_words_concat(num, gap);
    tokens::lemma_words_concat(name + gap, num);
    tokens::lemma_words_concat(name, gap);
    let none = Seq::<Seq<char>>::empty();
    assert(seq![num] + none + seq![name] =~= seq![num, name]);
    assert(seq![name] + none + seq![num] =~= seq![name, num]);
}

/// The last `commodity` directive of a commodity decides its style, whatever was
/// declared before, and changes that of no other.
pub proof fn the_last_declaration_counts(
    ls: Seq<Seq<char>>,
    l: Seq<char>,
    sample: Seq<char>,
    name: Seq<char>,
    st: Style,
    other: Seq<char>,
)
    requires
        !Scan::over(ls).opaque,
        !lex::opens_block_spec(l),
        !lex::is_indented_spec(l),
        lex::directive_arg_spec(l, "commodity"@) == Some(sample),
        style::style_from_sample_spec(sample) == Some((name, st)),
        other != name,
    ensures
        fmt::scan_ctx_spec(ls.push(l)).style_of(name) == Some(st),
        fmt::scan_ctx_spec(ls.push(l)).style_of(other) == fmt::scan_ctx_spec(ls).style_of(other),
{
    assert(ls.push(l).drop_last() =~= ls);
    assert(ls.push(l).last() == l);
    let a = Scan::over(ls);
    let b = Scan::over(ls.push(l));
    assert(b.declared == a.declared.insert(name, st));
    assert(b.defaults == a.defaults);
}

/// A `D` directive declares the style of its commodity as long as no `commodity`
/// directive does, and changes that of no other.
pub proof fn a_default_yields_to_a_declaration(
    ls: Seq<Seq<char>>,
    l: Seq<char>,
    sample: Seq<char>,
    name: Seq<char>,
    st: Style,
    other: Seq<char>,
)
    requires
        !Scan::over(ls).opaque,
        !lex::opens_block_spec(l),
        !lex::is_indented_spec(l),
        lex::directive_arg_spec(l, "commodity"@) is None,
        lex::directive_arg_spec(l, "D"@) == Some(sample),
        style::style_from_sample_spec(sample) == Some((name, st)),
        other != name,
    ensures
        fmt::scan_ctx_spec(ls.push(l)).style_of(name) == (if Scan::over(ls).declared.dom().contains(
            name,
        ) {
            Some(Scan::over(ls).declared[name])
        } else {
            Some(st)
        }),
        fmt::scan_ctx_spec(ls.push(l)).style_of(other) == fmt::scan_ctx_spec(ls).style_of(other),
{
    assert(ls.push(l).drop_last() =~= ls);
    assert(ls.push(l).last() == l);
    let a = Scan::over(ls);
    let b = Scan::over(ls.push(l));
    assert(b.declared == a.declared);
    assert(b.defaults == a.defaults.insert(name, st));
}

/// A `decimal-mark` directive decides the mark that amounts are shown with. Where
/// a style groups digits by that mark, its two marks change places; otherwise
/// nothing else of the style changes.
pub proof fn a_forced_mark_swaps_the_marks(st: Style, mark: char)
    ensures
        st.under(Some(mark)).decimal_mark == mark,
        st.decimal_mark != mark && st.group_sep == Some(mark) ==> st.under(Some(mark)).group_sep
            == Some(st.decimal_mark),
        st.decimal_mark == mark || st.group_sep != Some(mark) ==> st.under(Some(mark)).group_sep
            == st.group_sep,
        st.under(Some(mark)).group_sizes == st.group_sizes,
        st.under(Some(mark)).decimal_places == st.decimal_places,
        st.under(Some(mark)).symbol_side == st.symbol_side,
        st.under(Some(mark)).symbol_space == st.symbol_space,
        st.under(None) == st,
{
}

/// A `format` line below a `commodity` directive declares the style of that
/// commodity.
pub proof fn a_format_line_declares_its_commodity(
    ls: Seq<Seq<char>>,
    l: Seq<char>,
    name: Seq<char>,
    sample: Seq<char>,
    shown: Seq<char>,
    st: Style,
)
    requires
        !Scan::over(ls).opaque,
        Scan::over(ls).block == Some(name),
        !lex::opens_block_spec(l),
        lex::is_indented_spec(l),
        lex::directive_arg_spec(text::trim_start_spec(l, CharClass::White), "format"@) == Some(
            sample,
        ),
        style::style_from_sample_spec(sample) == Some((shown, st)),
    ensures
        fmt::scan_ctx_spec(ls.push(l)).style_of(name) == Some(st),
        Scan::over(ls.push(l)).block == Some(name),
{
    assert(ls.push(l).drop_last() =~= ls);
    assert(ls.push(l).last() == l);
    let a = Scan::over(ls);
    let b = Scan::over(ls.push(l));
    assert(b.declared == a.declared.insert(name, st));
}

/// The style of a generated amount is the one declared for its commodity, or else
/// the one in which the first amount beside it shows that commodity.
pub proof fn a_generated_amount_looks_like_its_siblings(
    value: Num,
    name: Seq<char>,
    ctx: Ctx,
    siblings: Seq<Seq<char>>,
    st: Style,
)
    requires
        name.len() > 0,
        ctx.style_of(name) == Some(st) || ctx.style_of(name) is None && siblings.len() > 0
            && style::style_from_sample_spec(siblings[0]) == Some((name, st))
            && restyle::amount_groups_spec(siblings[0]) == seq![siblings[0]],
    ensures
        restyle::style_for_spec(value, name, ctx, siblings) == st.under(ctx.decimal_mark),
{
    if ctx.style_of(name) is None {
        let groups = restyle::amount_groups_spec(siblings[0]);
        assert(groups[0] == siblings[0]);
    }
}

} // verus!
