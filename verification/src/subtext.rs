//! Finding, replacing and splitting at a piece of text.

use vstd::prelude::*;
use vstd::string::*;
use crate::text;

verus! {

/// Where a piece of text first stands.
pub open spec fn at_spec(s: Seq<char>, sub: Seq<char>) -> Option<int>
    decreases s.len(),
{
    if sub.is_prefix_of(s) {
        Some(0)
    } else if s.len() == 0 {
        None
    } else {
        match at_spec(s.skip(1), sub) {
            Some(i) => Some(i + 1),
            None => None,
        }
    }
}

/// Where a piece of text last stands.
pub open spec fn last_at_spec(s: Seq<char>, sub: Seq<char>) -> Option<int>
    decreases s.len(),
{
    if sub.len() > s.len() {
        None
    } else if s.skip(s.len() - sub.len()) == sub {
        Some(s.len() - sub.len())
    } else if s.len() == 0 {
        None
    } else {
        last_at_spec(s.drop_last(), sub)
    }
}

/// What stands behind a leading piece of text.
pub open spec fn after_spec(s: Seq<char>, p: Seq<char>) -> Option<Seq<char>> {
    if p.is_prefix_of(s) {
        Some(s.skip(p.len() as int))
    } else {
        None
    }
}

/// A text with each piece `from` replaced, from the front.
pub open spec fn replaced_spec(s: Seq<char>, from: Seq<char>, to: Seq<char>) -> Seq<char>
    decreases s.len(),
{
    if from.len() == 0 {
        s
    } else {
        match at_spec(s, from) {
            None => s,
            Some(i) => {
                proof {
                    lemma_at(s, from);
                }
                s.take(i) + to + replaced_spec(s.skip(i + from.len()), from, to)
            },
        }
    }
}

/// A text with the first piece `from` replaced.
pub open spec fn replaced_once_spec(s: Seq<char>, from: Seq<char>, to: Seq<char>) -> Seq<char> {
    match at_spec(s, from) {
        None => s,
        Some(i) => s.take(i) + to + s.skip(i + from.len()),
    }
}

/// The pieces between separators.
pub open spec fn pieces_spec(s: Seq<char>, sep: Seq<char>) -> Seq<Seq<char>>
    decreases s.len(),
{
    if sep.len() == 0 {
        seq![s]
    } else {
        match at_spec(s, sep) {
            None => seq![s],
            Some(i) => {
                proof {
                    lemma_at(s, sep);
                }
                seq![s.take(i)] + pieces_spec(s.skip(i + sep.len()), sep)
            },
        }
    }
}

/// Where a piece of text is found, it stands.
pub proof fn lemma_at(s: Seq<char>, sub: Seq<char>)
    ensures
        at_spec(s, sub) matches Some(i) ==> 0 <= i && i + sub.len() <= s.len() && s.subrange(
            i,
            i + sub.len(),
        ) == sub,
    decreases s.len(),
{
    if sub.is_prefix_of(s) {
        assert(s.subrange(0, sub.len() as int) =~= sub);
    } else if s.len() > 0 {
        lemma_at(s.skip(1), sub);
        if let Some(i) = at_spec(s.skip(1), sub) {
            assert(s.subrange(i + 1, i + 1 + sub.len()) =~= s.skip(1).subrange(i, i + sub.len()));
        }
    }
}

/// A piece of text is found no later than where it stands.
pub proof fn lemma_at_first(s: Seq<char>, sub: Seq<char>, i: int)
    requires
        0 <= i <= s.len() - sub.len(),
        s.subrange(i, i + sub.len()) == sub,
    ensures
        at_spec(s, sub) matches Some(j) && j <= i,
    decreases i,
{
    if i == 0 {
        assert(sub =~= s.take(sub.len() as int));
        assert(sub.is_prefix_of(s));
    } else if !sub.is_prefix_of(s) {
        assert(s.skip(1).subrange(i - 1, i - 1 + sub.len()) =~= s.subrange(i, i + sub.len()));
        lemma_at_first(s.skip(1), sub, i - 1);
    }
}

/// Nothing is found in a text that is too short.
proof fn lemma_at_short(s: Seq<char>, sub: Seq<char>)
    requires
        s.len() < sub.len(),
    ensures
        at_spec(s, sub) is None,
    decreases s.len(),
{
    if s.len() > 0 {
        lemma_at_short(s.skip(1), sub);
    }
}

/// Where a piece of text first stands.
pub fn at(s: &str, sub: &str) -> (r: Option<usize>)
    ensures
        match r {
            Some(i) => at_spec(s@, sub@) == Some(i as int),
            None => at_spec(s@, sub@) is None,
        },
{
    let n: usize = s.unicode_len();
    let m: usize = sub.unicode_len();
    let mut i: usize = 0;
    assert(s@.skip(0) =~= s@);
    while m <= n - i
        invariant
            n == s@.len(),
            m == sub@.len(),
            i <= n,
            at_spec(s@, sub@) == (match at_spec(s@.skip(i as int), sub@) {
                Some(j) => Some(j + i),
                None => None,
            }),
        decreases n - i,
    {
        let ghost rest = s@.skip(i as int);
        assert(rest.take(m as int) =~= s@.subrange(i as int, i + m));
        if text::same(s.substring_char(i, i + m), sub) {
            assert(sub@.is_prefix_of(rest));
            return Some(i);
        }
        assert(!sub@.is_prefix_of(rest)) by {
            if sub@.is_prefix_of(rest) {
                assert(rest.take(m as int) =~= sub@);
            }
        }
        if i == n {
            return None;
        }
        assert(rest.skip(1) =~= s@.skip(i + 1));
        i = i + 1;
    }
    proof {
        lemma_at_short(s@.skip(i as int), sub@);
    }
    None
}

/// Where a piece of text last stands.
pub fn last_at(s: &str, sub: &str) -> (r: Option<usize>)
    ensures
        match r {
            Some(i) => last_at_spec(s@, sub@) == Some(i as int) && i + sub@.len() <= s@.len(),
            None => last_at_spec(s@, sub@) is None,
        },
{
    let m: usize = sub.unicode_len();
    let mut n: usize = s.unicode_len();
    assert(s@.take(n as int) =~= s@);
    while m <= n
        invariant
            n <= s@.len(),
            m == sub@.len(),
            last_at_spec(s@, sub@) == last_at_spec(s@.take(n as int), sub@),
        decreases n,
    {
        let ghost part = s@.take(n as int);
        assert(part.skip(n - m) =~= s@.subrange(n - m, n as int));
        if text::same(s.substring_char(n - m, n), sub) {
            return Some(n - m);
        }
        if n == 0 {
            return None;
        }
        assert(part.drop_last() =~= s@.take(n - 1));
        n = n - 1;
    }
    None
}

/// What stands behind a leading piece of text.
pub fn after<'a>(s: &'a str, p: &str) -> (r: Option<&'a str>)
    ensures
        text::opt_str(r) == after_spec(s@, p@),
{
    if text::starts_with(s, p) {
        Some(text::suffix(s, p.unicode_len()))
    } else {
        None
    }
}

/// A text with each piece `from` replaced, from the front.
pub fn replaced(s: &str, from: &str, to: &str) -> (r: String)
    requires
        from@.len() > 0,
    ensures
        r@ == replaced_spec(s@, from@, to@),
{
    let mut out = String::new();
    let mut rest: &str = s;
    let m: usize = from.unicode_len();
    assert(out@ + replaced_spec(rest@, from@, to@) =~= replaced_spec(s@, from@, to@));
    loop
        invariant_except_break
            out@ + replaced_spec(rest@, from@, to@) == replaced_spec(s@, from@, to@),
        invariant
            m == from@.len(),
            m > 0,
        ensures
            out@ == replaced_spec(s@, from@, to@),
        decreases rest@.len(),
    {
        let ghost before = out@;
        match at(rest, from) {
            None => {
                out.append(rest);
                break;
            },
            Some(i) => {
                proof {
                    lemma_at(rest@, from@);
                }
                out.append(text::prefix(rest, i));
                out.append(to);
                let ghost tail = replaced_spec(rest@.skip(i + m), from@, to@);
                assert(before + (rest@.take(i as int) + to@ + tail) =~= before + rest@.take(
                    i as int,
                ) + to@ + tail);
                let whole: usize = rest.unicode_len();
                assert(i + m <= whole);
                rest = text::suffix(rest, i + m);
            },
        }
    }
    out
}

/// A text with the first piece `from` replaced.
pub fn replaced_once(s: &str, from: &str, to: &str) -> (r: String)
    ensures
        r@ == replaced_once_spec(s@, from@, to@),
{
    match at(s, from) {
        None => s.to_owned(),
        Some(i) => {
            proof {
                lemma_at(s@, from@);
            }
            let whole: usize = s.unicode_len();
            let m: usize = from.unicode_len();
            assert(i + m <= whole);
            text::cat3(text::prefix(s, i), to, text::suffix(s, i + m))
        },
    }
}

/// The pieces between separators.
pub fn pieces<'a>(s: &'a str, sep: &str) -> (r: Vec<&'a str>)
    requires
        sep@.len() > 0,
    ensures
        text::strs(r@) == pieces_spec(s@, sep@),
{
    let mut out: Vec<&str> = Vec::new();
    let mut rest: &str = s;
    let m: usize = sep.unicode_len();
    assert(text::strs(out@) + pieces_spec(rest@, sep@) =~= pieces_spec(s@, sep@));
    loop
        invariant_except_break
            text::strs(out@) + pieces_spec(rest@, sep@) == pieces_spec(s@, sep@),
        invariant
            m == sep@.len(),
            m > 0,
        ensures
            text::strs(out@) == pieces_spec(s@, sep@),
        decreases rest@.len(),
    {
        let ghost before = text::strs(out@);
        let ghost rest0 = rest@;
        match at(rest, sep) {
            None => {
                out.push(rest);
                assert(text::strs(out@) =~= before + seq![rest0]);
                break;
            },
            Some(i) => {
                proof {
                    lemma_at(rest@, sep@);
                }
                let piece = text::prefix(rest, i);
                out.push(piece);
                let whole: usize = rest.unicode_len();
                assert(i + m <= whole);
                rest = text::suffix(rest, i + m);
                assert(text::strs(out@) =~= before.push(piece@));
                assert(text::strs(out@) + pieces_spec(rest@, sep@) =~= before + (seq![piece@]
                    + pieces_spec(rest@, sep@)));
            },
        }
    }
    out
}

} // verus!
