//! Text as sequences of characters.
//!
//! Everything the library says about text it says of a `Seq<char>`, the view
//! of a `str` or a `String`. This module holds the vocabulary for that: runs
//! of a character class, trimming, splitting, joining and searching, each as a
//! specification and as a function that computes it.

use vstd::prelude::*;
use vstd::string::*;

verus! {

/// The characters Unicode gives the `White_Space` property.
pub open spec fn is_white(c: char) -> bool {
    let n = c as int;
    ||| 0x9 <= n <= 0xd
    ||| n == 0x20
    ||| n == 0x85
    ||| n == 0xa0
    ||| n == 0x1680
    ||| 0x2000 <= n <= 0x200a
    ||| n == 0x2028
    ||| n == 0x2029
    ||| n == 0x202f
    ||| n == 0x205f
    ||| n == 0x3000
}

/// `char::is_whitespace` of the standard library: whether the character has
/// the Unicode property `White_Space`, which [`is_white`] lists.
pub assume_specification[ char::is_whitespace ](c: char) -> (r: bool)
    ensures
        r == is_white(c),
;

/// `String::push` of the standard library: the character goes on the end, and
/// nothing else changes.
pub assume_specification[ String::push ](s: &mut String, c: char)
    ensures
        final(s)@ == old(s)@.push(c),
;

/// What `str::to_lowercase` makes of a text. The mapping is Unicode's, whose
/// tables are not written out here.
pub uninterp spec fn lowercase(s: Seq<char>) -> Seq<char>;

/// `str::to_lowercase` of the standard library: the lowercase equivalent of
/// the text, a function of the text alone.
#[verifier::external_body]
pub(crate) fn to_lower(s: &str) -> (r: String)
    ensures
        r@ == lowercase(s@),
{
    s.to_lowercase()
}

/// A class of characters.
#[derive(Clone, Copy, PartialEq, Eq, Structural)]
pub enum CharClass {
    /// Unicode white space.
    White,
    /// A space or a tab.
    Gap,
    /// What ends a line.
    Break,
    /// An ASCII digit.
    Digit,
    /// `+` or `-`.
    Sign,
    /// An ASCII digit or one of `.`, `,`, `_`.
    NumChar,
    /// `.` or `,`.
    Mark,
    /// `-`, `/` or `.`, which separate the parts of a date.
    DateSep,
    /// `.`, `,` or `_`.
    Punct,
    /// An ASCII digit, `+` or `-`.
    SignedDigit,
    /// What may separate digit groups where the given character is the decimal
    /// mark: `_`, and `.` or `,` unless it is that mark.
    Grouping(Option<char>),
    /// The one character.
    Is(char),
}

pub open spec fn is_digit(c: char) -> bool {
    '0' <= c && c <= '9'
}

impl CharClass {
    /// Whether a character is in the class.
    pub open spec fn has(self, c: char) -> bool {
        match self {
            CharClass::White => is_white(c),
            CharClass::Gap => c == ' ' || c == '\t',
            CharClass::Break => c == '\n' || c == '\r',
            CharClass::Digit => is_digit(c),
            CharClass::Sign => c == '+' || c == '-',
            CharClass::NumChar => is_digit(c) || c == '.' || c == ',' || c == '_',
            CharClass::Mark => c == '.' || c == ',',
            CharClass::DateSep => c == '-' || c == '/' || c == '.',
            CharClass::Punct => c == '.' || c == ',' || c == '_',
            CharClass::SignedDigit => is_digit(c) || c == '+' || c == '-',
            CharClass::Grouping(mark) => c == '_' || ((c == '.' || c == ',') && mark != Some(c)),
            CharClass::Is(x) => c == x,
        }
    }

    /// Whether a character is in the class.
    pub fn holds(self, c: char) -> (r: bool)
        ensures
            r == self.has(c),
    {
        match self {
            CharClass::White => c.is_whitespace(),
            CharClass::Gap => c == ' ' || c == '\t',
            CharClass::Break => c == '\n' || c == '\r',
            CharClass::Digit => '0' <= c && c <= '9',
            CharClass::Sign => c == '+' || c == '-',
            CharClass::NumChar => ('0' <= c && c <= '9') || c == '.' || c == ',' || c == '_',
            CharClass::Mark => c == '.' || c == ',',
            CharClass::DateSep => c == '-' || c == '/' || c == '.',
            CharClass::Punct => c == '.' || c == ',' || c == '_',
            CharClass::SignedDigit => ('0' <= c && c <= '9') || c == '+' || c == '-',
            CharClass::Grouping(mark) => c == '_' || ((c == '.' || c == ',') && match mark {
                Some(m) => m != c,
                None => true,
            }),
            CharClass::Is(x) => c == x,
        }
    }
}

// ---- views of lists of texts ----

/// The texts of a list of owned strings.
pub open spec fn texts(v: Seq<String>) -> Seq<Seq<char>> {
    v.map_values(|s: String| s@)
}

/// The texts of a list of string slices.
pub open spec fn strs(v: Seq<&str>) -> Seq<Seq<char>> {
    v.map_values(|s: &str| s@)
}

/// The text of an optional string.
pub open spec fn opt_text(o: Option<String>) -> Option<Seq<char>> {
    match o {
        Some(s) => Some(s@),
        None => None,
    }
}

/// The text of an optional string slice.
pub open spec fn opt_str(o: Option<&str>) -> Option<Seq<char>> {
    match o {
        Some(s) => Some(s@),
        None => None,
    }
}

// ---- runs ----

/// How many characters the longest prefix has whose characters are all in
/// `class` (or, with `member` false, all outside it).
pub open spec fn run_spec(s: Seq<char>, class: CharClass, member: bool) -> int
    decreases s.len(),
{
    if s.len() == 0 || class.has(s[0]) != member {
        0
    } else {
        1 + run_spec(s.skip(1), class, member)
    }
}

/// The same for the longest suffix.
pub open spec fn run_back_spec(s: Seq<char>, class: CharClass, member: bool) -> int
    decreases s.len(),
{
    if s.len() == 0 || class.has(s.last()) != member {
        0
    } else {
        1 + run_back_spec(s.drop_last(), class, member)
    }
}

/// A run is the longest prefix of its kind, and unique as such.
pub proof fn lemma_run(s: Seq<char>, class: CharClass, member: bool)
    ensures
        0 <= run_spec(s, class, member) <= s.len(),
        forall|i: int| 0 <= i < run_spec(s, class, member) ==> class.has(#[trigger] s[i]) == member,
        run_spec(s, class, member) < s.len() ==> class.has(s[run_spec(s, class, member)])
            != member,
    decreases s.len(),
{
    if s.len() == 0 || class.has(s[0]) != member {
    } else {
        lemma_run(s.skip(1), class, member);
        let n = run_spec(s.skip(1), class, member);
        assert forall|i: int| 0 <= i < n + 1 implies class.has(#[trigger] s[i]) == member by {
            if i > 0 {
                assert(s.skip(1)[i - 1] == s[i]);
            }
        }
        if n + 1 < s.len() {
            assert(s.skip(1)[n] == s[n + 1]);
        }
    }
}

/// A prefix of characters of one kind, followed by one of the other kind or by
/// the end, is the run.
pub proof fn lemma_run_is(s: Seq<char>, class: CharClass, member: bool, n: int)
    requires
        0 <= n <= s.len(),
        forall|i: int| 0 <= i < n ==> class.has(#[trigger] s[i]) == member,
        n < s.len() ==> class.has(s[n]) != member,
    ensures
        run_spec(s, class, member) == n,
{
    lemma_run(s, class, member);
    let m = run_spec(s, class, member);
    if m < n {
        assert(class.has(s[m]) == member);
    }
    if n < m {
        assert(class.has(s[n]) == member);
    }
}

/// A run from the back is the longest suffix of its kind.
pub proof fn lemma_run_back(s: Seq<char>, class: CharClass, member: bool)
    ensures
        0 <= run_back_spec(s, class, member) <= s.len(),
        forall|i: int|
            s.len() - run_back_spec(s, class, member) <= i < s.len() ==> class.has(#[trigger] s[i])
                == member,
        run_back_spec(s, class, member) < s.len() ==> class.has(
            s[s.len() - run_back_spec(s, class, member) - 1],
        ) != member,
    decreases s.len(),
{
    if s.len() == 0 || class.has(s.last()) != member {
    } else {
        lemma_run_back(s.drop_last(), class, member);
        let n = run_back_spec(s.drop_last(), class, member);
        assert forall|i: int| s.len() - (n + 1) <= i < s.len() implies class.has(#[trigger] s[i])
            == member by {
            if i < s.len() - 1 {
                assert(s.drop_last()[i] == s[i]);
            }
        }
        if n + 1 < s.len() {
            assert(s.drop_last()[s.drop_last().len() - n - 1] == s[s.len() - (n + 1) - 1]);
        }
    }
}

/// A suffix of characters of one kind, preceded by one of the other kind or by
/// nothing, is the run from the back.
pub proof fn lemma_run_back_is(s: Seq<char>, class: CharClass, member: bool, n: int)
    requires
        0 <= n <= s.len(),
        forall|i: int| s.len() - n <= i < s.len() ==> class.has(#[trigger] s[i]) == member,
        n < s.len() ==> class.has(s[s.len() - n - 1]) != member,
    ensures
        run_back_spec(s, class, member) == n,
{
    lemma_run_back(s, class, member);
    let m = run_back_spec(s, class, member);
    if m < n {
        assert(class.has(s[s.len() - m - 1]) == member);
    }
    if n < m {
        assert(class.has(s[s.len() - n - 1]) == member);
    }
}

/// Without the characters of `class` at its start.
pub open spec fn trim_start_spec(s: Seq<char>, class: CharClass) -> Seq<char> {
    s.skip(run_spec(s, class, true))
}

/// Without the characters of `class` at its end.
pub open spec fn trim_end_spec(s: Seq<char>, class: CharClass) -> Seq<char> {
    s.take(s.len() - run_back_spec(s, class, true))
}

/// Without the characters of `class` at either end.
pub open spec fn trim_spec(s: Seq<char>, class: CharClass) -> Seq<char> {
    trim_end_spec(trim_start_spec(s, class), class)
}

/// Whether some character is in `class`.
pub open spec fn any_spec(s: Seq<char>, class: CharClass) -> bool {
    exists|i: int| 0 <= i < s.len() && class.has(#[trigger] s[i])
}

/// The position of the first character in `class`.
pub open spec fn find_spec(s: Seq<char>, class: CharClass) -> Option<int> {
    let n = run_spec(s, class, false);
    if n < s.len() {
        Some(n)
    } else {
        None
    }
}

/// The position of the last character in `class`.
pub open spec fn rfind_spec(s: Seq<char>, class: CharClass) -> Option<int> {
    let n = run_back_spec(s, class, false);
    if n < s.len() {
        Some(s.len() - n - 1)
    } else {
        None
    }
}

/// How many characters are in `class`.
pub open spec fn count_spec(s: Seq<char>, class: CharClass) -> int
    decreases s.len(),
{
    if s.len() == 0 {
        0
    } else if class.has(s.last()) {
        count_spec(s.drop_last(), class) + 1
    } else {
        count_spec(s.drop_last(), class)
    }
}

/// The characters that are in `class`, in order.
pub open spec fn keep_spec(s: Seq<char>, class: CharClass) -> Seq<char>
    decreases s.len(),
{
    if s.len() == 0 {
        Seq::empty()
    } else if class.has(s.last()) {
        keep_spec(s.drop_last(), class).push(s.last())
    } else {
        keep_spec(s.drop_last(), class)
    }
}

/// Whether every character is in `class`.
pub open spec fn all_spec(s: Seq<char>, class: CharClass) -> bool {
    forall|i: int| 0 <= i < s.len() ==> class.has(#[trigger] s[i])
}

/// The maximal pieces without white space, in order.
pub open spec fn words_spec(s: Seq<char>) -> Seq<Seq<char>>
    decreases s.len(),
{
    let t = s.skip(run_spec(s, CharClass::White, true));
    let n = run_spec(t, CharClass::White, false);
    if t.len() == 0 {
        Seq::empty()
    } else {
        proof {
            lemma_run(s, CharClass::White, true);
            lemma_run(t, CharClass::White, false);
            assert(t[0] == s[run_spec(s, CharClass::White, true)]);
        }
        seq![t.take(n)] + words_spec(t.skip(n))
    }
}

/// The pieces between the characters of `class`; one more than there are such
/// characters.
pub open spec fn split_spec(s: Seq<char>, class: CharClass) -> Seq<Seq<char>>
    decreases s.len(),
{
    let n = run_spec(s, class, false);
    if n >= s.len() {
        seq![s]
    } else {
        proof {
            lemma_run(s, class, false);
        }
        seq![s.take(n)] + split_spec(s.skip(n + 1), class)
    }
}

/// The parts one after another with `sep` between each two.
pub open spec fn join_spec(parts: Seq<Seq<char>>, sep: Seq<char>) -> Seq<char>
    decreases parts.len(),
{
    if parts.len() == 0 {
        Seq::empty()
    } else if parts.len() == 1 {
        parts[0]
    } else {
        join_spec(parts.drop_last(), sep) + sep + parts.last()
    }
}

/// `n` copies of a character.
pub open spec fn repeat_spec(c: char, n: nat) -> Seq<char> {
    Seq::new(n, |i: int| c)
}

/// Whether `sub` stands in `s` as one piece.
pub open spec fn contains_spec(s: Seq<char>, sub: Seq<char>) -> bool {
    exists|i: int|
        0 <= i <= s.len() - sub.len() && #[trigger] s.subrange(i, i + sub.len()) == sub
}

/// The decimal digits of a number.
pub open spec fn digits_spec(n: nat) -> Seq<char>
    decreases n,
{
    if n < 10 {
        seq![digit_char(n)]
    } else {
        digits_spec(n / 10).push(digit_char(n % 10))
    }
}

/// The character of a digit below ten.
pub open spec fn digit_char(d: nat) -> char {
    ('0' as int + d) as char
}

/// The number that a sequence of digit characters writes.
pub open spec fn digits_value(s: Seq<char>) -> nat
    decreases s.len(),
{
    if s.len() == 0 {
        0
    } else {
        digits_value(s.drop_last()) * 10 + (s.last() as int - '0' as int) as nat
    }
}

/// Whether every character is an ASCII digit.
pub open spec fn all_digits(s: Seq<char>) -> bool {
    forall|i: int| 0 <= i < s.len() ==> is_digit(#[trigger] s[i])
}

/// The whole number that a text writes: a sign or none, and digits.
pub open spec fn whole_number(s: Seq<char>) -> Option<int> {
    let signed = s.len() > 0 && CharClass::Sign.has(s[0]);
    let body = if signed {
        s.skip(1)
    } else {
        s
    };
    if body.len() == 0 || !all_digits(body) {
        None
    } else if signed && s[0] == '-' {
        Some(-(digits_value(body) as int))
    } else {
        Some(digits_value(body) as int)
    }
}

/// The whole number that a text writes, if it is between `lo` and `hi`.
pub open spec fn number_between(s: Seq<char>, lo: int, hi: int) -> Option<int> {
    match whole_number(s) {
        Some(n) if lo <= n <= hi => Some(n),
        _ => None,
    }
}

/// The number that a text without a minus writes, if it is at most `hi`.
pub open spec fn count_upto(s: Seq<char>, hi: int) -> Option<int> {
    if s.len() > 0 && s[0] == '-' {
        None
    } else {
        number_between(s, 0, hi)
    }
}

// ---- computing it ----

/// The characters of a text.
pub fn chars(s: &str) -> (r: Vec<char>)
    ensures
        r@ == s@,
{
    let mut out: Vec<char> = Vec::new();
    for c in it: s.chars()
        invariant
            it.seq() == s@,
            out@ == s@.take(it.index() as int),
    {
        assert(s@.take(it.index() as int).push(c) == s@.take(it.index() + 1));
        out.push(c);
    }
    assert(s@.take(s@.len() as int) == s@);
    out
}

/// The number of characters.
pub fn count(s: &str) -> (r: usize)
    ensures
        r == s@.len(),
{
    s.unicode_len()
}

/// The first `n` characters.
pub fn prefix(s: &str, n: usize) -> (r: &str)
    requires
        n <= s@.len(),
    ensures
        r@ == s@.take(n as int),
{
    s.substring_char(0, n)
}

/// What follows the first `n` characters.
pub fn suffix(s: &str, n: usize) -> (r: &str)
    requires
        n <= s@.len(),
    ensures
        r@ == s@.skip(n as int),
{
    let len: usize = s.unicode_len();
    s.substring_char(n, len)
}

/// How long the run of characters inside (or outside) `class` at the start is.
pub fn run(s: &str, class: CharClass, member: bool) -> (r: usize)
    ensures
        r == run_spec(s@, class, member),
        r <= s@.len(),
{
    let v = chars(s);
    let mut i: usize = 0;
    while i < v.len() && class.holds(v[i]) == member
        invariant
            i <= v.len(),
            v@ == s@,
            forall|j: int| 0 <= j < i ==> class.has(#[trigger] s@[j]) == member,
        decreases v.len() - i,
    {
        i = i + 1;
    }
    proof {
        lemma_run_is(s@, class, member, i as int);
    }
    i
}

/// How long the run of characters inside (or outside) `class` at the end is.
pub fn run_back(s: &str, class: CharClass, member: bool) -> (r: usize)
    ensures
        r == run_back_spec(s@, class, member),
        r <= s@.len(),
{
    let v = chars(s);
    let mut i: usize = 0;
    while i < v.len() && class.holds(v[v.len() - 1 - i]) == member
        invariant
            i <= v.len(),
            v@ == s@,
            forall|j: int| v.len() - i <= j < v.len() ==> class.has(#[trigger] s@[j]) == member,
        decreases v.len() - i,
    {
        i = i + 1;
    }
    proof {
        lemma_run_back_is(s@, class, member, i as int);
    }
    i
}

/// Without the characters of `class` at its start.
pub fn trim_start(s: &str, class: CharClass) -> (r: &str)
    ensures
        r@ == trim_start_spec(s@, class),
{
    suffix(s, run(s, class, true))
}

/// Without the characters of `class` at its end.
pub fn trim_end(s: &str, class: CharClass) -> (r: &str)
    ensures
        r@ == trim_end_spec(s@, class),
{
    let n: usize = run_back(s, class, true);
    prefix(s, s.unicode_len() - n)
}

/// Without the characters of `class` at either end.
pub fn trim(s: &str, class: CharClass) -> (r: &str)
    ensures
        r@ == trim_spec(s@, class),
{
    trim_end(trim_start(s, class), class)
}

/// The position of the first character in `class`.
pub fn find(s: &str, class: CharClass) -> (r: Option<usize>)
    ensures
        match r {
            Some(i) => find_spec(s@, class) == Some(i as int) && i < s@.len() <= usize::MAX,
            None => find_spec(s@, class) is None,
        },
{
    let n: usize = run(s, class, false);
    if n < s.unicode_len() {
        Some(n)
    } else {
        None
    }
}

/// The position of the last character in `class`.
pub fn rfind(s: &str, class: CharClass) -> (r: Option<usize>)
    ensures
        match r {
            Some(i) => rfind_spec(s@, class) == Some(i as int) && i < s@.len() <= usize::MAX,
            None => rfind_spec(s@, class) is None,
        },
{
    let n: usize = run_back(s, class, false);
    let len: usize = s.unicode_len();
    if n < len {
        Some(len - n - 1)
    } else {
        None
    }
}

/// Whether some character is in `class`.
pub fn any(s: &str, class: CharClass) -> (r: bool)
    ensures
        r == any_spec(s@, class),
{
    let n: usize = run(s, class, false);
    proof {
        lemma_run(s@, class, false);
    }
    if n < s.unicode_len() {
        assert(class.has(s@[n as int]));
        true
    } else {
        false
    }
}

/// Whether every character is in `class`.
pub fn all(s: &str, class: CharClass) -> (r: bool)
    ensures
        r == all_spec(s@, class),
{
    let n: usize = run(s, class, true);
    proof {
        lemma_run(s@, class, true);
    }
    n == s.unicode_len()
}

/// How many characters are in `class`.
pub fn count_of(s: &str, class: CharClass) -> (r: usize)
    ensures
        r == count_spec(s@, class),
{
    let v = chars(s);
    let mut n: usize = 0;
    let mut i: usize = 0;
    while i < v.len()
        invariant
            n <= i <= v.len(),
            v@ == s@,
            n == count_spec(s@.take(i as int), class),
        decreases v.len() - i,
    {
        assert(s@.take(i + 1).drop_last() =~= s@.take(i as int));
        if class.holds(v[i]) {
            n = n + 1;
        }
        i = i + 1;
    }
    assert(s@.take(s@.len() as int) =~= s@);
    n
}

/// The characters that are in `class`, in order.
pub fn keep(s: &str, class: CharClass) -> (r: String)
    ensures
        r@ == keep_spec(s@, class),
{
    let v = chars(s);
    let mut out = String::new();
    let mut i: usize = 0;
    while i < v.len()
        invariant
            i <= v.len(),
            v@ == s@,
            out@ == keep_spec(s@.take(i as int), class),
        decreases v.len() - i,
    {
        assert(s@.take(i + 1).drop_last() =~= s@.take(i as int));
        if class.holds(v[i]) {
            out.push(v[i]);
        }
        i = i + 1;
    }
    assert(s@.take(s@.len() as int) =~= s@);
    out
}

/// Whether two texts are the same.
pub fn same(a: &str, b: &str) -> (r: bool)
    ensures
        r == (a@ == b@),
{
    let x = chars(a);
    let y = chars(b);
    if x.len() != y.len() {
        return false;
    }
    let mut i: usize = 0;
    while i < x.len()
        invariant
            i <= x.len(),
            x.len() == y.len(),
            x@ == a@,
            y@ == b@,
            forall|j: int| 0 <= j < i ==> x@[j] == y@[j],
        decreases x.len() - i,
    {
        if x[i] != y[i] {
            return false;
        }
        i = i + 1;
    }
    assert(a@ =~= b@);
    true
}

/// Whether a text begins with another.
pub fn starts_with(s: &str, p: &str) -> (r: bool)
    ensures
        r == p@.is_prefix_of(s@),
{
    let n: usize = p.unicode_len();
    if n > s.unicode_len() {
        false
    } else {
        let r = same(prefix(s, n), p);
        proof {
            if r {
                assert forall|i: int| 0 <= i < n implies p@[i] == s@[i] by {
                    assert(s@.take(n as int)[i] == s@[i]);
                }
                assert(p@.is_prefix_of(s@));
            } else if p@.is_prefix_of(s@) {
                assert(s@.take(n as int) =~= p@);
            }
        }
        r
    }
}

/// The first character.
pub fn first(s: &str) -> (r: Option<char>)
    ensures
        r == (if s@.len() == 0 {
            None::<char>
        } else {
            Some(s@[0])
        }),
{
    if s.is_empty() {
        None
    } else {
        Some(s.get_char(0))
    }
}

/// Whether the text begins with a character of `class`.
pub fn starts_in(s: &str, class: CharClass) -> (r: bool)
    ensures
        r == (s@.len() > 0 && class.has(s@[0])),
{
    if s.is_empty() {
        false
    } else {
        class.holds(s.get_char(0))
    }
}

/// The maximal pieces without white space, in order.
pub fn words(s: &str) -> (r: Vec<&str>)
    ensures
        strs(r@) == words_spec(s@),
{
    let mut out: Vec<&str> = Vec::new();
    let mut rest: &str = trim_start(s, CharClass::White);
    proof {
        lemma_run(s@, CharClass::White, true);
        lemma_words_trimmed(s@);
        assert(strs(out@) + words_spec(rest@) =~= words_spec(s@));
    }
    while !rest.is_empty()
        invariant
            rest@.len() > 0 ==> !is_white(rest@[0]),
            strs(out@) + words_spec(rest@) == words_spec(s@),
        decreases rest@.len(),
    {
        let ghost before = strs(out@);
        let ghost rest0 = rest@;
        let n: usize = run(rest, CharClass::White, false);
        proof {
            lemma_run_is(rest@, CharClass::White, true, 0);
            lemma_run(rest@, CharClass::White, false);
            assert(rest@.skip(0) =~= rest@);
        }
        let word = prefix(rest, n);
        out.push(word);
        let tail = suffix(rest, n);
        rest = trim_start(tail, CharClass::White);
        proof {
            lemma_run(tail@, CharClass::White, true);
            lemma_words_trimmed(tail@);
            assert(strs(out@) =~= before.push(word@));
            assert(words_spec(rest0) == seq![word@] + words_spec(tail@));
            assert(strs(out@) + words_spec(rest@) =~= before + (seq![word@] + words_spec(tail@)));
            if rest@.len() > 0 {
                assert(rest@[0] == tail@[run_spec(tail@, CharClass::White, true)]);
            }
        }
    }
    proof {
        lemma_run_is(rest@, CharClass::White, true, 0);
        assert(strs(out@) + Seq::<Seq<char>>::empty() =~= strs(out@));
    }
    out
}

/// Leading white space does not change the words.
pub proof fn lemma_words_trimmed(s: Seq<char>)
    ensures
        words_spec(trim_start_spec(s, CharClass::White)) == words_spec(s),
{
    let n = run_spec(s, CharClass::White, true);
    let t = s.skip(n);
    lemma_run(s, CharClass::White, true);
    if t.len() > 0 {
        assert(t[0] == s[n]);
        lemma_run_is(t, CharClass::White, true, 0);
        assert(t.skip(0) =~= t);
    } else {
        lemma_run_is(t, CharClass::White, true, 0);
        assert(t.skip(0) =~= t);
    }
}

/// The pieces between the characters of `class`.
pub fn split(s: &str, class: CharClass) -> (r: Vec<&str>)
    ensures
        strs(r@) == split_spec(s@, class),
{
    let mut out: Vec<&str> = Vec::new();
    let mut rest: &str = s;
    assert(strs(out@) + split_spec(rest@, class) =~= split_spec(s@, class));
    loop
        invariant_except_break
            strs(out@) + split_spec(rest@, class) == split_spec(s@, class),
        ensures
            strs(out@) == split_spec(s@, class),
        decreases rest@.len(),
    {
        let ghost before = strs(out@);
        let ghost rest0 = rest@;
        match find(rest, class) {
            None => {
                proof {
                    lemma_run(rest@, class, false);
                }
                out.push(rest);
                assert(strs(out@) =~= before + seq![rest0]);
                break;
            },
            Some(n) => {
                proof {
                    lemma_run(rest@, class, false);
                }
                let piece = prefix(rest, n);
                out.push(piece);
                rest = suffix(rest, n + 1);
                assert(strs(out@) =~= before.push(piece@));
                assert(strs(out@) + split_spec(rest@, class) =~= before + (seq![piece@]
                    + split_spec(rest@, class)));
            },
        }
    }
    out
}

/// The parts one after another with `sep` between each two.
pub fn join(parts: &[&str], sep: &str) -> (r: String)
    ensures
        r@ == join_spec(strs(parts@), sep@),
{
    let mut out = String::new();
    let mut i: usize = 0;
    while i < parts.len()
        invariant
            i <= parts.len(),
            out@ == join_spec(strs(parts@).take(i as int), sep@),
        decreases parts.len() - i,
    {
        let ghost all = strs(parts@);
        if i > 0 {
            out.append(sep);
        }
        out.append(parts[i]);
        proof {
            assert(all[i as int] == parts@[i as int]@);
            assert(all.take(i + 1).drop_last() =~= all.take(i as int));
            assert(all.take(i + 1).last() == all[i as int]);
            if i == 0 {
                assert(all.take(1)[0] == all[0]);
            }
        }
        i = i + 1;
    }
    assert(strs(parts@).take(parts@.len() as int) =~= strs(parts@));
    out
}

/// `n` copies of a character.
pub fn repeat(c: char, n: usize) -> (r: String)
    ensures
        r@ == repeat_spec(c, n as nat),
{
    let mut out = String::new();
    let mut i: usize = 0;
    while i < n
        invariant
            i <= n,
            out@ == repeat_spec(c, i as nat),
        decreases n - i,
    {
        out.push(c);
        i = i + 1;
        assert(out@ =~= repeat_spec(c, i as nat));
    }
    out
}

/// Whether `sub` stands in `s` as one piece.
pub fn contains(s: &str, sub: &str) -> (r: bool)
    ensures
        r == contains_spec(s@, sub@),
{
    let n: usize = s.unicode_len();
    let m: usize = sub.unicode_len();
    if m > n {
        return false;
    }
    let mut i: usize = 0;
    while i <= n - m
        invariant
            m <= n,
            n == s@.len(),
            m == sub@.len(),
            i <= n - m + 1,
            forall|j: int| 0 <= j < i ==> #[trigger] s@.subrange(j, j + m) != sub@,
        decreases n - m + 1 - i,
    {
        if same(s.substring_char(i, i + m), sub) {
            return true;
        }
        if i == n - m {
            return false;
        }
        i = i + 1;
    }
    false
}

/// Two texts one after the other.
pub fn cat(a: &str, b: &str) -> (r: String)
    ensures
        r@ == a@ + b@,
{
    let mut out = a.to_owned();
    out.append(b);
    out
}

/// Three texts one after the other.
pub fn cat3(a: &str, b: &str, c: &str) -> (r: String)
    ensures
        r@ == a@ + b@ + c@,
{
    let mut out = a.to_owned();
    out.append(b);
    out.append(c);
    out
}

/// The texts as owned strings.
pub fn owned(v: &[&str]) -> (r: Vec<String>)
    ensures
        texts(r@) == strs(v@),
{
    let mut out: Vec<String> = Vec::new();
    let mut i: usize = 0;
    while i < v.len()
        invariant
            i <= v.len(),
            texts(out@) == strs(v@).take(i as int),
        decreases v.len() - i,
    {
        let ghost before = texts(out@);
        out.push(v[i].to_owned());
        assert(texts(out@) =~= before.push(v@[i as int]@));
        assert(strs(v@).take(i + 1) =~= strs(v@).take(i as int).push(strs(v@)[i as int]));
        i = i + 1;
    }
    assert(strs(v@).take(v@.len() as int) =~= strs(v@));
    out
}

/// The texts of owned strings, borrowed.
pub fn refs(v: &[String]) -> (r: Vec<&str>)
    ensures
        strs(r@) == texts(v@),
{
    let mut out: Vec<&str> = Vec::new();
    let mut i: usize = 0;
    while i < v.len()
        invariant
            i <= v.len(),
            strs(out@) == texts(v@).take(i as int),
        decreases v.len() - i,
    {
        let ghost before = strs(out@);
        out.push(v[i].as_str());
        assert(strs(out@) =~= before.push(v@[i as int]@));
        assert(texts(v@).take(i + 1) =~= texts(v@).take(i as int).push(texts(v@)[i as int]));
        i = i + 1;
    }
    assert(texts(v@).take(v@.len() as int) =~= texts(v@));
    out
}

/// The same texts again.
pub fn copies(v: &[String]) -> (r: Vec<String>)
    ensures
        texts(r@) == texts(v@),
{
    owned(refs(v).as_slice())
}

/// Whether a text is among those of a list.
pub fn has_text(v: &[String], s: &str) -> (r: bool)
    ensures
        r == texts(v@).contains(s@),
{
    let mut i: usize = 0;
    while i < v.len()
        invariant
            i <= v.len(),
            forall|j: int| 0 <= j < i ==> #[trigger] texts(v@)[j] != s@,
        decreases v.len() - i,
    {
        if same(v[i].as_str(), s) {
            assert(texts(v@)[i as int] == s@);
            return true;
        }
        i = i + 1;
    }
    false
}

/// A copy of an optional text.
pub fn copy_opt(o: &Option<String>) -> (r: Option<String>)
    ensures
        opt_text(r) == opt_text(*o),
{
    match o {
        Some(s) => Some(s.clone()),
        None => None,
    }
}

/// A longer text of digits writes no smaller number.
pub proof fn lemma_digits_grow(s: Seq<char>, n: int)
    requires
        0 <= n <= s.len(),
        all_digits(s),
    ensures
        digits_value(s.take(n)) <= digits_value(s),
    decreases s.len() - n,
{
    if n < s.len() {
        assert(s.take(n + 1).drop_last() =~= s.take(n));
        assert(is_digit(s[n]));
        lemma_digits_grow(s, n + 1);
    } else {
        assert(s.take(n) =~= s);
    }
}

/// The number that a text of digits writes, if it fits.
fn parse_digits(s: &str) -> (r: Option<u64>)
    ensures
        match r {
            Some(n) => s@.len() > 0 && all_digits(s@) && digits_value(s@) == n,
            None => s@.len() == 0 || !all_digits(s@) || digits_value(s@) > u64::MAX,
        },
{
    if s.is_empty() || !all(s, CharClass::Digit) {
        return None;
    }
    assert(all_digits(s@)) by {
        assert forall|i: int| 0 <= i < s@.len() implies is_digit(#[trigger] s@[i]) by {
            assert(CharClass::Digit.has(s@[i]));
        }
    }
    let v = chars(s);
    let mut n: u64 = 0;
    let mut i: usize = 0;
    while i < v.len()
        invariant
            i <= v.len(),
            v@ == s@,
            all_digits(s@),
            n == digits_value(s@.take(i as int)),
        decreases v.len() - i,
    {
        assert(s@.take(i + 1).drop_last() =~= s@.take(i as int));
        assert(is_digit(s@[i as int]));
        let d: u64 = (v[i] as u32 - '0' as u32) as u64;
        proof {
            lemma_digits_grow(s@, i + 1);
        }
        if n > (0xffff_ffff_ffff_ffff - d) / 10 {
            assert(n * 10 + d > u64::MAX);
            return None;
        }
        n = n * 10 + d;
        i = i + 1;
    }
    assert(s@.take(s@.len() as int) =~= s@);
    Some(n)
}

/// The whole number that a text writes, if an `i64` holds it.
pub fn parse_i64(s: &str) -> (r: Option<i64>)
    ensures
        (match r {
            Some(n) => Some(n as int),
            None => None,
        }) == number_between(s@, i64::MIN as int, i64::MAX as int),
{
    let signed = starts_in(s, CharClass::Sign);
    let body = if signed {
        suffix(s, 1)
    } else {
        s
    };
    match parse_digits(body) {
        None => None,
        Some(n) => if signed && s.get_char(0) == '-' {
            if n <= 0x7fff_ffff_ffff_ffff {
                Some(-(n as i64))
            } else if n == 0x8000_0000_0000_0000 {
                Some(-0x7fff_ffff_ffff_ffff - 1)
            } else {
                None
            }
        } else {
            if n <= 0x7fff_ffff_ffff_ffff {
                Some(n as i64)
            } else {
                None
            }
        },
    }
}

/// The whole number that a text writes, if an `i32` holds it.
pub fn parse_i32(s: &str) -> (r: Option<i32>)
    ensures
        (match r {
            Some(n) => Some(n as int),
            None => None,
        }) == number_between(s@, i32::MIN as int, i32::MAX as int),
{
    match parse_i64(s) {
        Some(n) => if -0x8000_0000 <= n && n <= 0x7fff_ffff {
            Some(n as i32)
        } else {
            None
        },
        None => None,
    }
}

/// The number that a text without a minus writes, if a `u32` holds it.
pub fn parse_u32(s: &str) -> (r: Option<u32>)
    ensures
        (match r {
            Some(n) => Some(n as int),
            None => None,
        }) == count_upto(s@, u32::MAX as int),
{
    if starts_in(s, CharClass::Is('-')) {
        return None;
    }
    match parse_i64(s) {
        Some(n) => if 0 <= n && n <= 0xffff_ffff {
            Some(n as u32)
        } else {
            None
        },
        None => None,
    }
}

/// The decimal digits of a number.
pub fn digits(n: usize) -> (r: String)
    ensures
        r@ == digits_spec(n as nat),
    decreases n,
{
    if n < 10 {
        let mut out = String::new();
        out.push(digit_of(n));
        assert(out@ =~= digits_spec(n as nat));
        out
    } else {
        let mut out = digits(n / 10);
        out.push(digit_of(n % 10));
        out
    }
}

fn digit_of(d: usize) -> (r: char)
    requires
        d < 10,
    ensures
        r == digit_char(d as nat),
{
    if d == 0 {
        '0'
    } else if d == 1 {
        '1'
    } else if d == 2 {
        '2'
    } else if d == 3 {
        '3'
    } else if d == 4 {
        '4'
    } else if d == 5 {
        '5'
    } else if d == 6 {
        '6'
    } else if d == 7 {
        '7'
    } else if d == 8 {
        '8'
    } else {
        '9'
    }
}

} // verus!
