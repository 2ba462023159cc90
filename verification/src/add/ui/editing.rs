//! What editing a field does.

use vstd::prelude::*;
use crate::add::ui::complete::Shape;
use crate::add::ui::distance;
use crate::add::ui::draft::Entering;
use crate::add::ui::field::{self, Field};
use crate::add::ui::matching;
use crate::add::ui::session::{self, Sitting};
use crate::config::Completion;
use crate::fmt::reread;
use crate::text::{self, CharClass};
use crate::tokens;

verus! {

// ---- the buffer ----

/// A typed character stands where the cursor stood, and the cursor behind it. The
/// first one typed over a text that has not been touched replaces it.
pub proof fn typing_puts_a_character_at_the_cursor(d: Entering, c: char)
    requires
        d.cursor <= d.buffer.len() < usize::MAX,
    ensures
        !d.pristine ==> d.inserted(c).buffer == d.buffer.take(d.cursor as int) + seq![c]
            + d.buffer.skip(d.cursor as int) && d.inserted(c).cursor == d.cursor + 1,
        d.pristine ==> d.inserted(c).buffer == seq![c] && d.inserted(c).cursor == 1,
        !d.inserted(c).pristine,
{
    if !d.pristine {
        assert(d.inserted(c).buffer =~= d.buffer.take(d.cursor as int) + seq![c] + d.buffer.skip(
            d.cursor as int,
        ));
    } else {
        assert(d.inserted(c).buffer =~= seq![c]);
    }
}

/// Deleting a word takes away what stands right before the cursor and nothing
/// else: in an account back to the last colon, elsewhere back to the last space.
pub proof fn deleting_a_word_stops_at_its_boundary(d: Entering, account_mode: bool)
    requires
        d.cursor <= d.buffer.len() <= usize::MAX,
    ensures
        ({
            let k = d.word_deleted(account_mode).cursor as int;
            let b = d.buffer;
            let at = d.cursor as int;
            &&& 0 <= k <= at
            &&& d.word_deleted(account_mode).buffer == b.take(k) + b.skip(at)
            &&& at > 0 ==> k < at
            &&& k > 0 ==> if account_mode {
                b[k - 1] == ':'
            } else {
                text::is_white(b[k - 1])
            }
            &&& account_mode ==> forall|i: int| k <= i < at - 1 ==> #[trigger] b[i] != ':'
        }),
{
    let b = d.buffer;
    let i = d.at();
    if account_mode {
        let j = if i > 0 && b[i - 1] == ':' {
            i - 1
        } else {
            i
        };
        let n = text::run_back_spec(b.take(j), CharClass::Is(':'), false);
        text::lemma_run_back(b.take(j), CharClass::Is(':'), false);
        let k = j - n;
        assert forall|m: int| k <= m < i - 1 implies #[trigger] b[m] != ':' by {
            assert(b.take(j)[m] == b[m]);
        }
        if k > 0 {
            assert(b.take(j)[k - 1] == b[k - 1]);
        }
        if k == i && i > 0 {
            assert(b.take(j)[j - n - 1] == b[i - 1]);
        }
    } else {
        let w = text::run_back_spec(b.take(i), CharClass::White, true);
        text::lemma_run_back(b.take(i), CharClass::White, true);
        let j = i - w;
        let n = text::run_back_spec(b.take(j), CharClass::White, false);
        text::lemma_run_back(b.take(j), CharClass::White, false);
        let k = j - n;
        if k > 0 {
            assert(b.take(j)[k - 1] == b[k - 1]);
        }
        if k == i && i > 0 {
            assert(b.take(i)[i - 1] == b[i - 1]);
        }
    }
}

// ---- fields ----

/// Going up and down again comes back to the field, and the other way round.
pub proof fn up_and_down_are_inverse(d: Entering)
    requires
        d.field.ordinal_spec() < usize::MAX,
    ensures
        d.up() matches Some(u) ==> u.field.ordinal_spec() == d.field.ordinal_spec() - 1,
        d.down() matches Some(u) ==> u.field.ordinal_spec() == d.field.ordinal_spec() + 1,
        d.up() is None <==> d.field == Field::Date,
{
    let n = d.field.ordinal_spec();
    if n > 0 {
        lemma_ordinal((n - 1) as usize);
    }
    lemma_ordinal((n + 1) as usize);
    match d.field {
        Field::Account(i) => {},
        Field::Amount(i) => {},
        _ => {},
    }
}

proof fn lemma_ordinal(n: usize)
    ensures
        Field::at_ordinal(n).ordinal_spec() == n,
{
}

/// Dates come first, then the description, and then account and amount by turns.
pub proof fn fields_come_in_order(i: usize)
    requires
        2 * i + 4 <= usize::MAX,
    ensures
        Field::Date.ordinal_spec() < Field::Description.ordinal_spec(),
        Field::Description.ordinal_spec() < Field::Account(0).ordinal_spec(),
        Field::Account(i).ordinal_spec() + 1 == Field::Amount(i).ordinal_spec(),
        Field::Amount(i).ordinal_spec() + 1 == Field::Account((i + 1) as usize).ordinal_spec(),
{
}

/// A value and its comment that are put into one field come apart again.
pub proof fn a_value_and_its_comment_come_apart(value: Seq<char>, comment: Seq<char>)
    requires
        value.len() > 0,
        !text::is_white(value[0]),
        !text::is_white(value.last()),
        !value.contains(';'),
        comment.len() > 0 ==> !text::is_white(comment[0]) && !text::is_white(comment.last())
            && comment[0] != ';',
    ensures
        field::field_parts(field::joined_field(value, comment)) == (
            value,
            if comment.len() == 0 {
                None
            } else {
                Some(comment)
            },
        ),
{
    reveal_strlit(" ; ");
    let semi = CharClass::Is(';');
    let white = CharClass::White;
    let k = value.len() as int;
    assert forall|i: int| 0 <= i < k implies semi.has(#[trigger] value[i]) == false by {
        assert(value.contains(value[i]));
    }
    lemma_trim(value);
    if comment.len() == 0 {
        text::lemma_run_is(comment, white, true, 0);
        text::lemma_run_back(comment.skip(0), white, true);
        assert(text::trim_spec(comment, white).len() == 0);
        text::lemma_run_is(value, semi, false, k);
        reread::lemma_rstrip_plain(value);
    } else {
        lemma_trim(comment);
        let s = value + " ; "@ + comment;
        assert(field::joined_field(value, comment) == s);
        assert forall|i: int| 0 <= i < k + 1 implies semi.has(#[trigger] s[i]) == false by {
            if i < k {
                assert(s[i] == value[i]);
            } else {
                assert(s[i] == ' ');
            }
        }
        assert(s[k + 1] == ';');
        text::lemma_run_is(s, semi, false, k + 1);
        assert(s.take(k + 1) =~= value + seq![' ']);
        assert(text::all_spec(seq![' '], white));
        reread::lemma_rstrip_tail(value, seq![' ']);
        let c = s.skip(k + 1);
        assert(c =~= seq![';', ' '] + comment);
        text::lemma_run_is(c, white, true, 0);
        assert(c.skip(0) =~= c);
        assert(c[1] == ' ');
        text::lemma_run_is(c, semi, true, 1);
        let d = c.skip(1);
        assert(d =~= seq![' '] + comment);
        assert(d[1] == comment[0]);
        text::lemma_run_is(d, white, true, 1);
        assert(d.skip(1) =~= comment);
        assert(text::trim_spec(d, white) == text::trim_end_spec(comment, white));
        reread::lemma_rstrip_plain(comment);
    }
}

proof fn lemma_trim(s: Seq<char>)
    requires
        s.len() > 0,
        !text::is_white(s[0]),
        !text::is_white(s.last()),
    ensures
        text::trim_spec(s, CharClass::White) == s,
{
    text::lemma_run_is(s, CharClass::White, true, 0);
    assert(s.skip(0) =~= s);
    reread::lemma_rstrip_plain(s);
}

/// An edited field is saved where it belongs: what is typed into an account or an
/// amount changes that part of its posting and no other posting.
pub proof fn a_field_is_saved_in_its_place(d: Entering, i: usize, j: int)
    requires
        i < usize::MAX,
        0 <= j < d.postings.len(),
        j != i,
    ensures
        (Entering { field: Field::Account(i), ..d }).stashed().postings[j] == d.postings[j],
        (Entering { field: Field::Amount(i), ..d }).stashed().postings[j] == d.postings[j],
        (Entering { field: Field::Account(i), ..d }).stashed().postings[i as int].account
            == field::field_parts(d.buffer).0,
        (Entering { field: Field::Amount(i), ..d }).stashed().postings[i as int].amount
            == field::field_parts(d.buffer).0,
        (Entering { field: Field::Description, ..d }).stashed().description == field::field_parts(
            d.buffer,
        ).0,
        (Entering { field: Field::Description, ..d }).stashed().postings == d.postings,
{
}

// ---- near misses ----

/// The name that is proposed for a mistyped one is the nearest there is, and no
/// more than two edits away; where there is one so near, one is proposed.
pub proof fn the_nearest_name_is_proposed(name: Seq<char>, pool: Seq<Seq<char>>)
    ensures
        match field::closest_spec(name, pool) {
            Some(best) => {
                &&& pool.contains(best)
                &&& away(name, best) <= 2
                &&& forall|i: int|
                    0 <= i < pool.len() ==> away(name, best) <= away(name, #[trigger] pool[i])
            },
            None => forall|i: int| 0 <= i < pool.len() ==> away(name, #[trigger] pool[i]) > 2,
        },
{
    lemma_nearest(text::lowercase(name), pool);
}

/// How many edits a name is away from another, whatever the case.
pub open spec fn away(name: Seq<char>, other: Seq<char>) -> nat {
    distance::levenshtein_spec(text::lowercase(name), text::lowercase(other))
}

proof fn lemma_nearest(lower: Seq<char>, pool: Seq<Seq<char>>)
    ensures
        match field::nearest_spec(lower, pool) {
            Some(best) => {
                &&& pool.contains(best.1)
                &&& best.0 == distance::levenshtein_spec(lower, text::lowercase(best.1))
                &&& forall|i: int|
                    0 <= i < pool.len() ==> best.0 <= distance::levenshtein_spec(
                        lower,
                        text::lowercase(#[trigger] pool[i]),
                    )
            },
            None => pool.len() == 0,
        },
    decreases pool.len(),
{
    if pool.len() > 0 {
        let f = pool.drop_last();
        let n = pool.len() - 1;
        lemma_nearest(lower, f);
        let best = field::nearest_spec(lower, pool)->0;
        assert(pool[n] == pool.last());
        if let Some(b) = field::nearest_spec(lower, f) {
            let j = choose|j: int| 0 <= j < f.len() && f[j] == b.1;
            assert(pool[j] == b.1);
            assert forall|i: int| 0 <= i < pool.len() implies best.0 <= distance::levenshtein_spec(
                lower,
                text::lowercase(#[trigger] pool[i]),
            ) by {
                if i < n {
                    assert(f[i] == pool[i]);
                }
            }
        }
    }
}

// ---- tags ----

/// A tag is the word right before the colon; what stands before it is prose, and
/// what follows its value.
pub proof fn a_tag_is_the_word_before_its_colon(
    prose: Seq<char>,
    name: Seq<char>,
    value: Seq<char>,
)
    requires
        !prose.contains(':'),
        prose.len() == 0 || text::is_white(prose.last()),
        tokens::is_word(name),
        !name.contains(':'),
    ensures
        field::tag_name(prose + name + seq![':'] + value) == seq![name],
        field::tag_name(prose + name) == Seq::<Seq<char>>::empty(),
{
    let front = prose + name;
    let all = front + seq![':'] + value;
    let colon = CharClass::Is(':');
    let k = front.len() as int;
    assert forall|i: int| 0 <= i < k implies colon.has(#[trigger] front[i]) == false by {
        if i < prose.len() {
            assert(front[i] == prose[i]);
            assert(prose.contains(prose[i]));
        } else {
            assert(front[i] == name[i - prose.len()]);
            assert(name.contains(name[i - prose.len()]));
        }
    }
    assert forall|i: int| 0 <= i < k implies colon.has(#[trigger] all[i]) == false by {
        assert(all[i] == front[i]);
    }
    assert(all[k] == ':');
    text::lemma_run_is(all, colon, false, k);
    text::lemma_run_is(front, colon, false, k);
    assert(all.take(k) =~= front);
    tokens::lemma_words_one(name);
    tokens::lemma_words_concat(prose, name);
    let words = text::words_spec(front);
    assert(words.last() == name);
}

/// The candidate that is offered for a part of a name holds it.
proof fn lemma_first_containing(pool: Seq<Seq<char>>, lower: Seq<char>)
    ensures
        match session::first_containing(pool, lower) {
            Some(c) => pool.contains(c) && text::contains_spec(text::lowercase(c), lower),
            None => forall|i: int|
                0 <= i < pool.len() ==> !text::contains_spec(
                    text::lowercase(#[trigger] pool[i]),
                    lower,
                ),
        },
    decreases pool.len(),
{
    if pool.len() > 0 {
        let more = pool.skip(1);
        lemma_first_containing(more, lower);
        match session::first_containing(more, lower) {
            Some(c) => {
                let i = choose|i: int| 0 <= i < more.len() && more[i] == c;
                assert(pool[i + 1] == c);
            },
            None => {
                assert forall|i: int|
                    0 <= i < pool.len() && !text::contains_spec(
                        text::lowercase(pool[0]),
                        lower,
                    ) implies !text::contains_spec(text::lowercase(#[trigger] pool[i]), lower) by {
                    if i > 0 {
                        assert(more[i - 1] == pool[i]);
                    }
                }
            },
        }
        assert(pool.contains(pool[0]));
    }
}

/// A payee that is proposed is one of the journal: one that holds what was typed,
/// or, where none does, the nearest, no further away than two edits or half of
/// what was typed.
pub proof fn a_proposed_payee_is_a_near_one(s: Sitting, name: Seq<char>)
    requires
        text::lowercase(name).len() > 0,
    ensures
        ({
            let pool = s.ctx.payee_pool();
            let lower = text::lowercase(name);
            let held = exists|i: int|
                0 <= i < pool.len() && text::contains_spec(
                    text::lowercase(#[trigger] pool[i]),
                    lower,
                );
            match s.near_payee(name) {
                Some(c) => {
                    &&& pool.contains(c)
                    &&& held ==> text::contains_spec(text::lowercase(c), lower)
                    &&& !held ==> (away(name, c) <= 2 || 2 * away(name, c) <= name.len())
                    &&& !held ==> forall|i: int|
                        0 <= i < pool.len() ==> away(name, c) <= away(name, #[trigger] pool[i])
                },
                None => !held && forall|i: int|
                    0 <= i < pool.len() ==> away(name, #[trigger] pool[i]) > 2,
            }
        }),
{
    let pool = s.ctx.payee_pool();
    let lower = text::lowercase(name);
    lemma_first_containing(pool, lower);
    lemma_nearest(lower, pool);
}

proof fn lemma_first_nearest(lower: Seq<char>, pool: Seq<Seq<char>>)
    ensures
        match field::first_nearest(lower, pool) {
            Some(best) => {
                &&& pool.contains(best.1)
                &&& best.0 == distance::levenshtein_spec(lower, text::lowercase(best.1))
                &&& forall|i: int|
                    0 <= i < pool.len() ==> best.0 <= distance::levenshtein_spec(
                        lower,
                        text::lowercase(#[trigger] pool[i]),
                    )
            },
            None => pool.len() == 0,
        },
    decreases pool.len(),
{
    if pool.len() > 0 {
        let f = pool.drop_last();
        let n = pool.len() - 1;
        lemma_first_nearest(lower, f);
        let best = field::first_nearest(lower, pool)->0;
        assert(pool[n] == pool.last());
        if let Some(b) = field::first_nearest(lower, f) {
            let j = choose|j: int| 0 <= j < f.len() && f[j] == b.1;
            assert(pool[j] == b.1);
            assert forall|i: int| 0 <= i < pool.len() implies best.0 <= distance::levenshtein_spec(
                lower,
                text::lowercase(#[trigger] pool[i]),
            ) by {
                if i < n {
                    assert(f[i] == pool[i]);
                }
            }
        }
    }
}

/// An account that is proposed for a mistyped one is the nearest there is, and is
/// near: no further away than two edits or half of what was typed, or abbreviated
/// by it segment by segment.
pub proof fn a_proposed_account_is_a_near_one(s: Sitting, name: Seq<char>)
    ensures
        s.near_miss(name) matches Some(c) ==> {
            let pool = s.ctx.account_pool(None);
            &&& pool.contains(c)
            &&& forall|i: int|
                0 <= i < pool.len() ==> away(name, c) <= away(name, #[trigger] pool[i])
            &&& away(name, c) <= 2 || 2 * away(name, c) <= name.len() || matching::matches_name(
                Completion::Prefix,
                Shape::Account,
                name,
                c,
            )
        },
        s.near_miss(name) is None ==> forall|i: int|
            0 <= i < s.ctx.account_pool(None).len() ==> away(
                name,
                #[trigger] s.ctx.account_pool(None)[i],
            ) > 2,
{
    let pool = s.ctx.account_pool(None);
    lemma_first_nearest(text::lowercase(name), pool);
    if let Some(best) = field::first_nearest(text::lowercase(name), pool) {
        matching::lemma_quality(Completion::Prefix, Shape::Account, name, best.1);
    }
}

/// What was entered in this session is offered with the rest: nothing of the pool
/// is lost, and nothing else is added.
pub proof fn what_was_entered_is_offered(front: Seq<Seq<char>>, pool: Seq<Seq<char>>, x: Seq<char>)
    ensures
        session::fronted(front, pool).contains(x) <==> front.contains(x) || pool.contains(x),
    decreases front.len(),
{
    if front.len() > 0 {
        let f = front.drop_last();
        let y = front.last();
        let now = if pool.contains(y) {
            pool
        } else {
            pool.insert(0, y)
        };
        what_was_entered_is_offered(f, now, x);
        if front.contains(x) {
            let i = choose|i: int| 0 <= i < front.len() && front[i] == x;
            if i < f.len() {
                assert(f[i] == x);
            }
        }
        if f.contains(x) {
            let i = choose|i: int| 0 <= i < f.len() && f[i] == x;
            assert(front[i] == x);
        }
        assert(front[front.len() - 1] == y);
        if !pool.contains(y) {
            if now.contains(x) {
                let i = choose|i: int| 0 <= i < now.len() && now[i] == x;
                if i > 0 {
                    assert(pool[i - 1] == x);
                }
            }
            if pool.contains(x) {
                let i = choose|i: int| 0 <= i < pool.len() && pool[i] == x;
                assert(now[i + 1] == x);
            }
            assert(now[0] == y);
        }
    }
}

} // verus!
