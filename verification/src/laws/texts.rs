//! Laws of texts: numbers, pieces, blanks, letters and the order of texts.
use vstd::arithmetic::power::*;
use vstd::prelude::*;

use crate::table;
use crate::text;

verus! {

/// What digits are worth: each one ten times what it would be one place further on.
pub open spec fn worth(s: Seq<char>) -> int
    decreases s.len(),
{
    if s.len() == 0 {
        0
    } else {
        (s[0] as int - '0' as int) * pow(10, (s.len() - 1) as nat) + worth(s.skip(1))
    }
}

/// Whether a text consists of the ten digits.
pub open spec fn only_digits(s: Seq<char>) -> bool {
    forall|i: int| 0 <= i < s.len() ==> '0' <= #[trigger] s[i] && s[i] <= '9'
}

proof fn lemma_worth_push(s: Seq<char>, c: char)
    ensures
        worth(s.push(c)) == 10 * worth(s) + (c as int - '0' as int),
    decreases s.len(),
{
    reveal(pow);
    let t = s.push(c);
    if s.len() == 0 {
        assert(t.skip(1) =~= seq![]);
        assert(pow(10, 0) == 1);
        assert(t[0] == c);
        assert(worth(t) == (c as int - '0' as int) * pow(10, 0) + worth(t.skip(1)));
    } else {
        assert(t.skip(1) =~= s.skip(1).push(c));
        lemma_worth_push(s.skip(1), c);
        let d = s[0] as int - '0' as int;
        let n = (s.len() - 1) as nat;
        assert(pow(10, (n + 1) as nat) == 10 * pow(10, n));
        assert(d * (10 * pow(10, n)) == 10 * (d * pow(10, n))) by (nonlinear_arith);
        assert(t[0] == s[0]);
        assert(t.len() - 1 == n + 1);
        assert(worth(t) == d * pow(10, (n + 1) as nat) + worth(t.skip(1)));
        assert(worth(s) == d * pow(10, n) + worth(s.skip(1)));
    }
}

proof fn lemma_digits_value(s: Seq<char>)
    requires
        only_digits(s),
    ensures
        text::digits_value(s) == worth(s),
    decreases s.len(),
{
    if s.len() > 0 {
        let t = s.drop_last();
        assert forall|i: int| 0 <= i < t.len() implies '0' <= #[trigger] t[i] && t[i] <= '9' by {
            assert(t[i] == s[i]);
        }
        lemma_digits_value(t);
        lemma_worth_push(t, s.last());
        assert(t.push(s.last()) =~= s);
        assert('0' <= s[s.len() - 1] && s[s.len() - 1] <= '9');
    }
}

/// A number in decimal consists of digits that are worth it, with no nought in front of
/// others.
pub proof fn decimals_are_worth_their_number(n: nat)
    ensures
        text::decimal_of(n).len() > 0,
        only_digits(text::decimal_of(n)),
        worth(text::decimal_of(n)) == n,
        text::decimal_of(n)[0] == '0' ==> n == 0 && text::decimal_of(n).len() == 1,
    decreases n,
{
    reveal(pow);
    let s = text::decimal_of(n);
    if n < 10 {
        assert(s.skip(1) =~= seq![]);
        assert(pow(10, 0) == 1);
        assert(worth(s) == (s[0] as int - '0' as int) * pow(10, 0) + worth(s.skip(1)));
    } else {
        let front = text::decimal_of(n / 10);
        decimals_are_worth_their_number(n / 10);
        lemma_worth_push(front, text::digit(n % 10));
        assert forall|i: int| 0 <= i < s.len() implies '0' <= #[trigger] s[i] && s[i] <= '9' by {
            if i < front.len() {
                assert(s[i] == front[i]);
            }
        }
        assert(s[0] == front[0]);
    }
}

/// A text is read as a number exactly where it has digits, behind one plus sign or none, that
/// are worth no more than can be held; it is then what they are worth.
pub proof fn numbers_are_read_by_their_worth(s: Seq<char>)
    ensures
        ({
            let digits = if s.len() > 0 && s[0] == '+' {
                s.skip(1)
            } else {
                s
            };
            match text::u64_of(s) {
                Some(n) => digits.len() > 0 && only_digits(digits) && worth(digits) == n,
                None => digits.len() == 0 || !only_digits(digits) || worth(digits) > u64::MAX,
            }
        }),
{
    let digits = if s.len() > 0 && s[0] == '+' {
        s.skip(1)
    } else {
        s
    };
    assert(digits == text::unsigned_part(s));
    if digits.len() > 0 {
        if text::all_digits(digits) {
            assert forall|i: int| 0 <= i < digits.len() implies '0' <= #[trigger] digits[i]
                && digits[i] <= '9' by {
                assert(text::is_digit(digits[i]));
            }
            lemma_digits_value(digits);
        } else {
            let i = choose|i: int| 0 <= i < digits.len() && !text::is_digit(#[trigger] digits[i]);
            assert(!('0' <= digits[i] && digits[i] <= '9'));
        }
    }
}

/// A number is read back from its decimal digits.
pub proof fn decimals_read_back(n: u64)
    ensures
        text::u64_of(text::decimal_of(n as nat)) == Some(n),
{
    let s = text::decimal_of(n as nat);
    decimals_are_worth_their_number(n as nat);
    numbers_are_read_by_their_worth(s);
    assert('0' <= s[0] && s[0] <= '9');
}

/// What stands under a key is the value of the first entry with that key, and nothing where
/// no entry has it.
pub proof fn the_first_entry_with_a_key_counts<V>(list: Seq<(Seq<char>, V)>, key: Seq<char>)
    ensures
        match table::lookup(list, key) {
            Some(v) => exists|i: int|
                0 <= i < list.len() && #[trigger] list[i] == (key, v) && forall|j: int|
                    0 <= j < i ==> (#[trigger] list[j]).0 != key,
            None => forall|j: int| 0 <= j < list.len() ==> (#[trigger] list[j]).0 != key,
        },
{
    let differs = table::key_differs::<V>(key);
    text::lemma_run(list, differs);
    let at = text::run(list, differs) as int;
    assert forall|j: int| 0 <= j < at implies (#[trigger] list[j]).0 != key by {
        assert(differs(list[j]));
    }
    if at < list.len() {
        assert(!differs(list[at]));
        assert(list[at] == (key, list[at].1));
    }
}

/// An entry is found under its key, where no earlier one has that key.
pub proof fn entries_are_found<V>(list: Seq<(Seq<char>, V)>, i: int)
    requires
        0 <= i < list.len(),
        forall|j: int| 0 <= j < i ==> (#[trigger] list[j]).0 != list[i].0,
    ensures
        table::lookup(list, list[i].0) == Some(list[i].1),
{
    let differs = table::key_differs::<V>(list[i].0);
    assert forall|j: int| 0 <= j < i implies differs(#[trigger] list[j]) by {}
    text::lemma_run_unique(list, differs, i);
}

/// Whether a text holds a character.
pub open spec fn occurs(s: Seq<char>, c: char) -> bool {
    exists|i: int| 0 <= i < s.len() && #[trigger] s[i] == c
}

/// The pieces between separators hold none of them, and joined by them they are the text.
pub proof fn pieces_join_to_the_text(s: Seq<char>, c: char)
    ensures
        text::split_of(s, c).len() > 0,
        forall|i: int|
            0 <= i < text::split_of(s, c).len() ==> !occurs(#[trigger] text::split_of(s, c)[i], c),
        text::joined(text::split_of(s, c), seq![c]) == s,
    decreases s.len(),
{
    text::lemma_run(s, text::other_than(c));
    text::lemma_split_nonempty(s, c);
    let n = text::find_of(s, c) as int;
    let parts = text::split_of(s, c);
    if n >= s.len() {
        assert forall|i: int| 0 <= i < parts.len() implies !occurs(#[trigger] parts[i], c) by {
            assert(parts[i] == s);
            if occurs(s, c) {
                let k = choose|k: int| 0 <= k < s.len() && #[trigger] s[k] == c;
                assert(text::other_than(c)(s[k]));
            }
        }
    } else {
        let rest = s.skip(n + 1);
        let first = s.take(n);
        pieces_join_to_the_text(rest, c);
        let more = text::split_of(rest, c);
        assert(parts =~= seq![first] + more);
        assert forall|i: int| 0 <= i < parts.len() implies !occurs(#[trigger] parts[i], c) by {
            if i == 0 {
                if occurs(first, c) {
                    let k = choose|k: int| 0 <= k < first.len() && #[trigger] first[k] == c;
                    assert(first[k] == s[k]);
                    assert(text::other_than(c)(s[k]));
                }
            } else {
                assert(parts[i] == more[i - 1]);
            }
        }
        lemma_joined_front(first, more, seq![c]);
        assert(!text::other_than(c)(s[n]));
        assert(first + seq![c] + rest =~= s);
    }
}

proof fn lemma_joined_front(first: Seq<char>, more: Seq<Seq<char>>, sep: Seq<char>)
    requires
        more.len() > 0,
    ensures
        text::joined(seq![first] + more, sep) == first + sep + text::joined(more, sep),
    decreases more.len(),
{
    let all = seq![first] + more;
    assert(all.last() == more.last());
    if more.len() == 1 {
        assert(all.drop_last() =~= seq![first]);
        assert(text::joined(all.drop_last(), sep) == first);
        assert(text::joined(more, sep) == more[0]);
        assert(text::joined(all, sep) =~= first + sep + more[0]);
    } else {
        assert(all.drop_last() =~= seq![first] + more.drop_last());
        lemma_joined_front(first, more.drop_last(), sep);
        assert(text::joined(all, sep) =~= first + sep + text::joined(more, sep));
    }
}

/// A text is parted at the first separator, and not at all where it has none.
pub proof fn texts_part_at_the_first_separator(s: Seq<char>, c: char)
    ensures
        match text::split_once_of(s, c) {
            Some((a, b)) => s == a + seq![c] + b && !occurs(a, c),
            None => !occurs(s, c),
        },
{
    text::lemma_run(s, text::other_than(c));
    let n = text::find_of(s, c) as int;
    let front = if n < s.len() {
        s.take(n)
    } else {
        s
    };
    if occurs(front, c) {
        let k = choose|k: int| 0 <= k < front.len() && #[trigger] front[k] == c;
        assert(front[k] == s[k]);
        assert(text::other_than(c)(s[k]));
    }
    if n < s.len() {
        assert(!text::other_than(c)(s[n]));
        assert(s.take(n) + seq![c] + s.skip(n + 1) =~= s);
    }
}

/// Whether a text consists of white space.
pub open spec fn blank(s: Seq<char>) -> bool {
    forall|i: int| 0 <= i < s.len() ==> text::is_space(#[trigger] s[i])
}

proof fn lemma_trim_end(s: Seq<char>)
    ensures
        ({
            let t = text::trim_end_of(s);
            &&& t.len() <= s.len()
            &&& s.take(t.len() as int) == t
            &&& blank(s.skip(t.len() as int))
            &&& t.len() > 0 ==> !text::is_space(t.last())
        }),
    decreases s.len(),
{
    if s.len() > 0 && text::is_space(s.last()) {
        let less = s.drop_last();
        lemma_trim_end(less);
        let t = text::trim_end_of(s);
        assert(s.take(t.len() as int) =~= less.take(t.len() as int));
        let tail = s.skip(t.len() as int);
        assert forall|i: int| 0 <= i < tail.len() implies text::is_space(#[trigger] tail[i]) by {
            let rest = less.skip(t.len() as int);
            if i < rest.len() {
                assert(tail[i] == rest[i]);
            } else {
                assert(tail[i] == s.last());
            }
        }
    } else {
        assert(s.take(s.len() as int) =~= s);
    }
}

/// Trimming takes white space from both ends, all of it, and nothing else.
pub proof fn trimming_takes_the_outer_blanks(s: Seq<char>)
    ensures
        ({
            let t = text::trim_of(s);
            &&& t.len() > 0 ==> !text::is_space(t[0]) && !text::is_space(t.last())
            &&& exists|a: Seq<char>, b: Seq<char>|
                #![trigger blank(a), blank(b)]
                blank(a) && blank(b) && s == a + t + b
        }),
{
    text::lemma_run(s, text::spaces());
    let n = text::run(s, text::spaces()) as int;
    let u = text::trim_start_of(s);
    lemma_trim_end(u);
    let t = text::trim_of(s);
    let a = s.take(n);
    let b = u.skip(t.len() as int);
    assert forall|i: int| 0 <= i < a.len() implies text::is_space(#[trigger] a[i]) by {
        assert(a[i] == s[i]);
        assert(text::spaces()(s[i]));
    }
    assert(blank(a) && blank(b));
    assert(a + t + b =~= s) by {
        assert(u =~= t + b);
    }
    if t.len() > 0 {
        assert(t[0] == u[0]);
        assert(u[0] == s[n]);
        assert(!text::spaces()(s[n]));
    }
}

/// A text with no white space at its ends is left as it is.
pub proof fn texts_between_no_blanks_stay(s: Seq<char>)
    requires
        s.len() > 0,
        !text::is_space(s[0]),
        !text::is_space(s[s.len() - 1]),
    ensures
        text::trim_of(s) == s,
{
    text::lemma_run(s, text::spaces());
    if text::run(s, text::spaces()) > 0 {
        assert(text::spaces()(s[0]));
    }
    assert(s.skip(0) =~= s);
}

/// A blank, a tab, a line feed and a carriage return are white space; letters, digits and the
/// other characters that can be seen on a keyboard are not.
pub proof fn white_space_is_not_seen(c: char)
    ensures
        c == ' ' || c == '\t' || c == '\n' || c == '\r' ==> text::is_space(c),
        '!' <= c <= '~' ==> !text::is_space(c),
{
}

/// The words of a text hold no white space, none is empty, and together they are what is left
/// of the text without white space.
pub proof fn words_are_what_is_seen(s: Seq<char>)
    ensures
        forall|i: int|
            #![trigger text::words_of(s)[i]]
            0 <= i < text::words_of(s).len() ==> text::words_of(s)[i].len() > 0 && forall|k: int|
                0 <= k < text::words_of(s)[i].len() ==> !text::is_space(
                    #[trigger] text::words_of(s)[i][k],
                ),
        seen(s) == text::joined(text::words_of(s), seq![]),
    decreases s.len(),
{
    text::lemma_run(s, text::spaces());
    let n = text::run(s, text::spaces()) as int;
    let t = text::trim_start_of(s);
    lemma_seen_parts(s, n);
    lemma_seen_blank(s.take(n));
    assert(seq![] + seen(t) =~= seen(t));
    let words = text::words_of(s);
    if t.len() == 0 {
        assert(seen(t) =~= seq![]);
    } else {
        text::lemma_run(t, text::non_spaces());
        let m = text::run(t, text::non_spaces()) as int;
        assert(t[0] == s[n]);
        assert(!text::spaces()(s[n]));
        assert(m > 0) by {
            if m == 0 {
                assert(!text::non_spaces()(t[0]));
            }
        }
        let first = t.take(m);
        let more = text::words_of(t.skip(m));
        words_are_what_is_seen(t.skip(m));
        assert(words =~= seq![first] + more);
        assert forall|k: int| 0 <= k < first.len() implies !text::is_space(#[trigger] first[k]) by {
            assert(first[k] == t[k]);
            assert(text::non_spaces()(t[k]));
        }
        lemma_seen_parts(t, m);
        lemma_seen_all(first);
        assert forall|i: int| #![trigger words[i]] 0 <= i < words.len() implies words[i].len() > 0
            && forall|k: int| 0 <= k < words[i].len() ==> !text::is_space(#[trigger] words[i][k]) by {
            if i > 0 {
                assert(words[i] == more[i - 1]);
            }
        }
        if more.len() == 0 {
            assert(seq![first] + more =~= seq![first]);
            assert(first + Seq::<char>::empty() =~= first);
        } else {
            lemma_joined_front(first, more, seq![]);
            assert(first + Seq::<char>::empty() + text::joined(more, seq![]) =~= first
                + text::joined(more, seq![]));
        }
    }
}

/// A text without its white space.
pub open spec fn seen(s: Seq<char>) -> Seq<char> {
    s.filter(|c: char| !text::is_space(c))
}

proof fn lemma_seen_parts(s: Seq<char>, n: int)
    requires
        0 <= n <= s.len(),
    ensures
        seen(s) == seen(s.take(n)) + seen(s.skip(n)),
{
    assert(s =~= s.take(n) + s.skip(n));
    Seq::filter_distributes_over_add(s.take(n), s.skip(n), |c: char| !text::is_space(c));
}

proof fn lemma_seen_blank(s: Seq<char>)
    requires
        blank(s),
    ensures
        seen(s) == Seq::<char>::empty(),
    decreases s.len(),
{
    reveal(Seq::filter);
    if s.len() > 0 {
        let less = s.drop_last();
        assert forall|i: int| 0 <= i < less.len() implies text::is_space(#[trigger] less[i]) by {
            assert(less[i] == s[i]);
        }
        lemma_seen_blank(less);
        assert(text::is_space(s[s.len() - 1]));
    }
}

proof fn lemma_seen_all(s: Seq<char>)
    requires
        forall|i: int| 0 <= i < s.len() ==> !text::is_space(#[trigger] s[i]),
    ensures
        seen(s) == s,
    decreases s.len(),
{
    reveal(Seq::filter);
    if s.len() > 0 {
        let less = s.drop_last();
        assert forall|i: int| 0 <= i < less.len() implies !text::is_space(#[trigger] less[i]) by {
            assert(less[i] == s[i]);
        }
        lemma_seen_all(less);
        assert(!text::is_space(s[s.len() - 1]));
        assert(less.push(s.last()) =~= s);
    }
}

/// Capitals become small letters and small letters capitals, each the same one; all else
/// stays.
pub proof fn letters_change_their_case(s: Seq<char>, i: int)
    requires
        0 <= i < s.len(),
    ensures
        text::lower_of(s).len() == s.len(),
        text::upper_of(s).len() == s.len(),
        'A' <= s[i] <= 'Z' ==> text::lower_of(s)[i] as int - 'a' as int == s[i] as int - 'A' as int,
        !('A' <= s[i] <= 'Z') ==> text::lower_of(s)[i] == s[i],
        'a' <= s[i] <= 'z' ==> text::upper_of(s)[i] as int - 'A' as int == s[i] as int - 'a' as int,
        !('a' <= s[i] <= 'z') ==> text::upper_of(s)[i] == s[i],
{
}

/// Texts are ordered by the first character in which they differ, and a text comes before
/// those that go on where it ends.
pub proof fn texts_are_ordered_by_their_first_difference(a: Seq<char>, b: Seq<char>, n: int)
    requires
        0 <= n <= a.len(),
        n <= b.len(),
        a.take(n) == b.take(n),
    ensures
        n == a.len() && n < b.len() ==> text::before(a, b) && !text::before(b, a),
        n < a.len() && n < b.len() && a[n] < b[n] ==> text::before(a, b) && !text::before(b, a),
    decreases n,
{
    if n > 0 {
        assert(a[0] == a.take(n)[0] && b[0] == b.take(n)[0]);
        assert(a.skip(1).take(n - 1) =~= a.take(n).skip(1));
        assert(b.skip(1).take(n - 1) =~= b.take(n).skip(1));
        texts_are_ordered_by_their_first_difference(a.skip(1), b.skip(1), n - 1);
    }
}

/// Lines one below the other, each with its end.
pub open spec fn spelled(lines: Seq<Seq<char>>) -> Seq<char>
    decreases lines.len(),
{
    if lines.len() == 0 {
        seq![]
    } else {
        lines[0] + seq!['\n'] + spelled(lines.skip(1))
    }
}

pub proof fn lemma_spelled_parts(a: Seq<Seq<char>>, b: Seq<Seq<char>>)
    ensures
        spelled(a + b) == spelled(a) + spelled(b),
    decreases a.len(),
{
    if a.len() == 0 {
        assert(a + b =~= b);
        assert(spelled(a) + spelled(b) =~= spelled(b));
    } else {
        assert((a + b).skip(1) =~= a.skip(1) + b);
        lemma_spelled_parts(a.skip(1), b);
        assert(spelled(a + b) =~= a[0] + seq!['\n'] + (spelled(a.skip(1)) + spelled(b)));
        assert(spelled(a) + spelled(b) =~= a[0] + seq!['\n'] + (spelled(a.skip(1)) + spelled(b)));
    }
}

pub proof fn lemma_spelled_one(line: Seq<char>)
    ensures
        spelled(seq![line]) == line + seq!['\n'],
{
    let lines = seq![line];
    assert(lines.skip(1) =~= seq![]);
    assert(spelled(lines.skip(1)) =~= seq![]);
    assert(spelled(lines) == lines[0] + seq!['\n'] + spelled(lines.skip(1)));
    assert(spelled(lines) =~= line + seq!['\n']);
}

/// Texts one behind the other.
pub open spec fn strung(parts: Seq<Seq<char>>) -> Seq<char>
    decreases parts.len(),
{
    if parts.len() == 0 {
        seq![]
    } else {
        parts[0] + strung(parts.skip(1))
    }
}

pub proof fn lemma_strung_push(parts: Seq<Seq<char>>, last: Seq<char>)
    ensures
        strung(parts.push(last)) == strung(parts) + last,
    decreases parts.len(),
{
    let all = parts.push(last);
    if parts.len() == 0 {
        assert(all.skip(1) =~= seq![]);
        assert(strung(all.skip(1)) =~= seq![]);
        assert(strung(all) =~= last);
        assert(strung(parts) + last =~= last);
    } else {
        assert(all.skip(1) =~= parts.skip(1).push(last));
        lemma_strung_push(parts.skip(1), last);
        assert(strung(all) =~= parts[0] + (strung(parts.skip(1)) + last));
        assert(strung(parts) + last =~= parts[0] + (strung(parts.skip(1)) + last));
    }
}

/// Whether places are those of the items that are meant, in their order.
pub open spec fn chosen<A>(list: Seq<A>, meant: spec_fn(A) -> bool, at: Seq<int>) -> bool {
    &&& forall|k: int| 0 <= k < at.len() ==> 0 <= #[trigger] at[k] < list.len() && meant(list[at[k]])
    &&& forall|k: int, l: int| 0 <= k < l < at.len() ==> #[trigger] at[k] < #[trigger] at[l]
    &&& forall|i: int| 0 <= i < list.len() && meant(#[trigger] list[i]) ==> at.contains(i)
}

/// One more item is chosen where it is meant, and changes nothing where it is not.
pub proof fn lemma_chosen<A>(list: Seq<A>, n: int, meant: spec_fn(A) -> bool, at: Seq<int>)
    requires
        0 <= n < list.len(),
        chosen(list.take(n), meant, at),
    ensures
        meant(list[n]) ==> chosen(list.take(n + 1), meant, at.push(n)),
        !meant(list[n]) ==> chosen(list.take(n + 1), meant, at),
        forall|k: int| 0 <= k < at.len() ==> #[trigger] at[k] < n && list.take(n)[at[k]] == list[at[k]],
{
    let less = list.take(n);
    let more = list.take(n + 1);
    assert forall|k: int| 0 <= k < at.len() implies #[trigger] at[k] < n && less[at[k]] == list[at[k]]
        && meant(more[at[k]]) by {
        assert(meant(less[at[k]]));
    }
    if meant(list[n]) {
        let then = at.push(n);
        assert forall|i: int| 0 <= i < more.len() && meant(#[trigger] more[i]) implies then.contains(
            i,
        ) by {
            if i < n {
                assert(meant(less[i]));
                let k = choose|k: int| 0 <= k < at.len() && at[k] == i;
                assert(then[k] == i);
            } else {
                assert(then[at.len() as int] == i);
            }
        }
        assert forall|k: int| 0 <= k < then.len() implies 0 <= #[trigger] then[k] < more.len()
            && meant(more[then[k]]) by {
            if k < at.len() {
                assert(then[k] == at[k]);
            }
        }
        assert forall|k: int, l: int| 0 <= k < l < then.len() implies #[trigger] then[k]
            < #[trigger] then[l] by {
            if l < at.len() {
                assert(at[k] < at[l]);
            } else {
                assert(at[k] < n);
            }
        }
    } else {
        assert forall|i: int| 0 <= i < more.len() && meant(#[trigger] more[i]) implies at.contains(i) by {
            if i < n {
                assert(meant(less[i]));
            }
        }
    }
}

/// The sum of some numbers.
pub open spec fn sum(list: Seq<int>) -> int
    decreases list.len(),
{
    if list.len() == 0 {
        0
    } else {
        list[0] + sum(list.skip(1))
    }
}

pub proof fn lemma_sum_push(list: Seq<int>, n: int)
    ensures
        sum(list.push(n)) == sum(list) + n,
    decreases list.len(),
{
    let all = list.push(n);
    if list.len() == 0 {
        assert(all.skip(1) =~= seq![]);
        assert(sum(all.skip(1)) == 0);
    } else {
        assert(all.skip(1) =~= list.skip(1).push(n));
        lemma_sum_push(list.skip(1), n);
        assert(all[0] == list[0]);
    }
}

} // verus!
