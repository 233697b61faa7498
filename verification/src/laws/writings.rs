//! Laws of JSON: how texts and values are written.
use vstd::prelude::*;

use crate::json;
use crate::json::Json;
use crate::laws::texts;
use crate::text;

verus! {

/// What a digit of a hexadecimal number is worth, in small letters.
pub open spec fn hex_worth(c: char) -> int {
    if '0' <= c && c <= '9' {
        c as int - '0' as int
    } else {
        c as int - 'a' as int + 10
    }
}

/// What a reader of JSON takes from the front of a text behind an opening quotation mark: the
/// characters up to the closing one, and what follows it. A backslash and the character behind
/// it stand for one, and so does a number in four digits behind a `u`.
pub open spec fn read_quoted(s: Seq<char>, taken: Seq<char>) -> Option<(Seq<char>, Seq<char>)>
    decreases s.len(),
{
    if s.len() == 0 {
        None
    } else if s[0] == '"' {
        Some((taken, s.skip(1)))
    } else if s[0] != '\\' {
        read_quoted(s.skip(1), taken.push(s[0]))
    } else if s.len() < 2 {
        None
    } else if s[1] == '"' || s[1] == '\\' || s[1] == '/' {
        read_quoted(s.skip(2), taken.push(s[1]))
    } else if s[1] == 'b' {
        read_quoted(s.skip(2), taken.push('\u{8}'))
    } else if s[1] == 't' {
        read_quoted(s.skip(2), taken.push('\t'))
    } else if s[1] == 'n' {
        read_quoted(s.skip(2), taken.push('\n'))
    } else if s[1] == 'f' {
        read_quoted(s.skip(2), taken.push('\u{c}'))
    } else if s[1] == 'r' {
        read_quoted(s.skip(2), taken.push('\r'))
    } else if s[1] == 'u' && s.len() >= 6 {
        let n = 4096 * hex_worth(s[2]) + 256 * hex_worth(s[3]) + 16 * hex_worth(s[4]) + hex_worth(
            s[5],
        );
        read_quoted(s.skip(6), taken.push(n as char))
    } else {
        None
    }
}

proof fn lemma_read_char(c: char, rest: Seq<char>, taken: Seq<char>)
    ensures
        read_quoted(json::escaped_char(c) + rest, taken) == read_quoted(rest, taken.push(c)),
{
    let e = json::escaped_char(c);
    let s = e + rest;
    if e.len() == 1 {
        assert(s.skip(1) =~= rest);
    } else if e.len() == 2 {
        assert(s[0] == '\\' && s[1] == e[1]);
        assert(s.skip(2) =~= rest);
    } else {
        let n = c as int;
        assert(s[0] == '\\' && s[1] == 'u' && s[2] == '0' && s[3] == '0');
        assert(s[4] == json::low_hex(n / 16) && s[5] == json::low_hex(n % 16));
        assert(s.skip(6) =~= rest);
        assert(0 <= n / 16 < 2 && 0 <= n % 16 < 16);
        assert(hex_worth(json::low_hex(n / 16)) == n / 16);
        assert(hex_worth(json::low_hex(n % 16)) == n % 16);
    }
}

proof fn lemma_read_text(s: Seq<char>, rest: Seq<char>, taken: Seq<char>)
    ensures
        read_quoted(json::escaped_text(s) + rest, taken) == read_quoted(rest, taken + s),
    decreases s.len(),
{
    if s.len() == 0 {
        assert(json::escaped_text(s) + rest =~= rest);
        assert(taken + s =~= taken);
    } else {
        let less = s.drop_last();
        let more = json::escaped_char(s.last()) + rest;
        lemma_read_text(less, more, taken);
        lemma_read_char(s.last(), rest, taken + less);
        assert(json::escaped_text(s) + rest =~= json::escaped_text(less) + more);
        assert((taken + less).push(s.last()) =~= taken + s);
    }
}

/// A text that was quoted is read back as it was, whatever it holds and whatever follows it,
/// and stands on one line.
pub proof fn quoted_texts_read_back(s: Seq<char>, rest: Seq<char>)
    ensures
        json::quoted(s)[0] == '"',
        read_quoted((json::quoted(s) + rest).skip(1), seq![]) == Some((s, rest)),
        !texts::occurs(json::quoted(s), '\n'),
{
    let tail = seq!['"'] + rest;
    lemma_read_text(s, tail, seq![]);
    assert((json::quoted(s) + rest).skip(1) =~= json::escaped_text(s) + tail);
    assert(Seq::<char>::empty() + s =~= s);
    assert(tail.skip(1) =~= rest);
    lemma_one_line(s);
    let q = json::quoted(s);
    if texts::occurs(q, '\n') {
        let i = choose|i: int| 0 <= i < q.len() && #[trigger] q[i] == '\n';
        let e = json::escaped_text(s);
        assert(0 < i < q.len() - 1);
        assert(e[i - 1] == '\n');
        assert(texts::occurs(e, '\n'));
    }
}

proof fn lemma_char_on_one_line(c: char)
    ensures
        !texts::occurs(json::escaped_char(c), '\n'),
{
    let b = json::escaped_char(c);
    let n = c as int;
    if texts::occurs(b, '\n') {
        let k = choose|k: int| 0 <= k < b.len() && #[trigger] b[k] == '\n';
        if n < 32 {
            assert(0 <= n / 16 < 2 && 0 <= n % 16 < 16);
            assert(hex_worth(json::low_hex(n / 16)) == n / 16);
            assert(hex_worth(json::low_hex(n % 16)) == n % 16);
        }
        assert(hex_worth('\n') < 0);
        assert(b.len() == 1 || b.len() == 2 || b.len() == 6);
        assert(k == 0 || k == 1 || k == 2 || k == 3 || k == 4 || k == 5);
    }
}

proof fn lemma_one_line(s: Seq<char>)
    ensures
        !texts::occurs(json::escaped_text(s), '\n'),
    decreases s.len(),
{
    if s.len() > 0 {
        let less = s.drop_last();
        lemma_one_line(less);
        let a = json::escaped_text(less);
        let b = json::escaped_char(s.last());
        let all = json::escaped_text(s);
        if texts::occurs(all, '\n') {
            let i = choose|i: int| 0 <= i < all.len() && #[trigger] all[i] == '\n';
            if i < a.len() {
                assert(a[i] == '\n');
                assert(texts::occurs(a, '\n'));
            } else {
                lemma_char_on_one_line(s.last());
                assert(b[i - a.len()] == '\n');
                assert(texts::occurs(b, '\n'));
            }
        }
    }
}

proof fn lemma_items(items: Seq<Json>, n: nat)
    requires
        n <= items.len(),
    ensures
        json::rendered_items(items, n) == text::joined(
            Seq::new(n, |i: int| json::rendered(items[i])),
            ","@,
        ),
    decreases n,
{
    let all = Seq::new(n, |i: int| json::rendered(items[i]));
    if n > 1 {
        lemma_items(items, (n - 1) as nat);
        let less = Seq::new((n - 1) as nat, |i: int| json::rendered(items[i]));
        assert(all.drop_last() =~= less);
    }
}

proof fn lemma_members(list: Seq<(Seq<char>, Json)>, n: nat)
    requires
        n <= list.len(),
    ensures
        json::rendered_members(list, n) == text::joined(
            Seq::new(n, |i: int| json::quoted(list[i].0) + ":"@ + json::rendered(list[i].1)),
            ","@,
        ),
    decreases n,
{
    let all = Seq::new(n, |i: int| json::quoted(list[i].0) + ":"@ + json::rendered(list[i].1));
    if n > 1 {
        lemma_members(list, (n - 1) as nat);
        let less = Seq::new(
            (n - 1) as nat,
            |i: int| json::quoted(list[i].0) + ":"@ + json::rendered(list[i].1),
        );
        assert(all.drop_last() =~= less);
        let last = json::quoted(list[n - 1].0) + ":"@ + json::rendered(list[n - 1].1);
        assert(all.last() == last);
        assert(json::rendered_members(list, n) =~= text::joined(less, ","@) + ","@ + last);
    }
}

/// A value is written as what it says: a list between brackets and an object between braces,
/// with commas between what they hold and a colon behind each key; a number in its digits, with
/// a sign where it is below nought.
pub proof fn values_are_written_as_they_are(j: Json)
    ensures
        match j {
            Json::Array(items) => json::rendered(j) == seq!['['] + text::joined(
                Seq::new(items.len(), |i: int| json::rendered(items[i])),
                seq![','],
            ) + seq![']'],
            Json::Object(list) => json::rendered(j) == seq!['{'] + text::joined(
                Seq::new(
                    list.len(),
                    |i: int| json::quoted(list[i].0) + seq![':'] + json::rendered(list[i].1),
                ),
                seq![','],
            ) + seq!['}'],
            Json::Text(s) => json::rendered(j) == json::quoted(s),
            Json::Unsigned(n) => texts::only_digits(json::rendered(j)) && texts::worth(
                json::rendered(j),
            ) == n,
            Json::Negative(n) => n < 0 ==> json::rendered(j)[0] == '-' && texts::only_digits(
                json::rendered(j).skip(1),
            ) && texts::worth(json::rendered(j).skip(1)) == -n,
            Json::Float(t) => json::rendered(j) == t,
            Json::Bool(b) => json::rendered(j) == if b {
                "true"@
            } else {
                "false"@
            },
            Json::Null => json::rendered(j) == "null"@,
        },
{
    reveal_strlit("[");
    reveal_strlit("]");
    reveal_strlit("{");
    reveal_strlit("}");
    reveal_strlit(",");
    reveal_strlit(":");
    reveal_strlit("-");
    assert("["@ =~= seq!['[']);
    assert("]"@ =~= seq![']']);
    assert("{"@ =~= seq!['{']);
    assert("}"@ =~= seq!['}']);
    assert(","@ =~= seq![',']);
    assert(":"@ =~= seq![':']);
    match j {
        Json::Array(items) => {
            lemma_items(items, items.len());
        },
        Json::Object(list) => {
            lemma_members(list, list.len());
        },
        Json::Unsigned(n) => {
            texts::decimals_are_worth_their_number(n as nat);
        },
        Json::Negative(n) => {
            if n < 0 {
                texts::decimals_are_worth_their_number((-n) as nat);
                assert(json::rendered(j).skip(1) =~= text::decimal_of((-n) as nat));
            }
        },
        _ => {},
    }
}

} // verus!
