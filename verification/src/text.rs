//! Text as sequences of characters: searching, splitting, trimming, numbers.
use vstd::prelude::*;

verus! {

/// `String::push` appends one character.
pub assume_specification[ std::string::String::push ](s: &mut std::string::String, c: char)
    ensures
        final(s)@ == old(s)@.push(c),
;

/// The views of a sequence of strings.
pub open spec fn views(texts: Seq<String>) -> Seq<Seq<char>> {
    texts.map_values(|t: String| t@)
}

/// The length of the longest prefix of `s` whose items all satisfy `p`.
pub open spec fn run<T>(s: Seq<T>, p: spec_fn(T) -> bool) -> nat
    decreases s.len(),
{
    if s.len() == 0 || !p(s[0]) {
        0
    } else {
        1 + run(s.skip(1), p)
    }
}

/// What `run` is: everything before it satisfies `p`, and it stops at the end
/// or at an item that does not.
pub proof fn lemma_run<T>(s: Seq<T>, p: spec_fn(T) -> bool)
    ensures
        run(s, p) <= s.len(),
        forall|i: int| 0 <= i < run(s, p) ==> p(#[trigger] s[i]),
        run(s, p) < s.len() ==> !p(s[run(s, p) as int]),
    decreases s.len(),
{
    if s.len() == 0 || !p(s[0]) {
    } else {
        lemma_run(s.skip(1), p);
        assert forall|i: int| 0 <= i < run(s, p) implies p(#[trigger] s[i]) by {
            if i > 0 {
                assert(s[i] == s.skip(1)[i - 1]);
            }
        }
        if run(s, p) < s.len() {
            assert(s[run(s, p) as int] == s.skip(1)[run(s.skip(1), p) as int]);
        }
    }
}

/// A position with the two properties of `run` is `run`.
pub proof fn lemma_run_unique<T>(s: Seq<T>, p: spec_fn(T) -> bool, n: int)
    requires
        0 <= n <= s.len(),
        forall|i: int| 0 <= i < n ==> p(#[trigger] s[i]),
        n < s.len() ==> !p(s[n]),
    ensures
        run(s, p) == n,
{
    lemma_run(s, p);
    if run(s, p) < n {
        assert(p(s[run(s, p) as int]));
    }
    if n < run(s, p) {
        assert(p(s[n]));
    }
}

/// The characters of a string.
pub fn chars_of(text: &str) -> (out: Vec<char>)
    ensures
        out@ == text@,
{
    let mut out: Vec<char> = Vec::new();
    for c in it: text.chars()
        invariant
            out@ == it.seq().take(it.index()),
            it.seq() == text@,
    {
        out.push(c);
    }
    out
}

/// The string made of some characters.
pub fn string_of(chars: &[char]) -> (out: String)
    ensures
        out@ == chars@,
{
    let mut out: String = String::new();
    let mut i: usize = 0;
    while i < chars.len()
        invariant
            i <= chars@.len(),
            out@ == chars@.take(i as int),
        decreases chars@.len() - i,
    {
        out.push(chars[i]);
        i += 1;
    }
    out
}

/// Whether two texts hold the same characters.
pub fn same(a: &str, b: &str) -> (equal: bool)
    ensures
        equal == (a@ == b@),
{
    a.to_owned() == b.to_owned()
}

/// The Unicode white space characters.
pub open spec fn is_space(c: char) -> bool {
    let n = c as u32;
    ||| 0x9 <= n <= 0xD
    ||| n == 0x20
    ||| n == 0x85
    ||| n == 0xA0
    ||| n == 0x1680
    ||| 0x2000 <= n <= 0x200A
    ||| n == 0x2028
    ||| n == 0x2029
    ||| n == 0x202F
    ||| n == 0x205F
    ||| n == 0x3000
}

pub fn space(c: char) -> (yes: bool)
    ensures
        yes == is_space(c),
{
    let n: u32 = c as u32;
    (0x9 <= n && n <= 0xD) || n == 0x20 || n == 0x85 || n == 0xA0 || n == 0x1680 || (0x2000 <= n
        && n <= 0x200A) || n == 0x2028 || n == 0x2029 || n == 0x202F || n == 0x205F || n == 0x3000
}

/// Being white space, as a function.
pub open spec fn spaces() -> spec_fn(char) -> bool {
    |c: char| is_space(c)
}

/// Not being white space, as a function.
pub open spec fn non_spaces() -> spec_fn(char) -> bool {
    |c: char| !is_space(c)
}

/// Being another character than `c`, as a function.
pub open spec fn other_than(c: char) -> spec_fn(char) -> bool {
    |x: char| x != c
}

/// `s` without the white space at its start.
pub open spec fn trim_start_of(s: Seq<char>) -> Seq<char> {
    s.skip(run(s, spaces()) as int)
}

/// `s` without the white space at its end.
pub open spec fn trim_end_of(s: Seq<char>) -> Seq<char>
    decreases s.len(),
{
    if s.len() > 0 && is_space(s.last()) {
        trim_end_of(s.drop_last())
    } else {
        s
    }
}

/// `s` without the white space at both ends.
pub open spec fn trim_of(s: Seq<char>) -> Seq<char> {
    trim_end_of(trim_start_of(s))
}

/// The characters from `from` up to `to`.
pub fn part(chars: &[char], from: usize, to: usize) -> (out: Vec<char>)
    requires
        from <= to <= chars@.len(),
    ensures
        out@ == chars@.subrange(from as int, to as int),
{
    let mut out: Vec<char> = Vec::new();
    let mut i: usize = from;
    while i < to
        invariant
            from <= i <= to <= chars@.len(),
            out@ == chars@.subrange(from as int, i as int),
        decreases to - i,
    {
        out.push(chars[i]);
        i += 1;
    }
    out
}

/// The text from character `from` up to character `to`.
pub fn part_text(chars: &[char], from: usize, to: usize) -> (out: String)
    requires
        from <= to <= chars@.len(),
    ensures
        out@ == chars@.subrange(from as int, to as int),
{
    let chars: Vec<char> = part(chars, from, to);
    string_of(chars.as_slice())
}

/// Where the white space at the start of `chars`, from `from` on, ends.
fn spaces_end(chars: &[char], from: usize) -> (end: usize)
    requires
        from <= chars@.len(),
    ensures
        from <= end <= chars@.len(),
        end - from == run(chars@.skip(from as int), spaces()),
{
    let mut i: usize = from;
    while i < chars.len() && space(chars[i])
        invariant
            from <= i <= chars@.len(),
            forall|j: int| from <= j < i ==> is_space(#[trigger] chars@[j]),
        decreases chars@.len() - i,
    {
        i += 1;
    }
    proof {
        let rest = chars@.skip(from as int);
        assert forall|k: int| 0 <= k < i - from implies is_space(#[trigger] rest[k]) by {
            assert(rest[k] == chars@[k + from]);
        }
        lemma_run_unique(rest, spaces(), i - from);
    }
    i
}

pub fn trim_start(text: &str) -> (out: String)
    ensures
        out@ == trim_start_of(text@),
{
    let chars: Vec<char> = chars_of(text);
    let start: usize = spaces_end(chars.as_slice(), 0);
    proof {
        assert(text@.skip(0) == text@);
    }
    part_text(chars.as_slice(), start, chars.len())
}

pub fn trim_end(text: &str) -> (out: String)
    ensures
        out@ == trim_end_of(text@),
{
    let chars: Vec<char> = chars_of(text);
    let mut end: usize = chars.len();
    proof {
        assert(chars@.take(end as int) == chars@);
    }
    while end > 0 && space(chars[end - 1])
        invariant
            end <= chars@.len(),
            trim_end_of(chars@.take(end as int)) == trim_end_of(text@),
        decreases end,
    {
        proof {
            assert(chars@.take(end as int).drop_last() == chars@.take(end - 1));
        }
        end -= 1;
    }
    part_text(chars.as_slice(), 0, end)
}

pub fn trim(text: &str) -> (out: String)
    ensures
        out@ == trim_of(text@),
{
    let rest: String = trim_start(text);
    trim_end(rest.as_str())
}

/// The index of the first `c` in `s`, its length where there is none.
pub open spec fn find_of(s: Seq<char>, c: char) -> nat {
    run(s, other_than(c))
}

/// Where the first `c` at or after `from` stands, the end where there is none.
pub fn find(chars: &[char], from: usize, c: char) -> (at: usize)
    requires
        from <= chars@.len(),
    ensures
        from <= at <= chars@.len(),
        at - from == find_of(chars@.skip(from as int), c),
        forall|j: int| from <= j < at ==> chars@[j] != c,
        at < chars@.len() ==> chars@[at as int] == c,
{
    let mut i: usize = from;
    while i < chars.len() && chars[i] != c
        invariant
            from <= i <= chars@.len(),
            forall|j: int| from <= j < i ==> chars@[j] != c,
        decreases chars@.len() - i,
    {
        i += 1;
    }
    proof {
        let rest = chars@.skip(from as int);
        assert forall|k: int| 0 <= k < i - from implies #[trigger] rest[k] != c by {
            assert(rest[k] == chars@[k + from]);
        }
        lemma_run_unique(rest, other_than(c), i - from);
    }
    i
}

/// The pieces of `s` between the occurrences of `c`.
pub open spec fn split_of(s: Seq<char>, c: char) -> Seq<Seq<char>>
    decreases s.len(),
{
    let n = find_of(s, c);
    if n >= s.len() {
        seq![s]
    } else {
        seq![s.take(n as int)] + split_of(s.skip(n as int + 1), c)
    }
}

pub fn split(text: &str, c: char) -> (out: Vec<String>)
    ensures
        views(out@) == split_of(text@, c),
{
    let chars: Vec<char> = chars_of(text);
    let mut out: Vec<String> = Vec::new();
    let mut from: usize = 0;
    proof {
        assert(chars@.skip(0) == chars@);
        assert(views(out@) + split_of(text@, c) == split_of(text@, c));
    }
    loop
        invariant
            chars@ == text@,
            from <= chars@.len(),
            views(out@) + split_of(chars@.skip(from as int), c) == split_of(text@, c),
        decreases chars@.len() - from,
    {
        let at: usize = find(chars.as_slice(), from, c);
        let ghost rest = chars@.skip(from as int);
        let ghost before = out@;
        let piece: String = part_text(chars.as_slice(), from, at);
        out.push(piece);
        proof {
            assert(views(out@) == views(before).push(piece@));
            assert(piece@ == rest.take(at - from));
        }
        if at >= chars.len() {
            proof {
                assert(piece@ == rest);
                assert(views(out@) == views(before) + seq![rest]);
            }
            return out;
        }
        proof {
            assert(chars@.skip(at + 1) == rest.skip(at - from + 1));
            assert(views(out@) + split_of(chars@.skip(at + 1), c) == views(before) + split_of(
                rest,
                c,
            ));
        }
        from = at + 1;
    }
}

/// The runs of characters of `s` that hold no white space.
pub open spec fn words_of(s: Seq<char>) -> Seq<Seq<char>>
    decreases s.len(),
    via words_decreases
{
    let t = trim_start_of(s);
    if t.len() == 0 {
        seq![]
    } else {
        let n = run(t, non_spaces()) as int;
        seq![t.take(n)] + words_of(t.skip(n))
    }
}

#[via_fn]
proof fn words_decreases(s: Seq<char>) {
    lemma_run(s, spaces());
    let t = trim_start_of(s);
    lemma_run(t, non_spaces());
    if t.len() > 0 {
        assert(t[0] == s[run(s, spaces()) as int]);
        assert(run(t, non_spaces()) > 0);
    }
}

pub fn words(text: &str) -> (out: Vec<String>)
    ensures
        views(out@) == words_of(text@),
{
    let chars: Vec<char> = chars_of(text);
    let mut out: Vec<String> = Vec::new();
    let mut from: usize = 0;
    proof {
        assert(chars@.skip(0) == chars@);
        assert(views(out@) + words_of(text@) == words_of(text@));
    }
    loop
        invariant
            chars@ == text@,
            from <= chars@.len(),
            views(out@) + words_of(chars@.skip(from as int)) == words_of(text@),
        decreases chars@.len() - from,
    {
        let start: usize = spaces_end(chars.as_slice(), from);
        let ghost rest = chars@.skip(from as int);
        let ghost t = chars@.skip(start as int);
        proof {
            assert(t == trim_start_of(rest));
        }
        if start >= chars.len() {
            proof {
                assert(views(out@) + Seq::<Seq<char>>::empty() == views(out@));
            }
            return out;
        }
        let mut end: usize = start;
        while end < chars.len() && !space(chars[end])
            invariant
                start <= end <= chars@.len(),
                forall|j: int| start <= j < end ==> !is_space(#[trigger] chars@[j]),
            decreases chars@.len() - end,
        {
            end += 1;
        }
        let ghost before = out@;
        let piece: String = part_text(chars.as_slice(), start, end);
        out.push(piece);
        proof {
            lemma_run(rest, spaces());
            assert(t[0] == rest[start - from]);
            assert(!is_space(chars@[start as int]));
            assert(end > start);
            assert forall|k: int| 0 <= k < end - start implies !is_space(#[trigger] t[k]) by {
                assert(t[k] == chars@[k + start]);
            }
            lemma_run_unique(t, non_spaces(), end - start);
            assert(views(out@) == views(before).push(piece@));
            assert(piece@ == t.take(end - start));
            assert(chars@.skip(end as int) == t.skip(end - start));
            assert(views(out@) + words_of(chars@.skip(end as int)) == views(before) + words_of(
                rest,
            ));
        }
        from = end;
    }
}

/// The texts one after another, with `sep` between two of them.
pub open spec fn joined(parts: Seq<Seq<char>>, sep: Seq<char>) -> Seq<char>
    decreases parts.len(),
{
    if parts.len() == 0 {
        seq![]
    } else if parts.len() == 1 {
        parts[0]
    } else {
        joined(parts.drop_last(), sep) + sep + parts.last()
    }
}

pub fn join(parts: &[String], sep: &str) -> (out: String)
    ensures
        out@ == joined(views(parts@), sep@),
{
    let mut out: String = String::new();
    let mut i: usize = 0;
    while i < parts.len()
        invariant
            i <= parts@.len(),
            out@ == joined(views(parts@).take(i as int), sep@),
        decreases parts@.len() - i,
    {
        if i > 0 {
            out.append(sep);
        }
        out.append(parts[i].as_str());
        proof {
            let now = views(parts@).take(i + 1);
            assert(now.drop_last() == views(parts@).take(i as int));
            assert(now.last() == parts@[i as int]@);
            if i == 0 {
                assert(Seq::<char>::empty() + now[0] == now[0]);
            }
        }
        i += 1;
    }
    proof {
        assert(views(parts@).take(parts@.len() as int) == views(parts@));
    }
    out
}

pub fn starts_with(text: &str, prefix: &str) -> (yes: bool)
    ensures
        yes == prefix@.is_prefix_of(text@),
{
    let chars: Vec<char> = chars_of(text);
    let front: Vec<char> = chars_of(prefix);
    occurs_at(chars.as_slice(), front.as_slice(), 0)
}

pub fn ends_with(text: &str, suffix: &str) -> (yes: bool)
    ensures
        yes == suffix@.is_suffix_of(text@),
{
    let chars: Vec<char> = chars_of(text);
    let back: Vec<char> = chars_of(suffix);
    if back.len() > chars.len() {
        return false;
    }
    let at: usize = chars.len() - back.len();
    occurs_at(chars.as_slice(), back.as_slice(), at)
}

/// Whether `piece` stands in `s` at position `at`.
pub open spec fn at_position(s: Seq<char>, piece: Seq<char>, at: int) -> bool {
    &&& 0 <= at
    &&& at + piece.len() <= s.len()
    &&& s.subrange(at, at + piece.len()) == piece
}

/// Whether `piece` stands anywhere in `s`.
pub open spec fn holds(s: Seq<char>, piece: Seq<char>) -> bool {
    exists|at: int| at_position(s, piece, at)
}

pub fn occurs_at(chars: &[char], piece: &[char], at: usize) -> (yes: bool)
    requires
        at <= chars@.len(),
    ensures
        yes == at_position(chars@, piece@, at as int),
{
    let total: usize = chars.len();
    if piece.len() > total - at {
        return false;
    }
    let mut i: usize = 0;
    while i < piece.len()
        invariant
            total == chars@.len(),
            at + piece@.len() <= total,
            i <= piece@.len(),
            forall|j: int| 0 <= j < i ==> #[trigger] piece@[j] == chars@[at + j],
        decreases piece@.len() - i,
    {
        if chars[at + i] != piece[i] {
            proof {
                assert(chars@.subrange(at as int, at + piece@.len())[i as int] == chars@[at + i]);
            }
            return false;
        }
        i += 1;
    }
    proof {
        assert(chars@.subrange(at as int, at + piece@.len()) == piece@);
    }
    true
}

/// The first position of `piece` in `s` at or after `from`, the length of `s`
/// where there is none.
pub open spec fn find_piece_of(s: Seq<char>, piece: Seq<char>, from: int) -> int
    decreases s.len() - from,
{
    if from >= s.len() {
        s.len() as int
    } else if at_position(s, piece, from) {
        from
    } else {
        find_piece_of(s, piece, from + 1)
    }
}

/// The first position of `piece` at or after `from`; `chars.len()` where there
/// is none before the end.
pub fn find_piece(chars: &[char], piece: &[char], from: usize) -> (at: usize)
    requires
        from <= chars@.len(),
    ensures
        at == find_piece_of(chars@, piece@, from as int),
        from <= at <= chars@.len(),
        forall|j: int| from <= j < at ==> !at_position(chars@, piece@, j),
        at < chars@.len() ==> at_position(chars@, piece@, at as int),
{
    let mut i: usize = from;
    while i < chars.len()
        invariant
            from <= i <= chars@.len(),
            forall|j: int| from <= j < i ==> !at_position(chars@, piece@, j),
            find_piece_of(chars@, piece@, from as int) == find_piece_of(chars@, piece@, i as int),
        decreases chars@.len() - i,
    {
        if occurs_at(chars, piece, i) {
            return i;
        }
        i += 1;
    }
    i
}

pub fn contains(text: &str, piece: &str) -> (yes: bool)
    ensures
        yes == holds(text@, piece@),
{
    let chars: Vec<char> = chars_of(text);
    let inner: Vec<char> = chars_of(piece);
    if inner.len() == 0 {
        proof {
            assert(text@.subrange(0, 0) == piece@);
            assert(at_position(text@, piece@, 0));
        }
        return true;
    }
    let at: usize = find_piece(chars.as_slice(), inner.as_slice(), 0);
    proof {
        if at < chars@.len() {
            assert(at_position(text@, piece@, at as int));
        } else {
            assert forall|j: int| !at_position(text@, piece@, j) by {}
        }
    }
    at < chars.len()
}

/// `c` with the letters A to Z in lower case.
pub open spec fn lower(c: char) -> char {
    if 'A' <= c <= 'Z' {
        ((c as u32) + 32) as char
    } else {
        c
    }
}

/// `s` with the letters A to Z in lower case.
pub open spec fn lower_of(s: Seq<char>) -> Seq<char> {
    s.map_values(|c: char| lower(c))
}

pub fn lower_char(c: char) -> (out: char)
    ensures
        out == lower(c),
{
    if 'A' <= c && c <= 'Z' {
        ((c as u8) + 32) as char
    } else {
        c
    }
}

pub fn to_lower(text: &str) -> (out: String)
    ensures
        out@ == lower_of(text@),
{
    let chars: Vec<char> = chars_of(text);
    let mut out: String = String::new();
    let mut i: usize = 0;
    while i < chars.len()
        invariant
            i <= chars@.len(),
            out@ == lower_of(chars@.take(i as int)),
        decreases chars@.len() - i,
    {
        out.push(lower_char(chars[i]));
        proof {
            assert(lower_of(chars@.take(i + 1)) == lower_of(chars@.take(i as int)).push(
                lower(chars@[i as int]),
            ));
        }
        i += 1;
    }
    proof {
        assert(chars@.take(chars@.len() as int) == text@);
    }
    out
}

pub open spec fn is_digit(c: char) -> bool {
    '0' <= c <= '9'
}

/// The decimal digit of a number below ten.
pub open spec fn digit(n: nat) -> char {
    (48 + n) as char
}

/// A number in decimal.
pub open spec fn decimal_of(n: nat) -> Seq<char>
    decreases n,
{
    if n < 10 {
        seq![digit(n)]
    } else {
        decimal_of(n / 10).push(digit(n % 10))
    }
}

pub fn decimal(n: u64) -> (out: String)
    ensures
        out@ == decimal_of(n as nat),
    decreases n,
{
    if n < 10 {
        let mut out: String = String::new();
        out.push((48u8 + n as u8) as char);
        proof {
            assert(out@ =~= seq![digit(n as nat)]);
        }
        out
    } else {
        let mut out: String = decimal(n / 10);
        out.push((48u8 + (n % 10) as u8) as char);
        out
    }
}

/// The number that a sequence of decimal digits stands for.
pub open spec fn digits_value(s: Seq<char>) -> nat
    decreases s.len(),
{
    if s.len() == 0 {
        0
    } else {
        digits_value(s.drop_last()) * 10 + (s.last() as nat - 48) as nat
    }
}

/// `s` without one leading plus sign.
pub open spec fn unsigned_part(s: Seq<char>) -> Seq<char> {
    if s.len() > 0 && s[0] == '+' {
        s.skip(1)
    } else {
        s
    }
}

/// Whether `s` is one or more decimal digits.
pub open spec fn all_digits(s: Seq<char>) -> bool {
    &&& s.len() > 0
    &&& forall|i: int| 0 <= i < s.len() ==> is_digit(#[trigger] s[i])
}

/// What `s` says as an unsigned number of up to `max`: decimal digits, with or
/// without a plus sign in front.
pub open spec fn number_of(s: Seq<char>, max: nat) -> Option<nat> {
    let digits = unsigned_part(s);
    if all_digits(digits) && digits_value(digits) <= max {
        Some(digits_value(digits))
    } else {
        None
    }
}

/// `number_of` for 64-bit numbers.
pub open spec fn u64_of(s: Seq<char>) -> Option<u64> {
    match number_of(s, u64::MAX as nat) {
        Some(n) => Some(n as u64),
        None => None,
    }
}

/// A prefix of digits is worth no more than the whole.
proof fn lemma_digits_grow(s: Seq<char>, n: int)
    requires
        0 <= n <= s.len(),
    ensures
        digits_value(s.take(n)) <= digits_value(s),
    decreases s.len() - n,
{
    if n < s.len() {
        lemma_digits_grow(s, n + 1);
        assert(s.take(n + 1).drop_last() == s.take(n));
    } else {
        assert(s.take(n) == s);
    }
}

pub fn parse_u64(text: &str) -> (out: Option<u64>)
    ensures
        out == u64_of(text@),
{
    let all: Vec<char> = chars_of(text);
    let start: usize = if all.len() > 0 && all[0] == '+' { 1 } else { 0 };
    let chars: Vec<char> = part(all.as_slice(), start, all.len());
    proof {
        assert(chars@ == unsigned_part(text@));
    }
    if chars.len() == 0 {
        return None;
    }
    let mut value: u64 = 0;
    let mut i: usize = 0;
    while i < chars.len()
        invariant
            i <= chars@.len(),
            chars@ == unsigned_part(text@),
            forall|j: int| 0 <= j < i ==> is_digit(#[trigger] chars@[j]),
            value == digits_value(chars@.take(i as int)),
        decreases chars@.len() - i,
    {
        let c: char = chars[i];
        if !('0' <= c && c <= '9') {
            return None;
        }
        let d: u64 = (c as u8 - 48) as u64;
        proof {
            assert(chars@.take(i + 1).drop_last() == chars@.take(i as int));
            lemma_digits_grow(chars@, i + 1);
        }
        if value > (u64::MAX - d) / 10 {
            return None;
        }
        value = value * 10 + d;
        i += 1;
    }
    proof {
        assert(chars@.take(chars@.len() as int) == chars@);
    }
    Some(value)
}

/// Whether `a` comes before `b` in the order of their characters.
pub open spec fn before(a: Seq<char>, b: Seq<char>) -> bool
    decreases a.len(),
{
    if b.len() == 0 {
        false
    } else if a.len() == 0 {
        true
    } else if a[0] != b[0] {
        a[0] < b[0]
    } else {
        before(a.skip(1), b.skip(1))
    }
}

/// No text comes before itself.
pub proof fn lemma_before_irreflexive(a: Seq<char>)
    ensures
        !before(a, a),
    decreases a.len(),
{
    if a.len() > 0 {
        lemma_before_irreflexive(a.skip(1));
    }
}

/// Of two different texts one comes before the other.
pub proof fn lemma_before_total(a: Seq<char>, b: Seq<char>)
    ensures
        a == b || before(a, b) || before(b, a),
    decreases a.len(),
{
    if a.len() > 0 && b.len() > 0 && a[0] == b[0] {
        lemma_before_total(a.skip(1), b.skip(1));
        if a.skip(1) == b.skip(1) {
            assert(a =~= seq![a[0]] + a.skip(1));
            assert(b =~= seq![b[0]] + b.skip(1));
        }
    }
}

/// The order of texts is transitive.
pub proof fn lemma_before_transitive(a: Seq<char>, b: Seq<char>, c: Seq<char>)
    requires
        before(a, b),
        before(b, c),
    ensures
        before(a, c),
    decreases a.len(),
{
    if a.len() > 0 && a[0] == b[0] && b[0] == c[0] {
        lemma_before_transitive(a.skip(1), b.skip(1), c.skip(1));
    }
}

pub fn comes_before(a: &str, b: &str) -> (yes: bool)
    ensures
        yes == before(a@, b@),
{
    let left: Vec<char> = chars_of(a);
    let right: Vec<char> = chars_of(b);
    let mut i: usize = 0;
    proof {
        assert(left@.skip(0) == left@);
        assert(right@.skip(0) == right@);
    }
    loop
        invariant
            i <= left@.len(),
            i <= right@.len(),
            before(left@.skip(i as int), right@.skip(i as int)) == before(a@, b@),
        decreases left@.len() - i,
    {
        if i >= right.len() {
            return false;
        }
        if i >= left.len() {
            return true;
        }
        if left[i] != right[i] {
            return left[i] < right[i];
        }
        proof {
            assert(left@.skip(i as int).skip(1) == left@.skip(i + 1));
            assert(right@.skip(i as int).skip(1) == right@.skip(i + 1));
        }
        i += 1;
    }
}

/// There is at least one piece between separators.
pub proof fn lemma_split_nonempty(s: Seq<char>, c: char)
    ensures
        split_of(s, c).len() > 0,
    decreases s.len(),
{
    let n = find_of(s, c) as int;
    if n < s.len() {
        lemma_split_nonempty(s.skip(n + 1), c);
    }
}

/// The last part is empty where the text ends in the separator, and a text without the
/// separator is its only part.
pub proof fn lemma_split_last(s: Seq<char>, c: char)
    ensures
        s.len() > 0 && s.last() == c ==> split_of(s, c).len() > 1 && split_of(s, c).last().len()
            == 0,
        split_of(s, c).len() == 1 ==> split_of(s, c)[0] == s,
    decreases s.len(),
{
    lemma_run(s, other_than(c));
    let n = find_of(s, c) as int;
    if n < s.len() {
        let rest = s.skip(n + 1);
        lemma_split_nonempty(rest, c);
        lemma_split_last(rest, c);
        let parts = split_of(s, c);
        assert(parts =~= seq![s.take(n)] + split_of(rest, c));
        if rest.len() == 0 {
            lemma_run(rest, other_than(c));
            assert(split_of(rest, c) =~= seq![rest]);
        } else {
            assert(rest.last() == s.last());
        }
        assert(parts.last() == split_of(rest, c).last());
    } else if s.len() > 0 && s.last() == c {
        assert(other_than(c)(s[s.len() - 1]));
    }
}

/// A line without the carriage return that belongs to its end.
pub open spec fn without_return(s: Seq<char>) -> Seq<char> {
    if s.len() > 0 && s.last() == '\r' {
        s.drop_last()
    } else {
        s
    }
}

/// The lines of a text: what stands before each line feed, without the carriage
/// return in front of it, and what follows the last one if anything does.
pub open spec fn lines_of(s: Seq<char>) -> Seq<Seq<char>> {
    let pieces = split_of(s, '\n');
    Seq::new(
        if pieces.last().len() == 0 {
            (pieces.len() - 1) as nat
        } else {
            pieces.len()
        },
        |i: int|
            if i < pieces.len() - 1 {
                without_return(pieces[i])
            } else {
                pieces[i]
            },
    )
}

pub fn lines(text: &str) -> (out: Vec<String>)
    ensures
        views(out@) == lines_of(text@),
{
    let pieces: Vec<String> = split(text, '\n');
    let ghost all = views(pieces@);
    proof {
        lemma_split_nonempty(text@, '\n');
        assert(all.len() == pieces@.len());
    }
    let last: usize = pieces.len() - 1;
    let n: usize = if pieces[last].as_str().is_empty() { last } else { last + 1 };
    proof {
        assert(all.last() == pieces@[last as int]@);
    }
    let mut out: Vec<String> = Vec::new();
    let mut i: usize = 0;
    while i < n
        invariant
            i <= n <= pieces@.len(),
            last + 1 == pieces@.len(),
            all == split_of(text@, '\n'),
            all == views(pieces@),
            n == lines_of(text@).len(),
            views(out@) =~= lines_of(text@).take(i as int),
        decreases n - i,
    {
        let chars: Vec<char> = chars_of(pieces[i].as_str());
        let len: usize = chars.len();
        let ghost before = out@;
        proof {
            assert(all[i as int] == pieces@[i as int]@);
        }
        let line: String = if i < last && len > 0 && chars[len - 1] == '\r' {
            part_text(chars.as_slice(), 0, len - 1)
        } else {
            pieces[i].clone()
        };
        out.push(line);
        proof {
            assert(views(out@) =~= views(before).push(line@));
            assert(line@ =~= lines_of(text@)[i as int]);
        }
        i += 1;
    }
    proof {
        assert(lines_of(text@).take(n as int) =~= lines_of(text@));
    }
    out
}

/// What stands before the first `c` and what stands after it.
pub open spec fn split_once_of(s: Seq<char>, c: char) -> Option<(Seq<char>, Seq<char>)> {
    let n = find_of(s, c) as int;
    if n < s.len() {
        Some((s.take(n), s.skip(n + 1)))
    } else {
        None
    }
}

pub fn split_once(text: &str, c: char) -> (out: Option<(String, String)>)
    ensures
        match (out, split_once_of(text@, c)) {
            (Some((a, b)), Some((x, y))) => a@ == x && b@ == y,
            (None, None) => true,
            _ => false,
        },
{
    let chars: Vec<char> = chars_of(text);
    let at: usize = find(chars.as_slice(), 0, c);
    proof {
        assert(text@.skip(0) =~= text@);
    }
    if at < chars.len() {
        let front: String = part_text(chars.as_slice(), 0, at);
        let back: String = part_text(chars.as_slice(), at + 1, chars.len());
        proof {
            assert(front@ =~= text@.take(at as int));
            assert(back@ =~= text@.skip(at + 1));
        }
        Some((front, back))
    } else {
        None
    }
}

/// `c` with the letters a to z in upper case.
pub open spec fn upper(c: char) -> char {
    if 'a' <= c <= 'z' {
        ((c as u32) - 32) as char
    } else {
        c
    }
}

/// `s` with the letters a to z in upper case.
pub open spec fn upper_of(s: Seq<char>) -> Seq<char> {
    s.map_values(|c: char| upper(c))
}

pub fn to_upper(text: &str) -> (out: String)
    ensures
        out@ == upper_of(text@),
{
    let chars: Vec<char> = chars_of(text);
    let mut out: Vec<char> = Vec::new();
    let mut i: usize = 0;
    while i < chars.len()
        invariant
            i <= chars@.len(),
            chars@ == text@,
            out@ == upper_of(text@).take(i as int),
        decreases chars@.len() - i,
    {
        let c: char = chars[i];
        let shown: char = if 'a' <= c && c <= 'z' {
            ((c as u8) - 32) as char
        } else {
            c
        };
        out.push(shown);
        proof {
            assert(out@ =~= upper_of(text@).take(i + 1));
        }
        i += 1;
    }
    proof {
        assert(upper_of(text@).take(chars@.len() as int) =~= upper_of(text@));
    }
    string_of(out.as_slice())
}

/// `s` with every occurrence of `piece` replaced, from left to right.
pub open spec fn replaced_of(s: Seq<char>, piece: Seq<char>, by: Seq<char>) -> Seq<char>
    decreases s.len(),
{
    let at = find_piece_of(s, piece, 0);
    if piece.len() == 0 || at < 0 || at + piece.len() > s.len() {
        s
    } else {
        s.take(at) + by + replaced_of(s.skip(at + piece.len()), piece, by)
    }
}

pub proof fn lemma_find_piece(s: Seq<char>, piece: Seq<char>, from: int)
    requires
        0 <= from <= s.len(),
    ensures
        from <= find_piece_of(s, piece, from) <= s.len(),
        find_piece_of(s, piece, from) < s.len() ==> at_position(
            s,
            piece,
            find_piece_of(s, piece, from),
        ),
    decreases s.len() - from,
{
    if from < s.len() && !at_position(s, piece, from) {
        lemma_find_piece(s, piece, from + 1);
    }
}

/// The place that is found is the first one.
pub proof fn lemma_found_first(s: Seq<char>, piece: Seq<char>, from: int, at: int)
    requires
        0 <= from <= at < s.len(),
        at_position(s, piece, at),
    ensures
        find_piece_of(s, piece, from) <= at,
    decreases at - from,
{
    if from < at && !at_position(s, piece, from) {
        lemma_found_first(s, piece, from + 1, at);
    }
}

proof fn lemma_find_skip(s: Seq<char>, piece: Seq<char>, skipped: int, from: int)
    requires
        0 <= skipped,
        0 <= from,
        skipped + from <= s.len(),
    ensures
        find_piece_of(s, piece, skipped + from) == skipped + find_piece_of(
            s.skip(skipped),
            piece,
            from,
        ),
    decreases s.len() - from,
{
    let rest = s.skip(skipped);
    if from < rest.len() {
        if from + piece.len() <= rest.len() {
            assert(rest.subrange(from, from + piece.len()) =~= s.subrange(
                skipped + from,
                skipped + from + piece.len(),
            ));
        }
        assert(at_position(s, piece, skipped + from) == at_position(rest, piece, from));
        if !at_position(rest, piece, from) {
            lemma_find_skip(s, piece, skipped, from + 1);
        }
    }
}

pub fn replace(text: &str, piece: &str, by: &str) -> (out: String)
    requires
        piece@.len() > 0,
    ensures
        out@ == replaced_of(text@, piece@, by@),
{
    let chars: Vec<char> = chars_of(text);
    let inner: Vec<char> = chars_of(piece);
    let mut out: String = String::new();
    let mut from: usize = 0;
    proof {
        assert(text@.skip(0) =~= text@);
        assert(out@ + replaced_of(text@, piece@, by@) =~= replaced_of(text@, piece@, by@));
    }
    loop
        invariant
            from <= chars@.len(),
            chars@ == text@,
            inner@ == piece@,
            piece@.len() > 0,
            out@ + replaced_of(text@.skip(from as int), piece@, by@) == replaced_of(
                text@,
                piece@,
                by@,
            ),
        decreases chars@.len() - from,
    {
        let at: usize = find_piece(chars.as_slice(), inner.as_slice(), from);
        let ghost rest = text@.skip(from as int);
        proof {
            lemma_find_skip(text@, piece@, from as int, 0);
            lemma_find_piece(rest, piece@, 0);
        }
        if at == chars.len() {
            let tail: String = part_text(chars.as_slice(), from, chars.len());
            proof {
                assert(tail@ =~= rest);
            }
            out.append(tail.as_str());
            return out;
        }
        let front: String = part_text(chars.as_slice(), from, at);
        let ghost before = out@;
        out.append(front.as_str());
        out.append(by);
        proof {
            assert(front@ =~= rest.take(at - from));
            assert(rest.skip(at - from + piece@.len()) =~= text@.skip(at + piece@.len()));
            assert(before + (front@ + by@ + replaced_of(text@.skip(at + piece@.len()), piece@, by@))
                =~= before + front@ + by@ + replaced_of(
                text@.skip(at + piece@.len()),
                piece@,
                by@,
            ));
        }
        from = at + inner.len();
    }
}

/// `s` without the characters `c` at its end.
pub open spec fn without_end(s: Seq<char>, c: char) -> Seq<char>
    decreases s.len(),
{
    if s.len() > 0 && s.last() == c {
        without_end(s.drop_last(), c)
    } else {
        s
    }
}

/// `s` without the characters `c` at its front.
pub open spec fn without_front(s: Seq<char>, c: char) -> Seq<char>
    decreases s.len(),
{
    if s.len() > 0 && s[0] == c {
        without_front(s.skip(1), c)
    } else {
        s
    }
}

pub fn strip_end(text: &str, c: char) -> (out: String)
    ensures
        out@ == without_end(text@, c),
{
    let chars: Vec<char> = chars_of(text);
    let mut end: usize = chars.len();
    proof {
        assert(text@.take(end as int) =~= text@);
    }
    while end > 0 && chars[end - 1] == c
        invariant
            end <= chars@.len(),
            chars@ == text@,
            without_end(text@, c) == without_end(text@.take(end as int), c),
        decreases end,
    {
        proof {
            assert(text@.take(end as int).drop_last() =~= text@.take(end - 1));
        }
        end -= 1;
    }
    proof {
        assert(text@.take(end as int) =~= text@.subrange(0, end as int));
        assert(end > 0 ==> text@.take(end as int).last() == chars@[end - 1]);
    }
    part_text(chars.as_slice(), 0, end)
}

pub fn strip_front(text: &str, c: char) -> (out: String)
    ensures
        out@ == without_front(text@, c),
{
    let chars: Vec<char> = chars_of(text);
    let mut from: usize = 0;
    proof {
        assert(text@.skip(0) =~= text@);
    }
    while from < chars.len() && chars[from] == c
        invariant
            from <= chars@.len(),
            chars@ == text@,
            without_front(text@, c) == without_front(text@.skip(from as int), c),
        decreases chars@.len() - from,
    {
        proof {
            assert(text@.skip(from as int).skip(1) =~= text@.skip(from + 1));
        }
        from += 1;
    }
    proof {
        assert(text@.skip(from as int) =~= text@.subrange(from as int, text@.len() as int));
    }
    part_text(chars.as_slice(), from, chars.len())
}

/// The pieces of `s` between the occurrences of `piece`, from left to right.
pub open spec fn split_piece_of(s: Seq<char>, piece: Seq<char>) -> Seq<Seq<char>>
    decreases s.len(),
{
    let at = find_piece_of(s, piece, 0);
    if piece.len() == 0 || at < 0 || at + piece.len() > s.len() {
        seq![s]
    } else {
        seq![s.take(at)] + split_piece_of(s.skip(at + piece.len()), piece)
    }
}

pub fn split_piece(text: &str, piece: &str) -> (out: Vec<String>)
    requires
        piece@.len() > 0,
    ensures
        views(out@) == split_piece_of(text@, piece@),
{
    let chars: Vec<char> = chars_of(text);
    let inner: Vec<char> = chars_of(piece);
    let mut out: Vec<String> = Vec::new();
    let mut from: usize = 0;
    proof {
        assert(text@.skip(0) =~= text@);
        assert(views(out@) + split_piece_of(text@, piece@) =~= split_piece_of(text@, piece@));
    }
    loop
        invariant
            from <= chars@.len(),
            chars@ == text@,
            inner@ == piece@,
            piece@.len() > 0,
            views(out@) + split_piece_of(text@.skip(from as int), piece@) == split_piece_of(
                text@,
                piece@,
            ),
        decreases chars@.len() - from,
    {
        let at: usize = find_piece(chars.as_slice(), inner.as_slice(), from);
        let ghost rest = text@.skip(from as int);
        let ghost before = views(out@);
        proof {
            lemma_find_skip(text@, piece@, from as int, 0);
            lemma_find_piece(rest, piece@, 0);
        }
        if at == chars.len() {
            let tail: String = part_text(chars.as_slice(), from, chars.len());
            out.push(tail);
            proof {
                assert(tail@ =~= rest);
                assert(views(out@) =~= before + seq![rest]);
            }
            return out;
        }
        let front: String = part_text(chars.as_slice(), from, at);
        out.push(front);
        proof {
            assert(front@ =~= rest.take(at - from));
            assert(rest.skip(at - from + piece@.len()) =~= text@.skip(at + piece@.len()));
            assert(views(out@) =~= before.push(front@));
            assert(before + (seq![front@] + split_piece_of(text@.skip(at + piece@.len()), piece@))
                =~= views(out@) + split_piece_of(text@.skip(at + piece@.len()), piece@));
        }
        from = at + inner.len();
    }
}

} // verus!
