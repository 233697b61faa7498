//! Laws of keys: where they move the cursor, how they scroll, and what they step through.
use vstd::prelude::*;

use crate::config;
use crate::editing;
use crate::editing::{Edit, EditorView, Key, KeyCode, Leaving, LineAction, LineView};
use crate::profile_editor;
use crate::text;
use crate::ui;

verus! {

/// Whether a place in a text comes before another.
pub open spec fn sooner(a: EditorView, b: EditorView) -> bool {
    a.line < b.line || (a.line == b.line && a.col < b.col)
}

/// Whether a key only moves the cursor, and to a place that there is.
pub open spec fn only_moves(v: EditorView, key: Key) -> bool {
    let (w, left) = editing::pressed(v, key);
    w.wf() && w.lines == v.lines && left == Leaving::Stay
}

/// The arrows to the left and to the right lead to the place right before and right behind the
/// cursor: there is none between, and only from the first and the last place they lead nowhere.
pub proof fn arrows_lead_to_the_next_place(v: EditorView, w: EditorView, left: Key, right: Key)
    requires
        v.wf(),
        w.wf(),
        w.lines == v.lines,
        left.code == KeyCode::Left,
        right.code == KeyCode::Right,
    ensures
        only_moves(v, left),
        only_moves(v, right),
        ({
            let l = editing::pressed(v, left).0;
            let r = editing::pressed(v, right).0;
            &&& sooner(l, v) || l == v
            &&& sooner(v, r) || r == v
            &&& sooner(w, v) ==> sooner(l, v) && !sooner(l, w)
            &&& sooner(v, w) ==> sooner(v, r) && !sooner(w, r)
        }),
{
}

/// The arrows up and down lead to the line before and behind, as near to the cursor's column as
/// that line lets; only from the first and the last line they lead nowhere.
pub proof fn arrows_keep_the_column(v: EditorView, col: int, up: Key, down: Key)
    requires
        v.wf(),
        up.code == KeyCode::Up,
        down.code == KeyCode::Down,
        0 <= col <= v.col,
    ensures
        only_moves(v, up),
        only_moves(v, down),
        ({
            let u = editing::pressed(v, up).0;
            let d = editing::pressed(v, down).0;
            &&& v.line == 0 ==> u == v
            &&& v.line > 0 ==> u.line == v.line - 1 && u.col <= v.col && (col <= v.lines[v.line
                - 1].len() ==> col <= u.col)
            &&& v.line == v.lines.len() - 1 ==> d == v
            &&& v.line < v.lines.len() - 1 ==> d.line == v.line + 1 && d.col <= v.col && (col
                <= v.lines[v.line + 1].len() ==> col <= d.col)
        }),
{
}

/// The keys to a line's ends lead to its first and to its last place.
pub proof fn lines_have_two_ends(v: EditorView, col: int, home: Key, end: Key)
    requires
        v.wf(),
        0 <= col <= v.lines[v.line].len(),
        home.code == KeyCode::Home,
        end.code == KeyCode::End,
    ensures
        only_moves(v, home),
        only_moves(v, end),
        ({
            let h = editing::pressed(v, home).0;
            let e = editing::pressed(v, end).0;
            h.line == v.line && e.line == v.line && h.col <= col && col <= e.col
        }),
{
}

/// What is typed stands at the cursor, and the key back takes it away. Escape and control-S leave
/// the text as it is; no other key leaves the editor, and a control code is not typed.
pub proof fn keys_type_and_leave(v: EditorView, c: char, key: Key, back: Key, esc: Key)
    requires
        v.wf(),
        key.code == KeyCode::Char(c),
        back.code == KeyCode::Backspace,
        esc.code == KeyCode::Esc,
    ensures
        ({
            let (w, left) = editing::pressed(v, key);
            let save = key.ctrl && c == 's';
            let code = (c as u32) < 32 || 127 <= c as u32 && (c as u32) < 160;
            &&& left == Leaving::Save <==> save
            &&& left != Leaving::Cancel
            &&& save || code ==> w == v
            &&& !save && !code ==> w.content() == v.content().insert(v.offset(), c) && w.offset()
                == v.offset() + 1 && editing::pressed(w, back) == (v, Leaving::Stay)
            &&& editing::pressed(v, esc) == (v, Leaving::Cancel)
        }),
{
    editing::typing_inserts_at_the_cursor(v, c);
    editing::backspace_takes_back(v, c);
}

/// A new line is typed like any other character.
pub proof fn enter_starts_a_line(v: EditorView, enter: Key)
    requires
        v.wf(),
        enter.code == KeyCode::Enter,
    ensures
        editing::pressed(v, enter).0.content() == v.content().insert(v.offset(), '\n'),
        editing::pressed(v, enter).0.line == v.line + 1,
        editing::pressed(v, enter).0.col == 0,
        editing::pressed(v, enter).1 == Leaving::Stay,
{
    editing::typing_inserts_at_the_cursor(v, '\n');
}

/// Scrolling leads to a row that there is, one or ten rows away or to an end that is nearer. A
/// step forth and one back lead to where they started, unless an end was met.
pub proof fn scrolling_goes_both_ways(scroll: u16, total: u16, n: int, up: Key, down: Key, home: Key, end: Key)
    requires
        scroll < total,
        up.code == KeyCode::Up && n == 1 || up.code == KeyCode::PageUp && n == 10,
        down.code == KeyCode::Down && n == 1 || down.code == KeyCode::PageDown && n == 10,
        home.code == KeyCode::Home,
        end.code == KeyCode::End,
    ensures
        editing::scrolled(scroll, total, home) == Some(0int),
        editing::scrolled(scroll, total, end) == Some(total - 1),
        editing::scrolled(scroll, total, up) is Some,
        editing::scrolled(scroll, total, down) is Some,
        ({
            let u = editing::scrolled(scroll, total, up)->0;
            let d = editing::scrolled(scroll, total, down)->0;
            &&& 0 <= u <= scroll <= d < total
            &&& u == scroll - n || u == 0 && scroll < n
            &&& d == scroll + n || d == total - 1 && scroll + n >= total
            &&& d == scroll + n ==> editing::scrolled(d as u16, total, up) == Some(scroll as int)
            &&& u == scroll - n ==> editing::scrolled(u as u16, total, down) == Some(scroll as int)
        }),
{
}

/// A line whose cursor stands between two parts.
pub open spec fn parted(a: Seq<char>, b: Seq<char>) -> LineView {
    LineView { text: a + b, cursor: a.len() as int }
}

/// An edit takes or adds what stands right before or right behind the cursor, or all that does.
pub proof fn edits_touch_what_is_next_to_the_cursor(a: Seq<char>, b: Seq<char>, c: char)
    ensures
        editing::edited(parted(a, b), Edit::Insert(c)) == parted(a.push(c), b),
        editing::edited(parted(a.push(c), b), Edit::Backspace) == parted(a, b),
        editing::edited(parted(a, seq![c] + b), Edit::Delete) == parted(a, b),
        editing::edited(parted(a.push(c), b), Edit::Left) == parted(a, seq![c] + b),
        editing::edited(parted(a, seq![c] + b), Edit::Right) == parted(a.push(c), b),
        editing::edited(parted(a, b), Edit::ClearToStart) == parted(seq![], b),
        editing::edited(parted(a, b), Edit::ClearToEnd) == parted(a, seq![]),
        editing::edited(parted(a, b), Edit::Start) == parted(seq![], a + b),
        editing::edited(parted(a, b), Edit::End) == parted(a + b, seq![]),
        editing::edited(parted(seq![], b), Edit::Backspace) == parted(seq![], b),
        editing::edited(parted(seq![], b), Edit::Left) == parted(seq![], b),
        editing::edited(parted(a, seq![]), Edit::Delete) == parted(a, seq![]),
        editing::edited(parted(a, seq![]), Edit::Right) == parted(a, seq![]),
{
    let n = a.len() as int;
    assert((a + b).insert(n, c) =~= a.push(c) + b);
    assert((a.push(c) + b).remove(n) =~= a + b);
    assert((a + (seq![c] + b)).remove(n) =~= a + b);
    assert(a.push(c) + b =~= a + (seq![c] + b));
    assert((a + b).skip(n) =~= b);
    assert(Seq::<char>::empty() + b =~= b);
    assert((a + b).take(n) =~= a);
    assert(a + Seq::<char>::empty() =~= a);
    assert(Seq::<char>::empty() + (a + b) =~= a + b);
    assert((a + b) + Seq::<char>::empty() =~= a + b);
}

/// Whether all characters of a text are in a word, or none is.
pub open spec fn all_in_word(s: Seq<char>, word: bool) -> bool {
    forall|i: int| 0 <= i < s.len() ==> editing::in_word(#[trigger] s[i]) == word
}

proof fn lemma_back(s: Seq<char>, low: int, at: int, word: bool)
    requires
        0 <= low <= at <= s.len(),
        forall|i: int| low <= i < at ==> editing::in_word(#[trigger] s[i]) == word,
        low > 0 ==> editing::in_word(s[low - 1]) != word,
    ensures
        editing::back_over(s, at, word) == low,
    decreases at,
{
    if low < at {
        assert(editing::in_word(s[at - 1]) == word);
        lemma_back(s, low, at - 1, word);
    }
}

proof fn lemma_forth(s: Seq<char>, at: int, high: int, word: bool)
    requires
        0 <= at <= high <= s.len(),
        forall|i: int| at <= i < high ==> editing::in_word(#[trigger] s[i]) == word,
        high < s.len() ==> editing::in_word(s[high]) != word,
    ensures
        editing::forth_over(s, at, word) == high,
    decreases s.len() - at,
{
    if at < high {
        assert(editing::in_word(s[at]) == word);
        lemma_forth(s, at + 1, high, word);
    }
}

/// A step over a word leads over what stands between it and the cursor, and over the whole word;
/// a word that is deleted is gone with what stood between.
pub proof fn words_are_stepped_over(
    a: Seq<char>,
    word: Seq<char>,
    gap: Seq<char>,
    b: Seq<char>,
)
    requires
        word.len() > 0,
        all_in_word(word, true),
        all_in_word(gap, false),
    ensures
        a.len() == 0 || !editing::in_word(a.last()) ==> {
            let line = parted(a + word + gap, b);
            &&& editing::edited(line, Edit::WordLeft) == parted(a, word + gap + b)
            &&& editing::edited(line, Edit::DeleteWord) == parted(a, b)
        },
        b.len() == 0 || !editing::in_word(b[0]) ==> editing::edited(
            parted(a, gap + word + b),
            Edit::WordRight,
        ) == parted(a + gap + word, b),
{
    if a.len() == 0 || !editing::in_word(a.last()) {
        let line = parted(a + word + gap, b);
        let s = line.text;
        let low = a.len() as int;
        let mid = low + word.len();
        let at = mid + gap.len();
        assert forall|i: int| mid <= i < at implies editing::in_word(#[trigger] s[i]) == false by {
            assert(s[i] == gap[i - mid]);
        }
        assert forall|i: int| low <= i < mid implies editing::in_word(#[trigger] s[i]) == true by {
            assert(s[i] == word[i - low]);
        }
        assert(editing::in_word(s[mid - 1]));
        lemma_back(s, mid, at, false);
        if low > 0 {
            assert(s[low - 1] == a.last());
        }
        lemma_back(s, low, mid, true);
        assert(s =~= a + (word + gap + b));
        assert(s.take(low) + s.skip(at) =~= a + b);
    }
    if b.len() == 0 || !editing::in_word(b[0]) {
        let line = parted(a, gap + word + b);
        let s = line.text;
        let at = a.len() as int;
        let mid = at + gap.len();
        let high = mid + word.len();
        assert forall|i: int| at <= i < mid implies editing::in_word(#[trigger] s[i]) == false by {
            assert(s[i] == gap[i - at]);
        }
        assert forall|i: int| mid <= i < high implies editing::in_word(#[trigger] s[i]) == true by {
            assert(s[i] == word[i - mid]);
        }
        assert(editing::in_word(s[mid]));
        lemma_forth(s, at, mid, false);
        if high < s.len() {
            assert(s[high] == b[0]);
        }
        lemma_forth(s, mid, high, true);
        assert(s =~= (a + gap + word) + b);
    }
}

/// With control, letters stand for other keys: `a` and `e` for those to the ends of the line, and
/// `h` for the one back. Without it every character is typed that is no control code.
pub proof fn letters_stand_for_keys(c: char, any: bool, plain: Key, held: Key, named: Key)
    requires
        plain.code == KeyCode::Char(c) && !plain.ctrl,
        held.code == KeyCode::Char(c) && held.ctrl,
    ensures
        any || 32 <= c as u32 && !(127 <= c as u32 && (c as u32) < 160) ==> editing::line_action_of(plain, any)
            == LineAction::Edit(Edit::Insert(c)),
        !any && ((c as u32) < 32 || 127 <= c as u32 && (c as u32) < 160) ==> editing::line_action_of(
            plain,
            any,
        ) == LineAction::Nothing,
        c == 'a' && named.code == KeyCode::Home ==> editing::line_action_of(held, any)
            == editing::line_action_of(named, any),
        c == 'e' && named.code == KeyCode::End ==> editing::line_action_of(held, any)
            == editing::line_action_of(named, any),
        c == 'h' && named.code == KeyCode::Backspace ==> editing::line_action_of(held, any)
            == editing::line_action_of(named, any),
        c == 'u' ==> editing::line_action_of(held, any) == LineAction::Edit(Edit::ClearToStart),
        c == 'k' ==> editing::line_action_of(held, any) == LineAction::Edit(Edit::ClearToEnd),
        c == 'w' ==> editing::line_action_of(held, any) == LineAction::Edit(Edit::DeleteWord),
        named.code == KeyCode::Esc <==> editing::line_action_of(named, any) == LineAction::Cancel,
        named.code == KeyCode::Enter <==> editing::line_action_of(named, any) == LineAction::Submit,
{
}

/// Three texts follow each other in a circle, and from every other text it starts over.
pub proof fn three_texts_go_round(s: Seq<char>, a: Seq<char>, b: Seq<char>, c: Seq<char>)
    requires
        a != b,
        b != c,
        a != c,
    ensures
        ({
            let one = ui::next_of_three(s, a, b, c);
            let two = ui::next_of_three(one, a, b, c);
            let three = ui::next_of_three(two, a, b, c);
            &&& one != s && two != one && three != two
            &&& (s == a || s == b || s == c) ==> three == s && two != s
            &&& s == a ==> one == b
            &&& s != a && s != b && s != c ==> one == a
        }),
{
}

/// Slots are stepped one at a time, and stay between 1 and 32; a step back undoes a step.
pub proof fn slots_are_stepped(n: u64)
    requires
        1 <= n <= 32,
    ensures
        ui::stepped_slots(n, true) == Some(if n == 32 { n } else { (n + 1) as u64 }),
        n < 32 ==> ui::stepped_slots((n + 1) as u64, false) == Some(n),
        ui::stepped_slots(1, false) == Some(1u64),
{
}

/// A context is stepped by the step: a step back undoes it, and none leads below 1024.
pub proof fn contexts_are_stepped(n: u64, step: u64)
    requires
        1024 <= n,
        n + step <= i64::MAX,
    ensures
        ui::stepped_context(n, step, true) == Some((n + step) as u64),
        ui::stepped_context((n + step) as u64, step, false) == Some(n),
        ui::stepped_context(n, step, false) matches Some(m) && m >= 1024 && m <= n && (m == n - step || m == 1024 && n - step < 1024),
{
}

/// A counter is stepped by one, and a step back undoes a step, but for the two ends.
pub proof fn counters_are_stepped(n: u64, by: i32, back: i32)
    requires
        by >= 0,
        back < 0,
    ensures
        n < u64::MAX ==> profile_editor::stepped(n, by) == n + 1,
        n < u64::MAX ==> profile_editor::stepped(profile_editor::stepped(n, by), back) == n,
        profile_editor::stepped(u64::MAX, by) == u64::MAX,
        profile_editor::stepped(0, back) == 0,
{
}

/// Going on from a backend and back again leads to it; each is followed by another one.
pub proof fn backends_go_round(i: int)
    requires
        0 <= i < config::backends().len(),
    ensures
        ({
            let b = config::backends()[i];
            let after = ui::next_backend(b, true);
            &&& after != b
            &&& i + 1 < config::backends().len() ==> after == config::backends()[i + 1]
            &&& i + 1 == config::backends().len() ==> after == config::backends()[0]
            &&& ui::next_backend(after, false) == b
        }),
{
    let list = config::backends();
    let n = list.len() as int;
    reveal_strlit("cuda");
    reveal_strlit("vulkan");
    reveal_strlit("cpu");
    reveal_strlit("rocm");
    reveal_strlit("sycl-fp16");
    reveal_strlit("sycl-fp32");
    reveal_strlit("openvino");
    assert("cuda"@[0] == 'c' && "cuda"@.len() == 4 && "vulkan"@.len() == 6 && "cpu"@.len() == 3);
    assert("rocm"@[0] == 'r' && "rocm"@.len() == 4 && "openvino"@.len() == 8);
    assert("sycl-fp16"@.len() == 9 && "sycl-fp32"@.len() == 9);
    assert("sycl-fp16"@[7] == '1' && "sycl-fp32"@[7] == '3');
    assert forall|k: int, l: int| 0 <= k < l < n implies #[trigger] list[k] != #[trigger] list[l] by {}
    lemma_place(list, i);
    let next = if i + 1 < n {
        i + 1
    } else {
        0
    };
    lemma_place(list, next);
    assert((i + 1) % n == next);
    assert((next - 1) % n == i);
}

proof fn lemma_place(list: Seq<Seq<char>>, i: int)
    requires
        0 <= i < list.len(),
        forall|k: int, l: int| 0 <= k < l < list.len() ==> #[trigger] list[k] != #[trigger] list[l],
    ensures
        text::run(list, profile_editor::another(list[i])) == i,
{
    let other = profile_editor::another(list[i]);
    assert forall|j: int| 0 <= j < i implies other(#[trigger] list[j]) by {}
    text::lemma_run_unique(list, other, i);
}

} // verus!
