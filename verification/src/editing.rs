//! Editing text: keys, one-line inputs and the editor for templates.
use vstd::prelude::*;

use crate::text;

verus! {

/// A key of the keyboard.
#[derive(Clone, Copy, Debug, PartialEq, Eq, Structural)]
pub enum KeyCode {
    Esc,
    Enter,
    Tab,
    BackTab,
    Left,
    Right,
    Up,
    Down,
    Home,
    End,
    PageUp,
    PageDown,
    Backspace,
    Delete,
    Char(char),
    Other,
}

/// A key that was pressed, and whether the control key was held.
#[derive(Clone, Copy, Debug, PartialEq, Eq, Structural)]
pub struct Key {
    pub code: KeyCode,
    pub ctrl: bool,
}

/// Whether a character is a control code.
pub open spec fn is_control(c: char) -> bool {
    c as u32 <= 0x1f || 0x7f <= c as u32 <= 0x9f
}

pub fn control(c: char) -> (yes: bool)
    ensures
        yes == is_control(c),
{
    c as u32 <= 0x1f || (0x7f <= c as u32 && c as u32 <= 0x9f)
}

/// Whether a character belongs to a word: what `char::is_alphanumeric` says.
pub uninterp spec fn in_word(c: char) -> bool;

/// Calls `char::is_alphanumeric`, which goes by Unicode; the result is a function of the
/// character.
#[verifier::external_body]
fn word_char(c: char) -> (yes: bool)
    ensures
        yes == in_word(c),
{
    c.is_alphanumeric()
}

/// A line that is being edited, and where the cursor stands in it, counted in characters.
pub struct Line {
    pub text: String,
    pub cursor: usize,
}

#[verifier::ext_equal]
pub ghost struct LineView {
    pub text: Seq<char>,
    pub cursor: int,
}

impl View for Line {
    type V = LineView;

    open spec fn view(&self) -> LineView {
        LineView { text: self.text@, cursor: self.cursor as int }
    }
}

impl LineView {
    /// The cursor stands in the line or at its end.
    pub open spec fn wf(self) -> bool {
        0 <= self.cursor <= self.text.len()
    }
}

/// What can be done to a line.
#[derive(Clone, Copy, Debug, PartialEq, Eq, Structural)]
pub enum Edit {
    Left,
    Right,
    WordLeft,
    WordRight,
    Start,
    End,
    Backspace,
    Delete,
    ClearToStart,
    ClearToEnd,
    DeleteWord,
    Insert(char),
}

/// Where one gets from `at` to the left, over characters that are in a word or over ones
/// that are not.
pub open spec fn back_over(s: Seq<char>, at: int, word: bool) -> int
    decreases at,
{
    if at > 0 && in_word(s[at - 1]) == word {
        back_over(s, at - 1, word)
    } else {
        at
    }
}

/// Where one gets from `at` to the right.
pub open spec fn forth_over(s: Seq<char>, at: int, word: bool) -> int
    decreases s.len() - at,
{
    if 0 <= at < s.len() && in_word(s[at]) == word {
        forth_over(s, at + 1, word)
    } else {
        at
    }
}

/// The start of the word before `at`.
pub open spec fn word_start(s: Seq<char>, at: int) -> int {
    back_over(s, back_over(s, at, false), true)
}

/// The end of the word behind `at`.
pub open spec fn word_end(s: Seq<char>, at: int) -> int {
    forth_over(s, forth_over(s, at, false), true)
}

/// A line after an edit.
pub open spec fn edited(line: LineView, edit: Edit) -> LineView {
    let s = line.text;
    let at = line.cursor;
    match edit {
        Edit::Left => LineView {
            cursor: if at > 0 {
                at - 1
            } else {
                0
            },
            ..line
        },
        Edit::Right => LineView {
            cursor: if at < s.len() {
                at + 1
            } else {
                s.len() as int
            },
            ..line
        },
        Edit::WordLeft => LineView { cursor: word_start(s, at), ..line },
        Edit::WordRight => LineView { cursor: word_end(s, at), ..line },
        Edit::Start => LineView { cursor: 0, ..line },
        Edit::End => LineView { cursor: s.len() as int, ..line },
        Edit::Backspace => if at > 0 {
            LineView { text: s.remove(at - 1), cursor: at - 1 }
        } else {
            line
        },
        Edit::Delete => if at < s.len() {
            LineView { text: s.remove(at), ..line }
        } else {
            line
        },
        Edit::ClearToStart => LineView { text: s.skip(at), cursor: 0 },
        Edit::ClearToEnd => LineView { text: s.take(at), ..line },
        Edit::DeleteWord => LineView {
            text: s.take(word_start(s, at)) + s.skip(at),
            cursor: word_start(s, at),
        },
        Edit::Insert(c) => LineView { text: s.insert(at, c), cursor: at + 1 },
    }
}

pub proof fn lemma_back_over(s: Seq<char>, at: int, word: bool)
    requires
        0 <= at,
    ensures
        0 <= back_over(s, at, word) <= at,
    decreases at,
{
    if at > 0 && in_word(s[at - 1]) == word {
        lemma_back_over(s, at - 1, word);
    }
}

pub proof fn lemma_forth_over(s: Seq<char>, at: int, word: bool)
    requires
        0 <= at <= s.len(),
    ensures
        at <= forth_over(s, at, word) <= s.len(),
    decreases s.len() - at,
{
    if at < s.len() && in_word(s[at]) == word {
        lemma_forth_over(s, at + 1, word);
    }
}

/// However a line is edited, the cursor stays in it.
pub proof fn cursor_stays_in_the_line(line: LineView, edit: Edit)
    requires
        line.wf(),
    ensures
        edited(line, edit).wf(),
{
    let s = line.text;
    let at = line.cursor;
    lemma_back_over(s, at, false);
    lemma_back_over(s, back_over(s, at, false), true);
    lemma_forth_over(s, at, false);
    lemma_forth_over(s, forth_over(s, at, false), true);
}

/// A character that was typed can be taken back.
pub proof fn backspace_undoes_insert(line: LineView, c: char)
    requires
        line.wf(),
    ensures
        edited(edited(line, Edit::Insert(c)), Edit::Backspace) == line,
{
    let at = line.cursor;
    assert(line.text.insert(at, c).remove(at) =~= line.text);
}

/// Clearing a line to both sides of the cursor leaves nothing.
pub proof fn clearing_both_ways_leaves_nothing(line: LineView)
    requires
        line.wf(),
    ensures
        edited(edited(line, Edit::ClearToEnd), Edit::ClearToStart).text.len() == 0,
{
}

fn go_back(chars: &Vec<char>, from: usize, word: bool) -> (at: usize)
    requires
        from <= chars@.len(),
    ensures
        at == back_over(chars@, from as int, word),
        at <= from,
{
    let mut at: usize = from;
    while at > 0
        invariant_except_break
            at <= from,
            from <= chars@.len(),
            back_over(chars@, from as int, word) == back_over(chars@, at as int, word),
        ensures
            at == back_over(chars@, from as int, word),
            at <= from,
        decreases at,
    {
        if word_char(chars[at - 1]) != word {
            break ;
        }
        at -= 1;
    }
    at
}

fn go_forth(chars: &Vec<char>, from: usize, word: bool) -> (at: usize)
    requires
        from <= chars@.len(),
    ensures
        at == forth_over(chars@, from as int, word),
        at <= chars@.len(),
{
    let mut at: usize = from;
    while at < chars.len()
        invariant_except_break
            at <= chars@.len(),
            forth_over(chars@, from as int, word) == forth_over(chars@, at as int, word),
        ensures
            at == forth_over(chars@, from as int, word),
            at <= chars@.len(),
        decreases chars@.len() - at,
    {
        if word_char(chars[at]) != word {
            break ;
        }
        at += 1;
    }
    at
}

impl Line {
    /// A line with the cursor at its end.
    pub fn at_end(text: &str) -> (out: Line)
        ensures
            out@ == (LineView { text: text@, cursor: text@.len() as int }),
            out@.wf(),
    {
        let cursor: usize = text::chars_of(text).len();
        Line { text: text.to_owned(), cursor }
    }

    /// Edits the line.
    pub fn edit(&mut self, edit: Edit)
        requires
            old(self)@.wf(),
        ensures
            final(self)@ == edited(old(self)@, edit),
            final(self)@.wf(),
    {
        proof {
            cursor_stays_in_the_line(self@, edit);
        }
        let mut chars: Vec<char> = text::chars_of(self.text.as_str());
        let ghost s = self.text@;
        let at: usize = self.cursor;
        match edit {
            Edit::Left => {
                if at > 0 {
                    self.cursor = at - 1;
                }
            },
            Edit::Right => {
                if at < chars.len() {
                    self.cursor = at + 1;
                }
            },
            Edit::WordLeft => {
                let gap: usize = go_back(&chars, at, false);
                self.cursor = go_back(&chars, gap, true);
            },
            Edit::WordRight => {
                let gap: usize = go_forth(&chars, at, false);
                self.cursor = go_forth(&chars, gap, true);
            },
            Edit::Start => {
                self.cursor = 0;
            },
            Edit::End => {
                self.cursor = chars.len();
            },
            Edit::Backspace => {
                if at > 0 {
                    let _gone: char = chars.remove(at - 1);
                    self.text = text::string_of(chars.as_slice());
                    self.cursor = at - 1;
                }
            },
            Edit::Delete => {
                if at < chars.len() {
                    let _gone: char = chars.remove(at);
                    self.text = text::string_of(chars.as_slice());
                }
            },
            Edit::ClearToStart => {
                let count: usize = chars.len();
                self.text = text::part_text(chars.as_slice(), at, count);
                self.cursor = 0;
                proof {
                    assert(s.subrange(at as int, s.len() as int) =~= s.skip(at as int));
                }
            },
            Edit::ClearToEnd => {
                self.text = text::part_text(chars.as_slice(), 0, at);
                proof {
                    assert(s.subrange(0, at as int) =~= s.take(at as int));
                }
            },
            Edit::DeleteWord => {
                let gap: usize = go_back(&chars, at, false);
                let start: usize = go_back(&chars, gap, true);
                let count: usize = chars.len();
                let mut kept: String = text::part_text(chars.as_slice(), 0, start);
                kept.append(text::part_text(chars.as_slice(), at, count).as_str());
                self.text = kept;
                self.cursor = start;
                proof {
                    assert(s.subrange(at as int, s.len() as int) =~= s.skip(at as int));
                    assert(s.subrange(0, start as int) =~= s.take(start as int));
                }
            },
            Edit::Insert(c) => {
                chars.insert(at, c);
                let _count: usize = chars.len();
                self.text = text::string_of(chars.as_slice());
                self.cursor = at + 1;
            },
        }
    }
}

/// What a key means for a line that is being edited.
#[derive(Clone, Copy, Debug, PartialEq, Eq, Structural)]
pub enum LineAction {
    Cancel,
    Submit,
    Edit(Edit),
    Nothing,
}

/// What a key means for a line; control codes are typed only where `any` holds.
pub open spec fn line_action_of(key: Key, any: bool) -> LineAction {
    match key.code {
        KeyCode::Esc => LineAction::Cancel,
        KeyCode::Enter => LineAction::Submit,
        KeyCode::Left => LineAction::Edit(
            if key.ctrl {
                Edit::WordLeft
            } else {
                Edit::Left
            },
        ),
        KeyCode::Right => LineAction::Edit(
            if key.ctrl {
                Edit::WordRight
            } else {
                Edit::Right
            },
        ),
        KeyCode::Home => LineAction::Edit(Edit::Start),
        KeyCode::End => LineAction::Edit(Edit::End),
        KeyCode::Backspace => LineAction::Edit(Edit::Backspace),
        KeyCode::Delete => LineAction::Edit(Edit::Delete),
        KeyCode::Char(c) => if key.ctrl && c == 'a' {
            LineAction::Edit(Edit::Start)
        } else if key.ctrl && c == 'e' {
            LineAction::Edit(Edit::End)
        } else if key.ctrl && c == 'h' {
            LineAction::Edit(Edit::Backspace)
        } else if key.ctrl && c == 'u' {
            LineAction::Edit(Edit::ClearToStart)
        } else if key.ctrl && c == 'k' {
            LineAction::Edit(Edit::ClearToEnd)
        } else if key.ctrl && c == 'w' {
            LineAction::Edit(Edit::DeleteWord)
        } else if any || !is_control(c) {
            LineAction::Edit(Edit::Insert(c))
        } else {
            LineAction::Nothing
        },
        _ => LineAction::Nothing,
    }
}

pub fn line_action(key: Key, any: bool) -> (out: LineAction)
    ensures
        out == line_action_of(key, any),
{
    match key.code {
        KeyCode::Esc => LineAction::Cancel,
        KeyCode::Enter => LineAction::Submit,
        KeyCode::Left => if key.ctrl {
            LineAction::Edit(Edit::WordLeft)
        } else {
            LineAction::Edit(Edit::Left)
        },
        KeyCode::Right => if key.ctrl {
            LineAction::Edit(Edit::WordRight)
        } else {
            LineAction::Edit(Edit::Right)
        },
        KeyCode::Home => LineAction::Edit(Edit::Start),
        KeyCode::End => LineAction::Edit(Edit::End),
        KeyCode::Backspace => LineAction::Edit(Edit::Backspace),
        KeyCode::Delete => LineAction::Edit(Edit::Delete),
        KeyCode::Char(c) => if key.ctrl && c == 'a' {
            LineAction::Edit(Edit::Start)
        } else if key.ctrl && c == 'e' {
            LineAction::Edit(Edit::End)
        } else if key.ctrl && c == 'h' {
            LineAction::Edit(Edit::Backspace)
        } else if key.ctrl && c == 'u' {
            LineAction::Edit(Edit::ClearToStart)
        } else if key.ctrl && c == 'k' {
            LineAction::Edit(Edit::ClearToEnd)
        } else if key.ctrl && c == 'w' {
            LineAction::Edit(Edit::DeleteWord)
        } else if any || !control(c) {
            LineAction::Edit(Edit::Insert(c))
        } else {
            LineAction::Nothing
        },
        _ => LineAction::Nothing,
    }
}

/// What a key means for the name of a template, which has no control keys.
pub open spec fn name_action_of(key: Key) -> LineAction {
    match key.code {
        KeyCode::Esc => LineAction::Cancel,
        KeyCode::Enter => LineAction::Submit,
        KeyCode::Left => LineAction::Edit(Edit::Left),
        KeyCode::Right => LineAction::Edit(Edit::Right),
        KeyCode::Home => LineAction::Edit(Edit::Start),
        KeyCode::End => LineAction::Edit(Edit::End),
        KeyCode::Backspace => LineAction::Edit(Edit::Backspace),
        KeyCode::Delete => LineAction::Edit(Edit::Delete),
        KeyCode::Char(c) => if !is_control(c) {
            LineAction::Edit(Edit::Insert(c))
        } else {
            LineAction::Nothing
        },
        _ => LineAction::Nothing,
    }
}

pub fn name_action(key: Key) -> (out: LineAction)
    ensures
        out == name_action_of(key),
{
    match key.code {
        KeyCode::Esc => LineAction::Cancel,
        KeyCode::Enter => LineAction::Submit,
        KeyCode::Left => LineAction::Edit(Edit::Left),
        KeyCode::Right => LineAction::Edit(Edit::Right),
        KeyCode::Home => LineAction::Edit(Edit::Start),
        KeyCode::End => LineAction::Edit(Edit::End),
        KeyCode::Backspace => LineAction::Edit(Edit::Backspace),
        KeyCode::Delete => LineAction::Edit(Edit::Delete),
        KeyCode::Char(c) => if !control(c) {
            LineAction::Edit(Edit::Insert(c))
        } else {
            LineAction::Nothing
        },
        _ => LineAction::Nothing,
    }
}

/// A template that is being edited, line by line.
pub struct TemplateEditor {
    pub name: String,
    pub lines: Vec<String>,
    pub line: usize,
    pub col: usize,
    pub is_new: bool,
}

#[verifier::ext_equal]
pub ghost struct EditorView {
    pub lines: Seq<Seq<char>>,
    pub line: int,
    pub col: int,
}

impl View for TemplateEditor {
    type V = EditorView;

    open spec fn view(&self) -> EditorView {
        EditorView {
            lines: text::views(self.lines@),
            line: self.line as int,
            col: self.col as int,
        }
    }
}

impl EditorView {
    /// There is a line, and the cursor stands in one.
    pub open spec fn wf(self) -> bool {
        &&& 0 <= self.line < self.lines.len()
        &&& 0 <= self.col <= self.lines[self.line].len()
    }

    /// The line with the cursor.
    pub open spec fn current(self) -> Seq<char> {
        self.lines[self.line]
    }

    /// The whole text.
    pub open spec fn content(self) -> Seq<char> {
        text::joined(self.lines, "\n"@)
    }

    /// Where the cursor stands in the whole text.
    pub open spec fn offset(self) -> int {
        if self.line == 0 {
            self.col
        } else {
            text::joined(self.lines.take(self.line), "\n"@).len() + 1 + self.col
        }
    }
}

/// The editor after a character was typed.
pub open spec fn inserted(v: EditorView, c: char) -> EditorView {
    let here = v.current();
    if c == '\n' {
        EditorView {
            lines: v.lines.update(v.line, here.take(v.col)).insert(v.line + 1, here.skip(v.col)),
            line: v.line + 1,
            col: 0,
        }
    } else {
        EditorView {
            lines: v.lines.update(v.line, here.insert(v.col, c)),
            col: v.col + 1,
            ..v
        }
    }
}

/// The editor after the character before the cursor was taken out.
pub open spec fn backspaced(v: EditorView) -> EditorView {
    let here = v.current();
    if v.col > 0 {
        EditorView {
            lines: v.lines.update(v.line, here.remove(v.col - 1)),
            col: v.col - 1,
            ..v
        }
    } else if v.line > 0 {
        let above = v.lines[v.line - 1];
        EditorView {
            lines: v.lines.remove(v.line).update(v.line - 1, above + here),
            line: v.line - 1,
            col: above.len() as int,
        }
    } else {
        v
    }
}

/// The editor after the character behind the cursor was taken out.
pub open spec fn deleted(v: EditorView) -> EditorView {
    let here = v.current();
    if v.col < here.len() {
        EditorView { lines: v.lines.update(v.line, here.remove(v.col)), ..v }
    } else if v.line + 1 < v.lines.len() {
        EditorView {
            lines: v.lines.remove(v.line + 1).update(v.line, here + v.lines[v.line + 1]),
            ..v
        }
    } else {
        v
    }
}

/// Where the cursor goes to the left.
pub open spec fn moved_left(v: EditorView) -> EditorView {
    if v.col > 0 {
        EditorView { col: v.col - 1, ..v }
    } else if v.line > 0 {
        EditorView { line: v.line - 1, col: v.lines[v.line - 1].len() as int, ..v }
    } else {
        v
    }
}

/// Where the cursor goes to the right.
pub open spec fn moved_right(v: EditorView) -> EditorView {
    if v.col < v.current().len() {
        EditorView { col: v.col + 1, ..v }
    } else if v.line + 1 < v.lines.len() {
        EditorView { line: v.line + 1, col: 0, ..v }
    } else {
        v
    }
}

/// The cursor in another line, in its column or at the end of a shorter line.
pub open spec fn in_line(v: EditorView, line: int) -> EditorView {
    let len = v.lines[line].len() as int;
    EditorView {
        line,
        col: if v.col <= len {
            v.col
        } else {
            len
        },
        ..v
    }
}

pub open spec fn moved_up(v: EditorView) -> EditorView {
    if v.line > 0 {
        in_line(v, v.line - 1)
    } else {
        v
    }
}

pub open spec fn moved_down(v: EditorView) -> EditorView {
    if v.line + 1 < v.lines.len() {
        in_line(v, v.line + 1)
    } else {
        v
    }
}

impl TemplateEditor {
    /// Starts to edit a text.
    pub fn new(name: String, text: String, is_new: bool) -> (out: TemplateEditor)
        ensures
            out@ == (EditorView { lines: text::split_of(text@, '\n'), line: 0, col: 0 }),
            out@.wf(),
            out.name == name,
            out.is_new == is_new,
    {
        let lines: Vec<String> = text::split(text.as_str(), '\n');
        proof {
            text::lemma_split_nonempty(text@, '\n');
        }
        TemplateEditor { name, lines, line: 0, col: 0, is_new }
    }

    /// The text.
    pub fn text(&self) -> (out: String)
        ensures
            out@ == self@.content(),
    {
        text::join(self.lines.as_slice(), "\n")
    }

    /// How many characters a line has, none where there is no such line.
    pub fn line_len(&self, line: usize) -> (out: usize)
        ensures
            out == if line < self@.lines.len() {
                self@.lines[line as int].len()
            } else {
                0
            },
    {
        if line < self.lines.len() {
            text::chars_of(self.lines[line].as_str()).len()
        } else {
            0
        }
    }

    fn set_line(&mut self, at: usize, content: String)
        requires
            at < old(self)@.lines.len(),
        ensures
            final(self)@ == (EditorView {
                lines: old(self)@.lines.update(at as int, content@),
                ..old(self)@
            }),
            final(self).name == old(self).name,
            final(self).is_new == old(self).is_new,
    {
        self.lines.set(at, content);
        proof {
            assert(self@.lines =~= old(self)@.lines.update(at as int, content@));
        }
    }

    /// Types a character.
    pub fn insert_char(&mut self, ch: char)
        requires
            old(self)@.wf(),
        ensures
            final(self)@ == inserted(old(self)@, ch),
            final(self)@.wf(),
            final(self).name == old(self).name,
            final(self).is_new == old(self).is_new,
    {
        let ghost v = self@;
        let at: usize = self.line;
        let mut chars: Vec<char> = text::chars_of(self.lines[at].as_str());
        if ch == '\n' {
            let count: usize = chars.len();
            let head: String = text::part_text(chars.as_slice(), 0, self.col);
            let rest: String = text::part_text(chars.as_slice(), self.col, count);
            self.set_line(at, head);
            let ghost before = self@;
            let lines: usize = self.lines.len();
            proof {
                assert(before.lines.len() == lines);
            }
            self.lines.insert(at + 1, rest);
            let _count: usize = self.lines.len();
            self.line = at + 1;
            self.col = 0;
            proof {
                let here = v.current();
                assert(here.subrange(0, v.col) =~= here.take(v.col));
                assert(here.subrange(v.col, here.len() as int) =~= here.skip(v.col));
                assert(self@.lines =~= before.lines.insert(v.line + 1, rest@));
            }
        } else {
            chars.insert(self.col, ch);
            let _count: usize = chars.len();
            self.set_line(at, text::string_of(chars.as_slice()));
            self.col = self.col + 1;
        }
    }

    /// Takes out the character before the cursor.
    pub fn backspace(&mut self)
        requires
            old(self)@.wf(),
        ensures
            final(self)@ == backspaced(old(self)@),
            final(self)@.wf(),
            final(self).name == old(self).name,
            final(self).is_new == old(self).is_new,
    {
        let ghost v = self@;
        let at: usize = self.line;
        if self.col > 0 {
            let mut chars: Vec<char> = text::chars_of(self.lines[at].as_str());
            let _gone: char = chars.remove(self.col - 1);
            self.set_line(at, text::string_of(chars.as_slice()));
            self.col = self.col - 1;
        } else if at > 0 {
            let here: String = self.lines.remove(at);
            let ghost shorter = self@;
            proof {
                assert(shorter.lines =~= v.lines.remove(v.line));
            }
            self.line = at - 1;
            let mut above: String = self.lines[at - 1].clone();
            self.col = text::chars_of(above.as_str()).len();
            above.append(here.as_str());
            self.set_line(at - 1, above);
        }
    }

    /// Takes out the character behind the cursor.
    pub fn delete(&mut self)
        requires
            old(self)@.wf(),
        ensures
            final(self)@ == deleted(old(self)@),
            final(self)@.wf(),
            final(self).name == old(self).name,
            final(self).is_new == old(self).is_new,
    {
        let ghost v = self@;
        let at: usize = self.line;
        if self.col < self.line_len(at) {
            let mut chars: Vec<char> = text::chars_of(self.lines[at].as_str());
            let _gone: char = chars.remove(self.col);
            self.set_line(at, text::string_of(chars.as_slice()));
        } else if at < self.lines.len() - 1 {
            let next: String = self.lines.remove(at + 1);
            proof {
                assert(self@.lines =~= v.lines.remove(v.line + 1));
            }
            let mut here: String = self.lines[at].clone();
            here.append(next.as_str());
            self.set_line(at, here);
        }
    }

    pub fn move_left(&mut self)
        requires
            old(self)@.wf(),
        ensures
            final(self)@ == moved_left(old(self)@),
            final(self)@.wf(),
            final(self).name == old(self).name,
            final(self).is_new == old(self).is_new,
    {
        if self.col > 0 {
            self.col = self.col - 1;
        } else if self.line > 0 {
            self.line = self.line - 1;
            self.col = self.line_len(self.line);
        }
    }

    pub fn move_right(&mut self)
        requires
            old(self)@.wf(),
        ensures
            final(self)@ == moved_right(old(self)@),
            final(self)@.wf(),
            final(self).name == old(self).name,
            final(self).is_new == old(self).is_new,
    {
        if self.col < self.line_len(self.line) {
            self.col = self.col + 1;
        } else if self.line < self.lines.len() - 1 {
            self.line = self.line + 1;
            self.col = 0;
        }
    }

    fn go_to_line(&mut self, line: usize)
        requires
            old(self)@.wf(),
            line < old(self)@.lines.len(),
        ensures
            final(self)@ == in_line(old(self)@, line as int),
            final(self)@.wf(),
            final(self).name == old(self).name,
            final(self).is_new == old(self).is_new,
    {
        self.line = line;
        let len: usize = self.line_len(line);
        if self.col > len {
            self.col = len;
        }
    }

    pub fn move_up(&mut self)
        requires
            old(self)@.wf(),
        ensures
            final(self)@ == moved_up(old(self)@),
            final(self)@.wf(),
            final(self).name == old(self).name,
            final(self).is_new == old(self).is_new,
    {
        if self.line > 0 {
            self.go_to_line(self.line - 1);
        }
    }

    pub fn move_down(&mut self)
        requires
            old(self)@.wf(),
        ensures
            final(self)@ == moved_down(old(self)@),
            final(self)@.wf(),
            final(self).name == old(self).name,
            final(self).is_new == old(self).is_new,
    {
        if self.line < self.lines.len() - 1 {
            self.go_to_line(self.line + 1);
        }
    }

    pub fn move_home(&mut self)
        requires
            old(self)@.wf(),
        ensures
            final(self)@ == (EditorView { col: 0, ..old(self)@ }),
            final(self)@.wf(),
            final(self).name == old(self).name,
            final(self).is_new == old(self).is_new,
    {
        self.col = 0;
    }

    pub fn move_end(&mut self)
        requires
            old(self)@.wf(),
        ensures
            final(self)@ == (EditorView {
                col: old(self)@.current().len() as int,
                ..old(self)@
            }),
            final(self)@.wf(),
            final(self).name == old(self).name,
            final(self).is_new == old(self).is_new,
    {
        self.col = self.line_len(self.line);
    }

    /// Does what a key means, and says whether the editor is left by it.
    pub fn press(&mut self, key: Key) -> (out: Leaving)
        requires
            old(self)@.wf(),
        ensures
            (final(self)@, out) == pressed(old(self)@, key),
            final(self)@.wf(),
            final(self).name == old(self).name,
            final(self).is_new == old(self).is_new,
    {
        match key.code {
            KeyCode::Char(c) => {
                if key.ctrl && c == 's' {
                    return Leaving::Save;
                }
                if !control(c) {
                    self.insert_char(c);
                }
            },
            KeyCode::Esc => return Leaving::Cancel,
            KeyCode::Up => self.move_up(),
            KeyCode::Down => self.move_down(),
            KeyCode::Left => self.move_left(),
            KeyCode::Right => self.move_right(),
            KeyCode::Home => self.move_home(),
            KeyCode::End => self.move_end(),
            KeyCode::Enter => self.insert_char('\n'),
            KeyCode::Backspace => self.backspace(),
            KeyCode::Delete => self.delete(),
            _ => {},
        }
        Leaving::Stay
    }
}

/// How the editor for templates is left.
#[derive(Clone, Copy, Debug, PartialEq, Eq, Structural)]
pub enum Leaving {
    Stay,
    Save,
    Cancel,
}

/// The editor after a key, and whether it is left.
pub open spec fn pressed(v: EditorView, key: Key) -> (EditorView, Leaving) {
    match key.code {
        KeyCode::Char(c) => if key.ctrl && c == 's' {
            (v, Leaving::Save)
        } else if is_control(c) {
            (v, Leaving::Stay)
        } else {
            (inserted(v, c), Leaving::Stay)
        },
        KeyCode::Esc => (v, Leaving::Cancel),
        KeyCode::Up => (moved_up(v), Leaving::Stay),
        KeyCode::Down => (moved_down(v), Leaving::Stay),
        KeyCode::Left => (moved_left(v), Leaving::Stay),
        KeyCode::Right => (moved_right(v), Leaving::Stay),
        KeyCode::Home => (EditorView { col: 0, ..v }, Leaving::Stay),
        KeyCode::End => (EditorView { col: v.current().len() as int, ..v }, Leaving::Stay),
        KeyCode::Enter => (inserted(v, '\n'), Leaving::Stay),
        KeyCode::Backspace => (backspaced(v), Leaving::Stay),
        KeyCode::Delete => (deleted(v), Leaving::Stay),
        _ => (v, Leaving::Stay),
    }
}

/// What was typed can be taken back, a line break too.
pub proof fn backspace_takes_back(v: EditorView, c: char)
    requires
        v.wf(),
    ensures
        backspaced(inserted(v, c)) == v,
{
    let here = v.current();
    let typed = inserted(v, c);
    let back = backspaced(typed);
    if c == '\n' {
        assert(typed.lines[v.line] == here.take(v.col));
        assert(typed.lines[v.line + 1] == here.skip(v.col));
        assert(here.take(v.col) + here.skip(v.col) =~= here);
        assert(back.lines =~= v.lines);
    } else {
        assert(here.insert(v.col, c).remove(v.col) =~= here);
        assert(back.lines =~= v.lines);
    }
}

/// Joining the lines of a text gives the text back.
pub proof fn lines_join_to_the_text(s: Seq<char>)
    ensures
        text::joined(text::split_of(s, '\n'), "\n"@) == s,
    decreases s.len(),
{
    reveal_strlit("\n");
    let n = text::find_of(s, '\n') as int;
    text::lemma_run(s, text::other_than('\n'));
    let parts = text::split_of(s, '\n');
    if n >= s.len() {
        assert(parts =~= seq![s]);
    } else {
        let rest = s.skip(n + 1);
        lines_join_to_the_text(rest);
        text::lemma_split_nonempty(rest, '\n');
        let first = seq![s.take(n)];
        let more = text::split_of(rest, '\n');
        lemma_joined_parts(first, more, "\n"@);
        assert(text::joined(first, "\n"@) =~= s.take(n));
        assert(s.take(n) + "\n"@ + rest =~= s);
    }
}

/// Joining two lists of texts, one behind the other.
pub proof fn lemma_joined_parts(a: Seq<Seq<char>>, b: Seq<Seq<char>>, sep: Seq<char>)
    requires
        a.len() > 0,
        b.len() > 0,
    ensures
        text::joined(a + b, sep) == text::joined(a, sep) + sep + text::joined(b, sep),
    decreases b.len(),
{
    let all = a + b;
    assert(all.last() == b.last());
    assert(all.drop_last() =~= a + b.drop_last());
    if b.len() == 1 {
        assert(a + b.drop_last() =~= a);
    } else {
        lemma_joined_parts(a, b.drop_last(), sep);
        assert(text::joined(all, sep) =~= text::joined(a, sep) + sep + text::joined(
            b.drop_last(),
            sep,
        ) + sep + b.last());
        assert(text::joined(a, sep) + sep + text::joined(b.drop_last(), sep) + sep + b.last()
            =~= text::joined(a, sep) + sep + (text::joined(b.drop_last(), sep) + sep + b.last()));
    }
}

/// What stands before one of some lines, in the joined text.
pub open spec fn before_line(lines: Seq<Seq<char>>, at: int) -> Seq<char> {
    if at == 0 {
        seq![]
    } else {
        text::joined(lines.take(at), "\n"@) + "\n"@
    }
}

/// What stands behind one of some lines, in the joined text.
pub open spec fn behind_line(lines: Seq<Seq<char>>, at: int) -> Seq<char> {
    if at + 1 >= lines.len() {
        seq![]
    } else {
        "\n"@ + text::joined(lines.skip(at + 1), "\n"@)
    }
}

proof fn lemma_around(lines: Seq<Seq<char>>, at: int)
    requires
        0 <= at < lines.len(),
    ensures
        text::joined(lines, "\n"@) == before_line(lines, at) + lines[at] + behind_line(lines, at),
{
    let sep = "\n"@;
    let front = lines.take(at);
    let here = seq![lines[at]];
    let back = lines.skip(at + 1);
    assert(text::joined(here, sep) == lines[at]);
    let rest = here + back;
    assert(lines =~= front + rest);
    if back.len() > 0 {
        lemma_joined_parts(here, back, sep);
    } else {
        assert(rest =~= here);
    }
    assert(text::joined(rest, sep) =~= lines[at] + behind_line(lines, at));
    if front.len() > 0 {
        lemma_joined_parts(front, rest, sep);
    } else {
        assert(lines =~= rest);
    }
    assert(text::joined(lines, sep) =~= before_line(lines, at) + lines[at] + behind_line(
        lines,
        at,
    ));
}

/// Typing puts the character into the text where the cursor stands, and moves the cursor
/// behind it.
pub proof fn typing_inserts_at_the_cursor(v: EditorView, c: char)
    requires
        v.wf(),
    ensures
        inserted(v, c).content() == v.content().insert(v.offset(), c),
        inserted(v, c).offset() == v.offset() + 1,
{
    reveal_strlit("\n");
    let here = v.current();
    let typed = inserted(v, c);
    lemma_around(v.lines, v.line);
    let front = before_line(v.lines, v.line);
    let back = behind_line(v.lines, v.line);
    assert(v.offset() == front.len() + v.col);
    let whole = front + here + back;
    assert(v.content() == whole);
    if c == '\n' {
        let head = here.take(v.col);
        let rest = here.skip(v.col);
        lemma_around(typed.lines, v.line + 1);
        assert(typed.lines.skip(v.line + 2) =~= v.lines.skip(v.line + 1));
        assert(behind_line(typed.lines, v.line + 1) == back);
        let upper = typed.lines.take(v.line + 1);
        lemma_around(upper, v.line);
        assert(upper.take(v.line) =~= v.lines.take(v.line));
        assert(upper[v.line] == head);
        assert(text::joined(upper, "\n"@) =~= front + head);
        assert(typed.content() =~= front + head + "\n"@ + rest + back);
        assert(whole.insert(v.offset(), c) =~= front + head + "\n"@ + rest + back);
    } else {
        lemma_around(typed.lines, v.line);
        assert(typed.lines.take(v.line) =~= v.lines.take(v.line));
        assert(typed.lines.skip(v.line + 1) =~= v.lines.skip(v.line + 1));
        assert(typed.content() =~= front + here.insert(v.col, c) + back);
        assert(whole.insert(v.offset(), c) =~= front + here.insert(v.col, c) + back);
    }
}

/// How far a text with `total` rows is scrolled after a key; `None` where the key does not
/// scroll.
pub open spec fn scrolled(scroll: u16, total: u16, key: Key) -> Option<int> {
    let last = if total > 0 {
        total - 1
    } else {
        0
    };
    let up = |n: int|
        if scroll >= n {
            scroll - n
        } else {
            0
        };
    let down = |n: int|
        if scroll + n <= last {
            scroll + n
        } else {
            last
        };
    match key.code {
        KeyCode::Up => Some(up(1)),
        KeyCode::Char(c) => if c == 'k' {
            Some(up(1))
        } else if c == 'j' {
            Some(down(1))
        } else if c == ' ' {
            Some(down(10))
        } else {
            None
        },
        KeyCode::Down => Some(down(1)),
        KeyCode::PageUp => Some(up(10)),
        KeyCode::PageDown => Some(down(10)),
        KeyCode::Home => Some(0),
        KeyCode::End => Some(last),
        _ => None,
    }
}

pub fn scroll_by(scroll: u16, total: u16, key: Key) -> (out: Option<u16>)
    ensures
        match (out, scrolled(scroll, total, key)) {
            (Some(a), Some(b)) => a == b,
            (None, None) => true,
            _ => false,
        },
{
    let last: u16 = if total > 0 {
        total - 1
    } else {
        0
    };
    let up: u16 = if scroll >= 1 {
        scroll - 1
    } else {
        0
    };
    let down: u16 = if scroll < last {
        scroll + 1
    } else {
        last
    };
    let page_up: u16 = if scroll >= 10 {
        scroll - 10
    } else {
        0
    };
    let page_down: u16 = if last >= 10 && scroll <= last - 10 {
        scroll + 10
    } else {
        last
    };
    match key.code {
        KeyCode::Up => Some(up),
        KeyCode::Char(c) => if c == 'k' {
            Some(up)
        } else if c == 'j' {
            Some(down)
        } else if c == ' ' {
            Some(page_down)
        } else {
            None
        },
        KeyCode::Down => Some(down),
        KeyCode::PageUp => Some(page_up),
        KeyCode::PageDown => Some(page_down),
        KeyCode::Home => Some(0),
        KeyCode::End => Some(last),
        _ => None,
    }
}

/// How many rows of 80 characters a line takes.
pub open spec fn rows_of(line: Seq<char>) -> nat {
    if line.len() == 0 {
        1
    } else {
        (line.len() + 79) / 80
    }
}

/// How many rows the first `n` lines take.
pub open spec fn all_rows(lines: Seq<Seq<char>>, n: nat) -> nat
    decreases n,
{
    if n == 0 {
        0
    } else {
        all_rows(lines, (n - 1) as nat) + rows_of(lines[n - 1])
    }
}

/// How many rows of 80 characters a text takes, at most as many as can be scrolled.
pub fn card_rows(s: &str) -> (out: u16)
    ensures
        out == {
            let rows = all_rows(text::lines_of(s@), text::lines_of(s@).len());
            if rows <= u16::MAX {
                rows
            } else {
                u16::MAX as nat
            }
        },
{
    let lines: Vec<String> = text::lines(s);
    let ghost all = text::lines_of(s@);
    let mut total: u16 = 0;
    let mut i: usize = 0;
    while i < lines.len()
        invariant
            i <= lines@.len(),
            all == text::views(lines@),
            total == {
                let rows = all_rows(all, i as nat);
                if rows <= u16::MAX {
                    rows
                } else {
                    u16::MAX as nat
                }
            },
        decreases lines@.len() - i,
    {
        proof {
            assert(all[i as int] == lines@[i as int]@);
        }
        let count: usize = text::chars_of(lines[i].as_str()).len();
        let rows: usize = if count == 0 {
            1
        } else {
            (count - 1) / 80 + 1
        };
        if rows <= (u16::MAX - total) as usize {
            total = total + rows as u16;
        } else {
            total = u16::MAX;
        }
        i += 1;
    }
    total
}

} // verus!
