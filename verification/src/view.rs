//! What the front end shows: model cards, log lines, labels and the state of a download.
use vstd::prelude::*;

use crate::commands;
use crate::editing::{Line, LineView};
use crate::figures;
use crate::huggingface::DownloadEvent;
use crate::metadata;
use crate::models::{Model, ModelKind, ModelView};
use crate::pattern;
use crate::process;
use crate::process::TooLarge;
use crate::profiles;
use crate::table;
use crate::table::Table;
use crate::text;

verus! {

/// How a piece of a model card is shown.
#[derive(Clone, Copy, Debug, PartialEq, Eq, Structural)]
pub enum SpanStyle {
    Text,
    Bold,
    Code,
    Link,
    Bullet,
}

/// What a line of a model card is.
#[derive(Clone, Copy, Debug, PartialEq, Eq, Structural)]
pub enum LineStyle {
    Heading,
    Fence,
    Quote,
    Item,
    Rule,
    Body,
}

pub type Spans = Seq<(Seq<char>, SpanStyle)>;

pub open spec fn span_views(spans: Seq<(String, SpanStyle)>) -> Spans {
    spans.map_values(|s: (String, SpanStyle)| (s.0@, s.1))
}

/// Markup inside a line: bold text, code and links.
pub open spec fn inline_expression() -> Seq<char> {
    r"(\*\*([^*]+)\*\*|__([^_]+)__|`([^`]+)`|\[([^\]]+)\]\(([^)]+)\))"@
}

/// What a group of a match holds.
pub open spec fn group_in(groups: pattern::Groups, n: int) -> Option<Seq<char>> {
    if 0 <= n < groups.len() {
        groups[n]
    } else {
        None
    }
}

/// What a match is shown as.
pub open spec fn span_of(groups: pattern::Groups) -> Spans {
    if group_in(groups, 2) is Some {
        seq![(group_in(groups, 2)->Some_0, SpanStyle::Bold)]
    } else if group_in(groups, 3) is Some {
        seq![(group_in(groups, 3)->Some_0, SpanStyle::Bold)]
    } else if group_in(groups, 4) is Some {
        seq![(group_in(groups, 4)->Some_0, SpanStyle::Code)]
    } else if group_in(groups, 5) is Some {
        seq![(group_in(groups, 5)->Some_0, SpanStyle::Link)]
    } else {
        seq![]
    }
}

/// The pieces up to the end of the first `n` matches, and where the last one ends.
pub open spec fn spans_upto(s: Seq<char>, matches: Seq<pattern::Groups>, n: nat) -> (Spans, int)
    decreases n,
{
    if n == 0 {
        (seq![], 0)
    } else {
        let (spans, end) = spans_upto(s, matches, (n - 1) as nat);
        let whole = pattern::group_of(matches[n - 1], 0);
        let start = text::find_piece_of(s, whole, end);
        let plain: Spans = if start > end {
            seq![(s.subrange(end, start), SpanStyle::Text)]
        } else {
            seq![]
        };
        (
            spans + plain + span_of(matches[n - 1]),
            if start + whole.len() <= s.len() {
                start + whole.len()
            } else {
                s.len() as int
            },
        )
    }
}

/// The pieces of a line with markup, its matches being given.
pub open spec fn spans_from(s: Seq<char>, matches: Option<Seq<pattern::Groups>>) -> Spans {
    let found = match matches {
        Some(m) => m,
        None => seq![],
    };
    let (spans, end) = spans_upto(s, found, found.len());
    let all = if end < s.len() {
        spans.push((s.skip(end), SpanStyle::Text))
    } else {
        spans
    };
    if all.len() == 0 {
        seq![(""@, SpanStyle::Text)]
    } else {
        all
    }
}

/// The pieces of a line with markup.
pub open spec fn spans_of(s: Seq<char>) -> Spans {
    spans_from(s, pattern::captured(inline_expression(), s))
}

fn add_span(out: &mut Vec<(String, SpanStyle)>, s: String, style: SpanStyle)
    ensures
        span_views(final(out)@) == span_views(old(out)@).push((s@, style)),
{
    out.push((s, style));
    proof {
        assert(span_views(out@) =~= span_views(old(out)@).push((s@, style)));
    }
}

fn group_text(groups: &Vec<Option<String>>, n: usize) -> (out: Option<String>)
    ensures
        metadata::text_view(out) == group_in(pattern::group_views(groups@), n as int),
{
    if n < groups.len() {
        match &groups[n] {
            Some(s) => Some(s.clone()),
            None => None,
        }
    } else {
        None
    }
}

fn add_match(out: &mut Vec<(String, SpanStyle)>, groups: &Vec<Option<String>>)
    ensures
        span_views(final(out)@) == span_views(old(out)@) + span_of(pattern::group_views(groups@)),
{
    let ghost before = span_views(out@);
    match group_text(groups, 2) {
        Some(s) => add_span(out, s, SpanStyle::Bold),
        None => match group_text(groups, 3) {
            Some(s) => add_span(out, s, SpanStyle::Bold),
            None => match group_text(groups, 4) {
                Some(s) => add_span(out, s, SpanStyle::Code),
                None => match group_text(groups, 5) {
                    Some(s) => add_span(out, s, SpanStyle::Link),
                    None => {},
                },
            },
        },
    }
    proof {
        assert(span_views(out@) =~= before + span_of(pattern::group_views(groups@)));
    }
}

/// The pieces of a line, the matches of its markup being given.
pub fn card_spans(s: &str, found: &Option<Vec<Vec<Option<String>>>>) -> (out: Vec<
    (String, SpanStyle),
>)
    ensures
        span_views(out@) == spans_from(s@, process::found_views(*found)),
{
    let chars: Vec<char> = text::chars_of(s);
    let mut out: Vec<(String, SpanStyle)> = Vec::new();
    let mut end: usize = 0;
    let ghost all = match process::found_views(*found) {
        Some(m) => m,
        None => seq![],
    };
    proof {
        assert(span_views(out@) =~= seq![]);
    }
    match found {
        Some(matches) => {
            let mut i: usize = 0;
            while i < matches.len()
                invariant
                    i <= matches@.len(),
                    chars@ == s@,
                    end <= chars@.len(),
                    all == pattern::match_views(matches@),
                    (span_views(out@), end as int) == spans_upto(s@, all, i as nat),
                decreases matches@.len() - i,
            {
                proof {
                    assert(all[i as int] == pattern::group_views(matches@[i as int]@));
                }
                let whole: String = pattern::group(&matches[i], 0);
                let piece: Vec<char> = text::chars_of(whole.as_str());
                let start: usize = text::find_piece(chars.as_slice(), piece.as_slice(), end);
                let ghost before = span_views(out@);
                if start > end {
                    add_span(
                        &mut out,
                        text::part_text(chars.as_slice(), end, start),
                        SpanStyle::Text,
                    );
                }
                proof {
                    let plain: Spans = if start > end {
                        seq![(s@.subrange(end as int, start as int), SpanStyle::Text)]
                    } else {
                        seq![]
                    };
                    assert(span_views(out@) =~= before + plain);
                }
                add_match(&mut out, &matches[i]);
                end = if piece.len() <= chars.len() - start {
                    start + piece.len()
                } else {
                    chars.len()
                };
                i += 1;
            }
        },
        None => {},
    }
    if end < chars.len() {
        let tail: String = text::part_text(chars.as_slice(), end, chars.len());
        proof {
            assert(tail@ =~= s@.skip(end as int));
        }
        add_span(&mut out, tail, SpanStyle::Text);
    }
    proof {
        assert(span_views(out@).len() == out@.len());
    }
    if out.len() == 0 {
        add_span(&mut out, "".to_owned(), SpanStyle::Text);
        proof {
            assert(span_views(out@) =~= seq![(""@, SpanStyle::Text)]);
        }
    }
    out
}

fn inline_spans(s: &str) -> (out: Vec<(String, SpanStyle)>)
    ensures
        span_views(out@) == spans_of(s@),
{
    let found: Option<Vec<Vec<Option<String>>>> = pattern::captures(
        r"(\*\*([^*]+)\*\*|__([^_]+)__|`([^`]+)`|\[([^\]]+)\]\(([^)]+)\))",
        s,
    );
    card_spans(s, &found)
}

/// How a line of a model card is shown.
pub open spec fn card_line_of(line: Seq<char>) -> (LineStyle, Spans) {
    let s = text::trim_start_of(line);
    if s.len() > 0 && s[0] == '#' {
        (LineStyle::Heading, spans_of(text::trim_of(text::without_front(s, '#'))))
    } else if "```"@.is_prefix_of(s) {
        let inner = text::without_end(text::without_front(s, '`'), '`');
        (LineStyle::Fence, seq![(text::trim_of(inner), SpanStyle::Text)])
    } else if s.len() > 0 && s[0] == '>' {
        (LineStyle::Quote, spans_of(text::trim_start_of(s.skip(1))))
    } else if "- "@.is_prefix_of(s) || "* "@.is_prefix_of(s) || "+ "@.is_prefix_of(s) {
        (LineStyle::Item, seq![("- "@, SpanStyle::Bullet)] + spans_of(s.skip(2)))
    } else if s == "---"@ || s == "***"@ || s == "___"@ {
        (LineStyle::Rule, seq![(Seq::new(24, |i: int| '─'), SpanStyle::Text)])
    } else {
        (LineStyle::Body, spans_of(line))
    }
}

fn one_span(s: String) -> (out: Vec<(String, SpanStyle)>)
    ensures
        span_views(out@) == seq![(s@, SpanStyle::Text)],
{
    let mut out: Vec<(String, SpanStyle)> = Vec::new();
    out.push((s, SpanStyle::Text));
    proof {
        assert(span_views(out@) =~= seq![(s@, SpanStyle::Text)]);
    }
    out
}

fn rule() -> (out: String)
    ensures
        out@ == Seq::new(24, |i: int| '─'),
{
    let mut out: String = String::new();
    let mut i: usize = 0;
    while i < 24
        invariant
            i <= 24,
            out@ =~= Seq::new(i as nat, |i: int| '─'),
        decreases 24 - i,
    {
        out.push('─');
        i += 1;
    }
    out
}

/// How a line of a model card is shown.
pub fn model_card_line(line: &str) -> (out: (LineStyle, Vec<(String, SpanStyle)>))
    ensures
        (out.0, span_views(out.1@)) == card_line_of(line@),
{
    let s: String = text::trim_start(line);
    let chars: Vec<char> = text::chars_of(s.as_str());
    proof {
        reveal_strlit("- ");
        reveal_strlit("* ");
        reveal_strlit("+ ");
    }
    if chars.len() > 0 && chars[0] == '#' {
        let inner: String = text::strip_front(s.as_str(), '#');
        return (LineStyle::Heading, inline_spans(text::trim(inner.as_str()).as_str()));
    }
    if text::starts_with(s.as_str(), "```") {
        let front: String = text::strip_front(s.as_str(), '`');
        let inner: String = text::strip_end(front.as_str(), '`');
        return (LineStyle::Fence, one_span(text::trim(inner.as_str())));
    }
    if chars.len() > 0 && chars[0] == '>' {
        let rest: String = text::part_text(chars.as_slice(), 1, chars.len());
        proof {
            assert(rest@ =~= s@.skip(1));
        }
        return (LineStyle::Quote, inline_spans(text::trim_start(rest.as_str()).as_str()));
    }
    if text::starts_with(s.as_str(), "- ") || text::starts_with(s.as_str(), "* ")
        || text::starts_with(s.as_str(), "+ ") {
        let rest: String = text::part_text(chars.as_slice(), 2, chars.len());
        proof {
            assert(rest@ =~= s@.skip(2));
        }
        let mut out: Vec<(String, SpanStyle)> = Vec::new();
        proof {
            assert(span_views(out@) =~= seq![]);
        }
        add_span(&mut out, "- ".to_owned(), SpanStyle::Bullet);
        let ghost before = span_views(out@);
        let mut more: Vec<(String, SpanStyle)> = inline_spans(rest.as_str());
        let ghost added = span_views(more@);
        out.append(&mut more);
        proof {
            assert(span_views(out@) =~= before + added);
            assert(before =~= seq![("- "@, SpanStyle::Bullet)]);
        }
        return (LineStyle::Item, out);
    }
    if text::same(s.as_str(), "---") || text::same(s.as_str(), "***") || text::same(
        s.as_str(),
        "___",
    ) {
        return (LineStyle::Rule, one_span(rule()));
    }
    (LineStyle::Body, inline_spans(line))
}

/// A text that moves through a place too narrow for it, `millis` after it started.
pub open spec fn marquee_of(s: Seq<char>, width: nat, millis: nat) -> Seq<char> {
    if width <= 1 || s.len() < width {
        s
    } else {
        let cycle = s.len() + 4;
        let offset = (millis / 250) % cycle;
        Seq::new(
            (width - 1) as nat,
            |i: int|
                {
                    let at = (offset + i) % (cycle as int);
                    if at < s.len() {
                        s[at]
                    } else {
                        ' '
                    }
                },
        )
    }
}

pub fn marquee_text(s: &str, width: usize, millis: u64) -> (out: String)
    ensures
        out@ == marquee_of(s@, width as nat, millis as nat),
{
    let chars: Vec<char> = text::chars_of(s);
    if width <= 1 || chars.len() < width {
        return s.to_owned();
    }
    let count: usize = chars.len();
    let cycle: u128 = count as u128 + 4;
    let offset: u128 = (millis as u128 / 250) % cycle;
    let ghost want = marquee_of(s@, width as nat, millis as nat);
    let mut out: String = String::new();
    let mut i: usize = 0;
    while i < width - 1
        invariant
            i < width,
            1 < width <= chars@.len(),
            chars@ == s@,
            count == chars@.len(),
            cycle == count + 4,
            offset == (millis as nat / 250) % (s@.len() + 4),
            offset < cycle,
            want == marquee_of(s@, width as nat, millis as nat),
            out@ == want.take(i as int),
        decreases width - i,
    {
        let at: u128 = (offset + i as u128) % cycle;
        if at < count as u128 {
            out.push(chars[at as usize]);
        } else {
            out.push(' ');
        }
        proof {
            assert(want.take(i + 1) =~= want.take(i as int).push(want[i as int]));
        }
        i += 1;
    }
    proof {
        assert(want.take(want.len() as int) =~= want);
    }
    out
}

/// The characters of the sign that something is going on.
pub open spec fn spinner() -> Seq<char> {
    seq!['⠋', '⠙', '⠹', '⠸', '⠼', '⠴', '⠦', '⠧', '⠇', '⠏']
}

pub fn spinner_char(millis: u64) -> (out: char)
    ensures
        out == spinner()[(millis as int / 100) % 10],
{
    let signs: [char; 10] = ['⠋', '⠙', '⠹', '⠸', '⠼', '⠴', '⠦', '⠧', '⠇', '⠏'];
    signs[((millis / 100) % 10) as usize]
}

/// How a line of the log is shown.
#[derive(Clone, Copy, Debug, PartialEq, Eq, Structural)]
pub enum LogStyle {
    Error,
    Warning,
    Info,
    Plain,
}

/// How a line of the log is shown: by its level, or by words that tell of an error.
pub open spec fn log_style_of(line: Seq<char>) -> LogStyle {
    let lower = text::lower_of(line);
    if "[error]"@.is_prefix_of(lower) || text::holds(line, " E "@) {
        LogStyle::Error
    } else if "[warn]"@.is_prefix_of(lower) || text::holds(line, " W "@) {
        LogStyle::Warning
    } else if "[info]"@.is_prefix_of(lower) || text::holds(line, " I "@) {
        LogStyle::Info
    } else if text::holds(lower, "error"@) || text::holds(lower, "assert"@) || text::holds(
        lower,
        "✗"@,
    ) {
        LogStyle::Error
    } else {
        LogStyle::Plain
    }
}

pub fn log_line_style(line: &str) -> (out: LogStyle)
    ensures
        out == log_style_of(line@),
{
    let lower: String = text::to_lower(line);
    let lower: &str = lower.as_str();
    if text::starts_with(lower, "[error]") || text::contains(line, " E ") {
        LogStyle::Error
    } else if text::starts_with(lower, "[warn]") || text::contains(line, " W ") {
        LogStyle::Warning
    } else if text::starts_with(lower, "[info]") || text::contains(line, " I ") {
        LogStyle::Info
    } else if text::contains(lower, "error") || text::contains(lower, "assert") || text::contains(
        lower,
        "✗",
    ) {
        LogStyle::Error
    } else {
        LogStyle::Plain
    }
}

/// Whether a text is the time at the start of a line of the log: four numbers with dots
/// between them.
pub open spec fn is_timestamp(s: Seq<char>) -> bool {
    let parts = text::split_of(s, '.');
    parts.len() == 4 && forall|i: int|
        0 <= i < parts.len() ==> text::all_digits(#[trigger] parts[i])
}

/// The time of a line of the log, where it has one, and the rest of it.
pub open spec fn log_parts(line: Seq<char>) -> (Option<Seq<char>>, Seq<char>) {
    match text::split_once_of(line, ' ') {
        Some((time, message)) => if is_timestamp(time) {
            (Some(time), message)
        } else {
            (None, line)
        },
        None => (None, line),
    }
}

fn digits_only(s: &str) -> (yes: bool)
    ensures
        yes == text::all_digits(s@),
{
    let chars: Vec<char> = text::chars_of(s);
    if chars.len() == 0 {
        return false;
    }
    let mut i: usize = 0;
    while i < chars.len()
        invariant
            i <= chars@.len(),
            chars@ == s@,
            forall|j: int| 0 <= j < i ==> text::is_digit(#[trigger] s@[j]),
        decreases chars@.len() - i,
    {
        let c: char = chars[i];
        if !('0' <= c && c <= '9') {
            proof {
                assert(!text::is_digit(s@[i as int]));
            }
            return false;
        }
        i += 1;
    }
    true
}

fn timestamp(s: &str) -> (yes: bool)
    ensures
        yes == is_timestamp(s@),
{
    let parts: Vec<String> = text::split(s, '.');
    let ghost all = text::views(parts@);
    proof {
        assert(all.len() == parts@.len());
    }
    if parts.len() != 4 {
        return false;
    }
    let mut i: usize = 0;
    while i < parts.len()
        invariant
            i <= parts@.len(),
            all == text::views(parts@),
            all == text::split_of(s@, '.'),
            all.len() == 4,
            forall|j: int| 0 <= j < i ==> text::all_digits(#[trigger] all[j]),
        decreases parts@.len() - i,
    {
        proof {
            assert(all[i as int] == parts@[i as int]@);
        }
        if !digits_only(parts[i].as_str()) {
            proof {
                assert(!text::all_digits(all[i as int]));
            }
            return false;
        }
        i += 1;
    }
    true
}

/// Splits a line of the log into its time and the rest.
pub fn log_line(line: &str) -> (out: (Option<String>, String))
    ensures
        (metadata::text_view(out.0), out.1@) == log_parts(line@),
{
    match text::split_once(line, ' ') {
        Some((time, message)) => if timestamp(time.as_str()) {
            (Some(time), message)
        } else {
            (None, line.to_owned())
        },
        None => (None, line.to_owned()),
    }
}

/// Not standing behind a text, as a function.
pub open spec fn text_not_after(s: Seq<char>) -> spec_fn(Seq<char>) -> bool {
    |other: Seq<char>| !text::before(s, other)
}

/// The first `n` texts in order.
pub open spec fn in_order(list: Seq<Seq<char>>, n: nat) -> Seq<Seq<char>>
    decreases n,
{
    if n == 0 {
        seq![]
    } else {
        let earlier = in_order(list, (n - 1) as nat);
        earlier.insert(text::run(earlier, text_not_after(list[n - 1])) as int, list[n - 1])
    }
}

/// The runtimes that can be picked: the current one, the installed versions and those of
/// LM Studio, each in order, and the configured one where it is none of them.
pub open spec fn runtimes_of(
    managed: Seq<Seq<char>>,
    studio: Seq<Seq<char>>,
    configured: Seq<char>,
) -> Seq<Seq<char>> {
    let all = seq!["managed"@] + in_order(managed, managed.len()) + in_order(
        studio,
        studio.len(),
    );
    if all.contains(configured) {
        all
    } else {
        all.push(configured)
    }
}

pub fn sorted(list: &Vec<String>) -> (out: Vec<String>)
    ensures
        text::views(out@) == in_order(text::views(list@), list@.len()),
{
    let ghost all = text::views(list@);
    let mut out: Vec<String> = Vec::new();
    let mut i: usize = 0;
    proof {
        assert(text::views(out@) =~= seq![]);
    }
    while i < list.len()
        invariant
            i <= list@.len(),
            all == text::views(list@),
            text::views(out@) == in_order(all, i as nat),
        decreases list@.len() - i,
    {
        let item: String = list[i].clone();
        let ghost before = text::views(out@);
        proof {
            assert(all[i as int] == list@[i as int]@);
        }
        let mut at: usize = 0;
        while at < out.len()
            invariant_except_break
                at <= out@.len(),
                before == text::views(out@),
                before.len() == out@.len(),
                forall|j: int| 0 <= j < at ==> !text::before(item@, #[trigger] before[j]),
            ensures
                at <= out@.len(),
                before == text::views(out@),
                before.len() == out@.len(),
                forall|j: int| 0 <= j < at ==> !text::before(item@, #[trigger] before[j]),
                at < out@.len() ==> text::before(item@, before[at as int]),
            decreases out@.len() - at,
        {
            proof {
                assert(before[at as int] == out@[at as int]@);
            }
            if text::comes_before(item.as_str(), out[at].as_str()) {
                break ;
            }
            at += 1;
        }
        proof {
            text::lemma_run_unique(before, text_not_after(item@), at as int);
        }
        out.insert(at, item);
        proof {
            assert(text::views(out@) =~= before.insert(at as int, item@));
        }
        i += 1;
    }
    out
}

/// The runtimes that can be picked.
pub fn available_runtimes(managed: &Vec<String>, studio: &Vec<String>, configured: &str) -> (out:
    Vec<String>)
    ensures
        text::views(out@) == runtimes_of(
            text::views(managed@),
            text::views(studio@),
            configured@,
        ),
{
    let mut out: Vec<String> = Vec::new();
    process::add(&mut out, "managed");
    proof {
        assert(text::views(out@) =~= seq!["managed"@]);
    }
    process::add_all(&mut out, sorted(managed).as_slice());
    process::add_all(&mut out, sorted(studio).as_slice());
    if !profiles::holds_text(&out, configured) {
        process::add(&mut out, configured);
    }
    out
}

/// The texts are in order: none comes before one that stands in front of it.
pub proof fn texts_are_in_order(list: Seq<Seq<char>>, n: nat)
    requires
        n <= list.len(),
    ensures
        in_order(list, n).len() == n,
        forall|i: int, j: int|
            0 <= i < j < in_order(list, n).len() ==> !text::before(
                #[trigger] in_order(list, n)[j],
                #[trigger] in_order(list, n)[i],
            ),
    decreases n,
{
    if n > 0 {
        texts_are_in_order(list, (n - 1) as nat);
        let earlier = in_order(list, (n - 1) as nat);
        let item = list[n - 1];
        text::lemma_run(earlier, text_not_after(item));
        let at = text::run(earlier, text_not_after(item)) as int;
        let new = in_order(list, n);
        assert forall|i: int, j: int| 0 <= i < j < new.len() implies !text::before(
            #[trigger] new[j],
            #[trigger] new[i],
        ) by {
            let a = if i < at {
                i
            } else {
                i - 1
            };
            let b = if j < at {
                j
            } else {
                j - 1
            };
            if i != at {
                assert(new[i] == earlier[a]);
            }
            if j != at {
                assert(new[j] == earlier[b]);
            }
            if i != at && j != at {
                assert(!text::before(earlier[b], earlier[a]));
            } else if j == at {
                assert(text_not_after(item)(earlier[a]));
            } else {
                let next = earlier[at];
                assert(text::before(item, next));
                if text::before(new[j], item) {
                    text::lemma_before_transitive(new[j], item, next);
                    if b > at {
                        assert(!text::before(earlier[b], earlier[at]));
                    } else {
                        text::lemma_before_irreflexive(next);
                    }
                }
            }
        }
    }
}

/// What stands on the page for maintenance of a program: whether there is a newer version
/// of it, where that is known.
pub open spec fn update_label_of(name: Seq<char>, check: Option<(Seq<char>, bool)>) -> Seq<char> {
    match check {
        Some((tag, changed)) => if changed {
            "Update "@ + name + " → "@ + tag
        } else {
            name + " — current ("@ + tag + ")"@
        },
        None => "Update "@ + name,
    }
}

pub fn update_label(name: &str, check: Option<(&str, bool)>) -> (out: String)
    ensures
        out@ == update_label_of(
            name@,
            match check {
                Some((tag, changed)) => Some((tag@, changed)),
                None => None,
            },
        ),
{
    match check {
        Some((tag, changed)) => {
            if changed {
                let mut out: String = "Update ".to_owned();
                out.append(name);
                out.append(" → ");
                out.append(tag);
                out
            } else {
                let mut out: String = name.to_owned();
                out.append(" — current (");
                out.append(tag);
                out.append(")");
                out
            }
        },
        None => {
            let mut out: String = "Update ".to_owned();
            out.append(name);
            out
        },
    }
}

pub open spec fn freshness(changed: bool) -> Seq<char> {
    if changed {
        "update available"@
    } else {
        "current"@
    }
}

/// What is said after the versions were looked up.
pub fn update_notice(llama: &str, llama_changed: bool, swap: &str, swap_changed: bool) -> (out:
    String)
    ensures
        out@ == "llama.cpp "@ + llama@ + ": "@ + freshness(llama_changed) + " - llama-swap "@
            + swap@ + ": "@ + freshness(swap_changed),
{
    let mut out: String = "llama.cpp ".to_owned();
    out.append(llama);
    out.append(": ");
    out.append(
        if llama_changed {
            "update available"
        } else {
            "current"
        },
    );
    out.append(" - llama-swap ");
    out.append(swap);
    out.append(": ");
    out.append(
        if swap_changed {
            "update available"
        } else {
            "current"
        },
    );
    out
}

/// What the last line of the screen tells of.
pub enum Status {
    /// A value is typed.
    Prompt(String, Line),
    /// A profile is renamed.
    Rename(Line),
    /// Something is done in the background.
    Busy(String),
    Notice(String),
}

/// A line with a mark where its cursor stands.
pub open spec fn marked(line: LineView) -> Seq<char> {
    line.text.insert(line.cursor, '▏')
}

/// The last line of the screen.
pub open spec fn status_of(status: Status) -> Seq<char> {
    match status {
        Status::Prompt(label, line) => " "@ + label@ + ": "@ + marked(line@)
            + " - Enter confirm - Esc cancel"@,
        Status::Rename(line) => " RENAME PROFILE → "@ + marked(line@)
            + " - Enter confirm - Esc cancel"@,
        Status::Busy(label) => label@ + " …"@,
        Status::Notice(notice) => " "@ + notice@,
    }
}

fn mark(line: &Line) -> (out: String)
    requires
        line@.wf(),
    ensures
        out@ == marked(line@),
{
    let mut chars: Vec<char> = text::chars_of(line.text.as_str());
    chars.insert(line.cursor, '▏');
    text::string_of(chars.as_slice())
}

pub fn status_line(status: &Status) -> (out: String)
    requires
        match *status {
            Status::Prompt(_, line) => line@.wf(),
            Status::Rename(line) => line@.wf(),
            _ => true,
        },
    ensures
        out@ == status_of(*status),
{
    match status {
        Status::Prompt(label, line) => {
            let mut out: String = " ".to_owned();
            out.append(label.as_str());
            out.append(": ");
            out.append(mark(line).as_str());
            out.append(" - Enter confirm - Esc cancel");
            out
        },
        Status::Rename(line) => {
            let mut out: String = " RENAME PROFILE → ".to_owned();
            out.append(mark(line).as_str());
            out.append(" - Enter confirm - Esc cancel");
            out
        },
        Status::Busy(label) => {
            let mut out: String = label.clone();
            out.append(" …");
            out
        },
        Status::Notice(notice) => {
            let mut out: String = " ".to_owned();
            out.append(notice.as_str());
            out
        },
    }
}

/// Those of the first `n` places that hold models of a kind.
pub open spec fn places_of(models: Seq<Model>, places: Seq<usize>, main: bool, n: nat) -> Seq<usize>
    decreases n,
{
    if n == 0 {
        seq![]
    } else {
        let earlier = places_of(models, places, main, (n - 1) as nat);
        if (models[places[n - 1] as int].kind == ModelKind::Main) == main {
            earlier.push(places[n - 1])
        } else {
            earlier
        }
    }
}

fn list_places(models: &Vec<Model>, places: &Vec<usize>, main: bool) -> (out: Vec<usize>)
    requires
        forall|i: int| 0 <= i < places@.len() ==> #[trigger] places@[i] < models@.len(),
    ensures
        out@ == places_of(models@, places@, main, places@.len()),
{
    let mut out: Vec<usize> = Vec::new();
    let mut i: usize = 0;
    while i < places.len()
        invariant
            i <= places@.len(),
            forall|i: int| 0 <= i < places@.len() ==> #[trigger] places@[i] < models@.len(),
            out@ == places_of(models@, places@, main, i as nat),
        decreases places@.len() - i,
    {
        let at: usize = places[i];
        if (models[at].kind == ModelKind::Main) == main {
            out.push(at);
        }
        i += 1;
    }
    out
}

/// The rows of the page of models: the models to be served, then the drafts, and the row
/// that is selected. Where there are both, a title stands between them.
pub fn model_rows(models: &Vec<Model>, places: &Vec<usize>, selected: usize) -> (out: (
    Vec<usize>,
    Vec<usize>,
    usize,
))
    requires
        forall|i: int| 0 <= i < places@.len() ==> #[trigger] places@[i] < models@.len(),
        selected < usize::MAX,
    ensures
        out.0@ == places_of(models@, places@, true, places@.len()),
        out.1@ == places_of(models@, places@, false, places@.len()),
        out.2 == if out.0@.len() > 0 && out.1@.len() > 0 && selected >= out.0@.len() {
            selected + 1
        } else {
            selected as int
        },
{
    let mains: Vec<usize> = list_places(models, places, true);
    let drafts: Vec<usize> = list_places(models, places, false);
    let row: usize = if mains.len() > 0 && drafts.len() > 0 && selected >= mains.len() {
        selected + 1
    } else {
        selected
    };
    (mains, drafts, row)
}

/// What is shown of a download.
pub struct DownloadState {
    pub files: Table<u64>,
    pub progress: Table<u64>,
    pub baseline: Table<u64>,
    pub current: String,
    pub phase: String,
    pub retry: Option<String>,
    pub completed_files: usize,
    pub cancelling: bool,
}

#[verifier::ext_equal]
pub ghost struct DownloadView {
    pub files: Seq<(Seq<char>, u64)>,
    pub progress: Seq<(Seq<char>, u64)>,
    pub baseline: Seq<(Seq<char>, u64)>,
    pub current: Seq<char>,
    pub phase: Seq<char>,
    pub retry: Option<Seq<char>>,
    pub completed_files: int,
    pub cancelling: bool,
}

impl View for DownloadState {
    type V = DownloadView;

    open spec fn view(&self) -> DownloadView {
        DownloadView {
            files: self.files@,
            progress: self.progress@,
            baseline: self.baseline@,
            current: self.current@,
            phase: self.phase@,
            retry: metadata::text_view(self.retry),
            completed_files: self.completed_files as int,
            cancelling: self.cancelling,
        }
    }
}

/// What is shown of a download after something happened to it.
pub open spec fn after_event(d: DownloadView, event: DownloadEvent) -> DownloadView {
    match event {
        DownloadEvent::FileStarted { path, total } => DownloadView {
            current: path@,
            files: table::put(d.files, path@, total),
            phase: "Downloading model files…"@,
            retry: None,
            ..d
        },
        DownloadEvent::FileProgress { path, downloaded, total } => {
            let done = metadata::least(downloaded, total);
            DownloadView {
                current: path@,
                files: table::put(d.files, path@, total),
                baseline: if table::lookup(d.baseline, path@) is None {
                    table::put(d.baseline, path@, done)
                } else {
                    d.baseline
                },
                progress: table::put(d.progress, path@, done),
                ..d
            }
        },
        DownloadEvent::Verifying { path } => DownloadView {
            current: path@,
            phase: "Verifying SHA-256…"@,
            retry: None,
            ..d
        },
        DownloadEvent::Retrying { path, attempt, message } => DownloadView {
            current: path@,
            phase: "Retrying transfer - attempt "@ + text::decimal_of(attempt as nat),
            retry: Some(message@),
            ..d
        },
        DownloadEvent::FileDone { path, skipped } => {
            let noted = match table::lookup(d.files, path@) {
                Some(total) => DownloadView {
                    baseline: if skipped {
                        table::put(d.baseline, path@, total)
                    } else {
                        d.baseline
                    },
                    progress: table::put(d.progress, path@, total),
                    ..d
                },
                None => d,
            };
            DownloadView {
                completed_files: d.completed_files + 1,
                phase: if skipped {
                    "Existing verified file reused"@
                } else {
                    "File verified"@
                },
                retry: None,
                ..noted
            }
        },
        DownloadEvent::Finished(_) => d,
    }
}

impl DownloadState {
    /// Notes something that happened to the download.
    pub fn note(&mut self, event: &DownloadEvent)
        requires
            old(self).completed_files < usize::MAX,
        ensures
            final(self)@ == after_event(old(self)@, *event),
    {
        match event {
            DownloadEvent::FileStarted { path, total } => {
                self.current = path.clone();
                self.files.insert(path.clone(), *total);
                self.phase = "Downloading model files…".to_owned();
                self.retry = None;
            },
            DownloadEvent::FileProgress { path, downloaded, total } => {
                let done: u64 = if *downloaded <= *total {
                    *downloaded
                } else {
                    *total
                };
                self.current = path.clone();
                self.files.insert(path.clone(), *total);
                if !self.baseline.contains_key(path.as_str()) {
                    self.baseline.insert(path.clone(), done);
                }
                self.progress.insert(path.clone(), done);
            },
            DownloadEvent::Verifying { path } => {
                self.current = path.clone();
                self.phase = "Verifying SHA-256…".to_owned();
                self.retry = None;
            },
            DownloadEvent::Retrying { path, attempt, message } => {
                self.current = path.clone();
                let mut phase: String = "Retrying transfer - attempt ".to_owned();
                phase.append(text::decimal(*attempt as u64).as_str());
                self.phase = phase;
                self.retry = Some(message.clone());
            },
            DownloadEvent::FileDone { path, skipped } => {
                let total: Option<u64> = match self.files.get(path.as_str()) {
                    Some(n) => Some(*n),
                    None => None,
                };
                match total {
                    Some(n) => {
                        if *skipped {
                            self.baseline.insert(path.clone(), n);
                        }
                        self.progress.insert(path.clone(), n);
                    },
                    None => {},
                }
                self.completed_files = self.completed_files + 1;
                self.phase = if *skipped {
                    "Existing verified file reused".to_owned()
                } else {
                    "File verified".to_owned()
                };
                self.retry = None;
            },
            DownloadEvent::Finished(_) => {},
        }
    }
}

/// The sum of the first `n` numbers in a table.
pub open spec fn amount(list: Seq<(Seq<char>, u64)>, n: nat) -> nat
    decreases n,
{
    if n == 0 {
        0
    } else {
        amount(list, (n - 1) as nat) + list[n - 1].1 as nat
    }
}

/// What of a file was fetched by this download: what is there without what was there before.
pub open spec fn fetched_of(entry: (Seq<char>, u64), baseline: Seq<(Seq<char>, u64)>) -> nat {
    let before = metadata::or_default(table::lookup(baseline, entry.0), 0);
    if entry.1 >= before {
        (entry.1 - before) as nat
    } else {
        0
    }
}

/// What of the first `n` files was fetched by this download.
pub open spec fn fetched(
    progress: Seq<(Seq<char>, u64)>,
    baseline: Seq<(Seq<char>, u64)>,
    n: nat,
) -> nat
    decreases n,
{
    if n == 0 {
        0
    } else {
        fetched(progress, baseline, (n - 1) as nat) + fetched_of(progress[n - 1], baseline)
    }
}

proof fn lemma_amount_grows(list: Seq<(Seq<char>, u64)>, n: nat, more: nat)
    requires
        n <= more,
    ensures
        amount(list, n) <= amount(list, more),
    decreases more,
{
    if n < more {
        lemma_amount_grows(list, n, (more - 1) as nat);
    }
}

proof fn lemma_fetched_grows(
    progress: Seq<(Seq<char>, u64)>,
    baseline: Seq<(Seq<char>, u64)>,
    n: nat,
    more: nat,
)
    requires
        n <= more,
    ensures
        fetched(progress, baseline, n) <= fetched(progress, baseline, more),
    decreases more,
{
    if n < more {
        lemma_fetched_grows(progress, baseline, n, (more - 1) as nat);
    }
}

/// The sum of the numbers in a table.
pub fn sum_of(list: &Table<u64>) -> (out: Result<u64, TooLarge>)
    ensures
        match out {
            Ok(n) => n == amount(list@, list@.len()),
            Err(_) => amount(list@, list@.len()) > u64::MAX,
        },
{
    let mut sum: u64 = 0;
    let mut i: usize = 0;
    while i < list.len()
        invariant
            i <= list@.len(),
            sum == amount(list@, i as nat),
        decreases list@.len() - i,
    {
        proof {
            lemma_amount_grows(list@, (i + 1) as nat, list@.len());
        }
        sum = match sum.checked_add(*list.value_at(i)) {
            Some(n) => n,
            None => return Err(TooLarge),
        };
        i += 1;
    }
    Ok(sum)
}

/// What was fetched by a download.
pub fn transferred(d: &DownloadState) -> (out: Result<u64, TooLarge>)
    ensures
        ({
            let all = fetched(d@.progress, d@.baseline, d@.progress.len());
            match out {
                Ok(n) => n == all,
                Err(_) => all > u64::MAX,
            }
        }),
{
    let mut sum: u64 = 0;
    let mut i: usize = 0;
    while i < d.progress.len()
        invariant
            i <= d.progress@.len(),
            sum == fetched(d@.progress, d@.baseline, i as nat),
        decreases d.progress@.len() - i,
    {
        proof {
            lemma_fetched_grows(d@.progress, d@.baseline, (i + 1) as nat, d@.progress.len());
        }
        let before: u64 = match d.baseline.get(d.progress.key_at(i)) {
            Some(n) => *n,
            None => 0,
        };
        let now: u64 = *d.progress.value_at(i);
        let more: u64 = if now >= before {
            now - before
        } else {
            0
        };
        sum = match sum.checked_add(more) {
            Some(n) => n,
            None => return Err(TooLarge),
        };
        i += 1;
    }
    Ok(sum)
}

/// What the page of models shows of one.
pub open spec fn model_row(m: ModelView) -> Seq<Seq<char>> {
    seq![
        " "@ + m.id,
        figures::tenths_of(figures::quotient(m.bytes as nat, 0x4000_0000)) + "G"@,
        if m.kind != ModelKind::Main {
            "draft"@
        } else if m.vision {
            "vision"@
        } else {
            "text"@
        },
        m.relative,
    ]
}

pub fn model_cells(m: &Model) -> (out: Vec<String>)
    ensures
        text::views(out@) == model_row(m@),
{
    let mut out: Vec<String> = Vec::new();
    proof {
        assert(text::views(out@) =~= seq![]);
    }
    let mut id: String = " ".to_owned();
    id.append(m.id.as_str());
    process::add(&mut out, id.as_str());
    let mut size: String = figures::format_gib(m.bytes);
    size.append("G");
    process::add(&mut out, size.as_str());
    process::add(
        &mut out,
        if m.kind != ModelKind::Main {
            "draft"
        } else if m.vision {
            "vision"
        } else {
            "text"
        },
    );
    process::add(&mut out, m.relative.as_str());
    proof {
        assert(text::views(out@) =~= model_row(m@));
    }
    out
}

/// What the page of templates shows of one that is `bytes` long.
pub fn template_cells(name: &str, template: &str, bytes: u64) -> (out: Vec<String>)
    ensures
        text::views(out@) == seq![
            " "@ + name@,
            figures::bytes_text(bytes as nat),
            commands::preview_of(template@, 60),
        ],
{
    let mut out: Vec<String> = Vec::new();
    proof {
        assert(text::views(out@) =~= seq![]);
    }
    let mut first: String = " ".to_owned();
    first.append(name);
    process::add(&mut out, first.as_str());
    process::add(&mut out, figures::format_bytes(bytes).as_str());
    process::add(&mut out, commands::preview(template, 60).as_str());
    out
}

} // verus!
