//! Models on Hugging Face: which repositories and files are offered, what their cards
//! say, and how a file is fetched.
use vstd::prelude::*;
use vstd::utf8::*;

use crate::config;
use crate::gguf;
use crate::json;
use crate::json::{Json, JsonValue};
use crate::metadata;
use crate::models;
use crate::pattern;
use crate::process;
use crate::profiles;
use crate::table;
use crate::table::Table;
use crate::text;

verus! {

/// Why a repository is refused.
#[derive(Clone, Copy, Debug, PartialEq, Eq, Structural)]
pub enum RepoError {
    /// It is not an owner and a name.
    Invalid,
    /// It could lead elsewhere.
    Unsafe,
}

/// The owner and the name of a repository.
pub open spec fn repo_of(repo: Seq<char>) -> Result<(Seq<char>, Seq<char>), RepoError> {
    let parts = text::split_of(repo, '/');
    if parts.len() != 2 || parts[0].len() == 0 || parts[1].len() == 0 || parts[0] == "."@
        || parts[1] == "."@ {
        Err(RepoError::Invalid)
    } else if parts[0] == ".."@ || parts[1] == ".."@ || text::holds(parts[0], "\\"@) || text::holds(
        parts[1],
        "\\"@,
    ) {
        Err(RepoError::Unsafe)
    } else {
        Ok((parts[0], parts[1]))
    }
}

pub fn split_repo(repo: &str) -> (out: Result<(String, String), RepoError>)
    ensures
        match (out, repo_of(repo@)) {
            (Ok((a, b)), Ok((x, y))) => a@ == x && b@ == y,
            (Err(e), Err(f)) => e == f,
            _ => false,
        },
{
    let parts: Vec<String> = text::split(repo, '/');
    proof {
        assert(text::views(parts@).len() == parts@.len());
    }
    if parts.len() != 2 {
        return Err(RepoError::Invalid);
    }
    proof {
        assert(text::views(parts@)[0] == parts@[0]@);
        assert(text::views(parts@)[1] == parts@[1]@);
    }
    let owner: &str = parts[0].as_str();
    let name: &str = parts[1].as_str();
    if text::chars_of(owner).len() == 0 || text::chars_of(name).len() == 0 || text::same(owner, ".")
        || text::same(name, ".") {
        return Err(RepoError::Invalid);
    }
    if text::same(owner, "..") || text::same(name, "..") || text::contains(owner, "\\")
        || text::contains(name, "\\") {
        return Err(RepoError::Unsafe);
    }
    Ok((owner.to_owned(), name.to_owned()))
}

pub fn valid_repo_id(repo: &str) -> (yes: bool)
    ensures
        yes == repo_of(repo@) is Ok,
{
    split_repo(repo).is_ok()
}

pub fn validate_repo_id(repo: &str) -> (out: Result<(), RepoError>)
    ensures
        match (out, repo_of(repo@)) {
            (Ok(_), Ok(_)) => true,
            (Err(e), Err(f)) => e == f,
            _ => false,
        },
{
    match split_repo(repo) {
        Ok(_) => Ok(()),
        Err(e) => Err(e),
    }
}

/// A path in a repository that leads out of the directory that it is stored in.
#[derive(Clone, Copy, Debug, PartialEq, Eq, Structural)]
pub struct UnsafePath;

/// Whether a path in a repository stays below the directory that it is stored in:
/// it is relative, does not start in place and never goes up.
pub open spec fn is_safe(path: Seq<char>) -> bool {
    let parts = text::split_of(path, '/');
    &&& path.len() > 0
    &&& path[0] != '/'
    &&& !text::holds(path, "\\"@)
    &&& parts[0] != "."@
    &&& forall|i: int| 0 <= i < parts.len() ==> #[trigger] parts[i] != ".."@
}

pub fn ensure_safe_relative_path(relative: &str) -> (out: Result<(), UnsafePath>)
    ensures
        out is Ok <==> is_safe(relative@),
{
    let chars: Vec<char> = text::chars_of(relative);
    if chars.len() == 0 || chars[0] == '/' || text::contains(relative, "\\") {
        return Err(UnsafePath);
    }
    let parts: Vec<String> = text::split(relative, '/');
    let ghost all = text::views(parts@);
    proof {
        text::lemma_split_nonempty(relative@, '/');
        assert(all[0] == parts@[0]@);
    }
    if text::same(parts[0].as_str(), ".") {
        return Err(UnsafePath);
    }
    let mut i: usize = 0;
    while i < parts.len()
        invariant
            i <= parts@.len(),
            all == text::views(parts@),
            all == text::split_of(relative@, '/'),
            forall|j: int| 0 <= j < i ==> #[trigger] all[j] != ".."@,
        decreases parts@.len() - i,
    {
        proof {
            assert(all[i as int] == parts@[i as int]@);
        }
        if text::same(parts[i].as_str(), "..") {
            return Err(UnsafePath);
        }
        i += 1;
    }
    Ok(())
}

/// How far below its start the first `n` parts of a path lead.
pub open spec fn depth(parts: Seq<Seq<char>>, n: nat) -> int
    decreases n,
{
    if n == 0 {
        0
    } else {
        let before = depth(parts, (n - 1) as nat);
        if parts[n - 1] == ".."@ {
            before - 1
        } else if parts[n - 1].len() == 0 || parts[n - 1] == "."@ {
            before
        } else {
            before + 1
        }
    }
}

/// A safe path never leads above the directory that it is stored in.
pub proof fn safe_paths_stay_below(directory: Seq<char>, path: Seq<char>, n: nat)
    requires
        is_safe(path),
        n <= text::split_of(path, '/').len(),
    ensures
        directory.is_prefix_of(config::joined_path(directory, path)),
        depth(text::split_of(path, '/'), n) >= 0,
    decreases n,
{
    let whole = config::joined_path(directory, path);
    assert(directory =~= whole.take(directory.len() as int));
    if n > 0 {
        safe_paths_stay_below(directory, path, (n - 1) as nat);
        assert(text::split_of(path, '/')[n - 1] != ".."@);
    }
}

/// What a regular expression leaves of a text when its matches are replaced.
pub open spec fn substituted(s: Seq<char>, expression: Seq<char>, by: Seq<char>) -> Seq<char> {
    match pattern::replaced(expression, s, by) {
        Some(t) => t,
        None => s,
    }
}

fn substitute(s: String, expression: &str, by: &str) -> (out: String)
    ensures
        out@ == substituted(s@, expression@, by@),
{
    match pattern::replace_all(expression, s.as_str(), by) {
        Some(t) => t,
        None => s,
    }
}

/// The replacements of some pairs, one after the other.
pub open spec fn substituted_all(s: Seq<char>, pairs: Seq<(Seq<char>, Seq<char>)>, n: nat) -> Seq<
    char,
>
    decreases n,
{
    if n == 0 {
        s
    } else {
        substituted(
            substituted_all(s, pairs, (n - 1) as nat),
            pairs[n - 1].0,
            pairs[n - 1].1,
        )
    }
}

/// What is taken out of a model card or made plain, in this order: comments, scripts,
/// images, headings, summaries, breaks, lists, cells, blocks, emphasis, code and all
/// other tags.
pub open spec fn card_rules() -> Seq<(Seq<char>, Seq<char>)> {
    seq![
        (r"(?s)<!--.*?-->"@, ""@),
        (r"(?is)<(?:script|style)(?:\s[^>]*)?>.*?</(?:script|style)\s*>"@, ""@),
        (r"(?is)<(?:img|source)(?:\s[^>]*)?/?>"@, ""@),
        (r"!\[[^\]]*\]\([^)]*\)"@, ""@),
        (r"(?i)<h[1-6](?:\s[^>]*)?>"@, "\n# "@),
        (r"(?i)</h[1-6]\s*>"@, "\n"@),
        (r"(?i)<summary(?:\s[^>]*)?>"@, "\n## "@),
        (r"(?i)<br(?:\s[^>]*)?/?>"@, "\n"@),
        (r"(?i)<li(?:\s[^>]*)?>"@, "\n- "@),
        (r"(?i)</(?:td|th)\s*>"@, " | "@),
        (r"(?i)<(?:p|div|section|article|header|footer|table|tr|ul|ol|details|pre)(?:\s[^>]*)?>"@, "\n"@),
        (r"(?i)</(?:p|div|section|article|header|footer|table|tr|ul|ol|details|summary|pre)\s*>"@, "\n"@),
        (r"(?i)<(?:strong|b)(?:\s[^>]*)?>"@, "**"@),
        (r"(?i)</(?:strong|b)\s*>"@, "**"@),
        (r"(?i)<code(?:\s[^>]*)?>"@, "`"@),
        (r"(?i)</code\s*>"@, "`"@),
        (r"(?is)<[^>]+>"@, ""@),
    ]
}

/// The characters that stand for themselves in a card's text.
pub open spec fn entities() -> Seq<(Seq<char>, Seq<char>)> {
    seq![
        ("&nbsp;"@, " "@),
        ("&#160;"@, " "@),
        ("&amp;"@, "&"@),
        ("&lt;"@, "<"@),
        ("&gt;"@, ">"@),
        ("&quot;"@, "\""@),
        ("&#39;"@, "'"@),
        ("&apos;"@, "'"@),
    ]
}

pub open spec fn decoded(s: Seq<char>, n: nat) -> Seq<char>
    decreases n,
{
    if n == 0 {
        s
    } else {
        text::replaced_of(decoded(s, (n - 1) as nat), entities()[n - 1].0, entities()[n - 1].1)
    }
}

pub fn decode_html_entities(s: &str) -> (out: String)
    ensures
        out@ == decoded(s@, entities().len()),
{
    let mut out: String = s.to_owned();
    proof {
        reveal_with_fuel(decoded, 9);
    }
    proof {
        reveal_strlit("&nbsp;");
    }
    out = text::replace(out.as_str(), "&nbsp;", " ");
    proof {
        reveal_strlit("&#160;");
    }
    out = text::replace(out.as_str(), "&#160;", " ");
    proof {
        reveal_strlit("&amp;");
    }
    out = text::replace(out.as_str(), "&amp;", "&");
    proof {
        reveal_strlit("&lt;");
    }
    out = text::replace(out.as_str(), "&lt;", "<");
    proof {
        reveal_strlit("&gt;");
    }
    out = text::replace(out.as_str(), "&gt;", ">");
    proof {
        reveal_strlit("&quot;");
    }
    out = text::replace(out.as_str(), "&quot;", "\"");
    proof {
        reveal_strlit("&#39;");
    }
    out = text::replace(out.as_str(), "&#39;", "'");
    proof {
        reveal_strlit("&apos;");
    }
    out = text::replace(out.as_str(), "&apos;", "'");
    out
}

/// A line without spaces at its end and bars at its ends.
pub open spec fn tidy_line(line: Seq<char>) -> Seq<char> {
    text::trim_end_of(
        text::without_end(text::without_front(text::trim_end_of(line), '|'), '|'),
    )
}

/// The first `n` lines without blank lines at the front and with one for several
/// in a row, and whether the last of them was blank.
pub open spec fn tidied(lines: Seq<Seq<char>>, n: nat) -> (Seq<Seq<char>>, bool)
    decreases n,
{
    if n == 0 {
        (seq![], false)
    } else {
        let (list, blank) = tidied(lines, (n - 1) as nat);
        let line = tidy_line(lines[n - 1]);
        if text::trim_of(line).len() == 0 {
            (
                if !blank && list.len() > 0 {
                    list.push(seq![])
                } else {
                    list
                },
                true,
            )
        } else {
            (list.push(line), false)
        }
    }
}

/// A list without empty lines at its end.
pub open spec fn without_blank_end(list: Seq<Seq<char>>) -> Seq<Seq<char>>
    decreases list.len(),
{
    if list.len() > 0 && list.last().len() == 0 {
        without_blank_end(list.drop_last())
    } else {
        list
    }
}

/// The lines of a text, tidied.
pub open spec fn tidy_lines(s: Seq<char>) -> Seq<Seq<char>> {
    let lines = text::lines_of(s);
    without_blank_end(tidied(lines, lines.len()).0)
}

/// Tidies the lines of a text: no bars and spaces at their ends, no blank lines at the
/// ends of the text and no two in a row.
pub fn tidy(s: &str) -> (out: String)
    ensures
        out@ == text::joined(tidy_lines(s@), "\n"@),
{
    let lines: Vec<String> = text::lines(s);
    let ghost all = text::views(lines@);
    let mut clean: Vec<String> = Vec::new();
    let mut blank: bool = false;
    let mut i: usize = 0;
    proof {
        assert(text::views(clean@) =~= seq![]);
    }
    while i < lines.len()
        invariant
            i <= lines@.len(),
            all == text::views(lines@),
            tidied(all, i as nat) == (text::views(clean@), blank),
        decreases lines@.len() - i,
    {
        proof {
            assert(all[i as int] == lines@[i as int]@);
            assert(text::views(clean@).len() == clean@.len());
        }
        let ended: String = text::trim_end(lines[i].as_str());
        let front: String = text::strip_front(ended.as_str(), '|');
        let bare: String = text::strip_end(front.as_str(), '|');
        let line: String = text::trim_end(bare.as_str());
        if text::chars_of(text::trim(line.as_str()).as_str()).len() == 0 {
            if !blank && clean.len() > 0 {
                let none: String = String::new();
                proof {
                    assert(none@ =~= seq![]);
                    profiles::lemma_views_push(clean@, none);
                }
                clean.push(none);
            }
            blank = true;
        } else {
            proof {
                profiles::lemma_views_push(clean@, line);
            }
            clean.push(line);
            blank = false;
        }
        i += 1;
    }
    let ghost whole = text::views(clean@);
    let mut end: usize = clean.len();
    proof {
        assert(whole.take(end as int) =~= whole);
    }
    while end > 0 && text::chars_of(clean[end - 1].as_str()).len() == 0
        invariant
            end <= clean@.len(),
            whole == text::views(clean@),
            without_blank_end(whole) == without_blank_end(whole.take(end as int)),
        decreases end,
    {
        proof {
            assert(whole[end - 1] == clean@[end - 1]@);
            assert(whole.take(end as int).drop_last() =~= whole.take(end - 1));
        }
        end -= 1;
    }
    proof {
        assert(end > 0 ==> whole[end - 1] == clean@[end - 1]@);
        assert(end > 0 ==> whole.take(end as int).last() == whole[end - 1]);
        assert(without_blank_end(whole) == whole.take(end as int));
    }
    let kept: &[String] = vstd::slice::slice_subrange(clean.as_slice(), 0, end);
    proof {
        assert(text::views(kept@) =~= whole.take(end as int));
    }
    text::join(kept, "\n")
}

/// A model card as plain text.
pub open spec fn plain_card(markdown: Seq<char>) -> Seq<char> {
    decoded(
        substituted_all(markdown, card_rules(), card_rules().len()),
        entities().len(),
    )
}

pub fn sanitize_model_card(markdown: &str) -> (out: String)
    ensures
        out@ == text::joined(tidy_lines(plain_card(markdown@)), "\n"@),
{
    let mut text: String = markdown.to_owned();
    proof {
        reveal_with_fuel(substituted_all, 18);
    }
    text = substitute(text, r"(?s)<!--.*?-->", "");
    text = substitute(text, r"(?is)<(?:script|style)(?:\s[^>]*)?>.*?</(?:script|style)\s*>", "");
    text = substitute(text, r"(?is)<(?:img|source)(?:\s[^>]*)?/?>", "");
    text = substitute(text, r"!\[[^\]]*\]\([^)]*\)", "");
    text = substitute(text, r"(?i)<h[1-6](?:\s[^>]*)?>", "\n# ");
    text = substitute(text, r"(?i)</h[1-6]\s*>", "\n");
    text = substitute(text, r"(?i)<summary(?:\s[^>]*)?>", "\n## ");
    text = substitute(text, r"(?i)<br(?:\s[^>]*)?/?>", "\n");
    text = substitute(text, r"(?i)<li(?:\s[^>]*)?>", "\n- ");
    text = substitute(text, r"(?i)</(?:td|th)\s*>", " | ");
    text = substitute(text, r"(?i)<(?:p|div|section|article|header|footer|table|tr|ul|ol|details|pre)(?:\s[^>]*)?>", "\n");
    text = substitute(text, r"(?i)</(?:p|div|section|article|header|footer|table|tr|ul|ol|details|summary|pre)\s*>", "\n");
    text = substitute(text, r"(?i)<(?:strong|b)(?:\s[^>]*)?>", "**");
    text = substitute(text, r"(?i)</(?:strong|b)\s*>", "**");
    text = substitute(text, r"(?i)<code(?:\s[^>]*)?>", "`");
    text = substitute(text, r"(?i)</code\s*>", "`");
    text = substitute(text, r"(?is)<[^>]+>", "");
    text = decode_html_entities(text.as_str());
    tidy(text.as_str())
}

proof fn lemma_trimmed(s: Seq<char>)
    ensures
        text::trim_end_of(s).len() > 0 ==> !text::is_space(text::trim_end_of(s).last()),
    decreases s.len(),
{
    if s.len() > 0 && text::is_space(s.last()) {
        lemma_trimmed(s.drop_last());
    }
}

proof fn lemma_tidied(lines: Seq<Seq<char>>, n: nat)
    requires
        n <= lines.len(),
    ensures
        ({
            let (list, blank) = tidied(lines, n);
            &&& forall|i: int|
                0 <= i < list.len() ==> (#[trigger] list[i]).len() > 0 ==> !text::is_space(
                    list[i].last(),
                )
            &&& list.len() > 0 ==> list[0].len() > 0
            &&& list.len() > 0 ==> (blank <==> list.last().len() == 0)
            &&& forall|i: int|
                0 <= i < list.len() - 1 ==> (#[trigger] list[i]).len() > 0 || list[i + 1].len() > 0
        }),
    decreases n,
{
    if n > 0 {
        lemma_tidied(lines, (n - 1) as nat);
        let (list, blank) = tidied(lines, (n - 1) as nat);
        let (new, _) = tidied(lines, n);
        let line = tidy_line(lines[n - 1]);
        if line.len() == 0 {
            assert(text::trim_start_of(line) =~= line.skip(text::run(line, text::spaces()) as int));
            assert(text::trim_of(line).len() == 0);
        }
        lemma_trimmed(
            text::without_end(text::without_front(text::trim_end_of(lines[n - 1]), '|'), '|'),
        );
        assert forall|i: int| 0 <= i < new.len() && (#[trigger] new[i]).len() > 0 implies !text::is_space(
            new[i].last(),
        ) by {
            if i < list.len() {
                assert(new[i] == list[i]);
            }
        }
        assert forall|i: int| 0 <= i < new.len() - 1 implies (#[trigger] new[i]).len() > 0 || new[i
            + 1].len() > 0 by {
            if i + 1 < list.len() {
                assert(new[i] == list[i]);
                assert(new[i + 1] == list[i + 1]);
            }
        }
    }
}

proof fn lemma_blank_end(list: Seq<Seq<char>>)
    ensures
        without_blank_end(list).len() <= list.len(),
        without_blank_end(list) == list.take(without_blank_end(list).len() as int),
        without_blank_end(list).len() > 0 ==> without_blank_end(list).last().len() > 0,
    decreases list.len(),
{
    if list.len() > 0 && list.last().len() == 0 {
        lemma_blank_end(list.drop_last());
        let m = without_blank_end(list).len() as int;
        assert(list.drop_last().take(m) =~= list.take(m));
    } else {
        assert(list.take(list.len() as int) =~= list);
    }
}

/// A tidied text has no blank line at its front or its end, no two in a row, and no white
/// space at the end of a line.
pub proof fn tidy_leaves_no_extra_blanks(s: Seq<char>)
    ensures
        ({
            let list = tidy_lines(s);
            &&& list.len() > 0 ==> list[0].len() > 0 && list.last().len() > 0
            &&& forall|i: int|
                0 <= i < list.len() - 1 ==> (#[trigger] list[i]).len() > 0 || list[i + 1].len() > 0
            &&& forall|i: int|
                0 <= i < list.len() ==> (#[trigger] list[i]).len() > 0 ==> !text::is_space(
                    list[i].last(),
                )
        }),
{
    let lines = text::lines_of(s);
    lemma_tidied(lines, lines.len());
    let whole = tidied(lines, lines.len()).0;
    lemma_blank_end(whole);
    let list = tidy_lines(s);
    assert forall|i: int| 0 <= i < list.len() - 1 implies (#[trigger] list[i]).len() > 0 || list[i
        + 1].len() > 0 by {
        assert(list[i] == whole[i]);
        assert(list[i + 1] == whole[i + 1]);
    }
    assert forall|i: int| 0 <= i < list.len() && (#[trigger] list[i]).len() > 0 implies !text::is_space(
        list[i].last(),
    ) by {
        assert(list[i] == whole[i]);
    }
}

/// What stands behind the front matter of a card: the lines between two lines of
/// three hyphens, where it starts with them.
pub open spec fn body_of(s: Seq<char>) -> Seq<char> {
    let front = "---\n"@;
    if !front.is_prefix_of(s) {
        s
    } else {
        let rest = s.skip(front.len() as int);
        let at = text::find_piece_of(rest, "\n---\n"@, 0);
        if at < rest.len() {
            rest.skip(at + 5)
        } else {
            s
        }
    }
}

pub fn strip_frontmatter(s: &str) -> (out: String)
    ensures
        out@ == body_of(s@),
{
    let rest: String = match process::after_prefix(s, "---\n") {
        Some(rest) => rest,
        None => return s.to_owned(),
    };
    let chars: Vec<char> = text::chars_of(rest.as_str());
    let mark: Vec<char> = text::chars_of("\n---\n");
    let at: usize = text::find_piece(chars.as_slice(), mark.as_slice(), 0);
    proof {
        reveal_strlit("\n---\n");
    }
    if at < chars.len() {
        proof {
            assert(rest@.subrange(at + 5, rest@.len() as int) =~= rest@.skip(at + 5));
        }
        text::part_text(chars.as_slice(), at + 5, chars.len())
    } else {
        s.to_owned()
    }
}

/// A model card as it is shown, from the bytes that were read of it.
pub fn card_of(bytes: &[u8]) -> (out: String)
    ensures
        out@ == text::joined(tidy_lines(plain_card(body_of(gguf::text_of(bytes@)))), "\n"@),
{
    let card: String = gguf::decoded_text(bytes);
    sanitize_model_card(strip_frontmatter(card.as_str()).as_str())
}

/// A single value on a card, as text.
pub open spec fn card_text(card: Json, key: Seq<char>) -> Option<Seq<char>> {
    match json::member_in(card, key) {
        Some(Json::Text(s)) => Some(s),
        Some(Json::Unsigned(n)) => Some(json::rendered(Json::Unsigned(n))),
        Some(Json::Negative(n)) => Some(json::rendered(Json::Negative(n))),
        Some(Json::Float(s)) => Some(json::rendered(Json::Float(s))),
        Some(Json::Bool(b)) => Some(json::rendered(Json::Bool(b))),
        _ => None,
    }
}

pub fn card_string(card: &JsonValue, key: &str) -> (out: Option<String>)
    ensures
        metadata::text_view(out) == card_text(card@, key@),
{
    match card.get(key) {
        Some(JsonValue::String(s)) => Some(s.clone()),
        Some(JsonValue::Number(_)) => {
            let value: &JsonValue = card.get(key).unwrap();
            Some(value.to_text())
        },
        Some(JsonValue::Bool(b)) => Some(JsonValue::Bool(*b).to_text()),
        _ => None,
    }
}

/// The texts under a key of a card: one, or a list.
pub open spec fn card_texts(card: Json, key: Seq<char>) -> Seq<Seq<char>> {
    match json::member_in(card, key) {
        Some(Json::Text(s)) => seq![s],
        Some(Json::Array(items)) => profiles::texts_in(items, items.len()),
        _ => seq![],
    }
}

pub fn card_strings(card: &JsonValue, key: &str) -> (out: Vec<String>)
    ensures
        text::views(out@) == card_texts(card@, key@),
{
    let mut out: Vec<String> = Vec::new();
    proof {
        assert(text::views(out@) =~= seq![]);
    }
    match card.get(key) {
        Some(JsonValue::String(s)) => {
            process::add(&mut out, s.as_str());
            proof {
                assert(text::views(out@) =~= seq![s@]);
            }
            out
        },
        Some(JsonValue::Array(items)) => profiles::texts(items),
        _ => out,
    }
}

/// Whether a repository can be read without its terms being accepted.
pub fn is_not_gated(gated: &JsonValue) -> (yes: bool)
    ensures
        yes == (gated@ == Json::Bool(false)),
{
    match gated {
        JsonValue::Bool(b) => !*b,
        _ => false,
    }
}

/// The address in one part of a header that links to other pages, where it links to
/// the next.
pub open spec fn link_in(part: Seq<char>) -> Option<Seq<char>> {
    match text::split_once_of(text::trim_of(part), ';') {
        Some((url, relation)) => if text::holds(relation, "rel=\"next\""@) {
            Some(
                text::without_end(text::without_front(text::trim_of(url), '<'), '>'),
            )
        } else {
            None
        },
        None => None,
    }
}

/// Not linking to the next page, as a function.
pub open spec fn links_elsewhere() -> spec_fn(Seq<char>) -> bool {
    |part: Seq<char>| link_in(part) is None
}

/// The address of the next page.
pub open spec fn next_link_of(header: Seq<char>) -> Option<Seq<char>> {
    let parts = text::split_of(header, ',');
    let at = text::run(parts, links_elsewhere()) as int;
    if at < parts.len() {
        link_in(parts[at])
    } else {
        None
    }
}

fn link(part: &str) -> (out: Option<String>)
    ensures
        metadata::text_view(out) == link_in(part@),
{
    match text::split_once(text::trim(part).as_str(), ';') {
        Some((url, relation)) => if text::contains(relation.as_str(), "rel=\"next\"") {
            let bare: String = text::strip_front(text::trim(url.as_str()).as_str(), '<');
            Some(text::strip_end(bare.as_str(), '>'))
        } else {
            None
        },
        None => None,
    }
}

pub fn next_link(header: &str) -> (out: Option<String>)
    ensures
        metadata::text_view(out) == next_link_of(header@),
{
    let parts: Vec<String> = text::split(header, ',');
    let ghost all = text::views(parts@);
    let mut i: usize = 0;
    while i < parts.len()
        invariant
            i <= parts@.len(),
            all == text::views(parts@),
            all == text::split_of(header@, ','),
            forall|j: int| 0 <= j < i ==> links_elsewhere()(#[trigger] all[j]),
        decreases parts@.len() - i,
    {
        proof {
            assert(all[i as int] == parts@[i as int]@);
        }
        let found: Option<String> = link(parts[i].as_str());
        if found.is_some() {
            proof {
                text::lemma_run_unique(all, links_elsewhere(), i as int);
            }
            return found;
        }
        i += 1;
    }
    proof {
        text::lemma_run_unique(all, links_elsewhere(), i as int);
    }
    None
}

/// Whether `reqwest::Url::parse` takes a text for an address.
pub uninterp spec fn is_address(s: Seq<char>) -> bool;

/// Calls `reqwest::Url::parse`. Whether it takes the text for an address is a function of
/// the text.
#[verifier::external_body]
fn parses_as_address(s: &str) -> (yes: bool)
    ensures
        yes == is_address(s@),
{
    reqwest::Url::parse(s).is_ok()
}

/// The address of the next page, where the header has one that is an address.
pub fn next_page(header: &str) -> (out: Option<String>)
    ensures
        metadata::text_view(out) == match next_link_of(header@) {
            Some(link) => if is_address(link) {
                Some(link)
            } else {
                None
            },
            None => None,
        },
{
    match next_link(header) {
        Some(link) => if parses_as_address(link.as_str()) {
            Some(link)
        } else {
            None
        },
        None => None,
    }
}

/// The name in a repository's path: what stands behind the last slash.
pub open spec fn name_in(path: Seq<char>) -> Seq<char> {
    models::last_component(path)
}

proof fn lemma_name_in(path: Seq<char>)
    ensures
        name_in(path).len() <= path.len(),
        name_in(path) == path.skip(path.len() - name_in(path).len()),
        name_in(path).len() < path.len() ==> path[path.len() - name_in(path).len() - 1] == '/',
    decreases path.len(),
{
    if path.len() == 0 || path.last() == '/' {
        assert(path.skip(path.len() as int) =~= seq![]);
    } else {
        lemma_name_in(path.drop_last());
        let n = name_in(path.drop_last()).len() as int;
        assert(path.skip(path.len() - n - 1) =~= path.drop_last().skip(
            path.len() - 1 - n,
        ).push(path.last()));
    }
}

/// Where the name in a path starts.
fn name_start(chars: &Vec<char>) -> (at: usize)
    ensures
        at <= chars@.len(),
        at == chars@.len() - name_in(chars@).len(),
{
    let mut at: usize = chars.len();
    proof {
        assert(chars@.take(at as int) =~= chars@);
    }
    while at > 0 && chars[at - 1] != '/'
        invariant
            at <= chars@.len(),
            name_in(chars@).len() == name_in(chars@.take(at as int)).len() + chars@.len() - at,
        decreases at,
    {
        proof {
            assert(chars@.take(at as int).drop_last() =~= chars@.take(at - 1));
        }
        at -= 1;
    }
    at
}

fn base_name(path: &str) -> (out: String)
    ensures
        out@ == name_in(path@),
{
    let chars: Vec<char> = text::chars_of(path);
    let at: usize = name_start(&chars);
    proof {
        lemma_name_in(path@);
        assert(path@.subrange(at as int, path@.len() as int) =~= path@.skip(at as int));
    }
    text::part_text(chars.as_slice(), at, chars.len())
}

/// Whether a file is a projector.
pub open spec fn is_projector(path: Seq<char>) -> bool {
    let name = text::lower_of(name_in(path));
    "mmproj"@.is_prefix_of(name) || text::holds(name, "-mmproj"@)
}

pub fn is_mmproj(path: &str) -> (yes: bool)
    ensures
        yes == is_projector(path@),
{
    let name: String = text::to_lower(base_name(path).as_str());
    text::starts_with(name.as_str(), "mmproj") || text::contains(name.as_str(), "-mmproj")
}

/// A file in a repository.
pub struct RemoteFile {
    pub path: String,
    pub size: u64,
    pub sha256: Option<String>,
}

#[verifier::ext_equal]
pub ghost struct RemoteView {
    pub path: Seq<char>,
    pub size: u64,
    pub sha256: Option<Seq<char>>,
}

impl View for RemoteFile {
    type V = RemoteView;

    open spec fn view(&self) -> RemoteView {
        RemoteView {
            path: self.path@,
            size: self.size,
            sha256: metadata::text_view(self.sha256),
        }
    }
}

impl RemoteFile {
    pub fn copy(&self) -> (out: RemoteFile)
        ensures
            out@ == self@,
    {
        RemoteFile {
            path: self.path.clone(),
            size: self.size,
            sha256: match &self.sha256 {
                Some(s) => Some(s.clone()),
                None => None,
            },
        }
    }
}

pub open spec fn remote_view(file: Option<RemoteFile>) -> Option<RemoteView> {
    match file {
        Some(f) => Some(f@),
        None => None,
    }
}

pub open spec fn remote_views(files: Seq<RemoteFile>) -> Seq<RemoteView> {
    files.map_values(|f: RemoteFile| f@)
}

/// How late a projector is taken, by the precision in its name.
pub open spec fn projector_rank(path: Seq<char>) -> int {
    let name = text::lower_of(path);
    if text::holds(name, "f16"@) && !text::holds(name, "bf16"@) {
        0
    } else if text::holds(name, "bf16"@) {
        1
    } else if text::holds(name, "f32"@) {
        2
    } else {
        3
    }
}

/// The place of the projector that is taken among the first `n`: the first of the
/// lowest rank, -1 where there is none.
pub open spec fn preferred(files: Seq<RemoteView>, n: nat) -> int
    decreases n,
{
    if n == 0 {
        -1
    } else {
        let best = preferred(files, (n - 1) as nat);
        if best < 0 || projector_rank(files[n - 1].path) < projector_rank(files[best].path) {
            n - 1
        } else {
            best
        }
    }
}

fn rank(path: &str) -> (out: u8)
    ensures
        out == projector_rank(path@),
{
    let name: String = text::to_lower(path);
    if text::contains(name.as_str(), "f16") && !text::contains(name.as_str(), "bf16") {
        0
    } else if text::contains(name.as_str(), "bf16") {
        1
    } else if text::contains(name.as_str(), "f32") {
        2
    } else {
        3
    }
}

proof fn lemma_preferred(files: Seq<RemoteView>, n: nat)
    requires
        n <= files.len(),
    ensures
        n > 0 ==> 0 <= preferred(files, n) < n,
    decreases n,
{
    reveal_with_fuel(preferred, 2);
    if n > 0 {
        lemma_preferred(files, (n - 1) as nat);
    }
}

pub fn preferred_mmproj(files: &[RemoteFile]) -> (out: Option<&RemoteFile>)
    ensures
        match out {
            None => files@.len() == 0,
            Some(f) => files@.len() > 0 && *f == files@[preferred(
                remote_views(files@),
                files@.len(),
            )],
        },
{
    let ghost all = remote_views(files@);
    if files.len() == 0 {
        return None;
    }
    let mut best: usize = 0;
    let mut i: usize = 1;
    proof {
        reveal_with_fuel(preferred, 2);
    }
    while i < files.len()
        invariant
            1 <= i <= files@.len(),
            best < i,
            all == remote_views(files@),
            best == preferred(all, i as nat),
        decreases files@.len() - i,
    {
        proof {
            assert(all[i as int] == files@[i as int]@);
            assert(all[best as int] == files@[best as int]@);
        }
        if rank(files[i].path.as_str()) < rank(files[best].path.as_str()) {
            best = i;
        }
        i += 1;
    }
    Some(&files[best])
}

/// The projector that is taken has the lowest rank of all, and none before it has it.
pub proof fn preferred_is_best(files: Seq<RemoteView>, n: nat, i: int)
    requires
        0 <= i < n <= files.len(),
    ensures
        0 <= preferred(files, n) < n,
        projector_rank(files[preferred(files, n)].path) <= projector_rank(files[i].path),
        i < preferred(files, n) ==> projector_rank(files[preferred(files, n)].path)
            < projector_rank(files[i].path),
    decreases n,
{
    lemma_preferred(files, n);
    if n > 1 {
        lemma_preferred(files, (n - 1) as nat);
        if i < n - 1 {
            preferred_is_best(files, (n - 1) as nat, i);
        } else if preferred(files, n) != n - 1 {
            preferred_is_best(files, (n - 1) as nat, preferred(files, n));
        }
    }
}

/// The expression for the name of a part of a split model.
pub open spec fn shard_expression() -> Seq<char> {
    r"(?i)^(.*)-(\d{5})-of-(\d{5})\.gguf$"@
}

/// The first match in some matches.
pub open spec fn first_match(matches: Option<Seq<pattern::Groups>>) -> Option<pattern::Groups> {
    match matches {
        Some(m) if m.len() > 0 => Some(m[0]),
        _ => None,
    }
}

/// The path that all parts of a split model share, `part` being the match of the part
/// expression in the name.
pub open spec fn group_key_from(path: Seq<char>, part: Option<pattern::Groups>) -> Seq<char> {
    let name = name_in(path);
    let shown = match part {
        Some(groups) => pattern::group_of(groups, 1) + ".gguf"@,
        None => name,
    };
    let directory = if name.len() < path.len() {
        path.take(path.len() - name.len() - 1)
    } else {
        seq![]
    };
    if directory.len() == 0 {
        shown
    } else {
        directory + "/"@ + shown
    }
}

/// The number of a part and how many there are.
pub open spec fn parts_from(part: Option<pattern::Groups>) -> Option<(nat, nat)> {
    match part {
        Some(groups) => match (
            text::number_of(pattern::group_of(groups, 2), usize::MAX as nat),
            text::number_of(pattern::group_of(groups, 3), usize::MAX as nat),
        ) {
            (Some(i), Some(n)) => Some((i, n)),
            _ => None,
        },
        None => None,
    }
}

/// The first match of an expression in a text.
pub open spec fn match_of(expression: Seq<char>, s: Seq<char>) -> Option<pattern::Groups> {
    first_match(pattern::captured(expression, s))
}

pub open spec fn groups_view(groups: Option<Vec<Option<String>>>) -> Option<pattern::Groups> {
    match groups {
        Some(g) => Some(pattern::group_views(g@)),
        None => None,
    }
}

pub fn find_match(expression: &str, s: &str) -> (out: Option<Vec<Option<String>>>)
    ensures
        groups_view(out) == match_of(expression@, s@),
{
    match pattern::captures(expression, s) {
        Some(mut m) => {
            proof {
                assert(pattern::match_views(m@).len() == m@.len());
                assert(m@.len() > 0 ==> pattern::match_views(m@)[0] == pattern::group_views(
                    m@[0]@,
                ));
            }
            if m.len() > 0 {
                Some(m.swap_remove(0))
            } else {
                None
            }
        },
        None => None,
    }
}

/// The path that all parts of a split model share, from the match in the name.
pub fn group_key(path: &str, part: &Option<Vec<Option<String>>>) -> (out: String)
    ensures
        out@ == group_key_from(path@, groups_view(*part)),
{
    let chars: Vec<char> = text::chars_of(path);
    let at: usize = name_start(&chars);
    let mut shown: String = match part {
        Some(groups) => {
            let mut front: String = pattern::group(groups, 1);
            front.append(".gguf");
            front
        },
        None => base_name(path),
    };
    if at <= 1 {
        proof {
            lemma_name_in(path@);
            if at == 1 {
                assert(path@.take(0) =~= seq![]);
            }
        }
        return shown;
    }
    let mut out: String = text::part_text(chars.as_slice(), 0, at - 1);
    proof {
        lemma_name_in(path@);
        assert(path@.subrange(0, at - 1) =~= path@.take(at - 1));
    }
    out.append("/");
    out.append(shown.as_str());
    out
}

pub fn shard_group_key(path: &str) -> (out: String)
    ensures
        out@ == group_key_from(path@, match_of(shard_expression(), name_in(path@))),
{
    let name: String = base_name(path);
    let part: Option<Vec<Option<String>>> = find_match(
        r"(?i)^(.*)-(\d{5})-of-(\d{5})\.gguf$",
        name.as_str(),
    );
    group_key(path, &part)
}

/// The number of a part and how many there are, from the match in its name.
pub fn part_numbers(part: &Option<Vec<Option<String>>>) -> (out: Option<(usize, usize)>)
    ensures
        match (out, parts_from(groups_view(*part))) {
            (Some((i, n)), Some((j, m))) => i == j && n == m,
            (None, None) => true,
            _ => false,
        },
{
    match part {
        Some(groups) => match (
            models::parse_usize(pattern::group(groups, 2).as_str()),
            models::parse_usize(pattern::group(groups, 3).as_str()),
        ) {
            (Some(i), Some(n)) => Some((i, n)),
            _ => None,
        },
        None => None,
    }
}

pub fn shard_parts(path: &str) -> (out: Option<(usize, usize)>)
    ensures
        match (out, parts_from(match_of(shard_expression(), name_in(path@)))) {
            (Some((i, n)), Some((j, m))) => i == j && n == m,
            (None, None) => true,
            _ => false,
        },
{
    let name: String = base_name(path);
    let part: Option<Vec<Option<String>>> = find_match(
        r"(?i)^(.*)-(\d{5})-of-(\d{5})\.gguf$",
        name.as_str(),
    );
    part_numbers(&part)
}

/// The expression for a quantization.
pub open spec fn quant_expression() -> Seq<char> {
    r"(?i)(IQ[1-4]_(?:XXS|XS|S|M|NL)|Q[2-8]_(?:[01]|K(?:_(?:XXL|XL|L|M|S))?)|F(?:16|32)|BF16)"@
}

/// The quantization that a file's name gives.
pub open spec fn quantization_of(path: Seq<char>) -> Option<Seq<char>> {
    match match_of(quant_expression(), name_in(path)) {
        Some(groups) => Some(text::upper_of(pattern::group_of(groups, 1))),
        None => None,
    }
}

pub fn quantization(path: &str) -> (out: Option<String>)
    ensures
        metadata::text_view(out) == quantization_of(path@),
{
    let name: String = base_name(path);
    match find_match(
        r"(?i)(IQ[1-4]_(?:XXS|XS|S|M|NL)|Q[2-8]_(?:[01]|K(?:_(?:XXL|XL|L|M|S))?)|F(?:16|32)|BF16)",
        name.as_str(),
    ) {
        Some(groups) => Some(text::to_upper(pattern::group(&groups, 1).as_str())),
        None => None,
    }
}

/// How good a quantization is, from one to five.
pub open spec fn quality_of(quant: Seq<char>) -> u8 {
    if quant == "IQ1_S"@
        || quant == "IQ1_M"@
        || quant == "Q2_K"@
        || quant == "Q2_K_S"@
        || quant == "Q2_K_L"@
        || quant == "IQ2_S"@
        || quant == "IQ2_M"@
        || quant == "IQ2_XS"@
        || quant == "IQ2_XXS"@ {
        1
    } else if quant == "Q2_K_XL"@
        || quant == "Q3_K_S"@
        || quant == "Q3_K_M"@
        || quant == "Q3_K_L"@
        || quant == "IQ3_S"@
        || quant == "IQ3_XS"@
        || quant == "IQ3_XXS"@
        || quant == "IQ3_M"@ {
        2
    } else if quant == "Q4_K_M"@
        || quant == "Q4_K_XL"@
        || quant == "Q5_0"@
        || quant == "Q5_1"@
        || quant == "Q5_K_S"@ {
        4
    } else if quant == "Q5_K_M"@
        || quant == "Q5_K_XL"@
        || quant == "Q6_K"@
        || quant == "Q6_K_XL"@
        || quant == "Q8_0"@
        || quant == "Q8_K_XL"@
        || quant == "F16"@
        || quant == "F32"@
        || quant == "BF16"@ {
        5
    } else {
        3
    }
}

pub fn quant_quality(quant: &str) -> (out: u8)
    ensures
        out == quality_of(quant@),
{
    if text::same(quant, "IQ1_S")
        || text::same(quant, "IQ1_M")
        || text::same(quant, "Q2_K")
        || text::same(quant, "Q2_K_S")
        || text::same(quant, "Q2_K_L")
        || text::same(quant, "IQ2_S")
        || text::same(quant, "IQ2_M")
        || text::same(quant, "IQ2_XS")
        || text::same(quant, "IQ2_XXS") {
        1
    } else if text::same(quant, "Q2_K_XL")
        || text::same(quant, "Q3_K_S")
        || text::same(quant, "Q3_K_M")
        || text::same(quant, "Q3_K_L")
        || text::same(quant, "IQ3_S")
        || text::same(quant, "IQ3_XS")
        || text::same(quant, "IQ3_XXS")
        || text::same(quant, "IQ3_M") {
        2
    } else if text::same(quant, "Q4_K_M")
        || text::same(quant, "Q4_K_XL")
        || text::same(quant, "Q5_0")
        || text::same(quant, "Q5_1")
        || text::same(quant, "Q5_K_S") {
        4
    } else if text::same(quant, "Q5_K_M")
        || text::same(quant, "Q5_K_XL")
        || text::same(quant, "Q6_K")
        || text::same(quant, "Q6_K_XL")
        || text::same(quant, "Q8_0")
        || text::same(quant, "Q8_K_XL")
        || text::same(quant, "F16")
        || text::same(quant, "F32")
        || text::same(quant, "BF16") {
        5
    } else {
        3
    }
}

/// What is said of a quantization.
pub open spec fn description_of(quant: Seq<char>) -> Seq<char> {
    if quant == "Q2_K"@
        || quant == "Q2_K_S"@
        || quant == "Q2_K_L"@ {
        "smallest - significant quality loss"@
    } else if quant == "Q3_K_S"@
        || quant == "Q3_K_M"@
        || quant == "Q3_K_L"@ {
        "small - noticeable quality loss"@
    } else if quant == "Q4_K_M"@
        || quant == "Q4_K_XL"@ {
        "recommended balance"@
    } else if quant == "Q4_0"@
        || quant == "Q4_1"@
        || quant == "Q4_K_S"@
        || quant == "IQ4_NL"@
        || quant == "IQ4_XS"@ {
        "good balance"@
    } else if quant == "Q5_K_M"@
        || quant == "Q5_K_XL"@
        || quant == "Q5_K_S"@ {
        "excellent quality"@
    } else if quant == "Q6_K"@
        || quant == "Q6_K_XL"@ {
        "near-lossless"@
    } else if quant == "Q8_0"@
        || quant == "Q8_K_XL"@ {
        "minimal loss"@
    } else if quant == "F16"@
        || quant == "BF16"@
        || quant == "F32"@ {
        "full precision"@
    } else if "IQ1"@.is_prefix_of(quant) || "IQ2"@.is_prefix_of(quant) {
        "very compact"@
    } else if "IQ3"@.is_prefix_of(quant) {
        "compact"@
    } else {
        "GGUF model"@
    }
}

pub fn quant_description(quant: &str) -> (out: &'static str)
    ensures
        out@ == description_of(quant@),
{
    if text::same(quant, "Q2_K")
        || text::same(quant, "Q2_K_S")
        || text::same(quant, "Q2_K_L") {
        "smallest - significant quality loss"
    } else if text::same(quant, "Q3_K_S")
        || text::same(quant, "Q3_K_M")
        || text::same(quant, "Q3_K_L") {
        "small - noticeable quality loss"
    } else if text::same(quant, "Q4_K_M")
        || text::same(quant, "Q4_K_XL") {
        "recommended balance"
    } else if text::same(quant, "Q4_0")
        || text::same(quant, "Q4_1")
        || text::same(quant, "Q4_K_S")
        || text::same(quant, "IQ4_NL")
        || text::same(quant, "IQ4_XS") {
        "good balance"
    } else if text::same(quant, "Q5_K_M")
        || text::same(quant, "Q5_K_XL")
        || text::same(quant, "Q5_K_S") {
        "excellent quality"
    } else if text::same(quant, "Q6_K")
        || text::same(quant, "Q6_K_XL") {
        "near-lossless"
    } else if text::same(quant, "Q8_0")
        || text::same(quant, "Q8_K_XL") {
        "minimal loss"
    } else if text::same(quant, "F16")
        || text::same(quant, "BF16")
        || text::same(quant, "F32") {
        "full precision"
    } else if text::starts_with(quant, "IQ1") || text::starts_with(quant, "IQ2") {
        "very compact"
    } else if text::starts_with(quant, "IQ3") {
        "compact"
    } else {
        "GGUF model"
    }
}

/// What a large file's pointer says.
pub struct LfsInfo {
    pub oid: String,
    pub sha256: String,
    pub size: u64,
}

/// An entry in the list of a repository's files.
pub struct TreeNode {
    pub kind: String,
    pub path: String,
    pub size: u64,
    pub sha256: String,
    pub lfs: Option<LfsInfo>,
}

pub ghost struct LfsView {
    pub oid: Seq<char>,
    pub sha256: Seq<char>,
    pub size: u64,
}

pub ghost struct NodeView {
    pub kind: Seq<char>,
    pub path: Seq<char>,
    pub size: u64,
    pub sha256: Seq<char>,
    pub lfs: Option<LfsView>,
}

impl View for TreeNode {
    type V = NodeView;

    open spec fn view(&self) -> NodeView {
        NodeView {
            kind: self.kind@,
            path: self.path@,
            size: self.size,
            sha256: self.sha256@,
            lfs: match self.lfs {
                Some(l) => Some(LfsView { oid: l.oid@, sha256: l.sha256@, size: l.size }),
                None => None,
            },
        }
    }
}

pub open spec fn node_views(nodes: Seq<TreeNode>) -> Seq<NodeView> {
    nodes.map_values(|n: TreeNode| n@)
}

/// The file that an entry lists: the size and the digest of a large file are those of
/// its pointer, unless the entry has them itself.
pub open spec fn remote_of(node: NodeView) -> RemoteView {
    RemoteView {
        path: node.path,
        size: match node.lfs {
            Some(l) if l.size > 0 => l.size,
            _ => node.size,
        },
        sha256: if node.sha256.len() > 0 {
            Some(node.sha256)
        } else {
            match node.lfs {
                Some(l) => if l.sha256.len() > 0 {
                    Some(l.sha256)
                } else if l.oid.len() > 0 {
                    Some(l.oid)
                } else {
                    None
                },
                None => None,
            }
        },
    }
}

fn remote(node: &TreeNode) -> (out: RemoteFile)
    ensures
        out@ == remote_of(node@),
{
    let size: u64 = match &node.lfs {
        Some(l) => if l.size > 0 {
            l.size
        } else {
            node.size
        },
        None => node.size,
    };
    let sha256: Option<String> = if text::chars_of(node.sha256.as_str()).len() > 0 {
        Some(node.sha256.clone())
    } else {
        match &node.lfs {
            Some(l) => if text::chars_of(l.sha256.as_str()).len() > 0 {
                Some(l.sha256.clone())
            } else if text::chars_of(l.oid.as_str()).len() > 0 {
                Some(l.oid.clone())
            } else {
                None
            },
            None => None,
        }
    };
    RemoteFile { path: node.path.clone(), size, sha256 }
}

/// Whether an entry is a file.
pub open spec fn is_file(node: NodeView) -> bool {
    node.kind == "file"@ || node.kind == "blob"@
}

/// Whether a path is that of a model file.
pub open spec fn is_gguf(path: Seq<char>) -> bool {
    ".gguf"@.is_suffix_of(text::lower_of(path))
}

/// The model files among the first `n` entries, projectors or others; the path that is
/// refused where one is not safe.
pub open spec fn model_files(nodes: Seq<NodeView>, n: nat, projectors: bool) -> Result<
    Seq<RemoteView>,
    Seq<char>,
>
    decreases n,
{
    if n == 0 {
        Ok(seq![])
    } else {
        match model_files(nodes, (n - 1) as nat, projectors) {
            Err(e) => Err(e),
            Ok(list) => {
                let node = nodes[n - 1];
                if !is_file(node) {
                    Ok(list)
                } else if !is_safe(node.path) {
                    Err(node.path)
                } else if is_gguf(node.path) && is_projector(node.path) == projectors {
                    Ok(list.push(remote_of(node)))
                } else {
                    Ok(list)
                }
            },
        }
    }
}

proof fn lemma_model_files_fail(nodes: Seq<NodeView>, n: nat, more: nat, projectors: bool)
    requires
        n <= more,
        model_files(nodes, n, projectors) is Err,
    ensures
        model_files(nodes, more, projectors) == model_files(nodes, n, projectors),
    decreases more,
{
    if n < more {
        lemma_model_files_fail(nodes, n, (more - 1) as nat, projectors);
    }
}

/// The places of the first `n` files, by the path that the parts of a model share.
pub open spec fn by_group(files: Seq<RemoteView>, n: nat) -> Seq<(Seq<char>, Seq<usize>)>
    decreases n,
{
    if n == 0 {
        seq![]
    } else {
        let earlier = by_group(files, (n - 1) as nat);
        let key = group_key_from(
            files[n - 1].path,
            match_of(shard_expression(), name_in(files[n - 1].path)),
        );
        let held = match table::lookup(earlier, key) {
            Some(list) => list,
            None => seq![],
        };
        table::put(earlier, key, held.push((n - 1) as usize))
    }
}

/// Not standing behind a path, as a function of a file's place.
pub open spec fn path_not_after(files: Seq<RemoteView>, path: Seq<char>) -> spec_fn(usize) -> bool {
    |i: usize| !text::before(path, files[i as int].path)
}

/// The first `n` of some places in the order of their files' paths.
pub open spec fn by_path(files: Seq<RemoteView>, places: Seq<usize>, n: nat) -> Seq<usize>
    decreases n,
{
    if n == 0 {
        seq![]
    } else {
        let earlier = by_path(files, places, (n - 1) as nat);
        let place = places[n - 1];
        earlier.insert(
            text::run(earlier, path_not_after(files, files[place as int].path)) as int,
            place,
        )
    }
}

/// A model that can be fetched: its files with the projector, its quantization and
/// what is said of it.
pub struct Artifact {
    pub label: String,
    pub description: String,
    pub quality: u8,
    pub recommended: bool,
    pub files: Vec<RemoteFile>,
    pub size: u64,
    pub shard_count: usize,
    pub has_mmproj: bool,
    pub complete: bool,
}

#[verifier::ext_equal]
pub ghost struct ArtifactView {
    pub label: Seq<char>,
    pub description: Seq<char>,
    pub quality: u8,
    pub recommended: bool,
    pub files: Seq<RemoteView>,
    pub size: nat,
    pub shard_count: nat,
    pub has_mmproj: bool,
    pub complete: bool,
}

impl View for Artifact {
    type V = ArtifactView;

    open spec fn view(&self) -> ArtifactView {
        ArtifactView {
            label: self.label@,
            description: self.description@,
            quality: self.quality,
            recommended: self.recommended,
            files: remote_views(self.files@),
            size: self.size as nat,
            shard_count: self.shard_count as nat,
            has_mmproj: self.has_mmproj,
            complete: self.complete,
        }
    }
}

pub open spec fn artifact_views(list: Seq<Artifact>) -> Seq<ArtifactView> {
    list.map_values(|a: Artifact| a@)
}

/// The size of the first `n` files.
pub open spec fn size_of(files: Seq<RemoteView>, n: nat) -> nat
    decreases n,
{
    if n == 0 {
        0
    } else {
        size_of(files, (n - 1) as nat) + files[n - 1].size as nat
    }
}

/// The model that some files and a projector make.
pub open spec fn artifact_of(files: Seq<RemoteView>, projector: Option<RemoteView>) -> ArtifactView {
    let expected = match parts_from(match_of(shard_expression(), name_in(files[0].path))) {
        Some((_, n)) => n,
        None => 1,
    };
    let quant = match quantization_of(files[0].path) {
        Some(q) => q,
        None => "UNKNOWN"@,
    };
    let all = match projector {
        Some(p) => files.push(p),
        None => files,
    };
    ArtifactView {
        label: quant,
        description: description_of(quant),
        quality: quality_of(quant),
        recommended: quant == "Q4_K_M"@,
        files: all,
        size: size_of(all, all.len()),
        shard_count: expected,
        has_mmproj: projector is Some,
        complete: files.len() == expected,
    }
}

/// The files at some places.
pub open spec fn files_at(files: Seq<RemoteView>, places: Seq<usize>) -> Seq<RemoteView> {
    places.map_values(|i: usize| files[i as int])
}

/// The models that the first `n` groups make.
pub open spec fn artifacts_in(
    files: Seq<RemoteView>,
    groups: Seq<(Seq<char>, Seq<usize>)>,
    projector: Option<RemoteView>,
    n: nat,
) -> Seq<ArtifactView>
    decreases n,
{
    if n == 0 {
        seq![]
    } else {
        let places = groups[n - 1].1;
        artifacts_in(files, groups, projector, (n - 1) as nat).push(
            artifact_of(files_at(files, by_path(files, places, places.len())), projector),
        )
    }
}

/// Which of two models is listed first: the recommended, then the better, then the
/// smaller, then by the label.
pub open spec fn listed_before(a: ArtifactView, b: ArtifactView) -> bool {
    if a.recommended != b.recommended {
        a.recommended
    } else if a.quality != b.quality {
        a.quality > b.quality
    } else if a.size != b.size {
        a.size < b.size
    } else {
        text::before(a.label, b.label)
    }
}

/// Not being listed behind a model, as a function.
pub open spec fn not_listed_after(a: ArtifactView) -> spec_fn(ArtifactView) -> bool {
    |b: ArtifactView| !listed_before(a, b)
}

/// The first `n` models in the order of the list; equal ones stay as they were.
pub open spec fn in_list_order(list: Seq<ArtifactView>, n: nat) -> Seq<ArtifactView>
    decreases n,
{
    if n == 0 {
        seq![]
    } else {
        let earlier = in_list_order(list, (n - 1) as nat);
        earlier.insert(text::run(earlier, not_listed_after(list[n - 1])) as int, list[n - 1])
    }
}

/// Why a repository's models cannot be listed.
pub enum ArtifactError {
    /// A path that is not safe.
    Path(String),
    /// The sizes of a model's files add up to too much.
    Size,
}

pub ghost enum ArtifactErrorView {
    Path(Seq<char>),
    Size,
}

impl View for ArtifactError {
    type V = ArtifactErrorView;

    open spec fn view(&self) -> ArtifactErrorView {
        match *self {
            ArtifactError::Path(s) => ArtifactErrorView::Path(s@),
            ArtifactError::Size => ArtifactErrorView::Size,
        }
    }
}

/// Whether all sizes can be held.
pub open spec fn sizes_fit(list: Seq<ArtifactView>) -> bool {
    forall|i: int| 0 <= i < list.len() ==> (#[trigger] list[i]).size <= u64::MAX
}

/// The models that a repository offers.
pub open spec fn artifacts_of(nodes: Seq<NodeView>) -> Result<Seq<ArtifactView>, ArtifactErrorView> {
    match (model_files(nodes, nodes.len(), false), model_files(nodes, nodes.len(), true)) {
        (Ok(files), Ok(projectors)) => {
            let projector = if projectors.len() == 0 {
                None
            } else {
                Some(projectors[preferred(projectors, projectors.len())])
            };
            let groups = by_group(files, files.len());
            let all = artifacts_in(files, groups, projector, groups.len());
            if sizes_fit(all) {
                Ok(in_list_order(all, all.len()))
            } else {
                Err(ArtifactErrorView::Size)
            }
        },
        (Err(path), _) => Err(ArtifactErrorView::Path(path)),
        (_, Err(path)) => Err(ArtifactErrorView::Path(path)),
    }
}

spec fn places_fit(groups: Seq<(Seq<char>, Seq<usize>)>, n: nat) -> bool {
    forall|g: int, i: int|
        0 <= g < groups.len() && 0 <= i < groups[g].1.len() ==> #[trigger] groups[g].1[i] < n
}

proof fn lemma_by_group(files: Seq<RemoteView>, n: nat)
    requires
        n <= files.len(),
        files.len() <= usize::MAX,
    ensures
        table::ordered(by_group(files, n)),
        places_fit(by_group(files, n), n),
        forall|g: int| 0 <= g < by_group(files, n).len() ==> (#[trigger] by_group(files, n)[g]).1.len() > 0,
    decreases n,
{
    if n > 0 {
        lemma_by_group(files, (n - 1) as nat);
        let earlier = by_group(files, (n - 1) as nat);
        let key = group_key_from(
            files[n - 1].path,
            match_of(shard_expression(), name_in(files[n - 1].path)),
        );
        let p = table::key_differs::<Seq<usize>>(key);
        text::lemma_run(earlier, p);
        let at = text::run(earlier, p) as int;
        let held = match table::lookup(earlier, key) {
            Some(list) => list,
            None => seq![],
        };
        let value = held.push((n - 1) as usize);
        assert forall|i: int| 0 <= i < value.len() implies #[trigger] value[i] < n by {
            if i < held.len() {
                assert(earlier[at].1[i] < n - 1);
            }
        }
        table::put_keeps_order(earlier, key, value);
        let new = by_group(files, n);
        assert(new == table::put(earlier, key, value));
        assert forall|g: int, i: int| 0 <= g < new.len() && 0 <= i < new[g].1.len() implies
            #[trigger] new[g].1[i] < n by {
            table::lemma_lookup_at(new, g);
            table::put_then_lookup(earlier, key, value, new[g].0);
            if new[g].0 != key {
                let q = table::key_differs::<Seq<usize>>(new[g].0);
                text::lemma_run(earlier, q);
                let k = text::run(earlier, q) as int;
                assert(earlier[k].1 == new[g].1);
                assert(earlier[k].1[i] < n - 1);
            } else {
                assert(new[g].1 == value);
            }
        }
        assert forall|g: int| 0 <= g < new.len() implies (#[trigger] new[g]).1.len() > 0 by {
            table::lemma_lookup_at(new, g);
            table::put_then_lookup(earlier, key, value, new[g].0);
            if new[g].0 != key {
                let q = table::key_differs::<Seq<usize>>(new[g].0);
                text::lemma_run(earlier, q);
                let k = text::run(earlier, q) as int;
                assert(earlier[k].1 == new[g].1);
                assert(earlier[k].1.len() > 0);
            } else {
                assert(new[g].1 == value);
            }
        }
    }
}

/// The places in an ordering are those that were ordered.
proof fn lemma_by_path(files: Seq<RemoteView>, places: Seq<usize>, n: nat, count: nat)
    requires
        n <= places.len(),
        forall|i: int| 0 <= i < places.len() ==> #[trigger] places[i] < count,
    ensures
        by_path(files, places, n).len() == n,
        forall|i: int| 0 <= i < n ==> #[trigger] by_path(files, places, n)[i] < count,
    decreases n,
{
    if n > 0 {
        lemma_by_path(files, places, (n - 1) as nat, count);
        let earlier = by_path(files, places, (n - 1) as nat);
        let place = places[n - 1];
        let p = path_not_after(files, files[place as int].path);
        text::lemma_run(earlier, p);
        let at = text::run(earlier, p) as int;
        let new = by_path(files, places, n);
        assert forall|i: int| 0 <= i < n implies #[trigger] new[i] < count by {
            if i < at {
                assert(new[i] == earlier[i]);
            } else if i > at {
                assert(new[i] == earlier[i - 1]);
            }
        }
    }
}

/// A list of places as its view, as a function.
pub open spec fn to_places() -> spec_fn(Vec<usize>) -> Seq<usize> {
    |v: Vec<usize>| v@
}

fn group_files(files: &Vec<RemoteFile>) -> (out: Table<Vec<usize>>)
    ensures
        table::mapped(out@, to_places()) == by_group(remote_views(files@), files@.len()),
{
    let ghost all = remote_views(files@);
    let mut out: Table<Vec<usize>> = Table::new();
    proof {
        assert(table::mapped(out@, to_places()) =~= seq![]);
    }
    let mut i: usize = 0;
    while i < files.len()
        invariant
            i <= files@.len(),
            all == remote_views(files@),
            table::mapped(out@, to_places()) == by_group(all, i as nat),
        decreases files@.len() - i,
    {
        let key: String = shard_group_key(files[i].path.as_str());
        proof {
            assert(all[i as int] == files@[i as int]@);
            table::lemma_mapped_lookup(out@, to_places(), key@);
        }
        let mut places: Vec<usize> = match out.get(key.as_str()) {
            Some(list) => list.clone(),
            None => Vec::new(),
        };
        let ghost before = places@;
        places.push(i);
        proof {
            match table::lookup(by_group(all, i as nat), key@) {
                Some(list) => {
                    assert(before == list);
                },
                None => {
                    assert(before =~= seq![]);
                },
            }
            table::lemma_mapped_put(out@, to_places(), key@, places);
        }
        out.insert(key, places);
        i += 1;
    }
    out
}

fn order_by_path(files: &Vec<RemoteFile>, places: &Vec<usize>) -> (out: Vec<usize>)
    requires
        forall|i: int| 0 <= i < places@.len() ==> #[trigger] places@[i] < files@.len(),
    ensures
        out@ == by_path(remote_views(files@), places@, places@.len()),
{
    let ghost all = remote_views(files@);
    let mut out: Vec<usize> = Vec::new();
    let mut n: usize = 0;
    proof {
        assert(out@ =~= seq![]);
    }
    while n < places.len()
        invariant
            n <= places@.len(),
            all == remote_views(files@),
            forall|i: int| 0 <= i < places@.len() ==> #[trigger] places@[i] < files@.len(),
            out@ == by_path(all, places@, n as nat),
        decreases places@.len() - n,
    {
        let place: usize = places[n];
        proof {
            assert(places@[n as int] < files@.len());
            assert(all[place as int] == files@[place as int]@);
            lemma_by_path(all, places@, n as nat, files@.len());
        }
        let path: &str = files[place].path.as_str();
        let mut at: usize = 0;
        let ghost p = path_not_after(all, path@);
        while at < out.len() && !text::comes_before(path, files[out[at]].path.as_str())
            invariant
                at <= out@.len(),
                all == remote_views(files@),
                out@ == by_path(all, places@, n as nat),
                forall|i: int| 0 <= i < out@.len() ==> #[trigger] out@[i] < files@.len(),
                p == path_not_after(all, path@),
                forall|j: int| 0 <= j < at ==> p(#[trigger] out@[j]),
            decreases out@.len() - at,
        {
            proof {
                assert(out@[at as int] < files@.len());
                assert(all[out@[at as int] as int] == files@[out@[at as int] as int]@);
            }
            at += 1;
        }
        proof {
            if at < out@.len() {
                assert(out@[at as int] < files@.len());
                assert(all[out@[at as int] as int] == files@[out@[at as int] as int]@);
            }
            text::lemma_run_unique(out@, p, at as int);
        }
        out.insert(at, place);
        n += 1;
    }
    out
}

proof fn lemma_size_grows(files: Seq<RemoteView>, n: nat, more: nat)
    requires
        n <= more,
    ensures
        size_of(files, n) <= size_of(files, more),
    decreases more,
{
    if n < more {
        lemma_size_grows(files, n, (more - 1) as nat);
    }
}

fn total_size(files: &Vec<RemoteFile>) -> (out: Option<u64>)
    ensures
        ({
            let sum = size_of(remote_views(files@), files@.len());
            match out {
                Some(n) => n == sum,
                None => sum > u64::MAX,
            }
        }),
{
    let ghost all = remote_views(files@);
    let mut sum: u64 = 0;
    let mut i: usize = 0;
    while i < files.len()
        invariant
            i <= files@.len(),
            all == remote_views(files@),
            sum == size_of(all, i as nat),
        decreases files@.len() - i,
    {
        proof {
            assert(all[i as int] == files@[i as int]@);
            lemma_size_grows(all, (i + 1) as nat, all.len());
        }
        sum =
        match sum.checked_add(files[i].size) {
            Some(n) => n,
            None => return None,
        };
        i += 1;
    }
    Some(sum)
}

/// Makes a model out of the files at some places; `None` where their size is too
/// large.
fn artifact(files: &Vec<RemoteFile>, places: &Vec<usize>, projector: &Option<RemoteFile>) -> (out:
    Option<Artifact>)
    requires
        places@.len() > 0,
        forall|i: int| 0 <= i < places@.len() ==> #[trigger] places@[i] < files@.len(),
    ensures
        ({
            let v = artifact_of(
                files_at(remote_views(files@), places@),
                remote_view(*projector),
            );
            match out {
                Some(a) => a@ == v && v.size <= u64::MAX,
                None => v.size > u64::MAX,
            }
        }),
{
    let ghost all = remote_views(files@);
    let ghost held = files_at(all, places@);
    let ghost wanted = remote_view(*projector);
    proof {
        assert(places@[0] < files@.len());
        assert(held[0] == files@[places@[0] as int]@);
    }
    let first: &str = files[places[0]].path.as_str();
    let expected: usize = match shard_parts(first) {
        Some((_, n)) => n,
        None => 1,
    };
    let quant: String = match quantization(first) {
        Some(q) => q,
        None => "UNKNOWN".to_owned(),
    };
    let mut list: Vec<RemoteFile> = Vec::new();
    let mut i: usize = 0;
    proof {
        assert(remote_views(list@) =~= held.take(0));
    }
    while i < places.len()
        invariant
            i <= places@.len(),
            all == remote_views(files@),
            held == files_at(all, places@),
            forall|i: int| 0 <= i < places@.len() ==> #[trigger] places@[i] < files@.len(),
            remote_views(list@) == held.take(i as int),
        decreases places@.len() - i,
    {
        proof {
            assert(places@[i as int] < files@.len());
            assert(held[i as int] == files@[places@[i as int] as int]@);
        }
        let f: RemoteFile = files[places[i]].copy();
        let ghost before = remote_views(list@);
        list.push(f);
        proof {
            assert(remote_views(list@) =~= before.push(f@));
            assert(held.take(i + 1) =~= held.take(i as int).push(held[i as int]));
        }
        i += 1;
    }
    proof {
        assert(held.take(held.len() as int) =~= held);
    }
    match projector {
        Some(p) => {
            let f: RemoteFile = p.copy();
            let ghost before = remote_views(list@);
            list.push(f);
            proof {
                assert(remote_views(list@) =~= before.push(f@));
            }
        },
        None => {},
    }
    let size: u64 = match total_size(&list) {
        Some(n) => n,
        None => return None,
    };
    Some(
        Artifact {
            description: quant_description(quant.as_str()).to_owned(),
            quality: quant_quality(quant.as_str()),
            recommended: text::same(quant.as_str(), "Q4_K_M"),
            label: quant,
            files: list,
            size,
            shard_count: expected,
            has_mmproj: projector.is_some(),
            complete: places.len() == expected,
        },
    )
}

fn comes_first(a: &Artifact, b: &Artifact) -> (yes: bool)
    ensures
        yes == listed_before(a@, b@),
{
    if a.recommended != b.recommended {
        a.recommended
    } else if a.quality != b.quality {
        a.quality > b.quality
    } else if a.size != b.size {
        a.size < b.size
    } else {
        text::comes_before(a.label.as_str(), b.label.as_str())
    }
}

/// Puts a model into its place in the list.
fn list_artifact(list: &mut Vec<Artifact>, a: Artifact)
    ensures
        artifact_views(final(list)@) == artifact_views(old(list)@).insert(
            text::run(artifact_views(old(list)@), not_listed_after(a@)) as int,
            a@,
        ),
{
    let ghost all = artifact_views(list@);
    let ghost p = not_listed_after(a@);
    let mut at: usize = 0;
    while at < list.len() && !comes_first(&a, &list[at])
        invariant
            at <= list@.len(),
            all == artifact_views(list@),
            p == not_listed_after(a@),
            forall|j: int| 0 <= j < at ==> p(#[trigger] all[j]),
        decreases list@.len() - at,
    {
        proof {
            assert(all[at as int] == list@[at as int]@);
        }
        at += 1;
    }
    proof {
        assert(at < list@.len() ==> all[at as int] == list@[at as int]@);
        text::lemma_run_unique(all, p, at as int);
    }
    list.insert(at, a);
    proof {
        assert(artifact_views(list@) =~= all.insert(at as int, a@));
    }
}

/// Lists the models that a repository offers.
pub fn artifacts(nodes: &Vec<TreeNode>) -> (out: Result<Vec<Artifact>, ArtifactError>)
    ensures
        match (out, artifacts_of(node_views(nodes@))) {
            (Ok(list), Ok(v)) => artifact_views(list@) == v,
            (Err(e), Err(f)) => e@ == f,
            _ => false,
        },
{
    let ghost all = node_views(nodes@);
    let mut files: Vec<RemoteFile> = Vec::new();
    let mut projectors: Vec<RemoteFile> = Vec::new();
    proof {
        assert(remote_views(files@) =~= seq![]);
        assert(remote_views(projectors@) =~= seq![]);
    }
    let mut i: usize = 0;
    while i < nodes.len()
        invariant
            i <= nodes@.len(),
            all == node_views(nodes@),
            model_files(all, i as nat, false) == Ok::<Seq<RemoteView>, Seq<char>>(
                remote_views(files@),
            ),
            model_files(all, i as nat, true) == Ok::<Seq<RemoteView>, Seq<char>>(
                remote_views(projectors@),
            ),
        decreases nodes@.len() - i,
    {
        let node: &TreeNode = &nodes[i];
        proof {
            assert(all[i as int] == node@);
            if model_files(all, (i + 1) as nat, false) is Err {
                lemma_model_files_fail(all, (i + 1) as nat, all.len(), false);
            }
        }
        if text::same(node.kind.as_str(), "file") || text::same(node.kind.as_str(), "blob") {
            if ensure_safe_relative_path(node.path.as_str()).is_err() {
                return Err(ArtifactError::Path(node.path.clone()));
            }
            if text::ends_with(text::to_lower(node.path.as_str()).as_str(), ".gguf") {
                let f: RemoteFile = remote(node);
                if is_mmproj(node.path.as_str()) {
                    let ghost before = remote_views(projectors@);
                    projectors.push(f);
                    proof {
                        assert(remote_views(projectors@) =~= before.push(f@));
                    }
                } else {
                    let ghost before = remote_views(files@);
                    files.push(f);
                    proof {
                        assert(remote_views(files@) =~= before.push(f@));
                    }
                }
            }
        }
        i += 1;
    }
    let ghost fs = remote_views(files@);
    let ghost ps = remote_views(projectors@);
    let projector: Option<RemoteFile> = match preferred_mmproj(projectors.as_slice()) {
        Some(f) => Some(f.copy()),
        None => None,
    };
    let ghost wanted = remote_view(projector);
    proof {
        assert(ps.len() == projectors@.len());
        if ps.len() > 0 {
            lemma_preferred(ps, ps.len());
            let k = preferred(ps, ps.len());
            assert(ps[k] == projectors@[k]@);
        }
    }
    let groups: Table<Vec<usize>> = group_files(&files);
    let ghost gs = table::mapped(groups@, to_places());
    let _count: usize = files.len();
    proof {
        lemma_by_group(fs, fs.len());
    }
    let mut list: Vec<Artifact> = Vec::new();
    let mut g: usize = 0;
    let ghost made = artifacts_in(fs, gs, wanted, gs.len());
    proof {
        assert(artifact_views(list@) =~= artifacts_in(fs, gs, wanted, 0));
    }
    while g < groups.len()
        invariant
            g <= groups@.len(),
            all == node_views(nodes@),
            model_files(all, all.len(), false) == Ok::<Seq<RemoteView>, Seq<char>>(fs),
            model_files(all, all.len(), true) == Ok::<Seq<RemoteView>, Seq<char>>(ps),
            wanted == (if ps.len() == 0 {
                None
            } else {
                Some(ps[preferred(ps, ps.len())])
            }),
            wanted == remote_view(projector),
            fs == remote_views(files@),
            gs == table::mapped(groups@, to_places()),
            gs == by_group(fs, fs.len()),
            places_fit(gs, fs.len()),
            forall|g: int| 0 <= g < gs.len() ==> (#[trigger] gs[g]).1.len() > 0,
            made == artifacts_in(fs, gs, wanted, gs.len()),
            artifact_views(list@) == artifacts_in(fs, gs, wanted, g as nat),
            sizes_fit(artifact_views(list@)),
        decreases groups@.len() - g,
    {
        let places: &Vec<usize> = groups.value_at(g);
        proof {
            assert(gs[g as int].1 == places@);
            assert(gs[g as int].1.len() > 0);
            assert forall|i: int| 0 <= i < places@.len() implies #[trigger] places@[i]
                < files@.len() by {
                assert(gs[g as int].1[i] < fs.len());
            }
            lemma_by_path(fs, places@, places@.len(), files@.len());
            lemma_artifacts_in(fs, gs, wanted, g as int, gs.len());
        }
        let ordered: Vec<usize> = order_by_path(&files, places);
        match artifact(&files, &ordered, &projector) {
            Some(a) => {
                let ghost before = artifact_views(list@);
                list.push(a);
                proof {
                    assert(artifact_views(list@) =~= before.push(a@));
                    assert forall|i: int| 0 <= i < artifact_views(list@).len() implies (
                    #[trigger] artifact_views(list@)[i]).size <= u64::MAX by {
                        if i < before.len() {
                            assert(before[i].size <= u64::MAX);
                        }
                    }
                }
            },
            None => {
                proof {
                    assert(made[g as int].size > u64::MAX);
                    assert(!sizes_fit(made));
                }
                return Err(ArtifactError::Size);
            },
        }
        g += 1;
    }
    let ghost unsorted = artifact_views(list@);
    let mut out: Vec<Artifact> = Vec::new();
    proof {
        assert(artifact_views(out@) =~= seq![]);
    }
    let mut k: usize = 0;
    while k < list.len()
        invariant
            k <= list@.len(),
            unsorted == artifact_views(list@),
            artifact_views(out@) == in_list_order(unsorted, k as nat),
        decreases list@.len() - k,
    {
        let a: Artifact = list[k].copy();
        proof {
            assert(unsorted[k as int] == list@[k as int]@);
        }
        list_artifact(&mut out, a);
        k += 1;
    }
    Ok(out)
}

proof fn lemma_artifacts_in(
    files: Seq<RemoteView>,
    groups: Seq<(Seq<char>, Seq<usize>)>,
    projector: Option<RemoteView>,
    g: int,
    n: nat,
)
    requires
        0 <= g < n <= groups.len(),
    ensures
        artifacts_in(files, groups, projector, n).len() == n,
        artifacts_in(files, groups, projector, n)[g] == artifact_of(
            files_at(files, by_path(files, groups[g].1, groups[g].1.len())),
            projector,
        ),
    decreases n,
{
    reveal_with_fuel(artifacts_in, 2);
    if g < n - 1 {
        lemma_artifacts_in(files, groups, projector, g, (n - 1) as nat);
    } else if n > 1 {
        lemma_artifacts_in(files, groups, projector, 0, (n - 1) as nat);
    }
}

fn copy_files(list: &Vec<RemoteFile>) -> (out: Vec<RemoteFile>)
    ensures
        remote_views(out@) == remote_views(list@),
{
    let ghost all = remote_views(list@);
    let mut out: Vec<RemoteFile> = Vec::new();
    let mut i: usize = 0;
    proof {
        assert(remote_views(out@) =~= all.take(0));
    }
    while i < list.len()
        invariant
            i <= list@.len(),
            all == remote_views(list@),
            remote_views(out@) == all.take(i as int),
        decreases list@.len() - i,
    {
        let f: RemoteFile = list[i].copy();
        let ghost before = remote_views(out@);
        out.push(f);
        proof {
            assert(all[i as int] == f@);
            assert(remote_views(out@) =~= before.push(f@));
            assert(all.take(i + 1) =~= all.take(i as int).push(all[i as int]));
        }
        i += 1;
    }
    proof {
        assert(all.take(all.len() as int) =~= all);
    }
    out
}

impl Artifact {
    pub fn copy(&self) -> (out: Artifact)
        ensures
            out@ == self@,
    {
        Artifact {
            label: self.label.clone(),
            description: self.description.clone(),
            quality: self.quality,
            recommended: self.recommended,
            files: copy_files(&self.files),
            size: self.size,
            shard_count: self.shard_count,
            has_mmproj: self.has_mmproj,
            complete: self.complete,
        }
    }
}

/// The models of a repository are listed in order: none that belongs in front stands
/// behind, and none is lost.
pub proof fn list_is_ordered(list: Seq<ArtifactView>, n: nat)
    requires
        n <= list.len(),
    ensures
        in_list_order(list, n).len() == n,
        in_list_order(list, n).to_multiset() == list.take(n as int).to_multiset(),
        forall|i: int, j: int|
            #![trigger in_list_order(list, n)[i], in_list_order(list, n)[j]]
            0 <= i < j < n ==> !listed_before(in_list_order(list, n)[j], in_list_order(list, n)[i]),
    decreases n,
{
    if n == 0 {
        assert(in_list_order(list, 0) =~= list.take(0));
    } else {
        list_is_ordered(list, (n - 1) as nat);
        let earlier = in_list_order(list, (n - 1) as nat);
        let e = list[n - 1];
        let p = not_listed_after(e);
        text::lemma_run(earlier, p);
        let at = text::run(earlier, p) as int;
        let new = in_list_order(list, n);
        new.to_multiset_ensures();
        assert(new[at] == e);
        assert(new.remove(at) =~= earlier);
        assert(new.to_multiset() =~= earlier.to_multiset().insert(e));
        assert(list.take(n as int) =~= list.take(n - 1).push(e));
        vstd::seq_lib::to_multiset_build(list.take(n - 1), e);
        assert forall|i: int, j: int|
            #![trigger new[i], new[j]]
            0 <= i < j < n implies !listed_before(new[j], new[i]) by {
            if j < at {
                assert(new[i] == earlier[i] && new[j] == earlier[j]);
            } else if j == at {
                assert(new[i] == earlier[i]);
                assert(p(earlier[i]));
            } else if i < at {
                assert(new[i] == earlier[i] && new[j] == earlier[j - 1]);
            } else {
                assert(new[j] == earlier[j - 1]);
                assert(!p(earlier[at]));
                if i > at {
                    assert(new[i] == earlier[i - 1]);
                } else {
                    lemma_listing(earlier[j - 1], e, earlier[at]);
                    if at < j - 1 {
                        assert(!listed_before(earlier[j - 1], earlier[at]));
                    } else {
                        text::lemma_before_irreflexive(earlier[at].label);
                    }
                }
            }
        }
    }
}

proof fn lemma_listing(a: ArtifactView, b: ArtifactView, c: ArtifactView)
    ensures
        listed_before(a, b) && listed_before(b, c) ==> listed_before(a, c),
{
    if text::before(a.label, b.label) && text::before(b.label, c.label) {
        text::lemma_before_transitive(a.label, b.label, c.label);
    }
}

/// A repository as the service describes it.
pub struct ApiRepository {
    pub id: String,
    pub downloads: u64,
    pub likes: u64,
    pub private: bool,
    pub gated: JsonValue,
    pub tags: Vec<String>,
    pub last_modified: String,
    pub author: String,
    pub pipeline_tag: String,
    pub library_name: String,
    pub card_data: JsonValue,
}

pub ghost struct ApiView {
    pub id: Seq<char>,
    pub downloads: u64,
    pub likes: u64,
    pub private: bool,
    pub gated: Json,
    pub tags: Seq<Seq<char>>,
    pub last_modified: Seq<char>,
    pub author: Seq<char>,
    pub pipeline_tag: Seq<char>,
    pub library_name: Seq<char>,
    pub card_data: Json,
}

impl View for ApiRepository {
    type V = ApiView;

    open spec fn view(&self) -> ApiView {
        ApiView {
            id: self.id@,
            downloads: self.downloads,
            likes: self.likes,
            private: self.private,
            gated: self.gated@,
            tags: text::views(self.tags@),
            last_modified: self.last_modified@,
            author: self.author@,
            pipeline_tag: self.pipeline_tag@,
            library_name: self.library_name@,
            card_data: self.card_data@,
        }
    }
}

/// A repository in the results of a search.
pub struct Repository {
    pub id: String,
    pub downloads: u64,
    pub likes: u64,
    pub license: String,
    pub updated: String,
}

pub ghost struct RepositoryView {
    pub id: Seq<char>,
    pub downloads: u64,
    pub likes: u64,
    pub license: Seq<char>,
    pub updated: Seq<char>,
}

impl View for Repository {
    type V = RepositoryView;

    open spec fn view(&self) -> RepositoryView {
        RepositoryView {
            id: self.id@,
            downloads: self.downloads,
            likes: self.likes,
            license: self.license@,
            updated: self.updated@,
        }
    }
}

/// A chat template that a search found.
pub struct TemplateHit {
    pub id: String,
    pub template: String,
    pub downloads: u64,
    pub likes: u64,
}

/// Not being a tag for a license, as a function.
pub open spec fn no_license() -> spec_fn(Seq<char>) -> bool {
    |tag: Seq<char>| !"license:"@.is_prefix_of(tag)
}

/// The license that the tags name.
pub open spec fn license_tag(tags: Seq<Seq<char>>) -> Option<Seq<char>> {
    let at = text::run(tags, no_license()) as int;
    if at < tags.len() {
        Some(tags[at].skip("license:"@.len() as int))
    } else {
        None
    }
}

fn tagged_license(tags: &Vec<String>) -> (out: Option<String>)
    ensures
        metadata::text_view(out) == license_tag(text::views(tags@)),
{
    let ghost all = text::views(tags@);
    let mut i: usize = 0;
    while i < tags.len()
        invariant
            i <= tags@.len(),
            all == text::views(tags@),
            forall|j: int| 0 <= j < i ==> no_license()(#[trigger] all[j]),
        decreases tags@.len() - i,
    {
        proof {
            assert(all[i as int] == tags@[i as int]@);
        }
        let found: Option<String> = process::after_prefix(tags[i].as_str(), "license:");
        if found.is_some() {
            proof {
                text::lemma_run_unique(all, no_license(), i as int);
            }
            return found;
        }
        i += 1;
    }
    proof {
        text::lemma_run_unique(all, no_license(), i as int);
    }
    None
}

/// The day in a time.
pub open spec fn day_of(time: Seq<char>) -> Seq<char> {
    text::split_of(time, 'T')[0]
}

fn day(time: &str) -> (out: String)
    ensures
        out@ == day_of(time@),
{
    let parts: Vec<String> = text::split(time, 'T');
    proof {
        text::lemma_split_nonempty(time@, 'T');
        assert(text::views(parts@)[0] == parts@[0]@);
    }
    parts[0].clone()
}

pub open spec fn or_unknown(s: Option<Seq<char>>) -> Seq<char> {
    match s {
        Some(s) => s,
        None => "unknown"@,
    }
}

/// What a search shows of a repository: nothing where it is private, gated or has no
/// proper name.
pub open spec fn shown_repository(r: ApiView) -> Option<RepositoryView> {
    if !r.private && r.gated == Json::Bool(false) && repo_of(r.id) is Ok {
        Some(
            RepositoryView {
                id: r.id,
                downloads: r.downloads,
                likes: r.likes,
                license: or_unknown(license_tag(r.tags)),
                updated: day_of(r.last_modified),
            },
        )
    } else {
        None
    }
}

pub fn search_result(r: &ApiRepository) -> (out: Option<Repository>)
    ensures
        match (out, shown_repository(r@)) {
            (Some(a), Some(b)) => a@ == b,
            (None, None) => true,
            _ => false,
        },
{
    if r.private || !is_not_gated(&r.gated) || !valid_repo_id(r.id.as_str()) {
        return None;
    }
    Some(
        Repository {
            id: r.id.clone(),
            downloads: r.downloads,
            likes: r.likes,
            license: match tagged_license(&r.tags) {
                Some(s) => s,
                None => "unknown".to_owned(),
            },
            updated: day(r.last_modified.as_str()),
        },
    )
}

pub open spec fn api_views(list: Seq<ApiRepository>) -> Seq<ApiView> {
    list.map_values(|r: ApiRepository| r@)
}

pub open spec fn repository_views(list: Seq<Repository>) -> Seq<RepositoryView> {
    list.map_values(|r: Repository| r@)
}

/// What a search shows of the first `n` repositories that were found, in their order.
pub open spec fn shown_repositories(list: Seq<ApiView>, n: nat) -> Seq<RepositoryView>
    decreases n,
{
    if n == 0 {
        seq![]
    } else {
        let earlier = shown_repositories(list, (n - 1) as nat);
        match shown_repository(list[n - 1]) {
            Some(r) => earlier.push(r),
            None => earlier,
        }
    }
}

/// What a search shows, in the order in which the service lists it.
pub fn search_results(list: &Vec<ApiRepository>) -> (out: Vec<Repository>)
    ensures
        repository_views(out@) == shown_repositories(api_views(list@), list@.len()),
{
    let ghost all = api_views(list@);
    let mut out: Vec<Repository> = Vec::new();
    let mut i: usize = 0;
    proof {
        assert(repository_views(out@) =~= seq![]);
    }
    while i < list.len()
        invariant
            i <= list@.len(),
            all == api_views(list@),
            repository_views(out@) == shown_repositories(all, i as nat),
        decreases list@.len() - i,
    {
        proof {
            assert(all[i as int] == list@[i as int]@);
        }
        match search_result(&list[i]) {
            Some(r) => {
                let ghost before = out@;
                out.push(r);
                proof {
                    assert(repository_views(out@) =~= repository_views(before).push(r@));
                }
            },
            None => {},
        }
        i += 1;
    }
    out
}

/// What is asked of the service in a search.
pub open spec fn search_pairs_of(query: Seq<char>, filter: Option<Seq<char>>) -> Seq<
    (Seq<char>, Seq<char>),
> {
    let pairs = seq![
        ("search"@, text::trim_of(query)),
        ("sort"@, "likes"@),
        ("direction"@, "-1"@),
        ("limit"@, "25"@),
        ("full"@, "true"@),
    ];
    match filter {
        Some(f) => pairs.push(("filter"@, f)),
        None => pairs,
    }
}

fn add_pair(list: &mut Vec<(String, String)>, key: &str, value: &str)
    ensures
        profiles::pair_views(final(list)@) == profiles::pair_views(old(list)@).push((key@, value@)),
{
    let pair: (String, String) = (key.to_owned(), value.to_owned());
    let ghost before = profiles::pair_views(list@);
    list.push(pair);
    proof {
        assert(profiles::pair_views(list@) =~= before.push((pair.0@, pair.1@)));
    }
}

pub fn search_pairs(query: &str, filter: Option<&str>) -> (out: Vec<(String, String)>)
    ensures
        profiles::pair_views(out@) == search_pairs_of(
            query@,
            match filter {
                Some(f) => Some(f@),
                None => None,
            },
        ),
{
    let mut out: Vec<(String, String)> = Vec::new();
    proof {
        assert(profiles::pair_views(out@) =~= seq![]);
    }
    add_pair(&mut out, "search", text::trim(query).as_str());
    add_pair(&mut out, "sort", "likes");
    add_pair(&mut out, "direction", "-1");
    add_pair(&mut out, "limit", "25");
    add_pair(&mut out, "full", "true");
    match filter {
        Some(f) => add_pair(&mut out, "filter", f),
        None => {},
    }
    proof {
        assert(profiles::pair_views(out@) =~= search_pairs_of(
            query@,
            match filter {
                Some(f) => Some(f@),
                None => None,
            },
        ));
    }
    out
}

/// A text under a key, where it is not blank.
pub open spec fn template_under(value: Json, key: Seq<char>) -> Option<Seq<char>> {
    match json::member_in(value, key) {
        Some(Json::Text(s)) => if text::trim_of(s).len() > 0 {
            Some(s)
        } else {
            None
        },
        _ => None,
    }
}

/// The chat template in a repository's description.
pub open spec fn chat_template_of(description: Json) -> Option<Seq<char>> {
    match json::member_in(description, "config"@) {
        Some(config) => match template_under(config, "chat_template_jinja"@) {
            Some(s) => Some(s),
            None => template_under(config, "chat_template"@),
        },
        None => None,
    }
}

/// A text under a key of the tokenizer's settings, where it is not blank.
pub fn template_text(value: &JsonValue, key: &str) -> (out: Option<String>)
    ensures
        metadata::text_view(out) == template_under(value@, key@),
{
    match value.get(key) {
        Some(JsonValue::String(s)) => if text::chars_of(text::trim(s.as_str()).as_str()).len() > 0 {
            Some(s.clone())
        } else {
            None
        },
        _ => None,
    }
}

pub fn chat_template(description: &JsonValue) -> (out: Option<String>)
    ensures
        metadata::text_view(out) == chat_template_of(description@),
{
    match description.get("config") {
        Some(config) => match template_text(config, "chat_template_jinja") {
            Some(s) => Some(s),
            None => template_text(config, "chat_template"),
        },
        None => None,
    }
}

/// What is shown of a model.
pub struct ModelDetails {
    pub id: String,
    pub author: String,
    pub downloads: u64,
    pub likes: u64,
    pub license: String,
    pub updated: String,
    pub task: String,
    pub library: String,
    pub base_model: String,
    pub languages: Vec<String>,
    pub tags: Vec<String>,
    pub url: String,
    pub readme: String,
}

#[verifier::ext_equal]
pub ghost struct DetailsView {
    pub id: Seq<char>,
    pub author: Seq<char>,
    pub downloads: u64,
    pub likes: u64,
    pub license: Seq<char>,
    pub updated: Seq<char>,
    pub task: Seq<char>,
    pub library: Seq<char>,
    pub base_model: Seq<char>,
    pub languages: Seq<Seq<char>>,
    pub tags: Seq<Seq<char>>,
    pub url: Seq<char>,
    pub readme: Seq<char>,
}

impl View for ModelDetails {
    type V = DetailsView;

    open spec fn view(&self) -> DetailsView {
        DetailsView {
            id: self.id@,
            author: self.author@,
            downloads: self.downloads,
            likes: self.likes,
            license: self.license@,
            updated: self.updated@,
            task: self.task@,
            library: self.library@,
            base_model: self.base_model@,
            languages: text::views(self.languages@),
            tags: text::views(self.tags@),
            url: self.url@,
            readme: self.readme@,
        }
    }
}

/// Whether a tag says what is not shown elsewhere.
pub open spec fn is_plain_tag(tag: Seq<char>) -> bool {
    !"license:"@.is_prefix_of(tag) && !"base_model:"@.is_prefix_of(tag) && !"region:"@.is_prefix_of(
        tag,
    ) && tag != "gguf"@
}

/// The first `max` plain tags among the first `n`.
pub open spec fn plain_tags(tags: Seq<Seq<char>>, n: nat, max: nat) -> Seq<Seq<char>>
    decreases n,
{
    if n == 0 {
        seq![]
    } else {
        let earlier = plain_tags(tags, (n - 1) as nat, max);
        if earlier.len() < max && is_plain_tag(tags[n - 1]) {
            earlier.push(tags[n - 1])
        } else {
            earlier
        }
    }
}

fn shown_tags(tags: &Vec<String>, max: usize) -> (out: Vec<String>)
    ensures
        text::views(out@) == plain_tags(text::views(tags@), tags@.len(), max as nat),
{
    let ghost all = text::views(tags@);
    let mut out: Vec<String> = Vec::new();
    let mut i: usize = 0;
    proof {
        assert(text::views(out@) =~= seq![]);
    }
    while i < tags.len()
        invariant
            i <= tags@.len(),
            all == text::views(tags@),
            text::views(out@) == plain_tags(all, i as nat, max as nat),
        decreases tags@.len() - i,
    {
        let tag: &str = tags[i].as_str();
        proof {
            assert(all[i as int] == tag@);
            assert(text::views(out@).len() == out@.len());
        }
        if out.len() < max && !text::starts_with(tag, "license:") && !text::starts_with(
            tag,
            "base_model:",
        ) && !text::starts_with(tag, "region:") && !text::same(tag, "gguf") {
            process::add(&mut out, tag);
        }
        i += 1;
    }
    out
}

/// What is shown of a model, from what the service says of it and its card.
pub open spec fn details_of(r: ApiView, repo: Seq<char>, readme: Seq<char>) -> DetailsView {
    let base = text::joined(card_texts(r.card_data, "base_model"@), ", "@);
    DetailsView {
        id: r.id,
        author: if r.author.len() == 0 {
            text::split_of(repo, '/')[0]
        } else {
            r.author
        },
        downloads: r.downloads,
        likes: r.likes,
        license: match card_text(r.card_data, "license"@) {
            Some(s) => s,
            None => or_unknown(license_tag(r.tags)),
        },
        updated: day_of(r.last_modified),
        task: if r.pipeline_tag.len() == 0 {
            or_unknown(card_text(r.card_data, "pipeline_tag"@))
        } else {
            r.pipeline_tag
        },
        library: if r.library_name.len() == 0 {
            "unknown"@
        } else {
            r.library_name
        },
        base_model: if base.len() == 0 {
            "unknown"@
        } else {
            base
        },
        languages: card_texts(r.card_data, "language"@),
        tags: plain_tags(r.tags, r.tags.len(), 16),
        url: "https://huggingface.co/"@ + repo,
        readme,
    }
}

fn or_not_known(s: Option<String>) -> (out: String)
    ensures
        out@ == or_unknown(metadata::text_view(s)),
{
    match s {
        Some(s) => s,
        None => "unknown".to_owned(),
    }
}

fn is_empty(s: &str) -> (yes: bool)
    ensures
        yes == (s@.len() == 0),
{
    text::chars_of(s).len() == 0
}

pub fn details(r: &ApiRepository, repo: &str, readme: String) -> (out: ModelDetails)
    ensures
        out@ == details_of(r@, repo@, readme@),
{
    let license: String = match card_string(&r.card_data, "license") {
        Some(s) => s,
        None => or_not_known(tagged_license(&r.tags)),
    };
    let bases: Vec<String> = card_strings(&r.card_data, "base_model");
    let base: String = text::join(bases.as_slice(), ", ");
    let owners: Vec<String> = text::split(repo, '/');
    proof {
        text::lemma_split_nonempty(repo@, '/');
        assert(text::views(owners@)[0] == owners@[0]@);
    }
    let mut url: String = "https://huggingface.co/".to_owned();
    url.append(repo);
    ModelDetails {
        id: r.id.clone(),
        author: if is_empty(r.author.as_str()) {
            owners[0].clone()
        } else {
            r.author.clone()
        },
        downloads: r.downloads,
        likes: r.likes,
        license,
        updated: day(r.last_modified.as_str()),
        task: if is_empty(r.pipeline_tag.as_str()) {
            or_not_known(card_string(&r.card_data, "pipeline_tag"))
        } else {
            r.pipeline_tag.clone()
        },
        library: if is_empty(r.library_name.as_str()) {
            "unknown".to_owned()
        } else {
            r.library_name.clone()
        },
        base_model: if is_empty(base.as_str()) {
            "unknown".to_owned()
        } else {
            base
        },
        languages: card_strings(&r.card_data, "language"),
        tags: shown_tags(&r.tags, 16),
        url,
        readme,
    }
}

/// What an answer of the service says.
#[derive(Clone, Copy, Debug, PartialEq, Eq, Structural)]
pub enum Answer {
    Success,
    AuthenticationRequired,
    AccessDenied,
    NotFound,
    RateLimited,
    Failure,
}

pub open spec fn answer_of(status: u16) -> Answer {
    if 200 <= status < 300 {
        Answer::Success
    } else if status == 401 {
        Answer::AuthenticationRequired
    } else if status == 403 {
        Answer::AccessDenied
    } else if status == 404 {
        Answer::NotFound
    } else if status == 429 {
        Answer::RateLimited
    } else {
        Answer::Failure
    }
}

pub fn answer(status: u16) -> (out: Answer)
    ensures
        out == answer_of(status),
{
    if 200 <= status && status < 300 {
        Answer::Success
    } else if status == 401 {
        Answer::AuthenticationRequired
    } else if status == 403 {
        Answer::AccessDenied
    } else if status == 404 {
        Answer::NotFound
    } else if status == 429 {
        Answer::RateLimited
    } else {
        Answer::Failure
    }
}

/// Whether a character stands in the path of an address as it is.
pub open spec fn is_address_char(c: char) -> bool {
    '!' <= c <= '~' && c != '"' && c != '#' && c != '<' && c != '>' && c != '?' && c != '`' && c
        != '{' && c != '}' && c != '\\'
}

/// Whether an address is one of the service, without a query and with nothing to encode.
pub open spec fn is_plain_address(s: Seq<char>) -> bool {
    &&& s == endpoint() || (endpoint() + "/"@).is_prefix_of(s)
    &&& forall|i: int| 0 <= i < s.len() ==> is_address_char(#[trigger] s[i])
}

/// The longest text that the first `n` segments can become: each byte at most three
/// characters, and a slash in front.
pub open spec fn segments_size(segments: Seq<Seq<char>>, n: nat) -> nat
    decreases n,
{
    if n == 0 {
        0
    } else {
        segments_size(segments, (n - 1) as nat) + 1 + 3 * encode_utf8(segments[n - 1]).len()
    }
}

/// The longest text that the first `n` pairs can become.
pub open spec fn pairs_size(pairs: Seq<(Seq<char>, Seq<char>)>, n: nat) -> nat
    decreases n,
{
    if n == 0 {
        0
    } else {
        pairs_size(pairs, (n - 1) as nat) + 2 + 3 * encode_utf8(pairs[n - 1].0).len() + 3
            * encode_utf8(pairs[n - 1].1).len()
    }
}

/// Whether segments can be put behind an address.
pub open spec fn takes_segments(base: Seq<char>, segments: Seq<Seq<char>>) -> bool {
    is_plain_address(base) && base.len() + 1 + segments_size(segments, segments.len()) <= u32::MAX
}

/// Whether pairs can be put behind an address.
pub open spec fn takes_pairs(base: Seq<char>, pairs: Seq<(Seq<char>, Seq<char>)>) -> bool {
    is_plain_address(base) && base.len() + 2 + pairs_size(pairs, pairs.len()) <= u32::MAX
}

/// An address with segments behind its path, as `reqwest::Url::path_segments_mut` and
/// `extend` make it; `None` where the address is none or can have no path.
pub uninterp spec fn segmented(base: Seq<char>, segments: Seq<Seq<char>>) -> Option<Seq<char>>;

/// Calls `reqwest::Url::parse`, then `path_segments_mut` and `extend`, which encode each
/// segment. The result is a function of the address and the segments. They panic where
/// the address becomes longer than a `u32` can count.
#[verifier::external_body]
fn url_with_segments(base: &str, segments: &Vec<String>) -> (out: Option<String>)
    requires
        takes_segments(base@, text::views(segments@)),
    ensures
        metadata::text_view(out) == segmented(base@, text::views(segments@)),
{
    let mut url = reqwest::Url::parse(base).ok()?;
    url.path_segments_mut().ok()?.extend(segments);
    Some(url.to_string())
}

/// An address with pairs behind its query, as `reqwest::Url::query_pairs_mut` and
/// `extend_pairs` make it; `None` where the address is none.
pub uninterp spec fn queried(base: Seq<char>, pairs: Seq<(Seq<char>, Seq<char>)>) -> Option<
    Seq<char>,
>;

/// Calls `reqwest::Url::parse`, then `query_pairs_mut` and `extend_pairs`, which encode
/// each pair. The result is a function of the address and the pairs. They panic where the
/// address becomes longer than a `u32` can count.
#[verifier::external_body]
fn url_with_pairs(base: &str, pairs: &Vec<(String, String)>) -> (out: Option<String>)
    requires
        takes_pairs(base@, profiles::pair_views(pairs@)),
    ensures
        metadata::text_view(out) == queried(base@, profiles::pair_views(pairs@)),
{
    let mut url = reqwest::Url::parse(base).ok()?;
    url.query_pairs_mut().extend_pairs(pairs);
    Some(url.to_string())
}

fn plain_address(s: &str) -> (yes: bool)
    ensures
        yes == is_plain_address(s@),
{
    if !(text::same(s, "https://huggingface.co") || text::starts_with(
        s,
        "https://huggingface.co/",
    )) {
        proof {
            lemma_endpoint();
        }
        return false;
    }
    let chars: Vec<char> = text::chars_of(s);
    let mut i: usize = 0;
    while i < chars.len()
        invariant
            i <= chars@.len(),
            chars@ == s@,
            forall|j: int| 0 <= j < i ==> is_address_char(#[trigger] s@[j]),
        decreases chars@.len() - i,
    {
        let c: char = chars[i];
        let plain: bool = '!' <= c && c <= '~' && c != '"' && c != '#' && c != '<' && c != '>' && c
            != '?' && c != '`' && c != '{' && c != '}' && c != '\\';
        if !plain {
            proof {
                assert(!is_address_char(s@[i as int]));
            }
            return false;
        }
        i += 1;
    }
    proof {
        lemma_endpoint();
    }
    true
}

proof fn lemma_endpoint()
    ensures
        endpoint() + "/"@ == "https://huggingface.co/"@,
{
    reveal_strlit("https://huggingface.co");
    reveal_strlit("https://huggingface.co/");
    reveal_strlit("/");
    assert(endpoint() + "/"@ =~= "https://huggingface.co/"@);
}

proof fn lemma_segments_grow(segments: Seq<Seq<char>>, n: nat, more: nat)
    requires
        n <= more,
    ensures
        segments_size(segments, n) <= segments_size(segments, more),
    decreases more,
{
    if n < more {
        lemma_segments_grow(segments, n, (more - 1) as nat);
    }
}

proof fn lemma_pairs_grow(pairs: Seq<(Seq<char>, Seq<char>)>, n: nat, more: nat)
    requires
        n <= more,
    ensures
        pairs_size(pairs, n) <= pairs_size(pairs, more),
    decreases more,
{
    if n < more {
        lemma_pairs_grow(pairs, n, (more - 1) as nat);
    }
}

/// The most bytes that are counted.
const MOST: usize = 4294967295;

fn room_for_segments(base: &str, segments: &Vec<String>) -> (yes: bool)
    ensures
        yes == takes_segments(base@, text::views(segments@)),
{
    let ghost all = text::views(segments@);
    let length: usize = text::chars_of(base).len();
    if !plain_address(base) || length >= MOST {
        return false;
    }
    let mut total: u64 = length as u64 + 1;
    let mut i: usize = 0;
    while i < segments.len()
        invariant
            i <= segments@.len(),
            all == text::views(segments@),
            is_plain_address(base@),
            total <= u32::MAX,
            total == base@.len() + 1 + segments_size(all, i as nat),
        decreases segments@.len() - i,
    {
        let bytes: usize = segments[i].as_str().as_bytes().len();
        proof {
            assert(all[i as int] == segments@[i as int]@);
            lemma_segments_grow(all, (i + 1) as nat, all.len());
        }
        if bytes > MOST {
            return false;
        }
        total = total + 1 + 3 * (bytes as u64);
        if total > 4294967295 {
            return false;
        }
        i += 1;
    }
    true
}

fn room_for_pairs(base: &str, pairs: &Vec<(String, String)>) -> (yes: bool)
    ensures
        yes == takes_pairs(base@, profiles::pair_views(pairs@)),
{
    let ghost all = profiles::pair_views(pairs@);
    let length: usize = text::chars_of(base).len();
    if !plain_address(base) || length >= MOST - 1 {
        return false;
    }
    let mut total: u64 = length as u64 + 2;
    let mut i: usize = 0;
    while i < pairs.len()
        invariant
            i <= pairs@.len(),
            all == profiles::pair_views(pairs@),
            is_plain_address(base@),
            total <= u32::MAX,
            total == base@.len() + 2 + pairs_size(all, i as nat),
        decreases pairs@.len() - i,
    {
        let key: usize = pairs[i].0.as_str().as_bytes().len();
        let value: usize = pairs[i].1.as_str().as_bytes().len();
        proof {
            assert(all[i as int] == (pairs@[i as int].0@, pairs@[i as int].1@));
            lemma_pairs_grow(all, (i + 1) as nat, all.len());
        }
        if key > MOST || value > MOST {
            return false;
        }
        total = total + 2 + 3 * (key as u64) + 3 * (value as u64);
        if total > 4294967295 {
            return false;
        }
        i += 1;
    }
    true
}

/// An address with segments behind its path, where there is room for them.
pub open spec fn with_segments(base: Seq<char>, segments: Seq<Seq<char>>) -> Result<
    Seq<char>,
    UrlError,
> {
    if takes_segments(base, segments) {
        or_no_address(segmented(base, segments))
    } else {
        Err(UrlError::Address)
    }
}

/// An address with pairs behind its query, where there is room for them.
pub open spec fn with_pairs(base: Seq<char>, pairs: Seq<(Seq<char>, Seq<char>)>) -> Result<
    Seq<char>,
    UrlError,
> {
    if takes_pairs(base, pairs) {
        or_no_address(queried(base, pairs))
    } else {
        Err(UrlError::Address)
    }
}

fn put_segments(base: &str, segments: &Vec<String>) -> (out: Result<String, UrlError>)
    ensures
        address_fits(out, with_segments(base@, text::views(segments@))),
{
    if !room_for_segments(base, segments) {
        return Err(UrlError::Address);
    }
    match url_with_segments(base, segments) {
        Some(url) => Ok(url),
        None => Err(UrlError::Address),
    }
}

fn put_pairs(base: &str, pairs: &Vec<(String, String)>) -> (out: Result<String, UrlError>)
    ensures
        address_fits(out, with_pairs(base@, profiles::pair_views(pairs@))),
{
    if !room_for_pairs(base, pairs) {
        return Err(UrlError::Address);
    }
    match url_with_pairs(base, pairs) {
        Some(url) => Ok(url),
        None => Err(UrlError::Address),
    }
}

/// Why there is no address.
#[derive(Clone, Copy, Debug, PartialEq, Eq, Structural)]
pub enum UrlError {
    Repo(RepoError),
    Path,
    Address,
}

pub open spec fn endpoint() -> Seq<char> {
    "https://huggingface.co"@
}

pub open spec fn or_no_address(url: Option<Seq<char>>) -> Result<Seq<char>, UrlError> {
    match url {
        Some(s) => Ok(s),
        None => Err(UrlError::Address),
    }
}

/// Whether an address is the one that is owed.
pub open spec fn address_fits(
    out: Result<String, UrlError>,
    owed: Result<Seq<char>, UrlError>,
) -> bool {
    match (out, owed) {
        (Ok(s), Ok(t)) => s@ == t,
        (Err(e), Err(f)) => e == f,
        _ => false,
    }
}

/// The segments that lead to a repository in the service's interface.
pub open spec fn api_segments(repo: (Seq<char>, Seq<char>), suffix: Seq<Seq<char>>) -> Seq<
    Seq<char>,
> {
    seq!["api"@, "models"@, repo.0, repo.1] + suffix
}

pub open spec fn api_url_of(repo: Seq<char>, suffix: Seq<Seq<char>>) -> Result<Seq<char>, UrlError> {
    match repo_of(repo) {
        Err(e) => Err(UrlError::Repo(e)),
        Ok(r) => with_segments(endpoint(), api_segments(r, suffix)),
    }
}

pub fn api_url(repo: &str, suffix: &Vec<String>) -> (out: Result<String, UrlError>)
    ensures
        address_fits(out, api_url_of(repo@, text::views(suffix@))),
{
    let (owner, name): (String, String) = match split_repo(repo) {
        Ok(pair) => pair,
        Err(e) => return Err(UrlError::Repo(e)),
    };
    let mut segments: Vec<String> = Vec::new();
    process::add(&mut segments, "api");
    process::add(&mut segments, "models");
    process::add(&mut segments, owner.as_str());
    process::add(&mut segments, name.as_str());
    process::add_all(&mut segments, suffix.as_slice());
    proof {
        assert(text::views(Seq::<String>::empty()) =~= seq![]);
        assert(text::views(segments@) =~= api_segments((owner@, name@), text::views(suffix@)));
    }
    put_segments("https://huggingface.co", &segments)
}

/// The address of the list of a repository's files.
pub open spec fn tree_url_of(repo: Seq<char>) -> Result<Seq<char>, UrlError> {
    match api_url_of(repo, seq!["tree"@, "main"@]) {
        Err(e) => Err(e),
        Ok(url) => with_pairs(
            url,
            seq![("recursive"@, "true"@), ("expand"@, "false"@), ("limit"@, "1000"@)],
        ),
    }
}

pub fn tree_url(repo: &str) -> (out: Result<String, UrlError>)
    ensures
        address_fits(out, tree_url_of(repo@)),
{
    let mut suffix: Vec<String> = Vec::new();
    process::add(&mut suffix, "tree");
    process::add(&mut suffix, "main");
    proof {
        assert(text::views(Seq::<String>::empty()) =~= seq![]);
        assert(text::views(suffix@) =~= seq!["tree"@, "main"@]);
    }
    let url: String = match api_url(repo, &suffix) {
        Ok(url) => url,
        Err(e) => return Err(e),
    };
    let mut pairs: Vec<(String, String)> = Vec::new();
    add_pair(&mut pairs, "recursive", "true");
    add_pair(&mut pairs, "expand", "false");
    add_pair(&mut pairs, "limit", "1000");
    proof {
        assert(profiles::pair_views(Seq::<(String, String)>::empty()) =~= seq![]);
        assert(profiles::pair_views(pairs@) =~= seq![
            ("recursive"@, "true"@),
            ("expand"@, "false"@),
            ("limit"@, "1000"@),
        ]);
    }
    put_pairs(url.as_str(), &pairs)
}

/// The address of the text of a file in a repository.
pub open spec fn raw_url_of(repo: Seq<char>, file: Seq<char>) -> Result<Seq<char>, UrlError> {
    match repo_of(repo) {
        Err(e) => Err(UrlError::Repo(e)),
        Ok((owner, name)) => with_segments(
            endpoint(),
            seq![owner, name, "raw"@, "main"@, file],
        ),
    }
}

pub fn raw_url(repo: &str, file: &str) -> (out: Result<String, UrlError>)
    ensures
        address_fits(out, raw_url_of(repo@, file@)),
{
    let (owner, name): (String, String) = match split_repo(repo) {
        Ok(pair) => pair,
        Err(e) => return Err(UrlError::Repo(e)),
    };
    let mut segments: Vec<String> = Vec::new();
    process::add(&mut segments, owner.as_str());
    process::add(&mut segments, name.as_str());
    process::add(&mut segments, "raw");
    process::add(&mut segments, "main");
    process::add(&mut segments, file);
    proof {
        assert(text::views(Seq::<String>::empty()) =~= seq![]);
        assert(text::views(segments@) =~= seq![owner@, name@, "raw"@, "main"@, file@]);
    }
    put_segments("https://huggingface.co", &segments)
}

/// The address from which a file is fetched.
pub open spec fn resolve_url_of(repo: Seq<char>, relative: Seq<char>) -> Result<Seq<char>, UrlError> {
    match repo_of(repo) {
        Err(e) => Err(UrlError::Repo(e)),
        Ok((owner, name)) => if !is_safe(relative) {
            Err(UrlError::Path)
        } else {
            match with_segments(
                endpoint(),
                seq![owner, name, "resolve"@, "main"@] + text::split_of(relative, '/'),
            ) {
                Err(e) => Err(e),
                Ok(url) => with_pairs(url, seq![("download"@, "true"@)]),
            }
        },
    }
}

pub fn resolve_url(repo: &str, relative: &str) -> (out: Result<String, UrlError>)
    ensures
        address_fits(out, resolve_url_of(repo@, relative@)),
{
    let (owner, name): (String, String) = match split_repo(repo) {
        Ok(pair) => pair,
        Err(e) => return Err(UrlError::Repo(e)),
    };
    if ensure_safe_relative_path(relative).is_err() {
        return Err(UrlError::Path);
    }
    let mut segments: Vec<String> = Vec::new();
    process::add(&mut segments, owner.as_str());
    process::add(&mut segments, name.as_str());
    process::add(&mut segments, "resolve");
    process::add(&mut segments, "main");
    let parts: Vec<String> = text::split(relative, '/');
    process::add_all(&mut segments, parts.as_slice());
    proof {
        assert(text::views(Seq::<String>::empty()) =~= seq![]);
        assert(text::views(segments@) =~= seq![owner@, name@, "resolve"@, "main"@]
            + text::split_of(relative@, '/'));
    }
    let url: String = match put_segments("https://huggingface.co", &segments) {
        Ok(url) => url,
        Err(e) => return Err(e),
    };
    let mut pairs: Vec<(String, String)> = Vec::new();
    add_pair(&mut pairs, "download", "true");
    proof {
        assert(profiles::pair_views(Seq::<(String, String)>::empty()) =~= seq![]);
        assert(profiles::pair_views(pairs@) =~= seq![("download"@, "true"@)]);
    }
    put_pairs(url.as_str(), &pairs)
}

/// From this size on a file with a digest is fetched in parts.
pub const MULTIPART_THRESHOLD: u64 = 268_435_456;

/// How many parts a file is fetched in.
pub const CONNECTIONS_PER_FILE: usize = 8;

/// How many times a transfer is tried again.
pub const RETRIES: usize = 4;

/// A part of a file, from its first to its last byte.
#[derive(Clone, Copy)]
pub struct Chunk {
    pub index: usize,
    pub start: u64,
    pub end: u64,
}

/// How many connections fetch a file.
pub open spec fn connections_for(size: nat) -> nat {
    if size == 0 {
        1
    } else if size < CONNECTIONS_PER_FILE {
        size
    } else {
        CONNECTIONS_PER_FILE as nat
    }
}

/// How large the parts of a file are; only the last may be smaller.
pub open spec fn chunk_size(size: nat) -> nat {
    (size + connections_for(size) - 1) as nat / connections_for(size)
}

/// The parts that the first `n` connections fetch.
pub open spec fn chunks_of(size: nat, n: nat) -> Seq<Chunk>
    decreases n,
{
    if n == 0 {
        seq![]
    } else {
        let earlier = chunks_of(size, (n - 1) as nat);
        let start = (n - 1) * chunk_size(size);
        if start < size {
            earlier.push(
                Chunk {
                    index: (n - 1) as usize,
                    start: start as u64,
                    end: (if start + chunk_size(size) < size {
                        start + chunk_size(size) - 1
                    } else {
                        size - 1
                    }) as u64,
                },
            )
        } else {
            earlier
        }
    }
}

/// Divides a file into the parts that are fetched at once.
pub fn chunks(size: u64) -> (out: Vec<Chunk>)
    ensures
        out@ == chunks_of(size as nat, connections_for(size as nat)),
{
    let connections: u64 = if size == 0 {
        1
    } else if size < CONNECTIONS_PER_FILE as u64 {
        size
    } else {
        CONNECTIONS_PER_FILE as u64
    };
    let whole: u64 = size / connections;
    let step: u64 = if size % connections == 0 {
        whole
    } else {
        whole + 1
    };
    proof {
        lemma_step(size as int, connections as int);
    }
    let mut out: Vec<Chunk> = Vec::new();
    let mut i: u64 = 0;
    proof {
        assert(out@ =~= seq![]);
    }
    while i < connections
        invariant
            i <= connections <= 8,
            connections == connections_for(size as nat),
            step == chunk_size(size as nat),
            step <= 0x2000_0000_0000_0000,
            size > 0 ==> step > 0,
            out@ == chunks_of(size as nat, i as nat),
        decreases connections - i,
    {
        proof {
            assert(i * step <= 7 * 0x2000_0000_0000_0000) by (nonlinear_arith)
                requires
                    i <= 7,
                    step <= 0x2000_0000_0000_0000,
            ;
        }
        let start: u64 = i * step;
        if start < size {
            let end: u64 = if step < size - start {
                start + (step - 1)
            } else {
                size - 1
            };
            out.push(Chunk { index: i as usize, start, end });
        }
        i += 1;
    }
    out
}

proof fn lemma_step(size: int, n: int)
    requires
        size >= 0,
        n == connections_for(size as nat),
    ensures
        (size + n - 1) / n == size / n + (if size % n == 0 {
            0int
        } else {
            1
        }),
        n * ((size + n - 1) / n) >= size,
        size > 0 ==> (size + n - 1) / n > 0,
        size < 8 ==> (size + n - 1) / n <= 1,
        size >= 8 ==> (size + n - 1) / n <= size / 8 + 1,
{
    let q = size / n;
    let r = size % n;
    let step = (size + n - 1) / n;
    vstd::arithmetic::div_mod::lemma_fundamental_div_mod(size, n);
    if r == 0 {
        vstd::arithmetic::div_mod::lemma_fundamental_div_mod_converse(size + n - 1, n, q, n - 1);
    } else {
        assert(n * (q + 1) == n * q + n) by (nonlinear_arith);
        vstd::arithmetic::div_mod::lemma_fundamental_div_mod_converse(
            size + n - 1,
            n,
            q + 1,
            r - 1,
        );
    }
    assert(n * (q + 1) == n * q + n) by (nonlinear_arith);
    if size > 0 && q == 0 {
        assert(n * q == 0) by (nonlinear_arith)
            requires
                q == 0,
        ;
    }
    if 0 < size < 8 {
        vstd::arithmetic::div_mod::lemma_fundamental_div_mod_converse(size, n, 1, 0);
    }
}

proof fn lemma_chunks(size: nat, n: nat)
    requires
        0 < size <= u64::MAX,
        n <= connections_for(size),
    ensures
        ({
            let list = chunks_of(size, n);
            let step = chunk_size(size);
            &&& list.len() <= n
            &&& step > 0
            &&& n * step >= size || list.len() == n
            &&& n > 0 ==> list.len() > 0
            &&& forall|i: int|
                0 <= i < list.len() ==> (#[trigger] list[i]).index == i && list[i].start == i * step
                    && list[i].start < size && list[i].end == (if (i + 1) * step < size {
                    (i + 1) * step - 1
                } else {
                    size - 1
                })
            &&& list.len() < n ==> list.len() * step >= size
        }),
    decreases n,
{
    let step = chunk_size(size);
    lemma_step(size as int, connections_for(size) as int);
    if n > 0 {
        lemma_chunks(size, (n - 1) as nat);
        let earlier = chunks_of(size, (n - 1) as nat);
        let list = chunks_of(size, n);
        assert((n - 1) * step + step == n * step) by (nonlinear_arith);
        assert(0 * step == 0) by (nonlinear_arith);
        if (n - 1) * step < size {
            if earlier.len() < n - 1 {
                assert(earlier.len() * step <= (n - 1) * step) by (nonlinear_arith)
                    requires
                        earlier.len() <= n - 1,
                ;
            }
            assert(earlier.len() == n - 1);
            assert forall|i: int| 0 <= i < list.len() implies (#[trigger] list[i]).index == i
                && list[i].start == i * step && list[i].start < size && list[i].end == (if (i + 1)
                * step < size {
                (i + 1) * step - 1
            } else {
                size - 1
            }) by {
                if i < n - 1 {
                    assert(list[i] == earlier[i]);
                }
            }
        }
    }
}

/// The parts of a file follow each other, the first from the first byte on and the last
/// up to the last byte, so that each byte is fetched once.
pub proof fn chunks_cover_the_file(size: nat, i: int)
    requires
        0 < size <= u64::MAX,
        0 <= i < chunks_of(size, connections_for(size)).len(),
    ensures
        ({
            let list = chunks_of(size, connections_for(size));
            &&& list[0].start == 0
            &&& list.last().end == size - 1
            &&& list[i].start <= list[i].end < size
            &&& i + 1 < list.len() ==> list[i + 1].start == list[i].end + 1
        }),
{
    let n = connections_for(size);
    let step = chunk_size(size);
    lemma_step(size as int, n as int);
    lemma_chunks(size, n);
    let list = chunks_of(size, n);
    let last = list.len() - 1;
    assert(0 * step == 0) by (nonlinear_arith);
    assert(list[0].start == 0);
    assert((last + 1) * step >= size);
    assert(list[last].end == size - 1);
    assert((i + 1) * step == i * step + step) by (nonlinear_arith);
    if i + 1 < list.len() {
        assert(list[i + 1].start == (i + 1) * step);
    }
}

/// The bytes of the first `n` parts of a file, one after another.
pub open spec fn joined_parts(file: Seq<u8>, list: Seq<Chunk>, n: nat) -> Seq<u8>
    decreases n,
{
    if n == 0 {
        seq![]
    } else {
        joined_parts(file, list, (n - 1) as nat) + file.subrange(
            list[n - 1].start as int,
            list[n - 1].end + 1,
        )
    }
}

proof fn lemma_joined_parts(file: Seq<u8>, n: nat)
    requires
        0 < file.len() <= u64::MAX,
        0 < n <= chunks_of(file.len(), connections_for(file.len())).len(),
    ensures
        ({
            let list = chunks_of(file.len(), connections_for(file.len()));
            joined_parts(file, list, n) == file.take(list[n - 1].end + 1)
        }),
    decreases n,
{
    let list = chunks_of(file.len(), connections_for(file.len()));
    chunks_cover_the_file(file.len(), n - 1);
    let last = file.subrange(list[n - 1].start as int, list[n - 1].end + 1);
    if n == 1 {
        assert(joined_parts(file, list, 0) =~= seq![]);
        assert(Seq::<u8>::empty() + last =~= file.take(list[0].end + 1));
    } else {
        lemma_joined_parts(file, (n - 1) as nat);
        chunks_cover_the_file(file.len(), n - 2);
        assert(file.take(list[n - 2].end + 1) + last =~= file.take(list[n - 1].end + 1));
    }
}

/// The parts of a file, one behind the other, are the file.
pub proof fn parts_join_to_the_file(file: Seq<u8>)
    requires
        0 < file.len() <= u64::MAX,
    ensures
        ({
            let list = chunks_of(file.len(), connections_for(file.len()));
            joined_parts(file, list, list.len()) == file
        }),
{
    let list = chunks_of(file.len(), connections_for(file.len()));
    lemma_chunks(file.len(), connections_for(file.len()));
    lemma_joined_parts(file, list.len());
    chunks_cover_the_file(file.len(), 0);
    assert(file.take(file.len() as int) =~= file);
}

/// A number in at least two digits.
pub open spec fn two_digits(n: nat) -> Seq<char> {
    if n < 10 {
        "0"@ + text::decimal_of(n)
    } else {
        text::decimal_of(n)
    }
}

/// What is put behind a file's name for one of its parts.
pub fn part_suffix(index: usize) -> (out: String)
    ensures
        out@ == ".part-"@ + two_digits(index as nat),
{
    let mut out: String = ".part-".to_owned();
    let shown: String = text::decimal(index as u64);
    if index < 10 {
        out.append("0");
        out.append(shown.as_str());
        proof {
            assert(out@ =~= ".part-"@ + two_digits(index as nat));
        }
    } else {
        out.append(shown.as_str());
    }
    out
}

/// What is to be done about a file.
#[derive(Clone, Copy, Debug, PartialEq, Eq, Structural)]
pub enum FileStart {
    /// It is there.
    Skip,
    /// What was fetched of it is as long as it; look whether it is the file.
    VerifyPartial,
    Fetch,
}

/// Decides what is done about a file: `present` says that it is there and is the one,
/// `partial` how much was fetched of it.
pub fn start_file(present: bool, partial: Option<u64>, size: u64) -> (out: FileStart)
    ensures
        out == (if present {
            FileStart::Skip
        } else if partial == Some(size) {
            FileStart::VerifyPartial
        } else {
            FileStart::Fetch
        }),
{
    if present {
        return FileStart::Skip;
    }
    match partial {
        Some(length) => if length == size {
            FileStart::VerifyPartial
        } else {
            FileStart::Fetch
        },
        None => FileStart::Fetch,
    }
}

/// Whether a file is fetched in parts.
pub fn uses_parts(size: u64, has_digest: bool) -> (yes: bool)
    ensures
        yes == (size >= MULTIPART_THRESHOLD && has_digest),
{
    size >= MULTIPART_THRESHOLD && has_digest
}

/// What is there of a file when its transfer starts: nothing where there is more than
/// the whole.
pub fn resume_position(length: u64, size: u64) -> (out: u64)
    ensures
        out == (if length > size {
            0
        } else {
            length
        }),
{
    if length > size {
        0
    } else {
        length
    }
}

/// Which bytes are asked for: none where all are there, all where none is there, else
/// the range in the header.
pub enum Fetch {
    Done,
    Whole,
    Range(String),
}

pub ghost enum FetchView {
    Done,
    Whole,
    Range(Seq<char>),
}

impl View for Fetch {
    type V = FetchView;

    open spec fn view(&self) -> FetchView {
        match *self {
            Fetch::Done => FetchView::Done,
            Fetch::Whole => FetchView::Whole,
            Fetch::Range(s) => FetchView::Range(s@),
        }
    }
}

/// A range of bytes in a header.
pub open spec fn range_header(from: nat, to: nat) -> Seq<char> {
    "bytes="@ + text::decimal_of(from) + "-"@ + text::decimal_of(to)
}

fn range(from: u64, to: u64) -> (out: String)
    ensures
        out@ == range_header(from as nat, to as nat),
{
    let mut out: String = "bytes=".to_owned();
    out.append(text::decimal(from).as_str());
    out.append("-");
    out.append(text::decimal(to).as_str());
    out
}

/// What is asked for when `position` bytes of a file are there.
pub fn next_fetch(position: u64, size: u64) -> (out: Fetch)
    requires
        position > 0 ==> size > 0,
    ensures
        out@ == (if position == size {
            FetchView::Done
        } else if position == 0 {
            FetchView::Whole
        } else {
            FetchView::Range(range_header(position as nat, (size - 1) as nat))
        }),
{
    if position == size {
        Fetch::Done
    } else if position == 0 {
        Fetch::Whole
    } else {
        Fetch::Range(range(position, size - 1))
    }
}

/// What is done with an answer.
#[derive(Clone, Copy, Debug, PartialEq, Eq, Structural)]
pub enum Reply {
    /// It goes behind what is there.
    Append,
    /// It is the whole file: what is there is dropped.
    Restart,
    /// It is no success.
    Failed,
    /// It is not the part that was asked for.
    NotPartial,
}

pub open spec fn reply_of(position: u64, status: u16) -> Reply {
    if !(200 <= status < 300) {
        Reply::Failed
    } else if position > 0 && status == 200 {
        Reply::Restart
    } else if position > 0 && status != 206 {
        Reply::NotPartial
    } else {
        Reply::Append
    }
}

pub fn reply(position: u64, status: u16) -> (out: Reply)
    ensures
        out == reply_of(position, status),
{
    if status < 200 || status >= 300 {
        Reply::Failed
    } else if position > 0 && status == 200 {
        Reply::Restart
    } else if position > 0 && status != 206 {
        Reply::NotPartial
    } else {
        Reply::Append
    }
}

/// What is there of a file after an answer.
pub open spec fn after_reply(have: Seq<u8>, reply: Reply, body: Seq<u8>) -> Seq<u8> {
    match reply {
        Reply::Append => have + body,
        Reply::Restart => body,
        _ => have,
    }
}

/// Whatever was fetched of a file before, an answer with the rest of it completes it, and so
/// does an answer with all of it from a server that does not send parts.
pub proof fn transfers_are_resumed(file: Seq<u8>, have: Seq<u8>, status: u16, body: Seq<u8>)
    requires
        file.len() <= u64::MAX,
        have.is_prefix_of(file),
        (status == 206 && body == file.skip(have.len() as int)) || (status == 200 && body == file),
    ensures
        after_reply(have, reply_of(have.len() as u64, status), body) == file,
{
    assert(have + file.skip(have.len() as int) =~= file);
    assert(Seq::<u8>::empty() + file =~= file);
    if have.len() == 0 {
        assert(have =~= seq![]);
    }
}

/// What is asked for when `position` bytes of the part from `start` to `end` are there.
pub fn next_part_fetch(position: u64, start: u64, end: u64) -> (out: Fetch)
    requires
        start <= end < u64::MAX,
        start + position <= u64::MAX,
    ensures
        out@ == (if position == end - start + 1 {
            FetchView::Done
        } else {
            FetchView::Range(range_header((start + position) as nat, end as nat))
        }),
{
    if position == end - start + 1 {
        Fetch::Done
    } else {
        Fetch::Range(range(start + position, end))
    }
}

/// What is wrong with the answer to a request for a range.
#[derive(Clone, Copy, Debug, PartialEq, Eq, Structural)]
pub enum PartFault {
    NotPartial,
    WrongRange,
}

/// What the header of an answer must start with when bytes from `from` on were asked
/// for.
pub open spec fn content_range_start(from: nat) -> Seq<char> {
    "bytes "@ + text::decimal_of(from) + "-"@
}

/// Looks at the answer to a request for bytes from `from` on; `content_range` is the
/// header in which it says what it holds, where it says so.
pub fn part_reply(status: u16, content_range: Option<&str>, from: u64) -> (out: Result<
    (),
    PartFault,
>)
    ensures
        out == (if status != 206 {
            Err(PartFault::NotPartial)
        } else {
            match content_range {
                Some(s) => if content_range_start(from as nat).is_prefix_of(s@) {
                    Ok(())
                } else {
                    Err(PartFault::WrongRange)
                },
                None => Ok(()),
            }
        }),
{
    if status != 206 {
        return Err(PartFault::NotPartial);
    }
    match content_range {
        Some(s) => {
            let mut front: String = "bytes ".to_owned();
            front.append(text::decimal(from).as_str());
            front.append("-");
            if text::starts_with(s, front.as_str()) {
                Ok(())
            } else {
                Err(PartFault::WrongRange)
            }
        },
        None => Ok(()),
    }
}

/// What follows a transfer that failed.
#[derive(Clone, Copy, Debug, PartialEq, Eq, Structural)]
pub enum AfterFailure {
    /// It was stopped.
    Stop,
    /// It is tried again.
    Retry,
    /// It was tried often enough.
    GiveUp,
}

pub fn after_failure(attempt: usize, stopped: bool) -> (out: AfterFailure)
    ensures
        out == (if stopped {
            AfterFailure::Stop
        } else if attempt < RETRIES {
            AfterFailure::Retry
        } else {
            AfterFailure::GiveUp
        }),
{
    if stopped {
        AfterFailure::Stop
    } else if attempt < RETRIES {
        AfterFailure::Retry
    } else {
        AfterFailure::GiveUp
    }
}

/// Whether a digest is the expected one, capital letters aside.
pub fn digest_fits(actual: &str, expected: &str) -> (yes: bool)
    ensures
        yes == (text::lower_of(actual@) == text::lower_of(expected@)),
{
    text::same(text::to_lower(actual).as_str(), text::to_lower(expected).as_str())
}

/// A SHA-256 digest in the making. It hides the `sha2::Sha256` that makes it, a type with
/// parameters bound by traits of its own crate.
#[verifier::external_body]
pub struct DigestState {
    hasher: sha2::Sha256,
}

/// The bytes that a digest in the making has been fed.
pub uninterp spec fn fed_of(d: DigestState) -> Seq<u8>;

/// Calls `sha2::Sha256::new`: nothing has been fed yet.
#[verifier::external_body]
fn new_digest() -> (out: DigestState)
    ensures
        fed_of(out) == Seq::<u8>::empty(),
{
    DigestState { hasher: <sha2::Sha256 as sha2::Digest>::new() }
}

/// Calls `sha2::Sha256::update`, which takes the bytes behind those that it has.
#[verifier::external_body]
fn update_digest(d: &mut DigestState, bytes: &[u8])
    ensures
        fed_of(*final(d)) == fed_of(*old(d)) + bytes@,
{
    sha2::Digest::update(&mut d.hasher, bytes);
}

/// Calls `sha2::Sha256::finalize` and writes the digest in hexadecimal: it is the one that
/// all the bytes together have.
#[verifier::external_body]
fn end_digest(d: DigestState) -> (out: String)
    ensures
        out@ == metadata::digest(fed_of(d)),
{
    format!("{:x}", sha2::Digest::finalize(d.hasher))
}

impl DigestState {
    /// A digest of nothing yet.
    pub fn start() -> (out: DigestState)
        ensures
            fed_of(out) == Seq::<u8>::empty(),
    {
        new_digest()
    }

    /// Takes the next bytes of a file.
    pub fn feed(&mut self, bytes: &[u8])
        ensures
            fed_of(*final(self)) == fed_of(*old(self)) + bytes@,
    {
        update_digest(self, bytes);
    }
}

/// What is wrong with a file.
#[derive(Debug, PartialEq, Eq)]
pub enum FileFault {
    Size,
    /// Its digest is this one, not the expected one.
    Digest(String),
}

/// Whether a file is accepted: it is as long as it should be, and where a digest is expected
/// its bytes have it, capital letters aside.
pub open spec fn is_accepted(
    bytes: Seq<u8>,
    length: u64,
    size: u64,
    expected: Option<Seq<char>>,
) -> bool {
    length == size && (expected matches Some(h) ==> text::lower_of(metadata::digest(bytes))
        == text::lower_of(h))
}

pub open spec fn expected_view(expected: Option<&str>) -> Option<Seq<char>> {
    match expected {
        Some(h) => Some(h@),
        None => None,
    }
}

/// Whether the bytes of a file matter to whether it is the expected one.
pub fn needs_digest(length: u64, size: u64, expects_digest: bool) -> (yes: bool)
    ensures
        yes == (length == size && expects_digest),
{
    length == size && expects_digest
}

/// Where the bytes of a file do not matter, it is accepted or not whatever they are.
pub proof fn other_bytes_do_not_matter(
    a: Seq<u8>,
    b: Seq<u8>,
    length: u64,
    size: u64,
    expected: Option<Seq<char>>,
)
    requires
        !(length == size && expected is Some),
    ensures
        is_accepted(a, length, size, expected) == is_accepted(b, length, size, expected),
{
}

/// Looks whether a file is the expected one. `d` was fed its bytes, where they matter.
pub fn verify_file(d: DigestState, length: u64, size: u64, expected: Option<&str>) -> (out: Result<
    (),
    FileFault,
>)
    ensures
        out is Ok == is_accepted(fed_of(d), length, size, expected_view(expected)),
        length != size ==> out == Err::<(), FileFault>(FileFault::Size),
        out matches Err(FileFault::Digest(actual)) ==> length == size && actual@
            == metadata::digest(fed_of(d)),
        out matches Err(FileFault::Size) ==> length != size,
{
    if length != size {
        return Err(FileFault::Size);
    }
    match expected {
        None => Ok(()),
        Some(h) => {
            let actual: String = end_digest(d);
            if digest_fits(actual.as_str(), h) {
                Ok(())
            } else {
                Err(FileFault::Digest(actual))
            }
        },
    }
}

/// Whether a file is the expected one.
pub fn file_fits(d: DigestState, length: u64, size: u64, expected: Option<&str>) -> (yes: bool)
    ensures
        yes == is_accepted(fed_of(d), length, size, expected_view(expected)),
{
    verify_file(d, length, size, expected).is_ok()
}

/// What became of a download.
pub struct DownloadSummary {
    pub downloaded: usize,
    pub skipped: usize,
    pub destination: String,
}

/// What happens during a download.
pub enum DownloadEvent {
    FileStarted { path: String, total: u64 },
    FileProgress { path: String, downloaded: u64, total: u64 },
    Verifying { path: String },
    Retrying { path: String, attempt: usize, message: String },
    FileDone { path: String, skipped: bool },
    Finished(Result<DownloadSummary, String>),
}

} // verus!
