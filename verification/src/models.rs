//! Model files: their names, how they are found, and which of them go together.
use vstd::prelude::*;

use crate::metadata;
use crate::metadata::{Fault, GgufMetadata, GgufView, TokenizerMetadata, TokenizerView};
use crate::pattern;
use crate::process;
use crate::profiles;
use crate::table;
use crate::table::Table;
use crate::text;

verus! {

/// Files below this size are no models.
pub const MIN_MODEL_BYTES: u64 = 50_000_000;

/// A path without what does not change where it leads: slashes at its end and
/// components that stay in place.
pub open spec fn trimmed_path(s: Seq<char>) -> Seq<char>
    decreases s.len(),
{
    if s.len() > 0 && (s.last() == '/' || (s.last() == '.' && s.len() > 1 && s[s.len() - 2]
        == '/')) {
        trimmed_path(s.drop_last())
    } else {
        s
    }
}

/// What stands behind the last slash.
pub open spec fn last_component(s: Seq<char>) -> Seq<char>
    decreases s.len(),
{
    if s.len() == 0 || s.last() == '/' {
        seq![]
    } else {
        last_component(s.drop_last()).push(s.last())
    }
}

/// The name of the file that a path leads to.
pub open spec fn file_name_of(path: Seq<char>) -> Option<Seq<char>> {
    let name = last_component(trimmed_path(path));
    if name.len() == 0 || name == "."@ || name == ".."@ {
        None
    } else {
        Some(name)
    }
}

/// Where the last dot of a name stands, -1 where it has none.
pub open spec fn last_dot(name: Seq<char>) -> int
    decreases name.len(),
{
    if name.len() == 0 {
        -1
    } else if name.last() == '.' {
        name.len() - 1
    } else {
        last_dot(name.drop_last())
    }
}

/// A file's name without its extension.
pub open spec fn stem_of(name: Seq<char>) -> Seq<char> {
    if last_dot(name) > 0 {
        name.take(last_dot(name))
    } else {
        name
    }
}

/// The extension of a file's name.
pub open spec fn extension_of(name: Seq<char>) -> Option<Seq<char>> {
    if last_dot(name) > 0 {
        Some(name.skip(last_dot(name) + 1))
    } else {
        None
    }
}

pub fn file_name(path: &str) -> (out: Option<String>)
    ensures
        metadata::text_view(out) == file_name_of(path@),
{
    let chars: Vec<char> = text::chars_of(path);
    let mut end: usize = chars.len();
    proof {
        assert(chars@.take(end as int) =~= path@);
    }
    while end > 0 && (chars[end - 1] == '/' || (chars[end - 1] == '.' && end > 1 && chars[end - 2]
        == '/'))
        invariant
            end <= chars@.len(),
            chars@ == path@,
            trimmed_path(path@) == trimmed_path(path@.take(end as int)),
        decreases end,
    {
        proof {
            assert(path@.take(end as int).drop_last() =~= path@.take(end - 1));
        }
        end -= 1;
    }
    let ghost whole = path@.take(end as int);
    proof {
        assert(end > 0 ==> whole.last() == chars@[end - 1]);
        assert(end > 1 ==> whole[whole.len() - 2] == chars@[end - 2]);
        assert(trimmed_path(path@) == whole);
    }
    let mut start: usize = end;
    proof {
        assert(path@.subrange(end as int, end as int) =~= seq![]);
        assert(last_component(whole) + path@.subrange(end as int, end as int) =~= last_component(whole));
    }
    while start > 0 && chars[start - 1] != '/'
        invariant
            start <= end <= chars@.len(),
            chars@ == path@,
            whole == path@.take(end as int),
            last_component(whole) == last_component(path@.take(start as int)) + path@.subrange(
                start as int,
                end as int,
            ),
        decreases start,
    {
        proof {
            let piece = path@.take(start as int);
            assert(piece.drop_last() =~= path@.take(start - 1));
            assert(piece.last() == chars@[start - 1]);
            assert(last_component(piece) + path@.subrange(start as int, end as int)
                =~= last_component(path@.take(start - 1)) + path@.subrange(start - 1, end as int));
        }
        start -= 1;
    }
    proof {
        let piece = path@.take(start as int);
        assert(start > 0 ==> piece.last() == '/');
        assert(last_component(piece) =~= seq![]);
        assert(last_component(whole) =~= path@.subrange(start as int, end as int));
    }
    let name: String = text::part_text(chars.as_slice(), start, end);
    if start == end || text::same(name.as_str(), ".") || text::same(name.as_str(), "..") {
        None
    } else {
        Some(name)
    }
}

/// Where the last dot stands, the length where there is none.
fn dot(chars: &Vec<char>) -> (at: usize)
    ensures
        last_dot(chars@) < 0 ==> at == chars@.len(),
        last_dot(chars@) >= 0 ==> at == last_dot(chars@),
        at <= chars@.len(),
        last_dot(chars@) < chars@.len(),
{
    let mut n: usize = chars.len();
    proof {
        assert(chars@.take(n as int) =~= chars@);
    }
    while n > 0
        invariant
            n <= chars@.len(),
            last_dot(chars@) == last_dot(chars@.take(n as int)),
        decreases n,
    {
        proof {
            assert(chars@.take(n as int).drop_last() =~= chars@.take(n - 1));
        }
        if chars[n - 1] == '.' {
            return n - 1;
        }
        n -= 1;
    }
    chars.len()
}

pub fn file_stem(name: &str) -> (out: String)
    ensures
        out@ == stem_of(name@),
{
    let chars: Vec<char> = text::chars_of(name);
    let at: usize = dot(&chars);
    if at > 0 && at < chars.len() {
        proof {
            assert(name@.take(at as int) =~= name@.subrange(0, at as int));
        }
        text::part_text(chars.as_slice(), 0, at)
    } else {
        name.to_owned()
    }
}

pub fn extension(name: &str) -> (out: Option<String>)
    ensures
        metadata::text_view(out) == extension_of(name@),
{
    let chars: Vec<char> = text::chars_of(name);
    let at: usize = dot(&chars);
    if at > 0 && at < chars.len() {
        proof {
            assert(name@.skip(at + 1) =~= name@.subrange(at + 1, name@.len() as int));
        }
        Some(text::part_text(chars.as_slice(), at + 1, chars.len()))
    } else {
        None
    }
}

/// The expression for the end of a split model's stem.
pub open spec fn shard_suffix() -> Seq<char> {
    r"-\d{5}-of-\d{5}$"@
}

/// What a model is called by its file: the stem, without the number of a part.
pub open spec fn canonical_stem_of(path: Seq<char>) -> Seq<char> {
    let stem = match file_name_of(path) {
        Some(name) => stem_of(name),
        None => seq![],
    };
    match pattern::replaced(shard_suffix(), stem, seq![]) {
        Some(s) => s,
        None => stem,
    }
}

pub fn canonical_stem(path: &str) -> (out: String)
    ensures
        out@ == canonical_stem_of(path@),
{
    let none: String = String::new();
    proof {
        assert(none@ =~= seq![]);
    }
    let stem: String = match file_name(path) {
        Some(name) => file_stem(name.as_str()),
        None => String::new(),
    };
    proof {
        if file_name_of(path@) is None {
            assert(stem@ =~= seq![]);
        }
    }
    match pattern::replace_all(r"-\d{5}-of-\d{5}$", stem.as_str(), none.as_str()) {
        Some(s) => s,
        None => stem,
    }
}

/// The characters of an identifier.
pub open spec fn is_id_char(c: char) -> bool {
    profiles::is_alphanumeric(c) || c == '.' || c == '_' || c == '-'
}

/// What a character becomes in an identifier.
pub open spec fn id_char(c: char) -> char {
    if is_id_char(c) {
        text::lower(c)
    } else {
        '-'
    }
}

/// A text as an identifier: lower case, and a hyphen for every character that an
/// identifier does not have.
pub open spec fn id_of(s: Seq<char>) -> Seq<char> {
    s.map_values(|c: char| id_char(c))
}

pub fn sanitize_id(s: &str) -> (out: String)
    ensures
        out@ == id_of(s@),
{
    let chars: Vec<char> = text::chars_of(s);
    let mut out: Vec<char> = Vec::new();
    let mut i: usize = 0;
    while i < chars.len()
        invariant
            i <= chars@.len(),
            chars@ == s@,
            out@ == id_of(s@).take(i as int),
        decreases chars@.len() - i,
    {
        let c: char = chars[i];
        if profiles::alphanumeric(c) || c == '.' || c == '_' || c == '-' {
            out.push(text::lower_char(c));
        } else {
            out.push('-');
        }
        proof {
            assert(out@ =~= id_of(s@).take(i + 1));
        }
        i += 1;
    }
    proof {
        assert(id_of(s@).take(chars@.len() as int) =~= id_of(s@));
    }
    text::string_of(out.as_slice())
}

/// An identifier holds only lower-case letters, digits, dots, underscores and
/// hyphens, and is its own identifier.
pub proof fn ids_are_safe(s: Seq<char>)
    ensures
        id_of(s).len() == s.len(),
        forall|i: int|
            0 <= i < s.len() ==> is_id_char(#[trigger] id_of(s)[i]) && !('A' <= id_of(s)[i]
                && id_of(s)[i] <= 'Z'),
        id_of(id_of(s)) == id_of(s),
{
    assert(id_of(id_of(s)) =~= id_of(s));
}

/// The expression for the end of a part's file name.
pub open spec fn shard_part() -> Seq<char> {
    r"-(\d{5})-of-(\d{5})\.gguf$"@
}

/// A number in at least five digits.
pub open spec fn five_digits(n: nat) -> Seq<char> {
    let shown = text::decimal_of(n);
    if shown.len() < 5 {
        Seq::new((5 - shown.len()) as nat, |i: int| '0') + shown
    } else {
        shown
    }
}

fn padded(n: u64) -> (out: String)
    ensures
        out@ == five_digits(n as nat),
{
    let shown: String = text::decimal(n);
    let count: usize = text::chars_of(shown.as_str()).len();
    let mut out: String = String::new();
    let mut zeros: usize = 0;
    proof {
        assert(out@ =~= Seq::new(0, |i: int| '0'));
    }
    while zeros + count < 5
        invariant
            out@ == Seq::new(zeros as nat, |i: int| '0'),
            zeros + count <= 5 || zeros == 0,
            count == shown@.len(),
        decreases 5 - zeros,
    {
        out.push('0');
        zeros += 1;
        proof {
            assert(out@ =~= Seq::new(zeros as nat, |i: int| '0'));
        }
    }
    out.append(shown.as_str());
    proof {
        if shown@.len() >= 5 {
            assert(out@ =~= shown@);
        }
    }
    out
}

/// The name of part `i` of `total`.
pub open spec fn shard_name(prefix: Seq<char>, i: nat, total: nat) -> Seq<char> {
    prefix + "-"@ + five_digits(i) + "-of-"@ + five_digits(total) + ".gguf"@
}

/// The names of the files that a model with this file name consists of: where the
/// name is that of a part, `matches` being the matches of the part expression in
/// it, those of all parts.
pub open spec fn shard_names_from(name: Seq<char>, matches: Option<Seq<pattern::Groups>>) -> Seq<
    Seq<char>,
> {
    match matches {
        Some(m) if m.len() > 0 => {
            let whole = pattern::group_of(m[0], 0);
            let prefix = if whole.len() <= name.len() {
                name.take(name.len() - whole.len())
            } else {
                seq![]
            };
            let total = match text::number_of(pattern::group_of(m[0], 2), usize::MAX as nat) {
                Some(n) => n,
                None => 1,
            };
            Seq::new(total, |i: int| shard_name(prefix, (i + 1) as nat, total))
        },
        _ => seq![name],
    }
}

pub fn parse_usize(s: &str) -> (out: Option<usize>)
    ensures
        match (out, text::number_of(s@, usize::MAX as nat)) {
            (Some(n), Some(m)) => n == m,
            (None, None) => true,
            _ => false,
        },
{
    match text::parse_u64(s) {
        Some(n) => if n <= usize::MAX as u64 {
            Some(n as usize)
        } else {
            None
        },
        None => None,
    }
}

/// The names of a model's parts, from the matches of the part expression in the
/// name of one of its files.
pub fn shard_names_with(name: &str, matches: &Option<Vec<Vec<Option<String>>>>) -> (out: Vec<String>)
    ensures
        text::views(out@) == shard_names_from(
            name@,
            match *matches {
                Some(m) => Some(pattern::match_views(m@)),
                None => None,
            },
        ),
{
    let mut out: Vec<String> = Vec::new();
    let found: Option<&Vec<Option<String>>> = match matches {
        Some(m) => if m.len() > 0 {
            Some(&m[0])
        } else {
            None
        },
        None => None,
    };
    match found {
        None => {
            out.push(name.to_owned());
            proof {
                assert(text::views(out@) =~= seq![name@]);
            }
            out
        },
        Some(groups) => {
            let whole: String = pattern::group(groups, 0);
            let total: usize = match parse_usize(pattern::group(groups, 2).as_str()) {
                Some(n) => n,
                None => 1,
            };
            let chars: Vec<char> = text::chars_of(name);
            let taken: usize = text::chars_of(whole.as_str()).len();
            let prefix: String = if taken <= chars.len() {
                proof {
                    assert(name@.take(name@.len() - taken) =~= name@.subrange(
                        0,
                        name@.len() - taken,
                    ));
                }
                text::part_text(chars.as_slice(), 0, chars.len() - taken)
            } else {
                String::new()
            };
            let ghost start = if whole@.len() <= name@.len() {
                name@.take(name@.len() - whole@.len())
            } else {
                seq![]
            };
            proof {
                assert(prefix@ =~= start);
            }
            let ghost all = Seq::new(
                total as nat,
                |i: int| shard_name(start, (i + 1) as nat, total as nat),
            );
            let mut i: usize = 0;
            proof {
                assert(text::views(out@) =~= all.take(0));
            }
            while i < total
                invariant
                    i <= total,
                    prefix@ == start,
                    all == Seq::new(
                        total as nat,
                        |i: int| shard_name(start, (i + 1) as nat, total as nat),
                    ),
                    text::views(out@) == all.take(i as int),
                decreases total - i,
            {
                let mut item: String = prefix.clone();
                item.append("-");
                item.append(padded(i as u64 + 1).as_str());
                item.append("-of-");
                item.append(padded(total as u64).as_str());
                item.append(".gguf");
                proof {
                    profiles::lemma_views_push(out@, item);
                    assert(all.take(i + 1) =~= all.take(i as int).push(all[i as int]));
                }
                out.push(item);
                i += 1;
            }
            proof {
                assert(all.take(total as int) =~= all);
            }
            out
        },
    }
}

/// Whether a file is one of the parts of a model by its name.
pub fn is_part(name: &str) -> (yes: bool)
    ensures
        yes == (pattern::captured(shard_part(), name@) matches Some(m) && m.len() > 0),
{
    match pattern::captures(r"-(\d{5})-of-(\d{5})\.gguf$", name) {
        Some(m) => {
            proof {
                assert(pattern::match_views(m@).len() == m@.len());
            }
            m.len() > 0
        },
        None => false,
    }
}

/// The names of the files that a model consists of, from the name of one.
pub fn shard_names(name: &str) -> (out: Vec<String>)
    ensures
        text::views(out@) == shard_names_from(name@, pattern::captured(shard_part(), name@)),
{
    let matches: Option<Vec<Vec<Option<String>>>> = pattern::captures(
        r"-(\d{5})-of-(\d{5})\.gguf$",
        name,
    );
    shard_names_with(name, &matches)
}

/// Whether a text starts with another, capital letters aside.
pub open spec fn starts_ignoring_case(value: Seq<char>, prefix: Seq<char>) -> bool {
    text::lower_of(prefix).is_prefix_of(text::lower_of(value))
}

pub fn starts_with_ignore_ascii_case(value: &str, prefix: &str) -> (yes: bool)
    ensures
        yes == starts_ignoring_case(value@, prefix@),
{
    text::starts_with(text::to_lower(value).as_str(), text::to_lower(prefix).as_str())
}

/// Whether a file is part of a model by its name: its extension is `gguf`, and it
/// is no projector.
pub open spec fn is_weights_name(name: Seq<char>) -> bool {
    (extension_of(name) matches Some(e) && text::lower_of(e) == text::lower_of("gguf"@))
        && !starts_ignoring_case(name, "mmproj"@)
}

pub fn weights_name(name: &str) -> (yes: bool)
    ensures
        yes == is_weights_name(name@),
{
    let ends: bool = match extension(name) {
        Some(e) => text::same(text::to_lower(e.as_str()).as_str(), text::to_lower("gguf").as_str()),
        None => false,
    };
    ends && !starts_with_ignore_ascii_case(name, "mmproj")
}

/// The expression for the end of the name of a file that may lead a split model.
pub open spec fn shard_lead() -> Seq<char> {
    r"-(\d{5})-of-\d{5}\.gguf$"@
}

/// Whether a file leads a model: `matches` being those of the lead expression in
/// its name, it is no part but the first.
pub open spec fn leads(matches: Option<Seq<pattern::Groups>>) -> bool {
    match matches {
        Some(m) if m.len() > 0 => pattern::group_of(m[0], 1) == "00001"@,
        _ => true,
    }
}

/// Whether a file leads a model, from the matches of the lead expression in its name.
pub fn leads_with(matches: &Option<Vec<Vec<Option<String>>>>) -> (yes: bool)
    ensures
        yes == leads(
            match *matches {
                Some(m) => Some(pattern::match_views(m@)),
                None => None,
            },
        ),
{
    match matches {
        Some(m) => {
            proof {
                assert(pattern::match_views(m@).len() == m@.len());
                assert(m@.len() > 0 ==> pattern::match_views(m@)[0] == pattern::group_views(
                    m@[0]@,
                ));
            }
            if m.len() > 0 {
                text::same(pattern::group(&m[0], 1).as_str(), "00001")
            } else {
                true
            }
        },
        None => true,
    }
}

/// Whether a file stands for a model by its name: it is part of one, and no part but the
/// first.
pub open spec fn is_model_name(name: Seq<char>) -> bool {
    is_weights_name(name) && leads(pattern::captured(shard_lead(), name))
}

/// Whether a file stands for a model by its name.
pub fn model_name(name: &str) -> (yes: bool)
    ensures
        yes == is_model_name(name@),
{
    if !weights_name(name) {
        return false;
    }
    leads_with(&pattern::captures(r"-(\d{5})-of-\d{5}\.gguf$", name))
}

/// Whether a file's name is that of a projector, whatever its extension.
pub open spec fn is_projector_start(name: Seq<char>) -> bool {
    "mmproj"@.is_prefix_of(pattern::lowercase(name))
}

/// Whether a file is a projector by its name.
pub open spec fn is_projector_name(name: Seq<char>) -> bool {
    is_projector_start(name) && extension_of(name) == Some("gguf"@)
}

pub fn projector_start(name: &str) -> (yes: bool)
    ensures
        yes == is_projector_start(name@),
{
    text::starts_with(pattern::to_lowercase(name).as_str(), "mmproj")
}

pub fn projector_name(name: &str) -> (yes: bool)
    ensures
        yes == is_projector_name(name@),
{
    projector_start(name) && match extension(name) {
        Some(e) => text::same(e.as_str(), "gguf"),
        None => false,
    }
}

#[derive(Clone, Copy, Debug, PartialEq, Eq, Structural)]
pub enum ModelKind {
    Main,
    Draft,
}

/// A model in the library.
pub struct Model {
    pub id: String,
    pub relative: String,
    pub path: String,
    pub bytes: u64,
    pub vision: bool,
    pub kind: ModelKind,
}

pub ghost struct ModelView {
    pub id: Seq<char>,
    pub relative: Seq<char>,
    pub path: Seq<char>,
    pub bytes: u64,
    pub vision: bool,
    pub kind: ModelKind,
}

impl View for Model {
    type V = ModelView;

    open spec fn view(&self) -> ModelView {
        ModelView {
            id: self.id@,
            relative: self.relative@,
            path: self.path@,
            bytes: self.bytes,
            vision: self.vision,
            kind: self.kind,
        }
    }
}

pub open spec fn model_views(models: Seq<Model>) -> Seq<ModelView> {
    models.map_values(|m: Model| m@)
}

impl Model {
    pub fn copy(&self) -> (out: Model)
        ensures
            out@ == self@,
    {
        Model {
            id: self.id.clone(),
            relative: self.relative.clone(),
            path: self.path.clone(),
            bytes: self.bytes,
            vision: self.vision,
            kind: self.kind,
        }
    }
}

/// A file that stands for a model, as it was found: its path, its path below the
/// directory that was searched, the size of all its parts, whether a projector
/// lies beside it and whether it is a draft.
pub struct Found {
    pub path: String,
    pub relative: String,
    pub bytes: u64,
    pub vision: bool,
    pub draft: bool,
}

pub ghost struct FoundView {
    pub path: Seq<char>,
    pub relative: Seq<char>,
    pub bytes: u64,
    pub vision: bool,
    pub draft: bool,
}

impl View for Found {
    type V = FoundView;

    open spec fn view(&self) -> FoundView {
        FoundView {
            path: self.path@,
            relative: self.relative@,
            bytes: self.bytes,
            vision: self.vision,
            draft: self.draft,
        }
    }
}

pub open spec fn found_views(list: Seq<Found>) -> Seq<FoundView> {
    list.map_values(|f: Found| f@)
}

/// The identifier of a file beside those that are taken: that of its stem, with
/// the first part of its path in front where the stem's is taken.
pub open spec fn id_beside(f: FoundView, taken: bool) -> Seq<char> {
    let base = id_of(canonical_stem_of(f.path));
    if taken {
        id_of(text::split_of(f.relative, '/')[0]) + "--"@ + base
    } else {
        base
    }
}

/// Whether a path leads to a file that stands for a model by its name.
pub open spec fn is_model_path(path: Seq<char>) -> bool {
    file_name_of(path) matches Some(name) && is_model_name(name)
}

/// Whether a file that was found is a model: its name says so, and it is not too small.
pub open spec fn is_model(f: FoundView) -> bool {
    f.bytes >= MIN_MODEL_BYTES && is_model_path(f.path)
}

/// The models by identifier after the first `n` files; files that are no models are left
/// out, and the later of two with one identifier stays.
pub open spec fn collected(list: Seq<FoundView>, n: nat) -> Seq<(Seq<char>, ModelView)>
    decreases n,
{
    if n == 0 {
        seq![]
    } else {
        let earlier = collected(list, (n - 1) as nat);
        let f = list[n - 1];
        if !is_model(f) {
            earlier
        } else {
            let base = id_of(canonical_stem_of(f.path));
            let id = id_beside(f, table::lookup(earlier, base) is Some);
            table::put(
                earlier,
                id,
                ModelView {
                    id,
                    relative: f.relative,
                    path: f.path,
                    bytes: f.bytes,
                    vision: f.vision,
                    kind: if f.draft {
                        ModelKind::Draft
                    } else {
                        ModelKind::Main
                    },
                },
            )
        }
    }
}

/// The models of one kind among the first `n`, in their order.
pub open spec fn of_kind(list: Seq<(Seq<char>, ModelView)>, n: nat, kind: ModelKind) -> Seq<
    ModelView,
>
    decreases n,
{
    if n == 0 {
        seq![]
    } else if list[n - 1].1.kind == kind {
        of_kind(list, (n - 1) as nat, kind).push(list[n - 1].1)
    } else {
        of_kind(list, (n - 1) as nat, kind)
    }
}

/// The library that some files make: the main models and then the drafts, each in
/// the order of their identifiers.
pub open spec fn scanned(list: Seq<FoundView>) -> Seq<ModelView> {
    let all = collected(list, list.len());
    of_kind(all, all.len(), ModelKind::Main) + of_kind(all, all.len(), ModelKind::Draft)
}

/// A model as its view, as a function.
pub open spec fn to_model() -> spec_fn(Model) -> ModelView {
    |m: Model| m@
}

fn add_kind(out: &mut Vec<Model>, all: &Table<Model>, kind: ModelKind)
    ensures
        model_views(final(out)@) == model_views(old(out)@) + of_kind(
            table::mapped(all@, to_model()),
            all@.len(),
            kind,
        ),
{
    let ghost before = model_views(out@);
    let ghost list = table::mapped(all@, to_model());
    let mut i: usize = 0;
    proof {
        assert(before + of_kind(list, 0, kind) =~= before);
    }
    while i < all.len()
        invariant
            i <= all@.len(),
            list == table::mapped(all@, to_model()),
            model_views(out@) == before + of_kind(list, i as nat, kind),
        decreases all@.len() - i,
    {
        proof {
            assert(list[i as int].1 == all@[i as int].1@);
        }
        if all.value_at(i).kind == kind {
            let m: Model = all.value_at(i).copy();
            let ghost earlier = out@;
            out.push(m);
            proof {
                assert(model_views(out@) =~= model_views(earlier).push(m@));
                assert(model_views(out@) =~= before + of_kind(list, (i + 1) as nat, kind));
            }
        }
        i += 1;
    }
}

fn model_path(path: &str) -> (yes: bool)
    ensures
        yes == is_model_path(path@),
{
    match file_name(path) {
        Some(name) => model_name(name.as_str()),
        None => false,
    }
}

/// Makes the library out of the files that were found, in the order in which they
/// were found.
pub fn scan(found: &Vec<Found>) -> (out: Vec<Model>)
    ensures
        model_views(out@) == scanned(found_views(found@)),
{
    let ghost list = found_views(found@);
    let mut all: Table<Model> = Table::new();
    proof {
        assert(table::mapped(all@, to_model()) =~= seq![]);
    }
    let mut i: usize = 0;
    while i < found.len()
        invariant
            i <= found@.len(),
            list == found_views(found@),
            table::mapped(all@, to_model()) == collected(list, i as nat),
        decreases found@.len() - i,
    {
        let f: &Found = &found[i];
        proof {
            assert(list[i as int] == f@);
        }
        if f.bytes >= MIN_MODEL_BYTES && model_path(f.path.as_str()) {
            let base: String = sanitize_id(canonical_stem(f.path.as_str()).as_str());
            proof {
                table::lemma_mapped_lookup(all@, to_model(), base@);
            }
            let id: String = if all.contains_key(base.as_str()) {
                let pieces: Vec<String> = text::split(f.relative.as_str(), '/');
                proof {
                    text::lemma_split_nonempty(f.relative@, '/');
                    assert(text::views(pieces@)[0] == pieces@[0]@);
                }
                let mut id: String = sanitize_id(pieces[0].as_str());
                id.append("--");
                id.append(base.as_str());
                id
            } else {
                base
            };
            let model: Model = Model {
                id: id.clone(),
                relative: f.relative.clone(),
                path: f.path.clone(),
                bytes: f.bytes,
                vision: f.vision,
                kind: if f.draft {
                    ModelKind::Draft
                } else {
                    ModelKind::Main
                },
            };
            proof {
                table::lemma_mapped_put(all@, to_model(), id@, model);
            }
            all.insert(id, model);
        }
        i += 1;
    }
    let mut out: Vec<Model> = Vec::new();
    add_kind(&mut out, &all, ModelKind::Main);
    add_kind(&mut out, &all, ModelKind::Draft);
    proof {
        assert(model_views(Seq::<Model>::empty()) =~= seq![]);
        assert(model_views(out@) =~= scanned(list));
    }
    out
}

proof fn lemma_collected(list: Seq<FoundView>, n: nat)
    requires
        n <= list.len(),
    ensures
        table::ordered(collected(list, n)),
        forall|i: int|
            0 <= i < collected(list, n).len() ==> (#[trigger] collected(list, n)[i]).0 == collected(
                list,
                n,
            )[i].1.id && collected(list, n)[i].1.bytes >= MIN_MODEL_BYTES && is_model_path(
                collected(list, n)[i].1.path,
            ),
    decreases n,
{
    if n > 0 {
        lemma_collected(list, (n - 1) as nat);
        let earlier = collected(list, (n - 1) as nat);
        let f = list[n - 1];
        if is_model(f) {
            let base = id_of(canonical_stem_of(f.path));
            let id = id_beside(f, table::lookup(earlier, base) is Some);
            let m = ModelView {
                id,
                relative: f.relative,
                path: f.path,
                bytes: f.bytes,
                vision: f.vision,
                kind: if f.draft {
                    ModelKind::Draft
                } else {
                    ModelKind::Main
                },
            };
            table::put_keeps_order(earlier, id, m);
            let new = table::put(earlier, id, m);
            assert forall|i: int| 0 <= i < new.len() implies (#[trigger] new[i]).0 == new[i].1.id
                && new[i].1.bytes >= MIN_MODEL_BYTES && is_model_path(new[i].1.path) by {
                table::lemma_lookup_at(new, i);
                table::put_then_lookup(earlier, id, m, new[i].0);
                if new[i].0 != id {
                    let p = table::key_differs::<ModelView>(new[i].0);
                    text::lemma_run(earlier, p);
                    let at = text::run(earlier, p) as int;
                    assert(!p(earlier[at]));
                    assert(earlier[at].1 == new[i].1);
                }
            }
        }
    }
}

/// Where the models of a kind come from: their places rise.
proof fn lemma_of_kind(list: Seq<(Seq<char>, ModelView)>, n: nat, kind: ModelKind) -> (places: Seq<int>)
    requires
        n <= list.len(),
    ensures
        places.len() == of_kind(list, n, kind).len(),
        forall|i: int|
            0 <= i < places.len() ==> 0 <= #[trigger] places[i] && places[i] < n && list[places[i]].1
                == of_kind(list, n, kind)[i] && of_kind(list, n, kind)[i].kind == kind,
        forall|i: int, j: int|
            0 <= i < j < places.len() ==> #[trigger] places[i] < #[trigger] places[j],
    decreases n,
{
    if n == 0 {
        seq![]
    } else {
        let earlier = lemma_of_kind(list, (n - 1) as nat, kind);
        if list[n - 1].1.kind == kind {
            let places = earlier.push(n - 1);
            let models = of_kind(list, (n - 1) as nat, kind);
            assert forall|i: int| 0 <= i < places.len() implies 0 <= #[trigger] places[i]
                && places[i] < n && list[places[i]].1 == of_kind(list, n, kind)[i] && of_kind(
                list,
                n,
                kind,
            )[i].kind == kind by {
                if i < earlier.len() {
                    assert(places[i] == earlier[i]);
                    assert(of_kind(list, n, kind)[i] == models[i]);
                }
            }
            places
        } else {
            earlier
        }
    }
}

/// No two models of a library have one identifier, the main models come before the drafts,
/// each in the order of the identifiers, none is too small, and every one is a file with
/// weights that is no projector and no part but the first.
pub proof fn scan_gives_distinct_ids(list: Seq<FoundView>)
    ensures
        forall|i: int, j: int|
            #![trigger scanned(list)[i], scanned(list)[j]]
            0 <= i < j < scanned(list).len() ==> scanned(list)[i].id != scanned(list)[j].id && (
            scanned(list)[j].kind == ModelKind::Main ==> scanned(list)[i].kind == ModelKind::Main)
                && (scanned(list)[i].kind == scanned(list)[j].kind ==> text::before(
                scanned(list)[i].id,
                scanned(list)[j].id,
            )),
        forall|i: int|
            0 <= i < scanned(list).len() ==> (#[trigger] scanned(list)[i]).bytes >= MIN_MODEL_BYTES
                && is_model_path(scanned(list)[i].path),
{
    let all = collected(list, list.len());
    lemma_collected(list, list.len());
    let a = lemma_of_kind(all, all.len(), ModelKind::Main);
    let b = lemma_of_kind(all, all.len(), ModelKind::Draft);
    let mains = of_kind(all, all.len(), ModelKind::Main);
    let drafts = of_kind(all, all.len(), ModelKind::Draft);
    let out = scanned(list);
    let places = a + b;
    assert forall|i: int| 0 <= i < out.len() implies 0 <= #[trigger] places[i] && places[i]
        < all.len() && all[places[i]].1 == out[i] && (out[i].kind == ModelKind::Main <==> i
        < a.len()) by {
        if i < a.len() {
            assert(places[i] == a[i]);
            assert(out[i] == mains[i]);
        } else {
            assert(places[i] == b[i - a.len()]);
            assert(out[i] == drafts[i - a.len()]);
        }
    }
    assert forall|i: int, j: int|
        #![trigger out[i], out[j]]
        0 <= i < j < out.len() implies out[i].id != out[j].id && (out[j].kind == ModelKind::Main
        ==> out[i].kind == ModelKind::Main) && (out[i].kind == out[j].kind ==> text::before(
        out[i].id,
        out[j].id,
    )) by {
        let p = places[i];
        let q = places[j];
        if j < a.len() {
            assert(a[i] < a[j]);
        } else if i >= a.len() {
            assert(b[i - a.len()] < b[j - a.len()]);
        }
        assert(p != q);
        assert(all[p].0 == out[i].id);
        assert(all[q].0 == out[j].id);
        if p < q {
            assert(text::before(all[p].0, all[q].0));
        } else {
            assert(text::before(all[q].0, all[p].0));
        }
        text::lemma_before_irreflexive(all[p].0);
    }
    assert forall|i: int| 0 <= i < out.len() implies (#[trigger] out[i]).bytes
        >= MIN_MODEL_BYTES && is_model_path(out[i].path) by {
        assert(all[places[i]].1 == out[i]);
    }
}

/// What a query leads to.
pub enum Resolved {
    /// A file, by its path and the identifier of what it holds.
    File(String),
    /// A model of the library, by its place in it.
    Library(usize),
    /// A repository to fetch the model from, by the identifier of what it gives.
    Remote(String),
}

pub enum ResolveError {
    /// No model was asked for and there is no default.
    NoModel,
    /// More than one model matches; the places of those that do.
    Ambiguous(Vec<usize>),
    /// None matches.
    Unmatched,
}

pub ghost enum ResolvedView {
    File(Seq<char>),
    Library(int),
    Remote(Seq<char>),
    NoModel,
    Ambiguous(Seq<usize>),
    Unmatched,
}

pub open spec fn resolution(out: Result<Resolved, ResolveError>) -> ResolvedView {
    match out {
        Ok(Resolved::File(id)) => ResolvedView::File(id@),
        Ok(Resolved::Library(i)) => ResolvedView::Library(i as int),
        Ok(Resolved::Remote(id)) => ResolvedView::Remote(id@),
        Err(ResolveError::NoModel) => ResolvedView::NoModel,
        Err(ResolveError::Ambiguous(list)) => ResolvedView::Ambiguous(list@),
        Err(ResolveError::Unmatched) => ResolvedView::Unmatched,
    }
}

/// The query that counts: what is asked for, or the default where that is empty.
pub open spec fn wanted(query: Option<Seq<char>>, default: Seq<char>) -> Seq<char> {
    match query {
        Some(s) if s.len() > 0 => s,
        _ => default,
    }
}

/// Whether a model is not the one that a query names.
pub open spec fn other_model(query: Seq<char>) -> spec_fn(ModelView) -> bool {
    |m: ModelView|
        !(query == m.id || query == m.relative || file_name_of(m.path) == Some(query))
}

/// The places of the models whose path below the library holds the query, capital
/// letters aside, among the first `n`.
pub open spec fn hits(models: Seq<ModelView>, n: nat, query: Seq<char>) -> Seq<usize>
    decreases n,
{
    if n == 0 {
        seq![]
    } else {
        let earlier = hits(models, (n - 1) as nat, query);
        if text::holds(pattern::lowercase(models[n - 1].relative), pattern::lowercase(query)) {
            earlier.push((n - 1) as usize)
        } else {
            earlier
        }
    }
}

/// What a query leads to: `is_file` says whether it is the path of a file.
pub open spec fn resolved(models: Seq<ModelView>, query: Seq<char>, is_file: bool) -> ResolvedView {
    let at = text::run(models, other_model(query)) as int;
    let found = hits(models, models.len(), query);
    if query.len() == 0 {
        ResolvedView::NoModel
    } else if is_file {
        ResolvedView::File(id_of(canonical_stem_of(query)))
    } else if at < models.len() {
        ResolvedView::Library(at)
    } else if found.len() == 1 {
        ResolvedView::Library(found[0] as int)
    } else if found.len() > 1 {
        ResolvedView::Ambiguous(found)
    } else if query.contains('/') {
        ResolvedView::Remote(id_of(query))
    } else {
        ResolvedView::Unmatched
    }
}

pub fn wanted_query(query: Option<&str>, default: &str) -> (out: String)
    ensures
        out@ == wanted(
            match query {
                Some(s) => Some(s@),
                None => None,
            },
            default@,
        ),
{
    match query {
        Some(s) => if text::chars_of(s).len() > 0 {
            s.to_owned()
        } else {
            default.to_owned()
        },
        None => default.to_owned(),
    }
}

/// Finds the model that a query names; `is_file` says whether it is the path of a
/// file.
pub fn resolve(models: &Vec<Model>, query: &str, is_file: bool) -> (out: Result<
    Resolved,
    ResolveError,
>)
    ensures
        resolution(out) == resolved(model_views(models@), query@, is_file),
{
    let ghost all = model_views(models@);
    if text::chars_of(query).len() == 0 {
        return Err(ResolveError::NoModel);
    }
    if is_file {
        return Ok(Resolved::File(sanitize_id(canonical_stem(query).as_str())));
    }
    let mut i: usize = 0;
    while i < models.len()
        invariant
            i <= models@.len(),
            all == model_views(models@),
            query@.len() > 0,
            !is_file,
            forall|j: int| 0 <= j < i ==> other_model(query@)(#[trigger] all[j]),
        decreases models@.len() - i,
    {
        let m: &Model = &models[i];
        proof {
            assert(all[i as int] == m@);
        }
        let named: bool = match file_name(m.path.as_str()) {
            Some(name) => text::same(name.as_str(), query),
            None => false,
        };
        if named || text::same(query, m.id.as_str()) || text::same(query, m.relative.as_str()) {
            proof {
                text::lemma_run_unique(all, other_model(query@), i as int);
            }
            return Ok(Resolved::Library(i));
        }
        i += 1;
    }
    proof {
        text::lemma_run_unique(all, other_model(query@), i as int);
    }
    let lowered: String = pattern::to_lowercase(query);
    let mut found: Vec<usize> = Vec::new();
    let mut k: usize = 0;
    while k < models.len()
        invariant
            k <= models@.len(),
            all == model_views(models@),
            lowered@ == pattern::lowercase(query@),
            found@ == hits(all, k as nat, query@),
        decreases models@.len() - k,
    {
        proof {
            assert(all[k as int] == models@[k as int]@);
        }
        if text::contains(
            pattern::to_lowercase(models[k].relative.as_str()).as_str(),
            lowered.as_str(),
        ) {
            found.push(k);
        }
        k += 1;
    }
    if found.len() == 1 {
        return Ok(Resolved::Library(found[0]));
    }
    if found.len() > 1 {
        return Err(ResolveError::Ambiguous(found));
    }
    if profiles::has_char(query, '/') {
        return Ok(Resolved::Remote(sanitize_id(query)));
    }
    Err(ResolveError::Unmatched)
}

/// The arguments that load a model: its file and, where one lies beside it, its
/// projector.
pub open spec fn model_args_of(path: Seq<char>, projector: Option<Seq<char>>) -> Seq<Seq<char>> {
    match projector {
        Some(p) => seq!["-m"@, path, "--mmproj"@, p],
        None => seq!["-m"@, path],
    }
}

pub fn model_args(path: &str, projector: Option<&str>) -> (out: Vec<String>)
    ensures
        text::views(out@) == model_args_of(
            path@,
            match projector {
                Some(p) => Some(p@),
                None => None,
            },
        ),
{
    let mut out: Vec<String> = Vec::new();
    process::add(&mut out, "-m");
    process::add(&mut out, path);
    match projector {
        Some(p) => {
            process::add(&mut out, "--mmproj");
            process::add(&mut out, p);
        },
        None => {},
    }
    proof {
        assert(text::views(Seq::<String>::empty()) =~= seq![]);
        assert(text::views(out@) =~= model_args_of(
            path@,
            match projector {
                Some(p) => Some(p@),
                None => None,
            },
        ));
    }
    out
}

/// Whether an architecture is one of drafts.
pub open spec fn is_draft_architecture(a: Seq<char>) -> bool {
    "-assistant"@.is_suffix_of(a) || a == "dflash"@ || a == "dspark"@ || a == "eagle3"@
}

/// Whether a file holds a draft. A file that is no model holds none; `Truncated`
/// where more of it has to be seen.
pub open spec fn draft_of(data: Seq<u8>) -> Result<bool, Fault> {
    match metadata::shape_of(data) {
        Err(Fault::Truncated) => Err(Fault::Truncated),
        Err(Fault::Malformed) => Ok(false),
        Ok((architecture, blocks)) => if is_draft_architecture(architecture) {
            Ok(true)
        } else if blocks == Some(1u64) {
            match metadata::metadata_of(data, true) {
                Err(Fault::Truncated) => Err(Fault::Truncated),
                Err(Fault::Malformed) => Ok(false),
                Ok(m) => Ok(m.mtp_markers.len() > 0),
            }
        } else {
            Ok(false)
        },
    }
}

/// Tells a draft from a main model by the bytes at the front of its file.
pub fn is_draft(data: &[u8]) -> (out: Result<bool, Fault>)
    ensures
        out == draft_of(data@),
{
    let (architecture, blocks): (String, Option<u64>) =
        match metadata::architecture_and_block_count(data) {
        Ok(pair) => pair,
        Err(Fault::Truncated) => return Err(Fault::Truncated),
        Err(Fault::Malformed) => return Ok(false),
    };
    let a: &str = architecture.as_str();
    if text::ends_with(a, "-assistant") || text::same(a, "dflash") || text::same(a, "dspark")
        || text::same(a, "eagle3") {
        return Ok(true);
    }
    let single: bool = match blocks {
        Some(n) => n == 1,
        None => false,
    };
    if !single {
        return Ok(false);
    }
    match metadata::read_gguf_metadata(data, true) {
        Ok(m) => {
            proof {
                assert(text::views(m.mtp_markers@).len() == m.mtp_markers@.len());
            }
            Ok(m.mtp_markers.len() > 0)
        },
        Err(Fault::Truncated) => Err(Fault::Truncated),
        Err(Fault::Malformed) => Ok(false),
    }
}

/// The longest context that a model was made for.
pub fn context_limit(meta: Option<&GgufMetadata>) -> (out: Option<u64>)
    ensures
        out == match metadata::meta_view(meta) {
            Some(m) => m.context_length,
            None => None,
        },
{
    match meta {
        Some(m) => m.context_length,
        None => None,
    }
}

/// Whether a model can draft for itself: it has layers for that, and all the
/// tensors that they need.
pub open spec fn can_self_draft(m: GgufView) -> bool {
    metadata::or_default(m.nextn_layers, 0) > 0 && m.mtp_markers.contains("eh_proj"@)
        && m.mtp_markers.contains("enorm"@) && m.mtp_markers.contains("hnorm"@)
}

pub fn has_mtp(meta: Option<&GgufMetadata>) -> (yes: bool)
    ensures
        yes == (metadata::meta_view(meta) matches Some(m) && can_self_draft(m)),
{
    match meta {
        Some(m) => {
            let layers: u64 = match m.nextn_layers {
                Some(n) => n,
                None => 0,
            };
            layers > 0 && profiles::holds_text(&m.mtp_markers, "eh_proj") && profiles::holds_text(
                &m.mtp_markers,
                "enorm",
            ) && profiles::holds_text(&m.mtp_markers, "hnorm")
        },
        None => false,
    }
}

/// What a model serves other than chat.
pub open spec fn serving_mode_of(m: Option<GgufView>) -> Option<Seq<char>> {
    match m {
        None => None,
        Some(m) => {
            let pooling = metadata::or_default(m.pooling_type, 0);
            if pooling == 4 {
                Some("rerank"@)
            } else if pooling == 0 {
                None
            } else {
                Some("embed"@)
            }
        },
    }
}

pub fn serving_mode(meta: Option<&GgufMetadata>) -> (out: Option<&'static str>)
    ensures
        match (out, serving_mode_of(metadata::meta_view(meta))) {
            (Some(s), Some(t)) => s@ == t,
            (None, None) => true,
            _ => false,
        },
{
    let pooling: u64 = match meta {
        Some(m) => match m.pooling_type {
            Some(n) => n,
            None => 0,
        },
        None => return None,
    };
    if pooling == 4 {
        Some("rerank")
    } else if pooling == 0 {
        None
    } else {
        Some("embed")
    }
}

/// Whether a draft can draft for a model, and why not.
#[derive(Debug, PartialEq, Eq)]
pub enum DraftCompatibility {
    Compatible,
    Incompatible(String),
    Unknown(String),
}

pub ghost enum CompatibilityView {
    Compatible,
    Incompatible(Seq<char>),
    Unknown(Seq<char>),
}

impl View for DraftCompatibility {
    type V = CompatibilityView;

    open spec fn view(&self) -> CompatibilityView {
        match *self {
            DraftCompatibility::Compatible => CompatibilityView::Compatible,
            DraftCompatibility::Incompatible(s) => CompatibilityView::Incompatible(s@),
            DraftCompatibility::Unknown(s) => CompatibilityView::Unknown(s@),
        }
    }
}

/// Why two vocabularies do not agree on a special token: one adds it and the other
/// does not, or both add another one. The tokens do not matter while neither is
/// added.
pub open spec fn special_token_conflict(
    name: Seq<char>,
    main_add: Option<bool>,
    draft_add: Option<bool>,
    main_id: Option<u64>,
    draft_id: Option<u64>,
) -> Option<Seq<char>> {
    if main_add is Some && draft_add is Some && main_add != draft_add {
        Some(name + " tokenizer add settings differ"@)
    } else if main_add == Some(true) && draft_add == Some(true) && main_id is Some && draft_id is Some
        && main_id != draft_id {
        Some(name + " tokenizer token IDs differ"@)
    } else {
        None
    }
}

/// Having another count than `count`, as a function.
pub open spec fn other_count(count: u64) -> spec_fn((u64, Seq<char>)) -> bool {
    |e: (u64, Seq<char>)| e.0 != count
}

/// The digest that is kept for a count.
pub open spec fn hash_for(list: Seq<(u64, Seq<char>)>, count: u64) -> Option<Seq<char>> {
    let at = text::run(list, other_count(count)) as int;
    if at < list.len() {
        Some(list[at].1)
    } else {
        None
    }
}

/// Whether two vocabularies agree: on the special tokens, on their sizes up to 128
/// tokens, and on the tokens that both have.
pub open spec fn vocabularies_agree(main: TokenizerView, draft: TokenizerView) -> CompatibilityView {
    let bos = special_token_conflict(
        "BOS"@,
        main.add_bos_token,
        draft.add_bos_token,
        main.bos_token_id,
        draft.bos_token_id,
    );
    let eos = special_token_conflict(
        "EOS"@,
        main.add_eos_token,
        draft.add_eos_token,
        main.eos_token_id,
        draft.eos_token_id,
    );
    let shared = if main.token_count < draft.token_count {
        main.token_count
    } else {
        draft.token_count
    };
    if bos is Some {
        CompatibilityView::Incompatible(bos->Some_0)
    } else if eos is Some {
        CompatibilityView::Incompatible(eos->Some_0)
    } else if main.token_count > draft.token_count + 128 || draft.token_count > main.token_count
        + 128 {
        CompatibilityView::Incompatible(
            "vocabulary sizes differ by more than 128 ("@ + text::decimal_of(
                main.token_count as nat,
            ) + " vs "@ + text::decimal_of(draft.token_count as nat) + ")"@,
        )
    } else {
        match (hash_for(main.prefix_hashes, shared), hash_for(draft.prefix_hashes, shared)) {
            (Some(a), Some(b)) => if a == b {
                CompatibilityView::Compatible
            } else {
                CompatibilityView::Incompatible("tokenizer vocabulary prefixes differ"@)
            },
            _ => CompatibilityView::Unknown("tokenizer prefix hash unavailable"@),
        }
    }
}

fn conflict(
    name: &str,
    main_add: Option<bool>,
    draft_add: Option<bool>,
    main_id: Option<u64>,
    draft_id: Option<u64>,
) -> (out: Option<String>)
    ensures
        metadata::text_view(out) == special_token_conflict(
            name@,
            main_add,
            draft_add,
            main_id,
            draft_id,
        ),
{
    match (main_add, draft_add) {
        (Some(a), Some(b)) => {
            if a != b {
                let mut reason: String = name.to_owned();
                reason.append(" tokenizer add settings differ");
                return Some(reason);
            }
            if a {
                match (main_id, draft_id) {
                    (Some(i), Some(j)) => {
                        if i != j {
                            let mut reason: String = name.to_owned();
                            reason.append(" tokenizer token IDs differ");
                            return Some(reason);
                        }
                    },
                    _ => {},
                }
            }
        },
        _ => {},
    }
    None
}

fn find_hash<'a>(list: &'a Vec<(u64, String)>, count: u64) -> (out: Option<&'a str>)
    ensures
        match (out, hash_for(metadata::hash_views(list@), count)) {
            (Some(s), Some(t)) => s@ == t,
            (None, None) => true,
            _ => false,
        },
{
    let ghost all = metadata::hash_views(list@);
    let mut i: usize = 0;
    while i < list.len()
        invariant
            i <= list@.len(),
            all == metadata::hash_views(list@),
            forall|j: int| 0 <= j < i ==> other_count(count)(#[trigger] all[j]),
        decreases list@.len() - i,
    {
        proof {
            assert(all[i as int] == (list@[i as int].0, list@[i as int].1@));
        }
        if list[i].0 == count {
            proof {
                text::lemma_run_unique(all, other_count(count), i as int);
            }
            return Some(list[i].1.as_str());
        }
        i += 1;
    }
    proof {
        text::lemma_run_unique(all, other_count(count), i as int);
    }
    None
}

pub fn draft_tokenizer_compatibility(
    main_vocab: &TokenizerMetadata,
    draft_vocab: &TokenizerMetadata,
) -> (out: DraftCompatibility)
    ensures
        out@ == vocabularies_agree(main_vocab@, draft_vocab@),
{
    match conflict(
        "BOS",
        main_vocab.add_bos_token,
        draft_vocab.add_bos_token,
        main_vocab.bos_token_id,
        draft_vocab.bos_token_id,
    ) {
        Some(reason) => return DraftCompatibility::Incompatible(reason),
        None => {},
    }
    match conflict(
        "EOS",
        main_vocab.add_eos_token,
        draft_vocab.add_eos_token,
        main_vocab.eos_token_id,
        draft_vocab.eos_token_id,
    ) {
        Some(reason) => return DraftCompatibility::Incompatible(reason),
        None => {},
    }
    let a: u64 = main_vocab.token_count;
    let b: u64 = draft_vocab.token_count;
    let apart: u64 = if a < b {
        b - a
    } else {
        a - b
    };
    if apart > 128 {
        let mut reason: String = "vocabulary sizes differ by more than 128 (".to_owned();
        reason.append(text::decimal(a).as_str());
        reason.append(" vs ");
        reason.append(text::decimal(b).as_str());
        reason.append(")");
        return DraftCompatibility::Incompatible(reason);
    }
    let shared: u64 = if a < b {
        a
    } else {
        b
    };
    match (
        find_hash(&main_vocab.prefix_hashes, shared),
        find_hash(&draft_vocab.prefix_hashes, shared),
    ) {
        (Some(x), Some(y)) => if text::same(x, y) {
            DraftCompatibility::Compatible
        } else {
            DraftCompatibility::Incompatible("tokenizer vocabulary prefixes differ".to_owned())
        },
        _ => DraftCompatibility::Unknown("tokenizer prefix hash unavailable".to_owned()),
    }
}

/// Those of the first `n` pieces of a path between its slashes that count: an empty piece
/// does not, and one that stays in place counts only at the very front.
pub open spec fn counting_parts(pieces: Seq<Seq<char>>, n: nat) -> Seq<Seq<char>>
    decreases n,
{
    if n == 0 {
        seq![]
    } else {
        let earlier = counting_parts(pieces, (n - 1) as nat);
        let piece = pieces[n - 1];
        if piece.len() == 0 || (piece == "."@ && n > 1) {
            earlier
        } else {
            earlier.push(piece)
        }
    }
}

/// What a path consists of: whether it starts at the root, and its components.
pub open spec fn path_parts(path: Seq<char>) -> (bool, Seq<Seq<char>>) {
    let pieces = text::split_of(path, '/');
    (path.len() > 0 && path[0] == '/', counting_parts(pieces, pieces.len()))
}

fn components(path: &str) -> (out: (bool, Vec<String>))
    ensures
        (out.0, text::views(out.1@)) == path_parts(path@),
{
    let chars: Vec<char> = text::chars_of(path);
    let pieces: Vec<String> = text::split(path, '/');
    let ghost all = text::views(pieces@);
    let mut out: Vec<String> = Vec::new();
    let mut i: usize = 0;
    proof {
        assert(text::views(out@) =~= seq![]);
    }
    while i < pieces.len()
        invariant
            i <= pieces@.len(),
            all == text::views(pieces@),
            text::views(out@) == counting_parts(all, i as nat),
        decreases pieces@.len() - i,
    {
        proof {
            assert(all[i as int] == pieces@[i as int]@);
        }
        let piece: &str = pieces[i].as_str();
        if !(piece.is_empty() || (i > 0 && text::same(piece, "."))) {
            process::add(&mut out, piece);
        }
        i += 1;
    }
    (chars.len() > 0 && chars[0] == '/', out)
}

/// Whether two paths have the same components.
pub fn same_path(a: &str, b: &str) -> (yes: bool)
    ensures
        yes == (path_parts(a@) == path_parts(b@)),
{
    let (a_root, x): (bool, Vec<String>) = components(a);
    let (b_root, y): (bool, Vec<String>) = components(b);
    let ghost left = text::views(x@);
    let ghost right = text::views(y@);
    proof {
        assert(left.len() == x@.len() && right.len() == y@.len());
    }
    if a_root != b_root || x.len() != y.len() {
        return false;
    }
    let mut i: usize = 0;
    while i < x.len()
        invariant
            i <= x@.len(),
            path_parts(a@).1 == left,
            path_parts(b@).1 == right,
            x@.len() == y@.len(),
            left == text::views(x@),
            right == text::views(y@),
            forall|j: int| 0 <= j < i ==> #[trigger] left[j] == right[j],
        decreases x@.len() - i,
    {
        proof {
            assert(left[i as int] == x@[i as int]@ && right[i as int] == y@[i as int]@);
        }
        if !text::same(x[i].as_str(), y[i].as_str()) {
            return false;
        }
        i += 1;
    }
    proof {
        assert(left =~= right);
    }
    true
}

/// Whether a draft can draft for a model, from what their files say.
pub open spec fn drafts_for(
    main: Seq<char>,
    draft: Seq<char>,
    main_meta: Option<GgufView>,
    draft_meta: Option<GgufView>,
) -> CompatibilityView {
    if path_parts(main) == path_parts(draft) {
        CompatibilityView::Incompatible("draft is the main model"@)
    } else if main_meta is None {
        CompatibilityView::Unknown("main GGUF metadata unavailable"@)
    } else if draft_meta is None {
        CompatibilityView::Unknown("draft GGUF metadata unavailable"@)
    } else {
        match (main_meta->Some_0.tokenizer, draft_meta->Some_0.tokenizer) {
            (Some(a), Some(b)) => vocabularies_agree(a, b),
            _ => CompatibilityView::Unknown("tokenizer vocabulary metadata unavailable"@),
        }
    }
}

pub fn draft_compatibility(
    main: &str,
    draft: &str,
    main_meta: Option<&GgufMetadata>,
    draft_meta: Option<&GgufMetadata>,
) -> (out: DraftCompatibility)
    ensures
        out@ == drafts_for(
            main@,
            draft@,
            metadata::meta_view(main_meta),
            metadata::meta_view(draft_meta),
        ),
{
    if same_path(main, draft) {
        return DraftCompatibility::Incompatible("draft is the main model".to_owned());
    }
    let a: &GgufMetadata = match main_meta {
        Some(m) => m,
        None => return DraftCompatibility::Unknown("main GGUF metadata unavailable".to_owned()),
    };
    let b: &GgufMetadata = match draft_meta {
        Some(m) => m,
        None => return DraftCompatibility::Unknown("draft GGUF metadata unavailable".to_owned()),
    };
    match (&a.tokenizer, &b.tokenizer) {
        (Some(x), Some(y)) => draft_tokenizer_compatibility(x, y),
        _ => DraftCompatibility::Unknown("tokenizer vocabulary metadata unavailable".to_owned()),
    }
}

/// Swapping two vocabularies does not change whether they agree, nor whether that is known.
pub proof fn agreement_is_symmetric(main: TokenizerView, draft: TokenizerView)
    ensures
        vocabularies_agree(main, draft) is Compatible <==> vocabularies_agree(
            draft,
            main,
        ) is Compatible,
        vocabularies_agree(main, draft) is Incompatible <==> vocabularies_agree(
            draft,
            main,
        ) is Incompatible,
        vocabularies_agree(main, draft) is Unknown <==> vocabularies_agree(draft, main) is Unknown,
{
}

/// Why a model cannot be deleted.
#[derive(Clone, Copy, Debug, PartialEq, Eq, Structural)]
pub enum DeleteError {
    Unknown,
    Pinned,
}

/// Having another identifier than `id`, as a function.
pub open spec fn other_id(id: Seq<char>) -> spec_fn(ModelView) -> bool {
    |m: ModelView| m.id != id
}

/// The place of the model that may be deleted: the first with the identifier,
/// unless it is pinned.
pub open spec fn deletable(models: Seq<ModelView>, pinned: Seq<Seq<char>>, id: Seq<char>) -> Result<
    int,
    DeleteError,
> {
    let at = text::run(models, other_id(id)) as int;
    if at >= models.len() {
        Err(DeleteError::Unknown)
    } else if pinned.contains(id) {
        Err(DeleteError::Pinned)
    } else {
        Ok(at)
    }
}

/// Finds the model to delete.
pub fn delete(models: &Vec<Model>, pinned: &Vec<String>, id: &str) -> (out: Result<
    usize,
    DeleteError,
>)
    ensures
        match (out, deletable(model_views(models@), text::views(pinned@), id@)) {
            (Ok(i), Ok(j)) => i == j && i < models@.len(),
            (Err(e), Err(f)) => e == f,
            _ => false,
        },
{
    let ghost all = model_views(models@);
    let mut i: usize = 0;
    while i < models.len() && !text::same(models[i].id.as_str(), id)
        invariant
            i <= models@.len(),
            all == model_views(models@),
            forall|j: int| 0 <= j < i ==> other_id(id@)(#[trigger] all[j]),
        decreases models@.len() - i,
    {
        proof {
            assert(all[i as int] == models@[i as int]@);
        }
        i += 1;
    }
    proof {
        assert(i < models@.len() ==> all[i as int] == models@[i as int]@);
        text::lemma_run_unique(all, other_id(id@), i as int);
    }
    if i == models.len() {
        return Err(DeleteError::Unknown);
    }
    if profiles::holds_text(pinned, id) {
        return Err(DeleteError::Pinned);
    }
    Ok(i)
}

/// The sum of some digests.
pub open spec fn sum_of(hashes: Seq<u64>) -> nat
    decreases hashes.len(),
{
    if hashes.len() == 0 {
        0
    } else {
        sum_of(hashes.drop_last()) + hashes.last() as nat
    }
}

/// One number for a library: the sum of the digests of its files, as far as it can be held,
/// joined to a multiple of their count.
pub open spec fn fingerprint_of(hashes: Seq<u64>) -> u64 {
    ((sum_of(hashes) % 0x1_0000_0000_0000_0000) as u64) ^ (hashes.len() as u64).wrapping_mul(
        0x9e37_79b9_7f4a_7c15,
    )
}

/// One number for a library, from the digests of its files in any order.
pub fn models_fingerprint(hashes: &[u64]) -> (out: u64)
    ensures
        out == fingerprint_of(hashes@),
{
    let mut sum: u64 = 0;
    let mut i: usize = 0;
    proof {
        assert(hashes@.take(0) =~= seq![]);
    }
    while i < hashes.len()
        invariant
            i <= hashes@.len(),
            sum == sum_of(hashes@.take(i as int)) % 0x1_0000_0000_0000_0000,
        decreases hashes@.len() - i,
    {
        proof {
            assert(hashes@.take(i + 1).drop_last() =~= hashes@.take(i as int));
        }
        sum = sum.wrapping_add(hashes[i]);
        i += 1;
    }
    proof {
        assert(hashes@.take(hashes@.len() as int) =~= hashes@);
    }
    sum ^ (hashes.len() as u64).wrapping_mul(0x9e37_79b9_7f4a_7c15)
}

proof fn lemma_sum_without(hashes: Seq<u64>, at: int)
    requires
        0 <= at < hashes.len(),
    ensures
        sum_of(hashes) == sum_of(hashes.remove(at)) + hashes[at],
    decreases hashes.len(),
{
    let rest = hashes.remove(at);
    if at == hashes.len() - 1 {
        assert(rest =~= hashes.drop_last());
    } else {
        lemma_sum_without(hashes.drop_last(), at);
        assert(rest.drop_last() =~= hashes.drop_last().remove(at));
        assert(rest.last() == hashes.last());
    }
}

proof fn lemma_sum_permuted(a: Seq<u64>, b: Seq<u64>)
    requires
        a.to_multiset() == b.to_multiset(),
    ensures
        sum_of(a) == sum_of(b),
        a.len() == b.len(),
    decreases a.len(),
{
    broadcast use vstd::seq_lib::group_to_multiset_ensures;

    assert(a.len() == a.to_multiset().len());
    assert(b.len() == b.to_multiset().len());
    if a.len() > 0 {
        let x = a.last();
        assert(a[a.len() - 1] == x);
        assert(a.to_multiset().count(x) > 0);
        assert(b.contains(x));
        let i = choose|i: int| 0 <= i < b.len() && b[i] == x;
        assert(a.drop_last() =~= a.remove(a.len() - 1));
        lemma_sum_without(b, i);
        lemma_sum_permuted(a.drop_last(), b.remove(i));
    }
}

/// The fingerprint does not depend on the order in which the files were found.
pub proof fn order_does_not_matter(a: Seq<u64>, b: Seq<u64>)
    requires
        a.to_multiset() == b.to_multiset(),
    ensures
        fingerprint_of(a) == fingerprint_of(b),
{
    lemma_sum_permuted(a, b);
}

/// A library of which one file has changed has another fingerprint.
pub proof fn one_change_changes_the_fingerprint(hashes: Seq<u64>, at: int, changed: u64)
    requires
        0 <= at < hashes.len(),
        changed != hashes[at],
    ensures
        fingerprint_of(hashes.update(at, changed)) != fingerprint_of(hashes),
{
    let other = hashes.update(at, changed);
    let m = 0x1_0000_0000_0000_0000int;
    lemma_sum_without(hashes, at);
    lemma_sum_without(other, at);
    assert(hashes.remove(at) =~= other.remove(at));
    let x = sum_of(hashes) as int;
    let y = sum_of(other) as int;
    assert(x - y == hashes[at] - changed);
    assert(x % m != y % m);
    let a = (x % m) as u64;
    let b = (y % m) as u64;
    let c = (hashes.len() as u64).wrapping_mul(0x9e37_79b9_7f4a_7c15);
    assert(a ^ c != b ^ c) by (bit_vector)
        requires
            a != b,
    ;
}

} // verus!
