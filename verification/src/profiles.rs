//! Profiles: named sets of server flags, and which model uses which.
use vstd::prelude::*;

use crate::json;
use crate::json::{Json, JsonValue};
use crate::table;
use crate::table::Table;
use crate::text;

verus! {

/// The members of a profile or of an object.
pub type Members = Seq<(Seq<char>, Json)>;

pub struct Profiles {
    /// Which flags a profile may hold: names, or prefixes that end in `*`.
    pub expose: Vec<String>,
    pub profiles: Table<Table<JsonValue>>,
    /// Which profile a model uses, by patterns of model names.
    pub models: Table<JsonValue>,
}

pub ghost struct ProfilesView {
    pub expose: Seq<Seq<char>>,
    pub profiles: Seq<(Seq<char>, Members)>,
    pub models: Members,
}

/// The members of a table, as a function.
pub open spec fn to_members() -> spec_fn(Table<JsonValue>) -> Members {
    |t: Table<JsonValue>| json::members(t)
}

impl View for Profiles {
    type V = ProfilesView;

    open spec fn view(&self) -> ProfilesView {
        ProfilesView {
            expose: text::views(self.expose@),
            profiles: table::mapped(self.profiles@, to_members()),
            models: table::mapped(self.models@, json::to_json()),
        }
    }
}

/// Why something cannot be done with the profiles.
pub enum ProfileError {
    Name,
    Exists,
    Unknown,
    /// A flag that is set elsewhere.
    Managed(String),
    NotExposed(String),
    UnknownFlag(String),
    BindingLacksProfile,
    /// The pattern of a binding that is neither a name nor an object.
    BindingKind(String),
    NoOwner(String),
    /// The profile and the model that it belongs to.
    OwnedBy(String, String),
    EnvironmentJson,
    EnvironmentEntry(String),
    EnvironmentKind,
    EnvironmentName(String),
    EnvironmentNul(String),
}

pub ghost enum ProfileErrorView {
    Name,
    Exists,
    Unknown,
    Managed(Seq<char>),
    NotExposed(Seq<char>),
    UnknownFlag(Seq<char>),
    BindingLacksProfile,
    BindingKind(Seq<char>),
    NoOwner(Seq<char>),
    OwnedBy(Seq<char>, Seq<char>),
    EnvironmentJson,
    EnvironmentEntry(Seq<char>),
    EnvironmentKind,
    EnvironmentName(Seq<char>),
    EnvironmentNul(Seq<char>),
}

impl View for ProfileError {
    type V = ProfileErrorView;

    open spec fn view(&self) -> ProfileErrorView {
        match *self {
            ProfileError::Name => ProfileErrorView::Name,
            ProfileError::Exists => ProfileErrorView::Exists,
            ProfileError::Unknown => ProfileErrorView::Unknown,
            ProfileError::Managed(s) => ProfileErrorView::Managed(s@),
            ProfileError::NotExposed(s) => ProfileErrorView::NotExposed(s@),
            ProfileError::UnknownFlag(s) => ProfileErrorView::UnknownFlag(s@),
            ProfileError::BindingLacksProfile => ProfileErrorView::BindingLacksProfile,
            ProfileError::BindingKind(s) => ProfileErrorView::BindingKind(s@),
            ProfileError::NoOwner(s) => ProfileErrorView::NoOwner(s@),
            ProfileError::OwnedBy(a, b) => ProfileErrorView::OwnedBy(a@, b@),
            ProfileError::EnvironmentJson => ProfileErrorView::EnvironmentJson,
            ProfileError::EnvironmentEntry(s) => ProfileErrorView::EnvironmentEntry(s@),
            ProfileError::EnvironmentKind => ProfileErrorView::EnvironmentKind,
            ProfileError::EnvironmentName(s) => ProfileErrorView::EnvironmentName(s@),
            ProfileError::EnvironmentNul(s) => ProfileErrorView::EnvironmentNul(s@),
        }
    }
}

/// What is said where something cannot be done with the profile `name`.
pub open spec fn error_text_of(e: ProfileErrorView, name: Seq<char>) -> Seq<char> {
    match e {
        ProfileErrorView::Name => "profile names use letters, numbers, dots, underscores, or hyphens"@,
        ProfileErrorView::Exists => "profile '"@ + name + "' already exists"@,
        ProfileErrorView::Unknown => "unknown profile '"@ + name + "'"@,
        ProfileErrorView::Managed(flag) => "profile '"@ + name + "': --"@ + flag
            + " is managed by llamactl"@,
        ProfileErrorView::NotExposed(flag) => "profile '"@ + name + "': --"@ + flag
            + " is not exposed"@,
        ProfileErrorView::UnknownFlag(flag) => "profile '"@ + name + "': --"@ + flag
            + " is unknown to installed llama.cpp"@,
        ProfileErrorView::BindingLacksProfile => "model profile binding lacks 'profile'"@,
        ProfileErrorView::BindingKind(pattern) => "model binding '"@ + pattern
            + "' must be a profile name or object"@,
        ProfileErrorView::NoOwner(profile) => "profile '"@ + profile + "' has no owner"@,
        ProfileErrorView::OwnedBy(profile, owner) => "profile '"@ + profile + "' belongs to '"@
            + owner + "', not '"@ + name + "'"@,
        ProfileErrorView::EnvironmentJson => "invalid profile environment JSON"@,
        ProfileErrorView::EnvironmentEntry(line) => "environment entry lacks '=': "@ + line,
        ProfileErrorView::EnvironmentKind => "profile _env must be an object or KEY=VALUE text"@,
        ProfileErrorView::EnvironmentName(key) => "invalid environment variable name '"@ + key
            + "'"@,
        ProfileErrorView::EnvironmentNul(key) => "environment variable '"@ + key
            + "' contains NUL"@,
    }
}

pub fn error_text(e: &ProfileError, name: &str) -> (out: String)
    ensures
        out@ == error_text_of(e@, name@),
{
    let mut out: String = String::new();
    match e {
        ProfileError::Name => {
            out.append("profile names use letters, numbers, dots, underscores, or hyphens");
        },
        ProfileError::Exists => {
            out.append("profile '");
            out.append(name);
            out.append("' already exists");
        },
        ProfileError::Unknown => {
            out.append("unknown profile '");
            out.append(name);
            out.append("'");
        },
        ProfileError::Managed(flag) => {
            out.append("profile '");
            out.append(name);
            out.append("': --");
            out.append(flag.as_str());
            out.append(" is managed by llamactl");
        },
        ProfileError::NotExposed(flag) => {
            out.append("profile '");
            out.append(name);
            out.append("': --");
            out.append(flag.as_str());
            out.append(" is not exposed");
        },
        ProfileError::UnknownFlag(flag) => {
            out.append("profile '");
            out.append(name);
            out.append("': --");
            out.append(flag.as_str());
            out.append(" is unknown to installed llama.cpp");
        },
        ProfileError::BindingLacksProfile => {
            out.append("model profile binding lacks 'profile'");
        },
        ProfileError::BindingKind(pattern) => {
            out.append("model binding '");
            out.append(pattern.as_str());
            out.append("' must be a profile name or object");
        },
        ProfileError::NoOwner(profile) => {
            out.append("profile '");
            out.append(profile.as_str());
            out.append("' has no owner");
        },
        ProfileError::OwnedBy(profile, owner) => {
            out.append("profile '");
            out.append(profile.as_str());
            out.append("' belongs to '");
            out.append(owner.as_str());
            out.append("', not '");
            out.append(name);
            out.append("'");
        },
        ProfileError::EnvironmentJson => {
            out.append("invalid profile environment JSON");
        },
        ProfileError::EnvironmentEntry(line) => {
            out.append("environment entry lacks '=': ");
            out.append(line.as_str());
        },
        ProfileError::EnvironmentKind => {
            out.append("profile _env must be an object or KEY=VALUE text");
        },
        ProfileError::EnvironmentName(key) => {
            out.append("invalid environment variable name '");
            out.append(key.as_str());
            out.append("'");
        },
        ProfileError::EnvironmentNul(key) => {
            out.append("environment variable '");
            out.append(key.as_str());
            out.append("' contains NUL");
        },
    }
    proof {
        assert(out@ =~= error_text_of(e@, name@));
    }
    out
}

pub open spec fn is_alphanumeric(c: char) -> bool {
    ||| 'a' <= c <= 'z'
    ||| 'A' <= c <= 'Z'
    ||| '0' <= c <= '9'
}

pub fn alphanumeric(c: char) -> (yes: bool)
    ensures
        yes == is_alphanumeric(c),
{
    ('a' <= c && c <= 'z') || ('A' <= c && c <= 'Z') || ('0' <= c && c <= '9')
}

/// A name of letters, digits, dots, underscores and hyphens that starts with a
/// letter or a digit.
pub open spec fn is_name(s: Seq<char>) -> bool {
    &&& s.len() > 0
    &&& is_alphanumeric(s[0])
    &&& forall|i: int|
        0 <= i < s.len() ==> is_alphanumeric(#[trigger] s[i]) || s[i] == '.' || s[i] == '_' || s[i]
            == '-'
}

/// Whether a name can name a profile.
pub fn valid_name(name: &str) -> (out: Result<(), ProfileError>)
    ensures
        out is Ok <==> is_name(name@),
        out matches Err(e) ==> e@ == ProfileErrorView::Name,
{
    let chars: Vec<char> = text::chars_of(name);
    if chars.len() == 0 || !alphanumeric(chars[0]) {
        return Err(ProfileError::Name);
    }
    let mut i: usize = 0;
    while i < chars.len()
        invariant
            i <= chars@.len(),
            chars@ == name@,
            forall|j: int|
                0 <= j < i ==> is_alphanumeric(#[trigger] name@[j]) || name@[j] == '.' || name@[j]
                    == '_' || name@[j] == '-',
        decreases chars@.len() - i,
    {
        let c: char = chars[i];
        if !alphanumeric(c) && c != '.' && c != '_' && c != '-' {
            proof {
                assert(!is_alphanumeric(name@[i as int]));
            }
            return Err(ProfileError::Name);
        }
        i += 1;
    }
    Ok(())
}

/// The profiles after `source` was copied to `target`.
pub open spec fn cloned_profile(p: ProfilesView, source: Seq<char>, target: Seq<char>) -> Result<
    ProfilesView,
    ProfileErrorView,
> {
    if !is_name(target) {
        Err(ProfileErrorView::Name)
    } else if table::lookup(p.profiles, target) is Some {
        Err(ProfileErrorView::Exists)
    } else {
        match table::lookup(p.profiles, source) {
            None => Err(ProfileErrorView::Unknown),
            Some(profile) => Ok(
                ProfilesView { profiles: table::put(p.profiles, target, profile), ..p },
            ),
        }
    }
}

/// What a binding becomes when `source` is renamed to `target`.
pub open spec fn rebound(binding: Json, source: Seq<char>, target: Seq<char>) -> Json {
    match binding {
        Json::Text(s) => if s == source {
            Json::Text(target)
        } else {
            binding
        },
        Json::Object(list) => if table::lookup(list, "profile"@) == Some(Json::Text(source)) {
            Json::Object(table::put(list, "profile"@, Json::Text(target)))
        } else {
            binding
        },
        _ => binding,
    }
}

/// The profiles after `source` was renamed to `target`: every binding and every
/// exposed name follows.
pub open spec fn renamed_profile(p: ProfilesView, source: Seq<char>, target: Seq<char>) -> Result<
    ProfilesView,
    ProfileErrorView,
> {
    if !is_name(target) {
        Err(ProfileErrorView::Name)
    } else if table::lookup(p.profiles, target) is Some {
        Err(ProfileErrorView::Exists)
    } else {
        match table::lookup(p.profiles, source) {
            None => Err(ProfileErrorView::Unknown),
            Some(profile) => Ok(
                ProfilesView {
                    expose: p.expose.map_values(
                        |s: Seq<char>|
                            if s == source {
                                target
                            } else {
                                s
                            },
                    ),
                    profiles: table::put(table::without(p.profiles, source), target, profile),
                    models: table::mapped(p.models, |b: Json| rebound(b, source, target)),
                },
            ),
        }
    }
}

/// Whether a binding leads to the profile `name`.
pub open spec fn leads_to(binding: Json, name: Seq<char>) -> bool {
    ||| json::text_in(binding) == Some(name)
    ||| json::member_in(binding, "profile"@) == Some(Json::Text(name))
}

/// The bindings that do not lead to `name`.
pub open spec fn unbound(models: Members, name: Seq<char>) -> Members
    decreases models.len(),
{
    if models.len() == 0 {
        seq![]
    } else if leads_to(models.last().1, name) {
        unbound(models.drop_last(), name)
    } else {
        unbound(models.drop_last(), name).push(models.last())
    }
}

/// The profiles after `name` was removed, with the bindings that led to it.
pub open spec fn removed_profile(p: ProfilesView, name: Seq<char>) -> Result<
    ProfilesView,
    ProfileErrorView,
> {
    if table::lookup(p.profiles, name) is None {
        Err(ProfileErrorView::Unknown)
    } else {
        Ok(
            ProfilesView {
                profiles: table::without(p.profiles, name),
                models: unbound(p.models, name),
                ..p
            },
        )
    }
}

/// Whether a text value holds `text`.
pub fn is_text(value: Option<&JsonValue>, text: &str) -> (yes: bool)
    ensures
        yes == match value {
            Some(v) => v@ == Json::Text(text@),
            None => false,
        },
{
    match value {
        Some(v) => match v.as_str() {
            Some(s) => text::same(s, text),
            None => false,
        },
        None => false,
    }
}

fn rebind(binding: &JsonValue, source: &str, target: &str) -> (out: JsonValue)
    ensures
        out@ == rebound(binding@, source@, target@),
{
    if is_text(Some(binding), source) {
        return JsonValue::String(target.to_owned());
    }
    match binding {
        JsonValue::Object(t) => {
            proof {
                json::lemma_members(*t);
                table::lemma_mapped_lookup(t@, json::to_json(), "profile"@);
            }
            if is_text(t.get("profile"), source) {
                let mut new: Table<JsonValue> = json::copy_table(t);
                let ghost before = new@;
                let value: JsonValue = JsonValue::String(target.to_owned());
                proof {
                    json::lemma_members(new);
                    table::lemma_mapped_put(before, json::to_json(), "profile"@, value);
                }
                new.insert("profile".to_owned(), value);
                proof {
                    json::lemma_members(new);
                }
                JsonValue::Object(new)
            } else {
                binding.copy()
            }
        },
        _ => binding.copy(),
    }
}

impl Profiles {
    /// Copies a profile under a new name.
    pub fn clone_profile(&mut self, source: &str, target: &str) -> (out: Result<(), ProfileError>)
        ensures
            match (out, cloned_profile(old(self)@, source@, target@)) {
                (Ok(_), Ok(v)) => final(self)@ == v,
                (Err(e), Err(f)) => e@ == f && final(self)@ == old(self)@,
                _ => false,
            },
    {
        proof {
            table::lemma_mapped_lookup(self.profiles@, to_members(), target@);
            table::lemma_mapped_lookup(self.profiles@, to_members(), source@);
        }
        match valid_name(target) {
            Ok(_) => {},
            Err(e) => return Err(e),
        }
        if self.profiles.contains_key(target) {
            return Err(ProfileError::Exists);
        }
        let value: Table<JsonValue> = match self.profiles.get(source) {
            Some(profile) => json::copy_table(profile),
            None => return Err(ProfileError::Unknown),
        };
        proof {
            table::lemma_mapped_put(self.profiles@, to_members(), target@, value);
        }
        self.profiles.insert(target.to_owned(), value);
        Ok(())
    }

    /// Renames a profile; its bindings follow.
    pub fn rename(&mut self, source: &str, target: &str) -> (out: Result<(), ProfileError>)
        ensures
            match (out, renamed_profile(old(self)@, source@, target@)) {
                (Ok(_), Ok(v)) => final(self)@ == v,
                (Err(e), Err(f)) => e@ == f && final(self)@ == old(self)@,
                _ => false,
            },
    {
        let ghost start = self@;
        proof {
            table::lemma_mapped_lookup(self.profiles@, to_members(), target@);
            table::lemma_mapped_lookup(self.profiles@, to_members(), source@);
        }
        match valid_name(target) {
            Ok(_) => {},
            Err(e) => return Err(e),
        }
        if self.profiles.contains_key(target) {
            return Err(ProfileError::Exists);
        }
        if !self.profiles.contains_key(source) {
            return Err(ProfileError::Unknown);
        }
        match self.profiles.remove(source) {
            Some(profile) => {
                proof {
                    table::lemma_mapped_put(self.profiles@, to_members(), target@, profile);
                }
                self.profiles.insert(target.to_owned(), profile);
            },
            None => {},
        }
        let ghost moved = table::mapped(self.profiles@, to_members());
        let mut i: usize = 0;
        while i < self.models.len()
            invariant
                i <= self.models@.len(),
                self.models@.len() == start.models.len(),
                text::views(self.expose@) == start.expose,
                table::mapped(self.profiles@, to_members()) == moved,
                forall|j: int|
                    0 <= j < start.models.len() ==> (#[trigger] self.models@[j]).0
                        == start.models[j].0 && json::json_of(self.models@[j].1) == if j < i {
                        rebound(start.models[j].1, source@, target@)
                    } else {
                        start.models[j].1
                    },
            decreases self.models@.len() - i,
        {
            let value: JsonValue = rebind(self.models.value_at(i), source, target);
            self.models.set_at(i, value);
            i += 1;
        }
        let mut k: usize = 0;
        while k < self.expose.len()
            invariant
                k <= self.expose@.len(),
                self.expose@.len() == start.expose.len(),
                table::mapped(self.profiles@, to_members()) == moved,
                table::mapped(self.models@, json::to_json()) =~= table::mapped(
                    start.models,
                    |b: Json| rebound(b, source@, target@),
                ),
                forall|j: int|
                    0 <= j < start.expose.len() ==> (#[trigger] self.expose@[j])@ == if j < k
                        && start.expose[j] == source@ {
                        target@
                    } else {
                        start.expose[j]
                    },
            decreases self.expose@.len() - k,
        {
            if text::same(self.expose[k].as_str(), source) {
                self.expose.set(k, target.to_owned());
            }
            k += 1;
        }
        proof {
            assert(self@.expose =~= renamed_profile(start, source@, target@)->Ok_0.expose);
        }
        Ok(())
    }

    /// Removes a profile and the bindings that lead to it.
    pub fn remove(&mut self, name: &str) -> (out: Result<(), ProfileError>)
        ensures
            match (out, removed_profile(old(self)@, name@)) {
                (Ok(_), Ok(v)) => final(self)@ == v,
                (Err(e), Err(f)) => e@ == f && final(self)@ == old(self)@,
                _ => false,
            },
    {
        let ghost start = self@;
        proof {
            table::lemma_mapped_lookup(self.profiles@, to_members(), name@);
        }
        if !self.profiles.contains_key(name) {
            return Err(ProfileError::Unknown);
        }
        let _ = self.profiles.remove(name);
        let ghost kept = table::mapped(self.profiles@, to_members());
        let mut i: usize = 0;
        let ghost mut seen: int = 0;
        proof {
            assert(start.models.take(0) =~= seq![]);
            assert(start.models.skip(0) =~= start.models);
            assert(table::mapped(self.models@, json::to_json()).take(0) =~= seq![]);
            assert(table::mapped(self.models@, json::to_json()).skip(0) =~= start.models);
        }
        while i < self.models.len()
            invariant
                i <= self.models@.len(),
                0 <= seen <= start.models.len(),
                text::views(self.expose@) == start.expose,
                table::mapped(self.profiles@, to_members()) == kept,
                table::mapped(self.models@, json::to_json()).take(i as int) == unbound(
                    start.models.take(seen),
                    name@,
                ),
                table::mapped(self.models@, json::to_json()).skip(i as int) == start.models.skip(
                    seen,
                ),
            decreases self.models@.len() - i,
        {
            let ghost list = table::mapped(self.models@, json::to_json());
            let value: &JsonValue = self.models.value_at(i);
            proof {
                assert(list.skip(i as int).len() == start.models.skip(seen).len());
                assert(seen < start.models.len());
                assert(list.skip(i as int)[0] == list[i as int]);
                assert(list[i as int] == start.models.skip(seen)[0]);
                assert(list[i as int] == start.models[seen]);
                assert(start.models.take(seen + 1).drop_last() =~= start.models.take(seen));
                assert(start.models.skip(seen + 1) =~= start.models.skip(seen).skip(1));
                assert(list.skip(i + 1) =~= list.skip(i as int).skip(1));
            }
            if is_text(Some(value), name) || is_text(value.get("profile"), name) {
                self.models.remove_at(i);
                proof {
                    let now = table::mapped(self.models@, json::to_json());
                    assert(now =~= list.remove(i as int));
                    assert(now.take(i as int) =~= list.take(i as int));
                    assert(now.skip(i as int) =~= list.skip(i + 1));
                }
            } else {
                proof {
                    assert(list.take(i + 1) =~= list.take(i as int).push(list[i as int]));
                }
                i += 1;
            }
            proof {
                seen = seen + 1;
            }
        }
        proof {
            let now = table::mapped(self.models@, json::to_json());
            assert(now.take(i as int) =~= now);
            assert(now.skip(i as int).len() == 0);
            assert(start.models.skip(seen).len() == 0);
            assert(start.models.take(seen) =~= start.models);
        }
        Ok(())
    }
}

/// The flags that no profile may hold, since they are set for the server.
pub open spec fn is_reserved(flag: Seq<char>) -> bool {
    ||| flag == "m"@
    ||| flag == "model"@
    ||| flag == "mmproj"@
    ||| flag == "model-url"@
    ||| flag == "hf"@
    ||| flag == "hf-repo"@
    ||| flag == "hf-file"@
    ||| flag == "host"@
    ||| flag == "port"@
    ||| flag == "api-key"@
    ||| flag == "alias"@
    ||| flag == "help"@
    ||| flag == "usage"@
    ||| flag == "version"@
}

fn reserved(flag: &str) -> (yes: bool)
    ensures
        yes == is_reserved(flag@),
{
    text::same(flag, "m") || text::same(flag, "model") || text::same(flag, "mmproj") || text::same(
        flag,
        "model-url",
    ) || text::same(flag, "hf") || text::same(flag, "hf-repo") || text::same(flag, "hf-file")
        || text::same(flag, "host") || text::same(flag, "port") || text::same(flag, "api-key")
        || text::same(flag, "alias") || text::same(flag, "help") || text::same(flag, "usage")
        || text::same(flag, "version")
}

/// Whether one pattern of the exposed flags admits a flag.
pub open spec fn admits(pattern: Seq<char>, flag: Seq<char>) -> bool {
    ||| pattern == "*"@
    ||| pattern == flag
    ||| pattern.len() > 0 && pattern.last() == '*' && pattern.drop_last().is_prefix_of(flag)
}

/// Whether some pattern admits a flag.
pub open spec fn exposed(expose: Seq<Seq<char>>, flag: Seq<char>) -> bool {
    exists|i: int| 0 <= i < expose.len() && admits(#[trigger] expose[i], flag)
}

/// A value as the argument of a flag.
pub open spec fn displayed(j: Json) -> Seq<char> {
    match j {
        Json::Text(s) => s,
        _ => json::rendered(j),
    }
}

/// The flag and one argument for each of the first `n` items.
pub open spec fn repeated_flag(key: Seq<char>, items: Seq<Json>, n: nat) -> Seq<Seq<char>>
    decreases n,
{
    if n == 0 {
        seq![]
    } else {
        repeated_flag(key, items, (n - 1) as nat).push("--"@ + key).push(displayed(items[n - 1]))
    }
}

/// The arguments for one flag.
pub open spec fn flag_args(key: Seq<char>, value: Json) -> Seq<Seq<char>> {
    match value {
        Json::Bool(true) => seq!["--"@ + key],
        Json::Bool(false) => seq![],
        Json::Null => seq![],
        Json::Array(items) => repeated_flag(key, items, items.len()),
        _ => seq!["--"@ + key, displayed(value)],
    }
}

/// A key without the hyphens in front.
pub open spec fn bare_flag(key: Seq<char>) -> Seq<char> {
    key.skip(text::run(key, |c: char| c == '-') as int)
}

/// Whether a flag may be handed to a server that knows the flags `known`.
pub open spec fn is_known(known: Option<Seq<Seq<char>>>, flag: Seq<char>) -> bool {
    match known {
        Some(flags) => flags.contains(flag),
        None => true,
    }
}

/// Whether a member stands for a flag in its turn.
pub open spec fn is_flag_key(key: Seq<char>) -> bool {
    &&& !(key.len() > 0 && key[0] == '_')
    &&& key != "jinja"@
    &&& key != "no-jinja"@
}

/// The arguments for the first `n` members; a flag that the server does not
/// know is left out.
pub open spec fn member_args(
    expose: Seq<Seq<char>>,
    known: Option<Seq<Seq<char>>>,
    list: Members,
    n: nat,
) -> Result<Seq<Seq<char>>, ProfileErrorView>
    decreases n,
{
    if n == 0 {
        Ok(seq![])
    } else {
        match member_args(expose, known, list, (n - 1) as nat) {
            Err(e) => Err(e),
            Ok(args) => {
                let key = list[n - 1].0;
                let flag = bare_flag(key);
                if !is_flag_key(key) {
                    Ok(args)
                } else if is_reserved(flag) {
                    Err(ProfileErrorView::Managed(flag))
                } else if !exposed(expose, flag) {
                    Err(ProfileErrorView::NotExposed(flag))
                } else if !is_known(known, flag) {
                    Ok(args)
                } else {
                    Ok(args + flag_args(flag, list[n - 1].1))
                }
            },
        }
    }
}

/// The texts among the first `n` items.
pub open spec fn texts_in(items: Seq<Json>, n: nat) -> Seq<Seq<char>>
    decreases n,
{
    if n == 0 {
        seq![]
    } else {
        match items[n - 1] {
            Json::Text(s) => texts_in(items, (n - 1) as nat).push(s),
            _ => texts_in(items, (n - 1) as nat),
        }
    }
}

/// The flag that a token names, up to an equals sign.
pub open spec fn token_flag(token: Seq<char>) -> Option<Seq<char>> {
    if "--"@.is_prefix_of(token) {
        let rest = token.skip(2);
        Some(rest.take(text::find_of(rest, '=') as int))
    } else {
        None
    }
}

/// Why a token may not be handed to the server, where it may not.
pub open spec fn token_error(
    expose: Seq<Seq<char>>,
    known: Option<Seq<Seq<char>>>,
    token: Seq<char>,
) -> Option<ProfileErrorView> {
    match token_flag(token) {
        None => None,
        Some(flag) => if is_reserved(flag) {
            Some(ProfileErrorView::Managed(flag))
        } else if !exposed(expose, flag) {
            Some(ProfileErrorView::NotExposed(flag))
        } else if !is_known(known, flag) {
            Some(ProfileErrorView::UnknownFlag(flag))
        } else {
            None
        },
    }
}

/// A token that may be handed to the server.
pub open spec fn fine_token(
    expose: Seq<Seq<char>>,
    known: Option<Seq<Seq<char>>>,
) -> spec_fn(Seq<char>) -> bool {
    |token: Seq<char>| token_error(expose, known, token) is None
}

/// The extra arguments of a profile, or what is wrong with the first that may
/// not be handed to the server.
pub open spec fn extra_args(
    expose: Seq<Seq<char>>,
    known: Option<Seq<Seq<char>>>,
    list: Members,
) -> Result<Seq<Seq<char>>, ProfileErrorView> {
    match table::lookup(list, "_extra_args"@) {
        Some(Json::Array(items)) => {
            let tokens = texts_in(items, items.len());
            let at = text::run(tokens, fine_token(expose, known)) as int;
            if at < tokens.len() {
                Err(token_error(expose, known, tokens[at])->0)
            } else {
                Ok(tokens)
            }
        },
        _ => Ok(seq![]),
    }
}

/// The arguments for the flag `key` where the profile has it.
pub open spec fn leading_args(list: Members, key: Seq<char>) -> Seq<Seq<char>> {
    match table::lookup(list, key) {
        Some(value) => flag_args(key, value),
        None => seq![],
    }
}

/// The server arguments that a profile stands for: the template switches first,
/// then the other flags in the order of their names, then the extra arguments.
pub open spec fn profile_args(
    p: ProfilesView,
    name: Seq<char>,
    known: Option<Seq<Seq<char>>>,
) -> Result<Seq<Seq<char>>, ProfileErrorView> {
    match table::lookup(p.profiles, name) {
        None => Err(ProfileErrorView::Unknown),
        Some(list) => match member_args(p.expose, known, list, list.len()) {
            Err(e) => Err(e),
            Ok(flags) => match extra_args(p.expose, known, list) {
                Err(e) => Err(e),
                Ok(extra) => Ok(
                    leading_args(list, "jinja"@) + leading_args(list, "no-jinja"@) + flags + extra,
                ),
            },
        },
    }
}

/// The views of the flags that are known.
pub open spec fn known_views(known: Option<&Vec<String>>) -> Option<Seq<Seq<char>>> {
    match known {
        Some(flags) => Some(text::views(flags@)),
        None => None,
    }
}

/// Whether a list of texts holds one.
pub fn holds_text(list: &Vec<String>, item: &str) -> (yes: bool)
    ensures
        yes == text::views(list@).contains(item@),
{
    let mut i: usize = 0;
    while i < list.len()
        invariant
            i <= list@.len(),
            forall|j: int| 0 <= j < i ==> text::views(list@)[j] != item@,
        decreases list@.len() - i,
    {
        if text::same(list[i].as_str(), item) {
            proof {
                assert(text::views(list@)[i as int] == item@);
            }
            return true;
        }
        i += 1;
    }
    false
}

fn knows(known: Option<&Vec<String>>, flag: &str) -> (yes: bool)
    ensures
        yes == is_known(known_views(known), flag@),
{
    match known {
        Some(flags) => holds_text(flags, flag),
        None => true,
    }
}

pub fn display(value: &JsonValue) -> (out: String)
    ensures
        out@ == displayed(value@),
{
    match value.as_str() {
        Some(s) => s.to_owned(),
        None => value.to_text(),
    }
}

/// Pushing a text onto a list pushes its view.
pub proof fn lemma_views_push(list: Seq<String>, item: String)
    ensures
        text::views(list.push(item)) == text::views(list).push(item@),
{
    assert(text::views(list.push(item)) =~= text::views(list).push(item@));
}

/// Appends the arguments for one flag.
fn append_flag(out: &mut Vec<String>, key: &str, value: &JsonValue)
    ensures
        text::views(final(out)@) == text::views(old(out)@) + flag_args(key@, value@),
{
    let ghost start = text::views(out@);
    let flag: String = String::from_str("--").concat(key);
    match value {
        JsonValue::Null => {
            proof {
                assert(start + Seq::<Seq<char>>::empty() =~= start);
            }
        },
        JsonValue::Bool(b) => {
            if *b {
                out.push(flag);
                proof {
                    lemma_views_push(old(out)@, flag);
                    assert(start.push(flag@) =~= start + seq![flag@]);
                }
            } else {
                proof {
                    assert(start + Seq::<Seq<char>>::empty() =~= start);
                }
            }
        },
        JsonValue::Array(items) => {
            let ghost list = json::json_of(*value)->Array_0;
            let mut i: usize = 0;
            proof {
                assert(start + Seq::<Seq<char>>::empty() =~= start);
            }
            while i < items.len()
                invariant
                    i <= items@.len(),
                    flag@ == "--"@ + key@,
                    *value == JsonValue::Array(*items),
                    list == json::json_of(*value)->Array_0,
                    text::views(out@) == start + repeated_flag(key@, list, i as nat),
                decreases items@.len() - i,
            {
                let ghost before = out@;
                let item: String = display(&items[i]);
                proof {
                    assert(list[i as int] == json::json_of(items@[i as int]));
                }
                out.push(flag.clone());
                proof {
                    lemma_views_push(before, flag);
                }
                let ghost middle = out@;
                out.push(item);
                proof {
                    lemma_views_push(middle, item);
                    assert(text::views(out@) =~= start + repeated_flag(
                        key@,
                        list,
                        (i + 1) as nat,
                    ));
                }
                i += 1;
            }
        },
        _ => {
            let item: String = display(value);
            out.push(flag);
            proof {
                lemma_views_push(old(out)@, flag);
            }
            let ghost middle = out@;
            out.push(item);
            proof {
                lemma_views_push(middle, item);
                assert(text::views(out@) =~= start + seq![flag@, item@]);
            }
        },
    }
}

/// The key of a flag without the hyphens in front.
fn bare(key: &str) -> (out: String)
    ensures
        out@ == bare_flag(key@),
{
    let chars: Vec<char> = text::chars_of(key);
    let mut i: usize = 0;
    while i < chars.len() && chars[i] == '-'
        invariant
            i <= chars@.len(),
            forall|j: int| 0 <= j < i ==> chars@[j] == '-',
        decreases chars@.len() - i,
    {
        i += 1;
    }
    proof {
        text::lemma_run_unique(key@, |c: char| c == '-', i as int);
    }
    text::part_text(chars.as_slice(), i, chars.len())
}

/// Once one member fails, so does the whole profile.
proof fn lemma_member_args_fail(
    expose: Seq<Seq<char>>,
    known: Option<Seq<Seq<char>>>,
    list: Members,
    n: nat,
    more: nat,
)
    requires
        n <= more,
        member_args(expose, known, list, n) is Err,
    ensures
        member_args(expose, known, list, more) == member_args(expose, known, list, n),
    decreases more,
{
    if n < more {
        lemma_member_args_fail(expose, known, list, n, (more - 1) as nat);
    }
}

/// The texts among the items of an array.
pub fn texts(items: &Vec<JsonValue>) -> (out: Vec<String>)
    ensures
        text::views(out@) == texts_in(json::json_of(JsonValue::Array(*items))->Array_0, items@.len()),
{
    let ghost list = json::json_of(JsonValue::Array(*items))->Array_0;
    let mut out: Vec<String> = Vec::new();
    let mut i: usize = 0;
    proof {
        assert(text::views(out@) =~= seq![]);
    }
    while i < items.len()
        invariant
            i <= items@.len(),
            list == json::json_of(JsonValue::Array(*items))->Array_0,
            text::views(out@) == texts_in(list, i as nat),
        decreases items@.len() - i,
    {
        proof {
            assert(list[i as int] == json::json_of(items@[i as int]));
        }
        match items[i].as_str() {
            Some(s) => {
                let ghost before = out@;
                let item: String = s.to_owned();
                out.push(item);
                proof {
                    lemma_views_push(before, item);
                }
            },
            None => {},
        }
        i += 1;
    }
    out
}

impl Profiles {
    /// Whether a flag may stand in a profile.
    pub fn is_exposed(&self, flag: &str) -> (yes: bool)
        ensures
            yes == exposed(self@.expose, flag@),
    {
        let mut i: usize = 0;
        while i < self.expose.len()
            invariant
                i <= self.expose@.len(),
                forall|j: int| 0 <= j < i ==> !admits(#[trigger] self@.expose[j], flag@),
            decreases self.expose@.len() - i,
        {
            let pattern: &str = self.expose[i].as_str();
            let chars: Vec<char> = text::chars_of(pattern);
            let n: usize = chars.len();
            let fits: bool = if n > 0 && chars[n - 1] == '*' {
                let prefix: String = text::part_text(chars.as_slice(), 0, n - 1);
                proof {
                    assert(prefix@ =~= pattern@.drop_last());
                }
                text::starts_with(flag, prefix.as_str())
            } else {
                false
            };
            proof {
                assert(self@.expose[i as int] == pattern@);
            }
            if text::same(pattern, "*") || text::same(pattern, flag) || fits {
                return true;
            }
            i += 1;
        }
        false
    }

    /// Why a token of the extra arguments may not be handed on.
    fn check_token(&self, token: &str, known: Option<&Vec<String>>) -> (out: Option<ProfileError>)
        ensures
            match (out, token_error(self@.expose, known_views(known), token@)) {
                (Some(e), Some(f)) => e@ == f,
                (None, None) => true,
                _ => false,
            },
    {
        if !text::starts_with(token, "--") {
            return None;
        }
        let chars: Vec<char> = text::chars_of(token);
        proof {
            reveal_strlit("--");
        }
        let end: usize = text::find(chars.as_slice(), 2, '=');
        let flag: String = text::part_text(chars.as_slice(), 2, end);
        proof {
            let rest = token@.skip(2);
            assert(flag@ =~= rest.take(text::find_of(rest, '=') as int));
        }
        if reserved(flag.as_str()) {
            Some(ProfileError::Managed(flag))
        } else if !self.is_exposed(flag.as_str()) {
            Some(ProfileError::NotExposed(flag))
        } else if !knows(known, flag.as_str()) {
            Some(ProfileError::UnknownFlag(flag))
        } else {
            None
        }
    }

    /// The server arguments that a profile stands for.
    pub fn args(&self, name: &str) -> (out: Result<Vec<String>, ProfileError>)
        ensures
            match (out, profile_args(self@, name@, None)) {
                (Ok(args), Ok(v)) => text::views(args@) == v,
                (Err(e), Err(f)) => e@ == f,
                _ => false,
            },
    {
        self.args_checked(name, None)
    }

    /// The server arguments that a profile stands for, for a server that knows
    /// the flags `known`.
    pub fn args_checked(&self, name: &str, known: Option<&Vec<String>>) -> (out: Result<
        Vec<String>,
        ProfileError,
    >)
        ensures
            match (out, profile_args(self@, name@, known_views(known))) {
                (Ok(args), Ok(v)) => text::views(args@) == v,
                (Err(e), Err(f)) => e@ == f,
                _ => false,
            },
    {
        let ghost expose = self@.expose;
        let ghost flags = known_views(known);
        proof {
            table::lemma_mapped_lookup(self.profiles@, to_members(), name@);
        }
        let profile: &Table<JsonValue> = match self.profiles.get(name) {
            Some(profile) => profile,
            None => return Err(ProfileError::Unknown),
        };
        let ghost list = json::members(*profile);
        proof {
            json::lemma_members(*profile);
            table::lemma_mapped_lookup(profile@, json::to_json(), "jinja"@);
            table::lemma_mapped_lookup(profile@, json::to_json(), "no-jinja"@);
            table::lemma_mapped_lookup(profile@, json::to_json(), "_extra_args"@);
        }
        let mut args: Vec<String> = Vec::new();
        proof {
            assert(text::views(args@) =~= seq![]);
        }
        match profile.get("jinja") {
            Some(value) => append_flag(&mut args, "jinja", value),
            None => {},
        }
        proof {
            assert(text::views(args@) =~= leading_args(list, "jinja"@));
        }
        match profile.get("no-jinja") {
            Some(value) => append_flag(&mut args, "no-jinja", value),
            None => {},
        }
        let ghost head = leading_args(list, "jinja"@) + leading_args(list, "no-jinja"@);
        let mut i: usize = 0;
        proof {
            assert(text::views(args@) =~= head);
            assert(head + Seq::<Seq<char>>::empty() =~= head);
        }
        while i < profile.len()
            invariant
                i <= profile@.len(),
                expose == self@.expose,
                flags == known_views(known),
                list == json::members(*profile),
                list == table::mapped(profile@, json::to_json()),
                member_args(expose, flags, list, i as nat) is Ok,
                text::views(args@) == head + member_args(expose, flags, list, i as nat)->Ok_0,
                member_args(expose, flags, list, list.len()) is Err ==> profile_args(
                    self@,
                    name@,
                    flags,
                ) == Err::<Seq<Seq<char>>, ProfileErrorView>(
                    member_args(expose, flags, list, list.len())->Err_0,
                ),
            decreases profile@.len() - i,
        {
            let key: &str = profile.key_at(i);
            let value: &JsonValue = profile.value_at(i);
            proof {
                assert(list[i as int] == (key@, value@));
            }
            let leading: Vec<char> = text::chars_of(key);
            if !(leading.len() > 0 && leading[0] == '_') && !text::same(key, "jinja")
                && !text::same(key, "no-jinja") {
                let flag: String = bare(key);
                if reserved(flag.as_str()) {
                    proof {
                        lemma_member_args_fail(expose, flags, list, (i + 1) as nat, list.len());
                    }
                    return Err(ProfileError::Managed(flag));
                }
                if !self.is_exposed(flag.as_str()) {
                    proof {
                        lemma_member_args_fail(expose, flags, list, (i + 1) as nat, list.len());
                    }
                    return Err(ProfileError::NotExposed(flag));
                }
                if knows(known, flag.as_str()) {
                    let ghost before = text::views(args@);
                    append_flag(&mut args, flag.as_str(), value);
                    proof {
                        assert(text::views(args@) =~= head + member_args(
                            expose,
                            flags,
                            list,
                            (i + 1) as nat,
                        )->Ok_0);
                    }
                }
            }
            i += 1;
        }
        let ghost body = text::views(args@);
        proof {
            assert(list.len() == profile@.len());
            assert(body + Seq::<Seq<char>>::empty() =~= body);
        }
        match profile.get("_extra_args") {
            Some(JsonValue::Array(items)) => {
                let mut tokens: Vec<String> = texts(items);
                let ghost all = text::views(tokens@);
                let mut k: usize = 0;
                while k < tokens.len()
                    invariant
                        k <= tokens@.len(),
                        expose == self@.expose,
                        flags == known_views(known),
                        all == text::views(tokens@),
                        forall|j: int| 0 <= j < k ==> fine_token(expose, flags)(#[trigger] all[j]),
                        forall|at: int|
                            text::run(all, fine_token(expose, flags)) == at && at < all.len()
                                ==> profile_args(self@, name@, flags) == Err::<
                                Seq<Seq<char>>,
                                ProfileErrorView,
                            >(token_error(expose, flags, #[trigger] all[at])->0),
                    decreases tokens@.len() - k,
                {
                    proof {
                        assert(all[k as int] == tokens@[k as int]@);
                    }
                    match self.check_token(tokens[k].as_str(), known) {
                        Some(e) => {
                            proof {
                                text::lemma_run_unique(all, fine_token(expose, flags), k as int);
                            }
                            return Err(e);
                        },
                        None => {},
                    }
                    k += 1;
                }
                proof {
                    text::lemma_run_unique(all, fine_token(expose, flags), k as int);
                }
                let ghost before = args@;
                args.append(&mut tokens);
                proof {
                    assert(text::views(args@) =~= body + all);
                }
            },
            _ => {},
        }
        Ok(args)
    }
}

/// What is left of `value` after the first `n` parts of a pattern were found in
/// it one after another, the first of them at its start; `None` where one was
/// not found.
pub open spec fn glob_rest(parts: Seq<Seq<char>>, n: nat, value: Seq<char>) -> Option<Seq<char>>
    decreases n,
{
    if n == 0 {
        Some(value)
    } else {
        match glob_rest(parts, (n - 1) as nat, value) {
            None => None,
            Some(rest) => {
                let part = parts[n - 1];
                let at = text::find_piece_of(rest, part, 0);
                if part.len() == 0 {
                    Some(rest)
                } else if n == 1 && !part.is_prefix_of(rest) {
                    None
                } else if at >= rest.len() {
                    None
                } else {
                    Some(rest.skip(at + part.len()))
                }
            },
        }
    }
}

/// Whether a value fits a pattern, in which a star stands for any text. Each
/// part of the pattern takes the first place where it occurs.
pub open spec fn fits_glob(pattern: Seq<char>, value: Seq<char>) -> bool {
    let parts = text::split_of(pattern, '*');
    if pattern == "*"@ {
        true
    } else if parts.len() == 1 {
        pattern == value
    } else {
        match glob_rest(parts, parts.len(), value) {
            None => false,
            Some(rest) => pattern.last() == '*' || rest.len() == 0,
        }
    }
}

proof fn lemma_glob_fails(parts: Seq<Seq<char>>, n: nat, more: nat, value: Seq<char>)
    requires
        n <= more,
        glob_rest(parts, n, value) is None,
    ensures
        glob_rest(parts, more, value) is None,
    decreases more,
{
    if n < more {
        lemma_glob_fails(parts, n, (more - 1) as nat, value);
    }
}

pub fn glob_matches(pattern: &str, value: &str) -> (yes: bool)
    ensures
        yes == fits_glob(pattern@, value@),
{
    if text::same(pattern, "*") {
        return true;
    }
    let parts: Vec<String> = text::split(pattern, '*');
    let ghost all = text::views(parts@);
    proof {
        assert(all.len() == parts@.len());
    }
    if parts.len() == 1 {
        return text::same(pattern, value);
    }
    let mut rest: String = value.to_owned();
    let mut i: usize = 0;
    while i < parts.len()
        invariant
            i <= parts@.len(),
            all == text::views(parts@),
            all == text::split_of(pattern@, '*'),
            pattern@ != "*"@,
            all.len() != 1,
            glob_rest(all, i as nat, value@) == Some(rest@),
        decreases parts@.len() - i,
    {
        proof {
            assert(all[i as int] == parts@[i as int]@);
        }
        if !parts[i].as_str().is_empty() {
            let chars: Vec<char> = text::chars_of(rest.as_str());
            let part: Vec<char> = text::chars_of(parts[i].as_str());
            let at: usize = text::find_piece(chars.as_slice(), part.as_slice(), 0);
            if (i == 0 && !text::starts_with(rest.as_str(), parts[i].as_str())) || at
                >= chars.len() {
                proof {
                    lemma_glob_fails(all, (i + 1) as nat, all.len(), value@);
                }
                return false;
            }
            let end: usize = at + part.len();
            rest = text::part_text(chars.as_slice(), end, chars.len());
            proof {
                assert(rest@ =~= chars@.skip(at + part@.len()));
            }
        }
        i += 1;
    }
    let chars: Vec<char> = text::chars_of(pattern);
    let n: usize = chars.len();
    proof {
        if n == 0 {
            assert(text::split_of(pattern@, '*') =~= seq![pattern@]);
        }
    }
    (n > 0 && chars[n - 1] == '*') || rest.as_str().is_empty()
}

/// The model that a profile belongs to.
pub open spec fn owner_of(p: ProfilesView, name: Seq<char>) -> Option<Seq<char>> {
    match table::lookup(p.profiles, name) {
        Some(list) => match table::lookup(list, "_model"@) {
            Some(value) => json::text_in(value),
            None => None,
        },
        None => None,
    }
}

/// The runtime that a profile asks for.
pub open spec fn runtime_of(p: ProfilesView, name: Seq<char>) -> Option<Seq<char>> {
    match table::lookup(p.profiles, name) {
        Some(list) => match table::lookup(list, "_runtime"@) {
            Some(Json::Text(s)) => if s.len() == 0 {
                None
            } else {
                Some(s)
            },
            _ => None,
        },
        None => None,
    }
}

/// The first pattern of a model binding that does not fit.
pub open spec fn misses(
    model: Seq<char>,
    relative: Seq<char>) -> spec_fn((Seq<char>,
    Json),
) -> bool {
    |e: (Seq<char>, Json)| !fits_glob(e.0, model) && !fits_glob(e.0, relative)
}

/// The profile that a binding names, and what it changes in it.
pub open spec fn bound_by(pattern: Seq<char>, binding: Json) -> Result<
    (Seq<char>, Members),
    ProfileErrorView,
> {
    match binding {
        Json::Text(s) => Ok((s, seq![])),
        Json::Object(list) => match table::lookup(list, "profile"@) {
            Some(Json::Text(s)) => Ok((s, table::without(list, "profile"@))),
            _ => Err(ProfileErrorView::BindingLacksProfile),
        },
        _ => Err(ProfileErrorView::BindingKind(pattern)),
    }
}

/// The profile that a model uses: that of the first binding whose pattern fits
/// its name or its place, which must belong to the model.
pub open spec fn binding_of(p: ProfilesView, model: Seq<char>, relative: Seq<char>) -> Result<
    Option<(Seq<char>, Members)>,
    ProfileErrorView,
> {
    let at = text::run(p.models, misses(model, relative)) as int;
    if at >= p.models.len() {
        Ok(None)
    } else {
        match bound_by(p.models[at].0, p.models[at].1) {
            Err(e) => Err(e),
            Ok((name, overrides)) => match owner_of(p, name) {
                None => Err(ProfileErrorView::NoOwner(name)),
                Some(owner) => if owner != model {
                    Err(ProfileErrorView::OwnedBy(name, owner))
                } else {
                    Ok(Some((name, overrides)))
                },
            },
        }
    }
}

impl Profiles {
    pub fn owner(&self, name: &str) -> (out: Option<&str>)
        ensures
            match (out, owner_of(self@, name@)) {
                (Some(s), Some(t)) => s@ == t,
                (None, None) => true,
                _ => false,
            },
    {
        proof {
            table::lemma_mapped_lookup(self.profiles@, to_members(), name@);
        }
        match self.profiles.get(name) {
            Some(profile) => {
                proof {
                    json::lemma_members(*profile);
                    table::lemma_mapped_lookup(profile@, json::to_json(), "_model"@);
                }
                match profile.get("_model") {
                    Some(value) => value.as_str(),
                    None => None,
                }
            },
            None => None,
        }
    }

    pub fn runtime(&self, name: &str) -> (out: Option<&str>)
        ensures
            match (out, runtime_of(self@, name@)) {
                (Some(s), Some(t)) => s@ == t,
                (None, None) => true,
                _ => false,
            },
    {
        proof {
            table::lemma_mapped_lookup(self.profiles@, to_members(), name@);
        }
        match self.profiles.get(name) {
            Some(profile) => {
                proof {
                    json::lemma_members(*profile);
                    table::lemma_mapped_lookup(profile@, json::to_json(), "_runtime"@);
                }
                match profile.get("_runtime") {
                    Some(value) => match value.as_str() {
                        Some(s) => if s.is_empty() {
                            None
                        } else {
                            Some(s)
                        },
                        None => None,
                    },
                    None => None,
                }
            },
            None => None,
        }
    }

    /// The profile that a model uses, and what its binding changes in it.
    pub fn binding(&self, model: &str, relative: &str) -> (out: Result<
        Option<(String, Table<JsonValue>)>,
        ProfileError,
    >)
        ensures
            match (out, binding_of(self@, model@, relative@)) {
                (Ok(Some((name, overrides))), Ok(Some((n, o)))) => name@ == n && json::members(
                    overrides,
                ) == o,
                (Ok(None), Ok(None)) => true,
                (Err(e), Err(f)) => e@ == f,
                _ => false,
            },
    {
        let ghost list = self@.models;
        let ghost p = misses(model@, relative@);
        let mut i: usize = 0;
        while i < self.models.len()
            invariant
                i <= self.models@.len(),
                list == self@.models,
                list.len() == self.models@.len(),
                p == misses(model@, relative@),
                forall|j: int| 0 <= j < i ==> p(#[trigger] list[j]),
            decreases self.models@.len() - i,
        {
            let pattern: &str = self.models.key_at(i);
            let binding: &JsonValue = self.models.value_at(i);
            proof {
                assert(list[i as int] == (pattern@, binding@));
            }
            if glob_matches(pattern, model) || glob_matches(pattern, relative) {
                proof {
                    text::lemma_run_unique(list, p, i as int);
                }
                let (name, overrides): (String, Table<JsonValue>) = match binding {
                    JsonValue::String(s) => {
                        let none: Table<JsonValue> = Table::new();
                        proof {
                            json::lemma_members(none);
                            assert(json::members(none) =~= seq![]);
                        }
                        (s.clone(), none)
                    },
                    JsonValue::Object(object) => {
                        proof {
                            json::lemma_members(*object);
                            table::lemma_mapped_lookup(object@, json::to_json(), "profile"@);
                        }
                        match object.get("profile") {
                            Some(JsonValue::String(s)) => {
                                let mut rest: Table<JsonValue> = json::copy_table(object);
                                proof {
                                    json::lemma_members(rest);
                                    table::lemma_mapped_lookup(
                                        rest@,
                                        json::to_json(),
                                        "profile"@,
                                    );
                                }
                                let _ = rest.remove("profile");
                                proof {
                                    json::lemma_members(rest);
                                }
                                (s.clone(), rest)
                            },
                            _ => return Err(ProfileError::BindingLacksProfile),
                        }
                    },
                    _ => return Err(ProfileError::BindingKind(pattern.to_owned())),
                };
                return match self.owner(name.as_str()) {
                    None => Err(ProfileError::NoOwner(name)),
                    Some(owner) => if !text::same(owner, model) {
                        Err(ProfileError::OwnedBy(name, owner.to_owned()))
                    } else {
                        Ok(Some((name, overrides)))
                    },
                };
            }
            i += 1;
        }
        proof {
            text::lemma_run_unique(list, p, i as int);
        }
        Ok(None)
    }
}

/// The assignments in the first `n` lines; blank lines are passed over.
pub open spec fn assignments(lines: Seq<Seq<char>>, n: nat) -> Result<Members, ProfileErrorView>
    decreases n,
{
    if n == 0 {
        Ok(seq![])
    } else {
        match assignments(lines, (n - 1) as nat) {
            Err(e) => Err(e),
            Ok(list) => {
                let line = lines[n - 1];
                if text::trim_of(line).len() == 0 {
                    Ok(list)
                } else {
                    match text::split_once_of(line, '=') {
                        None => Err(ProfileErrorView::EnvironmentEntry(line)),
                        Some((key, value)) => Ok(
                            table::put(list, text::trim_of(key), Json::Text(value)),
                        ),
                    }
                }
            },
        }
    }
}

/// The variables that an environment value holds: an object, the text of one,
/// or lines of assignments.
pub open spec fn environment_members(value: Json) -> Result<Members, ProfileErrorView> {
    match value {
        Json::Object(list) => Ok(list),
        Json::Text(s) => {
            let start = text::trim_start_of(s);
            if start.len() > 0 && start[0] == '{' {
                match json::parsed(s) {
                    Some(Json::Object(list)) => Ok(list),
                    _ => Err(ProfileErrorView::EnvironmentJson),
                }
            } else {
                assignments(text::lines_of(s), text::lines_of(s).len())
            }
        },
        _ => Err(ProfileErrorView::EnvironmentKind),
    }
}

/// A name of letters, digits and underscores that does not start with a digit.
pub open spec fn is_variable(s: Seq<char>) -> bool {
    &&& s.len() > 0
    &&& !('0' <= s[0] <= '9')
    &&& forall|i: int| 0 <= i < s.len() ==> #[trigger] s[i] == '_' || is_alphanumeric(s[i])
}

/// The first `n` variables as names and values.
pub open spec fn variables(list: Members, n: nat) -> Result<
    Seq<(Seq<char>, Seq<char>)>,
    ProfileErrorView,
>
    decreases n,
{
    if n == 0 {
        Ok(seq![])
    } else {
        match variables(list, (n - 1) as nat) {
            Err(e) => Err(e),
            Ok(all) => {
                let key = list[n - 1].0;
                let value = displayed(list[n - 1].1);
                if !is_variable(key) {
                    Err(ProfileErrorView::EnvironmentName(key))
                } else if value.contains('\0') {
                    Err(ProfileErrorView::EnvironmentNul(key))
                } else {
                    Ok(all.push((key, value)))
                }
            },
        }
    }
}

/// The environment that a profile asks for.
pub open spec fn environment_of(p: ProfilesView, name: Seq<char>) -> Result<
    Seq<(Seq<char>, Seq<char>)>,
    ProfileErrorView,
> {
    match table::lookup(p.profiles, name) {
        None => Ok(seq![]),
        Some(profile) => match table::lookup(profile, "_env"@) {
            None => Ok(seq![]),
            Some(value) => match environment_members(value) {
                Err(e) => Err(e),
                Ok(list) => variables(list, list.len()),
            },
        },
    }
}

/// The views of pairs of texts.
pub open spec fn pair_views(pairs: Seq<(String, String)>) -> Seq<(Seq<char>, Seq<char>)> {
    pairs.map_values(|p: (String, String)| (p.0@, p.1@))
}

proof fn lemma_assignments_fail(lines: Seq<Seq<char>>, n: nat, more: nat)
    requires
        n <= more,
        assignments(lines, n) is Err,
    ensures
        assignments(lines, more) == assignments(lines, n),
    decreases more,
{
    if n < more {
        lemma_assignments_fail(lines, n, (more - 1) as nat);
    }
}

proof fn lemma_variables_fail(list: Members, n: nat, more: nat)
    requires
        n <= more,
        variables(list, n) is Err,
    ensures
        variables(list, more) == variables(list, n),
    decreases more,
{
    if n < more {
        lemma_variables_fail(list, n, (more - 1) as nat);
    }
}

fn read_assignments(s: &str) -> (out: Result<Table<JsonValue>, ProfileError>)
    ensures
        match (out, assignments(text::lines_of(s@), text::lines_of(s@).len())) {
            (Ok(t), Ok(list)) => json::members(t) == list,
            (Err(e), Err(f)) => e@ == f,
            _ => false,
        },
{
    let lines: Vec<String> = text::lines(s);
    let ghost all = text::views(lines@);
    let mut out: Table<JsonValue> = Table::new();
    let mut i: usize = 0;
    proof {
        json::lemma_members(out);
        assert(json::members(out) =~= seq![]);
        assert(all.len() == lines@.len());
    }
    while i < lines.len()
        invariant
            i <= lines@.len(),
            all == text::views(lines@),
            all == text::lines_of(s@),
            assignments(all, i as nat) == Ok::<Members, ProfileErrorView>(json::members(out)),
        decreases lines@.len() - i,
    {
        let line: &str = lines[i].as_str();
        proof {
            assert(all[i as int] == line@);
        }
        if !text::trim(line).as_str().is_empty() {
            match text::split_once(line, '=') {
                None => {
                    proof {
                        lemma_assignments_fail(all, (i + 1) as nat, all.len());
                    }
                    return Err(ProfileError::EnvironmentEntry(line.to_owned()));
                },
                Some((key, value)) => {
                    let name: String = text::trim(key.as_str());
                    let item: JsonValue = JsonValue::String(value);
                    proof {
                        json::lemma_members(out);
                        table::lemma_mapped_put(out@, json::to_json(), name@, item);
                    }
                    out.insert(name, item);
                    proof {
                        json::lemma_members(out);
                    }
                },
            }
        }
        i += 1;
    }
    Ok(out)
}

fn variable(name: &str) -> (yes: bool)
    ensures
        yes == is_variable(name@),
{
    let chars: Vec<char> = text::chars_of(name);
    if chars.len() == 0 || ('0' <= chars[0] && chars[0] <= '9') {
        return false;
    }
    let mut i: usize = 0;
    while i < chars.len()
        invariant
            i <= chars@.len(),
            chars@ == name@,
            forall|j: int| 0 <= j < i ==> #[trigger] name@[j] == '_' || is_alphanumeric(name@[j]),
        decreases chars@.len() - i,
    {
        if chars[i] != '_' && !alphanumeric(chars[i]) {
            proof {
                assert(name@[i as int] == chars@[i as int]);
            }
            return false;
        }
        i += 1;
    }
    true
}

/// Whether a text holds a character.
pub fn has_char(s: &str, c: char) -> (yes: bool)
    ensures
        yes == s@.contains(c),
{
    let chars: Vec<char> = text::chars_of(s);
    let at: usize = text::find(chars.as_slice(), 0, c);
    proof {
        if at < chars@.len() {
            assert(s@[at as int] == c);
        }
    }
    at < chars.len()
}

fn read_variables(table: &Table<JsonValue>) -> (out: Result<Vec<(String, String)>, ProfileError>)
    ensures
        match (out, variables(json::members(*table), json::members(*table).len())) {
            (Ok(pairs), Ok(v)) => pair_views(pairs@) == v,
            (Err(e), Err(f)) => e@ == f,
            _ => false,
        },
{
    let ghost list = json::members(*table);
    let mut out: Vec<(String, String)> = Vec::new();
    let mut i: usize = 0;
    proof {
        json::lemma_members(*table);
        assert(pair_views(out@) =~= seq![]);
        assert(list.len() == table@.len());
    }
    while i < table.len()
        invariant
            i <= table@.len(),
            list == json::members(*table),
            list == crate::table::mapped(table@, json::to_json()),
            list.len() == table@.len(),
            variables(list, i as nat) == Ok::<Seq<(Seq<char>, Seq<char>)>, ProfileErrorView>(
                pair_views(out@),
            ),
        decreases table@.len() - i,
    {
        let key: &str = table.key_at(i);
        let value: String = display(table.value_at(i));
        proof {
            assert(list[i as int].0 == key@);
            assert(displayed(list[i as int].1) == value@);
        }
        if !variable(key) {
            proof {
                lemma_variables_fail(list, (i + 1) as nat, list.len());
            }
            return Err(ProfileError::EnvironmentName(key.to_owned()));
        }
        if has_char(value.as_str(), '\0') {
            proof {
                lemma_variables_fail(list, (i + 1) as nat, list.len());
            }
            return Err(ProfileError::EnvironmentNul(key.to_owned()));
        }
        let ghost before = out@;
        let name: String = key.to_owned();
        out.push((name, value));
        proof {
            assert(pair_views(out@) =~= pair_views(before).push((key@, value@)));
        }
        i += 1;
    }
    Ok(out)
}

impl Profiles {
    /// The environment that a profile asks for.
    pub fn environment(&self, name: &str) -> (out: Result<Vec<(String, String)>, ProfileError>)
        ensures
            match (out, environment_of(self@, name@)) {
                (Ok(pairs), Ok(v)) => pair_views(pairs@) == v,
                (Err(e), Err(f)) => e@ == f,
                _ => false,
            },
    {
        proof {
            table::lemma_mapped_lookup(self.profiles@, to_members(), name@);
            assert(pair_views(seq![]) =~= seq![]);
        }
        let profile: &Table<JsonValue> = match self.profiles.get(name) {
            Some(profile) => profile,
            None => return Ok(Vec::new()),
        };
        proof {
            json::lemma_members(*profile);
            table::lemma_mapped_lookup(profile@, json::to_json(), "_env"@);
        }
        match profile.get("_env") {
            None => Ok(Vec::new()),
            Some(JsonValue::Object(object)) => read_variables(object),
            Some(JsonValue::String(s)) => {
                let start: Vec<char> = text::chars_of(text::trim_start(s.as_str()).as_str());
                if start.len() > 0 && start[0] == '{' {
                    match json::parse(s.as_str()) {
                        Some(JsonValue::Object(object)) => read_variables(&object),
                        _ => Err(ProfileError::EnvironmentJson),
                    }
                } else {
                    match read_assignments(s.as_str()) {
                        Ok(object) => read_variables(&object),
                        Err(e) => Err(e),
                    }
                }
            },
            Some(_) => Err(ProfileError::EnvironmentKind),
        }
    }
}

impl Default for Profiles {
    /// No profiles; every flag may be used.
    fn default() -> (out: Profiles)
        ensures
            out@ == (ProfilesView { expose: seq!["*"@], profiles: seq![], models: seq![] }),
    {
        let mut expose: Vec<String> = Vec::new();
        expose.push("*".to_owned());
        let out: Profiles = Profiles { expose, profiles: Table::new(), models: Table::new() };
        proof {
            assert(out@.expose =~= seq!["*"@]);
            assert(out@.profiles =~= seq![]);
            assert(out@.models =~= seq![]);
        }
        out
    }
}

/// A renamed profile is found under its new name with what it held, and under
/// its old name no more; the other profiles stay what they were.
pub proof fn rename_moves_a_profile(
    p: ProfilesView,
    source: Seq<char>,
    target: Seq<char>,
    other: Seq<char>,
)
    requires
        table::ordered(p.profiles),
        renamed_profile(p, source, target) is Ok,
        other != source,
        other != target,
    ensures
        ({
            let q = renamed_profile(p, source, target)->Ok_0;
            &&& table::lookup(q.profiles, target) == table::lookup(p.profiles, source)
            &&& table::lookup(q.profiles, source) is None
            &&& table::lookup(q.profiles, other) == table::lookup(p.profiles, other)
            &&& table::ordered(q.profiles)
        }),
{
    let profile = table::lookup(p.profiles, source)->0;
    let less = table::without(p.profiles, source);
    table::without_keeps_order(p.profiles, source);
    table::without_then_lookup(p.profiles, source, other);
    table::put_then_lookup(less, target, profile, source);
    table::put_then_lookup(less, target, profile, other);
    table::put_keeps_order(less, target, profile);
}

/// After a rename no binding leads to the old name, and what led to it leads to
/// the new one.
pub proof fn rename_rebinds(p: ProfilesView, source: Seq<char>, target: Seq<char>, i: int)
    requires
        renamed_profile(p, source, target) is Ok,
        0 <= i < p.models.len(),
        p.models[i].1 matches Json::Object(list) ==> table::ordered(list),
    ensures
        ({
            let q = renamed_profile(p, source, target)->Ok_0;
            &&& q.models[i].0 == p.models[i].0
            &&& !leads_to(q.models[i].1, source)
            &&& leads_to(p.models[i].1, source) ==> leads_to(q.models[i].1, target)
            &&& !leads_to(p.models[i].1, source) ==> q.models[i].1 == p.models[i].1
        }),
{
    if let Json::Object(list) = p.models[i].1 {
        table::put_then_lookup(list, "profile"@, Json::Text(target), "profile"@);
    }
}

/// After a profile was removed it is found no more, no binding leads to it, and
/// the other profiles stay what they were.
pub proof fn remove_leaves_no_trace(p: ProfilesView, name: Seq<char>, other: Seq<char>)
    requires
        table::ordered(p.profiles),
        removed_profile(p, name) is Ok,
        other != name,
    ensures
        ({
            let q = removed_profile(p, name)->Ok_0;
            &&& table::lookup(q.profiles, name) is None
            &&& table::lookup(q.profiles, other) == table::lookup(p.profiles, other)
            &&& forall|i: int| 0 <= i < q.models.len() ==> !leads_to((#[trigger] q.models[i]).1, name)
        }),
{
    table::without_then_lookup(p.profiles, name, other);
    lemma_unbound(p.models, name);
}

proof fn lemma_unbound(models: Members, name: Seq<char>)
    ensures
        forall|i: int|
            0 <= i < unbound(models, name).len() ==> !leads_to(
                (#[trigger] unbound(models, name)[i]).1,
                name,
            ),
    decreases models.len(),
{
    if models.len() > 0 {
        lemma_unbound(models.drop_last(), name);
        let less = unbound(models.drop_last(), name);
        assert forall|i: int| 0 <= i < unbound(models, name).len() implies !leads_to(
            (#[trigger] unbound(models, name)[i]).1,
            name,
        ) by {
            if i < less.len() {
                assert(unbound(models, name)[i] == less[i]);
            }
        }
    }
}

/// A copied profile holds what its source holds, and the source keeps it.
pub proof fn clone_copies_a_profile(p: ProfilesView, source: Seq<char>, target: Seq<char>)
    requires
        table::ordered(p.profiles),
        cloned_profile(p, source, target) is Ok,
    ensures
        ({
            let q = cloned_profile(p, source, target)->Ok_0;
            &&& table::lookup(q.profiles, target) == table::lookup(p.profiles, source)
            &&& table::lookup(q.profiles, source) == table::lookup(p.profiles, source)
            &&& q.models == p.models
        }),
{
    let profile = table::lookup(p.profiles, source)->0;
    table::put_then_lookup(p.profiles, target, profile, source);
}

/// A pattern without a star fits only itself, and the star alone fits all.
pub proof fn plain_pattern_fits_itself(pattern: Seq<char>, value: Seq<char>)
    ensures
        fits_glob("*"@, value),
        !pattern.contains('*') ==> (fits_glob(pattern, value) <==> pattern == value),
{
    if !pattern.contains('*') {
        assert forall|i: int| 0 <= i < pattern.len() implies text::other_than('*')(
            #[trigger] pattern[i],
        ) by {
            assert(pattern.contains(pattern[i]));
        }
        text::lemma_run_unique(pattern, text::other_than('*'), pattern.len() as int);
        if pattern == "*"@ {
            reveal_strlit("*");
            assert(pattern[0] == '*');
        }
    }
}

/// Whether a value consists of the first `n` parts of a pattern, in their order, with any text
/// between one and the next.
pub open spec fn is_woven(parts: Seq<Seq<char>>, n: nat, value: Seq<char>) -> bool
    decreases n,
{
    if n == 0 {
        true
    } else if n == 1 {
        value == parts[0]
    } else {
        &&& parts[n - 1].is_suffix_of(value)
        &&& exists|k: int|
            0 <= k <= value.len() - parts[n - 1].len() && is_woven(
                parts,
                (n - 1) as nat,
                #[trigger] value.take(k),
            )
    }
}

/// What the parts that were found take up is woven of them.
proof fn lemma_found_is_woven(parts: Seq<Seq<char>>, n: nat, value: Seq<char>)
    requires
        glob_rest(parts, n, value) is Some,
    ensures
        glob_rest(parts, n, value)->Some_0.is_suffix_of(value),
        is_woven(parts, n, value.take(value.len() - glob_rest(parts, n, value)->Some_0.len())),
    decreases n,
{
    let rest = glob_rest(parts, n, value)->Some_0;
    let taken = value.take(value.len() - rest.len());
    if n > 0 {
        lemma_found_is_woven(parts, (n - 1) as nat, value);
        let before = glob_rest(parts, (n - 1) as nat, value)->Some_0;
        let part = parts[n - 1];
        let k = value.len() - before.len();
        assert(before =~= value.skip(k));
        if part.len() > 0 {
            let at = text::find_piece_of(before, part, 0);
            text::lemma_find_piece(before, part, 0);
            assert(rest =~= value.skip(k + at + part.len()));
            if n == 1 {
                assert(before.subrange(0, part.len() as int) =~= part);
                assert(text::at_position(before, part, 0));
                assert(taken =~= part);
            } else {
                assert(before.subrange(at, at + part.len()) =~= taken.skip(k + at));
                assert(taken.skip(taken.len() - part.len()) =~= part);
                assert(taken.take(k) =~= value.take(k));
            }
        } else {
            if n == 1 {
                assert(taken =~= part);
            } else {
                assert(taken.skip(taken.len() as int) =~= part);
                assert(taken.take(k) =~= value.take(k));
            }
        }
    }
}

/// Where the front of a value is woven of some parts, these are found, and no further behind.
proof fn lemma_woven_is_found(parts: Seq<Seq<char>>, n: nat, value: Seq<char>, end: int)
    requires
        n > 0,
        0 <= end <= value.len(),
        is_woven(parts, n, value.take(end)),
    ensures
        glob_rest(parts, n, value) is Some,
        value.len() - glob_rest(parts, n, value)->Some_0.len() <= end,
    decreases n,
{
    let part = parts[n - 1];
    let front = value.take(end);
    if n == 1 {
        assert(glob_rest(parts, 0, value) == Some(value));
        if part.len() > 0 {
            assert(value.subrange(0, part.len() as int) =~= part);
            assert(text::at_position(value, part, 0));
            assert(text::find_piece_of(value, part, 0) == 0);
            assert(part.is_prefix_of(value));
        }
    } else {
        let k = choose|k: int|
            0 <= k <= front.len() - part.len() && is_woven(
                parts,
                (n - 1) as nat,
                #[trigger] front.take(k),
            );
        assert(front.take(k) =~= value.take(k));
        lemma_woven_is_found(parts, (n - 1) as nat, value, k);
        lemma_found_is_woven(parts, (n - 1) as nat, value);
        let before = glob_rest(parts, (n - 1) as nat, value)->Some_0;
        let used = value.len() - before.len();
        assert(before =~= value.skip(used));
        if part.len() > 0 {
            let place = end - part.len() - used;
            assert(before.subrange(place, place + part.len()) =~= front.skip(
                front.len() - part.len(),
            ));
            assert(text::at_position(before, part, place));
            text::lemma_found_first(before, part, 0, place);
            text::lemma_find_piece(before, part, 0);
        }
    }
}

/// A value that fits a pattern consists of what stands between the stars, in that order, with
/// any text for each star. Where the pattern ends in a star, every such value fits.
pub proof fn fitting_values_are_woven(pattern: Seq<char>, value: Seq<char>)
    ensures
        ({
            let parts = text::split_of(pattern, '*');
            &&& fits_glob(pattern, value) ==> is_woven(parts, parts.len(), value)
            &&& pattern.len() > 0 && pattern.last() == '*' && is_woven(parts, parts.len(), value)
                ==> fits_glob(pattern, value)
        }),
{
    let parts = text::split_of(pattern, '*');
    let n = parts.len();
    text::lemma_split_nonempty(pattern, '*');
    text::lemma_split_last(pattern, '*');
    assert(value.take(value.len() as int) =~= value);
    if fits_glob(pattern, value) {
        if n == 1 {
            text::lemma_run(pattern, text::other_than('*'));
        }
        if pattern == "*"@ {
            reveal_strlit("*");
            assert(pattern[0] == '*');
            text::lemma_run_unique(pattern, text::other_than('*'), 0);
            let rest = pattern.skip(1);
            assert(rest =~= seq![]);
            assert(text::split_of(rest, '*') =~= seq![rest]);
            assert(pattern.take(0) =~= seq![]);
            assert(parts.len() == 2);
            assert(value.skip(value.len() as int) =~= parts[1]);
            assert(value.take(0) =~= parts[0]);
            assert(is_woven(parts, 1, value.take(0)));
        } else if n > 1 {
            lemma_found_is_woven(parts, n, value);
            let rest = glob_rest(parts, n, value)->Some_0;
            let taken = value.take(value.len() - rest.len());
            if rest.len() == 0 {
                assert(taken =~= value);
            } else {
                let k = choose|k: int|
                    0 <= k <= taken.len() - parts[n - 1].len() && is_woven(
                        parts,
                        (n - 1) as nat,
                        #[trigger] taken.take(k),
                    );
                assert(taken.take(k) =~= value.take(k));
                assert(value.skip(value.len() as int) =~= parts[n - 1]);
            }
        }
    }
    if pattern.len() > 0 && pattern.last() == '*' && is_woven(parts, n, value) {
        lemma_woven_is_found(parts, n, value, value.len() as int);
    }
}

/// A pattern that ends in its only star fits what starts with the rest of it.
pub proof fn star_at_the_end_fits_prefixes(prefix: Seq<char>, value: Seq<char>)
    requires
        prefix.len() > 0,
        !prefix.contains('*'),
    ensures
        fits_glob(prefix.push('*'), value) <==> prefix.is_prefix_of(value),
{
    let pattern = prefix.push('*');
    assert forall|i: int| 0 <= i < prefix.len() implies text::other_than('*')(
        #[trigger] pattern[i],
    ) by {
        assert(prefix.contains(prefix[i]));
    }
    text::lemma_run_unique(pattern, text::other_than('*'), prefix.len() as int);
    let parts = text::split_of(pattern, '*');
    assert(pattern.take(prefix.len() as int) =~= prefix);
    let rest = pattern.skip(prefix.len() as int + 1);
    assert(rest =~= seq![]);
    assert(text::split_of(rest, '*') =~= seq![rest]);
    assert(parts =~= seq![prefix, rest]);
    reveal_strlit("*");
    assert(pattern.len() == prefix.len() + 1);
    assert(pattern != "*"@);
    reveal_with_fuel(glob_rest, 3);
    if prefix.is_prefix_of(value) {
        assert(value.subrange(0, prefix.len() as int) =~= prefix);
        assert(text::at_position(value, prefix, 0));
        assert(text::find_piece_of(value, prefix, 0) == 0);
    }
}

} // verus!
