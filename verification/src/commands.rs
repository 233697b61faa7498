//! What the commands change and choose: profiles, settings, templates and models.
use vstd::prelude::*;

use crate::benchmark;
use crate::config::{Config, ConfigView};
use crate::huggingface;
use crate::huggingface::{Artifact, ArtifactView};
use crate::json;
use crate::json::{Json, JsonValue, Number};
use crate::metadata;
use crate::models;
use crate::pattern;
use crate::process;
use crate::profiles;
use crate::profiles::{Members, ProfileError, ProfileErrorView, Profiles, ProfilesView};
use crate::table;
use crate::table::Table;
use crate::templates;
use crate::templates::Templates;
use crate::text;

verus! {

/// Puts a value under a key of an object.
pub fn put_member(t: &mut Table<JsonValue>, key: &str, value: JsonValue)
    ensures
        json::members(*final(t)) == table::put(json::members(*old(t)), key@, value@),
{
    proof {
        json::lemma_members(*t);
        table::lemma_mapped_put(t@, json::to_json(), key@, value);
    }
    t.insert(key.to_owned(), value);
    proof {
        json::lemma_members(*t);
    }
}

/// Puts a text under a key of an object.
pub fn put_text(t: &mut Table<JsonValue>, key: &str, value: &str)
    ensures
        json::members(*final(t)) == table::put(json::members(*old(t)), key@, Json::Text(value@)),
{
    put_member(t, key, JsonValue::String(value.to_owned()));
}

/// Takes a key out of an object.
pub fn drop_member(t: &mut Table<JsonValue>, key: &str)
    ensures
        json::members(*final(t)) == table::without(json::members(*old(t)), key@),
{
    proof {
        json::lemma_members(*t);
        table::lemma_mapped_lookup(t@, json::to_json(), key@);
    }
    let _gone: Option<JsonValue> = t.remove(key);
    proof {
        json::lemma_members(*t);
    }
}

/// The member of an object under a key.
pub fn member<'a>(t: &'a Table<JsonValue>, key: &str) -> (out: Option<&'a JsonValue>)
    ensures
        match (out, table::lookup(json::members(*t), key@)) {
            (Some(v), Some(w)) => v@ == w,
            (None, None) => true,
            _ => false,
        },
{
    proof {
        json::lemma_members(*t);
        table::lemma_mapped_lookup(t@, json::to_json(), key@);
    }
    t.get(key)
}

/// A copy of a profile.
pub fn profile_copy(p: &Profiles, name: &str) -> (out: Option<Table<JsonValue>>)
    ensures
        match (out, table::lookup(p@.profiles, name@)) {
            (Some(t), Some(list)) => json::members(t) == list,
            (None, None) => true,
            _ => false,
        },
{
    proof {
        table::lemma_mapped_lookup(p.profiles@, profiles::to_members(), name@);
    }
    match p.profiles.get(name) {
        Some(t) => Some(json::copy_table(t)),
        None => None,
    }
}

/// Puts a profile under a name.
pub fn put_profile(p: &mut Profiles, name: &str, t: Table<JsonValue>)
    ensures
        final(p)@ == (ProfilesView {
            profiles: table::put(old(p)@.profiles, name@, json::members(t)),
            ..old(p)@
        }),
{
    proof {
        table::lemma_mapped_put(p.profiles@, profiles::to_members(), name@, t);
    }
    p.profiles.insert(name.to_owned(), t);
}

/// Lets a model use a profile.
pub fn put_binding(p: &mut Profiles, model: &str, name: &str)
    ensures
        final(p)@ == (ProfilesView {
            models: table::put(old(p)@.models, model@, Json::Text(name@)),
            ..old(p)@
        }),
{
    let value: JsonValue = JsonValue::String(name.to_owned());
    proof {
        table::lemma_mapped_put(p.models@, json::to_json(), model@, value);
    }
    p.models.insert(model.to_owned(), value);
}

/// Takes the binding of a model away.
pub fn drop_binding(p: &mut Profiles, model: &str)
    ensures
        final(p)@ == (ProfilesView { models: table::without(old(p)@.models, model@), ..old(p)@ }),
{
    proof {
        table::lemma_mapped_lookup(p.models@, json::to_json(), model@);
    }
    let _gone: Option<JsonValue> = p.models.remove(model);
}

/// Whether a profile lets a model draft for itself, with no other draft.
pub open spec fn drafts_itself(list: Members) -> bool {
    table::lookup(list, "spec-type"@) == Some(Json::Text("draft-mtp"@)) && table::lookup(
        list,
        "spec-draft-model"@,
    ) is None
}

/// A profile for another model. Drafting for itself is dropped where the model cannot.
pub open spec fn moved_profile(list: Members, id: Seq<char>, has_mtp: bool) -> Members {
    let moved = table::put(list, "_model"@, Json::Text(id));
    if drafts_itself(moved) && !has_mtp {
        table::without(table::without(moved, "spec-type"@), "spec-draft-n-max"@)
    } else {
        moved
    }
}

/// The model that a profile belongs to.
pub open spec fn model_of(list: Members) -> Option<Seq<char>> {
    match table::lookup(list, "_model"@) {
        Some(v) => json::text_in(v),
        None => None,
    }
}

/// The profiles after one was given to another model: the binding of the model that it
/// belonged to goes where it led to the profile, and the new model uses it.
pub open spec fn retargeted(p: ProfilesView, name: Seq<char>, id: Seq<char>, has_mtp: bool) -> Option<
    ProfilesView,
> {
    match table::lookup(p.profiles, name) {
        None => None,
        Some(list) => {
            let freed = match model_of(list) {
                Some(owner) if table::lookup(p.models, owner) == Some(
                    Json::Text(name),
                ) => table::without(p.models, owner),
                _ => p.models,
            };
            Some(
                ProfilesView {
                    profiles: table::put(p.profiles, name, moved_profile(list, id, has_mtp)),
                    models: table::put(freed, id, Json::Text(name)),
                    ..p
                },
            )
        },
    }
}

/// What came of giving a profile to another model: the model that it belonged to, and
/// whether it does not draft for itself any more.
pub struct Retargeted {
    pub owner: Option<String>,
    pub removed_mtp: bool,
}

/// Gives a profile to the model with the identifier `id`; `None` where there is no such
/// profile.
pub fn retarget_profile(p: &mut Profiles, name: &str, id: &str, has_mtp: bool) -> (out: Option<
    Retargeted,
>)
    ensures
        match (out, retargeted(old(p)@, name@, id@, has_mtp)) {
            (Some(r), Some(v)) => {
                let list = table::lookup(old(p)@.profiles, name@)->Some_0;
                &&& final(p)@ == v
                &&& metadata::text_view(r.owner) == model_of(list)
                &&& r.removed_mtp == (drafts_itself(
                    table::put(list, "_model"@, Json::Text(id@)),
                ) && !has_mtp)
            },
            (None, None) => final(p)@ == old(p)@,
            _ => false,
        },
{
    let mut t: Table<JsonValue> = match profile_copy(p, name) {
        Some(t) => t,
        None => return None,
    };
    let owner: Option<String> = match member(&t, "_model") {
        Some(v) => match v.as_str() {
            Some(s) => Some(s.to_owned()),
            None => None,
        },
        None => None,
    };
    put_text(&mut t, "_model", id);
    let removed_mtp: bool = profiles::is_text(member(&t, "spec-type"), "draft-mtp") && member(
        &t,
        "spec-draft-model",
    ).is_none() && !has_mtp;
    if removed_mtp {
        drop_member(&mut t, "spec-type");
        drop_member(&mut t, "spec-draft-n-max");
    }
    match &owner {
        Some(old_id) => {
            proof {
                table::lemma_mapped_lookup(p.models@, json::to_json(), old_id@);
            }
            if profiles::is_text(p.models.get(old_id.as_str()), name) {
                drop_binding(p, old_id.as_str());
            }
        },
        None => {},
    }
    put_profile(p, name, t);
    put_binding(p, id, name);
    Some(Retargeted { owner, removed_mtp })
}

/// A new profile for a model.
pub open spec fn new_profile(id: Seq<char>, context: u64) -> Members {
    let a = table::put(seq![], "_model"@, Json::Text(id));
    let b = table::put(a, "ctx-size"@, Json::Unsigned(context));
    let c = table::put(b, "parallel"@, Json::Unsigned(1));
    let d = table::put(c, "cache-type-k"@, Json::Text("q8_0"@));
    let e = table::put(d, "cache-type-v"@, Json::Text("q8_0"@));
    let f = table::put(e, "flash-attn"@, Json::Text("on"@));
    let g = table::put(f, "n-gpu-layers"@, Json::Text("all"@));
    table::put(g, "_extra_args"@, Json::Array(seq![Json::Text("--kv-unified"@)]))
}

/// The context of a new profile: the model's own or the setting's, at most 32768.
pub open spec fn starting_context(limit: Option<u64>, setting: u64) -> u64 {
    metadata::least(metadata::or_default(limit, setting), 32768)
}

/// Why no profile of a name can be made.
pub open spec fn creation_error(p: ProfilesView, name: Seq<char>) -> Option<ProfileErrorView> {
    if !profiles::is_name(name) {
        Some(ProfileErrorView::Name)
    } else if table::lookup(p.profiles, name) is Some {
        Some(ProfileErrorView::Exists)
    } else {
        None
    }
}

/// Whether a profile of a name can be made.
pub fn can_create(p: &Profiles, name: &str) -> (out: Result<(), ProfileError>)
    ensures
        match (out, creation_error(p@, name@)) {
            (Ok(_), None) => true,
            (Err(e), Some(f)) => e@ == f,
            _ => false,
        },
{
    match profiles::valid_name(name) {
        Ok(_) => {},
        Err(e) => return Err(e),
    }
    proof {
        table::lemma_mapped_lookup(p.profiles@, profiles::to_members(), name@);
    }
    if p.profiles.contains_key(name) {
        return Err(ProfileError::Exists);
    }
    Ok(())
}

/// A new profile for a model.
pub fn make_profile(id: &str, limit: Option<u64>, setting: u64) -> (t: Table<JsonValue>)
    ensures
        json::members(t) == new_profile(id@, starting_context(limit, setting)),
{
    let wanted: u64 = match limit {
        Some(n) => n,
        None => setting,
    };
    let context: u64 = if wanted <= 32768 {
        wanted
    } else {
        32768
    };
    let mut t: Table<JsonValue> = Table::new();
    proof {
        json::lemma_members(t);
        assert(json::members(t) =~= seq![]);
    }
    put_text(&mut t, "_model", id);
    put_member(&mut t, "ctx-size", JsonValue::Number(Number::Unsigned(context)));
    put_member(&mut t, "parallel", JsonValue::Number(Number::Unsigned(1)));
    put_text(&mut t, "cache-type-k", "q8_0");
    put_text(&mut t, "cache-type-v", "q8_0");
    put_text(&mut t, "flash-attn", "on");
    put_text(&mut t, "n-gpu-layers", "all");
    let mut extra: Vec<JsonValue> = Vec::new();
    extra.push(JsonValue::String("--kv-unified".to_owned()));
    let value: JsonValue = JsonValue::Array(extra);
    proof {
        assert(json::json_of(value)->Array_0[0] == json::json_of(extra@[0]));
        assert(json::json_of(extra@[0]) == Json::Text("--kv-unified"@));
        assert(value@->Array_0 =~= seq![Json::Text("--kv-unified"@)]);
    }
    put_member(&mut t, "_extra_args", value);
    t
}

/// Makes a profile for a model and lets the model use it.
pub fn create_profile(
    p: &mut Profiles,
    name: &str,
    id: &str,
    limit: Option<u64>,
    setting: u64,
) -> (out: Result<(), ProfileError>)
    ensures
        match (out, creation_error(old(p)@, name@)) {
            (Ok(_), None) => final(p)@ == (ProfilesView {
                profiles: table::put(
                    old(p)@.profiles,
                    name@,
                    new_profile(id@, starting_context(limit, setting)),
                ),
                models: table::put(old(p)@.models, id@, Json::Text(name@)),
                ..old(p)@
            }),
            (Err(e), Some(f)) => e@ == f && final(p)@ == old(p)@,
            _ => false,
        },
{
    match can_create(p, name) {
        Ok(_) => {},
        Err(e) => return Err(e),
    }
    put_profile(p, name, make_profile(id, limit, setting));
    put_binding(p, id, name);
    Ok(())
}

/// Lets the model that a profile belongs to use it, and says which; `None` where it
/// belongs to none.
pub fn bind_profile(p: &mut Profiles, name: &str) -> (out: Option<String>)
    ensures
        match (out, profiles::owner_of(old(p)@, name@)) {
            (Some(s), Some(owner)) => s@ == owner && final(p)@ == (ProfilesView {
                models: table::put(old(p)@.models, owner, Json::Text(name@)),
                ..old(p)@
            }),
            (None, None) => final(p)@ == old(p)@,
            _ => false,
        },
{
    let owner: String = match p.owner(name) {
        Some(s) => s.to_owned(),
        None => return None,
    };
    put_binding(p, owner.as_str(), name);
    Some(owner)
}

/// The value that a text gives: what it says as JSON, else itself.
pub open spec fn value_of(s: Seq<char>) -> Json {
    match json::parsed(s) {
        Some(v) => v,
        None => Json::Text(s),
    }
}

pub fn parse_setting(s: &str) -> (out: JsonValue)
    ensures
        out@ == value_of(s@),
{
    match json::parse(s) {
        Some(v) => v,
        None => JsonValue::String(s.to_owned()),
    }
}

/// Puts a value under a key of a profile; `false` where there is no such profile.
pub fn set_profile_value(p: &mut Profiles, name: &str, key: &str, value: JsonValue) -> (found: bool)
    ensures
        match table::lookup(old(p)@.profiles, name@) {
            Some(list) => found && final(p)@ == (ProfilesView {
                profiles: table::put(
                    old(p)@.profiles,
                    name@,
                    table::put(list, key@, value@),
                ),
                ..old(p)@
            }),
            None => !found && final(p)@ == old(p)@,
        },
{
    let mut t: Table<JsonValue> = match profile_copy(p, name) {
        Some(t) => t,
        None => return false,
    };
    put_member(&mut t, key, value);
    put_profile(p, name, t);
    true
}

/// The names of those of the first `n` profiles that belong to a model.
pub open spec fn names_owned(list: Seq<(Seq<char>, Members)>, model: Seq<char>, n: nat) -> Seq<
    Seq<char>,
>
    decreases n,
{
    if n == 0 {
        seq![]
    } else {
        let earlier = names_owned(list, model, (n - 1) as nat);
        if model_of(list[n - 1].1) == Some(model) {
            earlier.push(list[n - 1].0)
        } else {
            earlier
        }
    }
}

/// The profiles without the first `n` of some names.
pub open spec fn without_names(p: ProfilesView, names: Seq<Seq<char>>, n: nat) -> ProfilesView
    decreases n,
{
    if n == 0 {
        p
    } else {
        let earlier = without_names(p, names, (n - 1) as nat);
        match profiles::removed_profile(earlier, names[n - 1]) {
            Ok(q) => q,
            Err(_) => earlier,
        }
    }
}

/// The profiles after a model is gone: without its profiles and its binding.
pub open spec fn without_model(p: ProfilesView, model: Seq<char>) -> ProfilesView {
    let names = names_owned(p.profiles, model, p.profiles.len());
    let rest = without_names(p, names, names.len());
    ProfilesView { models: table::without(rest.models, model), ..rest }
}

/// Removes the profiles of a model and its binding, and says which profiles.
pub fn remove_model_profiles(p: &mut Profiles, model: &str) -> (out: Vec<String>)
    ensures
        text::views(out@) == names_owned(old(p)@.profiles, model@, old(p)@.profiles.len()),
        final(p)@ == without_model(old(p)@, model@),
{
    let ghost start = p@;
    let mut names: Vec<String> = Vec::new();
    let mut i: usize = 0;
    proof {
        assert(text::views(names@) =~= seq![]);
    }
    while i < p.profiles.len()
        invariant
            i <= p.profiles@.len(),
            p@ == start,
            start.profiles.len() == p.profiles@.len(),
            text::views(names@) == names_owned(start.profiles, model@, i as nat),
        decreases p.profiles@.len() - i,
    {
        proof {
            assert(start.profiles[i as int] == (p.profiles@[i as int].0, json::members(
                p.profiles@[i as int].1,
            )));
        }
        let owner: Option<&JsonValue> = member(p.profiles.value_at(i), "_model");
        if profiles::is_text(owner, model) {
            process::add(&mut names, p.profiles.key_at(i));
        }
        i += 1;
    }
    let ghost all = text::views(names@);
    let mut k: usize = 0;
    while k < names.len()
        invariant
            k <= names@.len(),
            all == text::views(names@),
            p@ == without_names(start, all, k as nat),
        decreases names@.len() - k,
    {
        proof {
            assert(all[k as int] == names@[k as int]@);
        }
        let _done: Result<(), ProfileError> = p.remove(names[k].as_str());
        k += 1;
    }
    drop_binding(p, model);
    names
}

/// The first `n` of some texts without one of them.
pub open spec fn others(list: Seq<Seq<char>>, item: Seq<char>, n: nat) -> Seq<Seq<char>>
    decreases n,
{
    if n == 0 {
        seq![]
    } else if list[n - 1] == item {
        others(list, item, (n - 1) as nat)
    } else {
        others(list, item, (n - 1) as nat).push(list[n - 1])
    }
}

/// Some texts with one more, unless it is there.
pub open spec fn with_text(list: Seq<Seq<char>>, item: Seq<char>) -> Seq<Seq<char>> {
    if list.contains(item) {
        list
    } else {
        list.push(item)
    }
}

pub fn other_texts(list: &Vec<String>, item: &str) -> (out: Vec<String>)
    ensures
        text::views(out@) == others(text::views(list@), item@, list@.len()),
{
    let ghost all = text::views(list@);
    let mut out: Vec<String> = Vec::new();
    let mut i: usize = 0;
    proof {
        assert(text::views(out@) =~= seq![]);
    }
    while i < list.len()
        invariant
            i <= list@.len(),
            all == text::views(list@),
            text::views(out@) == others(all, item@, i as nat),
        decreases list@.len() - i,
    {
        proof {
            assert(all[i as int] == list@[i as int]@);
        }
        if !text::same(list[i].as_str(), item) {
            process::add(&mut out, list[i].as_str());
        }
        i += 1;
    }
    out
}

/// What is left of some texts without one of them does not hold it, and holds every
/// other one that was there.
pub proof fn others_are_the_rest(list: Seq<Seq<char>>, item: Seq<char>, n: nat, other: Seq<char>)
    requires
        n <= list.len(),
    ensures
        others(list, item, n).contains(other) <==> other != item && list.take(n as int).contains(
            other,
        ),
    decreases n,
{
    if n == 0 {
        assert(list.take(0) =~= seq![]);
    } else {
        others_are_the_rest(list, item, (n - 1) as nat, other);
        let before = others(list, item, (n - 1) as nat);
        let taken = list.take(n - 1);
        assert(list.take(n as int) =~= taken.push(list[n - 1]));
        assert(taken.push(list[n - 1]).contains(other) <==> taken.contains(other) || list[n - 1]
            == other) by {
            if taken.contains(other) {
                let i = choose|i: int| 0 <= i < taken.len() && taken[i] == other;
                assert(taken.push(list[n - 1])[i] == other);
            }
            if list[n - 1] == other {
                assert(taken.push(list[n - 1])[n - 1] == other);
            }
        }
        assert(before.push(list[n - 1]).contains(other) <==> before.contains(other) || list[n - 1]
            == other) by {
            if before.contains(other) {
                let i = choose|i: int| 0 <= i < before.len() && before[i] == other;
                assert(before.push(list[n - 1])[i] == other);
            }
            if list[n - 1] == other {
                assert(before.push(list[n - 1])[before.len() as int] == other);
            }
        }
    }
}

/// What can be done to the API keys. A key that was generated comes from outside.
pub enum KeyAction {
    Add(String),
    Remove(String),
    Generated(String),
}

/// Why a command cannot be carried out.
#[derive(Clone, Copy, Debug, PartialEq, Eq, Structural)]
pub enum CommandError {
    /// What is to be added or removed is not said.
    Missing,
    /// There is no such command.
    Unknown,
}

/// The settings after something was done to the API keys.
pub open spec fn with_key_action(c: ConfigView, action: KeyAction) -> ConfigView {
    match action {
        KeyAction::Add(key) => ConfigView { api_keys: with_text(c.api_keys, key@), ..c },
        KeyAction::Remove(key) => ConfigView {
            api_keys: others(c.api_keys, key@, c.api_keys.len()),
            api_key: if c.api_key == key@ {
                seq![]
            } else {
                c.api_key
            },
            ..c
        },
        KeyAction::Generated(key) => ConfigView { api_keys: c.api_keys.push(key@), ..c },
    }
}

/// Changes the API keys.
pub fn change_keys(cfg: &mut Config, action: KeyAction)
    ensures
        final(cfg)@ == with_key_action(old(cfg)@, action),
{
    match action {
        KeyAction::Add(key) => {
            if !profiles::holds_text(&cfg.api_keys, key.as_str()) {
                process::add(&mut cfg.api_keys, key.as_str());
            }
        },
        KeyAction::Remove(key) => {
            cfg.api_keys = other_texts(&cfg.api_keys, key.as_str());
            if text::same(cfg.api_key.as_str(), key.as_str()) {
                let none: String = String::new();
                proof {
                    assert(none@ =~= seq![]);
                }
                cfg.api_key = none;
            }
        },
        KeyAction::Generated(key) => {
            process::add(&mut cfg.api_keys, key.as_str());
        },
    }
}

/// The settings after a command for the scheduler.
pub open spec fn with_scheduler_action(
    c: ConfigView,
    action: Seq<char>,
    model: Option<Seq<char>>,
) -> Result<ConfigView, CommandError> {
    if action == "enable"@ {
        Ok(ConfigView { scheduler_enabled: true, ..c })
    } else if action == "disable"@ {
        Ok(ConfigView { scheduler_enabled: false, ..c })
    } else if action == "pin"@ {
        match model {
            Some(m) => Ok(
                ConfigView {
                    scheduler_pinned_models: with_text(c.scheduler_pinned_models, m),
                    ..c
                },
            ),
            None => Err(CommandError::Missing),
        }
    } else if action == "unpin"@ {
        match model {
            Some(m) => Ok(
                ConfigView {
                    scheduler_pinned_models: others(
                        c.scheduler_pinned_models,
                        m,
                        c.scheduler_pinned_models.len(),
                    ),
                    ..c
                },
            ),
            None => Err(CommandError::Missing),
        }
    } else {
        Err(CommandError::Unknown)
    }
}

/// Carries out a command for the scheduler.
pub fn change_scheduler(cfg: &mut Config, action: &str, model: Option<String>) -> (out: Result<
    (),
    CommandError,
>)
    ensures
        match (out, with_scheduler_action(old(cfg)@, action@, metadata::text_view(model))) {
            (Ok(_), Ok(c)) => final(cfg)@ == c,
            (Err(e), Err(f)) => e == f && final(cfg)@ == old(cfg)@,
            _ => false,
        },
{
    if text::same(action, "enable") {
        cfg.scheduler_enabled = true;
        Ok(())
    } else if text::same(action, "disable") {
        cfg.scheduler_enabled = false;
        Ok(())
    } else if text::same(action, "pin") {
        match model {
            Some(m) => {
                pin(cfg, m.as_str());
                Ok(())
            },
            None => Err(CommandError::Missing),
        }
    } else if text::same(action, "unpin") {
        match model {
            Some(m) => {
                cfg.scheduler_pinned_models = other_texts(
                    &cfg.scheduler_pinned_models,
                    m.as_str(),
                );
                Ok(())
            },
            None => Err(CommandError::Missing),
        }
    } else {
        Err(CommandError::Unknown)
    }
}

/// Pins a model, and says whether it was not pinned before.
pub fn pin(cfg: &mut Config, model: &str) -> (changed: bool)
    ensures
        final(cfg)@ == (ConfigView {
            scheduler_pinned_models: with_text(old(cfg)@.scheduler_pinned_models, model@),
            ..old(cfg)@
        }),
        changed == !old(cfg)@.scheduler_pinned_models.contains(model@),
{
    if profiles::holds_text(&cfg.scheduler_pinned_models, model) {
        return false;
    }
    process::add(&mut cfg.scheduler_pinned_models, model);
    true
}

/// How many cases of a benchmark a name asks for.
pub open spec fn cases_of(name: Option<Seq<char>>) -> Option<usize> {
    match name {
        None => Some(benchmark::TOTAL_CASES),
        Some(s) => if s == "long"@ || s == "all"@ {
            Some(benchmark::TOTAL_CASES)
        } else if s == "small"@ {
            Some(1)
        } else if s == "medium"@ {
            Some(5)
        } else {
            None
        },
    }
}

pub fn max_cases(name: &Option<String>) -> (out: Option<usize>)
    ensures
        out == cases_of(metadata::text_view(*name)),
{
    match name {
        None => Some(benchmark::TOTAL_CASES),
        Some(s) => {
            let s: &str = s.as_str();
            if text::same(s, "long") || text::same(s, "all") {
                Some(benchmark::TOTAL_CASES)
            } else if text::same(s, "small") {
                Some(1)
            } else if text::same(s, "medium") {
                Some(5)
            } else {
                None
            }
        },
    }
}

/// The line that shows a flag, `flag` being the match of the flag expression in a line of
/// the server's help; `None` where the line is not shown.
pub open spec fn flag_line(
    line: Seq<char>,
    flag: Option<pattern::Groups>,
    wanted: Option<Seq<char>>,
    expose: Seq<Seq<char>>,
) -> Option<Seq<char>> {
    match flag {
        None => None,
        Some(groups) => {
            let name = pattern::group_of(groups, 1);
            let fits = match wanted {
                Some(piece) => text::holds(name, piece) || text::holds(line, piece),
                None => true,
            };
            if fits {
                Some(
                    (if profiles::exposed(expose, name) {
                        "  "@
                    } else {
                        "✗"@
                    }) + " "@ + text::trim_of(line),
                )
            } else {
                None
            }
        },
    }
}

pub fn shown_flag(
    line: &str,
    flag: &Option<Vec<Option<String>>>,
    wanted: Option<&str>,
    p: &Profiles,
) -> (out: Option<String>)
    ensures
        metadata::text_view(out) == flag_line(
            line@,
            huggingface::groups_view(*flag),
            match wanted {
                Some(piece) => Some(piece@),
                None => None,
            },
            p@.expose,
        ),
{
    match flag {
        None => None,
        Some(groups) => {
            let name: String = pattern::group(groups, 1);
            let fits: bool = match wanted {
                Some(piece) => text::contains(name.as_str(), piece) || text::contains(line, piece),
                None => true,
            };
            if !fits {
                return None;
            }
            let mut out: String = if p.is_exposed(name.as_str()) {
                "  ".to_owned()
            } else {
                "✗".to_owned()
            };
            out.append(" ");
            out.append(text::trim(line).as_str());
            Some(out)
        },
    }
}

/// The lines that show flags, among the first `n` of the server's help.
pub open spec fn flag_lines(
    lines: Seq<Seq<char>>,
    wanted: Option<Seq<char>>,
    expose: Seq<Seq<char>>,
    n: nat,
) -> Seq<Seq<char>>
    decreases n,
{
    if n == 0 {
        seq![]
    } else {
        let earlier = flag_lines(lines, wanted, expose, (n - 1) as nat);
        let flag = huggingface::match_of(process::flag_expression(), lines[n - 1]);
        match flag_line(lines[n - 1], flag, wanted, expose) {
            Some(line) => earlier.push(line),
            None => earlier,
        }
    }
}

/// The flags in the server's help that hold a text, one on each line, with a mark on those
/// that profiles may not use.
pub fn list_flags(help: &str, wanted: Option<&str>, p: &Profiles) -> (out: Vec<String>)
    ensures
        text::views(out@) == flag_lines(
            text::lines_of(help@),
            match wanted {
                Some(piece) => Some(piece@),
                None => None,
            },
            p@.expose,
            text::lines_of(help@).len(),
        ),
{
    let lines: Vec<String> = text::lines(help);
    let ghost all = text::lines_of(help@);
    let ghost piece = match wanted {
        Some(piece) => Some(piece@),
        None => None,
    };
    let mut out: Vec<String> = Vec::new();
    let mut i: usize = 0;
    proof {
        assert(text::views(out@) =~= seq![]);
    }
    while i < lines.len()
        invariant
            i <= lines@.len(),
            all == text::views(lines@),
            piece == match wanted {
                Some(piece) => Some(piece@),
                None => None,
            },
            text::views(out@) == flag_lines(all, piece, p@.expose, i as nat),
        decreases lines@.len() - i,
    {
        proof {
            assert(all[i as int] == lines@[i as int]@);
        }
        let line: &str = lines[i].as_str();
        let flag: Option<Vec<Option<String>>> = huggingface::find_match(
            r"--([A-Za-z0-9][A-Za-z0-9-]*)",
            line,
        );
        match shown_flag(line, &flag, wanted, p) {
            Some(shown) => process::add(&mut out, shown.as_str()),
            None => {},
        }
        i += 1;
    }
    out
}

/// Whether a name is that of a model, or of a profile of it.
pub open spec fn names_model(name: Seq<char>, model: Seq<char>) -> bool {
    name == model || model.push('@').is_prefix_of(name)
}

/// Whether some names hold that of a model, or of a profile of it.
pub open spec fn lists_model(names: Seq<Seq<char>>, model: Seq<char>) -> bool {
    exists|i: int| 0 <= i < names.len() && names_model(#[trigger] names[i], model)
}

/// Whether the answer of the scheduler lists a model as loaded.
pub fn is_loaded(payload: &JsonValue, model: &str) -> (yes: bool)
    ensures
        yes == lists_model(process::names_in(payload@, "running"@, "model"@), model@),
{
    let names: Vec<String> = process::listed_names(payload, "running", "model");
    let ghost all = process::names_in(payload@, "running"@, "model"@);
    let mut prefix: String = model.to_owned();
    prefix.push('@');
    let mut i: usize = 0;
    while i < names.len()
        invariant
            i <= names@.len(),
            all == text::views(names@),
            all == process::names_in(payload@, "running"@, "model"@),
            prefix@ == model@.push('@'),
            forall|j: int| 0 <= j < i ==> !names_model(#[trigger] all[j], model@),
        decreases names@.len() - i,
    {
        proof {
            assert(all[i as int] == names@[i as int]@);
        }
        let name: &str = names[i].as_str();
        if text::same(name, model) || text::starts_with(name, prefix.as_str()) {
            proof {
                assert(names_model(all[i as int], model@));
            }
            return true;
        }
        i += 1;
    }
    false
}

/// The value behind the last occurrence of `--name`, as a number.
pub open spec fn flag_number(args: Seq<Seq<char>>, name: Seq<char>) -> Option<u64> {
    match process::value_after(args, seq!["--"@ + name], args.len()) {
        Some(s) => text::u64_of(s),
        None => None,
    }
}

pub fn flag_u64(args: &[String], name: &str) -> (out: Option<u64>)
    ensures
        out == flag_number(text::views(args@), name@),
{
    let mut long: String = "--".to_owned();
    long.append(name);
    let flags: [&str; 1] = [long.as_str()];
    proof {
        assert(process::str_views(flags@) =~= seq!["--"@ + name@]);
    }
    match process::flag_value(args, &flags) {
        Some(s) => text::parse_u64(s.as_str()),
        None => None,
    }
}

/// The context that a model is held to fit with: that of the arguments or the setting, at
/// most what the model was trained for.
pub open spec fn fit_context_of(
    args: Seq<Seq<char>>,
    setting: u64,
    trained: Option<u64>,
) -> u64 {
    metadata::least(
        metadata::or_default(flag_number(args, "ctx-size"@), setting),
        metadata::or_default(trained, u64::MAX),
    )
}

pub fn fit_context(args: &[String], setting: u64, trained: Option<u64>) -> (out: u64)
    ensures
        out == fit_context_of(text::views(args@), setting, trained),
{
    let wanted: u64 = match flag_u64(args, "ctx-size") {
        Some(n) => n,
        None => setting,
    };
    match trained {
        Some(limit) if limit < wanted => limit,
        _ => wanted,
    }
}

/// The last lines of a text; a text with no more of them stands as it is.
pub open spec fn tail_of(s: Seq<char>, max: nat) -> Seq<char> {
    let lines = text::lines_of(s);
    if lines.len() <= max {
        s
    } else {
        text::joined(lines.skip(lines.len() - max), "\n"@)
    }
}

pub fn tail_lines(s: &str, max: usize) -> (out: String)
    ensures
        out@ == tail_of(s@, max as nat),
{
    if text::lines(s).len() <= max {
        s.to_owned()
    } else {
        process::tail(s, max)
    }
}

/// Whether an artifact is not one of a quantization.
pub open spec fn other_quant(label: Seq<char>) -> spec_fn(ArtifactView) -> bool {
    |a: ArtifactView| text::lower_of(a.label) != text::lower_of(label)
}

/// Whether an artifact is not a recommended one.
pub open spec fn not_recommended() -> spec_fn(ArtifactView) -> bool {
    |a: ArtifactView| !a.recommended
}

/// Which artifact is fetched: the first of the quantization that is asked for, or else the
/// first recommended one, or else the first.
pub open spec fn chosen_artifact(list: Seq<ArtifactView>, quant: Option<Seq<char>>) -> Option<int> {
    let at = match quant {
        Some(label) => text::run(list, other_quant(label)),
        None => text::run(list, not_recommended()),
    };
    if at < list.len() {
        Some(at as int)
    } else if quant is None && list.len() > 0 {
        Some(0)
    } else {
        None
    }
}

pub fn choose_artifact(list: &Vec<Artifact>, quant: Option<&str>) -> (out: Option<usize>)
    ensures
        match (
            out,
            chosen_artifact(
                huggingface::artifact_views(list@),
                match quant {
                    Some(label) => Some(label@),
                    None => None,
                },
            ),
        ) {
            (Some(i), Some(j)) => i == j,
            (None, None) => true,
            _ => false,
        },
{
    let ghost all = huggingface::artifact_views(list@);
    let ghost fits = match quant {
        Some(label) => other_quant(label@),
        None => not_recommended(),
    };
    let mut i: usize = 0;
    while i < list.len()
        invariant
            i <= list@.len(),
            all == huggingface::artifact_views(list@),
            fits == match quant {
                Some(label) => other_quant(label@),
                None => not_recommended(),
            },
            forall|j: int| 0 <= j < i ==> fits(#[trigger] all[j]),
        decreases list@.len() - i,
    {
        proof {
            assert(all[i as int] == list@[i as int]@);
        }
        let found: bool = match quant {
            Some(label) => text::same(
                text::to_lower(list[i].label.as_str()).as_str(),
                text::to_lower(label).as_str(),
            ),
            None => list[i].recommended,
        };
        if found {
            proof {
                text::lemma_run_unique(all, fits, i as int);
            }
            return Some(i);
        }
        i += 1;
    }
    proof {
        text::lemma_run_unique(all, fits, list@.len() as int);
    }
    if quant.is_none() && list.len() > 0 {
        Some(0)
    } else {
        None
    }
}

/// The words of a text with one space between them, cut after `max` characters.
pub open spec fn preview_of(s: Seq<char>, max: nat) -> Seq<char> {
    let line = text::joined(text::words_of(s), " "@);
    if line.len() <= max {
        line
    } else {
        line.take(max as int)
    }
}

pub fn preview(s: &str, max: usize) -> (out: String)
    ensures
        out@ == preview_of(s@, max as nat),
{
    let words: Vec<String> = text::words(s);
    let line: String = text::join(words.as_slice(), " ");
    let chars: Vec<char> = text::chars_of(line.as_str());
    if chars.len() <= max {
        line
    } else {
        let out: String = text::part_text(chars.as_slice(), 0, max);
        proof {
            assert(chars@.subrange(0, max as int) =~= line@.take(max as int));
        }
        out
    }
}

/// Why the templates cannot be changed.
#[derive(Clone, Copy, Debug, PartialEq, Eq, Structural)]
pub enum TemplateError {
    Name,
    Exists,
    Unknown,
}

/// The templates, by name.
pub type TemplateList = Seq<(Seq<char>, Seq<char>)>;

pub open spec fn with_template(list: TemplateList, name: Seq<char>, content: Seq<char>) -> Result<
    TemplateList,
    TemplateError,
> {
    if !templates::is_template_name(name) {
        Err(TemplateError::Name)
    } else if table::lookup(list, name) is Some {
        Err(TemplateError::Exists)
    } else {
        Ok(table::put(list, name, content))
    }
}

pub open spec fn with_renamed_template(list: TemplateList, source: Seq<char>, target: Seq<char>) -> Result<
    TemplateList,
    TemplateError,
> {
    if !templates::is_template_name(target) {
        Err(TemplateError::Name)
    } else if table::lookup(list, target) is Some {
        Err(TemplateError::Exists)
    } else {
        match table::lookup(list, source) {
            Some(content) => Ok(table::put(table::without(list, source), target, content)),
            None => Err(TemplateError::Unknown),
        }
    }
}

/// Whether a template of a name can be added.
pub fn can_add_template(library: &Templates, name: &str) -> (out: Result<(), TemplateError>)
    ensures
        out == match with_template(library@, name@, seq![]) {
            Ok(_) => Ok::<(), TemplateError>(()),
            Err(e) => Err(e),
        },
{
    if templates::valid_name(name).is_err() {
        return Err(TemplateError::Name);
    }
    proof {
        table::lemma_mapped_lookup(library.templates@, crate::drm::to_chars(), name@);
    }
    if library.templates.contains_key(name) {
        return Err(TemplateError::Exists);
    }
    Ok(())
}

/// Adds a template.
pub fn add_template(library: &mut Templates, name: &str, content: &str) -> (out: Result<
    (),
    TemplateError,
>)
    ensures
        match (out, with_template(old(library)@, name@, content@)) {
            (Ok(_), Ok(list)) => final(library)@ == list,
            (Err(e), Err(f)) => e == f && final(library)@ == old(library)@,
            _ => false,
        },
{
    match can_add_template(library, name) {
        Ok(_) => {},
        Err(e) => return Err(e),
    }
    put_template(library, name, content);
    Ok(())
}

fn put_template(library: &mut Templates, name: &str, content: &str)
    ensures
        final(library)@ == table::put(old(library)@, name@, content@),
{
    let value: String = content.to_owned();
    proof {
        table::lemma_mapped_put(library.templates@, crate::drm::to_chars(), name@, value);
    }
    library.templates.insert(name.to_owned(), value);
}

/// Gives a template another content; `false` where there is no such template.
pub fn edit_template(library: &mut Templates, name: &str, content: &str) -> (found: bool)
    ensures
        found == (table::lookup(old(library)@, name@) is Some),
        final(library)@ == if found {
            table::put(old(library)@, name@, content@)
        } else {
            old(library)@
        },
{
    proof {
        table::lemma_mapped_lookup(library.templates@, crate::drm::to_chars(), name@);
    }
    if !library.templates.contains_key(name) {
        return false;
    }
    put_template(library, name, content);
    true
}

/// Renames a template.
pub fn rename_template(library: &mut Templates, source: &str, target: &str) -> (out: Result<
    (),
    TemplateError,
>)
    ensures
        match (out, with_renamed_template(old(library)@, source@, target@)) {
            (Ok(_), Ok(list)) => final(library)@ == list,
            (Err(e), Err(f)) => e == f && final(library)@ == old(library)@,
            _ => false,
        },
{
    match can_add_template(library, target) {
        Ok(_) => {},
        Err(e) => return Err(e),
    }
    proof {
        table::lemma_mapped_lookup(library.templates@, crate::drm::to_chars(), source@);
    }
    match library.templates.remove(source) {
        Some(content) => {
            put_template(library, target, content.as_str());
            Ok(())
        },
        None => Err(TemplateError::Unknown),
    }
}

/// A renamed template is found under its new name with what it held, and under its old name
/// no more; the other templates stay what they were.
pub proof fn rename_moves_a_template(
    list: TemplateList,
    source: Seq<char>,
    target: Seq<char>,
    other: Seq<char>,
)
    requires
        table::ordered(list),
        with_renamed_template(list, source, target) is Ok,
        other != source,
        other != target,
    ensures
        ({
            let new = with_renamed_template(list, source, target)->Ok_0;
            &&& table::lookup(new, target) == table::lookup(list, source)
            &&& table::lookup(new, source) is None
            &&& table::lookup(new, other) == table::lookup(list, other)
        }),
{
    let less = table::without(list, source);
    let content = table::lookup(list, source)->Some_0;
    table::without_keeps_order(list, source);
    table::without_then_lookup(list, source, other);
    table::put_then_lookup(less, target, content, source);
    table::put_then_lookup(less, target, content, other);
}

/// Removes a template; `false` where there is none of the name.
pub fn delete_template(library: &mut Templates, name: &str) -> (found: bool)
    ensures
        found == (table::lookup(old(library)@, name@) is Some),
        final(library)@ == if found {
            table::without(old(library)@, name@)
        } else {
            old(library)@
        },
{
    proof {
        table::lemma_mapped_lookup(library.templates@, crate::drm::to_chars(), name@);
    }
    library.templates.remove(name).is_some()
}

/// The name of a grafted model if none is given: that of the model it is made from, with
/// `-MTP` behind it.
pub fn grafted_name(target: &str) -> (out: String)
    ensures
        out@ == models::stem_of(target@) + "-MTP.gguf"@,
{
    let mut out: String = models::file_stem(target);
    out.append("-MTP.gguf");
    out
}

/// The unit that runs the server.
pub fn server_unit(exe: &str) -> (out: String)
    ensures
        out@ == "[Unit]\nDescription=llama.cpp OpenAI-compatible server (llamactl)\nAfter=network-online.target\n\n[Service]\nExecStart="@
            + exe@
            + " serve\nRestart=on-failure\nRestartSec=5\n\n[Install]\nWantedBy=default.target\n"@,
{
    let mut out: String = "[Unit]\nDescription=llama.cpp OpenAI-compatible server (llamactl)\nAfter=network-online.target\n\n[Service]\nExecStart=".to_owned();
    out.append(exe);
    out.append(
        " serve\nRestart=on-failure\nRestartSec=5\n\n[Install]\nWantedBy=default.target\n",
    );
    out
}

/// The unit that updates the server.
pub fn update_unit(exe: &str) -> (out: String)
    ensures
        out@ == "[Unit]\nDescription=Update llama.cpp and restart server if needed\n\n[Service]\nType=oneshot\nExecStart="@
            + exe@ + " update --restart\n"@,
{
    let mut out: String = "[Unit]\nDescription=Update llama.cpp and restart server if needed\n\n[Service]\nType=oneshot\nExecStart=".to_owned();
    out.append(exe);
    out.append(" update --restart\n");
    out
}

/// What is said where something cannot be done with the template `name`.
pub open spec fn template_text_of(e: TemplateError, name: Seq<char>) -> Seq<char> {
    match e {
        TemplateError::Name =>
            "template names use letters, numbers, spaces, dots, underscores, or hyphens"@,
        TemplateError::Exists => "template '"@ + name + "' already exists"@,
        TemplateError::Unknown => "unknown template '"@ + name + "'"@,
    }
}

pub fn template_text(e: TemplateError, name: &str) -> (out: String)
    ensures
        out@ == template_text_of(e, name@),
{
    match e {
        TemplateError::Name =>
            "template names use letters, numbers, spaces, dots, underscores, or hyphens".to_owned(),
        TemplateError::Exists => {
            let mut out: String = "template '".to_owned();
            out.append(name);
            out.append("' already exists");
            out
        },
        TemplateError::Unknown => {
            let mut out: String = "unknown template '".to_owned();
            out.append(name);
            out.append("'");
            out
        },
    }
}

} // verus!
