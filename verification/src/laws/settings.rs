//! Laws of the settings and of the commands that change them.
use vstd::prelude::*;

use crate::commands;
use crate::commands::{CommandError, KeyAction};
use crate::config;
use crate::config::{ConfigError, ConfigView};
use crate::huggingface::ArtifactView;
use crate::json;
use crate::json::Json;
use crate::laws::estimates;
use crate::laws::texts;
use crate::profiles;
use crate::profiles::{Members, ProfilesView};
use crate::table;
use crate::text;
use crate::update;
use crate::update::VersionView;

verus! {

/// Whether every setting but one is the same.
pub open spec fn same_but(c: ConfigView, v: ConfigView, key: Seq<char>) -> bool {
    &&& key != "backend"@ ==> v.backend == c.backend
    &&& key != "runtime"@ ==> v.runtime == c.runtime
    &&& key != "update_backends"@ ==> v.update_backends == c.update_backends
    &&& key != "host"@ ==> v.host == c.host
    &&& key != "port"@ ==> v.port == c.port
    &&& key != "telemetry_port"@ ==> v.telemetry_port == c.telemetry_port
    &&& key != "api_key"@ ==> v.api_key == c.api_key
    &&& key != "api_keys"@ ==> v.api_keys == c.api_keys
    &&& key != "models_dirs"@ ==> v.models_dirs == c.models_dirs
    &&& key != "default_model"@ ==> v.default_model == c.default_model
    &&& key != "gpu_layers"@ ==> v.gpu_layers == c.gpu_layers
    &&& key != "ctx_size"@ ==> v.ctx_size == c.ctx_size
    &&& key != "extra_args"@ ==> v.extra_args == c.extra_args
    &&& key != "runtime_env_file"@ ==> v.runtime_env_file == c.runtime_env_file
    &&& key != "auto_update"@ ==> v.auto_update == c.auto_update
    &&& key != "keep_versions"@ ==> v.keep_versions == c.keep_versions
    &&& key != "swap_ttl"@ ==> v.swap_ttl == c.swap_ttl
    &&& key != "advertise_base_models"@ ==> v.advertise_base_models == c.advertise_base_models
    &&& key != "advertise_profiles"@ ==> v.advertise_profiles == c.advertise_profiles
    &&& key != "scheduler_enabled"@ ==> v.scheduler_enabled == c.scheduler_enabled
    &&& key != "scheduler_max_models"@ ==> v.scheduler_max_models == c.scheduler_max_models
    &&& key != "scheduler_pinned_models"@ ==> v.scheduler_pinned_models == c.scheduler_pinned_models
}

/// Whether a text says true or false and a setting is what it says.
pub open spec fn says_whether(raw: Seq<char>, b: bool) -> bool {
    (raw == "true"@ && b) || (raw == "false"@ && !b)
}

/// Whether a text gives a number of at most `max`, with a sign in front or none.
pub open spec fn says_number(raw: Seq<char>, n: int, max: int) -> bool {
    let digits = if raw.len() > 0 && raw[0] == '+' {
        raw.skip(1)
    } else {
        raw
    };
    digits.len() > 0 && texts::only_digits(digits) && texts::worth(digits) == n && n <= max
}

/// Whether a text says a list of texts.
pub open spec fn says_list(raw: Seq<char>, list: Seq<Seq<char>>) -> bool {
    match json::parsed(raw) {
        Some(Json::Array(items)) => items.len() == list.len() && forall|i: int|
            0 <= i < items.len() ==> #[trigger] items[i] == Json::Text(list[i]),
        _ => false,
    }
}

/// Whether a setting is what a text says for it.
pub open spec fn set_to(v: ConfigView, key: Seq<char>, raw: Seq<char>) -> bool {
    &&& key == "backend"@ ==> v.backend == raw
    &&& key == "runtime"@ ==> v.runtime == raw
    &&& key == "update_backends"@ ==> says_list(raw, v.update_backends)
    &&& key == "host"@ ==> v.host == raw
    &&& key == "port"@ ==> says_number(raw, v.port as int, 65535)
    &&& key == "telemetry_port"@ ==> says_number(raw, v.telemetry_port as int, 65535)
    &&& key == "api_key"@ ==> v.api_key == raw
    &&& key == "api_keys"@ ==> says_list(raw, v.api_keys)
    &&& key == "models_dirs"@ ==> says_list(raw, v.models_dirs)
    &&& key == "default_model"@ ==> v.default_model == raw
    &&& key == "ctx_size"@ ==> says_number(raw, v.ctx_size as int, u64::MAX as int)
    &&& key == "extra_args"@ ==> says_list(raw, v.extra_args)
    &&& key == "runtime_env_file"@ ==> v.runtime_env_file == raw
    &&& key == "auto_update"@ ==> says_whether(raw, v.auto_update)
    &&& key == "keep_versions"@ ==> says_number(raw, v.keep_versions as int, usize::MAX as int)
    &&& key == "swap_ttl"@ ==> says_number(raw, v.swap_ttl as int, u64::MAX as int)
    &&& key == "advertise_base_models"@ ==> says_whether(raw, v.advertise_base_models)
    &&& key == "advertise_profiles"@ ==> says_whether(raw, v.advertise_profiles)
    &&& key == "scheduler_enabled"@ ==> says_whether(raw, v.scheduler_enabled)
    &&& key == "scheduler_max_models"@ ==> says_number(raw, v.scheduler_max_models as int, usize::MAX as int)
    &&& key == "scheduler_pinned_models"@ ==> says_list(raw, v.scheduler_pinned_models)
}

/// A mark that tells the names of the settings apart: their length and their first letter.
spec fn mark(s: Seq<char>) -> int {
    s.len() * 0x20_0000 + s[0] as int
}

proof fn lemma_marks()
    ensures
        mark("backend"@) == 7 * 0x20_0000 + 'b' as int,
        mark("runtime"@) == 7 * 0x20_0000 + 'r' as int,
        mark("update_backends"@) == 15 * 0x20_0000 + 'u' as int,
        mark("host"@) == 4 * 0x20_0000 + 'h' as int,
        mark("port"@) == 4 * 0x20_0000 + 'p' as int,
        mark("telemetry_port"@) == 14 * 0x20_0000 + 't' as int,
        mark("api_key"@) == 7 * 0x20_0000 + 'a' as int,
        mark("api_keys"@) == 8 * 0x20_0000 + 'a' as int,
        mark("models_dirs"@) == 11 * 0x20_0000 + 'm' as int,
        mark("default_model"@) == 13 * 0x20_0000 + 'd' as int,
        mark("gpu_layers"@) == 10 * 0x20_0000 + 'g' as int,
        mark("ctx_size"@) == 8 * 0x20_0000 + 'c' as int,
        mark("extra_args"@) == 10 * 0x20_0000 + 'e' as int,
        mark("runtime_env_file"@) == 16 * 0x20_0000 + 'r' as int,
        mark("auto_update"@) == 11 * 0x20_0000 + 'a' as int,
        mark("keep_versions"@) == 13 * 0x20_0000 + 'k' as int,
        mark("swap_ttl"@) == 8 * 0x20_0000 + 's' as int,
        mark("advertise_base_models"@) == 21 * 0x20_0000 + 'a' as int,
        mark("advertise_profiles"@) == 18 * 0x20_0000 + 'a' as int,
        mark("scheduler_enabled"@) == 17 * 0x20_0000 + 's' as int,
        mark("scheduler_max_models"@) == 20 * 0x20_0000 + 's' as int,
        mark("scheduler_pinned_models"@) == 23 * 0x20_0000 + 's' as int,
{
    reveal_strlit("backend");
    reveal_strlit("runtime");
    reveal_strlit("update_backends");
    reveal_strlit("host");
    reveal_strlit("port");
    reveal_strlit("telemetry_port");
    reveal_strlit("api_key");
    reveal_strlit("api_keys");
    reveal_strlit("models_dirs");
    reveal_strlit("default_model");
    reveal_strlit("gpu_layers");
    reveal_strlit("ctx_size");
    reveal_strlit("extra_args");
    reveal_strlit("runtime_env_file");
    reveal_strlit("auto_update");
    reveal_strlit("keep_versions");
    reveal_strlit("swap_ttl");
    reveal_strlit("advertise_base_models");
    reveal_strlit("advertise_profiles");
    reveal_strlit("scheduler_enabled");
    reveal_strlit("scheduler_max_models");
    reveal_strlit("scheduler_pinned_models");
}

proof fn lemma_number_up_to(raw: Seq<char>, max: nat)
    requires
        max <= u64::MAX,
    ensures
        match config::number_up_to(raw, max) {
            Ok(n) => says_number(raw, n as int, max as int),
            Err(_) => forall|n: int| !#[trigger] says_number(raw, n, max as int),
        },
{
    texts::numbers_are_read_by_their_worth(raw);
}

proof fn lemma_list_of(raw: Seq<char>)
    ensures
        match config::list_of(raw) {
            Ok(list) => says_list(raw, list),
            Err(_) => forall|list: Seq<Seq<char>>| !#[trigger] says_list(raw, list),
        },
{
    match json::parsed(raw) {
        Some(Json::Array(items)) => {
            if config::all_texts(items) {
                let list = profiles::texts_in(items, items.len());
                lemma_all_texts(items, items.len());
                assert(says_list(raw, list));
            } else {
                let i = choose|i: int| 0 <= i < items.len() && !(#[trigger] items[i] is Text);
                assert forall|list: Seq<Seq<char>>| !#[trigger] says_list(raw, list) by {
                    if says_list(raw, list) {
                        assert(items[i] == Json::Text(list[i]));
                    }
                }
            }
        },
        _ => {},
    }
}

proof fn lemma_all_texts(items: Seq<Json>, n: nat)
    requires
        n <= items.len(),
        config::all_texts(items),
    ensures
        profiles::texts_in(items, n).len() == n,
        forall|i: int| 0 <= i < n ==> #[trigger] items[i] == Json::Text(profiles::texts_in(items, n)[i]),
    decreases n,
{
    if n > 0 {
        lemma_all_texts(items, (n - 1) as nat);
        assert(items[n - 1] is Text);
        let less = profiles::texts_in(items, (n - 1) as nat);
        let all = profiles::texts_in(items, n);
        assert forall|i: int| 0 <= i < n implies #[trigger] items[i] == Json::Text(all[i]) by {
            if i < n - 1 {
                assert(all[i] == less[i]);
            }
        }
    }
}

/// Setting one of the settings gives it what the text says, each in its own way, and changes no
/// other; the result is valid.
pub proof fn settings_are_set_one_at_a_time(
    c: ConfigView,
    key: Seq<char>,
    raw: Seq<char>,
    fraction: bool,
)
    ensures
        config::set_of(c, key, raw, fraction) matches Ok(v) ==> {
            &&& same_but(c, v, key)
            &&& set_to(v, key, raw)
            &&& fraction
            &&& v.port > 0 && v.telemetry_port > 0 && v.port != v.telemetry_port
            &&& v.scheduler_max_models > 0 && v.keep_versions > 0
            &&& config::backends().contains(v.backend)
        },
{
    lemma_same_but(c, key, raw);
    lemma_set_to(c, key, raw);
}

proof fn lemma_same_but(c: ConfigView, key: Seq<char>, raw: Seq<char>)
    ensures
        config::changed(c, key, raw) matches Ok(v) ==> same_but(c, v, key),
{
}

#[verifier::rlimit(60)]
#[verifier::spinoff_prover]
proof fn lemma_set_to(c: ConfigView, key: Seq<char>, raw: Seq<char>)
    ensures
        config::changed(c, key, raw) matches Ok(v) ==> set_to(v, key, raw),
{
    lemma_marks();
    lemma_number_up_to(raw, 65535);
    lemma_number_up_to(raw, u64::MAX as nat);
    lemma_number_up_to(raw, usize::MAX as nat);
    lemma_list_of(raw);
}

/// Whether a text is the name of a setting.
pub open spec fn names_setting(key: Seq<char>) -> bool {
    ||| key == "backend"@
    ||| key == "runtime"@
    ||| key == "update_backends"@
    ||| key == "host"@
    ||| key == "port"@
    ||| key == "telemetry_port"@
    ||| key == "api_key"@
    ||| key == "api_keys"@
    ||| key == "models_dirs"@
    ||| key == "default_model"@
    ||| key == "gpu_layers"@
    ||| key == "ctx_size"@
    ||| key == "extra_args"@
    ||| key == "runtime_env_file"@
    ||| key == "auto_update"@
    ||| key == "keep_versions"@
    ||| key == "swap_ttl"@
    ||| key == "advertise_base_models"@
    ||| key == "advertise_profiles"@
    ||| key == "scheduler_enabled"@
    ||| key == "scheduler_max_models"@
    ||| key == "scheduler_pinned_models"@
}

/// A name that is no setting is refused.
pub proof fn unknown_settings_are_refused(c: ConfigView, key: Seq<char>, raw: Seq<char>)
    requires
        !names_setting(key),
    ensures
        config::changed(c, key, raw) == Err::<ConfigView, ConfigError>(ConfigError::UnknownKey),
{
}

/// A setting is set where the text can be read for it: to what it says, and nothing else
/// changes.
#[verifier::rlimit(60)]
#[verifier::spinoff_prover]
pub proof fn settings_that_can_be_read_are_set(
    c: ConfigView,
    key: Seq<char>,
    raw: Seq<char>,
    v: ConfigView,
)
    requires
        names_setting(key),
        key != "gpu_layers"@,
        key == "backend"@ ==> config::backends().contains(raw),
        same_but(c, v, key),
        set_to(v, key, raw),
    ensures
        match config::changed(c, key, raw) {
            Ok(w) => set_to(w, key, raw) && same_but(c, w, key),
            Err(_) => false,
        },
{
    lemma_marks();
    lemma_number_up_to(raw, 65535);
    lemma_number_up_to(raw, u64::MAX as nat);
    lemma_number_up_to(raw, usize::MAX as nat);
    lemma_list_of(raw);
}

/// The settings are valid exactly where the backend is one of those there are, the share of
/// memory is, models may be loaded, both ports are given and differ, and a version is kept.
pub proof fn valid_settings(c: ConfigView, fraction: bool)
    ensures
        config::config_error(c, fraction) is None <==> {
            &&& fraction
            &&& c.port > 0
            &&& c.telemetry_port > 0
            &&& c.port != c.telemetry_port
            &&& c.scheduler_max_models > 0
            &&& c.keep_versions > 0
            &&& exists|i: int|
                0 <= i < config::backends().len() && #[trigger] config::backends()[i] == c.backend
        },
{
    let list = config::backends();
    if list.contains(c.backend) {
        let i = choose|i: int| 0 <= i < list.len() && list[i] == c.backend;
        assert(list[i] == c.backend);
    }
}

/// Whether a list holds the same texts as another, but for one of them.
pub open spec fn holds_same_but(
    old_list: Seq<Seq<char>>,
    new_list: Seq<Seq<char>>,
    item: Seq<char>,
) -> bool {
    forall|s: Seq<char>| s != item ==> (#[trigger] new_list.contains(s) <==> old_list.contains(s))
}

/// A key that is added or generated is there, one that is removed is not, neither in the list
/// nor alone; the other keys and settings stay.
pub proof fn keys_are_added_and_removed(c: ConfigView, action: KeyAction)
    ensures
        ({
            let v = commands::with_key_action(c, action);
            &&& same_but(c, ConfigView { api_key: c.api_key, ..v }, "api_keys"@)
            &&& match action {
                KeyAction::Add(key) => v.api_keys.contains(key@) && v.api_key == c.api_key
                    && holds_same_but(c.api_keys, v.api_keys, key@),
                KeyAction::Generated(key) => v.api_keys.contains(key@) && v.api_key == c.api_key
                    && holds_same_but(c.api_keys, v.api_keys, key@),
                KeyAction::Remove(key) => !v.api_keys.contains(key@) && (c.api_key == key@
                    ==> v.api_key.len() == 0) && (c.api_key != key@ ==> v.api_key == c.api_key)
                    && holds_same_but(c.api_keys, v.api_keys, key@),
            }
        }),
{
    match action {
        KeyAction::Add(key) => {
            lemma_with_text(c.api_keys, key@);
        },
        KeyAction::Generated(key) => {
            lemma_pushed(c.api_keys, key@);
        },
        KeyAction::Remove(key) => {
            lemma_others(c.api_keys, key@);
        },
    }
}

proof fn lemma_pushed(list: Seq<Seq<char>>, item: Seq<char>)
    ensures
        list.push(item).contains(item),
        holds_same_but(list, list.push(item), item),
{
    let all = list.push(item);
    assert(all[list.len() as int] == item);
    assert forall|s: Seq<char>| s != item implies (#[trigger] all.contains(s) <==> list.contains(s)) by {
        if list.contains(s) {
            let i = choose|i: int| 0 <= i < list.len() && list[i] == s;
            assert(all[i] == s);
        }
        if all.contains(s) {
            let i = choose|i: int| 0 <= i < all.len() && all[i] == s;
            assert(list[i] == s);
        }
    }
}

proof fn lemma_with_text(list: Seq<Seq<char>>, item: Seq<char>)
    ensures
        commands::with_text(list, item).contains(item),
        holds_same_but(list, commands::with_text(list, item), item),
{
    lemma_pushed(list, item);
}

proof fn lemma_others(list: Seq<Seq<char>>, item: Seq<char>)
    ensures
        !commands::others(list, item, list.len()).contains(item),
        holds_same_but(list, commands::others(list, item, list.len()), item),
{
    let rest = commands::others(list, item, list.len());
    assert(list.take(list.len() as int) =~= list);
    commands::others_are_the_rest(list, item, list.len(), item);
    assert forall|s: Seq<char>| s != item implies (#[trigger] rest.contains(s) <==> list.contains(s)) by {
        commands::others_are_the_rest(list, item, list.len(), s);
    }
}

/// The scheduler is switched on and off, and models are pinned and unpinned; nothing else
/// changes. A model must be named for that, and there are no other commands.
pub proof fn the_scheduler_is_commanded(c: ConfigView, action: Seq<char>, model: Option<Seq<char>>)
    ensures
        ({
            let out = commands::with_scheduler_action(c, action, model);
            let on = action == "enable"@;
            let off = action == "disable"@;
            let pin = action == "pin"@;
            let unpin = action == "unpin"@;
            match out {
                Ok(v) => {
                    &&& on || off || pin || unpin
                    &&& on ==> v.scheduler_enabled && same_but(c, v, "scheduler_enabled"@)
                    &&& off ==> !v.scheduler_enabled && same_but(c, v, "scheduler_enabled"@)
                    &&& pin ==> model is Some && v.scheduler_pinned_models.contains(model->0)
                        && holds_same_but(
                        c.scheduler_pinned_models,
                        v.scheduler_pinned_models,
                        model->0,
                    ) && same_but(c, v, "scheduler_pinned_models"@)
                    &&& unpin ==> model is Some && !v.scheduler_pinned_models.contains(model->0)
                        && holds_same_but(
                        c.scheduler_pinned_models,
                        v.scheduler_pinned_models,
                        model->0,
                    ) && same_but(c, v, "scheduler_pinned_models"@)
                },
                Err(CommandError::Missing) => (pin || unpin) && model is None,
                Err(CommandError::Unknown) => !on && !off && !pin && !unpin,
            }
        }),
{
    reveal_strlit("enable");
    reveal_strlit("disable");
    reveal_strlit("pin");
    reveal_strlit("unpin");
    assert("enable"@.len() == 6 && "disable"@.len() == 7 && "pin"@.len() == 3 && "unpin"@.len()
        == 5);
    match model {
        Some(m) => {
            lemma_with_text(c.scheduler_pinned_models, m);
            lemma_others(c.scheduler_pinned_models, m);
        },
        None => {},
    }
}

/// A profile that is given to another model belongs to it and is used by it; the model that it
/// belonged to does not use it any more, and the others use what they did. Of what it holds
/// only that changes, but drafting for itself goes where the model cannot.
pub proof fn retargeted_profiles_belong_to_their_model(
    p: ProfilesView,
    name: Seq<char>,
    id: Seq<char>,
    has_mtp: bool,
    other: Seq<char>,
    key: Seq<char>,
)
    requires
        table::ordered(p.profiles),
        table::ordered(p.models),
        table::lookup(p.profiles, name) is Some,
        table::ordered(table::lookup(p.profiles, name)->0),
    ensures
        ({
            let list = table::lookup(p.profiles, name)->0;
            &&& commands::retargeted(p, name, id, has_mtp) matches Some(q) && {
                &&& q.expose == p.expose
                &&& table::lookup(q.models, id) == Some(Json::Text(name))
                &&& profiles::owner_of(q, name) == Some(id)
                &&& other != name ==> table::lookup(q.profiles, other) == table::lookup(
                    p.profiles,
                    other,
                )
                &&& other != id && table::lookup(list, "_model"@) != Some(Json::Text(other))
                    ==> table::lookup(q.models, other) == table::lookup(p.models, other)
                &&& other != id && table::lookup(list, "_model"@) == Some(Json::Text(other))
                    ==> table::lookup(q.models, other) != Some(Json::Text(name))
                &&& table::lookup(q.profiles, name) matches Some(new) && {
                    let drops = !has_mtp && table::lookup(list, "spec-type"@) == Some(
                        Json::Text("draft-mtp"@),
                    ) && table::lookup(list, "spec-draft-model"@) is None;
                    &&& key != "_model"@ && !(drops && (key == "spec-type"@ || key
                        == "spec-draft-n-max"@)) ==> table::lookup(new, key) == table::lookup(list, key)
                    &&& drops ==> table::lookup(new, "spec-type"@) is None && table::lookup(
                        new,
                        "spec-draft-n-max"@,
                    ) is None
                }
            }
        }),
{
    let list = table::lookup(p.profiles, name)->0;
    let moved = table::put(list, "_model"@, Json::Text(id));
    let new = commands::moved_profile(list, id, has_mtp);
    reveal_strlit("_model");
    reveal_strlit("spec-type");
    reveal_strlit("spec-draft-model");
    reveal_strlit("spec-draft-n-max");
    reveal_strlit("draft-mtp");
    assert("_model"@.len() == 6 && "spec-type"@.len() == 9 && "spec-draft-model"@[11] == 'm'
        && "spec-draft-n-max"@[11] == 'n' && "spec-draft-n-max"@.len() == 16
        && "spec-draft-model"@.len() == 16);
    table::put_keeps_order(list, "_model"@, Json::Text(id));
    table::put_then_lookup(list, "_model"@, Json::Text(id), key);
    table::put_then_lookup(list, "_model"@, Json::Text(id), "spec-type"@);
    table::put_then_lookup(list, "_model"@, Json::Text(id), "spec-draft-model"@);
    let once = table::without(moved, "spec-type"@);
    table::without_keeps_order(moved, "spec-type"@);
    table::without_then_lookup(moved, "spec-type"@, key);
    table::without_then_lookup(moved, "spec-type"@, "_model"@);
    table::without_then_lookup(once, "spec-draft-n-max"@, key);
    table::without_then_lookup(once, "spec-draft-n-max"@, "_model"@);
    table::without_then_lookup(once, "spec-draft-n-max"@, "spec-type"@);
    table::put_then_lookup(p.profiles, name, new, other);
    let freed = match commands::model_of(list) {
        Some(owner) if table::lookup(p.models, owner) == Some(Json::Text(name)) => table::without(
            p.models,
            owner,
        ),
        _ => p.models,
    };
    match commands::model_of(list) {
        Some(owner) => {
            table::without_keeps_order(p.models, owner);
            table::without_then_lookup(p.models, owner, other);
        },
        None => {},
    }
    table::put_then_lookup(freed, id, Json::Text(name), other);
}

/// A new profile belongs to its model, has the context that was asked for, one slot, caches of
/// eight bits, flash attention and all layers on the accelerator, and nothing else but the
/// shared cache.
pub proof fn new_profiles_hold_what_is_usual(id: Seq<char>, context: u64, key: Seq<char>)
    ensures
        ({
            let list = commands::new_profile(id, context);
            &&& table::ordered(list)
            &&& table::lookup(list, key) == if key == "_model"@ {
                Some(Json::Text(id))
            } else if key == "ctx-size"@ {
                Some(Json::Unsigned(context))
            } else if key == "parallel"@ {
                Some(Json::Unsigned(1))
            } else if key == "cache-type-k"@ || key == "cache-type-v"@ {
                Some(Json::Text("q8_0"@))
            } else if key == "flash-attn"@ {
                Some(Json::Text("on"@))
            } else if key == "n-gpu-layers"@ {
                Some(Json::Text("all"@))
            } else if key == "_extra_args"@ {
                Some(Json::Array(seq![Json::Text("--kv-unified"@)]))
            } else {
                None
            }
        }),
{
    let z: Members = seq![];
    assert(table::ordered(z));
    let a = table::put(z, "_model"@, Json::Text(id));
    let b = table::put(a, "ctx-size"@, Json::Unsigned(context));
    let c = table::put(b, "parallel"@, Json::Unsigned(1));
    let d = table::put(c, "cache-type-k"@, Json::Text("q8_0"@));
    let e = table::put(d, "cache-type-v"@, Json::Text("q8_0"@));
    let f = table::put(e, "flash-attn"@, Json::Text("on"@));
    let g = table::put(f, "n-gpu-layers"@, Json::Text("all"@));
    let extra = Json::Array(seq![Json::Text("--kv-unified"@)]);
    table::put_keeps_order(z, "_model"@, Json::Text(id));
    table::put_keeps_order(a, "ctx-size"@, Json::Unsigned(context));
    table::put_keeps_order(b, "parallel"@, Json::Unsigned(1));
    table::put_keeps_order(c, "cache-type-k"@, Json::Text("q8_0"@));
    table::put_keeps_order(d, "cache-type-v"@, Json::Text("q8_0"@));
    table::put_keeps_order(e, "flash-attn"@, Json::Text("on"@));
    table::put_keeps_order(f, "n-gpu-layers"@, Json::Text("all"@));
    table::put_keeps_order(g, "_extra_args"@, extra);
    texts::the_first_entry_with_a_key_counts(z, key);
    table::put_then_lookup(z, "_model"@, Json::Text(id), key);
    table::put_then_lookup(a, "ctx-size"@, Json::Unsigned(context), key);
    table::put_then_lookup(b, "parallel"@, Json::Unsigned(1), key);
    table::put_then_lookup(c, "cache-type-k"@, Json::Text("q8_0"@), key);
    table::put_then_lookup(d, "cache-type-v"@, Json::Text("q8_0"@), key);
    table::put_then_lookup(e, "flash-attn"@, Json::Text("on"@), key);
    table::put_then_lookup(f, "n-gpu-layers"@, Json::Text("all"@), key);
    table::put_then_lookup(g, "_extra_args"@, extra, key);
    reveal_strlit("_model");
    reveal_strlit("ctx-size");
    reveal_strlit("parallel");
    reveal_strlit("cache-type-k");
    reveal_strlit("cache-type-v");
    reveal_strlit("flash-attn");
    reveal_strlit("n-gpu-layers");
    reveal_strlit("_extra_args");
    assert("_model"@.len() == 6);
    assert("ctx-size"@.len() == 8 && "ctx-size"@[0] == 'c');
    assert("parallel"@.len() == 8 && "parallel"@[0] == 'p');
    assert("cache-type-k"@.len() == 12 && "cache-type-k"@[11] == 'k');
    assert("cache-type-v"@.len() == 12 && "cache-type-v"@[11] == 'v');
    assert("flash-attn"@.len() == 10);
    assert("n-gpu-layers"@.len() == 12 && "n-gpu-layers"@[11] == 's');
    assert("_extra_args"@.len() == 11);
}

/// A new profile starts with the longest context of the model, or of the settings where the
/// model states none, but with no more than 32768.
pub proof fn new_contexts_are_limited(limit: u64, setting: u64)
    ensures
        commands::starting_context(Some(limit), setting) <= limit,
        commands::starting_context(Some(limit), setting) <= 32768,
        limit <= 32768 ==> commands::starting_context(Some(limit), setting) == limit,
        limit > 32768 ==> commands::starting_context(Some(limit), setting) == 32768,
        setting <= 32768 ==> commands::starting_context(None, setting) == setting,
        setting > 32768 ==> commands::starting_context(None, setting) == 32768,
{
}

/// A model is held to fit with the context of the last `--ctx-size`, or of the settings, but
/// with no more than it was trained for.
pub proof fn contexts_fit_what_was_trained(
    args: Seq<Seq<char>>,
    setting: u64,
    trained: Option<u64>,
    i: int,
)
    ensures
        ({
            let flags = seq!["--"@ + "ctx-size"@];
            let n = commands::fit_context_of(args, setting, trained);
            &&& trained matches Some(t) ==> n <= t
            &&& estimates::not_given(args, flags) ==> n == setting || trained == Some(n)
            &&& estimates::not_given(args, flags) ==> n <= setting
            &&& forall|m: u64|
                estimates::last_at(args, flags, i) && args[i + 1] == #[trigger] text::decimal_of(m as nat)
                    ==> n <= m && (n == m || trained == Some(n))
        }),
{
    let flags = seq!["--"@ + "ctx-size"@];
    estimates::the_last_flag_counts(args, flags);
    let n = commands::fit_context_of(args, setting, trained);
    assert forall|m: u64|
        estimates::last_at(args, flags, i) && args[i + 1] == #[trigger] text::decimal_of(m as nat) implies n
        <= m && (n == m || trained == Some(n)) by {
        texts::decimals_read_back(m);
    }
}

/// The artifact that is fetched is the first of the quantization that is asked for, capital
/// letters aside; without one the first that is recommended, or else the first of all.
pub proof fn artifacts_are_chosen(list: Seq<ArtifactView>, label: Seq<char>)
    ensures
        match commands::chosen_artifact(list, Some(label)) {
            Some(i) => 0 <= i < list.len() && text::lower_of(list[i].label) == text::lower_of(label)
                && forall|j: int|
                0 <= j < i ==> text::lower_of((#[trigger] list[j]).label) != text::lower_of(label),
            None => forall|j: int|
                0 <= j < list.len() ==> text::lower_of((#[trigger] list[j]).label)
                    != text::lower_of(label),
        },
        match commands::chosen_artifact(list, None) {
            Some(i) => {
                ||| 0 <= i < list.len() && list[i].recommended && forall|j: int|
                    0 <= j < i ==> !(#[trigger] list[j]).recommended
                ||| i == 0 && list.len() > 0 && forall|j: int|
                    0 <= j < list.len() ==> !(#[trigger] list[j]).recommended
            },
            None => list.len() == 0,
        },
{
    let other = commands::other_quant(label);
    text::lemma_run(list, other);
    let at = text::run(list, other) as int;
    assert forall|j: int| 0 <= j < at implies text::lower_of((#[trigger] list[j]).label)
        != text::lower_of(label) by {
        assert(other(list[j]));
    }
    if at < list.len() {
        assert(!other(list[at]));
    }
    let plain = commands::not_recommended();
    text::lemma_run(list, plain);
    let first = text::run(list, plain) as int;
    assert forall|j: int| 0 <= j < first implies !(#[trigger] list[j]).recommended by {
        assert(plain(list[j]));
    }
    if first < list.len() {
        assert(!plain(list[first]));
    }
}

/// What the name of a file for a backend holds.
pub open spec fn piece_for(backend: Seq<char>) -> Seq<char> {
    if backend == "cpu"@ {
        "bin-ubuntu-x64.tar.gz"@
    } else {
        "bin-ubuntu-"@ + backend
    }
}

/// Whether a name is that of the file for a backend.
pub open spec fn file_for(name: Seq<char>, backend: Seq<char>) -> bool {
    &&& exists|i: int| #[trigger] text::at_position(name, piece_for(backend), i)
    &&& "x64.tar.gz"@.is_suffix_of(name)
}

/// The file of a release for a backend is the first whose name is that of one.
pub proof fn the_first_file_for_a_backend_is_taken(names: Seq<Seq<char>>, backend: Seq<char>)
    ensures
        match update::llama_asset_of(names, backend) {
            Some(i) => 0 <= i < names.len() && file_for(names[i], backend) && forall|j: int|
                0 <= j < i ==> !file_for(#[trigger] names[j], backend),
            None => forall|j: int| 0 <= j < names.len() ==> !file_for(#[trigger] names[j], backend),
        },
{
    assert(piece_for(backend) == update::marker_of(backend));
    let other = update::other_asset(backend);
    text::lemma_run(names, other);
    let at = text::run(names, other) as int;
    assert forall|j: int| 0 <= j < at implies !file_for(#[trigger] names[j], backend) by {
        assert(other(names[j]));
    }
    if at < names.len() {
        assert(!other(names[at]));
        assert(file_for(names[at], backend));
    }
}

/// Whether a version is newer than another of its backend, or as new and listed before it; one
/// whose time is not known is the oldest.
pub open spec fn newer(list: Seq<VersionView>, j: int, i: int) -> bool {
    &&& list[j].backend == list[i].backend
    &&& match (list[j].modified, list[i].modified) {
        (Some(x), Some(y)) => x > y || (x == y && j < i),
        (Some(_), None) => true,
        (None, Some(_)) => false,
        (None, None) => j < i,
    }
}

proof fn lemma_rank(list: Seq<VersionView>, i: int, n: nat)
    requires
        n <= list.len(),
    ensures
        update::rank(list, i, n) == texts::sum(
            Seq::new(
                n,
                |j: int|
                    if newer(list, j, i) {
                        1int
                    } else {
                        0
                    },
            ),
        ),
    decreases n,
{
    let all = Seq::new(
        n,
        |j: int|
            if newer(list, j, i) {
                1int
            } else {
                0
            },
    );
    if n > 0 {
        lemma_rank(list, i, (n - 1) as nat);
        let less = Seq::new(
            (n - 1) as nat,
            |j: int|
                if newer(list, j, i) {
                    1int
                } else {
                    0
                },
        );
        let last = if newer(list, n - 1, i) {
            1int
        } else {
            0
        };
        texts::lemma_sum_push(less, last);
        assert(all =~= less.push(last));
    }
}

/// A version goes exactly where at least as many of its backend are newer as are kept, one at
/// least, and it is neither pinned nor in use; those that go are told in their order.
pub proof fn old_versions_go(list: Seq<VersionView>, keep: nat, n: nat) -> (at: Seq<int>)
    requires
        n <= list.len(),
        list.len() <= usize::MAX,
    ensures
        at.len() == update::old_places(list, keep, n).len(),
        forall|k: int|
            0 <= k < at.len() ==> update::old_places(list, keep, n)[k] == #[trigger] at[k] && 0
                <= at[k] < n && goes(list, at[k], keep),
        forall|k: int, l: int| 0 <= k < l < at.len() ==> #[trigger] at[k] < #[trigger] at[l],
        forall|i: int| 0 <= i < n && #[trigger] goes(list, i, keep) ==> at.contains(i),
    decreases n,
{
    if n == 0 {
        seq![]
    } else {
        let before = old_versions_go(list, keep, (n - 1) as nat);
        let less = update::old_places(list, keep, (n - 1) as nat);
        let all = update::old_places(list, keep, n);
        lemma_rank(list, n - 1, list.len());
        assert(update::is_old(list, n - 1, keep) <==> goes(list, n - 1, keep));
        if goes(list, n - 1, keep) {
            let at = before.push(n - 1);
            assert forall|k: int| 0 <= k < at.len() implies all[k] == #[trigger] at[k] && 0 <= at[k] < n
                && goes(list, at[k], keep) by {
                if k < before.len() {
                    assert(at[k] == before[k]);
                    assert(all[k] == less[k]);
                }
            }
            assert forall|i: int| 0 <= i < n && #[trigger] goes(list, i, keep) implies at.contains(i) by {
                if i < n - 1 {
                    assert(before.contains(i));
                    let k = choose|k: int| 0 <= k < before.len() && before[k] == i;
                    assert(at[k] == i);
                } else {
                    assert(at[before.len() as int] == i);
                }
            }
            at
        } else {
            before
        }
    }
}

/// Whether a version goes.
pub open spec fn goes(list: Seq<VersionView>, i: int, keep: nat) -> bool {
    let count = texts::sum(
        Seq::new(
            list.len(),
            |j: int|
                if newer(list, j, i) {
                    1int
                } else {
                    0
                },
        ),
    );
    !list[i].pinned && !list[i].active && count >= 1 && count >= keep
}

} // verus!
