//! Laws of the keys that change a profile or a setting at once: each changes its own value only.
use vstd::prelude::*;

use crate::config::ConfigView;
use crate::editor;
use crate::json::Json;
use crate::profiles::Members;
use crate::table;
use crate::ui;
use crate::ui::SettingRequest;

verus! {

/// Whether two profiles differ in nothing but what stands under one key, where the second has
/// this value.
pub open spec fn changed(
    old_list: Members,
    outcome: Option<Members>,
    key: Seq<char>,
    v: Json,
    other: Seq<char>,
) -> bool {
    &&& outcome matches Some(new_list)
    &&& table::lookup(new_list, key) == Some(v)
    &&& other != key ==> table::lookup(new_list, other) == table::lookup(old_list, other)
    &&& table::ordered(new_list)
}

proof fn lemma_changed(list: Members, key: Seq<char>, v: Json, other: Seq<char>)
    requires
        table::ordered(list),
    ensures
        changed(list, Some(table::put(list, key, v)), key, v, other),
{
    table::put_then_lookup(list, key, v, other);
    table::put_keeps_order(list, key, v);
}

/// Plus and minus change the context by the step and nothing else; where no context is told, it
/// is 4096.
pub proof fn plus_and_minus_change_the_context(list: Members, n: u64, step: u64, other: Seq<char>)
    requires
        table::ordered(list),
        table::lookup(list, "ctx-size"@) == Some(Json::Unsigned(n)) || table::lookup(list, "ctx-size"@)
            is None && n == 4096,
        1024 + step <= n,
        n + step <= i64::MAX,
    ensures
        changed(
            list,
            ui::adjusted(list, '+', step),
            "ctx-size"@,
            Json::Unsigned((n + step) as u64),
            other,
        ),
        changed(
            list,
            ui::adjusted(list, '-', step),
            "ctx-size"@,
            Json::Unsigned((n - step) as u64),
            other,
        ),
{
    lemma_changed(list, "ctx-size"@, Json::Unsigned((n + step) as u64), other);
    lemma_changed(list, "ctx-size"@, Json::Unsigned((n - step) as u64), other);
}

/// The brackets change the slots by one and nothing else; where none are told, there is one.
pub proof fn brackets_change_the_slots(list: Members, n: u64, step: u64, other: Seq<char>)
    requires
        table::ordered(list),
        table::lookup(list, "parallel"@) == Some(Json::Unsigned(n)) || table::lookup(list, "parallel"@)
            is None && n == 1,
        1 <= n <= 32,
    ensures
        changed(
            list,
            ui::adjusted(list, ']', step),
            "parallel"@,
            Json::Unsigned(if n == 32 { 32 } else { (n + 1) as u64 }),
            other,
        ),
        changed(
            list,
            ui::adjusted(list, '[', step),
            "parallel"@,
            Json::Unsigned(if n == 1 { 1 } else { (n - 1) as u64 }),
            other,
        ),
{
    lemma_changed(list, "parallel"@, Json::Unsigned(if n == 32 { 32 } else { (n + 1) as u64 }), other);
    lemma_changed(list, "parallel"@, Json::Unsigned(if n == 1 { 1 } else { (n - 1) as u64 }), other);
}

/// Splitting goes from layers to tensors, to rows, and back to layers, with which it starts.
pub proof fn splits_go_round(list: Members, step: u64, other: Seq<char>)
    requires
        table::ordered(list),
    ensures
        ({
            let told = table::lookup(list, "split-mode"@);
            let next = ui::adjusted(list, 't', step);
            &&& (told is None || told == Some(Json::Text("layer"@))) ==> changed(
                list,
                next,
                "split-mode"@,
                Json::Text("tensor"@),
                other,
            )
            &&& told == Some(Json::Text("tensor"@)) ==> changed(
                list,
                next,
                "split-mode"@,
                Json::Text("row"@),
                other,
            )
            &&& told == Some(Json::Text("row"@)) ==> changed(
                list,
                next,
                "split-mode"@,
                Json::Text("layer"@),
                other,
            )
        }),
{
    reveal_strlit("layer");
    reveal_strlit("tensor");
    reveal_strlit("row");
    assert("layer"@.len() == 5 && "tensor"@.len() == 6 && "row"@.len() == 3);
    lemma_changed(list, "split-mode"@, Json::Text("tensor"@), other);
    lemma_changed(list, "split-mode"@, Json::Text("row"@), other);
    lemma_changed(list, "split-mode"@, Json::Text("layer"@), other);
}

/// Attention is switched off where it is on, or where nothing is told of it, and else on.
pub proof fn attention_is_switched(list: Members, step: u64, other: Seq<char>)
    requires
        table::ordered(list),
    ensures
        ({
            let told = table::lookup(list, "flash-attn"@);
            let next = ui::adjusted(list, 'f', step);
            &&& (told is None || told == Some(Json::Text("on"@))) ==> changed(
                list,
                next,
                "flash-attn"@,
                Json::Text("off"@),
                other,
            )
            &&& told == Some(Json::Text("off"@)) ==> changed(
                list,
                next,
                "flash-attn"@,
                Json::Text("on"@),
                other,
            )
        }),
{
    reveal_strlit("on");
    reveal_strlit("off");
    assert("on"@.len() == 2 && "off"@.len() == 3);
    lemma_changed(list, "flash-attn"@, Json::Text("on"@), other);
    lemma_changed(list, "flash-attn"@, Json::Text("off"@), other);
}

/// Both caches get the same type, the one behind that of the keys: of 16 bits, of 8, of 4, and
/// again of 16, with which it starts.
pub proof fn caches_change_their_type_together(list: Members, step: u64, other: Seq<char>)
    requires
        table::ordered(list),
        other != "cache-type-k"@,
        other != "cache-type-v"@,
    ensures
        ({
            let told = table::lookup(list, "cache-type-k"@);
            ui::adjusted(list, 'k', step) matches Some(l) && {
                let k = table::lookup(l, "cache-type-k"@);
                &&& table::lookup(l, "cache-type-v"@) == k
                &&& table::lookup(l, other) == table::lookup(list, other)
                &&& (told is None || told == Some(Json::Text("f16"@))) ==> k == Some(Json::Text("q8_0"@))
                &&& told == Some(Json::Text("q8_0"@)) ==> k == Some(Json::Text("q4_0"@))
                &&& told == Some(Json::Text("q4_0"@)) ==> k == Some(Json::Text("f16"@))
            }
        }),
{
    reveal_strlit("f16");
    reveal_strlit("q8_0");
    reveal_strlit("q4_0");
    reveal_strlit("cache-type-k");
    reveal_strlit("cache-type-v");
    assert("f16"@.len() == 3 && "q8_0"@.len() == 4 && "q4_0"@.len() == 4);
    assert("q8_0"@[1] == '8' && "q4_0"@[1] == '4');
    assert("cache-type-k"@[11] == 'k' && "cache-type-v"@[11] == 'v');
    let current = editor::text_under(list, "cache-type-k"@, "f16"@);
    let next = Json::Text(ui::next_of_three(current, "f16"@, "q8_0"@, "q4_0"@));
    let once = table::put(list, "cache-type-k"@, next);
    lemma_changed(list, "cache-type-k"@, next, other);
    lemma_changed(once, "cache-type-v"@, next, other);
    lemma_changed(once, "cache-type-v"@, next, "cache-type-k"@);
}

/// A setting that is switched is saved, and switched again it is what it was; the other settings
/// stay. The settings that are picked, typed or set up elsewhere stay what they are.
pub proof fn settings_are_switched_back(c: ConfigView, up: bool, step: u64)
    ensures
        forall|at: usize|
            (at == 6 || at == 9 || at == 10) ==> {
                &&& (#[trigger] ui::toggled(c, at, up, step)) matches Some((d, r)) && r
                    == SettingRequest::Save && d != c && ui::toggled(d, at, up, step) == Some((c, r))
            },
        ui::toggled(c, 6, up, step) matches Some((d, _)) && d == (ConfigView {
            scheduler_enabled: d.scheduler_enabled,
            ..c
        }),
        ui::toggled(c, 9, up, step) matches Some((d, _)) && d == (ConfigView {
            advertise_base_models: d.advertise_base_models,
            ..c
        }),
        ui::toggled(c, 10, up, step) matches Some((d, _)) && d == (ConfigView {
            advertise_profiles: d.advertise_profiles,
            ..c
        }),
        c.host == "127.0.0.1"@ || c.host == "0.0.0.0"@ ==> {
            &&& ui::toggled(c, 0, up, step) matches Some((d, r)) && r == SettingRequest::Save && d.host
                != c.host && ui::toggled(d, 0, up, step) == Some((c, r))
        },
        forall|at: usize|
            at != 0 && at != 4 && at != 5 && at != 6 && at != 9 && at != 10 ==> ((
            #[trigger] ui::toggled(c, at, up, step)) matches Some((d, r)) && d == c && r
                != SettingRequest::Save),
{
    reveal_strlit("127.0.0.1");
    reveal_strlit("0.0.0.0");
    assert("127.0.0.1"@.len() == 9 && "0.0.0.0"@.len() == 7);
    assert forall|at: usize| (at == 6 || at == 9 || at == 10) implies {
        &&& (#[trigger] ui::toggled(c, at, up, step)) matches Some((d, r)) && r == SettingRequest::Save
            && d != c && ui::toggled(d, at, up, step) == Some((c, r))
    } by {
        let d = ui::toggled(c, at, up, step)->0;
        if at == 6 {
            assert(d.0.scheduler_enabled != c.scheduler_enabled);
        } else if at == 9 {
            assert(d.0.advertise_base_models != c.advertise_base_models);
        } else {
            assert(d.0.advertise_profiles != c.advertise_profiles);
        }
    }
}

} // verus!
