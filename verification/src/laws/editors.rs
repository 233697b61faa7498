//! Laws of the editor: which key of a profile holds which setting.
use vstd::prelude::*;

use crate::editor;
use crate::editor::SettingsView;
use crate::json::Json;
use crate::laws::arguments;
use crate::laws::texts;
use crate::profiles::Members;
use crate::table;
use crate::text;

verus! {

/// Whether a text is the one under a key of a profile, or the usual one where none is there.
pub open spec fn text_shown(list: Members, key: Seq<char>, s: Seq<char>, usual: Seq<char>) -> bool {
    match table::lookup(list, key) {
        Some(Json::Text(t)) => s == t,
        _ => s == usual,
    }
}

/// Whether a number is the one under a key of a profile, also where its digits stand there, or
/// the usual one where none does.
pub open spec fn number_shown(list: Members, key: Seq<char>, n: u64, usual: u64) -> bool {
    match table::lookup(list, key) {
        Some(Json::Unsigned(m)) => n == m,
        Some(Json::Text(s)) => {
            &&& forall|m: u64| s == #[trigger] text::decimal_of(m as nat) ==> n == m
            &&& (forall|i: int| 0 <= i < s.len() ==> !('0' <= #[trigger] s[i] && s[i] <= '9')) ==> n
                == usual
        },
        _ => n == usual,
    }
}

/// Whether a text is what the value under a key is written as, empty where there is none.
pub open spec fn value_shown(list: Members, key: Seq<char>, s: Seq<char>) -> bool {
    match table::lookup(list, key) {
        Some(v) => arguments::written_as(v, s),
        None => s.len() == 0,
    }
}

proof fn lemma_number(list: Members, key: Seq<char>, usual: u64)
    ensures
        number_shown(list, key, editor::number_under(list, key, usual), usual),
{
    match table::lookup(list, key) {
        Some(Json::Text(s)) => {
            let n = editor::number_under(list, key, usual);
            assert forall|m: u64| s == #[trigger] text::decimal_of(m as nat) implies n == m by {
                texts::decimals_read_back(m);
            }
            texts::numbers_are_read_by_their_worth(s);
            if forall|i: int| 0 <= i < s.len() ==> !('0' <= #[trigger] s[i] && s[i] <= '9') {
                if text::u64_of(s) is Some {
                    if s[0] == '+' {
                        let digits = s.skip(1);
                        assert('0' <= digits[0] && digits[0] <= '9');
                        assert(digits[0] == s[1]);
                    } else {
                        assert('0' <= s[0] && s[0] <= '9');
                    }
                }
            }
        },
        _ => {},
    }
}

proof fn lemma_value(list: Members, key: Seq<char>)
    ensures
        value_shown(list, key, editor::shown_under(list, key)),
{
    reveal_strlit("");
    match table::lookup(list, key) {
        Some(v) => {
            arguments::lemma_displayed(v);
        },
        None => {},
    }
}

/// The texts that the editor shows stand under their own keys of the profile, or are the usual
/// ones.
pub proof fn texts_are_shown_from_their_own_keys(list: Members)
    ensures
        ({
            let s = editor::settings_in(list);
            &&& text_shown(list, "cache-type-k"@, s.cache_k, "f16"@)
            &&& text_shown(list, "cache-type-v"@, s.cache_v, "f16"@)
            &&& text_shown(list, "flash-attn"@, s.flash, "on"@)
            &&& text_shown(list, "n-gpu-layers"@, s.gpu_layers, "all"@)
            &&& text_shown(list, "split-mode"@, s.split, "layer"@)
            &&& text_shown(list, "tensor-split"@, s.tensor_split, "1,1,1,1"@)
            &&& text_shown(list, "spec-type"@, s.spec_type, "none"@)
            &&& text_shown(list, "spec-draft-model"@, s.spec_draft_model, ""@)
            &&& text_shown(list, "spec-draft-ngl"@, s.spec_draft_ngl, "99"@)
            &&& text_shown(list, "fit"@, s.fit, "on"@)
            &&& text_shown(list, "load-mode"@, s.load_mode, ""@)
            &&& text_shown(list, "numa"@, s.numa, "off"@)
            &&& text_shown(list, "override-tensor"@, s.override_tensor, ""@)
            &&& text_shown(list, "rope-freq-base"@, s.rope_base, ""@)
            &&& text_shown(list, "rope-freq-scale"@, s.rope_scale, ""@)
            &&& text_shown(list, "seed"@, s.seed, ""@)
            &&& text_shown(list, "reasoning"@, s.reasoning, ""@)
            &&& text_shown(list, "chat-template"@, s.chat_template, ""@)
            &&& text_shown(list, "chat-template-file"@, s.chat_template_file, ""@)
            &&& text_shown(list, "chat-template-kwargs"@, s.chat_template_kwargs, ""@)
        }),
{
}

/// The numbers that the editor shows stand under their own keys of the profile, or are the usual
/// ones; a part of a batch is no longer than the batch.
pub proof fn numbers_are_shown_from_their_own_keys(list: Members)
    ensures
        ({
            let s = editor::settings_in(list);
            &&& number_shown(list, "ctx-size"@, s.ctx, 4096)
            &&& number_shown(list, "parallel"@, s.parallel, 1)
            &&& number_shown(list, "batch-size"@, s.batch, 2048)
            &&& number_shown(list, "threads"@, s.threads, 32)
            &&& number_shown(list, "threads-batch"@, s.threads_batch, 32)
            &&& number_shown(list, "spec-draft-n-max"@, s.spec_draft_nmax, 0)
            &&& number_shown(list, "fit-target"@, s.fit_target, 512)
            &&& number_shown(list, "n-cpu-moe"@, s.n_cpu_moe, 0)
            &&& number_shown(list, "spec-draft-n-cpu-moe"@, s.spec_draft_n_cpu_moe, 0)
            &&& s.ubatch <= s.batch
            &&& s.ubatch == s.batch || number_shown(list, "ubatch-size"@, s.ubatch, 512)
            &&& exists|u: u64| #[trigger]
                number_shown(list, "ubatch-size"@, u, 512) && (u <= s.batch ==> s.ubatch == u)
        }),
{
    lemma_number(list, "ctx-size"@, 4096);
    lemma_number(list, "parallel"@, 1);
    lemma_number(list, "batch-size"@, 2048);
    lemma_number(list, "threads"@, 32);
    lemma_number(list, "threads-batch"@, 32);
    lemma_number(list, "spec-draft-n-max"@, 0);
    lemma_number(list, "fit-target"@, 512);
    lemma_number(list, "n-cpu-moe"@, 0);
    lemma_number(list, "spec-draft-n-cpu-moe"@, 0);
    lemma_number(list, "ubatch-size"@, 512);
    let u = editor::number_under(list, "ubatch-size"@, 512);
    assert(number_shown(list, "ubatch-size"@, u, 512));
}

/// What the editor shows of the sampling is what stands under its own keys, as it is written.
pub proof fn sampling_is_shown_as_it_is_written(list: Members)
    ensures
        ({
            let s = editor::settings_in(list);
            &&& value_shown(list, "temperature"@, s.temperature)
            &&& value_shown(list, "top-k"@, s.top_k)
            &&& value_shown(list, "top-p"@, s.top_p)
            &&& value_shown(list, "min-p"@, s.min_p)
            &&& value_shown(list, "repeat-penalty"@, s.repeat_penalty)
            &&& value_shown(list, "presence-penalty"@, s.presence_penalty)
            &&& value_shown(list, "frequency-penalty"@, s.frequency_penalty)
        }),
{
    lemma_value(list, "temperature"@);
    lemma_value(list, "top-k"@);
    lemma_value(list, "top-p"@);
    lemma_value(list, "min-p"@);
    lemma_value(list, "repeat-penalty"@);
    lemma_value(list, "presence-penalty"@);
    lemma_value(list, "frequency-penalty"@);
}

/// Whether one of the added arguments is a flag.
pub open spec fn adds(list: Members, flag: Seq<char>) -> bool {
    table::lookup(list, "_extra_args"@) matches Some(Json::Array(items)) && exists|i: int|
        0 <= i < items.len() && #[trigger] items[i] == Json::Text(flag)
}

proof fn lemma_adds(list: Members, flag: Seq<char>)
    ensures
        editor::extra_under(list).contains(flag) <==> adds(list, flag),
{
    match table::lookup(list, "_extra_args"@) {
        Some(Json::Array(items)) => {
            let at = arguments::texts_are_picked_in_order(items);
            let flags = editor::extra_under(list);
            if flags.contains(flag) {
                let k = choose|k: int| 0 <= k < flags.len() && flags[k] == flag;
                assert(items[at[k]] == Json::Text(flag));
            }
            if adds(list, flag) {
                let i = choose|i: int| 0 <= i < items.len() && #[trigger] items[i] == Json::Text(flag);
                assert(at.contains(i));
                let k = choose|k: int| 0 <= k < at.len() && at[k] == i;
                assert(items[at[k]] == Json::Text(flags[k]));
                assert(flags[k] == flag);
            }
        },
        _ => {},
    }
}

/// The switches that the editor shows: a shared cache and the template language are on where a
/// flag among the added ones says so, off where one says that, and else unless the profile
/// switches them off; the others are on where the profile says so.
pub proof fn switches_are_shown_as_they_are_set(list: Members)
    ensures
        ({
            let s = editor::settings_in(list);
            &&& adds(list, "--kv-unified"@) ==> s.kv_unified
            &&& !adds(list, "--kv-unified"@) && adds(list, "--no-kv-unified"@) ==> !s.kv_unified
            &&& !adds(list, "--kv-unified"@) && !adds(list, "--no-kv-unified"@) ==> s.kv_unified == (
            table::lookup(list, "no-kv-unified"@) is None)
            &&& adds(list, "--jinja"@) ==> s.jinja
            &&& !adds(list, "--jinja"@) && adds(list, "--no-jinja"@) ==> !s.jinja
            &&& !adds(list, "--jinja"@) && !adds(list, "--no-jinja"@) ==> s.jinja == (table::lookup(
                list,
                "no-jinja"@,
            ) is None)
            &&& s.mlock == (table::lookup(list, "mlock"@) == Some(Json::Bool(true)))
            &&& s.direct_io == (table::lookup(list, "direct-io"@) == Some(Json::Bool(true)))
            &&& s.kv_offload == (table::lookup(list, "no-kv-offload"@) is None)
        }),
{
    lemma_adds(list, "--kv-unified"@);
    lemma_adds(list, "--no-kv-unified"@);
    lemma_adds(list, "--jinja"@);
    lemma_adds(list, "--no-jinja"@);
}

/// What the editor puts into a profile stands under the key of each setting, and under no key
/// where the setting is the usual one that is left out.
pub proof fn keys_up_to_kv_offload_hold_their_settings(list: Members, s: SettingsView, owner: Seq<char>)
    requires
        table::ordered(list),
    ensures
        ({
            let new = editor::profile_with(list, s, owner);
            &&& s.extra.len() == 0 ==> table::lookup(new, "_extra_args"@) is None
            &&& s.extra.len() > 0 ==> table::lookup(new, "_extra_args"@) == Some(
                Json::Array(Seq::new(s.extra.len(), |i: int| Json::Text(s.extra[i]))),
            )
            &&& table::lookup(new, "_model"@) == Some(Json::Text(owner))
            &&& table::lookup(new, "batch-size"@) == Some(Json::Unsigned(s.batch))
            &&& table::lookup(new, "cache-type-k"@) == Some(Json::Text(s.cache_k))
            &&& table::lookup(new, "cache-type-v"@) == Some(Json::Text(s.cache_v))
            &&& s.chat_template_file.len() == 0 && s.chat_template.len() > 0 ==> table::lookup(new, "chat-template"@) == Some(Json::Text(s.chat_template))
            &&& !(s.chat_template_file.len() == 0 && s.chat_template.len() > 0) ==> table::lookup(new, "chat-template"@) is None
            &&& s.chat_template_file.len() > 0 ==> table::lookup(new, "chat-template-file"@) == Some(Json::Text(s.chat_template_file))
            &&& !(s.chat_template_file.len() > 0) ==> table::lookup(new, "chat-template-file"@) is None
            &&& s.chat_template_kwargs.len() > 0 ==> table::lookup(new, "chat-template-kwargs"@) == Some(Json::Text(s.chat_template_kwargs))
            &&& !(s.chat_template_kwargs.len() > 0) ==> table::lookup(new, "chat-template-kwargs"@) is None
            &&& table::lookup(new, "ctx-size"@) == Some(Json::Unsigned(s.ctx))
            &&& s.direct_io ==> table::lookup(new, "direct-io"@) == Some(Json::Bool(true))
            &&& !s.direct_io ==> table::lookup(new, "direct-io"@) is None
            &&& s.fit == "off"@ ==> table::lookup(new, "fit"@) == Some(Json::Text("off"@))
            &&& !(s.fit == "off"@) ==> table::lookup(new, "fit"@) is None
            &&& s.fit != "off"@ ==> table::lookup(new, "fit-target"@) == Some(Json::Unsigned(s.fit_target))
            &&& !(s.fit != "off"@) ==> table::lookup(new, "fit-target"@) is None
            &&& table::lookup(new, "flash-attn"@) == Some(Json::Text(s.flash))
            &&& s.frequency_penalty.len() > 0 ==> table::lookup(new, "frequency-penalty"@) == Some(Json::Text(s.frequency_penalty))
            &&& !(s.frequency_penalty.len() > 0) ==> table::lookup(new, "frequency-penalty"@) is None
            &&& s.jinja ==> table::lookup(new, "jinja"@) == Some(Json::Bool(true))
            &&& !s.jinja ==> table::lookup(new, "jinja"@) is None
            &&& table::lookup(new, "kv-offload"@) is None
        }),
{
    let values = editor::managed(s, owner);
    assert(values[0].0 == "_extra_args"@);
    editor::managed_keys_are_set(list, s, owner, 0);
    assert(values[1].0 == "_model"@);
    editor::managed_keys_are_set(list, s, owner, 1);
    assert(values[2].0 == "batch-size"@);
    editor::managed_keys_are_set(list, s, owner, 2);
    assert(values[3].0 == "cache-type-k"@);
    editor::managed_keys_are_set(list, s, owner, 3);
    assert(values[4].0 == "cache-type-v"@);
    editor::managed_keys_are_set(list, s, owner, 4);
    assert(values[5].0 == "chat-template"@);
    editor::managed_keys_are_set(list, s, owner, 5);
    assert(values[6].0 == "chat-template-file"@);
    editor::managed_keys_are_set(list, s, owner, 6);
    assert(values[7].0 == "chat-template-kwargs"@);
    editor::managed_keys_are_set(list, s, owner, 7);
    assert(values[8].0 == "ctx-size"@);
    editor::managed_keys_are_set(list, s, owner, 8);
    assert(values[9].0 == "direct-io"@);
    editor::managed_keys_are_set(list, s, owner, 9);
    assert(values[10].0 == "fit"@);
    editor::managed_keys_are_set(list, s, owner, 10);
    assert(values[11].0 == "fit-target"@);
    editor::managed_keys_are_set(list, s, owner, 11);
    assert(values[12].0 == "flash-attn"@);
    editor::managed_keys_are_set(list, s, owner, 12);
    assert(values[13].0 == "frequency-penalty"@);
    editor::managed_keys_are_set(list, s, owner, 13);
    assert(values[14].0 == "jinja"@);
    editor::managed_keys_are_set(list, s, owner, 14);
    assert(values[15].0 == "kv-offload"@);
    editor::managed_keys_are_set(list, s, owner, 15);
    if s.extra.len() > 0 {
        let own = Seq::new(s.extra.len(), |i: int| Json::Text(s.extra[i]));
        assert(own =~= s.extra.map_values(|t: Seq<char>| Json::Text(t)));
    }
}

/// What the editor puts into a profile stands under the key of each setting, and under no key
/// where the setting is the usual one that is left out.
pub proof fn keys_up_to_rope_freq_base_hold_their_settings(list: Members, s: SettingsView, owner: Seq<char>)
    requires
        table::ordered(list),
    ensures
        ({
            let new = editor::profile_with(list, s, owner);
            &&& s.kv_unified ==> table::lookup(new, "kv-unified"@) == Some(Json::Bool(true))
            &&& !s.kv_unified ==> table::lookup(new, "kv-unified"@) is None
            &&& s.load_mode.len() > 0 ==> table::lookup(new, "load-mode"@) == Some(Json::Text(s.load_mode))
            &&& !(s.load_mode.len() > 0) ==> table::lookup(new, "load-mode"@) is None
            &&& s.min_p.len() > 0 ==> table::lookup(new, "min-p"@) == Some(Json::Text(s.min_p))
            &&& !(s.min_p.len() > 0) ==> table::lookup(new, "min-p"@) is None
            &&& s.mlock ==> table::lookup(new, "mlock"@) == Some(Json::Bool(true))
            &&& !s.mlock ==> table::lookup(new, "mlock"@) is None
            &&& s.n_cpu_moe != 0 ==> table::lookup(new, "n-cpu-moe"@) == Some(Json::Unsigned(s.n_cpu_moe))
            &&& !(s.n_cpu_moe != 0) ==> table::lookup(new, "n-cpu-moe"@) is None
            &&& table::lookup(new, "n-gpu-layers"@) == Some(Json::Text(s.gpu_layers))
            &&& !s.jinja ==> table::lookup(new, "no-jinja"@) == Some(Json::Bool(true))
            &&& s.jinja ==> table::lookup(new, "no-jinja"@) is None
            &&& !s.kv_offload ==> table::lookup(new, "no-kv-offload"@) == Some(Json::Bool(true))
            &&& s.kv_offload ==> table::lookup(new, "no-kv-offload"@) is None
            &&& !s.kv_unified ==> table::lookup(new, "no-kv-unified"@) == Some(Json::Bool(true))
            &&& s.kv_unified ==> table::lookup(new, "no-kv-unified"@) is None
            &&& s.numa != "off"@ ==> table::lookup(new, "numa"@) == Some(Json::Text(s.numa))
            &&& !(s.numa != "off"@) ==> table::lookup(new, "numa"@) is None
            &&& s.override_tensor.len() > 0 ==> table::lookup(new, "override-tensor"@) == Some(Json::Text(s.override_tensor))
            &&& !(s.override_tensor.len() > 0) ==> table::lookup(new, "override-tensor"@) is None
            &&& table::lookup(new, "parallel"@) == Some(Json::Unsigned(s.parallel))
            &&& s.presence_penalty.len() > 0 ==> table::lookup(new, "presence-penalty"@) == Some(Json::Text(s.presence_penalty))
            &&& !(s.presence_penalty.len() > 0) ==> table::lookup(new, "presence-penalty"@) is None
            &&& s.reasoning.len() > 0 ==> table::lookup(new, "reasoning"@) == Some(Json::Text(s.reasoning))
            &&& !(s.reasoning.len() > 0) ==> table::lookup(new, "reasoning"@) is None
            &&& s.repeat_penalty.len() > 0 ==> table::lookup(new, "repeat-penalty"@) == Some(Json::Text(s.repeat_penalty))
            &&& !(s.repeat_penalty.len() > 0) ==> table::lookup(new, "repeat-penalty"@) is None
            &&& s.rope_base.len() > 0 ==> table::lookup(new, "rope-freq-base"@) == Some(Json::Text(s.rope_base))
            &&& !(s.rope_base.len() > 0) ==> table::lookup(new, "rope-freq-base"@) is None
        }),
{
    let values = editor::managed(s, owner);
    assert(values[16].0 == "kv-unified"@);
    editor::managed_keys_are_set(list, s, owner, 16);
    assert(values[17].0 == "load-mode"@);
    editor::managed_keys_are_set(list, s, owner, 17);
    assert(values[18].0 == "min-p"@);
    editor::managed_keys_are_set(list, s, owner, 18);
    assert(values[19].0 == "mlock"@);
    editor::managed_keys_are_set(list, s, owner, 19);
    assert(values[20].0 == "n-cpu-moe"@);
    editor::managed_keys_are_set(list, s, owner, 20);
    assert(values[21].0 == "n-gpu-layers"@);
    editor::managed_keys_are_set(list, s, owner, 21);
    assert(values[22].0 == "no-jinja"@);
    editor::managed_keys_are_set(list, s, owner, 22);
    assert(values[23].0 == "no-kv-offload"@);
    editor::managed_keys_are_set(list, s, owner, 23);
    assert(values[24].0 == "no-kv-unified"@);
    editor::managed_keys_are_set(list, s, owner, 24);
    assert(values[25].0 == "numa"@);
    editor::managed_keys_are_set(list, s, owner, 25);
    assert(values[26].0 == "override-tensor"@);
    editor::managed_keys_are_set(list, s, owner, 26);
    assert(values[27].0 == "parallel"@);
    editor::managed_keys_are_set(list, s, owner, 27);
    assert(values[28].0 == "presence-penalty"@);
    editor::managed_keys_are_set(list, s, owner, 28);
    assert(values[29].0 == "reasoning"@);
    editor::managed_keys_are_set(list, s, owner, 29);
    assert(values[30].0 == "repeat-penalty"@);
    editor::managed_keys_are_set(list, s, owner, 30);
    assert(values[31].0 == "rope-freq-base"@);
    editor::managed_keys_are_set(list, s, owner, 31);
}

/// What the editor puts into a profile stands under the key of each setting, and under no key
/// where the setting is the usual one that is left out.
pub proof fn keys_up_to_ubatch_size_hold_their_settings(list: Members, s: SettingsView, owner: Seq<char>)
    requires
        table::ordered(list),
    ensures
        ({
            let new = editor::profile_with(list, s, owner);
            &&& s.rope_scale.len() > 0 ==> table::lookup(new, "rope-freq-scale"@) == Some(Json::Text(s.rope_scale))
            &&& !(s.rope_scale.len() > 0) ==> table::lookup(new, "rope-freq-scale"@) is None
            &&& s.seed.len() > 0 ==> table::lookup(new, "seed"@) == Some(Json::Text(s.seed))
            &&& !(s.seed.len() > 0) ==> table::lookup(new, "seed"@) is None
            &&& s.spec_draft_model.len() > 0 ==> table::lookup(new, "spec-draft-model"@) == Some(Json::Text(s.spec_draft_model))
            &&& !(s.spec_draft_model.len() > 0) ==> table::lookup(new, "spec-draft-model"@) is None
            &&&  s.spec_draft_model.len() > 0 && s.spec_draft_n_cpu_moe != 0 ==> table::lookup(new, "spec-draft-n-cpu-moe"@) == Some(Json::Unsigned(s.spec_draft_n_cpu_moe))
            &&& !( s.spec_draft_model.len() > 0 && s.spec_draft_n_cpu_moe != 0) ==> table::lookup(new, "spec-draft-n-cpu-moe"@) is None
            &&& (s.spec_type != "none"@ && s.spec_type.len() > 0) ==> table::lookup(new, "spec-draft-n-max"@) == Some(Json::Unsigned(s.spec_draft_nmax))
            &&& !((s.spec_type != "none"@ && s.spec_type.len() > 0)) ==> table::lookup(new, "spec-draft-n-max"@) is None
            &&& s.spec_draft_model.len() > 0 ==> table::lookup(new, "spec-draft-ngl"@) == Some(Json::Text(s.spec_draft_ngl))
            &&& !(s.spec_draft_model.len() > 0) ==> table::lookup(new, "spec-draft-ngl"@) is None
            &&& (s.spec_type != "none"@ && s.spec_type.len() > 0) ==> table::lookup(new, "spec-type"@) == Some(Json::Text(s.spec_type))
            &&& !((s.spec_type != "none"@ && s.spec_type.len() > 0)) ==> table::lookup(new, "spec-type"@) is None
            &&& table::lookup(new, "split-mode"@) == Some(Json::Text(s.split))
            &&& s.temperature.len() > 0 ==> table::lookup(new, "temperature"@) == Some(Json::Text(s.temperature))
            &&& !(s.temperature.len() > 0) ==> table::lookup(new, "temperature"@) is None
            &&& table::lookup(new, "tensor-split"@) == Some(Json::Text(s.tensor_split))
            &&& table::lookup(new, "threads"@) == Some(Json::Unsigned(s.threads))
            &&& table::lookup(new, "threads-batch"@) == Some(Json::Unsigned(s.threads_batch))
            &&& s.top_k.len() > 0 ==> table::lookup(new, "top-k"@) == Some(Json::Text(s.top_k))
            &&& !(s.top_k.len() > 0) ==> table::lookup(new, "top-k"@) is None
            &&& s.top_p.len() > 0 ==> table::lookup(new, "top-p"@) == Some(Json::Text(s.top_p))
            &&& !(s.top_p.len() > 0) ==> table::lookup(new, "top-p"@) is None
            &&& table::lookup(new, "ubatch-size"@) == Some(Json::Unsigned(s.ubatch))
        }),
{
    let values = editor::managed(s, owner);
    assert(values[32].0 == "rope-freq-scale"@);
    editor::managed_keys_are_set(list, s, owner, 32);
    assert(values[33].0 == "seed"@);
    editor::managed_keys_are_set(list, s, owner, 33);
    assert(values[34].0 == "spec-draft-model"@);
    editor::managed_keys_are_set(list, s, owner, 34);
    assert(values[35].0 == "spec-draft-n-cpu-moe"@);
    editor::managed_keys_are_set(list, s, owner, 35);
    assert(values[36].0 == "spec-draft-n-max"@);
    editor::managed_keys_are_set(list, s, owner, 36);
    assert(values[37].0 == "spec-draft-ngl"@);
    editor::managed_keys_are_set(list, s, owner, 37);
    assert(values[38].0 == "spec-type"@);
    editor::managed_keys_are_set(list, s, owner, 38);
    assert(values[39].0 == "split-mode"@);
    editor::managed_keys_are_set(list, s, owner, 39);
    assert(values[40].0 == "temperature"@);
    editor::managed_keys_are_set(list, s, owner, 40);
    assert(values[41].0 == "tensor-split"@);
    editor::managed_keys_are_set(list, s, owner, 41);
    assert(values[42].0 == "threads"@);
    editor::managed_keys_are_set(list, s, owner, 42);
    assert(values[43].0 == "threads-batch"@);
    editor::managed_keys_are_set(list, s, owner, 43);
    assert(values[44].0 == "top-k"@);
    editor::managed_keys_are_set(list, s, owner, 44);
    assert(values[45].0 == "top-p"@);
    editor::managed_keys_are_set(list, s, owner, 45);
    assert(values[46].0 == "ubatch-size"@);
    editor::managed_keys_are_set(list, s, owner, 46);
}

} // verus!
