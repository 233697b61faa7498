//! The settings that the editor for profiles shows, and how they stand in a profile.
use vstd::prelude::*;

use crate::commands;
use crate::json;
use crate::json::{Json, JsonValue, Number};
use crate::metadata;
use crate::process;
use crate::profiles;
use crate::profiles::Members;
use crate::table;
use crate::table::Table;
use crate::text;

verus! {

/// The settings of a profile that the editor shows.
pub struct EditorSettings {
    pub ctx: u64,
    pub context_step: u64,
    pub parallel: u64,
    pub batch: u64,
    pub ubatch: u64,
    pub cache_k: String,
    pub cache_v: String,
    pub flash: String,
    pub gpu_layers: String,
    pub split: String,
    pub tensor_split: String,
    pub threads: u64,
    pub threads_batch: u64,
    pub kv_unified: bool,
    pub spec_type: String,
    pub spec_draft_model: String,
    pub spec_draft_nmax: u64,
    pub spec_draft_ngl: String,
    pub fit: String,
    pub fit_target: u64,
    pub load_mode: String,
    pub mlock: bool,
    pub direct_io: bool,
    pub numa: String,
    pub n_cpu_moe: u64,
    pub spec_draft_n_cpu_moe: u64,
    pub kv_offload: bool,
    pub override_tensor: String,
    pub rope_base: String,
    pub rope_scale: String,
    pub seed: String,
    pub temperature: String,
    pub top_k: String,
    pub top_p: String,
    pub min_p: String,
    pub repeat_penalty: String,
    pub presence_penalty: String,
    pub frequency_penalty: String,
    pub reasoning: String,
    pub jinja: bool,
    pub chat_template: String,
    pub chat_template_file: String,
    pub chat_template_kwargs: String,
    pub extra: Vec<String>,
    pub assign: bool,
}

#[verifier::ext_equal]
pub ghost struct SettingsView {
    pub ctx: u64,
    pub context_step: u64,
    pub parallel: u64,
    pub batch: u64,
    pub ubatch: u64,
    pub cache_k: Seq<char>,
    pub cache_v: Seq<char>,
    pub flash: Seq<char>,
    pub gpu_layers: Seq<char>,
    pub split: Seq<char>,
    pub tensor_split: Seq<char>,
    pub threads: u64,
    pub threads_batch: u64,
    pub kv_unified: bool,
    pub spec_type: Seq<char>,
    pub spec_draft_model: Seq<char>,
    pub spec_draft_nmax: u64,
    pub spec_draft_ngl: Seq<char>,
    pub fit: Seq<char>,
    pub fit_target: u64,
    pub load_mode: Seq<char>,
    pub mlock: bool,
    pub direct_io: bool,
    pub numa: Seq<char>,
    pub n_cpu_moe: u64,
    pub spec_draft_n_cpu_moe: u64,
    pub kv_offload: bool,
    pub override_tensor: Seq<char>,
    pub rope_base: Seq<char>,
    pub rope_scale: Seq<char>,
    pub seed: Seq<char>,
    pub temperature: Seq<char>,
    pub top_k: Seq<char>,
    pub top_p: Seq<char>,
    pub min_p: Seq<char>,
    pub repeat_penalty: Seq<char>,
    pub presence_penalty: Seq<char>,
    pub frequency_penalty: Seq<char>,
    pub reasoning: Seq<char>,
    pub jinja: bool,
    pub chat_template: Seq<char>,
    pub chat_template_file: Seq<char>,
    pub chat_template_kwargs: Seq<char>,
    pub extra: Seq<Seq<char>>,
    pub assign: bool,
}

impl View for EditorSettings {
    type V = SettingsView;

    open spec fn view(&self) -> SettingsView {
        SettingsView {
            ctx: self.ctx,
            context_step: self.context_step,
            parallel: self.parallel,
            batch: self.batch,
            ubatch: self.ubatch,
            cache_k: self.cache_k@,
            cache_v: self.cache_v@,
            flash: self.flash@,
            gpu_layers: self.gpu_layers@,
            split: self.split@,
            tensor_split: self.tensor_split@,
            threads: self.threads,
            threads_batch: self.threads_batch,
            kv_unified: self.kv_unified,
            spec_type: self.spec_type@,
            spec_draft_model: self.spec_draft_model@,
            spec_draft_nmax: self.spec_draft_nmax,
            spec_draft_ngl: self.spec_draft_ngl@,
            fit: self.fit@,
            fit_target: self.fit_target,
            load_mode: self.load_mode@,
            mlock: self.mlock,
            direct_io: self.direct_io,
            numa: self.numa@,
            n_cpu_moe: self.n_cpu_moe,
            spec_draft_n_cpu_moe: self.spec_draft_n_cpu_moe,
            kv_offload: self.kv_offload,
            override_tensor: self.override_tensor@,
            rope_base: self.rope_base@,
            rope_scale: self.rope_scale@,
            seed: self.seed@,
            temperature: self.temperature@,
            top_k: self.top_k@,
            top_p: self.top_p@,
            min_p: self.min_p@,
            repeat_penalty: self.repeat_penalty@,
            presence_penalty: self.presence_penalty@,
            frequency_penalty: self.frequency_penalty@,
            reasoning: self.reasoning@,
            jinja: self.jinja,
            chat_template: self.chat_template@,
            chat_template_file: self.chat_template_file@,
            chat_template_kwargs: self.chat_template_kwargs@,
            extra: text::views(self.extra@),
            assign: self.assign,
        }
    }
}

/// The settings of a profile that says nothing.
pub open spec fn default_settings() -> SettingsView {
    SettingsView {
        ctx: 4096,
        context_step: 4096,
        parallel: 1,
        batch: 2048,
        ubatch: 512,
        cache_k: "f16"@,
        cache_v: "f16"@,
        flash: "on"@,
        gpu_layers: "all"@,
        split: "layer"@,
        tensor_split: "1,1,1,1"@,
        threads: 32,
        threads_batch: 32,
        kv_unified: true,
        spec_type: "none"@,
        spec_draft_model: ""@,
        spec_draft_nmax: 0,
        spec_draft_ngl: "99"@,
        fit: "on"@,
        fit_target: 512,
        load_mode: ""@,
        mlock: false,
        direct_io: false,
        numa: "off"@,
        n_cpu_moe: 0,
        spec_draft_n_cpu_moe: 0,
        kv_offload: true,
        override_tensor: ""@,
        rope_base: ""@,
        rope_scale: ""@,
        seed: ""@,
        temperature: ""@,
        top_k: ""@,
        top_p: ""@,
        min_p: ""@,
        repeat_penalty: ""@,
        presence_penalty: ""@,
        frequency_penalty: ""@,
        reasoning: ""@,
        jinja: true,
        chat_template: ""@,
        chat_template_file: ""@,
        chat_template_kwargs: ""@,
        extra: seq![],
        assign: false,
    }
}

impl Default for EditorSettings {
    fn default() -> (out: EditorSettings)
        ensures
            out@ == default_settings(),
    {
        let out: EditorSettings = EditorSettings {
            ctx: 4096,
            context_step: 4096,
            parallel: 1,
            batch: 2048,
            ubatch: 512,
            cache_k: "f16".to_owned(),
            cache_v: "f16".to_owned(),
            flash: "on".to_owned(),
            gpu_layers: "all".to_owned(),
            split: "layer".to_owned(),
            tensor_split: "1,1,1,1".to_owned(),
            threads: 32,
            threads_batch: 32,
            kv_unified: true,
            spec_type: "none".to_owned(),
            spec_draft_model: "".to_owned(),
            spec_draft_nmax: 0,
            spec_draft_ngl: "99".to_owned(),
            fit: "on".to_owned(),
            fit_target: 512,
            load_mode: "".to_owned(),
            mlock: false,
            direct_io: false,
            numa: "off".to_owned(),
            n_cpu_moe: 0,
            spec_draft_n_cpu_moe: 0,
            kv_offload: true,
            override_tensor: "".to_owned(),
            rope_base: "".to_owned(),
            rope_scale: "".to_owned(),
            seed: "".to_owned(),
            temperature: "".to_owned(),
            top_k: "".to_owned(),
            top_p: "".to_owned(),
            min_p: "".to_owned(),
            repeat_penalty: "".to_owned(),
            presence_penalty: "".to_owned(),
            frequency_penalty: "".to_owned(),
            reasoning: "".to_owned(),
            jinja: true,
            chat_template: "".to_owned(),
            chat_template_file: "".to_owned(),
            chat_template_kwargs: "".to_owned(),
            extra: Vec::new(),
            assign: false,
        };
        proof {
            assert(out@.extra =~= seq![]);
        }
        out
    }
}

impl EditorSettings {
    /// Copies the settings.
    pub fn copy(&self) -> (out: EditorSettings)
        ensures
            out@ == self@,
    {
        EditorSettings {
            ctx: self.ctx,
            context_step: self.context_step,
            parallel: self.parallel,
            batch: self.batch,
            ubatch: self.ubatch,
            cache_k: self.cache_k.clone(),
            cache_v: self.cache_v.clone(),
            flash: self.flash.clone(),
            gpu_layers: self.gpu_layers.clone(),
            split: self.split.clone(),
            tensor_split: self.tensor_split.clone(),
            threads: self.threads,
            threads_batch: self.threads_batch,
            kv_unified: self.kv_unified,
            spec_type: self.spec_type.clone(),
            spec_draft_model: self.spec_draft_model.clone(),
            spec_draft_nmax: self.spec_draft_nmax,
            spec_draft_ngl: self.spec_draft_ngl.clone(),
            fit: self.fit.clone(),
            fit_target: self.fit_target,
            load_mode: self.load_mode.clone(),
            mlock: self.mlock,
            direct_io: self.direct_io,
            numa: self.numa.clone(),
            n_cpu_moe: self.n_cpu_moe,
            spec_draft_n_cpu_moe: self.spec_draft_n_cpu_moe,
            kv_offload: self.kv_offload,
            override_tensor: self.override_tensor.clone(),
            rope_base: self.rope_base.clone(),
            rope_scale: self.rope_scale.clone(),
            seed: self.seed.clone(),
            temperature: self.temperature.clone(),
            top_k: self.top_k.clone(),
            top_p: self.top_p.clone(),
            min_p: self.min_p.clone(),
            repeat_penalty: self.repeat_penalty.clone(),
            presence_penalty: self.presence_penalty.clone(),
            frequency_penalty: self.frequency_penalty.clone(),
            reasoning: self.reasoning.clone(),
            jinja: self.jinja,
            chat_template: self.chat_template.clone(),
            chat_template_file: self.chat_template_file.clone(),
            chat_template_kwargs: self.chat_template_kwargs.clone(),
            extra: crate::config::copy_texts(&self.extra),
            assign: self.assign,
        }
    }
}

/// The number under a key of a profile, also where it is written as text.
pub open spec fn number_under(list: Members, key: Seq<char>, otherwise: u64) -> u64 {
    match table::lookup(list, key) {
        Some(Json::Unsigned(n)) => n,
        Some(Json::Text(s)) => metadata::or_default(text::u64_of(s), otherwise),
        _ => otherwise,
    }
}

/// The text under a key of a profile.
pub open spec fn text_under(list: Members, key: Seq<char>, otherwise: Seq<char>) -> Seq<char> {
    match table::lookup(list, key) {
        Some(Json::Text(s)) => s,
        _ => otherwise,
    }
}

/// The value under a key of a profile as text, whatever it is.
pub open spec fn shown_under(list: Members, key: Seq<char>) -> Seq<char> {
    match table::lookup(list, key) {
        Some(v) => profiles::displayed(v),
        None => ""@,
    }
}

/// Whether a key of a profile is set.
pub open spec fn set_under(list: Members, key: Seq<char>) -> bool {
    table::lookup(list, key) == Some(Json::Bool(true))
}

pub fn number_of(t: &Table<JsonValue>, key: &str, otherwise: u64) -> (out: u64)
    ensures
        out == number_under(json::members(*t), key@, otherwise),
{
    match commands::member(t, key) {
        Some(v) => match v.as_u64() {
            Some(n) => n,
            None => match v.as_str() {
                Some(s) => match text::parse_u64(s) {
                    Some(n) => n,
                    None => otherwise,
                },
                None => otherwise,
            },
        },
        None => otherwise,
    }
}

pub fn text_of(t: &Table<JsonValue>, key: &str, otherwise: &str) -> (out: String)
    ensures
        out@ == text_under(json::members(*t), key@, otherwise@),
{
    match commands::member(t, key) {
        Some(v) => match v.as_str() {
            Some(s) => s.to_owned(),
            None => otherwise.to_owned(),
        },
        None => otherwise.to_owned(),
    }
}

fn shown_of(t: &Table<JsonValue>, key: &str) -> (out: String)
    ensures
        out@ == shown_under(json::members(*t), key@),
{
    match commands::member(t, key) {
        Some(v) => profiles::display(v),
        None => "".to_owned(),
    }
}

fn is_set(t: &Table<JsonValue>, key: &str) -> (yes: bool)
    ensures
        yes == set_under(json::members(*t), key@),
{
    match commands::member(t, key) {
        Some(v) => match v.as_bool() {
            Some(b) => b,
            None => false,
        },
        None => false,
    }
}

/// Whether a flag is one that the editor keeps as a setting of its own.
pub open spec fn is_kept_flag(flag: Seq<char>) -> bool {
    flag == "--kv-unified"@ || flag == "--no-kv-unified"@ || flag == "--jinja"@ || flag
        == "--no-jinja"@
}

/// The first `n` flags without those that the editor keeps as settings.
pub open spec fn other_flags(flags: Seq<Seq<char>>, n: nat) -> Seq<Seq<char>>
    decreases n,
{
    if n == 0 {
        seq![]
    } else if is_kept_flag(flags[n - 1]) {
        other_flags(flags, (n - 1) as nat)
    } else {
        other_flags(flags, (n - 1) as nat).push(flags[n - 1])
    }
}

/// The flags that a profile adds.
pub open spec fn extra_under(list: Members) -> Seq<Seq<char>> {
    match table::lookup(list, "_extra_args"@) {
        Some(Json::Array(items)) => profiles::texts_in(items, items.len()),
        _ => seq![],
    }
}

/// A switch: what the added flags say, or else whether it is not switched off by a key.
pub open spec fn switch_under(
    list: Members,
    flags: Seq<Seq<char>>,
    on: Seq<char>,
    off: Seq<char>,
    key: Seq<char>,
) -> bool {
    if flags.contains(on) {
        true
    } else if flags.contains(off) {
        false
    } else {
        table::lookup(list, key) is None
    }
}

/// The settings in a profile.
pub open spec fn settings_in(list: Members) -> SettingsView {
    let flags = extra_under(list);
    let batch = number_under(list, "batch-size"@, 2048);
    let ubatch = number_under(list, "ubatch-size"@, 512);
    SettingsView {
        ctx: number_under(list, "ctx-size"@, 4096),
        context_step: 4096,
        parallel: number_under(list, "parallel"@, 1),
        batch: batch,
        ubatch: if ubatch > batch {
            batch
        } else {
            ubatch
        },
        cache_k: text_under(list, "cache-type-k"@, "f16"@),
        cache_v: text_under(list, "cache-type-v"@, "f16"@),
        flash: text_under(list, "flash-attn"@, "on"@),
        gpu_layers: text_under(list, "n-gpu-layers"@, "all"@),
        split: text_under(list, "split-mode"@, "layer"@),
        tensor_split: text_under(list, "tensor-split"@, "1,1,1,1"@),
        threads: number_under(list, "threads"@, 32),
        threads_batch: number_under(list, "threads-batch"@, 32),
        kv_unified: switch_under(
            list,
            flags,
            "--kv-unified"@,
            "--no-kv-unified"@,
            "no-kv-unified"@,
        ),
        spec_type: text_under(list, "spec-type"@, "none"@),
        spec_draft_model: text_under(list, "spec-draft-model"@, ""@),
        spec_draft_nmax: number_under(list, "spec-draft-n-max"@, 0),
        spec_draft_ngl: text_under(list, "spec-draft-ngl"@, "99"@),
        fit: text_under(list, "fit"@, "on"@),
        fit_target: number_under(list, "fit-target"@, 512),
        load_mode: text_under(list, "load-mode"@, ""@),
        mlock: set_under(list, "mlock"@),
        direct_io: set_under(list, "direct-io"@),
        numa: text_under(list, "numa"@, "off"@),
        n_cpu_moe: number_under(list, "n-cpu-moe"@, 0),
        spec_draft_n_cpu_moe: number_under(list, "spec-draft-n-cpu-moe"@, 0),
        kv_offload: table::lookup(list, "no-kv-offload"@) is None,
        override_tensor: text_under(list, "override-tensor"@, ""@),
        rope_base: text_under(list, "rope-freq-base"@, ""@),
        rope_scale: text_under(list, "rope-freq-scale"@, ""@),
        seed: text_under(list, "seed"@, ""@),
        temperature: shown_under(list, "temperature"@),
        top_k: shown_under(list, "top-k"@),
        top_p: shown_under(list, "top-p"@),
        min_p: shown_under(list, "min-p"@),
        repeat_penalty: shown_under(list, "repeat-penalty"@),
        presence_penalty: shown_under(list, "presence-penalty"@),
        frequency_penalty: shown_under(list, "frequency-penalty"@),
        reasoning: text_under(list, "reasoning"@, ""@),
        jinja: switch_under(list, flags, "--jinja"@, "--no-jinja"@, "no-jinja"@),
        chat_template: text_under(list, "chat-template"@, ""@),
        chat_template_file: text_under(list, "chat-template-file"@, ""@),
        chat_template_kwargs: text_under(list, "chat-template-kwargs"@, ""@),
        extra: other_flags(flags, flags.len()),
        assign: false,
    }
}

fn without_kept(flags: &Vec<String>) -> (out: Vec<String>)
    ensures
        text::views(out@) == other_flags(text::views(flags@), flags@.len()),
{
    let ghost all = text::views(flags@);
    let mut out: Vec<String> = Vec::new();
    let mut i: usize = 0;
    proof {
        assert(text::views(out@) =~= seq![]);
    }
    while i < flags.len()
        invariant
            i <= flags@.len(),
            all == text::views(flags@),
            text::views(out@) == other_flags(all, i as nat),
        decreases flags@.len() - i,
    {
        proof {
            assert(all[i as int] == flags@[i as int]@);
        }
        let flag: &str = flags[i].as_str();
        let kept: bool = text::same(flag, "--kv-unified") || text::same(flag, "--no-kv-unified")
            || text::same(flag, "--jinja") || text::same(flag, "--no-jinja");
        if !kept {
            process::add(&mut out, flag);
        }
        i += 1;
    }
    out
}

fn switch_of(t: &Table<JsonValue>, flags: &Vec<String>, on: &str, off: &str, key: &str) -> (yes: bool)
    ensures
        yes == switch_under(json::members(*t), text::views(flags@), on@, off@, key@),
{
    if profiles::holds_text(flags, on) {
        true
    } else if profiles::holds_text(flags, off) {
        false
    } else {
        commands::member(t, key).is_none()
    }
}

fn extra_of(t: &Table<JsonValue>) -> (out: Vec<String>)
    ensures
        text::views(out@) == extra_under(json::members(*t)),
{
    match commands::member(t, "_extra_args") {
        Some(JsonValue::Array(items)) => profiles::texts(items),
        _ => {
            let none: Vec<String> = Vec::new();
            proof {
                assert(text::views(none@) =~= seq![]);
            }
            none
        },
    }
}

/// Reads the settings out of a profile.
pub fn editor_settings_from_profile(profile: &Table<JsonValue>) -> (out: EditorSettings)
    ensures
        out@ == settings_in(json::members(*profile)),
{
    let flags: Vec<String> = extra_of(profile);
    let batch: u64 = number_of(profile, "batch-size", 2048);
    let ubatch: u64 = number_of(profile, "ubatch-size", 512);
    EditorSettings {
        ctx: number_of(profile, "ctx-size", 4096),
        context_step: 4096,
        parallel: number_of(profile, "parallel", 1),
        batch: batch,
        ubatch: if ubatch > batch {
            batch
        } else {
            ubatch
        },
        cache_k: text_of(profile, "cache-type-k", "f16"),
        cache_v: text_of(profile, "cache-type-v", "f16"),
        flash: text_of(profile, "flash-attn", "on"),
        gpu_layers: text_of(profile, "n-gpu-layers", "all"),
        split: text_of(profile, "split-mode", "layer"),
        tensor_split: text_of(profile, "tensor-split", "1,1,1,1"),
        threads: number_of(profile, "threads", 32),
        threads_batch: number_of(profile, "threads-batch", 32),
        kv_unified: switch_of(
            profile,
            &flags,
            "--kv-unified",
            "--no-kv-unified",
            "no-kv-unified",
        ),
        spec_type: text_of(profile, "spec-type", "none"),
        spec_draft_model: text_of(profile, "spec-draft-model", ""),
        spec_draft_nmax: number_of(profile, "spec-draft-n-max", 0),
        spec_draft_ngl: text_of(profile, "spec-draft-ngl", "99"),
        fit: text_of(profile, "fit", "on"),
        fit_target: number_of(profile, "fit-target", 512),
        load_mode: text_of(profile, "load-mode", ""),
        mlock: is_set(profile, "mlock"),
        direct_io: is_set(profile, "direct-io"),
        numa: text_of(profile, "numa", "off"),
        n_cpu_moe: number_of(profile, "n-cpu-moe", 0),
        spec_draft_n_cpu_moe: number_of(profile, "spec-draft-n-cpu-moe", 0),
        kv_offload: commands::member(profile, "no-kv-offload").is_none(),
        override_tensor: text_of(profile, "override-tensor", ""),
        rope_base: text_of(profile, "rope-freq-base", ""),
        rope_scale: text_of(profile, "rope-freq-scale", ""),
        seed: text_of(profile, "seed", ""),
        temperature: shown_of(profile, "temperature"),
        top_k: shown_of(profile, "top-k"),
        top_p: shown_of(profile, "top-p"),
        min_p: shown_of(profile, "min-p"),
        repeat_penalty: shown_of(profile, "repeat-penalty"),
        presence_penalty: shown_of(profile, "presence-penalty"),
        frequency_penalty: shown_of(profile, "frequency-penalty"),
        reasoning: text_of(profile, "reasoning", ""),
        jinja: switch_of(profile, &flags, "--jinja", "--no-jinja", "no-jinja"),
        chat_template: text_of(profile, "chat-template", ""),
        chat_template_file: text_of(profile, "chat-template-file", ""),
        chat_template_kwargs: text_of(profile, "chat-template-kwargs", ""),
        extra: without_kept(&flags),
        assign: false,
    }
}

/// A text, where a condition holds.
pub open spec fn text_if(holds: bool, s: Seq<char>) -> Option<Json> {
    if holds {
        Some(Json::Text(s))
    } else {
        None
    }
}

/// A number, where a condition holds.
pub open spec fn number_if(holds: bool, n: u64) -> Option<Json> {
    if holds {
        Some(Json::Unsigned(n))
    } else {
        None
    }
}

/// A flag, where a condition holds.
pub open spec fn flag_if(holds: bool) -> Option<Json> {
    if holds {
        Some(Json::Bool(true))
    } else {
        None
    }
}

/// A list of texts, where there are any.
pub open spec fn list_if(list: Seq<Seq<char>>) -> Option<Json> {
    if list.len() > 0 {
        Some(Json::Array(list.map_values(|s: Seq<char>| Json::Text(s))))
    } else {
        None
    }
}

/// Whether the settings ask for speculation.
pub open spec fn drafts(s: SettingsView) -> bool {
    s.spec_type != "none"@ && s.spec_type.len() > 0
}

/// A part of what the settings put into a profile.
pub open spec fn managed_a(s: SettingsView, owner: Seq<char>) -> Seq<(Seq<char>, Option<Json>)> {
    seq![
        ("_extra_args"@, list_if(s.extra)),
        ("_model"@, Some(Json::Text(owner))),
        ("batch-size"@, Some(Json::Unsigned(s.batch))),
        ("cache-type-k"@, Some(Json::Text(s.cache_k))),
        ("cache-type-v"@, Some(Json::Text(s.cache_v))),
        ("chat-template"@, text_if(s.chat_template_file.len() == 0 && s.chat_template.len() > 0, s.chat_template)),
        ("chat-template-file"@, text_if(s.chat_template_file.len() > 0, s.chat_template_file)),
        ("chat-template-kwargs"@, text_if(s.chat_template_kwargs.len() > 0, s.chat_template_kwargs)),
    ]
}

/// A part of what the settings put into a profile.
pub open spec fn managed_b(s: SettingsView) -> Seq<(Seq<char>, Option<Json>)> {
    seq![
        ("ctx-size"@, Some(Json::Unsigned(s.ctx))),
        ("direct-io"@, flag_if(s.direct_io)),
        ("fit"@, text_if(s.fit == "off"@, "off"@)),
        ("fit-target"@, number_if(s.fit != "off"@, s.fit_target)),
        ("flash-attn"@, Some(Json::Text(s.flash))),
        ("frequency-penalty"@, text_if(s.frequency_penalty.len() > 0, s.frequency_penalty)),
        ("jinja"@, flag_if(s.jinja)),
        ("kv-offload"@, None::<Json>),
    ]
}

/// A part of what the settings put into a profile.
pub open spec fn managed_c(s: SettingsView) -> Seq<(Seq<char>, Option<Json>)> {
    seq![
        ("kv-unified"@, flag_if(s.kv_unified)),
        ("load-mode"@, text_if(s.load_mode.len() > 0, s.load_mode)),
        ("min-p"@, text_if(s.min_p.len() > 0, s.min_p)),
        ("mlock"@, flag_if(s.mlock)),
        ("n-cpu-moe"@, number_if(s.n_cpu_moe != 0, s.n_cpu_moe)),
        ("n-gpu-layers"@, Some(Json::Text(s.gpu_layers))),
        ("no-jinja"@, flag_if(!s.jinja)),
        ("no-kv-offload"@, flag_if(!s.kv_offload)),
    ]
}

/// A part of what the settings put into a profile.
pub open spec fn managed_d(s: SettingsView) -> Seq<(Seq<char>, Option<Json>)> {
    seq![
        ("no-kv-unified"@, flag_if(!s.kv_unified)),
        ("numa"@, text_if(s.numa != "off"@, s.numa)),
        ("override-tensor"@, text_if(s.override_tensor.len() > 0, s.override_tensor)),
        ("parallel"@, Some(Json::Unsigned(s.parallel))),
        ("presence-penalty"@, text_if(s.presence_penalty.len() > 0, s.presence_penalty)),
        ("reasoning"@, text_if(s.reasoning.len() > 0, s.reasoning)),
        ("repeat-penalty"@, text_if(s.repeat_penalty.len() > 0, s.repeat_penalty)),
        ("rope-freq-base"@, text_if(s.rope_base.len() > 0, s.rope_base)),
    ]
}

/// A part of what the settings put into a profile.
pub open spec fn managed_e(s: SettingsView) -> Seq<(Seq<char>, Option<Json>)> {
    seq![
        ("rope-freq-scale"@, text_if(s.rope_scale.len() > 0, s.rope_scale)),
        ("seed"@, text_if(s.seed.len() > 0, s.seed)),
        ("spec-draft-model"@, text_if(s.spec_draft_model.len() > 0, s.spec_draft_model)),
        ("spec-draft-n-cpu-moe"@, number_if(
            s.spec_draft_model.len() > 0 && s.spec_draft_n_cpu_moe != 0,
            s.spec_draft_n_cpu_moe,
        )),
        ("spec-draft-n-max"@, number_if(drafts(s), s.spec_draft_nmax)),
        ("spec-draft-ngl"@, text_if(s.spec_draft_model.len() > 0, s.spec_draft_ngl)),
        ("spec-type"@, text_if(drafts(s), s.spec_type)),
        ("split-mode"@, Some(Json::Text(s.split))),
    ]
}

/// A part of what the settings put into a profile.
pub open spec fn managed_f(s: SettingsView) -> Seq<(Seq<char>, Option<Json>)> {
    seq![
        ("temperature"@, text_if(s.temperature.len() > 0, s.temperature)),
        ("tensor-split"@, Some(Json::Text(s.tensor_split))),
        ("threads"@, Some(Json::Unsigned(s.threads))),
        ("threads-batch"@, Some(Json::Unsigned(s.threads_batch))),
        ("top-k"@, text_if(s.top_k.len() > 0, s.top_k)),
        ("top-p"@, text_if(s.top_p.len() > 0, s.top_p)),
        ("ubatch-size"@, Some(Json::Unsigned(s.ubatch))),
    ]
}

/// The keys of a profile that the editor manages, in order, with what the settings put
/// there; `None` where the key is left out.
pub open spec fn managed(s: SettingsView, owner: Seq<char>) -> Seq<(Seq<char>, Option<Json>)> {
    managed_a(s, owner) + managed_b(s) + managed_c(s) + managed_d(s) + managed_e(s) + managed_f(s)
}

/// An object after the first `n` of some values were put in or left out.
pub open spec fn overlaid(list: Members, values: Seq<(Seq<char>, Option<Json>)>, n: nat) -> Members
    decreases n,
{
    if n == 0 {
        list
    } else {
        let earlier = overlaid(list, values, (n - 1) as nat);
        match values[n - 1].1 {
            Some(v) => table::put(earlier, values[n - 1].0, v),
            None => table::without(earlier, values[n - 1].0),
        }
    }
}

/// A profile with the settings in it. Keys that the editor does not manage stand as they
/// were.
pub open spec fn profile_with(list: Members, s: SettingsView, owner: Seq<char>) -> Members {
    let values = managed(s, owner);
    overlaid(list, values, values.len())
}

fn text_value(s: &str) -> (out: Option<JsonValue>)
    ensures
        value_view(out) == Some(Json::Text(s@)),
{
    Some(JsonValue::String(s.to_owned()))
}

fn number_value(n: u64) -> (out: Option<JsonValue>)
    ensures
        value_view(out) == Some(Json::Unsigned(n)),
{
    Some(JsonValue::Number(Number::Unsigned(n)))
}

fn text_value_if(holds: bool, s: &str) -> (out: Option<JsonValue>)
    ensures
        value_view(out) == text_if(holds, s@),
{
    if holds {
        text_value(s)
    } else {
        None
    }
}

fn text_value_some(s: &str) -> (out: Option<JsonValue>)
    ensures
        value_view(out) == text_if(s@.len() > 0, s@),
{
    text_value_if(text::chars_of(s).len() > 0, s)
}

fn number_value_if(holds: bool, n: u64) -> (out: Option<JsonValue>)
    ensures
        value_view(out) == number_if(holds, n),
{
    if holds {
        number_value(n)
    } else {
        None
    }
}

fn set_if(holds: bool) -> (out: Option<JsonValue>)
    ensures
        value_view(out) == flag_if(holds),
{
    if holds {
        Some(JsonValue::Bool(true))
    } else {
        None
    }
}

fn list_value(list: &Vec<String>) -> (out: Option<JsonValue>)
    ensures
        value_view(out) == list_if(text::views(list@)),
{
    if list.len() == 0 {
        return None;
    }
    let mut items: Vec<JsonValue> = Vec::new();
    let mut i: usize = 0;
    while i < list.len()
        invariant
            i <= list@.len(),
            items@.len() == i,
            forall|j: int|
                0 <= j < i ==> json::json_of(#[trigger] items@[j]) == Json::Text(list@[j]@),
        decreases list@.len() - i,
    {
        items.push(JsonValue::String(list[i].clone()));
        i += 1;
    }
    let value: JsonValue = JsonValue::Array(items);
    proof {
        let all = text::views(list@).map_values(|s: Seq<char>| Json::Text(s));
        assert forall|j: int| 0 <= j < all.len() implies all[j] == #[trigger] json::json_of(
            value,
        )->Array_0[j] by {
            assert(json::json_of(items@[j]) == Json::Text(list@[j]@));
        }
        assert(json::json_of(value)->Array_0 =~= all);
    }
    Some(value)
}

pub open spec fn value_view(v: Option<JsonValue>) -> Option<Json> {
    match v {
        Some(j) => Some(j@),
        None => None,
    }
}

/// The views of some values.
pub open spec fn value_views(list: Seq<(&'static str, Option<JsonValue>)>) -> Seq<
    (Seq<char>, Option<Json>),
> {
    list.map_values(|p: (&'static str, Option<JsonValue>)| (p.0@, value_view(p.1)))
}

fn manage(out: &mut Vec<(&'static str, Option<JsonValue>)>, key: &'static str, value: Option<JsonValue>)
    ensures
        value_views(final(out)@) == value_views(old(out)@).push((key@, value_view(value))),
{
    out.push((key, value));
    proof {
        assert(value_views(out@) =~= value_views(old(out)@).push((key@, value_view(value))));
    }
}

fn manage_a(out: &mut Vec<(&'static str, Option<JsonValue>)>, s: &EditorSettings, owner: &str)
    ensures
        value_views(final(out)@) == value_views(old(out)@) + managed_a(s@, owner@),
{
    let ghost before = value_views(out@);
    let with_file: bool = text::chars_of(s.chat_template_file.as_str()).len() > 0;
    manage(out, "_extra_args", list_value(&s.extra));
    manage(out, "_model", text_value(owner));
    manage(out, "batch-size", number_value(s.batch));
    manage(out, "cache-type-k", text_value(s.cache_k.as_str()));
    manage(out, "cache-type-v", text_value(s.cache_v.as_str()));
    manage(out, "chat-template", text_value_if(
        !with_file && text::chars_of(s.chat_template.as_str()).len() > 0,
        s.chat_template.as_str(),
    ));
    manage(out, "chat-template-file", text_value_some(s.chat_template_file.as_str()));
    manage(out, "chat-template-kwargs", text_value_some(s.chat_template_kwargs.as_str()));
    proof {
        assert(value_views(out@) =~= before + managed_a(s@, owner@));
    }
}

fn manage_b(out: &mut Vec<(&'static str, Option<JsonValue>)>, s: &EditorSettings)
    ensures
        value_views(final(out)@) == value_views(old(out)@) + managed_b(s@),
{
    let ghost before = value_views(out@);
    let unfit: bool = text::same(s.fit.as_str(), "off");
    manage(out, "ctx-size", number_value(s.ctx));
    manage(out, "direct-io", set_if(s.direct_io));
    manage(out, "fit", text_value_if(unfit, "off"));
    manage(out, "fit-target", number_value_if(!unfit, s.fit_target));
    manage(out, "flash-attn", text_value(s.flash.as_str()));
    manage(out, "frequency-penalty", text_value_some(s.frequency_penalty.as_str()));
    manage(out, "jinja", set_if(s.jinja));
    manage(out, "kv-offload", None);
    proof {
        assert(value_views(out@) =~= before + managed_b(s@));
    }
}

fn manage_c(out: &mut Vec<(&'static str, Option<JsonValue>)>, s: &EditorSettings)
    ensures
        value_views(final(out)@) == value_views(old(out)@) + managed_c(s@),
{
    let ghost before = value_views(out@);
    manage(out, "kv-unified", set_if(s.kv_unified));
    manage(out, "load-mode", text_value_some(s.load_mode.as_str()));
    manage(out, "min-p", text_value_some(s.min_p.as_str()));
    manage(out, "mlock", set_if(s.mlock));
    manage(out, "n-cpu-moe", number_value_if(s.n_cpu_moe != 0, s.n_cpu_moe));
    manage(out, "n-gpu-layers", text_value(s.gpu_layers.as_str()));
    manage(out, "no-jinja", set_if(!s.jinja));
    manage(out, "no-kv-offload", set_if(!s.kv_offload));
    proof {
        assert(value_views(out@) =~= before + managed_c(s@));
    }
}

fn manage_d(out: &mut Vec<(&'static str, Option<JsonValue>)>, s: &EditorSettings)
    ensures
        value_views(final(out)@) == value_views(old(out)@) + managed_d(s@),
{
    let ghost before = value_views(out@);
    manage(out, "no-kv-unified", set_if(!s.kv_unified));
    manage(out, "numa", text_value_if(!text::same(s.numa.as_str(), "off"), s.numa.as_str()));
    manage(out, "override-tensor", text_value_some(s.override_tensor.as_str()));
    manage(out, "parallel", number_value(s.parallel));
    manage(out, "presence-penalty", text_value_some(s.presence_penalty.as_str()));
    manage(out, "reasoning", text_value_some(s.reasoning.as_str()));
    manage(out, "repeat-penalty", text_value_some(s.repeat_penalty.as_str()));
    manage(out, "rope-freq-base", text_value_some(s.rope_base.as_str()));
    proof {
        assert(value_views(out@) =~= before + managed_d(s@));
    }
}

fn manage_e(out: &mut Vec<(&'static str, Option<JsonValue>)>, s: &EditorSettings)
    ensures
        value_views(final(out)@) == value_views(old(out)@) + managed_e(s@),
{
    let ghost before = value_views(out@);
    let drafting: bool = !text::same(s.spec_type.as_str(), "none") && text::chars_of(
        s.spec_type.as_str(),
    ).len() > 0;
    let with_draft: bool = text::chars_of(s.spec_draft_model.as_str()).len() > 0;
    manage(out, "rope-freq-scale", text_value_some(s.rope_scale.as_str()));
    manage(out, "seed", text_value_some(s.seed.as_str()));
    manage(out, "spec-draft-model", text_value_if(with_draft, s.spec_draft_model.as_str()));
    manage(out, "spec-draft-n-cpu-moe", number_value_if(
        with_draft && s.spec_draft_n_cpu_moe != 0,
        s.spec_draft_n_cpu_moe,
    ));
    manage(out, "spec-draft-n-max", number_value_if(drafting, s.spec_draft_nmax));
    manage(out, "spec-draft-ngl", text_value_if(with_draft, s.spec_draft_ngl.as_str()));
    manage(out, "spec-type", text_value_if(drafting, s.spec_type.as_str()));
    manage(out, "split-mode", text_value(s.split.as_str()));
    proof {
        assert(value_views(out@) =~= before + managed_e(s@));
    }
}

fn manage_f(out: &mut Vec<(&'static str, Option<JsonValue>)>, s: &EditorSettings)
    ensures
        value_views(final(out)@) == value_views(old(out)@) + managed_f(s@),
{
    let ghost before = value_views(out@);
    manage(out, "temperature", text_value_some(s.temperature.as_str()));
    manage(out, "tensor-split", text_value(s.tensor_split.as_str()));
    manage(out, "threads", number_value(s.threads));
    manage(out, "threads-batch", number_value(s.threads_batch));
    manage(out, "top-k", text_value_some(s.top_k.as_str()));
    manage(out, "top-p", text_value_some(s.top_p.as_str()));
    manage(out, "ubatch-size", number_value(s.ubatch));
    proof {
        assert(value_views(out@) =~= before + managed_f(s@));
    }
}

fn managed_values(s: &EditorSettings, owner: &str) -> (out: Vec<
    (&'static str, Option<JsonValue>),
>)
    ensures
        value_views(out@) == managed(s@, owner@),
{
    let mut out: Vec<(&'static str, Option<JsonValue>)> = Vec::new();
    proof {
        assert(value_views(out@) =~= seq![]);
    }
    manage_a(&mut out, s, owner);
    manage_b(&mut out, s);
    manage_c(&mut out, s);
    manage_d(&mut out, s);
    manage_e(&mut out, s);
    manage_f(&mut out, s);
    proof {
        assert(value_views(out@) =~= managed(s@, owner@));
    }
    out
}

/// Puts the settings into a profile.
pub fn editor_profile_from_profile(
    original: &Table<JsonValue>,
    settings: &EditorSettings,
    owner: &str,
) -> (out: Table<JsonValue>)
    ensures
        json::members(out) == profile_with(json::members(*original), settings@, owner@),
{
    let mut values: Vec<(&'static str, Option<JsonValue>)> = managed_values(settings, owner);
    let ghost all = managed(settings@, owner@);
    let mut out: Table<JsonValue> = json::copy_table(original);
    let mut i: usize = 0;
    while i < values.len()
        invariant
            i <= values@.len(),
            all == value_views(values@),
            json::members(out) == overlaid(json::members(*original), all, i as nat),
        decreases values@.len() - i,
    {
        proof {
            assert(all[i as int] == (values@[i as int].0@, value_view(values@[i as int].1)));
        }
        match &values[i].1 {
            Some(v) => commands::put_member(&mut out, values[i].0, v.copy()),
            None => commands::drop_member(&mut out, values[i].0),
        }
        i += 1;
    }
    out
}

/// Two texts that agree on their first `n` characters are ordered by what comes next.
proof fn lemma_before_at(a: Seq<char>, b: Seq<char>, n: int)
    requires
        0 <= n <= a.len(),
        n < b.len(),
        forall|i: int| 0 <= i < n ==> a[i] == #[trigger] b[i],
        n < a.len() ==> a[n] < b[n],
    ensures
        text::before(a, b),
    decreases n,
{
    if n > 0 {
        assert(a[0] == b[0]);
        let x = a.skip(1);
        let y = b.skip(1);
        assert forall|i: int| 0 <= i < n - 1 implies x[i] == #[trigger] y[i] by {
            assert(a[i + 1] == b[i + 1]);
        }
        lemma_before_at(x, y, n - 1);
    }
}

proof fn lemma_chain(values: Seq<(Seq<char>, Option<Json>)>, i: int, j: int)
    requires
        0 <= i < j < values.len(),
        forall|k: int|
            0 <= k < values.len() - 1 ==> text::before(
                (#[trigger] values[k]).0,
                values[k + 1].0,
            ),
    ensures
        text::before(values[i].0, values[j].0),
    decreases j,
{
    if i < j - 1 {
        lemma_chain(values, i, j - 1);
        assert(text::before(values[j - 1].0, values[j].0));
        text::lemma_before_transitive(values[i].0, values[j - 1].0, values[j].0);
    } else {
        assert(text::before(values[i].0, values[i + 1].0));
    }
}

proof fn lemma_order_a()
    ensures
        text::before("_extra_args"@, "_model"@),
        text::before("_model"@, "batch-size"@),
        text::before("batch-size"@, "cache-type-k"@),
        text::before("cache-type-k"@, "cache-type-v"@),
        text::before("cache-type-v"@, "chat-template"@),
        text::before("chat-template"@, "chat-template-file"@),
        text::before("chat-template-file"@, "chat-template-kwargs"@),
        text::before("chat-template-kwargs"@, "ctx-size"@),
        text::before("ctx-size"@, "direct-io"@),
        text::before("direct-io"@, "fit"@),
        text::before("fit"@, "fit-target"@),
        text::before("fit-target"@, "flash-attn"@),
{
    assert(text::before("_extra_args"@, "_model"@)) by {
        reveal_strlit("_extra_args");
        reveal_strlit("_model");
        lemma_before_at("_extra_args"@, "_model"@, 1);
    }
    assert(text::before("_model"@, "batch-size"@)) by {
        reveal_strlit("_model");
        reveal_strlit("batch-size");
        lemma_before_at("_model"@, "batch-size"@, 0);
    }
    assert(text::before("batch-size"@, "cache-type-k"@)) by {
        reveal_strlit("batch-size");
        reveal_strlit("cache-type-k");
        lemma_before_at("batch-size"@, "cache-type-k"@, 0);
    }
    assert(text::before("cache-type-k"@, "cache-type-v"@)) by {
        reveal_strlit("cache-type-k");
        reveal_strlit("cache-type-v");
        lemma_before_at("cache-type-k"@, "cache-type-v"@, 11);
    }
    assert(text::before("cache-type-v"@, "chat-template"@)) by {
        reveal_strlit("cache-type-v");
        reveal_strlit("chat-template");
        lemma_before_at("cache-type-v"@, "chat-template"@, 1);
    }
    assert(text::before("chat-template"@, "chat-template-file"@)) by {
        reveal_strlit("chat-template");
        reveal_strlit("chat-template-file");
        lemma_before_at("chat-template"@, "chat-template-file"@, 13);
    }
    assert(text::before("chat-template-file"@, "chat-template-kwargs"@)) by {
        reveal_strlit("chat-template-file");
        reveal_strlit("chat-template-kwargs");
        lemma_before_at("chat-template-file"@, "chat-template-kwargs"@, 14);
    }
    assert(text::before("chat-template-kwargs"@, "ctx-size"@)) by {
        reveal_strlit("chat-template-kwargs");
        reveal_strlit("ctx-size");
        lemma_before_at("chat-template-kwargs"@, "ctx-size"@, 1);
    }
    assert(text::before("ctx-size"@, "direct-io"@)) by {
        reveal_strlit("ctx-size");
        reveal_strlit("direct-io");
        lemma_before_at("ctx-size"@, "direct-io"@, 0);
    }
    assert(text::before("direct-io"@, "fit"@)) by {
        reveal_strlit("direct-io");
        reveal_strlit("fit");
        lemma_before_at("direct-io"@, "fit"@, 0);
    }
    assert(text::before("fit"@, "fit-target"@)) by {
        reveal_strlit("fit");
        reveal_strlit("fit-target");
        lemma_before_at("fit"@, "fit-target"@, 3);
    }
    assert(text::before("fit-target"@, "flash-attn"@)) by {
        reveal_strlit("fit-target");
        reveal_strlit("flash-attn");
        lemma_before_at("fit-target"@, "flash-attn"@, 1);
    }
}

proof fn lemma_order_b()
    ensures
        text::before("flash-attn"@, "frequency-penalty"@),
        text::before("frequency-penalty"@, "jinja"@),
        text::before("jinja"@, "kv-offload"@),
        text::before("kv-offload"@, "kv-unified"@),
        text::before("kv-unified"@, "load-mode"@),
        text::before("load-mode"@, "min-p"@),
        text::before("min-p"@, "mlock"@),
        text::before("mlock"@, "n-cpu-moe"@),
        text::before("n-cpu-moe"@, "n-gpu-layers"@),
        text::before("n-gpu-layers"@, "no-jinja"@),
        text::before("no-jinja"@, "no-kv-offload"@),
        text::before("no-kv-offload"@, "no-kv-unified"@),
{
    assert(text::before("flash-attn"@, "frequency-penalty"@)) by {
        reveal_strlit("flash-attn");
        reveal_strlit("frequency-penalty");
        lemma_before_at("flash-attn"@, "frequency-penalty"@, 1);
    }
    assert(text::before("frequency-penalty"@, "jinja"@)) by {
        reveal_strlit("frequency-penalty");
        reveal_strlit("jinja");
        lemma_before_at("frequency-penalty"@, "jinja"@, 0);
    }
    assert(text::before("jinja"@, "kv-offload"@)) by {
        reveal_strlit("jinja");
        reveal_strlit("kv-offload");
        lemma_before_at("jinja"@, "kv-offload"@, 0);
    }
    assert(text::before("kv-offload"@, "kv-unified"@)) by {
        reveal_strlit("kv-offload");
        reveal_strlit("kv-unified");
        lemma_before_at("kv-offload"@, "kv-unified"@, 3);
    }
    assert(text::before("kv-unified"@, "load-mode"@)) by {
        reveal_strlit("kv-unified");
        reveal_strlit("load-mode");
        lemma_before_at("kv-unified"@, "load-mode"@, 0);
    }
    assert(text::before("load-mode"@, "min-p"@)) by {
        reveal_strlit("load-mode");
        reveal_strlit("min-p");
        lemma_before_at("load-mode"@, "min-p"@, 0);
    }
    assert(text::before("min-p"@, "mlock"@)) by {
        reveal_strlit("min-p");
        reveal_strlit("mlock");
        lemma_before_at("min-p"@, "mlock"@, 1);
    }
    assert(text::before("mlock"@, "n-cpu-moe"@)) by {
        reveal_strlit("mlock");
        reveal_strlit("n-cpu-moe");
        lemma_before_at("mlock"@, "n-cpu-moe"@, 0);
    }
    assert(text::before("n-cpu-moe"@, "n-gpu-layers"@)) by {
        reveal_strlit("n-cpu-moe");
        reveal_strlit("n-gpu-layers");
        lemma_before_at("n-cpu-moe"@, "n-gpu-layers"@, 2);
    }
    assert(text::before("n-gpu-layers"@, "no-jinja"@)) by {
        reveal_strlit("n-gpu-layers");
        reveal_strlit("no-jinja");
        lemma_before_at("n-gpu-layers"@, "no-jinja"@, 1);
    }
    assert(text::before("no-jinja"@, "no-kv-offload"@)) by {
        reveal_strlit("no-jinja");
        reveal_strlit("no-kv-offload");
        lemma_before_at("no-jinja"@, "no-kv-offload"@, 3);
    }
    assert(text::before("no-kv-offload"@, "no-kv-unified"@)) by {
        reveal_strlit("no-kv-offload");
        reveal_strlit("no-kv-unified");
        lemma_before_at("no-kv-offload"@, "no-kv-unified"@, 6);
    }
}

proof fn lemma_order_c()
    ensures
        text::before("no-kv-unified"@, "numa"@),
        text::before("numa"@, "override-tensor"@),
        text::before("override-tensor"@, "parallel"@),
        text::before("parallel"@, "presence-penalty"@),
        text::before("presence-penalty"@, "reasoning"@),
        text::before("reasoning"@, "repeat-penalty"@),
        text::before("repeat-penalty"@, "rope-freq-base"@),
        text::before("rope-freq-base"@, "rope-freq-scale"@),
        text::before("rope-freq-scale"@, "seed"@),
        text::before("seed"@, "spec-draft-model"@),
        text::before("spec-draft-model"@, "spec-draft-n-cpu-moe"@),
        text::before("spec-draft-n-cpu-moe"@, "spec-draft-n-max"@),
{
    assert(text::before("no-kv-unified"@, "numa"@)) by {
        reveal_strlit("no-kv-unified");
        reveal_strlit("numa");
        lemma_before_at("no-kv-unified"@, "numa"@, 1);
    }
    assert(text::before("numa"@, "override-tensor"@)) by {
        reveal_strlit("numa");
        reveal_strlit("override-tensor");
        lemma_before_at("numa"@, "override-tensor"@, 0);
    }
    assert(text::before("override-tensor"@, "parallel"@)) by {
        reveal_strlit("override-tensor");
        reveal_strlit("parallel");
        lemma_before_at("override-tensor"@, "parallel"@, 0);
    }
    assert(text::before("parallel"@, "presence-penalty"@)) by {
        reveal_strlit("parallel");
        reveal_strlit("presence-penalty");
        lemma_before_at("parallel"@, "presence-penalty"@, 1);
    }
    assert(text::before("presence-penalty"@, "reasoning"@)) by {
        reveal_strlit("presence-penalty");
        reveal_strlit("reasoning");
        lemma_before_at("presence-penalty"@, "reasoning"@, 0);
    }
    assert(text::before("reasoning"@, "repeat-penalty"@)) by {
        reveal_strlit("reasoning");
        reveal_strlit("repeat-penalty");
        lemma_before_at("reasoning"@, "repeat-penalty"@, 2);
    }
    assert(text::before("repeat-penalty"@, "rope-freq-base"@)) by {
        reveal_strlit("repeat-penalty");
        reveal_strlit("rope-freq-base");
        lemma_before_at("repeat-penalty"@, "rope-freq-base"@, 1);
    }
    assert(text::before("rope-freq-base"@, "rope-freq-scale"@)) by {
        reveal_strlit("rope-freq-base");
        reveal_strlit("rope-freq-scale");
        lemma_before_at("rope-freq-base"@, "rope-freq-scale"@, 10);
    }
    assert(text::before("rope-freq-scale"@, "seed"@)) by {
        reveal_strlit("rope-freq-scale");
        reveal_strlit("seed");
        lemma_before_at("rope-freq-scale"@, "seed"@, 0);
    }
    assert(text::before("seed"@, "spec-draft-model"@)) by {
        reveal_strlit("seed");
        reveal_strlit("spec-draft-model");
        lemma_before_at("seed"@, "spec-draft-model"@, 1);
    }
    assert(text::before("spec-draft-model"@, "spec-draft-n-cpu-moe"@)) by {
        reveal_strlit("spec-draft-model");
        reveal_strlit("spec-draft-n-cpu-moe");
        lemma_before_at("spec-draft-model"@, "spec-draft-n-cpu-moe"@, 11);
    }
    assert(text::before("spec-draft-n-cpu-moe"@, "spec-draft-n-max"@)) by {
        reveal_strlit("spec-draft-n-cpu-moe");
        reveal_strlit("spec-draft-n-max");
        lemma_before_at("spec-draft-n-cpu-moe"@, "spec-draft-n-max"@, 13);
    }
}

proof fn lemma_order_d()
    ensures
        text::before("spec-draft-n-max"@, "spec-draft-ngl"@),
        text::before("spec-draft-ngl"@, "spec-type"@),
        text::before("spec-type"@, "split-mode"@),
        text::before("split-mode"@, "temperature"@),
        text::before("temperature"@, "tensor-split"@),
        text::before("tensor-split"@, "threads"@),
        text::before("threads"@, "threads-batch"@),
        text::before("threads-batch"@, "top-k"@),
        text::before("top-k"@, "top-p"@),
        text::before("top-p"@, "ubatch-size"@),
{
    assert(text::before("spec-draft-n-max"@, "spec-draft-ngl"@)) by {
        reveal_strlit("spec-draft-n-max");
        reveal_strlit("spec-draft-ngl");
        lemma_before_at("spec-draft-n-max"@, "spec-draft-ngl"@, 12);
    }
    assert(text::before("spec-draft-ngl"@, "spec-type"@)) by {
        reveal_strlit("spec-draft-ngl");
        reveal_strlit("spec-type");
        lemma_before_at("spec-draft-ngl"@, "spec-type"@, 5);
    }
    assert(text::before("spec-type"@, "split-mode"@)) by {
        reveal_strlit("spec-type");
        reveal_strlit("split-mode");
        lemma_before_at("spec-type"@, "split-mode"@, 2);
    }
    assert(text::before("split-mode"@, "temperature"@)) by {
        reveal_strlit("split-mode");
        reveal_strlit("temperature");
        lemma_before_at("split-mode"@, "temperature"@, 0);
    }
    assert(text::before("temperature"@, "tensor-split"@)) by {
        reveal_strlit("temperature");
        reveal_strlit("tensor-split");
        lemma_before_at("temperature"@, "tensor-split"@, 2);
    }
    assert(text::before("tensor-split"@, "threads"@)) by {
        reveal_strlit("tensor-split");
        reveal_strlit("threads");
        lemma_before_at("tensor-split"@, "threads"@, 1);
    }
    assert(text::before("threads"@, "threads-batch"@)) by {
        reveal_strlit("threads");
        reveal_strlit("threads-batch");
        lemma_before_at("threads"@, "threads-batch"@, 7);
    }
    assert(text::before("threads-batch"@, "top-k"@)) by {
        reveal_strlit("threads-batch");
        reveal_strlit("top-k");
        lemma_before_at("threads-batch"@, "top-k"@, 1);
    }
    assert(text::before("top-k"@, "top-p"@)) by {
        reveal_strlit("top-k");
        reveal_strlit("top-p");
        lemma_before_at("top-k"@, "top-p"@, 4);
    }
    assert(text::before("top-p"@, "ubatch-size"@)) by {
        reveal_strlit("top-p");
        reveal_strlit("ubatch-size");
        lemma_before_at("top-p"@, "ubatch-size"@, 0);
    }
}

/// The keys that the editor manages are in order, so no two are the same.
pub proof fn lemma_managed_order(s: SettingsView, owner: Seq<char>, i: int, j: int)
    requires
        0 <= i < j < managed(s, owner).len(),
    ensures
        text::before(managed(s, owner)[i].0, managed(s, owner)[j].0),
        managed(s, owner)[i].0 != managed(s, owner)[j].0,
{
    let values = managed(s, owner);
    lemma_order_a();
    lemma_order_b();
    lemma_order_c();
    lemma_order_d();
    assert forall|k: int| 0 <= k < values.len() - 1 implies text::before(
        (#[trigger] values[k]).0,
        values[k + 1].0,
    ) by {}
    lemma_chain(values, i, j);
    text::lemma_before_irreflexive(values[i].0);
}

proof fn lemma_overlaid(
    list: Members,
    values: Seq<(Seq<char>, Option<Json>)>,
    n: nat,
    key: Seq<char>,
)
    requires
        table::ordered(list),
        n <= values.len(),
        forall|i: int, j: int|
            0 <= i < j < values.len() ==> (#[trigger] values[i]).0 != (#[trigger] values[j]).0,
    ensures
        table::ordered(overlaid(list, values, n)),
        (forall|i: int| 0 <= i < n ==> (#[trigger] values[i]).0 != key) ==> table::lookup(
            overlaid(list, values, n),
            key,
        ) == table::lookup(list, key),
        forall|i: int|
            0 <= i < n && (#[trigger] values[i]).0 == key ==> table::lookup(
                overlaid(list, values, n),
                key,
            ) == values[i].1,
    decreases n,
{
    if n > 0 {
        lemma_overlaid(list, values, (n - 1) as nat, key);
        let earlier = overlaid(list, values, (n - 1) as nat);
        let last = values[n - 1];
        match last.1 {
            Some(v) => {
                table::put_then_lookup(earlier, last.0, v, key);
                table::put_keeps_order(earlier, last.0, v);
            },
            None => {
                table::without_then_lookup(earlier, last.0, key);
                table::without_keeps_order(earlier, last.0);
            },
        }
    }
}

proof fn lemma_managed_distinct(s: SettingsView, owner: Seq<char>)
    ensures
        forall|i: int, j: int|
            0 <= i < j < managed(s, owner).len() ==> (#[trigger] managed(s, owner)[i]).0 != (
            #[trigger] managed(s, owner)[j]).0,
{
    assert forall|i: int, j: int| 0 <= i < j < managed(s, owner).len() implies (
    #[trigger] managed(s, owner)[i]).0 != (#[trigger] managed(s, owner)[j]).0 by {
        lemma_managed_order(s, owner, i, j);
    }
}

/// What the editor does not manage stands in a profile as it did.
pub proof fn other_keys_stand(list: Members, s: SettingsView, owner: Seq<char>, key: Seq<char>)
    requires
        table::ordered(list),
        forall|i: int|
            0 <= i < managed(s, owner).len() ==> (#[trigger] managed(s, owner)[i]).0 != key,
    ensures
        table::lookup(profile_with(list, s, owner), key) == table::lookup(list, key),
{
    lemma_managed_distinct(s, owner);
    lemma_overlaid(list, managed(s, owner), managed(s, owner).len(), key);
}

/// Every key that the editor manages holds what the settings put there, whatever it held.
pub proof fn managed_keys_are_set(list: Members, s: SettingsView, owner: Seq<char>, i: int)
    requires
        table::ordered(list),
        0 <= i < managed(s, owner).len(),
    ensures
        table::lookup(profile_with(list, s, owner), managed(s, owner)[i].0) == managed(
            s,
            owner,
        )[i].1,
{
    lemma_managed_distinct(s, owner);
    lemma_overlaid(list, managed(s, owner), managed(s, owner).len(), managed(s, owner)[i].0);
}

/// The settings that are read back out of a profile they were put into: what goes with a
/// choice that was not made is left out, and the step of the context and the assignment of
/// the profile are not in it.
pub open spec fn read_back(s: SettingsView) -> SettingsView {
    let drafted = s.spec_draft_model.len() > 0;
    SettingsView {
        context_step: 4096,
        ubatch: if s.ubatch > s.batch {
            s.batch
        } else {
            s.ubatch
        },
        spec_type: if drafts(s) {
            s.spec_type
        } else {
            "none"@
        },
        spec_draft_nmax: if drafts(s) {
            s.spec_draft_nmax
        } else {
            0
        },
        spec_draft_ngl: if drafted {
            s.spec_draft_ngl
        } else {
            "99"@
        },
        spec_draft_n_cpu_moe: if drafted {
            s.spec_draft_n_cpu_moe
        } else {
            0
        },
        fit: if s.fit == "off"@ {
            s.fit
        } else {
            "on"@
        },
        fit_target: if s.fit == "off"@ {
            512
        } else {
            s.fit_target
        },
        chat_template: if s.chat_template_file.len() > 0 {
            ""@
        } else {
            s.chat_template
        },
        assign: false,
        ..s
    }
}

proof fn lemma_texts_back(flags: Seq<Seq<char>>, n: nat)
    requires
        n <= flags.len(),
    ensures
        profiles::texts_in(flags.map_values(|s: Seq<char>| Json::Text(s)), n) == flags.take(
            n as int,
        ),
    decreases n,
{
    let items = flags.map_values(|s: Seq<char>| Json::Text(s));
    if n > 0 {
        lemma_texts_back(flags, (n - 1) as nat);
        assert(items[n - 1] == Json::Text(flags[n - 1]));
        assert(flags.take(n as int) =~= flags.take(n - 1).push(flags[n - 1]));
    } else {
        assert(flags.take(0) =~= seq![]);
    }
}

proof fn lemma_other_flags_all(flags: Seq<Seq<char>>, n: nat)
    requires
        n <= flags.len(),
        forall|i: int| 0 <= i < flags.len() ==> !is_kept_flag(#[trigger] flags[i]),
    ensures
        other_flags(flags, n) == flags.take(n as int),
    decreases n,
{
    if n > 0 {
        lemma_other_flags_all(flags, (n - 1) as nat);
        assert(!is_kept_flag(flags[n - 1]));
        assert(flags.take(n as int) =~= flags.take(n - 1).push(flags[n - 1]));
    } else {
        assert(flags.take(0) =~= seq![]);
    }
}

proof fn lemma_lookups_a(list: Members, s: SettingsView, owner: Seq<char>)
    requires
        table::ordered(list),
    ensures
        table::lookup(profile_with(list, s, owner), "_extra_args"@) == list_if(s.extra),
        table::lookup(profile_with(list, s, owner), "_model"@) == Some(Json::Text(owner)),
        table::lookup(profile_with(list, s, owner), "batch-size"@) == Some(Json::Unsigned(s.batch)),
        table::lookup(profile_with(list, s, owner), "cache-type-k"@) == Some(Json::Text(s.cache_k)),
        table::lookup(profile_with(list, s, owner), "cache-type-v"@) == Some(Json::Text(s.cache_v)),
        table::lookup(profile_with(list, s, owner), "chat-template"@) == text_if(s.chat_template_file.len() == 0 && s.chat_template.len() > 0, s.chat_template),
        table::lookup(profile_with(list, s, owner), "chat-template-file"@) == text_if(s.chat_template_file.len() > 0, s.chat_template_file),
        table::lookup(profile_with(list, s, owner), "chat-template-kwargs"@) == text_if(s.chat_template_kwargs.len() > 0, s.chat_template_kwargs),
{
    managed_keys_are_set(list, s, owner, 0);
    assert(managed(s, owner)[0] == managed_a(s, owner)[0]);
    managed_keys_are_set(list, s, owner, 1);
    assert(managed(s, owner)[1] == managed_a(s, owner)[1]);
    managed_keys_are_set(list, s, owner, 2);
    assert(managed(s, owner)[2] == managed_a(s, owner)[2]);
    managed_keys_are_set(list, s, owner, 3);
    assert(managed(s, owner)[3] == managed_a(s, owner)[3]);
    managed_keys_are_set(list, s, owner, 4);
    assert(managed(s, owner)[4] == managed_a(s, owner)[4]);
    managed_keys_are_set(list, s, owner, 5);
    assert(managed(s, owner)[5] == managed_a(s, owner)[5]);
    managed_keys_are_set(list, s, owner, 6);
    assert(managed(s, owner)[6] == managed_a(s, owner)[6]);
    managed_keys_are_set(list, s, owner, 7);
    assert(managed(s, owner)[7] == managed_a(s, owner)[7]);
}

proof fn lemma_lookups_b(list: Members, s: SettingsView, owner: Seq<char>)
    requires
        table::ordered(list),
    ensures
        table::lookup(profile_with(list, s, owner), "ctx-size"@) == Some(Json::Unsigned(s.ctx)),
        table::lookup(profile_with(list, s, owner), "direct-io"@) == flag_if(s.direct_io),
        table::lookup(profile_with(list, s, owner), "fit"@) == text_if(s.fit == "off"@, "off"@),
        table::lookup(profile_with(list, s, owner), "fit-target"@) == number_if(s.fit != "off"@, s.fit_target),
        table::lookup(profile_with(list, s, owner), "flash-attn"@) == Some(Json::Text(s.flash)),
        table::lookup(profile_with(list, s, owner), "frequency-penalty"@) == text_if(s.frequency_penalty.len() > 0, s.frequency_penalty),
        table::lookup(profile_with(list, s, owner), "jinja"@) == flag_if(s.jinja),
        table::lookup(profile_with(list, s, owner), "kv-offload"@) == None::<Json>,
{
    managed_keys_are_set(list, s, owner, 8);
    assert(managed(s, owner)[8] == managed_b(s)[0]);
    managed_keys_are_set(list, s, owner, 9);
    assert(managed(s, owner)[9] == managed_b(s)[1]);
    managed_keys_are_set(list, s, owner, 10);
    assert(managed(s, owner)[10] == managed_b(s)[2]);
    managed_keys_are_set(list, s, owner, 11);
    assert(managed(s, owner)[11] == managed_b(s)[3]);
    managed_keys_are_set(list, s, owner, 12);
    assert(managed(s, owner)[12] == managed_b(s)[4]);
    managed_keys_are_set(list, s, owner, 13);
    assert(managed(s, owner)[13] == managed_b(s)[5]);
    managed_keys_are_set(list, s, owner, 14);
    assert(managed(s, owner)[14] == managed_b(s)[6]);
    managed_keys_are_set(list, s, owner, 15);
    assert(managed(s, owner)[15] == managed_b(s)[7]);
}

proof fn lemma_lookups_c(list: Members, s: SettingsView, owner: Seq<char>)
    requires
        table::ordered(list),
    ensures
        table::lookup(profile_with(list, s, owner), "kv-unified"@) == flag_if(s.kv_unified),
        table::lookup(profile_with(list, s, owner), "load-mode"@) == text_if(s.load_mode.len() > 0, s.load_mode),
        table::lookup(profile_with(list, s, owner), "min-p"@) == text_if(s.min_p.len() > 0, s.min_p),
        table::lookup(profile_with(list, s, owner), "mlock"@) == flag_if(s.mlock),
        table::lookup(profile_with(list, s, owner), "n-cpu-moe"@) == number_if(s.n_cpu_moe != 0, s.n_cpu_moe),
        table::lookup(profile_with(list, s, owner), "n-gpu-layers"@) == Some(Json::Text(s.gpu_layers)),
        table::lookup(profile_with(list, s, owner), "no-jinja"@) == flag_if(!s.jinja),
        table::lookup(profile_with(list, s, owner), "no-kv-offload"@) == flag_if(!s.kv_offload),
{
    managed_keys_are_set(list, s, owner, 16);
    assert(managed(s, owner)[16] == managed_c(s)[0]);
    managed_keys_are_set(list, s, owner, 17);
    assert(managed(s, owner)[17] == managed_c(s)[1]);
    managed_keys_are_set(list, s, owner, 18);
    assert(managed(s, owner)[18] == managed_c(s)[2]);
    managed_keys_are_set(list, s, owner, 19);
    assert(managed(s, owner)[19] == managed_c(s)[3]);
    managed_keys_are_set(list, s, owner, 20);
    assert(managed(s, owner)[20] == managed_c(s)[4]);
    managed_keys_are_set(list, s, owner, 21);
    assert(managed(s, owner)[21] == managed_c(s)[5]);
    managed_keys_are_set(list, s, owner, 22);
    assert(managed(s, owner)[22] == managed_c(s)[6]);
    managed_keys_are_set(list, s, owner, 23);
    assert(managed(s, owner)[23] == managed_c(s)[7]);
}

proof fn lemma_lookups_d(list: Members, s: SettingsView, owner: Seq<char>)
    requires
        table::ordered(list),
    ensures
        table::lookup(profile_with(list, s, owner), "no-kv-unified"@) == flag_if(!s.kv_unified),
        table::lookup(profile_with(list, s, owner), "numa"@) == text_if(s.numa != "off"@, s.numa),
        table::lookup(profile_with(list, s, owner), "override-tensor"@) == text_if(s.override_tensor.len() > 0, s.override_tensor),
        table::lookup(profile_with(list, s, owner), "parallel"@) == Some(Json::Unsigned(s.parallel)),
        table::lookup(profile_with(list, s, owner), "presence-penalty"@) == text_if(s.presence_penalty.len() > 0, s.presence_penalty),
        table::lookup(profile_with(list, s, owner), "reasoning"@) == text_if(s.reasoning.len() > 0, s.reasoning),
        table::lookup(profile_with(list, s, owner), "repeat-penalty"@) == text_if(s.repeat_penalty.len() > 0, s.repeat_penalty),
        table::lookup(profile_with(list, s, owner), "rope-freq-base"@) == text_if(s.rope_base.len() > 0, s.rope_base),
{
    managed_keys_are_set(list, s, owner, 24);
    assert(managed(s, owner)[24] == managed_d(s)[0]);
    managed_keys_are_set(list, s, owner, 25);
    assert(managed(s, owner)[25] == managed_d(s)[1]);
    managed_keys_are_set(list, s, owner, 26);
    assert(managed(s, owner)[26] == managed_d(s)[2]);
    managed_keys_are_set(list, s, owner, 27);
    assert(managed(s, owner)[27] == managed_d(s)[3]);
    managed_keys_are_set(list, s, owner, 28);
    assert(managed(s, owner)[28] == managed_d(s)[4]);
    managed_keys_are_set(list, s, owner, 29);
    assert(managed(s, owner)[29] == managed_d(s)[5]);
    managed_keys_are_set(list, s, owner, 30);
    assert(managed(s, owner)[30] == managed_d(s)[6]);
    managed_keys_are_set(list, s, owner, 31);
    assert(managed(s, owner)[31] == managed_d(s)[7]);
}

proof fn lemma_lookups_e(list: Members, s: SettingsView, owner: Seq<char>)
    requires
        table::ordered(list),
    ensures
        table::lookup(profile_with(list, s, owner), "rope-freq-scale"@) == text_if(s.rope_scale.len() > 0, s.rope_scale),
        table::lookup(profile_with(list, s, owner), "seed"@) == text_if(s.seed.len() > 0, s.seed),
        table::lookup(profile_with(list, s, owner), "spec-draft-model"@) == text_if(s.spec_draft_model.len() > 0, s.spec_draft_model),
        table::lookup(profile_with(list, s, owner), "spec-draft-n-cpu-moe"@) == number_if(
            s.spec_draft_model.len() > 0 && s.spec_draft_n_cpu_moe != 0,
            s.spec_draft_n_cpu_moe,
        ),
        table::lookup(profile_with(list, s, owner), "spec-draft-n-max"@) == number_if(drafts(s), s.spec_draft_nmax),
        table::lookup(profile_with(list, s, owner), "spec-draft-ngl"@) == text_if(s.spec_draft_model.len() > 0, s.spec_draft_ngl),
        table::lookup(profile_with(list, s, owner), "spec-type"@) == text_if(drafts(s), s.spec_type),
        table::lookup(profile_with(list, s, owner), "split-mode"@) == Some(Json::Text(s.split)),
{
    managed_keys_are_set(list, s, owner, 32);
    assert(managed(s, owner)[32] == managed_e(s)[0]);
    managed_keys_are_set(list, s, owner, 33);
    assert(managed(s, owner)[33] == managed_e(s)[1]);
    managed_keys_are_set(list, s, owner, 34);
    assert(managed(s, owner)[34] == managed_e(s)[2]);
    managed_keys_are_set(list, s, owner, 35);
    assert(managed(s, owner)[35] == managed_e(s)[3]);
    managed_keys_are_set(list, s, owner, 36);
    assert(managed(s, owner)[36] == managed_e(s)[4]);
    managed_keys_are_set(list, s, owner, 37);
    assert(managed(s, owner)[37] == managed_e(s)[5]);
    managed_keys_are_set(list, s, owner, 38);
    assert(managed(s, owner)[38] == managed_e(s)[6]);
    managed_keys_are_set(list, s, owner, 39);
    assert(managed(s, owner)[39] == managed_e(s)[7]);
}

proof fn lemma_lookups_f(list: Members, s: SettingsView, owner: Seq<char>)
    requires
        table::ordered(list),
    ensures
        table::lookup(profile_with(list, s, owner), "temperature"@) == text_if(s.temperature.len() > 0, s.temperature),
        table::lookup(profile_with(list, s, owner), "tensor-split"@) == Some(Json::Text(s.tensor_split)),
        table::lookup(profile_with(list, s, owner), "threads"@) == Some(Json::Unsigned(s.threads)),
        table::lookup(profile_with(list, s, owner), "threads-batch"@) == Some(Json::Unsigned(s.threads_batch)),
        table::lookup(profile_with(list, s, owner), "top-k"@) == text_if(s.top_k.len() > 0, s.top_k),
        table::lookup(profile_with(list, s, owner), "top-p"@) == text_if(s.top_p.len() > 0, s.top_p),
        table::lookup(profile_with(list, s, owner), "ubatch-size"@) == Some(Json::Unsigned(s.ubatch)),
{
    managed_keys_are_set(list, s, owner, 40);
    assert(managed(s, owner)[40] == managed_f(s)[0]);
    managed_keys_are_set(list, s, owner, 41);
    assert(managed(s, owner)[41] == managed_f(s)[1]);
    managed_keys_are_set(list, s, owner, 42);
    assert(managed(s, owner)[42] == managed_f(s)[2]);
    managed_keys_are_set(list, s, owner, 43);
    assert(managed(s, owner)[43] == managed_f(s)[3]);
    managed_keys_are_set(list, s, owner, 44);
    assert(managed(s, owner)[44] == managed_f(s)[4]);
    managed_keys_are_set(list, s, owner, 45);
    assert(managed(s, owner)[45] == managed_f(s)[5]);
    managed_keys_are_set(list, s, owner, 46);
    assert(managed(s, owner)[46] == managed_f(s)[6]);
}

/// Settings that were put into a profile are read back out of it. Flags that the editor
/// keeps as settings of their own are not among the added ones.
pub proof fn settings_read_back(list: Members, s: SettingsView, owner: Seq<char>)
    requires
        table::ordered(list),
        forall|i: int| 0 <= i < s.extra.len() ==> !is_kept_flag(#[trigger] s.extra[i]),
    ensures
        settings_in(profile_with(list, s, owner)) == read_back(s),
{
    lemma_lookups_a(list, s, owner);
    lemma_lookups_b(list, s, owner);
    lemma_lookups_c(list, s, owner);
    lemma_lookups_d(list, s, owner);
    lemma_lookups_e(list, s, owner);
    lemma_lookups_f(list, s, owner);
    let new = profile_with(list, s, owner);
    let flags = extra_under(new);
    reveal_strlit("");
    if s.extra.len() > 0 {
        let items = s.extra.map_values(|t: Seq<char>| Json::Text(t));
        lemma_texts_back(s.extra, s.extra.len());
        assert(items.len() == s.extra.len());
        assert(s.extra.take(s.extra.len() as int) =~= s.extra);
    } else {
        assert(s.extra =~= seq![]);
    }
    assert(flags == s.extra);
    lemma_other_flags_all(s.extra, s.extra.len());
    assert(s.extra.take(s.extra.len() as int) =~= s.extra);
    assert forall|flag: Seq<char>| is_kept_flag(flag) implies !s.extra.contains(flag) by {
        if s.extra.contains(flag) {
            let i = choose|i: int| 0 <= i < s.extra.len() && s.extra[i] == flag;
            assert(!is_kept_flag(s.extra[i]));
        }
    }
    assert(is_kept_flag("--kv-unified"@) && is_kept_flag("--no-kv-unified"@));
    assert(is_kept_flag("--jinja"@) && is_kept_flag("--no-jinja"@));
    let back = settings_in(new);
    let want = read_back(s);
    assert(back.ctx == want.ctx);
    assert(back.context_step == want.context_step);
    assert(back.parallel == want.parallel);
    assert(back.batch == want.batch);
    assert(back.ubatch == want.ubatch);
    assert(back.cache_k =~= want.cache_k);
    assert(back.cache_v =~= want.cache_v);
    assert(back.flash =~= want.flash);
    assert(back.gpu_layers =~= want.gpu_layers);
    assert(back.split =~= want.split);
    assert(back.tensor_split =~= want.tensor_split);
    assert(back.threads == want.threads);
    assert(back.threads_batch == want.threads_batch);
    assert(back.kv_unified == want.kv_unified);
    assert(back.spec_type =~= want.spec_type);
    assert(back.spec_draft_model =~= want.spec_draft_model);
    assert(back.spec_draft_nmax == want.spec_draft_nmax);
    assert(back.spec_draft_ngl =~= want.spec_draft_ngl);
    assert(back.fit =~= want.fit);
    assert(back.fit_target == want.fit_target);
    assert(back.load_mode =~= want.load_mode);
    assert(back.mlock == want.mlock);
    assert(back.direct_io == want.direct_io);
    assert(back.numa =~= want.numa);
    assert(back.n_cpu_moe == want.n_cpu_moe);
    assert(back.spec_draft_n_cpu_moe == want.spec_draft_n_cpu_moe);
    assert(back.kv_offload == want.kv_offload);
    assert(back.override_tensor =~= want.override_tensor);
    assert(back.rope_base =~= want.rope_base);
    assert(back.rope_scale =~= want.rope_scale);
    assert(back.seed =~= want.seed);
    assert(back.temperature =~= want.temperature);
    assert(back.top_k =~= want.top_k);
    assert(back.top_p =~= want.top_p);
    assert(back.min_p =~= want.min_p);
    assert(back.repeat_penalty =~= want.repeat_penalty);
    assert(back.presence_penalty =~= want.presence_penalty);
    assert(back.frequency_penalty =~= want.frequency_penalty);
    assert(back.reasoning =~= want.reasoning);
    assert(back.jinja == want.jinja);
    assert(back.chat_template =~= want.chat_template);
    assert(back.chat_template_file =~= want.chat_template_file);
    assert(back.chat_template_kwargs =~= want.chat_template_kwargs);
    assert(back.assign == want.assign);
}

} // verus!
