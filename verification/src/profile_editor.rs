//! The fields of the profile editor: what they show, what they take, and what its keys do.
use vstd::prelude::*;

use crate::commands;
use crate::config::{Config, ConfigView};
use crate::editing;
use crate::editing::{Edit, Key, KeyCode, Line, LineAction, LineView};
use crate::editor;
use crate::editor::{EditorSettings, SettingsView};
use crate::json;
use crate::json::{Json, JsonValue};
use crate::metadata;
use crate::process;
use crate::profiles;
use crate::profiles::{Profiles, ProfilesView};
use crate::table;
use crate::table::Table;
use crate::templates::Templates;
use crate::text;

verus! {

/// A field of the editor.
#[derive(Clone, Copy, Debug, PartialEq, Eq, Structural)]
pub enum EditorField {
    Ctx,
    ContextStep,
    Parallel,
    Batch,
    Ubatch,
    CacheK,
    CacheV,
    Flash,
    GpuLayers,
    Split,
    TensorSplit,
    Threads,
    ThreadsBatch,
    KvUnified,
    SpecType,
    SpecDraftModel,
    SpecDraftNMax,
    SpecDraftNgl,
    Extra,
    Assign,
    Advanced,
    Fit,
    FitTarget,
    LoadMode,
    Mlock,
    DirectIO,
    Numa,
    KvOffload,
    CpuMoe,
    DraftCpuMoe,
    OverrideTensor,
    RopeBase,
    RopeScale,
    Temperature,
    TopK,
    TopP,
    MinP,
    RepeatPenalty,
    PresencePenalty,
    FrequencyPenalty,
    Seed,
    Reasoning,
    Jinja,
    ChatTemplate,
    ChatTemplateKwargs,
}

/// A flag with its argument, where the argument is not empty.
pub open spec fn argument(flag: Seq<char>, value: Seq<char>) -> Seq<Seq<char>> {
    if value.len() > 0 {
        seq![flag, value]
    } else {
        seq![]
    }
}

/// A flag, where it is switched on.
pub open spec fn switch(on: bool, flag: Seq<char>) -> Seq<Seq<char>> {
    if on {
        seq![flag]
    } else {
        seq![]
    }
}

fn filled(s: &str) -> (yes: bool)
    ensures
        yes == (s@.len() > 0),
{
    text::chars_of(s).len() > 0
}

fn add_one(out: &mut Vec<String>, flag: &str)
    ensures
        text::views(final(out)@) == text::views(old(out)@) + seq![flag@],
{
    process::add(out, flag);
    proof {
        assert(text::views(out@) =~= text::views(old(out)@) + seq![flag@]);
    }
}

fn add_pair(out: &mut Vec<String>, flag: &str, value: &str)
    ensures
        text::views(final(out)@) == text::views(old(out)@) + seq![flag@, value@],
{
    process::add(out, flag);
    process::add(out, value);
    proof {
        assert(text::views(out@) =~= text::views(old(out)@) + seq![flag@, value@]);
    }
}

fn add_number(out: &mut Vec<String>, flag: &str, n: u64)
    ensures
        text::views(final(out)@) == text::views(old(out)@) + seq![
            flag@,
            text::decimal_of(n as nat),
        ],
{
    add_pair(out, flag, text::decimal(n).as_str());
}

fn add_argument(out: &mut Vec<String>, flag: &str, value: &str)
    ensures
        text::views(final(out)@) == text::views(old(out)@) + argument(flag@, value@),
{
    if filled(value) {
        add_pair(out, flag, value);
    } else {
        proof {
            assert(text::views(out@) =~= text::views(out@) + argument(flag@, value@));
        }
    }
}

/// A part of the arguments for some settings.
pub open spec fn arguments_a(s: SettingsView) -> Seq<Seq<char>> {
    let out = seq!["--ctx-size"@, text::decimal_of(s.ctx as nat)];
    let out = out + seq!["--parallel"@, text::decimal_of(s.parallel as nat)];
    let out = out + seq!["--batch-size"@, text::decimal_of(s.batch as nat)];
    let out = out + seq!["--ubatch-size"@, text::decimal_of(s.ubatch as nat)];
    let out = out + seq!["--cache-type-k"@, s.cache_k];
    let out = out + seq!["--cache-type-v"@, s.cache_v];
    let out = out + seq!["--flash-attn"@, s.flash];
    let out = out + seq!["--n-gpu-layers"@, s.gpu_layers];
    let out = out + seq!["--split-mode"@, s.split];
    let out = out + seq!["--tensor-split"@, s.tensor_split];
    let out = out + seq!["--threads"@, text::decimal_of(s.threads as nat)];
    let out = out + seq!["--threads-batch"@, text::decimal_of(s.threads_batch as nat)];
    let out = out + seq![if s.kv_unified {
        "--kv-unified"@
    } else {
        "--no-kv-unified"@
    }];
    out
}

/// A part of the arguments for some settings.
pub open spec fn arguments_b(s: SettingsView) -> Seq<Seq<char>> {
    let out = if editor::drafts(s) {
        seq![
            "--spec-type"@,
            s.spec_type,
            "--spec-draft-n-max"@,
            text::decimal_of(s.spec_draft_nmax as nat),
        ]
    } else {
        seq![]
    };
    let out = out + (if s.spec_draft_model.len() > 0 {
        seq!["--spec-draft-model"@, s.spec_draft_model, "--spec-draft-ngl"@, s.spec_draft_ngl]
    } else {
        seq![]
    });
    let out = out + (if s.spec_draft_model.len() > 0 && s.spec_draft_n_cpu_moe != 0 {
        seq!["--spec-draft-n-cpu-moe"@, text::decimal_of(s.spec_draft_n_cpu_moe as nat)]
    } else {
        seq![]
    });
    let out = out + (if s.fit == "off"@ {
        seq!["--fit"@, "off"@]
    } else {
        seq!["--fit-target"@, text::decimal_of(s.fit_target as nat)]
    });
    let out = out + argument("--load-mode"@, s.load_mode);
    let out = out + switch(s.mlock, "--mlock"@);
    let out = out + switch(s.direct_io, "--direct-io"@);
    let out = out + (if s.numa != "off"@ {
        seq!["--numa"@, s.numa]
    } else {
        seq![]
    });
    let out = out + (if s.n_cpu_moe != 0 {
        seq!["--n-cpu-moe"@, text::decimal_of(s.n_cpu_moe as nat)]
    } else {
        seq![]
    });
    out
}

/// A part of the arguments for some settings.
pub open spec fn arguments_c(s: SettingsView) -> Seq<Seq<char>> {
    let out = switch(!s.kv_offload, "--no-kv-offload"@);
    let out = out + argument("--override-tensor"@, s.override_tensor);
    let out = out + argument("--rope-freq-base"@, s.rope_base);
    let out = out + argument("--rope-freq-scale"@, s.rope_scale);
    let out = out + argument("--seed"@, s.seed);
    let out = out + seq![if s.jinja {
        "--jinja"@
    } else {
        "--no-jinja"@
    }];
    let out = out + (if s.chat_template_file.len() > 0 {
        seq!["--chat-template-file"@, s.chat_template_file]
    } else {
        argument("--chat-template"@, s.chat_template)
    });
    let out = out + argument("--chat-template-kwargs"@, s.chat_template_kwargs);
    let out = out + argument("--reasoning"@, s.reasoning);
    out
}

/// The arguments for a server with the settings of the editor.
pub open spec fn editor_args_of(c: ConfigView, s: SettingsView) -> Seq<Seq<char>> {
    process::common_args_of(c) + arguments_a(s) + arguments_b(s) + arguments_c(s) + s.extra
}

fn part_a(s: &EditorSettings) -> (out: Vec<String>)
    ensures
        text::views(out@) == arguments_a(s@),
{
    let mut args: Vec<String> = Vec::new();
    proof {
        assert(text::views(args@) =~= seq![]);
    }
    add_number(&mut args, "--ctx-size", s.ctx);
    proof {
        assert(text::views(args@) =~= seq!["--ctx-size"@, text::decimal_of(s@.ctx as nat)]);
    }
    add_number(&mut args, "--parallel", s.parallel);
    add_number(&mut args, "--batch-size", s.batch);
    add_number(&mut args, "--ubatch-size", s.ubatch);
    add_pair(&mut args, "--cache-type-k", s.cache_k.as_str());
    add_pair(&mut args, "--cache-type-v", s.cache_v.as_str());
    add_pair(&mut args, "--flash-attn", s.flash.as_str());
    add_pair(&mut args, "--n-gpu-layers", s.gpu_layers.as_str());
    add_pair(&mut args, "--split-mode", s.split.as_str());
    add_pair(&mut args, "--tensor-split", s.tensor_split.as_str());
    add_number(&mut args, "--threads", s.threads);
    add_number(&mut args, "--threads-batch", s.threads_batch);
    add_one(
        &mut args,
        if s.kv_unified {
            "--kv-unified"
        } else {
            "--no-kv-unified"
        },
    );
    args
}

fn part_b(s: &EditorSettings) -> (out: Vec<String>)
    ensures
        text::views(out@) == arguments_b(s@),
{
    let mut args: Vec<String> = Vec::new();
    proof {
        assert(text::views(args@) =~= seq![]);
    }
    let ghost before = text::views(args@);
    if !text::same(s.spec_type.as_str(), "none") && filled(s.spec_type.as_str()) {
        add_pair(&mut args, "--spec-type", s.spec_type.as_str());
        add_number(&mut args, "--spec-draft-n-max", s.spec_draft_nmax);
    }
    proof {
        assert(text::views(args@) =~= before + (if editor::drafts(s@) {
        seq![
            "--spec-type"@,
            s@.spec_type,
            "--spec-draft-n-max"@,
            text::decimal_of(s@.spec_draft_nmax as nat),
        ]
    } else {
        seq![]
    }));
    }
    let ghost before = text::views(args@);
    let drafted: bool = filled(s.spec_draft_model.as_str());
    if drafted {
        add_pair(&mut args, "--spec-draft-model", s.spec_draft_model.as_str());
        add_pair(&mut args, "--spec-draft-ngl", s.spec_draft_ngl.as_str());
    }
    proof {
        assert(text::views(args@) =~= before + (if s@.spec_draft_model.len() > 0 {
        seq!["--spec-draft-model"@, s@.spec_draft_model, "--spec-draft-ngl"@, s@.spec_draft_ngl]
    } else {
        seq![]
    }));
    }
    let ghost before = text::views(args@);
    if drafted && s.spec_draft_n_cpu_moe != 0 {
        add_number(&mut args, "--spec-draft-n-cpu-moe", s.spec_draft_n_cpu_moe);
    }
    proof {
        assert(text::views(args@) =~= before + (if s@.spec_draft_model.len() > 0 && s@.spec_draft_n_cpu_moe != 0 {
        seq!["--spec-draft-n-cpu-moe"@, text::decimal_of(s@.spec_draft_n_cpu_moe as nat)]
    } else {
        seq![]
    }));
    }
    let ghost before = text::views(args@);
    if text::same(s.fit.as_str(), "off") {
        add_pair(&mut args, "--fit", "off");
    } else {
        add_number(&mut args, "--fit-target", s.fit_target);
    }
    proof {
        assert(text::views(args@) =~= before + (if s@.fit == "off"@ {
        seq!["--fit"@, "off"@]
    } else {
        seq!["--fit-target"@, text::decimal_of(s@.fit_target as nat)]
    }));
    }
    add_argument(&mut args, "--load-mode", s.load_mode.as_str());
    let ghost before = text::views(args@);
    if s.mlock {
        add_one(&mut args, "--mlock");
    }
    proof {
        assert(text::views(args@) =~= before + (switch(s@.mlock, "--mlock"@)));
    }
    let ghost before = text::views(args@);
    if s.direct_io {
        add_one(&mut args, "--direct-io");
    }
    proof {
        assert(text::views(args@) =~= before + (switch(s@.direct_io, "--direct-io"@)));
    }
    let ghost before = text::views(args@);
    if !text::same(s.numa.as_str(), "off") {
        add_pair(&mut args, "--numa", s.numa.as_str());
    }
    proof {
        assert(text::views(args@) =~= before + (if s@.numa != "off"@ {
        seq!["--numa"@, s@.numa]
    } else {
        seq![]
    }));
    }
    let ghost before = text::views(args@);
    if s.n_cpu_moe != 0 {
        add_number(&mut args, "--n-cpu-moe", s.n_cpu_moe);
    }
    proof {
        assert(text::views(args@) =~= before + (if s@.n_cpu_moe != 0 {
        seq!["--n-cpu-moe"@, text::decimal_of(s@.n_cpu_moe as nat)]
    } else {
        seq![]
    }));
    }
    args
}

fn part_c(s: &EditorSettings) -> (out: Vec<String>)
    ensures
        text::views(out@) == arguments_c(s@),
{
    let mut args: Vec<String> = Vec::new();
    proof {
        assert(text::views(args@) =~= seq![]);
    }
    let ghost before = text::views(args@);
    if !s.kv_offload {
        add_one(&mut args, "--no-kv-offload");
    }
    proof {
        assert(text::views(args@) =~= before + (switch(!s@.kv_offload, "--no-kv-offload"@)));
    }
    add_argument(&mut args, "--override-tensor", s.override_tensor.as_str());
    add_argument(&mut args, "--rope-freq-base", s.rope_base.as_str());
    add_argument(&mut args, "--rope-freq-scale", s.rope_scale.as_str());
    add_argument(&mut args, "--seed", s.seed.as_str());
    add_one(
        &mut args,
        if s.jinja {
            "--jinja"
        } else {
            "--no-jinja"
        },
    );
    let ghost before = text::views(args@);
    if filled(s.chat_template_file.as_str()) {
        add_pair(&mut args, "--chat-template-file", s.chat_template_file.as_str());
    } else {
        add_argument(&mut args, "--chat-template", s.chat_template.as_str());
    }
    proof {
        assert(text::views(args@) =~= before + (if s@.chat_template_file.len() > 0 {
        seq!["--chat-template-file"@, s@.chat_template_file]
    } else {
        argument("--chat-template"@, s@.chat_template)
    }));
    }
    add_argument(&mut args, "--chat-template-kwargs", s.chat_template_kwargs.as_str());
    add_argument(&mut args, "--reasoning", s.reasoning.as_str());
    args
}

/// The arguments for a server with the settings of the editor.
pub fn editor_args(cfg: &Config, s: &EditorSettings) -> (out: Vec<String>)
    ensures
        text::views(out@) == editor_args_of(cfg@, s@),
{
    let mut args: Vec<String> = process::common_args(cfg);
    process::add_all(&mut args, part_a(s).as_slice());
    process::add_all(&mut args, part_b(s).as_slice());
    process::add_all(&mut args, part_c(s).as_slice());
    process::add_all(&mut args, s.extra.as_slice());
    args
}

/// What a field is called.
pub open spec fn label_of(field: EditorField) -> Seq<char> {
    match field {
        EditorField::Ctx => "Context size"@,
        EditorField::ContextStep => "Context step"@,
        EditorField::Parallel => "Parallel slots"@,
        EditorField::Batch => "Prompt batch"@,
        EditorField::Ubatch => "Microbatch"@,
        EditorField::CacheK => "K cache"@,
        EditorField::CacheV => "V cache"@,
        EditorField::Flash => "Flash attention"@,
        EditorField::GpuLayers => "GPU layers"@,
        EditorField::Split => "Split mode"@,
        EditorField::TensorSplit => "Tensor split"@,
        EditorField::Threads => "Threads"@,
        EditorField::ThreadsBatch => "Threads batch"@,
        EditorField::KvUnified => "Unified KV cache"@,
        EditorField::SpecType => "Speculative type"@,
        EditorField::SpecDraftModel => "Draft model"@,
        EditorField::SpecDraftNMax => "Draft tokens"@,
        EditorField::SpecDraftNgl => "Draft GPU layers"@,
        EditorField::Extra => "Extra flags"@,
        EditorField::Assign => "Default profile for model"@,
        EditorField::Advanced => "Advanced options"@,
        EditorField::Fit => "Fit"@,
        EditorField::FitTarget => "Fit target (MiB)"@,
        EditorField::LoadMode => "Load mode"@,
        EditorField::Mlock => "Keep model in memory"@,
        EditorField::DirectIO => "Direct I/O"@,
        EditorField::Numa => "NUMA"@,
        EditorField::KvOffload => "KV cache on GPU"@,
        EditorField::CpuMoe => "CPU experts"@,
        EditorField::DraftCpuMoe => "Draft CPU experts"@,
        EditorField::OverrideTensor => "Override tensor"@,
        EditorField::RopeBase => "RoPE frequency base"@,
        EditorField::RopeScale => "RoPE frequency scale"@,
        EditorField::Temperature => "Temperature"@,
        EditorField::TopK => "Top-K"@,
        EditorField::TopP => "Top-P"@,
        EditorField::MinP => "Min-P"@,
        EditorField::RepeatPenalty => "Repeat penalty"@,
        EditorField::PresencePenalty => "Presence penalty"@,
        EditorField::FrequencyPenalty => "Frequency penalty"@,
        EditorField::Seed => "Seed"@,
        EditorField::Reasoning => "Reasoning"@,
        EditorField::Jinja => "Jinja templates"@,
        EditorField::ChatTemplate => "Chat template"@,
        EditorField::ChatTemplateKwargs => "Template kwargs"@,
    }
}

pub fn editor_field_label(field: EditorField) -> (out: &'static str)
    ensures
        out@ == label_of(field),
{
    match field {
        EditorField::Ctx => "Context size",
        EditorField::ContextStep => "Context step",
        EditorField::Parallel => "Parallel slots",
        EditorField::Batch => "Prompt batch",
        EditorField::Ubatch => "Microbatch",
        EditorField::CacheK => "K cache",
        EditorField::CacheV => "V cache",
        EditorField::Flash => "Flash attention",
        EditorField::GpuLayers => "GPU layers",
        EditorField::Split => "Split mode",
        EditorField::TensorSplit => "Tensor split",
        EditorField::Threads => "Threads",
        EditorField::ThreadsBatch => "Threads batch",
        EditorField::KvUnified => "Unified KV cache",
        EditorField::SpecType => "Speculative type",
        EditorField::SpecDraftModel => "Draft model",
        EditorField::SpecDraftNMax => "Draft tokens",
        EditorField::SpecDraftNgl => "Draft GPU layers",
        EditorField::Extra => "Extra flags",
        EditorField::Assign => "Default profile for model",
        EditorField::Advanced => "Advanced options",
        EditorField::Fit => "Fit",
        EditorField::FitTarget => "Fit target (MiB)",
        EditorField::LoadMode => "Load mode",
        EditorField::Mlock => "Keep model in memory",
        EditorField::DirectIO => "Direct I/O",
        EditorField::Numa => "NUMA",
        EditorField::KvOffload => "KV cache on GPU",
        EditorField::CpuMoe => "CPU experts",
        EditorField::DraftCpuMoe => "Draft CPU experts",
        EditorField::OverrideTensor => "Override tensor",
        EditorField::RopeBase => "RoPE frequency base",
        EditorField::RopeScale => "RoPE frequency scale",
        EditorField::Temperature => "Temperature",
        EditorField::TopK => "Top-K",
        EditorField::TopP => "Top-P",
        EditorField::MinP => "Min-P",
        EditorField::RepeatPenalty => "Repeat penalty",
        EditorField::PresencePenalty => "Presence penalty",
        EditorField::FrequencyPenalty => "Frequency penalty",
        EditorField::Seed => "Seed",
        EditorField::Reasoning => "Reasoning",
        EditorField::Jinja => "Jinja templates",
        EditorField::ChatTemplate => "Chat template",
        EditorField::ChatTemplateKwargs => "Template kwargs",
    }
}

/// A text, or something else where it is empty.
pub open spec fn or_else(s: Seq<char>, otherwise: Seq<char>) -> Seq<char> {
    if s.len() > 0 {
        s
    } else {
        otherwise
    }
}

fn or_text(s: &str, otherwise: &str) -> (out: String)
    ensures
        out@ == or_else(s@, otherwise@),
{
    if filled(s) {
        s.to_owned()
    } else {
        otherwise.to_owned()
    }
}

pub open spec fn on_off(on: bool) -> Seq<char> {
    if on {
        "on"@
    } else {
        "off"@
    }
}

fn on_off_text(on: bool) -> (out: String)
    ensures
        out@ == on_off(on),
{
    if on {
        "on".to_owned()
    } else {
        "off".to_owned()
    }
}

/// What a field shows.
pub open spec fn value_of(field: EditorField, s: SettingsView) -> Seq<char> {
    match field {
        EditorField::Ctx => text::decimal_of(s.ctx as nat),
        EditorField::ContextStep => text::decimal_of(s.context_step as nat),
        EditorField::Parallel => text::decimal_of(s.parallel as nat),
        EditorField::Batch => text::decimal_of(s.batch as nat),
        EditorField::Ubatch => text::decimal_of(s.ubatch as nat),
        EditorField::CacheK => s.cache_k,
        EditorField::CacheV => s.cache_v,
        EditorField::Flash => s.flash,
        EditorField::GpuLayers => s.gpu_layers,
        EditorField::Split => s.split,
        EditorField::TensorSplit => s.tensor_split,
        EditorField::Threads => text::decimal_of(s.threads as nat),
        EditorField::ThreadsBatch => text::decimal_of(s.threads_batch as nat),
        EditorField::KvUnified => on_off(s.kv_unified),
        EditorField::SpecType => s.spec_type,
        EditorField::SpecDraftModel => or_else(s.spec_draft_model, "—"@),
        EditorField::SpecDraftNMax => if s.spec_draft_nmax == 0 {
            "off"@
        } else {
            text::decimal_of(s.spec_draft_nmax as nat)
        },
        EditorField::SpecDraftNgl => s.spec_draft_ngl,
        EditorField::Extra => if s.extra.len() == 0 {
            "—"@
        } else {
            text::joined(s.extra, " "@)
        },
        EditorField::Assign => if s.assign {
            "yes"@
        } else {
            "no"@
        },
        EditorField::Advanced => ""@,
        EditorField::Fit => s.fit,
        EditorField::FitTarget => text::decimal_of(s.fit_target as nat),
        EditorField::LoadMode => or_else(s.load_mode, "(default)"@),
        EditorField::Mlock => on_off(s.mlock),
        EditorField::DirectIO => on_off(s.direct_io),
        EditorField::Numa => s.numa,
        EditorField::KvOffload => on_off(s.kv_offload),
        EditorField::CpuMoe => text::decimal_of(s.n_cpu_moe as nat),
        EditorField::DraftCpuMoe => text::decimal_of(s.spec_draft_n_cpu_moe as nat),
        EditorField::OverrideTensor => or_else(s.override_tensor, "—"@),
        EditorField::RopeBase => or_else(s.rope_base, "(default)"@),
        EditorField::RopeScale => or_else(s.rope_scale, "(default)"@),
        EditorField::Temperature => or_else(s.temperature, "(default)"@),
        EditorField::TopK => or_else(s.top_k, "(default)"@),
        EditorField::TopP => or_else(s.top_p, "(default)"@),
        EditorField::MinP => or_else(s.min_p, "(default)"@),
        EditorField::RepeatPenalty => or_else(s.repeat_penalty, "(default)"@),
        EditorField::PresencePenalty => or_else(s.presence_penalty, "(default)"@),
        EditorField::FrequencyPenalty => or_else(s.frequency_penalty, "(default)"@),
        EditorField::Seed => or_else(s.seed, "(random)"@),
        EditorField::Reasoning => or_else(s.reasoning, "(default)"@),
        EditorField::Jinja => on_off(s.jinja),
        EditorField::ChatTemplate => or_else(s.chat_template, "(model default)"@),
        EditorField::ChatTemplateKwargs => or_else(s.chat_template_kwargs, "—"@),
    }
}

pub fn editor_field_value(field: EditorField, s: &EditorSettings) -> (out: String)
    ensures
        out@ == value_of(field, s@),
{
    match field {
        EditorField::Ctx => text::decimal(s.ctx),
        EditorField::ContextStep => text::decimal(s.context_step),
        EditorField::Parallel => text::decimal(s.parallel),
        EditorField::Batch => text::decimal(s.batch),
        EditorField::Ubatch => text::decimal(s.ubatch),
        EditorField::CacheK => s.cache_k.clone(),
        EditorField::CacheV => s.cache_v.clone(),
        EditorField::Flash => s.flash.clone(),
        EditorField::GpuLayers => s.gpu_layers.clone(),
        EditorField::Split => s.split.clone(),
        EditorField::TensorSplit => s.tensor_split.clone(),
        EditorField::Threads => text::decimal(s.threads),
        EditorField::ThreadsBatch => text::decimal(s.threads_batch),
        EditorField::KvUnified => on_off_text(s.kv_unified),
        EditorField::SpecType => s.spec_type.clone(),
        EditorField::SpecDraftModel => or_text(s.spec_draft_model.as_str(), "—"),
        EditorField::SpecDraftNMax => if s.spec_draft_nmax == 0 {
            "off".to_owned()
        } else {
            text::decimal(s.spec_draft_nmax)
        },
        EditorField::SpecDraftNgl => s.spec_draft_ngl.clone(),
        EditorField::Extra => if s.extra.len() == 0 {
            "—".to_owned()
        } else {
            text::join(s.extra.as_slice(), " ")
        },
        EditorField::Assign => if s.assign {
            "yes".to_owned()
        } else {
            "no".to_owned()
        },
        EditorField::Advanced => "".to_owned(),
        EditorField::Fit => s.fit.clone(),
        EditorField::FitTarget => text::decimal(s.fit_target),
        EditorField::LoadMode => or_text(s.load_mode.as_str(), "(default)"),
        EditorField::Mlock => on_off_text(s.mlock),
        EditorField::DirectIO => on_off_text(s.direct_io),
        EditorField::Numa => s.numa.clone(),
        EditorField::KvOffload => on_off_text(s.kv_offload),
        EditorField::CpuMoe => text::decimal(s.n_cpu_moe),
        EditorField::DraftCpuMoe => text::decimal(s.spec_draft_n_cpu_moe),
        EditorField::OverrideTensor => or_text(s.override_tensor.as_str(), "—"),
        EditorField::RopeBase => or_text(s.rope_base.as_str(), "(default)"),
        EditorField::RopeScale => or_text(s.rope_scale.as_str(), "(default)"),
        EditorField::Temperature => or_text(s.temperature.as_str(), "(default)"),
        EditorField::TopK => or_text(s.top_k.as_str(), "(default)"),
        EditorField::TopP => or_text(s.top_p.as_str(), "(default)"),
        EditorField::MinP => or_text(s.min_p.as_str(), "(default)"),
        EditorField::RepeatPenalty => or_text(s.repeat_penalty.as_str(), "(default)"),
        EditorField::PresencePenalty => or_text(s.presence_penalty.as_str(), "(default)"),
        EditorField::FrequencyPenalty => or_text(s.frequency_penalty.as_str(), "(default)"),
        EditorField::Seed => or_text(s.seed.as_str(), "(random)"),
        EditorField::Reasoning => or_text(s.reasoning.as_str(), "(default)"),
        EditorField::Jinja => on_off_text(s.jinja),
        EditorField::ChatTemplate => or_text(s.chat_template.as_str(), "(model default)"),
        EditorField::ChatTemplateKwargs => or_text(s.chat_template_kwargs.as_str(), "—"),
    }
}

/// The values that a field offers, where they are always the same.
pub open spec fn fixed_choices(field: EditorField) -> Seq<Seq<char>> {
    match field {
        EditorField::ContextStep => seq!["1024"@, "2048"@, "4096"@, "8192"@, "16384"@, "32768"@, "65536"@],
        EditorField::Parallel => seq!["1"@, "2"@, "4"@, "8"@, "16"@],
        EditorField::Batch => seq!["128"@, "256"@, "512"@, "1024"@, "2048"@, "4096"@, "8192"@],
        EditorField::Ubatch => seq!["64"@, "128"@, "256"@, "512"@, "1024"@, "2048"@],
        EditorField::CacheK => seq!["f16"@, "q8_0"@, "q4_0"@, "q5_0"@, "q5_1"@],
        EditorField::CacheV => seq!["f16"@, "q8_0"@, "q4_0"@, "q5_0"@, "q5_1"@],
        EditorField::Flash => seq!["on"@, "off"@],
        EditorField::GpuLayers => seq!["all"@, "auto"@, "0"@, "12"@, "24"@, "38"@, "52"@],
        EditorField::Split => seq!["none"@, "layer"@, "row"@, "tensor"@],
        EditorField::SpecType => seq!["none"@, "draft-mtp"@, "draft-dflash"@, "draft-dspark"@, "draft-eagle3"@],
        EditorField::Temperature => seq!["0.0"@, "0.4"@, "0.6"@, "0.7"@, "0.8"@, "1.0"@],
        EditorField::TopK => seq!["0"@, "20"@, "40"@, "80"@],
        EditorField::TopP => seq!["0.8"@, "0.9"@, "0.95"@, "1.0"@],
        EditorField::MinP => seq!["0.0"@, "0.05"@, "0.1"@],
        EditorField::RepeatPenalty => seq!["1.0"@, "1.1"@, "1.2"@],
        EditorField::PresencePenalty => seq!["0.0"@, "1.5"@, "2.0"@],
        EditorField::FrequencyPenalty => seq!["0.0"@, "0.3"@, "0.5"@],
        EditorField::Fit => seq!["on"@, "off"@],
        EditorField::Numa => seq!["off"@, "distribute"@, "isolate"@],
        _ => seq![],
    }
}

fn owned(list: &[&str]) -> (out: Vec<String>)
    ensures
        text::views(out@) == process::str_views(list@),
{
    let mut out: Vec<String> = Vec::new();
    let mut i: usize = 0;
    while i < list.len()
        invariant
            i <= list@.len(),
            text::views(out@) == process::str_views(list@).take(i as int),
        decreases list@.len() - i,
    {
        process::add(&mut out, list[i]);
        proof {
            let all = process::str_views(list@);
            assert(all.take(i + 1) =~= all.take(i as int).push(all[i as int]));
        }
        i += 1;
    }
    proof {
        let all = process::str_views(list@);
        assert(all.take(all.len() as int) =~= all);
    }
    out
}

fn offered(field: EditorField) -> (out: Vec<String>)
    ensures
        text::views(out@) == fixed_choices(field),
{
    match field {
        EditorField::ContextStep => {
            let list: [&str; 7] = ["1024", "2048", "4096", "8192", "16384", "32768", "65536"];
            proof {
                assert(process::str_views(list@) =~= fixed_choices(field));
            }
            owned(&list)
        },
        EditorField::Parallel => {
            let list: [&str; 5] = ["1", "2", "4", "8", "16"];
            proof {
                assert(process::str_views(list@) =~= fixed_choices(field));
            }
            owned(&list)
        },
        EditorField::Batch => {
            let list: [&str; 7] = ["128", "256", "512", "1024", "2048", "4096", "8192"];
            proof {
                assert(process::str_views(list@) =~= fixed_choices(field));
            }
            owned(&list)
        },
        EditorField::Ubatch => {
            let list: [&str; 6] = ["64", "128", "256", "512", "1024", "2048"];
            proof {
                assert(process::str_views(list@) =~= fixed_choices(field));
            }
            owned(&list)
        },
        EditorField::CacheK => {
            let list: [&str; 5] = ["f16", "q8_0", "q4_0", "q5_0", "q5_1"];
            proof {
                assert(process::str_views(list@) =~= fixed_choices(field));
            }
            owned(&list)
        },
        EditorField::CacheV => {
            let list: [&str; 5] = ["f16", "q8_0", "q4_0", "q5_0", "q5_1"];
            proof {
                assert(process::str_views(list@) =~= fixed_choices(field));
            }
            owned(&list)
        },
        EditorField::Flash => {
            let list: [&str; 2] = ["on", "off"];
            proof {
                assert(process::str_views(list@) =~= fixed_choices(field));
            }
            owned(&list)
        },
        EditorField::GpuLayers => {
            let list: [&str; 7] = ["all", "auto", "0", "12", "24", "38", "52"];
            proof {
                assert(process::str_views(list@) =~= fixed_choices(field));
            }
            owned(&list)
        },
        EditorField::Split => {
            let list: [&str; 4] = ["none", "layer", "row", "tensor"];
            proof {
                assert(process::str_views(list@) =~= fixed_choices(field));
            }
            owned(&list)
        },
        EditorField::SpecType => {
            let list: [&str; 5] = ["none", "draft-mtp", "draft-dflash", "draft-dspark", "draft-eagle3"];
            proof {
                assert(process::str_views(list@) =~= fixed_choices(field));
            }
            owned(&list)
        },
        EditorField::Temperature => {
            let list: [&str; 6] = ["0.0", "0.4", "0.6", "0.7", "0.8", "1.0"];
            proof {
                assert(process::str_views(list@) =~= fixed_choices(field));
            }
            owned(&list)
        },
        EditorField::TopK => {
            let list: [&str; 4] = ["0", "20", "40", "80"];
            proof {
                assert(process::str_views(list@) =~= fixed_choices(field));
            }
            owned(&list)
        },
        EditorField::TopP => {
            let list: [&str; 4] = ["0.8", "0.9", "0.95", "1.0"];
            proof {
                assert(process::str_views(list@) =~= fixed_choices(field));
            }
            owned(&list)
        },
        EditorField::MinP => {
            let list: [&str; 3] = ["0.0", "0.05", "0.1"];
            proof {
                assert(process::str_views(list@) =~= fixed_choices(field));
            }
            owned(&list)
        },
        EditorField::RepeatPenalty => {
            let list: [&str; 3] = ["1.0", "1.1", "1.2"];
            proof {
                assert(process::str_views(list@) =~= fixed_choices(field));
            }
            owned(&list)
        },
        EditorField::PresencePenalty => {
            let list: [&str; 3] = ["0.0", "1.5", "2.0"];
            proof {
                assert(process::str_views(list@) =~= fixed_choices(field));
            }
            owned(&list)
        },
        EditorField::FrequencyPenalty => {
            let list: [&str; 3] = ["0.0", "0.3", "0.5"];
            proof {
                assert(process::str_views(list@) =~= fixed_choices(field));
            }
            owned(&list)
        },
        EditorField::Fit => {
            let list: [&str; 2] = ["on", "off"];
            proof {
                assert(process::str_views(list@) =~= fixed_choices(field));
            }
            owned(&list)
        },
        EditorField::Numa => {
            let list: [&str; 3] = ["off", "distribute", "isolate"];
            proof {
                assert(process::str_views(list@) =~= fixed_choices(field));
            }
            owned(&list)
        },
        _ => {
            let none: Vec<String> = Vec::new();
            proof {
                assert(text::views(none@) =~= seq![]);
            }
            none
        },
    }
}

/// Whether a number is below another.
pub open spec fn below(n: u64) -> spec_fn(u64) -> bool {
    |m: u64| m < n
}

/// An ascending list with one more number, unless it is there.
pub open spec fn with_number(list: Seq<u64>, n: u64) -> Seq<u64> {
    if list.contains(n) {
        list
    } else {
        list.insert(text::run(list, below(n)) as int, n)
    }
}

/// The multiples of a step up to a limit, and zero.
pub open spec fn multiples(step: u64, limit: u64) -> Seq<u64> {
    Seq::new((limit / step) as nat + 1, |i: int| (i * step) as u64)
}

/// The contexts that are offered: zero, every multiple of the step up to the limit, the
/// limit and the present one.
pub open spec fn contexts(step: u64, limit: u64, current: u64) -> Seq<u64> {
    with_number(with_number(multiples(step, limit), current), limit)
}

/// The largest context that is offered: the model's, or else a million tokens or what the
/// profile or the settings ask for beyond that.
pub open spec fn context_limit_of(limit: Option<u64>, current: u64, setting: u64) -> u64 {
    match limit {
        Some(n) => n,
        None => {
            let larger = if current >= setting {
                current
            } else {
                setting
            };
            if larger >= 1_048_576 {
                larger
            } else {
                1_048_576
            }
        },
    }
}

fn insert_number(list: &mut Vec<u64>, n: u64)
    requires
        ascending(old(list)@),
    ensures
        final(list)@ == with_number(old(list)@, n),
        ascending(final(list)@),
{
    let ghost all = list@;
    let mut i: usize = 0;
    while i < list.len()
        invariant_except_break
            i <= list@.len(),
            list@ == all,
            ascending(all),
            forall|j: int| 0 <= j < i ==> #[trigger] all[j] < n,
        ensures
            i <= list@.len(),
            list@ == all,
            forall|j: int| 0 <= j < i ==> #[trigger] all[j] < n,
            i < list@.len() ==> all[i as int] >= n,
        decreases list@.len() - i,
    {
        if list[i] >= n {
            break ;
        }
        i += 1;
    }
    if i < list.len() && list[i] == n {
        proof {
            assert(all[i as int] == n);
        }
        return ;
    }
    proof {
        assert forall|j: int| 0 <= j < all.len() implies #[trigger] all[j] != n by {
            if j > i {
                assert(all[i as int] < all[j]);
            }
        }
        text::lemma_run_unique(all, below(n), i as int);
        lemma_with_number_ascends(all, n);
    }
    list.insert(i, n);
}

/// Every number is smaller than the next.
pub open spec fn ascending(list: Seq<u64>) -> bool {
    forall|i: int, j: int| 0 <= i < j < list.len() ==> #[trigger] list[i] < #[trigger] list[j]
}

proof fn lemma_multiple(step: u64, limit: u64, i: int)
    requires
        step > 0,
        0 <= i <= limit / step,
    ensures
        0 <= i * step <= limit,
{
    assert(i * step <= (limit / step) * step) by (nonlinear_arith)
        requires
            0 <= i <= limit / step,
            step > 0,
    ;
    assert(0 <= i * step) by (nonlinear_arith)
        requires
            0 <= i,
            step > 0,
    ;
    vstd::arithmetic::div_mod::lemma_fundamental_div_mod(limit as int, step as int);
    assert((limit / step) * step == step * (limit / step)) by (nonlinear_arith);
}

proof fn lemma_multiples_ascend(step: u64, limit: u64)
    requires
        step > 0,
    ensures
        ascending(multiples(step, limit)),
{
    let all = multiples(step, limit);
    assert forall|a: int, b: int| 0 <= a < b < all.len() implies #[trigger] all[a]
        < #[trigger] all[b] by {
        lemma_multiple(step, limit, a);
        lemma_multiple(step, limit, b);
        assert(a * step < b * step) by (nonlinear_arith)
            requires
                a < b,
                step > 0,
        ;
    }
}

proof fn lemma_with_number_ascends(all: Seq<u64>, n: u64)
    requires
        ascending(all),
    ensures
        ascending(with_number(all, n)),
{
    if !all.contains(n) {
        let at = text::run(all, below(n)) as int;
        text::lemma_run(all, below(n));
        let new = all.insert(at, n);
        assert forall|a: int, b: int| 0 <= a < b < new.len() implies #[trigger] new[a]
            < #[trigger] new[b] by {
            let x = if a < at {
                a
            } else {
                a - 1
            };
            let y = if b < at {
                b
            } else {
                b - 1
            };
            if a != at {
                assert(new[a] == all[x]);
            }
            if b != at {
                assert(new[b] == all[y]);
            }
            if a != at && b != at {
                assert(all[x] < all[y]);
            } else if a == at {
                assert(all.contains(all[at]));
                if b > at + 1 {
                    assert(all[at] < all[y]);
                }
            } else {
                assert(below(n)(all[x]));
            }
        }
    }
}

fn list_contexts(step: u64, limit: u64, current: u64) -> (out: Vec<u64>)
    requires
        step > 0,
    ensures
        out@ == contexts(step, limit, current),
        ascending(out@),
{
    let mut out: Vec<u64> = Vec::new();
    let ghost all = multiples(step, limit);
    let last: u64 = limit / step;
    let mut i: u64 = 0;
    let mut value: u64 = 0;
    out.push(0);
    proof {
        lemma_multiple(step, limit, 0);
        assert(all.take(1) =~= out@);
    }
    while i < last
        invariant
            step > 0,
            i <= last,
            last == limit / step,
            all == multiples(step, limit),
            value == i * step,
            out@ == all.take(i + 1),
        decreases last - i,
    {
        proof {
            lemma_multiple(step, limit, i + 1);
            assert((i + 1) * step == i * step + step) by (nonlinear_arith);
        }
        value = value + step;
        i = i + 1;
        out.push(value);
        proof {
            assert(all.take(i + 1) =~= all.take(i as int).push(all[i as int]));
        }
    }
    proof {
        assert(all.take(all.len() as int) =~= all);
        lemma_multiples_ascend(step, limit);
    }
    insert_number(&mut out, current);
    insert_number(&mut out, limit);
    out
}

/// The contexts that are offered ascend, and zero, the present one and the limit are among
/// them.
pub proof fn contexts_are_complete(step: u64, limit: u64, current: u64)
    requires
        step > 0,
    ensures
        ascending(contexts(step, limit, current)),
        contexts(step, limit, current).contains(0),
        contexts(step, limit, current).contains(current),
        contexts(step, limit, current).contains(limit),
{
    let base = multiples(step, limit);
    lemma_multiples_ascend(step, limit);
    lemma_with_number_ascends(base, current);
    lemma_with_number_ascends(with_number(base, current), limit);
    lemma_multiple(step, limit, 0);
    assert(base[0] == 0);
    lemma_with_number(base, current, 0);
    lemma_with_number(base, current, current);
    let more = with_number(base, current);
    lemma_with_number(more, limit, 0);
    lemma_with_number(more, limit, current);
    lemma_with_number(more, limit, limit);
}

proof fn lemma_with_number(list: Seq<u64>, n: u64, m: u64)
    ensures
        with_number(list, n).contains(m) <==> m == n || list.contains(m),
{
    text::lemma_run(list, below(n));
    let at = text::run(list, below(n)) as int;
    if !list.contains(n) {
        let new = list.insert(at, n);
        assert(new[at] == n);
        if list.contains(m) {
            let i = choose|i: int| 0 <= i < list.len() && list[i] == m;
            if i < at {
                assert(new[i] == m);
            } else {
                assert(new[i + 1] == m);
            }
        }
        if new.contains(m) {
            let i = choose|i: int| 0 <= i < new.len() && new[i] == m;
            if i < at {
                assert(list[i] == m);
            } else if i > at {
                assert(list[i - 1] == m);
            }
        }
    }
}

/// The values that a field offers.
pub open spec fn choices_of(
    field: EditorField,
    s: SettingsView,
    limit: Option<u64>,
    setting: u64,
) -> Seq<Seq<char>> {
    let list = if field == EditorField::Ctx {
        contexts(
            s.context_step,
            context_limit_of(limit, s.ctx, setting),
            s.ctx,
        ).map_values(|n: u64| text::decimal_of(n as nat))
    } else {
        fixed_choices(field)
    };
    let current = value_of(field, s);
    if list.len() > 0 && !list.contains(current) {
        list.push(current)
    } else {
        list
    }
}

/// The values that a field offers, with the present one. `limit` is the context that the
/// model was trained for, and `setting` the one of the settings.
pub fn editor_choices(
    field: EditorField,
    s: &EditorSettings,
    limit: Option<u64>,
    setting: u64,
) -> (out: Vec<String>)
    requires
        s.context_step > 0,
    ensures
        text::views(out@) == choices_of(field, s@, limit, setting),
{
    let mut list: Vec<String> = if field == EditorField::Ctx {
        let most: u64 = match limit {
            Some(n) => n,
            None => {
                let larger: u64 = if s.ctx >= setting {
                    s.ctx
                } else {
                    setting
                };
                if larger >= 1_048_576 {
                    larger
                } else {
                    1_048_576
                }
            },
        };
        let numbers: Vec<u64> = list_contexts(s.context_step, most, s.ctx);
        decimals(&numbers)
    } else {
        offered(field)
    };
    let current: String = editor_field_value(field, s);
    if list.len() > 0 && !profiles::holds_text(&list, current.as_str()) {
        process::add(&mut list, current.as_str());
    }
    list
}

fn decimals(numbers: &Vec<u64>) -> (out: Vec<String>)
    ensures
        text::views(out@) == numbers@.map_values(|n: u64| text::decimal_of(n as nat)),
{
    let ghost all = numbers@.map_values(|n: u64| text::decimal_of(n as nat));
    let mut out: Vec<String> = Vec::new();
    let mut i: usize = 0;
    while i < numbers.len()
        invariant
            i <= numbers@.len(),
            all == numbers@.map_values(|n: u64| text::decimal_of(n as nat)),
            text::views(out@) == all.take(i as int),
        decreases numbers@.len() - i,
    {
        process::add(&mut out, text::decimal(numbers[i]).as_str());
        proof {
            assert(all.take(i + 1) =~= all.take(i as int).push(all[i as int]));
        }
        i += 1;
    }
    proof {
        assert(all.take(all.len() as int) =~= all);
    }
    out
}

/// A number held between two others.
pub open spec fn clamped(n: u64, low: u64, high: u64) -> u64 {
    if n < low {
        low
    } else if n > high {
        high
    } else {
        n
    }
}

fn clamp(n: u64, low: u64, high: u64) -> (out: u64)
    ensures
        out == clamped(n, low, high),
{
    if n < low {
        low
    } else if n > high {
        high
    } else {
        n
    }
}

/// The number that a text says, or another.
pub open spec fn number_or(raw: Seq<char>, otherwise: u64) -> u64 {
    metadata::or_default(text::u64_of(raw), otherwise)
}

fn parse_or(raw: &str, otherwise: u64) -> (out: u64)
    ensures
        out == number_or(raw@, otherwise),
{
    match text::parse_u64(raw) {
        Some(n) => n,
        None => otherwise,
    }
}

/// Whether a text switches something on.
pub open spec fn says_on(raw: Seq<char>) -> bool {
    raw == "on"@ || raw == "true"@
}

fn is_on(raw: &str) -> (yes: bool)
    ensures
        yes == says_on(raw@),
{
    text::same(raw, "on") || text::same(raw, "true")
}

/// The settings after one of the offered values was taken for a field.
pub open spec fn with_value(s: SettingsView, field: EditorField, raw: Seq<char>) -> SettingsView {
    match field {
        EditorField::Ctx => SettingsView { ctx: number_or(raw, s.ctx), ..s },
        EditorField::ContextStep => SettingsView { context_step: clamped(number_or(raw, s.context_step), 1024, 65_536), ..s },
        EditorField::Parallel => SettingsView { parallel: clamped(number_or(raw, 1), 1, 32), ..s },
        EditorField::Batch => {
            let batch = number_or(raw, 2048);
            SettingsView { batch, ubatch: metadata::least(s.ubatch, batch), ..s }
        },
        EditorField::Ubatch => SettingsView { ubatch: metadata::least(number_or(raw, 512), s.batch), ..s },
        EditorField::CacheK => SettingsView { cache_k: raw, ..s },
        EditorField::CacheV => SettingsView { cache_v: raw, ..s },
        EditorField::Flash => SettingsView { flash: raw, ..s },
        EditorField::GpuLayers => SettingsView { gpu_layers: raw, ..s },
        EditorField::Split => SettingsView { split: raw, ..s },
        EditorField::TensorSplit => SettingsView { tensor_split: raw, ..s },
        EditorField::Threads => SettingsView { threads: clamped(number_or(raw, 32), 1, 512), ..s },
        EditorField::ThreadsBatch => SettingsView { threads_batch: clamped(number_or(raw, 32), 1, 512), ..s },
        EditorField::KvUnified => SettingsView { kv_unified: says_on(raw), ..s },
        EditorField::SpecType => SettingsView { spec_type: raw, ..s },
        EditorField::SpecDraftModel => SettingsView { spec_draft_model: raw, ..s },
        EditorField::SpecDraftNMax => SettingsView { spec_draft_nmax: number_or(raw, 0), ..s },
        EditorField::SpecDraftNgl => SettingsView { spec_draft_ngl: raw, ..s },
        EditorField::Extra => SettingsView { extra: text::words_of(raw), ..s },
        EditorField::Fit => SettingsView { fit: raw, ..s },
        EditorField::FitTarget => SettingsView { fit_target: number_or(raw, 512), ..s },
        EditorField::LoadMode => SettingsView { load_mode: raw, ..s },
        EditorField::Mlock => SettingsView { mlock: says_on(raw), ..s },
        EditorField::DirectIO => SettingsView { direct_io: says_on(raw), ..s },
        EditorField::Numa => SettingsView { numa: raw, ..s },
        EditorField::KvOffload => SettingsView { kv_offload: says_on(raw), ..s },
        EditorField::CpuMoe => SettingsView { n_cpu_moe: number_or(raw, 0), ..s },
        EditorField::DraftCpuMoe => SettingsView { spec_draft_n_cpu_moe: number_or(raw, 0), ..s },
        EditorField::OverrideTensor => SettingsView { override_tensor: raw, ..s },
        EditorField::RopeBase => SettingsView { rope_base: raw, ..s },
        EditorField::RopeScale => SettingsView { rope_scale: raw, ..s },
        EditorField::Temperature => SettingsView { temperature: raw, ..s },
        EditorField::TopK => SettingsView { top_k: raw, ..s },
        EditorField::TopP => SettingsView { top_p: raw, ..s },
        EditorField::MinP => SettingsView { min_p: raw, ..s },
        EditorField::RepeatPenalty => SettingsView { repeat_penalty: raw, ..s },
        EditorField::PresencePenalty => SettingsView { presence_penalty: raw, ..s },
        EditorField::FrequencyPenalty => SettingsView { frequency_penalty: raw, ..s },
        EditorField::Seed => SettingsView { seed: raw, ..s },
        EditorField::Reasoning => SettingsView { reasoning: raw, ..s },
        EditorField::Jinja => SettingsView { jinja: says_on(raw), ..s },
        EditorField::ChatTemplate => SettingsView { chat_template: raw, ..s },
        EditorField::ChatTemplateKwargs => SettingsView { chat_template_kwargs: raw, ..s },
        EditorField::Assign | EditorField::Advanced => s,
    }
}

/// Takes one of the offered values for a field.
pub fn editor_set_value(field: EditorField, raw: &str, s: &mut EditorSettings)
    ensures
        final(s)@ == with_value(old(s)@, field, raw@),
{
    match field {
        EditorField::Ctx => s.ctx = parse_or(raw, s.ctx),
        EditorField::ContextStep => s.context_step = clamp(parse_or(raw, s.context_step), 1024, 65_536),
        EditorField::Parallel => s.parallel = clamp(parse_or(raw, 1), 1, 32),
        EditorField::Batch => {
            s.batch = parse_or(raw, 2048);
            if s.ubatch > s.batch {
                s.ubatch = s.batch;
            }
        },
        EditorField::Ubatch => {
            let wanted: u64 = parse_or(raw, 512);
            s.ubatch = if wanted <= s.batch {
                wanted
            } else {
                s.batch
            };
        },
        EditorField::CacheK => s.cache_k = raw.to_owned(),
        EditorField::CacheV => s.cache_v = raw.to_owned(),
        EditorField::Flash => s.flash = raw.to_owned(),
        EditorField::GpuLayers => s.gpu_layers = raw.to_owned(),
        EditorField::Split => s.split = raw.to_owned(),
        EditorField::TensorSplit => s.tensor_split = raw.to_owned(),
        EditorField::Threads => s.threads = clamp(parse_or(raw, 32), 1, 512),
        EditorField::ThreadsBatch => s.threads_batch = clamp(parse_or(raw, 32), 1, 512),
        EditorField::KvUnified => s.kv_unified = is_on(raw),
        EditorField::SpecType => s.spec_type = raw.to_owned(),
        EditorField::SpecDraftModel => s.spec_draft_model = raw.to_owned(),
        EditorField::SpecDraftNMax => s.spec_draft_nmax = parse_or(raw, 0),
        EditorField::SpecDraftNgl => s.spec_draft_ngl = raw.to_owned(),
        EditorField::Extra => s.extra = text::words(raw),
        EditorField::Fit => s.fit = raw.to_owned(),
        EditorField::FitTarget => s.fit_target = parse_or(raw, 512),
        EditorField::LoadMode => s.load_mode = raw.to_owned(),
        EditorField::Mlock => s.mlock = is_on(raw),
        EditorField::DirectIO => s.direct_io = is_on(raw),
        EditorField::Numa => s.numa = raw.to_owned(),
        EditorField::KvOffload => s.kv_offload = is_on(raw),
        EditorField::CpuMoe => s.n_cpu_moe = parse_or(raw, 0),
        EditorField::DraftCpuMoe => s.spec_draft_n_cpu_moe = parse_or(raw, 0),
        EditorField::OverrideTensor => s.override_tensor = raw.to_owned(),
        EditorField::RopeBase => s.rope_base = raw.to_owned(),
        EditorField::RopeScale => s.rope_scale = raw.to_owned(),
        EditorField::Temperature => s.temperature = raw.to_owned(),
        EditorField::TopK => s.top_k = raw.to_owned(),
        EditorField::TopP => s.top_p = raw.to_owned(),
        EditorField::MinP => s.min_p = raw.to_owned(),
        EditorField::RepeatPenalty => s.repeat_penalty = raw.to_owned(),
        EditorField::PresencePenalty => s.presence_penalty = raw.to_owned(),
        EditorField::FrequencyPenalty => s.frequency_penalty = raw.to_owned(),
        EditorField::Seed => s.seed = raw.to_owned(),
        EditorField::Reasoning => s.reasoning = raw.to_owned(),
        EditorField::Jinja => s.jinja = is_on(raw),
        EditorField::ChatTemplate => s.chat_template = raw.to_owned(),
        EditorField::ChatTemplateKwargs => s.chat_template_kwargs = raw.to_owned(),
        EditorField::Assign | EditorField::Advanced => {},
    }
}

/// Where one gets from `index` by `by` steps round a list.
pub fn rotate(index: usize, len: usize, by: i32) -> (out: usize)
    requires
        index < len,
    ensures
        out == (index + by) % (len as int),
{
    let n: u64 = len as u64;
    if by >= 0 {
        let steps: u64 = by as u64;
        let step: usize = (steps % n) as usize;
        proof {
            let q = (steps / n) as int;
            vstd::arithmetic::div_mod::lemma_fundamental_div_mod(steps as int, n as int);
            let sum = index + step;
            if sum < n {
                lemma_remainder(index + by, n as int, q, sum);
            } else {
                assert(n * (q + 1) == n * q + n) by (nonlinear_arith);
                lemma_remainder(index + by, n as int, q + 1, sum - n);
            }
        }
        if step < len - index {
            index + step
        } else {
            index - (len - step)
        }
    } else {
        let steps: u64 = (-(by as i64)) as u64;
        let step: usize = (steps % n) as usize;
        proof {
            let q = (steps / n) as int;
            vstd::arithmetic::div_mod::lemma_fundamental_div_mod(steps as int, n as int);
            let rest = index - step;
            if rest >= 0 {
                assert(n * (-q) == -(n * q)) by (nonlinear_arith);
                lemma_remainder(index + by, n as int, -q, rest);
            } else {
                assert(n * (-q - 1) == -(n * q) - n) by (nonlinear_arith);
                lemma_remainder(index + by, n as int, -q - 1, rest + n);
            }
        }
        if index >= step {
            index - step
        } else {
            index + (len - step)
        }
    }
}

proof fn lemma_remainder(x: int, n: int, q: int, r: int)
    requires
        n > 0,
        0 <= r < n,
        x == n * q + r,
    ensures
        x % n == r,
{
    assert(q * n == n * q) by (nonlinear_arith);
    vstd::arithmetic::div_mod::lemma_fundamental_div_mod_converse(x, n, q, r);
}

/// Whether a text is another one.
pub open spec fn another(s: Seq<char>) -> spec_fn(Seq<char>) -> bool {
    |t: Seq<char>| t != s
}

/// Steps a counter by one, never below zero and never past the largest value.
pub open spec fn stepped(n: u64, by: i32) -> u64 {
    if by < 0 {
        if n == 0 {
            0
        } else {
            (n - 1) as u64
        }
    } else if n == u64::MAX {
        n
    } else {
        (n + 1) as u64
    }
}

pub fn step_nonnegative(value: u64, direction: i32) -> (out: u64)
    ensures
        out == stepped(value, direction),
{
    if direction < 0 {
        if value == 0 {
            0
        } else {
            value - 1
        }
    } else if value == u64::MAX {
        value
    } else {
        value + 1
    }
}

/// The settings after the value of a field was moved on by `by`; `None` where the field
/// has no value to move to.
pub open spec fn cycled(
    s: SettingsView,
    field: EditorField,
    by: i32,
    limit: Option<u64>,
    setting: u64,
) -> Option<SettingsView> {
    match field {
        EditorField::KvUnified => Some(SettingsView { kv_unified: !s.kv_unified, ..s }),
        EditorField::Mlock => Some(SettingsView { mlock: !s.mlock, ..s }),
        EditorField::DirectIO => Some(SettingsView { direct_io: !s.direct_io, ..s }),
        EditorField::KvOffload => Some(SettingsView { kv_offload: !s.kv_offload, ..s }),
        EditorField::Jinja => Some(SettingsView { jinja: !s.jinja, ..s }),
        EditorField::Assign => Some(SettingsView { assign: !s.assign, ..s }),
        EditorField::SpecDraftNMax => Some(
            SettingsView { spec_draft_nmax: stepped(s.spec_draft_nmax, by), ..s },
        ),
        EditorField::Advanced => Some(s),
        _ => {
            let choices = choices_of(field, s, limit, setting);
            let at = text::run(choices, another(value_of(field, s)));
            if at < choices.len() {
                Some(with_value(s, field, choices[(at + by) % (choices.len() as int)]))
            } else {
                None
            }
        },
    }
}

/// Where a text stands in a list.
pub fn position(list: &Vec<String>, item: &str) -> (out: Option<usize>)
    ensures
        match out {
            Some(i) => i < list@.len() && i == text::run(text::views(list@), another(item@)),
            None => text::run(text::views(list@), another(item@)) == list@.len(),
        },
{
    let ghost all = text::views(list@);
    let mut i: usize = 0;
    while i < list.len()
        invariant
            i <= list@.len(),
            all == text::views(list@),
            forall|j: int| 0 <= j < i ==> #[trigger] all[j] != item@,
        decreases list@.len() - i,
    {
        proof {
            assert(all[i as int] == list@[i as int]@);
        }
        if text::same(list[i].as_str(), item) {
            proof {
                text::lemma_run_unique(all, another(item@), i as int);
            }
            return Some(i);
        }
        i += 1;
    }
    proof {
        text::lemma_run_unique(all, another(item@), i as int);
    }
    None
}

/// Moves the value of a field on, and says whether there was one to move to.
pub fn cycle(
    s: &mut EditorSettings,
    field: EditorField,
    by: i32,
    limit: Option<u64>,
    setting: u64,
) -> (changed: bool)
    requires
        old(s).context_step > 0,
    ensures
        match cycled(old(s)@, field, by, limit, setting) {
            Some(v) => changed && final(s)@ == v,
            None => !changed && final(s)@ == old(s)@,
        },
        final(s).context_step > 0,
{
    match field {
        EditorField::KvUnified => {
            s.kv_unified = !s.kv_unified;
            true
        },
        EditorField::Mlock => {
            s.mlock = !s.mlock;
            true
        },
        EditorField::DirectIO => {
            s.direct_io = !s.direct_io;
            true
        },
        EditorField::KvOffload => {
            s.kv_offload = !s.kv_offload;
            true
        },
        EditorField::Jinja => {
            s.jinja = !s.jinja;
            true
        },
        EditorField::Assign => {
            s.assign = !s.assign;
            true
        },
        EditorField::SpecDraftNMax => {
            s.spec_draft_nmax = step_nonnegative(s.spec_draft_nmax, by);
            true
        },
        EditorField::Advanced => true,
        _ => {
            let choices: Vec<String> = editor_choices(field, s, limit, setting);
            let current: String = editor_field_value(field, s);
            match position(&choices, current.as_str()) {
                Some(i) => {
                    let at: usize = rotate(i, choices.len(), by);
                    proof {
                        assert(text::views(choices@)[at as int] == choices@[at as int]@);
                    }
                    editor_set_value(field, choices[at].as_str(), s);
                    true
                },
                None => false,
            }
        },
    }
}

/// What is asked for where a value is typed, and the present value; `None` for a field
/// whose value is not typed.
pub open spec fn typed_of(field: EditorField, s: SettingsView) -> Option<(Seq<char>, Seq<char>)> {
    match field {
        EditorField::Ctx => Some(("Context tokens (0 = model maximum)"@, text::decimal_of(s.ctx as nat))),
        EditorField::ContextStep => Some(("Context step tokens (1024–65536)"@, text::decimal_of(s.context_step as nat))),
        EditorField::Batch => Some(("Prompt batch size"@, text::decimal_of(s.batch as nat))),
        EditorField::Ubatch => Some(("Physical microbatch"@, text::decimal_of(s.ubatch as nat))),
        EditorField::GpuLayers => Some(("GPU layers (all / auto / N)"@, s.gpu_layers)),
        EditorField::TensorSplit => Some(("Tensor split (e.g. 1,1,1,1)"@, s.tensor_split)),
        EditorField::Threads => Some(("CPU threads"@, text::decimal_of(s.threads as nat))),
        EditorField::ThreadsBatch => Some(("CPU threads batch"@, text::decimal_of(s.threads_batch as nat))),
        EditorField::SpecDraftModel => Some(("Draft model path"@, s.spec_draft_model)),
        EditorField::SpecDraftNMax => Some(("Draft tokens (0 = off)"@, text::decimal_of(s.spec_draft_nmax as nat))),
        EditorField::SpecDraftNgl => Some(("Draft GPU layers (all / auto / N)"@, s.spec_draft_ngl)),
        EditorField::FitTarget => Some(("Fit target MiB"@, text::decimal_of(s.fit_target as nat))),
        EditorField::LoadMode => Some(("Load mode (mmap / none)"@, s.load_mode)),
        EditorField::CpuMoe => Some(("CPU experts (n-cpu-moe)"@, text::decimal_of(s.n_cpu_moe as nat))),
        EditorField::DraftCpuMoe => Some(("Draft CPU experts"@, text::decimal_of(s.spec_draft_n_cpu_moe as nat))),
        EditorField::OverrideTensor => Some(("Override tensor (pattern=buffer)"@, s.override_tensor)),
        EditorField::RopeBase => Some(("RoPE frequency base"@, s.rope_base)),
        EditorField::RopeScale => Some(("RoPE frequency scale"@, s.rope_scale)),
        EditorField::Temperature => Some(("Temperature"@, s.temperature)),
        EditorField::TopK => Some(("Top-K (0 = disabled)"@, s.top_k)),
        EditorField::TopP => Some(("Top-P (1.0 = disabled)"@, s.top_p)),
        EditorField::MinP => Some(("Min-P (0.0 = disabled)"@, s.min_p)),
        EditorField::RepeatPenalty => Some(("Repeat penalty (1.0 = disabled)"@, s.repeat_penalty)),
        EditorField::PresencePenalty => Some(("Presence penalty"@, s.presence_penalty)),
        EditorField::FrequencyPenalty => Some(("Frequency penalty"@, s.frequency_penalty)),
        EditorField::Seed => Some(("Seed (blank = random)"@, s.seed)),
        EditorField::Reasoning => Some(("Reasoning (on / off / auto)"@, s.reasoning)),
        EditorField::ChatTemplate => Some(("Inline Jinja chat template"@, s.chat_template)),
        EditorField::ChatTemplateKwargs => Some(("Chat template kwargs (JSON object)"@, s.chat_template_kwargs)),
        _ => None,
    }
}

/// A value that is being typed.
pub struct EditorPrompt {
    pub label: String,
    pub line: Line,
    pub field: EditorField,
}

#[verifier::ext_equal]
pub ghost struct PromptView {
    pub label: Seq<char>,
    pub line: LineView,
    pub field: EditorField,
}

impl View for EditorPrompt {
    type V = PromptView;

    open spec fn view(&self) -> PromptView {
        PromptView { label: self.label@, line: self.line@, field: self.field }
    }
}

pub open spec fn prompt_view(p: Option<EditorPrompt>) -> Option<PromptView> {
    match p {
        Some(p) => Some(p@),
        None => None,
    }
}

/// A prompt with the cursor behind its text.
pub open spec fn new_prompt(label: Seq<char>, s: Seq<char>, field: EditorField) -> PromptView {
    PromptView { label, line: LineView { text: s, cursor: s.len() as int }, field }
}

fn make_prompt(label: &str, s: &str, field: EditorField) -> (out: EditorPrompt)
    ensures
        out@ == new_prompt(label@, s@, field),
        out@.line.wf(),
{
    EditorPrompt { label: label.to_owned(), line: Line::at_end(s), field }
}

/// Starts to type the value of a field.
pub fn editor_open_typed(field: EditorField, s: &EditorSettings) -> (out: Option<EditorPrompt>)
    ensures
        prompt_view(out) == match typed_of(field, s@) {
            Some((label, current)) => Some(new_prompt(label, current, field)),
            None => None,
        },
        match out {
            Some(p) => p@.line.wf(),
            None => true,
        },
{
    match field {
        EditorField::Ctx => Some(make_prompt("Context tokens (0 = model maximum)", text::decimal(s.ctx).as_str(), field)),
        EditorField::ContextStep => Some(make_prompt("Context step tokens (1024–65536)", text::decimal(s.context_step).as_str(), field)),
        EditorField::Batch => Some(make_prompt("Prompt batch size", text::decimal(s.batch).as_str(), field)),
        EditorField::Ubatch => Some(make_prompt("Physical microbatch", text::decimal(s.ubatch).as_str(), field)),
        EditorField::GpuLayers => Some(make_prompt("GPU layers (all / auto / N)", s.gpu_layers.as_str(), field)),
        EditorField::TensorSplit => Some(make_prompt("Tensor split (e.g. 1,1,1,1)", s.tensor_split.as_str(), field)),
        EditorField::Threads => Some(make_prompt("CPU threads", text::decimal(s.threads).as_str(), field)),
        EditorField::ThreadsBatch => Some(make_prompt("CPU threads batch", text::decimal(s.threads_batch).as_str(), field)),
        EditorField::SpecDraftModel => Some(make_prompt("Draft model path", s.spec_draft_model.as_str(), field)),
        EditorField::SpecDraftNMax => Some(make_prompt("Draft tokens (0 = off)", text::decimal(s.spec_draft_nmax).as_str(), field)),
        EditorField::SpecDraftNgl => Some(make_prompt("Draft GPU layers (all / auto / N)", s.spec_draft_ngl.as_str(), field)),
        EditorField::FitTarget => Some(make_prompt("Fit target MiB", text::decimal(s.fit_target).as_str(), field)),
        EditorField::LoadMode => Some(make_prompt("Load mode (mmap / none)", s.load_mode.as_str(), field)),
        EditorField::CpuMoe => Some(make_prompt("CPU experts (n-cpu-moe)", text::decimal(s.n_cpu_moe).as_str(), field)),
        EditorField::DraftCpuMoe => Some(make_prompt("Draft CPU experts", text::decimal(s.spec_draft_n_cpu_moe).as_str(), field)),
        EditorField::OverrideTensor => Some(make_prompt("Override tensor (pattern=buffer)", s.override_tensor.as_str(), field)),
        EditorField::RopeBase => Some(make_prompt("RoPE frequency base", s.rope_base.as_str(), field)),
        EditorField::RopeScale => Some(make_prompt("RoPE frequency scale", s.rope_scale.as_str(), field)),
        EditorField::Temperature => Some(make_prompt("Temperature", s.temperature.as_str(), field)),
        EditorField::TopK => Some(make_prompt("Top-K (0 = disabled)", s.top_k.as_str(), field)),
        EditorField::TopP => Some(make_prompt("Top-P (1.0 = disabled)", s.top_p.as_str(), field)),
        EditorField::MinP => Some(make_prompt("Min-P (0.0 = disabled)", s.min_p.as_str(), field)),
        EditorField::RepeatPenalty => Some(make_prompt("Repeat penalty (1.0 = disabled)", s.repeat_penalty.as_str(), field)),
        EditorField::PresencePenalty => Some(make_prompt("Presence penalty", s.presence_penalty.as_str(), field)),
        EditorField::FrequencyPenalty => Some(make_prompt("Frequency penalty", s.frequency_penalty.as_str(), field)),
        EditorField::Seed => Some(make_prompt("Seed (blank = random)", s.seed.as_str(), field)),
        EditorField::Reasoning => Some(make_prompt("Reasoning (on / off / auto)", s.reasoning.as_str(), field)),
        EditorField::ChatTemplate => Some(make_prompt("Inline Jinja chat template", s.chat_template.as_str(), field)),
        EditorField::ChatTemplateKwargs => Some(make_prompt("Chat template kwargs (JSON object)", s.chat_template_kwargs.as_str(), field)),
        _ => None,
    }
}

/// Starts to type the added flags.
pub fn editor_open_extra(s: &EditorSettings) -> (out: EditorPrompt)
    ensures
        out@ == new_prompt(
            "Extra llama-server flags (space-separated)"@,
            text::joined(s@.extra, " "@),
            EditorField::Extra,
        ),
        out@.line.wf(),
{
    make_prompt(
        "Extra llama-server flags (space-separated)",
        text::join(s.extra.as_slice(), " ").as_str(),
        EditorField::Extra,
    )
}

/// Whether a text says how many layers go to the graphics cards.
pub open spec fn is_layers(s: Seq<char>) -> bool {
    s == "all"@ || s == "auto"@ || text::u64_of(s) is Some
}

fn says_layers(s: &str) -> (yes: bool)
    ensures
        yes == is_layers(s@),
{
    text::same(s, "all") || text::same(s, "auto") || text::parse_u64(s).is_some()
}

/// The settings after a typed value was taken for a field, or what is wrong with it.
/// `limit` is the context that the model was trained for, and `float` says whether the text
/// is a floating-point number.
pub open spec fn committed(
    s: SettingsView,
    field: EditorField,
    typed: Seq<char>,
    limit: Option<u64>,
    float: bool,
) -> Result<SettingsView, Seq<char>> {
    let n = text::u64_of(typed);
    match field {
        EditorField::Ctx => match n {
            Some(value) => if value != 0 && limit is Some && value > limit->Some_0 {
                Err(
                    "✗ Context "@ + text::decimal_of(value as nat) + " exceeds model maximum "@
                        + text::decimal_of(limit->Some_0 as nat),
                )
            } else {
                Ok(SettingsView { ctx: value, ..s })
            },
            None => Err("✗ Context must be a number"@),
        },
        EditorField::ContextStep => match n {
            Some(value) if 1024 <= value <= 65_536 => Ok(
                SettingsView { context_step: value, ..s },
            ),
            _ => Err("✗ Context step must be between 1024 and 65536"@),
        },
        EditorField::Batch => match n {
            Some(value) if value > 0 => Ok(
                SettingsView { batch: value, ubatch: metadata::least(s.ubatch, value), ..s },
            ),
            _ => Err("✗ Batch must be a positive number"@),
        },
        EditorField::Ubatch => match n {
            Some(value) => if value > 0 && value <= s.batch {
                Ok(SettingsView { ubatch: value, ..s })
            } else {
                Err("✗ Microbatch cannot exceed prompt batch"@)
            },
            None => Err("✗ Microbatch must be a number"@),
        },
        EditorField::Threads => Ok(
            SettingsView { threads: number_or(typed, s.threads), ..s },
        ),
        EditorField::ThreadsBatch => Ok(
            SettingsView { threads_batch: number_or(typed, s.threads_batch), ..s },
        ),
        EditorField::SpecDraftNMax => Ok(
            SettingsView { spec_draft_nmax: number_or(typed, s.spec_draft_nmax), ..s },
        ),
        EditorField::FitTarget => Ok(
            SettingsView { fit_target: number_or(typed, s.fit_target), ..s },
        ),
        EditorField::CpuMoe => Ok(
            SettingsView { n_cpu_moe: number_or(typed, s.n_cpu_moe), ..s },
        ),
        EditorField::DraftCpuMoe => Ok(
            SettingsView { spec_draft_n_cpu_moe: number_or(typed, s.spec_draft_n_cpu_moe), ..s },
        ),
        EditorField::GpuLayers => if is_layers(typed) {
            Ok(SettingsView { gpu_layers: typed, ..s })
        } else {
            Err("✗ GPU layers: all, auto, or a number"@)
        },
        EditorField::SpecDraftNgl => if is_layers(typed) {
            Ok(SettingsView { spec_draft_ngl: typed, ..s })
        } else {
            Err("✗ Draft GPU layers: all, auto, or a number"@)
        },
        EditorField::Temperature => if typed.len() == 0 || float {
            Ok(SettingsView { temperature: typed, ..s })
        } else {
            Err("✗ Temperature must be a number (empty = default)"@)
        },
        EditorField::TopK => if typed.len() == 0 || n is Some {
            Ok(SettingsView { top_k: typed, ..s })
        } else {
            Err("✗ Top-K must be a whole number (empty = default)"@)
        },
        EditorField::TopP => if typed.len() == 0 || float {
            Ok(SettingsView { top_p: typed, ..s })
        } else {
            Err("✗ Top-P must be a number (empty = default)"@)
        },
        EditorField::MinP => if typed.len() == 0 || float {
            Ok(SettingsView { min_p: typed, ..s })
        } else {
            Err("✗ Min-P must be a number (empty = default)"@)
        },
        EditorField::RepeatPenalty => if typed.len() == 0 || float {
            Ok(SettingsView { repeat_penalty: typed, ..s })
        } else {
            Err("✗ Repeat penalty must be a number (empty = default)"@)
        },
        EditorField::PresencePenalty => if typed.len() == 0 || float {
            Ok(SettingsView { presence_penalty: typed, ..s })
        } else {
            Err("✗ Presence penalty must be a number (empty = default)"@)
        },
        EditorField::FrequencyPenalty => if typed.len() == 0 || float {
            Ok(SettingsView { frequency_penalty: typed, ..s })
        } else {
            Err("✗ Frequency penalty must be a number (empty = default)"@)
        },
        EditorField::ChatTemplateKwargs => if typed.len() == 0 || json::parsed(typed) matches Some(Json::Object(_)) {
            Ok(SettingsView { chat_template_kwargs: typed, ..s })
        } else {
            Err("✗ Template kwargs must be a JSON object"@)
        },
        EditorField::TensorSplit => Ok(SettingsView { tensor_split: typed, ..s }),
        EditorField::SpecDraftModel => Ok(SettingsView { spec_draft_model: typed, ..s }),
        EditorField::LoadMode => Ok(SettingsView { load_mode: typed, ..s }),
        EditorField::OverrideTensor => Ok(SettingsView { override_tensor: typed, ..s }),
        EditorField::RopeBase => Ok(SettingsView { rope_base: typed, ..s }),
        EditorField::RopeScale => Ok(SettingsView { rope_scale: typed, ..s }),
        EditorField::Seed => Ok(SettingsView { seed: typed, ..s }),
        EditorField::Reasoning => Ok(SettingsView { reasoning: typed, ..s }),
        EditorField::ChatTemplate => Ok(SettingsView { chat_template: typed, ..s }),
        EditorField::Extra => Ok(SettingsView { extra: text::words_of(typed), ..s }),
        _ => Ok(s),
    }
}

fn says_object(s: &str) -> (yes: bool)
    ensures
        yes == (json::parsed(s@) matches Some(Json::Object(_))),
{
    match json::parse(s) {
        Some(JsonValue::Object(_)) => true,
        _ => false,
    }
}

/// Takes a typed value for a field, or says what is wrong with it.
pub fn commit(
    s: &mut EditorSettings,
    field: EditorField,
    typed: &str,
    limit: Option<u64>,
    float: bool,
) -> (out: Result<(), String>)
    ensures
        match (out, committed(old(s)@, field, typed@, limit, float)) {
            (Ok(_), Ok(v)) => final(s)@ == v,
            (Err(e), Err(f)) => e@ == f && final(s)@ == old(s)@,
            _ => false,
        },
        old(s).context_step > 0 ==> final(s).context_step > 0,
{
    let n: Option<u64> = text::parse_u64(typed);
    match field {
        EditorField::Ctx => match n {
            Some(value) => {
                let most: u64 = match limit {
                    Some(most) => most,
                    None => u64::MAX,
                };
                if value != 0 && value > most {
                    let mut notice: String = "✗ Context ".to_owned();
                    notice.append(text::decimal(value).as_str());
                    notice.append(" exceeds model maximum ");
                    notice.append(text::decimal(most).as_str());
                    return Err(notice);
                }
                s.ctx = value;
            },
            None => return Err("✗ Context must be a number".to_owned()),
        },
        EditorField::ContextStep => match n {
            Some(value) => if 1024 <= value && value <= 65_536 {
                s.context_step = value;
            } else {
                return Err("✗ Context step must be between 1024 and 65536".to_owned());
            },
            None => return Err("✗ Context step must be between 1024 and 65536".to_owned()),
        },
        EditorField::Batch => match n {
            Some(value) => if value > 0 {
                s.batch = value;
                if s.ubatch > value {
                    s.ubatch = value;
                }
            } else {
                return Err("✗ Batch must be a positive number".to_owned());
            },
            None => return Err("✗ Batch must be a positive number".to_owned()),
        },
        EditorField::Ubatch => match n {
            Some(value) => if value > 0 && value <= s.batch {
                s.ubatch = value;
            } else {
                return Err("✗ Microbatch cannot exceed prompt batch".to_owned());
            },
            None => return Err("✗ Microbatch must be a number".to_owned()),
        },
        EditorField::Threads => s.threads = parse_or(typed, s.threads),
        EditorField::ThreadsBatch => s.threads_batch = parse_or(typed, s.threads_batch),
        EditorField::SpecDraftNMax => s.spec_draft_nmax = parse_or(typed, s.spec_draft_nmax),
        EditorField::FitTarget => s.fit_target = parse_or(typed, s.fit_target),
        EditorField::CpuMoe => s.n_cpu_moe = parse_or(typed, s.n_cpu_moe),
        EditorField::DraftCpuMoe => s.spec_draft_n_cpu_moe = parse_or(typed, s.spec_draft_n_cpu_moe),
        EditorField::GpuLayers => if says_layers(typed) {
            s.gpu_layers = typed.to_owned();
        } else {
            return Err("✗ GPU layers: all, auto, or a number".to_owned());
        },
        EditorField::SpecDraftNgl => if says_layers(typed) {
            s.spec_draft_ngl = typed.to_owned();
        } else {
            return Err("✗ Draft GPU layers: all, auto, or a number".to_owned());
        },
        EditorField::Temperature => if !filled(typed) || float {
            s.temperature = typed.to_owned();
        } else {
            return Err("✗ Temperature must be a number (empty = default)".to_owned());
        },
        EditorField::TopK => if !filled(typed) || n.is_some() {
            s.top_k = typed.to_owned();
        } else {
            return Err("✗ Top-K must be a whole number (empty = default)".to_owned());
        },
        EditorField::TopP => if !filled(typed) || float {
            s.top_p = typed.to_owned();
        } else {
            return Err("✗ Top-P must be a number (empty = default)".to_owned());
        },
        EditorField::MinP => if !filled(typed) || float {
            s.min_p = typed.to_owned();
        } else {
            return Err("✗ Min-P must be a number (empty = default)".to_owned());
        },
        EditorField::RepeatPenalty => if !filled(typed) || float {
            s.repeat_penalty = typed.to_owned();
        } else {
            return Err("✗ Repeat penalty must be a number (empty = default)".to_owned());
        },
        EditorField::PresencePenalty => if !filled(typed) || float {
            s.presence_penalty = typed.to_owned();
        } else {
            return Err("✗ Presence penalty must be a number (empty = default)".to_owned());
        },
        EditorField::FrequencyPenalty => if !filled(typed) || float {
            s.frequency_penalty = typed.to_owned();
        } else {
            return Err("✗ Frequency penalty must be a number (empty = default)".to_owned());
        },
        EditorField::ChatTemplateKwargs => if !filled(typed) || says_object(typed) {
            s.chat_template_kwargs = typed.to_owned();
        } else {
            return Err("✗ Template kwargs must be a JSON object".to_owned());
        },
        EditorField::TensorSplit => s.tensor_split = typed.to_owned(),
        EditorField::SpecDraftModel => s.spec_draft_model = typed.to_owned(),
        EditorField::LoadMode => s.load_mode = typed.to_owned(),
        EditorField::OverrideTensor => s.override_tensor = typed.to_owned(),
        EditorField::RopeBase => s.rope_base = typed.to_owned(),
        EditorField::RopeScale => s.rope_scale = typed.to_owned(),
        EditorField::Seed => s.seed = typed.to_owned(),
        EditorField::Reasoning => s.reasoning = typed.to_owned(),
        EditorField::ChatTemplate => s.chat_template = typed.to_owned(),
        EditorField::Extra => s.extra = text::words(typed),
        _ => {},
    }
    Ok(())
}

/// A row of the editor: the title of a group of fields, or a field.
#[derive(Clone, Copy)]
pub enum EditorRow {
    Header(&'static str),
    Field(EditorField),
}

#[verifier::ext_equal]
pub ghost enum RowView {
    Header(Seq<char>),
    Field(EditorField),
}

impl View for EditorRow {
    type V = RowView;

    open spec fn view(&self) -> RowView {
        match self {
            EditorRow::Header(s) => RowView::Header(s@),
            EditorRow::Field(field) => RowView::Field(*field),
        }
    }
}

pub open spec fn row_views(rows: Seq<EditorRow>) -> Seq<RowView> {
    rows.map_values(|r: EditorRow| r@)
}

/// A group of fields below its title.
pub open spec fn group(label: Seq<char>, fields: Seq<EditorField>) -> Seq<RowView> {
    seq![RowView::Header(label)] + fields.map_values(|f: EditorField| RowView::Field(f))
}

pub open spec fn performance_fields() -> Seq<EditorField> {
    seq![
        EditorField::Ctx,
        EditorField::ContextStep,
        EditorField::Parallel,
        EditorField::Batch,
        EditorField::Ubatch,
        EditorField::Threads,
        EditorField::ThreadsBatch,
        EditorField::Flash,
    ]
}

pub open spec fn cache_fields() -> Seq<EditorField> {
    seq![
        EditorField::CacheK,
        EditorField::CacheV,
        EditorField::KvUnified,
        EditorField::KvOffload,
    ]
}

pub open spec fn offload_fields() -> Seq<EditorField> {
    seq![
        EditorField::GpuLayers,
        EditorField::Split,
        EditorField::TensorSplit,
        EditorField::Numa,
        EditorField::CpuMoe,
    ]
}

pub open spec fn memory_fields() -> Seq<EditorField> {
    seq![
        EditorField::Fit,
        EditorField::FitTarget,
        EditorField::LoadMode,
        EditorField::Mlock,
        EditorField::DirectIO,
    ]
}

pub open spec fn speculative_fields() -> Seq<EditorField> {
    seq![
        EditorField::SpecType,
        EditorField::SpecDraftModel,
        EditorField::SpecDraftNMax,
        EditorField::SpecDraftNgl,
        EditorField::DraftCpuMoe,
    ]
}

pub open spec fn sampling_fields() -> Seq<EditorField> {
    seq![
        EditorField::Temperature,
        EditorField::TopK,
        EditorField::TopP,
        EditorField::MinP,
        EditorField::RepeatPenalty,
        EditorField::PresencePenalty,
        EditorField::FrequencyPenalty,
    ]
}

pub open spec fn template_fields() -> Seq<EditorField> {
    seq![
        EditorField::Jinja,
        EditorField::ChatTemplate,
        EditorField::ChatTemplateKwargs,
    ]
}

pub open spec fn advanced_fields() -> Seq<EditorField> {
    seq![
        EditorField::OverrideTensor,
        EditorField::RopeBase,
        EditorField::RopeScale,
        EditorField::Seed,
        EditorField::Reasoning,
    ]
}

pub open spec fn profile_fields() -> Seq<EditorField> {
    seq![
        EditorField::Extra,
        EditorField::Assign,
    ]
}

/// The fields of the editor, in order. The advanced ones are shown where they are asked for.
pub open spec fn fields_of(advanced: bool) -> Seq<EditorField> {
    let basic = performance_fields() + cache_fields() + offload_fields() + memory_fields() + speculative_fields() + sampling_fields() + template_fields();
    let more = basic.push(EditorField::Advanced);
    (if advanced {
        more + advanced_fields()
    } else {
        more
    }) + profile_fields()
}

/// The rows of the editor: the fields below the titles of their groups.
pub open spec fn rows_of(advanced: bool) -> Seq<RowView> {
    let basic = group("PERFORMANCE"@, performance_fields()) + group("KV CACHE"@, cache_fields()) + group("GPU OFFLOAD"@, offload_fields()) + group("MEMORY"@, memory_fields()) + group("SPECULATIVE"@, speculative_fields()) + group("SAMPLING"@, sampling_fields()) + group("CHAT TEMPLATE"@, template_fields());
    let more = basic.push(RowView::Field(EditorField::Advanced));
    (if advanced {
        more + group("ADVANCED"@, advanced_fields())
    } else {
        more
    }) + group("PROFILE"@, profile_fields())
}

fn add_group(rows: &mut Vec<EditorRow>, label: &'static str, fields: &[EditorField])
    ensures
        row_views(final(rows)@) == row_views(old(rows)@) + group(label@, fields@),
{
    let ghost before = row_views(rows@);
    let ghost all = group(label@, fields@);
    rows.push(EditorRow::Header(label));
    proof {
        assert(row_views(rows@) =~= before + all.take(1));
    }
    let mut i: usize = 0;
    while i < fields.len()
        invariant
            i <= fields@.len(),
            all == group(label@, fields@),
            row_views(rows@) == before + all.take(i + 1),
        decreases fields@.len() - i,
    {
        let ghost earlier = row_views(rows@);
        rows.push(EditorRow::Field(fields[i]));
        proof {
            assert(all[i + 1] == RowView::Field(fields@[i as int]));
            assert(row_views(rows@) =~= earlier.push(RowView::Field(fields@[i as int])));
            assert(before + all.take(i + 2) =~= earlier.push(all[i + 1]));
        }
        i += 1;
    }
    proof {
        assert(all.take(all.len() as int) =~= all);
    }
}

/// The rows of the editor.
pub fn editor_rows(advanced: bool) -> (out: Vec<EditorRow>)
    ensures
        row_views(out@) == rows_of(advanced),
{
    let mut rows: Vec<EditorRow> = Vec::new();
    proof {
        assert(row_views(rows@) =~= seq![]);
    }
    let performance: [EditorField; 8] = [
        EditorField::Ctx,
        EditorField::ContextStep,
        EditorField::Parallel,
        EditorField::Batch,
        EditorField::Ubatch,
        EditorField::Threads,
        EditorField::ThreadsBatch,
        EditorField::Flash,
    ];
    proof {
        assert(performance@ =~= performance_fields());
    }
    add_group(&mut rows, "PERFORMANCE", &performance);
    proof {
        assert(row_views(rows@) =~= group("PERFORMANCE"@, performance_fields()));
    }
    let cache: [EditorField; 4] = [
        EditorField::CacheK,
        EditorField::CacheV,
        EditorField::KvUnified,
        EditorField::KvOffload,
    ];
    proof {
        assert(cache@ =~= cache_fields());
    }
    add_group(&mut rows, "KV CACHE", &cache);
    let offload: [EditorField; 5] = [
        EditorField::GpuLayers,
        EditorField::Split,
        EditorField::TensorSplit,
        EditorField::Numa,
        EditorField::CpuMoe,
    ];
    proof {
        assert(offload@ =~= offload_fields());
    }
    add_group(&mut rows, "GPU OFFLOAD", &offload);
    let memory: [EditorField; 5] = [
        EditorField::Fit,
        EditorField::FitTarget,
        EditorField::LoadMode,
        EditorField::Mlock,
        EditorField::DirectIO,
    ];
    proof {
        assert(memory@ =~= memory_fields());
    }
    add_group(&mut rows, "MEMORY", &memory);
    let speculative: [EditorField; 5] = [
        EditorField::SpecType,
        EditorField::SpecDraftModel,
        EditorField::SpecDraftNMax,
        EditorField::SpecDraftNgl,
        EditorField::DraftCpuMoe,
    ];
    proof {
        assert(speculative@ =~= speculative_fields());
    }
    add_group(&mut rows, "SPECULATIVE", &speculative);
    let sampling: [EditorField; 7] = [
        EditorField::Temperature,
        EditorField::TopK,
        EditorField::TopP,
        EditorField::MinP,
        EditorField::RepeatPenalty,
        EditorField::PresencePenalty,
        EditorField::FrequencyPenalty,
    ];
    proof {
        assert(sampling@ =~= sampling_fields());
    }
    add_group(&mut rows, "SAMPLING", &sampling);
    let template: [EditorField; 3] = [
        EditorField::Jinja,
        EditorField::ChatTemplate,
        EditorField::ChatTemplateKwargs,
    ];
    proof {
        assert(template@ =~= template_fields());
    }
    add_group(&mut rows, "CHAT TEMPLATE", &template);
    let ghost basic = row_views(rows@);
    rows.push(EditorRow::Field(EditorField::Advanced));
    proof {
        assert(row_views(rows@) =~= basic.push(RowView::Field(EditorField::Advanced)));
    }
    if advanced {
        let more: [EditorField; 5] = [
        EditorField::OverrideTensor,
        EditorField::RopeBase,
        EditorField::RopeScale,
        EditorField::Seed,
        EditorField::Reasoning,
    ];
        proof {
            assert(more@ =~= advanced_fields());
        }
        add_group(&mut rows, "ADVANCED", &more);
    }
    let own: [EditorField; 2] = [
        EditorField::Extra,
        EditorField::Assign,
    ];
    proof {
        assert(own@ =~= profile_fields());
    }
    add_group(&mut rows, "PROFILE", &own);
    rows
}

fn add_fields(out: &mut Vec<EditorField>, fields: &[EditorField])
    ensures
        final(out)@ == old(out)@ + fields@,
{
    let ghost before = out@;
    let mut i: usize = 0;
    while i < fields.len()
        invariant
            i <= fields@.len(),
            out@ == before + fields@.take(i as int),
        decreases fields@.len() - i,
    {
        out.push(fields[i]);
        proof {
            assert(before + fields@.take(i + 1) =~= (before + fields@.take(i as int)).push(
                fields@[i as int],
            ));
        }
        i += 1;
    }
    proof {
        assert(fields@.take(fields@.len() as int) =~= fields@);
    }
}

/// The fields of the editor.
pub fn editor_fields(advanced: bool) -> (out: Vec<EditorField>)
    ensures
        out@ == fields_of(advanced),
{
    let mut out: Vec<EditorField> = Vec::new();
    let performance: [EditorField; 8] = [
        EditorField::Ctx,
        EditorField::ContextStep,
        EditorField::Parallel,
        EditorField::Batch,
        EditorField::Ubatch,
        EditorField::Threads,
        EditorField::ThreadsBatch,
        EditorField::Flash,
    ];
    proof {
        assert(performance@ =~= performance_fields());
    }
    add_fields(&mut out, &performance);
    proof {
        assert(out@ =~= performance_fields());
    }
    let cache: [EditorField; 4] = [
        EditorField::CacheK,
        EditorField::CacheV,
        EditorField::KvUnified,
        EditorField::KvOffload,
    ];
    proof {
        assert(cache@ =~= cache_fields());
    }
    add_fields(&mut out, &cache);
    let offload: [EditorField; 5] = [
        EditorField::GpuLayers,
        EditorField::Split,
        EditorField::TensorSplit,
        EditorField::Numa,
        EditorField::CpuMoe,
    ];
    proof {
        assert(offload@ =~= offload_fields());
    }
    add_fields(&mut out, &offload);
    let memory: [EditorField; 5] = [
        EditorField::Fit,
        EditorField::FitTarget,
        EditorField::LoadMode,
        EditorField::Mlock,
        EditorField::DirectIO,
    ];
    proof {
        assert(memory@ =~= memory_fields());
    }
    add_fields(&mut out, &memory);
    let speculative: [EditorField; 5] = [
        EditorField::SpecType,
        EditorField::SpecDraftModel,
        EditorField::SpecDraftNMax,
        EditorField::SpecDraftNgl,
        EditorField::DraftCpuMoe,
    ];
    proof {
        assert(speculative@ =~= speculative_fields());
    }
    add_fields(&mut out, &speculative);
    let sampling: [EditorField; 7] = [
        EditorField::Temperature,
        EditorField::TopK,
        EditorField::TopP,
        EditorField::MinP,
        EditorField::RepeatPenalty,
        EditorField::PresencePenalty,
        EditorField::FrequencyPenalty,
    ];
    proof {
        assert(sampling@ =~= sampling_fields());
    }
    add_fields(&mut out, &sampling);
    let template: [EditorField; 3] = [
        EditorField::Jinja,
        EditorField::ChatTemplate,
        EditorField::ChatTemplateKwargs,
    ];
    proof {
        assert(template@ =~= template_fields());
    }
    add_fields(&mut out, &template);
    out.push(EditorField::Advanced);
    if advanced {
        let more: [EditorField; 5] = [
        EditorField::OverrideTensor,
        EditorField::RopeBase,
        EditorField::RopeScale,
        EditorField::Seed,
        EditorField::Reasoning,
    ];
        proof {
            assert(more@ =~= advanced_fields());
        }
        add_fields(&mut out, &more);
    }
    let own: [EditorField; 2] = [
        EditorField::Extra,
        EditorField::Assign,
    ];
    proof {
        assert(own@ =~= profile_fields());
    }
    add_fields(&mut out, &own);
    out
}

/// How many of the first `n` rows are fields.
pub open spec fn field_count(rows: Seq<RowView>, n: nat) -> nat
    decreases n,
{
    if n == 0 {
        0
    } else {
        field_count(rows, (n - 1) as nat) + if rows[n - 1] is Field {
            1nat
        } else {
            0
        }
    }
}

/// In which row a field stands, counted among the fields.
pub open spec fn is_row_of(rows: Seq<RowView>, field: nat, row: int) -> bool {
    0 <= row < rows.len() && rows[row] is Field && field_count(rows, row as nat) == field
}

/// The row of the selected field, the first where there is no such field.
pub fn editor_selected_row(selected: usize, advanced: bool) -> (out: usize)
    ensures
        is_row_of(rows_of(advanced), selected as nat, out as int) || (out == 0 && forall|r: int|
            !is_row_of(rows_of(advanced), selected as nat, r)),
{
    let rows: Vec<EditorRow> = editor_rows(advanced);
    let ghost all = rows_of(advanced);
    let mut field: usize = 0;
    let mut i: usize = 0;
    while i < rows.len()
        invariant
            i <= rows@.len(),
            all == row_views(rows@),
            all == rows_of(advanced),
            field <= i,
            field == field_count(all, i as nat),
            forall|r: int| r < i ==> !is_row_of(all, selected as nat, r),
        decreases rows@.len() - i,
    {
        proof {
            assert(all[i as int] == rows@[i as int]@);
        }
        match rows[i] {
            EditorRow::Field(_) => {
                if field == selected {
                    return i;
                }
                field += 1;
            },
            EditorRow::Header(_) => {},
        }
        i += 1;
    }
    0
}

/// A profile that is being edited.
pub struct ProfileEditor {
    pub name: String,
    pub owner: String,
    pub path: String,
    pub fields: Vec<EditorField>,
    pub selected: usize,
    pub settings: EditorSettings,
    pub prompt: Option<EditorPrompt>,
    pub advanced: bool,
    pub notice: String,
}

#[verifier::ext_equal]
pub ghost struct EditorState {
    pub fields: Seq<EditorField>,
    pub selected: int,
    pub settings: SettingsView,
    pub prompt: Option<PromptView>,
    pub advanced: bool,
    pub notice: Seq<char>,
}

impl View for ProfileEditor {
    type V = EditorState;

    open spec fn view(&self) -> EditorState {
        EditorState {
            fields: self.fields@,
            selected: self.selected as int,
            settings: self.settings@,
            prompt: prompt_view(self.prompt),
            advanced: self.advanced,
            notice: self.notice@,
        }
    }
}

impl EditorState {
    /// The step of the context is not zero, and the cursor of a prompt stands in its line.
    pub open spec fn wf(self) -> bool {
        &&& self.settings.context_step > 0
        &&& match self.prompt {
            Some(p) => p.line.wf(),
            None => true,
        }
    }

    /// The selected field.
    pub open spec fn field(self) -> Option<EditorField> {
        if 0 <= self.selected < self.fields.len() {
            Some(self.fields[self.selected])
        } else {
            None
        }
    }
}

/// What has to be done after a key.
#[derive(Clone, Copy, Debug, PartialEq, Eq, Structural)]
pub enum EditorRequest {
    Nothing,
    /// Leave the editor.
    Close,
    /// Put the settings into the profile.
    Save,
    /// Let a template be picked.
    PickTemplate,
    /// Estimate the memory anew.
    Estimate,
}

/// The last place in a list, the first where it is empty.
pub open spec fn last_place(len: nat) -> int {
    if len > 0 {
        len - 1
    } else {
        0
    }
}

/// One place further in a list, at most the last.
pub open spec fn one_down(at: int, len: nat) -> int {
    if at < last_place(len) {
        at + 1
    } else {
        last_place(len)
    }
}

pub open spec fn one_up(at: int) -> int {
    if at > 0 {
        at - 1
    } else {
        0
    }
}

pub fn down(at: usize, len: usize) -> (out: usize)
    ensures
        out == one_down(at as int, len as nat),
{
    let last: usize = if len > 0 {
        len - 1
    } else {
        0
    };
    if at < last {
        at + 1
    } else {
        last
    }
}

pub fn up(at: usize) -> (out: usize)
    ensures
        out == one_up(at as int),
{
    if at > 0 {
        at - 1
    } else {
        0
    }
}

/// The editor after the value of the selected field was moved on.
pub open spec fn after_cycle(v: EditorState, by: i32, limit: Option<u64>, setting: u64) -> (
    EditorState,
    EditorRequest,
) {
    match v.field() {
        Some(field) => match cycled(v.settings, field, by, limit, setting) {
            Some(settings) => {
                let changed = EditorState { settings, ..v };
                if field == EditorField::Advanced {
                    let fields = fields_of(!v.advanced);
                    let selected = if v.selected <= last_place(fields.len()) {
                        v.selected
                    } else {
                        last_place(fields.len())
                    };
                    (
                        EditorState { fields, selected, advanced: !v.advanced, ..changed },
                        EditorRequest::Estimate,
                    )
                } else {
                    (changed, EditorRequest::Estimate)
                }
            },
            None => (v, EditorRequest::Nothing),
        },
        None => (v, EditorRequest::Nothing),
    }
}

/// The editor after a key while a value is typed.
pub open spec fn after_prompt_key(
    v: EditorState,
    p: PromptView,
    key: Key,
    limit: Option<u64>,
    float: bool,
) -> (EditorState, EditorRequest) {
    match editing::line_action_of(key, false) {
        LineAction::Cancel => (EditorState { prompt: None, ..v }, EditorRequest::Nothing),
        LineAction::Submit => match committed(
            v.settings,
            p.field,
            text::trim_of(p.line.text),
            limit,
            float,
        ) {
            Ok(settings) => (EditorState { settings, prompt: None, ..v }, EditorRequest::Estimate),
            Err(notice) => (EditorState { notice, prompt: None, ..v }, EditorRequest::Nothing),
        },
        LineAction::Edit(e) => (
            EditorState {
                prompt: Some(PromptView { line: editing::edited(p.line, e), ..p }),
                ..v
            },
            EditorRequest::Nothing,
        ),
        LineAction::Nothing => (v, EditorRequest::Nothing),
    }
}

/// The editor after the selected field was moved on, or a template is to be picked.
pub open spec fn after_side_key(v: EditorState, by: i32, limit: Option<u64>, setting: u64) -> (
    EditorState,
    EditorRequest,
) {
    if v.field() == Some(EditorField::ChatTemplate) {
        (v, EditorRequest::PickTemplate)
    } else {
        after_cycle(v, by, limit, setting)
    }
}

/// The editor after a key. `limit` is the context that the model was trained for, `setting`
/// the one of the settings, and `float` says whether what is typed is a floating-point
/// number.
pub open spec fn after_key(
    v: EditorState,
    key: Key,
    limit: Option<u64>,
    setting: u64,
    float: bool,
) -> (EditorState, EditorRequest) {
    match v.prompt {
        Some(p) => after_prompt_key(v, p, key, limit, float),
        None => {
            let is = |c: char| key.code == KeyCode::Char(c);
            if key.code == KeyCode::Esc || is('q') {
                (v, EditorRequest::Close)
            } else if key.code == KeyCode::Enter || is('s') {
                (v, EditorRequest::Save)
            } else if key.code == KeyCode::Up || is('k') {
                (EditorState { selected: one_up(v.selected), ..v }, EditorRequest::Nothing)
            } else if key.code == KeyCode::Down || is('j') {
                (
                    EditorState { selected: one_down(v.selected, v.fields.len()), ..v },
                    EditorRequest::Nothing,
                )
            } else if key.code == KeyCode::Left || is('h') {
                after_side_key(v, -1i32, limit, setting)
            } else if key.code == KeyCode::Right || is('l') {
                after_side_key(v, 1, limit, setting)
            } else if is('t') {
                let field = match v.field() {
                    Some(field) => field,
                    None => EditorField::Ctx,
                };
                match typed_of(field, v.settings) {
                    Some((label, current)) => (
                        EditorState { prompt: Some(new_prompt(label, current, field)), ..v },
                        EditorRequest::Nothing,
                    ),
                    None => (v, EditorRequest::Nothing),
                }
            } else if is('e') && v.field() == Some(EditorField::Extra) {
                let prompt = new_prompt(
                    "Extra llama-server flags (space-separated)"@,
                    text::joined(v.settings.extra, " "@),
                    EditorField::Extra,
                );
                (EditorState { prompt: Some(prompt), ..v }, EditorRequest::Nothing)
            } else {
                (v, EditorRequest::Nothing)
            }
        },
    }
}

impl ProfileEditor {
    /// The selected field.
    pub fn field(&self) -> (out: Option<EditorField>)
        ensures
            out == self@.field(),
    {
        if self.selected < self.fields.len() {
            Some(self.fields[self.selected])
        } else {
            None
        }
    }

    fn cycle(&mut self, by: i32, limit: Option<u64>, setting: u64) -> (out: EditorRequest)
        requires
            old(self)@.wf(),
        ensures
            (final(self)@, out) == after_cycle(old(self)@, by, limit, setting),
            final(self)@.wf(),
            final(self).name == old(self).name,
            final(self).owner == old(self).owner,
            final(self).path == old(self).path,
    {
        match self.field() {
            Some(field) => {
                if !cycle(&mut self.settings, field, by, limit, setting) {
                    return EditorRequest::Nothing;
                }
                if field == EditorField::Advanced {
                    self.advanced = !self.advanced;
                    self.fields = editor_fields(self.advanced);
                    let last: usize = if self.fields.len() > 0 {
                        self.fields.len() - 1
                    } else {
                        0
                    };
                    if self.selected > last {
                        self.selected = last;
                    }
                }
                EditorRequest::Estimate
            },
            None => EditorRequest::Nothing,
        }
    }

    fn turn(&mut self, by: i32, limit: Option<u64>, setting: u64) -> (out: EditorRequest)
        requires
            old(self)@.wf(),
        ensures
            (final(self)@, out) == after_side_key(old(self)@, by, limit, setting),
            final(self)@.wf(),
            final(self).name == old(self).name,
            final(self).owner == old(self).owner,
            final(self).path == old(self).path,
    {
        let picks: bool = match self.field() {
            Some(field) => field == EditorField::ChatTemplate,
            None => false,
        };
        if picks {
            EditorRequest::PickTemplate
        } else {
            self.cycle(by, limit, setting)
        }
    }

    fn press_in_prompt(&mut self, key: Key, limit: Option<u64>, float: bool) -> (out: EditorRequest)
        requires
            old(self)@.wf(),
            old(self).prompt is Some,
        ensures
            (final(self)@, out) == after_prompt_key(
                old(self)@,
                old(self)@.prompt->Some_0,
                key,
                limit,
                float,
            ),
            final(self)@.wf(),
            final(self).name == old(self).name,
            final(self).owner == old(self).owner,
            final(self).path == old(self).path,
    {
        match self.prompt.take() {
            Some(mut p) => match editing::line_action(key, false) {
                LineAction::Cancel => EditorRequest::Nothing,
                LineAction::Submit => {
                    let typed: String = text::trim(p.line.text.as_str());
                    match commit(&mut self.settings, p.field, typed.as_str(), limit, float) {
                        Ok(_) => EditorRequest::Estimate,
                        Err(notice) => {
                            self.notice = notice;
                            EditorRequest::Nothing
                        },
                    }
                },
                LineAction::Edit(e) => {
                    p.line.edit(e);
                    self.prompt = Some(p);
                    EditorRequest::Nothing
                },
                LineAction::Nothing => {
                    self.prompt = Some(p);
                    EditorRequest::Nothing
                },
            },
            None => EditorRequest::Nothing,
        }
    }

    /// Does what a key means, and says what has to be done after it.
    pub fn press(&mut self, key: Key, limit: Option<u64>, setting: u64, float: bool) -> (out:
        EditorRequest)
        requires
            old(self)@.wf(),
        ensures
            (final(self)@, out) == after_key(old(self)@, key, limit, setting, float),
            final(self)@.wf(),
            final(self).name == old(self).name,
            final(self).owner == old(self).owner,
            final(self).path == old(self).path,
    {
        if self.prompt.is_some() {
            return self.press_in_prompt(key, limit, float);
        }
        match key.code {
            KeyCode::Esc | KeyCode::Char('q') => EditorRequest::Close,
            KeyCode::Enter | KeyCode::Char('s') => EditorRequest::Save,
            KeyCode::Up | KeyCode::Char('k') => {
                self.selected = up(self.selected);
                EditorRequest::Nothing
            },
            KeyCode::Down | KeyCode::Char('j') => {
                self.selected = down(self.selected, self.fields.len());
                EditorRequest::Nothing
            },
            KeyCode::Left | KeyCode::Char('h') => self.turn(-1, limit, setting),
            KeyCode::Right | KeyCode::Char('l') => self.turn(1, limit, setting),
            KeyCode::Char('t') => {
                let field: EditorField = match self.field() {
                    Some(field) => field,
                    None => EditorField::Ctx,
                };
                match editor_open_typed(field, &self.settings) {
                    Some(p) => {
                        self.prompt = Some(p);
                    },
                    None => {},
                }
                EditorRequest::Nothing
            },
            KeyCode::Char('e') => {
                let extra: bool = match self.field() {
                    Some(field) => field == EditorField::Extra,
                    None => false,
                };
                if extra {
                    self.prompt = Some(editor_open_extra(&self.settings));
                }
                EditorRequest::Nothing
            },
            _ => EditorRequest::Nothing,
        }
    }
}

/// Why a profile cannot be edited.
#[derive(Clone, Copy, Debug, PartialEq, Eq, Structural)]
pub enum OpenError {
    NoOwner,
    /// The model that the profile belongs to is not in the library.
    NoModel,
}

/// The settings that the editor starts with: those in the profile, with the step of the
/// context, the context of the settings where the profile names none, and whether the model
/// uses the profile.
pub open spec fn starting_settings(
    p: ProfilesView,
    name: Seq<char>,
    owner: Seq<char>,
    step: u64,
    setting: u64,
) -> SettingsView {
    let list = match table::lookup(p.profiles, name) {
        Some(list) => list,
        None => seq![],
    };
    let read = editor::settings_in(list);
    SettingsView {
        context_step: step,
        ctx: if table::lookup(list, "ctx-size"@) is None {
            setting
        } else {
            read.ctx
        },
        assign: table::lookup(p.models, owner) == Some(Json::Text(name)),
        ..read
    }
}

/// Reads the settings that the editor starts with.
pub fn settings_for(p: &Profiles, name: &str, owner: &str, step: u64, setting: u64) -> (out:
    EditorSettings)
    ensures
        out@ == starting_settings(p@, name@, owner@, step, setting),
{
    let profile: Table<JsonValue> = match commands::profile_copy(p, name) {
        Some(t) => t,
        None => {
            let none: Table<JsonValue> = Table::new();
            proof {
                json::lemma_members(none);
                assert(json::members(none) =~= seq![]);
            }
            none
        },
    };
    let mut settings: EditorSettings = editor::editor_settings_from_profile(&profile);
    settings.context_step = step;
    if commands::member(&profile, "ctx-size").is_none() {
        settings.ctx = setting;
    }
    proof {
        table::lemma_mapped_lookup(p.models@, json::to_json(), owner@);
    }
    settings.assign = profiles::is_text(p.models.get(owner), name);
    settings
}

/// Starts to edit a profile. `ids` are the identifiers of the models in the library and
/// `paths` where they lie.
pub fn open_editor(
    p: &Profiles,
    name: &str,
    ids: &Vec<String>,
    paths: &Vec<String>,
    step: u64,
    setting: u64,
) -> (out: Result<ProfileEditor, OpenError>)
    requires
        step > 0,
        ids@.len() == paths@.len(),
    ensures
        match profiles::owner_of(p@, name@) {
            None => out == Err::<ProfileEditor, OpenError>(OpenError::NoOwner),
            Some(owner) => {
                let at = text::run(text::views(ids@), another(owner)) as int;
                if at < ids@.len() {
                    match out {
                        Ok(e) => {
                            &&& e@ == (EditorState {
                                fields: fields_of(false),
                                selected: 0,
                                settings: starting_settings(p@, name@, owner, step, setting),
                                prompt: None,
                                advanced: false,
                                notice: ""@,
                            })
                            &&& e@.wf()
                            &&& e.name@ == name@
                            &&& e.owner@ == owner
                            &&& e.path@ == paths@[at]@
                        },
                        Err(_) => false,
                    }
                } else {
                    out == Err::<ProfileEditor, OpenError>(OpenError::NoModel)
                }
            },
        },
{
    let owner: String = match p.owner(name) {
        Some(s) => s.to_owned(),
        None => return Err(OpenError::NoOwner),
    };
    let at: usize = match position(ids, owner.as_str()) {
        Some(i) => i,
        None => return Err(OpenError::NoModel),
    };
    let settings: EditorSettings = settings_for(p, name, owner.as_str(), step, setting);
    Ok(
        ProfileEditor {
            name: name.to_owned(),
            owner,
            path: paths[at].clone(),
            fields: editor_fields(false),
            selected: 0,
            settings,
            prompt: None,
            advanced: false,
            notice: "".to_owned(),
        },
    )
}

/// The profiles after the settings were put into one of them: its model uses it where it is
/// assigned, and does not use it any more where it is not; `None` where there is no such
/// profile.
pub open spec fn saved(
    p: ProfilesView,
    name: Seq<char>,
    owner: Seq<char>,
    s: SettingsView,
) -> Option<ProfilesView> {
    match table::lookup(p.profiles, name) {
        None => None,
        Some(list) => Some(
            ProfilesView {
                profiles: table::put(p.profiles, name, editor::profile_with(list, s, owner)),
                models: if s.assign {
                    table::put(p.models, owner, Json::Text(name))
                } else if table::lookup(p.models, owner) == Some(Json::Text(name)) {
                    table::without(p.models, owner)
                } else {
                    p.models
                },
                ..p
            },
        ),
    }
}

/// Puts the settings into a profile; `false` where there is no such profile.
pub fn save(p: &mut Profiles, name: &str, owner: &str, s: &EditorSettings) -> (found: bool)
    ensures
        match saved(old(p)@, name@, owner@, s@) {
            Some(v) => found && final(p)@ == v,
            None => !found && final(p)@ == old(p)@,
        },
{
    let profile: Table<JsonValue> = match commands::profile_copy(p, name) {
        Some(t) => t,
        None => return false,
    };
    proof {
        table::lemma_mapped_lookup(p.models@, json::to_json(), owner@);
    }
    let uses: bool = profiles::is_text(p.models.get(owner), name);
    commands::put_profile(
        p,
        name,
        editor::editor_profile_from_profile(&profile, s, owner),
    );
    if s.assign {
        commands::put_binding(p, owner, name);
    } else if uses {
        commands::drop_binding(p, owner);
    }
    true
}

/// Something that can be picked from a list.
pub struct Picker {
    pub options: Vec<String>,
    pub selected: usize,
}

/// What has to be done with a picker after a key.
#[derive(Clone, Copy, Debug, PartialEq, Eq, Structural)]
pub enum PickerRequest {
    Nothing,
    Close,
    Choose,
}

/// Where a picker with `len` options stands after a key, and what has to be done with it.
pub open spec fn picked(selected: int, len: nat, key: Key) -> (int, PickerRequest) {
    let is = |c: char| key.code == KeyCode::Char(c);
    if key.code == KeyCode::Esc || is('q') {
        (selected, PickerRequest::Close)
    } else if key.code == KeyCode::Up || is('k') {
        (one_up(selected), PickerRequest::Nothing)
    } else if key.code == KeyCode::Down || is('j') {
        (one_down(selected, len), PickerRequest::Nothing)
    } else if key.code == KeyCode::Home {
        (0, PickerRequest::Nothing)
    } else if key.code == KeyCode::End {
        (last_place(len), PickerRequest::Nothing)
    } else if key.code == KeyCode::Enter {
        (selected, PickerRequest::Choose)
    } else {
        (selected, PickerRequest::Nothing)
    }
}

impl Picker {
    /// Does what a key means, and says what has to be done with the picker.
    pub fn press(&mut self, key: Key) -> (out: PickerRequest)
        ensures
            (final(self).selected as int, out) == picked(
                old(self).selected as int,
                old(self).options@.len(),
                key,
            ),
            final(self).options == old(self).options,
    {
        match key.code {
            KeyCode::Esc | KeyCode::Char('q') => PickerRequest::Close,
            KeyCode::Up | KeyCode::Char('k') => {
                self.selected = up(self.selected);
                PickerRequest::Nothing
            },
            KeyCode::Down | KeyCode::Char('j') => {
                self.selected = down(self.selected, self.options.len());
                PickerRequest::Nothing
            },
            KeyCode::Home => {
                self.selected = 0;
                PickerRequest::Nothing
            },
            KeyCode::End => {
                self.selected = if self.options.len() > 0 {
                    self.options.len() - 1
                } else {
                    0
                };
                PickerRequest::Nothing
            },
            KeyCode::Enter => PickerRequest::Choose,
            _ => PickerRequest::Nothing,
        }
    }

    /// The selected option.
    pub fn choice(&self) -> (out: Option<String>)
        ensures
            metadata::text_view(out) == if self.selected < self.options@.len() {
                Some(self.options@[self.selected as int]@)
            } else {
                None
            },
    {
        if self.selected < self.options.len() {
            Some(self.options[self.selected].clone())
        } else {
            None
        }
    }
}

/// A picker for one of some runtimes that starts at the present one.
pub fn runtime_picker(options: Vec<String>, current: &str) -> (out: Picker)
    ensures
        out.options == options,
        out.selected == {
            let at = text::run(text::views(options@), another(current@));
            if at < options@.len() {
                at
            } else {
                0
            }
        },
{
    let selected: usize = match position(&options, current) {
        Some(i) => i,
        None => 0,
    };
    Picker { options, selected }
}

/// Whether a template has another content.
pub open spec fn other_content(content: Seq<char>) -> spec_fn((Seq<char>, Seq<char>)) -> bool {
    |t: (Seq<char>, Seq<char>)| t.1 != content
}

/// The names of the first `n` templates.
pub open spec fn template_names(list: Seq<(Seq<char>, Seq<char>)>) -> Seq<Seq<char>> {
    list.map_values(|t: (Seq<char>, Seq<char>)| t.0)
}

fn content_position(library: &Templates, content: &str) -> (out: Option<usize>)
    ensures
        match out {
            Some(i) => i < library@.len() && i == text::run(library@, other_content(content@)),
            None => text::run(library@, other_content(content@)) == library@.len(),
        },
        library@.len() == library.templates@.len(),
{
    let ghost all = library@;
    let mut i: usize = 0;
    while i < library.templates.len()
        invariant
            i <= library.templates@.len(),
            all == library@,
            all.len() == library.templates@.len(),
            forall|j: int| 0 <= j < i ==> (#[trigger] all[j]).1 != content@,
        decreases library.templates@.len() - i,
    {
        proof {
            assert(all[i as int] == (
                library.templates@[i as int].0,
                library.templates@[i as int].1@,
            ));
        }
        if text::same(library.templates.value_at(i).as_str(), content) {
            proof {
                text::lemma_run_unique(all, other_content(content@), i as int);
            }
            return Some(i);
        }
        i += 1;
    }
    proof {
        text::lemma_run_unique(all, other_content(content@), i as int);
    }
    None
}

/// A picker for one of the templates or the model's own, which stands last. It starts at the
/// template with the present content.
pub fn template_picker(library: &Templates, current: &str) -> (out: Picker)
    ensures
        text::views(out.options@) == template_names(library@).push("built-in (model default)"@),
        out.selected == if current@.len() == 0 {
            library@.len()
        } else {
            let at = text::run(library@, other_content(current@));
            if at < library@.len() {
                at
            } else {
                0
            }
        },
{
    let mut options: Vec<String> = Vec::new();
    let ghost all = template_names(library@);
    let mut i: usize = 0;
    proof {
        assert(all.take(0) =~= text::views(options@));
    }
    while i < library.templates.len()
        invariant
            i <= library.templates@.len(),
            all == template_names(library@),
            all.len() == library.templates@.len(),
            text::views(options@) == all.take(i as int),
        decreases library.templates@.len() - i,
    {
        process::add(&mut options, library.templates.key_at(i));
        proof {
            assert(all[i as int] == library.templates@[i as int].0);
            assert(all.take(i + 1) =~= all.take(i as int).push(all[i as int]));
        }
        i += 1;
    }
    proof {
        assert(all.take(all.len() as int) =~= all);
        assert(options@.len() == text::views(options@).len());
    }
    let count: usize = options.len();
    process::add(&mut options, "built-in (model default)");
    let selected: usize = if filled(current) {
        match content_position(library, current) {
            Some(i) => i,
            None => 0,
        }
    } else {
        count
    };
    Picker { options, selected }
}

/// The settings after a template was picked, and what is said of it.
pub open spec fn with_template(
    s: SettingsView,
    templates: Seq<(Seq<char>, Seq<char>)>,
    name: Seq<char>,
) -> (SettingsView, Seq<char>) {
    if name == "built-in (model default)"@ {
        (
            SettingsView { chat_template: ""@, chat_template_file: ""@, ..s },
            "Cleared chat template - using model built-in"@,
        )
    } else {
        let content = match table::lookup(templates, name) {
            Some(content) => content,
            None => ""@,
        };
        (
            SettingsView { chat_template: content, jinja: true, ..s },
            "Applied template "@ + name,
        )
    }
}

/// Takes a template that was picked, and says so.
pub fn pick_template(s: &mut EditorSettings, library: &Templates, name: &str) -> (notice: String)
    ensures
        (final(s)@, notice@) == with_template(old(s)@, library@, name@),
{
    if text::same(name, "built-in (model default)") {
        s.chat_template = "".to_owned();
        s.chat_template_file = "".to_owned();
        return "Cleared chat template - using model built-in".to_owned();
    }
    proof {
        table::lemma_mapped_lookup(library.templates@, crate::drm::to_chars(), name@);
    }
    s.chat_template = match library.templates.get(name) {
        Some(content) => content.clone(),
        None => "".to_owned(),
    };
    s.jinja = true;
    let mut notice: String = "Applied template ".to_owned();
    notice.append(name);
    notice
}

/// How the chat template of a profile is shown: by the name of the template with its
/// content, or else by its first words.
pub open spec fn shown_template(templates: Seq<(Seq<char>, Seq<char>)>, content: Seq<char>) -> Seq<
    char,
> {
    let at = text::run(templates, other_content(content)) as int;
    if content.len() == 0 {
        "(model default)"@
    } else if at < templates.len() {
        templates[at].0
    } else {
        let line = text::joined(text::words_of(content), " "@);
        if line.len() > 44 {
            line.take(44).push('…')
        } else {
            line
        }
    }
}

pub fn chat_template_display(library: &Templates, content: &str) -> (out: String)
    ensures
        out@ == shown_template(library@, content@),
{
    if !filled(content) {
        return "(model default)".to_owned();
    }
    match content_position(library, content) {
        Some(i) => {
            proof {
                assert(library@[i as int].0 == library.templates@[i as int].0);
            }
            library.templates.key_at(i).to_owned()
        },
        None => {
            let words: Vec<String> = text::words(content);
            let line: String = text::join(words.as_slice(), " ");
            let count: usize = text::chars_of(line.as_str()).len();
            if count > 44 {
                let mut out: String = commands::preview(content, 44);
                out.push('…');
                out
            } else {
                line
            }
        },
    }
}

} // verus!
