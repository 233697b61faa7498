//! Laws of the fields of a profile: what is typed or chosen for one is what it shows then, and
//! the other fields show what they did.
use vstd::prelude::*;

use crate::editor;
use crate::editor::SettingsView;
use crate::json::Json;
use crate::laws::texts;
use crate::profile_editor;
use crate::profile_editor::EditorField;
use crate::profiles::ProfilesView;
use crate::table;
use crate::text;

verus! {

/// Whether a whole number is typed for a field, and nothing else.
pub open spec fn counted(field: EditorField) -> bool {
    match field {
        EditorField::Ctx
        | EditorField::ContextStep
        | EditorField::Batch
        | EditorField::Ubatch
        | EditorField::Threads
        | EditorField::ThreadsBatch
        | EditorField::SpecDraftNMax
        | EditorField::FitTarget
        | EditorField::CpuMoe
        | EditorField::DraftCpuMoe => true,
        _ => false,
    }
}

/// The value that is put before the user where one is typed for a field.
pub open spec fn proposed(field: EditorField, s: SettingsView) -> Option<Seq<char>> {
    match profile_editor::typed_of(field, s) {
        Some((_, value)) => Some(value),
        None => None,
    }
}

/// What a field proposes after a value was typed for it is that value: the number that was
/// typed, or the one before where none was, and elsewhere the very text.
#[verifier::rlimit(60)]
#[verifier::spinoff_prover]
pub proof fn typed_values_stand_in_their_field(
    s: SettingsView,
    field: EditorField,
    typed: Seq<char>,
    limit: Option<u64>,
    float: bool,
)
    requires
        proposed(field, s) is Some,
    ensures
        profile_editor::committed(s, field, typed, limit, float) matches Ok(t) ==> {
            &&& !counted(field) ==> proposed(field, t) == Some(typed)
            &&& counted(field) ==> proposed(field, t) == match text::u64_of(typed) {
                Some(n) => Some(text::decimal_of(n as nat)),
                None => proposed(field, s),
            }
        },
{
}

/// A value that is typed for a field changes what this field shows and no other; only a smaller
/// batch takes the microbatch with it.
#[verifier::rlimit(100)]
#[verifier::spinoff_prover]
pub proof fn typed_values_leave_the_other_fields(
    s: SettingsView,
    field: EditorField,
    other: EditorField,
    typed: Seq<char>,
    limit: Option<u64>,
    float: bool,
)
    requires
        other != field,
        field == EditorField::Batch ==> other != EditorField::Ubatch,
    ensures
        profile_editor::committed(s, field, typed, limit, float) matches Ok(t)
            ==> profile_editor::value_of(other, t) == profile_editor::value_of(other, s),
{
}

/// A typed value is refused where it is no number or a wrong one: a context beyond what the model
/// was trained for, a step that is not between 1024 and 65536, an empty batch, a microbatch
/// that is empty or larger than the batch. Where a number may have a fraction, only such a
/// number is taken, or nothing.
pub proof fn wrong_values_are_refused(
    s: SettingsView,
    n: u64,
    typed: Seq<char>,
    limit: Option<u64>,
    float: bool,
)
    ensures
        ({
            let t = |f: EditorField| profile_editor::committed(s, f, text::decimal_of(n as nat), limit, float) is Ok;
            let r = |f: EditorField| profile_editor::committed(s, f, typed, limit, float) is Ok;
            &&& t(EditorField::Ctx) <==> n == 0 || limit is None || n <= limit->0
            &&& t(EditorField::ContextStep) <==> 1024 <= n <= 65536
            &&& t(EditorField::Batch) <==> n > 0
            &&& t(EditorField::Ubatch) <==> 0 < n <= s.batch
            &&& t(EditorField::TopK)
            &&& t(EditorField::GpuLayers)
            &&& t(EditorField::SpecDraftNgl)
            &&& text::u64_of(typed) is None ==> !r(EditorField::Ctx) && !r(EditorField::ContextStep) && !r(
                EditorField::Batch,
            ) && !r(EditorField::Ubatch)
            &&& r(EditorField::TopK) <==> typed.len() == 0 || text::u64_of(typed) is Some
            &&& r(EditorField::Temperature) <==> typed.len() == 0 || float
            &&& r(EditorField::TopP) <==> typed.len() == 0 || float
            &&& r(EditorField::MinP) <==> typed.len() == 0 || float
            &&& r(EditorField::RepeatPenalty) <==> typed.len() == 0 || float
            &&& r(EditorField::PresencePenalty) <==> typed.len() == 0 || float
            &&& r(EditorField::FrequencyPenalty) <==> typed.len() == 0 || float
        }),
{
    texts::decimals_read_back(n);
}

/// Whether a value that is offered for a field is one of the number: within the limits of the
/// field, and no larger than the batch for a microbatch.
pub open spec fn within(s: SettingsView, field: EditorField, n: u64) -> bool {
    match field {
        EditorField::ContextStep => 1024 <= n <= 65536,
        EditorField::Parallel => 1 <= n <= 32,
        EditorField::Threads | EditorField::ThreadsBatch => 1 <= n <= 512,
        EditorField::Ubatch => n <= s.batch,
        EditorField::SpecDraftNMax => n > 0,
        _ => true,
    }
}

/// A number that is chosen for a field is shown by it then.
#[verifier::rlimit(60)]
#[verifier::spinoff_prover]
pub proof fn chosen_numbers_are_shown(s: SettingsView, field: EditorField, n: u64)
    requires
        counted(field) || field == EditorField::Parallel,
        within(s, field, n),
    ensures
        profile_editor::value_of(
            field,
            profile_editor::with_value(s, field, text::decimal_of(n as nat)),
        ) == text::decimal_of(n as nat),
{
    texts::decimals_read_back(n);
}

/// Whether a field is a switch.
pub open spec fn switched(field: EditorField) -> bool {
    match field {
        EditorField::KvUnified
        | EditorField::Mlock
        | EditorField::DirectIO
        | EditorField::KvOffload
        | EditorField::Jinja => true,
        _ => false,
    }
}

/// A text that is chosen for a field is shown by it then, and so is the state of a switch.
#[verifier::rlimit(60)]
#[verifier::spinoff_prover]
pub proof fn chosen_texts_are_shown(s: SettingsView, field: EditorField, raw: Seq<char>)
    requires
        !counted(field),
        field != EditorField::Parallel,
        field != EditorField::Extra,
        field != EditorField::Assign,
        field != EditorField::Advanced,
        raw.len() > 0,
        switched(field) ==> raw == "on"@ || raw == "off"@,
    ensures
        profile_editor::value_of(field, profile_editor::with_value(s, field, raw)) == raw,
{
    reveal_strlit("on");
    reveal_strlit("off");
    reveal_strlit("true");
    assert("on"@.len() == 2 && "off"@.len() == 3 && "true"@.len() == 4);
}

/// A value that is chosen for a field changes what this field shows and no other; only a smaller
/// batch takes the microbatch with it.
#[verifier::rlimit(100)]
#[verifier::spinoff_prover]
pub proof fn chosen_values_leave_the_other_fields(
    s: SettingsView,
    field: EditorField,
    other: EditorField,
    raw: Seq<char>,
)
    requires
        other != field,
        field == EditorField::Batch ==> other != EditorField::Ubatch,
    ensures
        profile_editor::value_of(other, profile_editor::with_value(s, field, raw))
            == profile_editor::value_of(other, s),
{
}

/// Settings are saved in the profile that is edited and in no other. Its model uses it then if
/// and only if it is assigned, and the other models use what they did.
pub proof fn settings_are_saved_in_their_profile(
    p: ProfilesView,
    name: Seq<char>,
    owner: Seq<char>,
    s: SettingsView,
    other: Seq<char>,
)
    requires
        table::ordered(p.profiles),
        table::ordered(p.models),
    ensures
        match profile_editor::saved(p, name, owner, s) {
            None => table::lookup(p.profiles, name) is None,
            Some(q) => {
                &&& table::lookup(p.profiles, name) matches Some(list)
                &&& table::lookup(q.profiles, name) == Some(editor::profile_with(list, s, owner))
                &&& other != name ==> table::lookup(q.profiles, other) == table::lookup(p.profiles, other)
                &&& table::lookup(q.models, owner) == Some(Json::Text(name)) <==> s.assign
                &&& !s.assign && table::lookup(p.models, owner) != Some(Json::Text(name))
                    ==> table::lookup(q.models, owner) == table::lookup(p.models, owner)
                &&& other != owner ==> table::lookup(q.models, other) == table::lookup(p.models, other)
                &&& q.expose == p.expose
            },
        },
{
    if let Some(list) = table::lookup(p.profiles, name) {
        table::put_then_lookup(p.profiles, name, editor::profile_with(list, s, owner), other);
        table::put_then_lookup(p.models, owner, Json::Text(name), other);
        table::without_then_lookup(p.models, owner, other);
    }
}

/// Whether a flag stands in a list of arguments with a value right behind it.
pub open spec fn follows(list: Seq<Seq<char>>, flag: Seq<char>, value: Seq<char>) -> bool {
    exists|i: int| 0 <= i && i + 1 < list.len() && #[trigger] list[i] == flag && list[i + 1] == value
}

/// In the arguments for some settings the number or the text of each field that always has one
/// stands right behind its flag, in the form in which the field shows it.
pub proof fn settings_stand_behind_their_flags(s: SettingsView)
    ensures
        ({
            let list = profile_editor::arguments_a(s);
            let v = |f: EditorField| profile_editor::value_of(f, s);
            &&& follows(list, "--ctx-size"@, v(EditorField::Ctx))
            &&& follows(list, "--parallel"@, v(EditorField::Parallel))
            &&& follows(list, "--batch-size"@, v(EditorField::Batch))
            &&& follows(list, "--ubatch-size"@, v(EditorField::Ubatch))
            &&& follows(list, "--cache-type-k"@, v(EditorField::CacheK))
            &&& follows(list, "--cache-type-v"@, v(EditorField::CacheV))
            &&& follows(list, "--flash-attn"@, v(EditorField::Flash))
            &&& follows(list, "--n-gpu-layers"@, v(EditorField::GpuLayers))
            &&& follows(list, "--split-mode"@, v(EditorField::Split))
            &&& follows(list, "--tensor-split"@, v(EditorField::TensorSplit))
            &&& follows(list, "--threads"@, v(EditorField::Threads))
            &&& follows(list, "--threads-batch"@, v(EditorField::ThreadsBatch))
            &&& list.len() == 25
            &&& list[24] == if v(EditorField::KvUnified) == "on"@ {
                "--kv-unified"@
            } else {
                "--no-kv-unified"@
            }
        }),
{
    reveal_strlit("on");
    reveal_strlit("off");
    assert("on"@.len() == 2 && "off"@.len() == 3);
    let list = profile_editor::arguments_a(s);
    assert(list.len() == 25);
    assert(list[0] == "--ctx-size"@ && list[1] == profile_editor::value_of(EditorField::Ctx, s));
    assert(list[2] == "--parallel"@ && list[3] == profile_editor::value_of(EditorField::Parallel, s));
    assert(list[4] == "--batch-size"@ && list[5] == profile_editor::value_of(EditorField::Batch, s));
    assert(list[6] == "--ubatch-size"@ && list[7] == profile_editor::value_of(EditorField::Ubatch, s));
    assert(list[8] == "--cache-type-k"@ && list[9] == s.cache_k);
    assert(list[10] == "--cache-type-v"@ && list[11] == s.cache_v);
    assert(list[12] == "--flash-attn"@ && list[13] == s.flash);
    assert(list[14] == "--n-gpu-layers"@ && list[15] == s.gpu_layers);
    assert(list[16] == "--split-mode"@ && list[17] == s.split);
    assert(list[18] == "--tensor-split"@ && list[19] == s.tensor_split);
    assert(list[20] == "--threads"@ && list[21] == profile_editor::value_of(EditorField::Threads, s));
    assert(list[22] == "--threads-batch"@ && list[23] == profile_editor::value_of(
        EditorField::ThreadsBatch,
        s,
    ));
}

} // verus!
