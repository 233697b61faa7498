//! The scheduler's configuration: which models it offers, how it runs each, and
//! which of them it may keep loaded together.
use vstd::prelude::*;

use crate::config;
use crate::config::{Config, ConfigView};
use crate::figures;
use crate::json;
use crate::json::{Json, JsonValue};
use crate::metadata;
use crate::models;
use crate::models::{CompatibilityView, DraftCompatibility, Model, ModelView};
use crate::process;
use crate::process::{DraftFault, DraftFaultView, TooLarge};
use crate::profiles;
use crate::profiles::{Members, ProfileError, ProfileErrorView, Profiles, ProfilesView};
use crate::scheduler;
use crate::table;
use crate::table::Table;
use crate::text;

verus! {

/// A name under which the scheduler offers a model: the model, the profile that it
/// runs with, what the binding changes in that profile, the memory that it is
/// estimated to take and the variables that are set for it.
pub struct SwapEntry {
    pub id: String,
    pub physical: String,
    pub path: String,
    pub profile: Option<String>,
    pub overrides: Table<JsonValue>,
    pub estimate: u64,
    pub environment: Vec<(String, String)>,
}

#[verifier::ext_equal]
pub ghost struct SwapView {
    pub id: Seq<char>,
    pub physical: Seq<char>,
    pub path: Seq<char>,
    pub profile: Option<Seq<char>>,
    pub overrides: Members,
    pub estimate: u64,
    pub environment: Seq<(Seq<char>, Seq<char>)>,
}

impl View for SwapEntry {
    type V = SwapView;

    open spec fn view(&self) -> SwapView {
        SwapView {
            id: self.id@,
            physical: self.physical@,
            path: self.path@,
            profile: metadata::text_view(self.profile),
            overrides: json::members(self.overrides),
            estimate: self.estimate,
            environment: profiles::pair_views(self.environment@),
        }
    }
}

/// The members of a profile after the first `n` changes.
pub open spec fn merged(list: Members, changes: Members, n: nat) -> Members
    decreases n,
{
    if n == 0 {
        list
    } else {
        table::put(merged(list, changes, (n - 1) as nat), changes[n - 1].0, changes[n - 1].1)
    }
}

/// The profiles with one profile changed.
pub open spec fn with_overrides(p: ProfilesView, name: Seq<char>, changes: Members) -> ProfilesView {
    match table::lookup(p.profiles, name) {
        Some(list) => ProfilesView {
            profiles: table::put(p.profiles, name, merged(list, changes, changes.len())),
            ..p
        },
        None => p,
    }
}

/// The arguments of a profile with what a binding changes in it.
pub fn overridden_args(
    profiles: &Profiles,
    name: &str,
    overrides: &Table<JsonValue>,
    known: Option<&Vec<String>>,
) -> (out: Result<Vec<String>, ProfileError>)
    ensures
        match (
            out,
            profiles::profile_args(
                with_overrides(profiles@, name@, json::members(*overrides)),
                name@,
                profiles::known_views(known),
            ),
        ) {
            (Ok(args), Ok(v)) => text::views(args@) == v,
            (Err(e), Err(f)) => e@ == f,
            _ => false,
        },
{
    let ghost changes = json::members(*overrides);
    proof {
        table::lemma_mapped_lookup(profiles.profiles@, profiles::to_members(), name@);
        use_type_invariant(&profiles.profiles);
        json::lemma_members(*overrides);
    }
    let found: &Table<JsonValue> = match profiles.profiles.get(name) {
        Some(list) => list,
        None => return profiles.args_checked(name, known),
    };
    let ghost list = json::members(*found);
    let mut target: Table<JsonValue> = json::copy_table(found);
    let mut i: usize = 0;
    while i < overrides.len()
        invariant
            i <= overrides@.len(),
            changes == table::mapped(overrides@, json::to_json()),
            json::members(target) == merged(list, changes, i as nat),
        decreases overrides@.len() - i,
    {
        let value: JsonValue = overrides.value_at(i).copy();
        proof {
            assert(changes[i as int] == (overrides@[i as int].0, json::json_of(
                overrides@[i as int].1,
            )));
            json::lemma_members(target);
            table::lemma_mapped_put(target@, json::to_json(), overrides@[i as int].0, value);
        }
        target.insert(overrides.key_at(i).to_owned(), value);
        proof {
            json::lemma_members(target);
        }
        i += 1;
    }
    let ghost changed = json::members(target);
    let mut only: Table<Table<JsonValue>> = Table::new();
    proof {
        assert(only@ =~= seq![]);
        use_type_invariant(&only);
        table::put_then_lookup(only@, name@, target, name@);
        let one = table::put(only@, name@, target);
        table::lemma_mapped_lookup(one, profiles::to_members(), name@);
        let before = table::mapped(profiles.profiles@, profiles::to_members());
        assert(table::ordered(before)) by {
            assert forall|a: int, b: int| 0 <= a < b < before.len() implies text::before(
                #[trigger] before[a].0,
                #[trigger] before[b].0,
            ) by {
                assert(text::before(profiles.profiles@[a].0, profiles.profiles@[b].0));
            }
        }
        table::put_then_lookup(before, name@, changed, name@);
    }
    only.insert(name.to_owned(), target);
    let single: Profiles = Profiles {
        expose: config::copy_texts(&profiles.expose),
        profiles: only,
        models: Table::new(),
    };
    single.args_checked(name, known)
}

/// An entry before its memory is estimated, with the arguments that the estimate
/// goes by.
pub struct Planned {
    pub entry: SwapEntry,
    pub args: Vec<String>,
}

#[verifier::ext_equal]
pub ghost struct PlannedView {
    pub entry: SwapView,
    pub args: Seq<Seq<char>>,
}

impl View for Planned {
    type V = PlannedView;

    open spec fn view(&self) -> PlannedView {
        PlannedView { entry: self.entry@, args: text::views(self.args@) }
    }
}

pub open spec fn planned_views(list: Seq<Planned>) -> Seq<PlannedView> {
    list.map_values(|e: Planned| e@)
}

/// The entry for a model under its own name, with the profile that is bound to it.
pub open spec fn base_entry(
    c: ConfigView,
    p: ProfilesView,
    known: Option<Seq<Seq<char>>>,
    m: ModelView,
) -> Result<PlannedView, ProfileErrorView> {
    match profiles::binding_of(p, m.id, m.relative) {
        Err(e) => Err(e),
        Ok(None) => Ok(
            PlannedView {
                entry: SwapView {
                    id: m.id,
                    physical: m.id,
                    path: m.path,
                    profile: None,
                    overrides: seq![],
                    estimate: 0,
                    environment: seq![],
                },
                args: process::common_args_of(c),
            },
        ),
        Ok(Some((name, changes))) => match profiles::profile_args(
            with_overrides(p, name, changes),
            name,
            known,
        ) {
            Err(e) => Err(e),
            Ok(args) => match profiles::environment_of(p, name) {
                Err(e) => Err(e),
                Ok(environment) => Ok(
                    PlannedView {
                        entry: SwapView {
                            id: m.id,
                            physical: m.id,
                            path: m.path,
                            profile: Some(name),
                            overrides: changes,
                            estimate: 0,
                            environment,
                        },
                        args: process::common_args_of(c) + args,
                    },
                ),
            },
        },
    }
}

/// The entry for a profile of a model.
pub open spec fn profile_entry(
    c: ConfigView,
    p: ProfilesView,
    known: Option<Seq<Seq<char>>>,
    m: ModelView,
    name: Seq<char>,
) -> Result<PlannedView, ProfileErrorView> {
    match profiles::profile_args(p, name, known) {
        Err(e) => Err(e),
        Ok(args) => match profiles::environment_of(p, name) {
            Err(e) => Err(e),
            Ok(environment) => Ok(
                PlannedView {
                    entry: SwapView {
                        id: name,
                        physical: m.id,
                        path: m.path,
                        profile: Some(name),
                        overrides: seq![],
                        estimate: 0,
                        environment,
                    },
                    args: process::common_args_of(c) + args,
                },
            ),
        },
    }
}

/// Whether a profile is kept out of what is offered.
pub open spec fn is_hidden(list: Members) -> bool {
    table::lookup(list, "_hidden"@) == Some(Json::Bool(true))
}

/// The entries for those of the first `n` profiles that belong to a model and are
/// not hidden.
pub open spec fn profile_entries(
    c: ConfigView,
    p: ProfilesView,
    known: Option<Seq<Seq<char>>>,
    m: ModelView,
    n: nat,
) -> Result<Seq<PlannedView>, ProfileErrorView>
    decreases n,
{
    if n == 0 {
        Ok(seq![])
    } else {
        match profile_entries(c, p, known, m, (n - 1) as nat) {
            Err(e) => Err(e),
            Ok(list) => {
                let name = p.profiles[n - 1].0;
                if profiles::owner_of(p, name) == Some(m.id) && !is_hidden(p.profiles[n - 1].1) {
                    match profile_entry(c, p, known, m, name) {
                        Err(e) => Err(e),
                        Ok(e) => Ok(list.push(e)),
                    }
                } else {
                    Ok(list)
                }
            },
        }
    }
}

/// The entries for one model: itself and its profiles, as far as the settings ask
/// for them.
pub open spec fn model_entries(
    c: ConfigView,
    p: ProfilesView,
    known: Option<Seq<Seq<char>>>,
    m: ModelView,
) -> Result<Seq<PlannedView>, ProfileErrorView> {
    let own = if c.advertise_profiles {
        profile_entries(c, p, known, m, p.profiles.len())
    } else {
        Ok(seq![])
    };
    if c.advertise_base_models {
        match (base_entry(c, p, known, m), own) {
            (Err(e), _) => Err(e),
            (_, Err(e)) => Err(e),
            (Ok(base), Ok(list)) => Ok(seq![base] + list),
        }
    } else {
        own
    }
}

/// The entries for the first `n` models.
pub open spec fn entries_for(
    c: ConfigView,
    p: ProfilesView,
    known: Option<Seq<Seq<char>>>,
    models: Seq<ModelView>,
    n: nat,
) -> Result<Seq<PlannedView>, ProfileErrorView>
    decreases n,
{
    if n == 0 {
        Ok(seq![])
    } else {
        match entries_for(c, p, known, models, (n - 1) as nat) {
            Err(e) => Err(e),
            Ok(list) => match model_entries(c, p, known, models[n - 1]) {
                Err(e) => Err(e),
                Ok(more) => Ok(list + more),
            },
        }
    }
}

proof fn lemma_profile_entries_fail(
    c: ConfigView,
    p: ProfilesView,
    known: Option<Seq<Seq<char>>>,
    m: ModelView,
    n: nat,
    more: nat,
)
    requires
        n <= more,
        profile_entries(c, p, known, m, n) is Err,
    ensures
        profile_entries(c, p, known, m, more) == profile_entries(c, p, known, m, n),
    decreases more,
{
    if n < more {
        lemma_profile_entries_fail(c, p, known, m, n, (more - 1) as nat);
    }
}

proof fn lemma_entries_fail(
    c: ConfigView,
    p: ProfilesView,
    known: Option<Seq<Seq<char>>>,
    models: Seq<ModelView>,
    n: nat,
    more: nat,
)
    requires
        n <= more,
        entries_for(c, p, known, models, n) is Err,
    ensures
        entries_for(c, p, known, models, more) == entries_for(c, p, known, models, n),
    decreases more,
{
    if n < more {
        lemma_entries_fail(c, p, known, models, n, (more - 1) as nat);
    }
}

fn plan_base(
    cfg: &Config,
    profiles: &Profiles,
    known: Option<&Vec<String>>,
    model: &Model,
) -> (out: Result<Planned, ProfileError>)
    ensures
        match (out, base_entry(cfg@, profiles@, profiles::known_views(known), model@)) {
            (Ok(e), Ok(v)) => e@ == v,
            (Err(e), Err(f)) => e@ == f,
            _ => false,
        },
{
    let bound: Option<(String, Table<JsonValue>)> = match profiles.binding(
        model.id.as_str(),
        model.relative.as_str(),
    ) {
        Ok(bound) => bound,
        Err(e) => return Err(e),
    };
    let mut args: Vec<String> = process::common_args(cfg);
    match bound {
        None => {
            let overrides: Table<JsonValue> = Table::new();
            let environment: Vec<(String, String)> = Vec::new();
            proof {
                json::lemma_members(overrides);
                assert(json::members(overrides) =~= seq![]);
                assert(profiles::pair_views(environment@) =~= seq![]);
            }
            Ok(
                Planned {
                    entry: SwapEntry {
                        id: model.id.clone(),
                        physical: model.id.clone(),
                        path: model.path.clone(),
                        profile: None,
                        overrides,
                        estimate: 0,
                        environment,
                    },
                    args,
                },
            )
        },
        Some((name, overrides)) => {
            let more: Vec<String> = match overridden_args(profiles, name.as_str(), &overrides, known) {
                Ok(more) => more,
                Err(e) => return Err(e),
            };
            process::add_all(&mut args, more.as_slice());
            let environment: Vec<(String, String)> = match profiles.environment(name.as_str()) {
                Ok(environment) => environment,
                Err(e) => return Err(e),
            };
            Ok(
                Planned {
                    entry: SwapEntry {
                        id: model.id.clone(),
                        physical: model.id.clone(),
                        path: model.path.clone(),
                        profile: Some(name),
                        overrides,
                        estimate: 0,
                        environment,
                    },
                    args,
                },
            )
        },
    }
}

fn plan_profile(
    cfg: &Config,
    profiles: &Profiles,
    known: Option<&Vec<String>>,
    model: &Model,
    name: &str,
) -> (out: Result<Planned, ProfileError>)
    ensures
        match (out, profile_entry(cfg@, profiles@, profiles::known_views(known), model@, name@)) {
            (Ok(e), Ok(v)) => e@ == v,
            (Err(e), Err(f)) => e@ == f,
            _ => false,
        },
{
    let mut args: Vec<String> = process::common_args(cfg);
    let more: Vec<String> = match profiles.args_checked(name, known) {
        Ok(more) => more,
        Err(e) => return Err(e),
    };
    process::add_all(&mut args, more.as_slice());
    let environment: Vec<(String, String)> = match profiles.environment(name) {
        Ok(environment) => environment,
        Err(e) => return Err(e),
    };
    let overrides: Table<JsonValue> = Table::new();
    proof {
        json::lemma_members(overrides);
        assert(json::members(overrides) =~= seq![]);
    }
    Ok(
        Planned {
            entry: SwapEntry {
                id: name.to_owned(),
                physical: model.id.clone(),
                path: model.path.clone(),
                profile: Some(name.to_owned()),
                overrides,
                estimate: 0,
                environment,
            },
            args,
        },
    )
}

fn hidden(profile: &Table<JsonValue>) -> (yes: bool)
    ensures
        yes == is_hidden(json::members(*profile)),
{
    proof {
        json::lemma_members(*profile);
        table::lemma_mapped_lookup(profile@, json::to_json(), "_hidden"@);
    }
    match profile.get("_hidden") {
        Some(value) => match value.as_bool() {
            Some(b) => b,
            None => false,
        },
        None => false,
    }
}

/// Appends the entries for one model.
fn plan_model(
    out: &mut Vec<Planned>,
    cfg: &Config,
    profiles: &Profiles,
    known: Option<&Vec<String>>,
    model: &Model,
) -> (done: Result<(), ProfileError>)
    ensures
        match (done, model_entries(cfg@, profiles@, profiles::known_views(known), model@)) {
            (Ok(_), Ok(v)) => planned_views(final(out)@) == planned_views(old(out)@) + v,
            (Err(e), Err(f)) => e@ == f,
            _ => false,
        },
{
    let ghost c = cfg@;
    let ghost p = profiles@;
    let ghost flags = profiles::known_views(known);
    let ghost m = model@;
    let ghost start = planned_views(out@);
    if cfg.advertise_base_models {
        let entry: Planned = match plan_base(cfg, profiles, known, model) {
            Ok(entry) => entry,
            Err(e) => return Err(e),
        };
        out.push(entry);
        proof {
            assert(planned_views(out@) =~= start.push(entry@));
        }
    }
    let ghost based = planned_views(out@);
    proof {
        assert(based + Seq::<PlannedView>::empty() =~= based);
    }
    if cfg.advertise_profiles {
        let mut i: usize = 0;
        while i < profiles.profiles.len()
            invariant
                i <= profiles.profiles@.len(),
                c == cfg@,
                p == profiles@,
                flags == profiles::known_views(known),
                m == model@,
                c.advertise_profiles,
                c.advertise_base_models ==> base_entry(c, p, flags, m) is Ok,
                profile_entries(c, p, flags, m, i as nat) is Ok,
                planned_views(out@) == based + profile_entries(c, p, flags, m, i as nat)->Ok_0,
            decreases profiles.profiles@.len() - i,
        {
            proof {
                assert(p.profiles[i as int] == (profiles.profiles@[i as int].0, json::members(
                    profiles.profiles@[i as int].1,
                )));
                if profile_entries(c, p, flags, m, (i + 1) as nat) is Err {
                    lemma_profile_entries_fail(c, p, flags, m, (i + 1) as nat, p.profiles.len());
                }
            }
            let name: &str = profiles.profiles.key_at(i);
            let owned: bool = match profiles.owner(name) {
                Some(owner) => text::same(owner, model.id.as_str()),
                None => false,
            };
            if owned && !hidden(profiles.profiles.value_at(i)) {
                let entry: Planned = match plan_profile(cfg, profiles, known, model, name) {
                    Ok(entry) => entry,
                    Err(e) => return Err(e),
                };
                let ghost before = planned_views(out@);
                out.push(entry);
                proof {
                    assert(planned_views(out@) =~= before.push(entry@));
                    assert(planned_views(out@) =~= based + profile_entries(
                        c,
                        p,
                        flags,
                        m,
                        (i + 1) as nat,
                    )->Ok_0);
                }
            }
            i += 1;
        }
    }
    proof {
        assert(planned_views(out@) =~= start + model_entries(c, p, flags, m)->Ok_0);
    }
    Ok(())
}

/// Lists what the scheduler offers, for a server that knows the flags `known`.
pub fn plan_entries(
    cfg: &Config,
    profiles: &Profiles,
    known: Option<&Vec<String>>,
    models: &Vec<Model>,
) -> (out: Result<Vec<Planned>, ProfileError>)
    ensures
        match (
            out,
            entries_for(
                cfg@,
                profiles@,
                profiles::known_views(known),
                models::model_views(models@),
                models@.len(),
            ),
        ) {
            (Ok(list), Ok(v)) => planned_views(list@) == v,
            (Err(e), Err(f)) => e@ == f,
            _ => false,
        },
{
    let ghost all = models::model_views(models@);
    let ghost flags = profiles::known_views(known);
    let mut out: Vec<Planned> = Vec::new();
    proof {
        assert(planned_views(out@) =~= seq![]);
    }
    let mut i: usize = 0;
    while i < models.len()
        invariant
            i <= models@.len(),
            all == models::model_views(models@),
            flags == profiles::known_views(known),
            entries_for(cfg@, profiles@, flags, all, i as nat) == Ok::<
                Seq<PlannedView>,
                ProfileErrorView,
            >(planned_views(out@)),
        decreases models@.len() - i,
    {
        proof {
            assert(all[i as int] == models@[i as int]@);
            if entries_for(cfg@, profiles@, flags, all, (i + 1) as nat) is Err {
                lemma_entries_fail(cfg@, profiles@, flags, all, (i + 1) as nat, all.len());
            }
        }
        match plan_model(&mut out, cfg, profiles, known, &models[i]) {
            Ok(_) => {},
            Err(e) => return Err(e),
        }
        i += 1;
    }
    Ok(out)
}

pub open spec fn swap_views(list: Seq<SwapEntry>) -> Seq<SwapView> {
    list.map_values(|e: SwapEntry| e@)
}

/// An entry as its view, as a function.
pub open spec fn to_swap() -> spec_fn(SwapEntry) -> SwapView {
    |e: SwapEntry| e@
}

fn copy_pairs(list: &Vec<(String, String)>) -> (out: Vec<(String, String)>)
    ensures
        profiles::pair_views(out@) == profiles::pair_views(list@),
{
    let ghost all = profiles::pair_views(list@);
    let mut out: Vec<(String, String)> = Vec::new();
    let mut i: usize = 0;
    proof {
        assert(profiles::pair_views(out@) =~= all.take(0));
    }
    while i < list.len()
        invariant
            i <= list@.len(),
            all == profiles::pair_views(list@),
            profiles::pair_views(out@) == all.take(i as int),
        decreases list@.len() - i,
    {
        let pair: (String, String) = (list[i].0.clone(), list[i].1.clone());
        let ghost before = profiles::pair_views(out@);
        out.push(pair);
        proof {
            assert(all[i as int] == (pair.0@, pair.1@));
            assert(profiles::pair_views(out@) =~= before.push(all[i as int]));
            assert(all.take(i + 1) =~= all.take(i as int).push(all[i as int]));
        }
        i += 1;
    }
    proof {
        assert(all.take(all.len() as int) =~= all);
    }
    out
}

impl SwapEntry {
    /// The same entry under another name.
    pub fn named(&self, id: String) -> (out: SwapEntry)
        ensures
            out@ == (SwapView { id: id@, ..self@ }),
    {
        SwapEntry {
            id,
            physical: self.physical.clone(),
            path: self.path.clone(),
            profile: match &self.profile {
                Some(name) => Some(name.clone()),
                None => None,
            },
            overrides: json::copy_table(&self.overrides),
            estimate: self.estimate,
            environment: copy_pairs(&self.environment),
        }
    }
}

/// The entries by name after the first `n`: the later of two with one name stays,
/// but one without a profile does not replace one with a profile.
pub open spec fn by_name(entries: Seq<SwapView>, n: nat) -> Seq<(Seq<char>, SwapView)>
    decreases n,
{
    if n == 0 {
        seq![]
    } else {
        let earlier = by_name(entries, (n - 1) as nat);
        let e = entries[n - 1];
        match table::lookup(earlier, e.id) {
            Some(held) if held.profile is Some && e.profile is None => earlier,
            _ => table::put(earlier, e.id, e),
        }
    }
}

/// The entries of a table.
pub open spec fn values_of(list: Seq<(Seq<char>, SwapView)>) -> Seq<SwapView> {
    list.map_values(|e: (Seq<char>, SwapView)| e.1)
}

/// The name of an entry that says which model it runs.
pub open spec fn qualified_name(e: SwapView) -> Seq<char> {
    e.physical + "@"@ + e.id
}

/// The entries for profiles among the first `n`, under their qualified names.
pub open spec fn qualified(entries: Seq<SwapView>, n: nat) -> Seq<SwapView>
    decreases n,
{
    if n == 0 {
        seq![]
    } else {
        let earlier = qualified(entries, (n - 1) as nat);
        let e = entries[n - 1];
        if e.profile is Some && e.id != e.physical {
            earlier.push(SwapView { id: qualified_name(e), ..e })
        } else {
            earlier
        }
    }
}

/// Not standing behind a name, as a function.
pub open spec fn not_after(id: Seq<char>) -> spec_fn(SwapView) -> bool {
    |e: SwapView| !text::before(id, e.id)
}

/// The list with one more entry in front of the first whose name is greater.
pub open spec fn placed(list: Seq<SwapView>, e: SwapView) -> Seq<SwapView> {
    list.insert(text::run(list, not_after(e.id)) as int, e)
}

/// The first `n` entries in the order of their names; those with one name stay in
/// the order that they had.
pub open spec fn sorted(list: Seq<SwapView>, n: nat) -> Seq<SwapView>
    decreases n,
{
    if n == 0 {
        seq![]
    } else {
        placed(sorted(list, (n - 1) as nat), list[n - 1])
    }
}

/// What the scheduler offers, each entry once, in the order of the names. With
/// `profiles` the entries for profiles stand under their qualified names too.
pub open spec fn arranged(entries: Seq<SwapView>, profiles: bool) -> Seq<SwapView> {
    let unique = values_of(by_name(entries, entries.len()));
    let all = if profiles {
        unique + qualified(unique, unique.len())
    } else {
        unique
    };
    sorted(all, all.len())
}

/// Why there is no configuration for the scheduler.
pub enum SwapError {
    /// Nothing is offered.
    Empty,
    /// A pinned model that is not offered.
    UnknownPinned(String),
    /// Two pinned entries run one model.
    PinnedTwice,
    /// The pinned entries do not fit.
    PinnedBudget,
}

pub ghost enum SwapErrorView {
    Empty,
    UnknownPinned(Seq<char>),
    PinnedTwice,
    PinnedBudget,
}

impl View for SwapError {
    type V = SwapErrorView;

    open spec fn view(&self) -> SwapErrorView {
        match *self {
            SwapError::Empty => SwapErrorView::Empty,
            SwapError::UnknownPinned(s) => SwapErrorView::UnknownPinned(s@),
            SwapError::PinnedTwice => SwapErrorView::PinnedTwice,
            SwapError::PinnedBudget => SwapErrorView::PinnedBudget,
        }
    }
}

/// Whether a name is offered.
pub open spec fn offers(entries: Seq<SwapView>, id: Seq<char>) -> bool {
    exists|i: int| 0 <= i < entries.len() && (#[trigger] entries[i]).id == id
}

/// Being offered, as a function.
pub open spec fn offered_by(entries: Seq<SwapView>) -> spec_fn(Seq<char>) -> bool {
    |id: Seq<char>| offers(entries, id)
}

/// Why an offer is refused: it is empty, or a pinned model is not in it.
pub open spec fn refusal(offer: Seq<SwapView>, pinned: Seq<Seq<char>>) -> Option<SwapErrorView> {
    let at = text::run(pinned, offered_by(offer)) as int;
    if offer.len() == 0 {
        Some(SwapErrorView::Empty)
    } else if at < pinned.len() {
        Some(SwapErrorView::UnknownPinned(pinned[at]))
    } else {
        None
    }
}

pub open spec fn arrangement(entries: Seq<SwapView>, profiles: bool, pinned: Seq<Seq<char>>) -> Result<
    Seq<SwapView>,
    SwapErrorView,
> {
    match refusal(arranged(entries, profiles), pinned) {
        Some(e) => Err(e),
        None => Ok(arranged(entries, profiles)),
    }
}

/// What was arranged is an offer that a configuration is written for: it is not empty, every
/// pinned model is in it, and it is not refused a second time.
pub proof fn arrangements_are_not_refused(
    entries: Seq<SwapView>,
    profiles: bool,
    pinned: Seq<Seq<char>>,
)
    requires
        arrangement(entries, profiles, pinned) is Ok,
    ensures
        arrangement(entries, profiles, pinned)->Ok_0.len() > 0,
        forall|i: int|
            0 <= i < pinned.len() ==> offers(
                arrangement(entries, profiles, pinned)->Ok_0,
                #[trigger] pinned[i],
            ),
        refusal(arrangement(entries, profiles, pinned)->Ok_0, pinned) is None,
{
    let out = arranged(entries, profiles);
    text::lemma_run(pinned, offered_by(out));
    assert forall|i: int| 0 <= i < pinned.len() implies offers(out, #[trigger] pinned[i]) by {
        assert(offered_by(out)(pinned[i]));
    }
}

/// Puts an entry into its place.
fn place_entry(list: &mut Vec<SwapEntry>, e: SwapEntry)
    ensures
        swap_views(final(list)@) == placed(swap_views(old(list)@), e@),
{
    let ghost all = swap_views(list@);
    let mut i: usize = 0;
    while i < list.len() && !text::comes_before(e.id.as_str(), list[i].id.as_str())
        invariant
            i <= list@.len(),
            all == swap_views(list@),
            forall|j: int| 0 <= j < i ==> not_after(e@.id)(#[trigger] all[j]),
        decreases list@.len() - i,
    {
        proof {
            assert(all[i as int] == list@[i as int]@);
        }
        i += 1;
    }
    proof {
        assert(i < list@.len() ==> all[i as int] == list@[i as int]@);
        text::lemma_run_unique(all, not_after(e@.id), i as int);
    }
    list.insert(i, e);
    proof {
        assert(swap_views(list@) =~= all.insert(i as int, e@));
    }
}

fn is_offered(entries: &Vec<SwapEntry>, id: &str) -> (yes: bool)
    ensures
        yes == offers(swap_views(entries@), id@),
{
    let ghost all = swap_views(entries@);
    let mut i: usize = 0;
    while i < entries.len()
        invariant
            i <= entries@.len(),
            all == swap_views(entries@),
            forall|j: int| 0 <= j < i ==> (#[trigger] all[j]).id != id@,
        decreases entries@.len() - i,
    {
        proof {
            assert(all[i as int] == entries@[i as int]@);
        }
        if text::same(entries[i].id.as_str(), id) {
            return true;
        }
        i += 1;
    }
    false
}

/// Looks whether an offer is refused.
fn refuse(offer: &Vec<SwapEntry>, pinned: &Vec<String>) -> (out: Option<SwapError>)
    ensures
        match (out, refusal(swap_views(offer@), text::views(pinned@))) {
            (Some(e), Some(f)) => e@ == f,
            (None, None) => true,
            _ => false,
        },
{
    let ghost all = swap_views(offer@);
    let ghost pins = text::views(pinned@);
    proof {
        assert(all.len() == offer@.len());
    }
    if offer.len() == 0 {
        return Some(SwapError::Empty);
    }
    let mut q: usize = 0;
    while q < pinned.len()
        invariant
            q <= pinned@.len(),
            pins == text::views(pinned@),
            all == swap_views(offer@),
            all.len() > 0,
            forall|j: int| 0 <= j < q ==> offered_by(all)(#[trigger] pins[j]),
        decreases pinned@.len() - q,
    {
        proof {
            assert(pins[q as int] == pinned@[q as int]@);
        }
        if !is_offered(offer, pinned[q].as_str()) {
            proof {
                text::lemma_run_unique(pins, offered_by(all), q as int);
            }
            return Some(SwapError::UnknownPinned(pinned[q].clone()));
        }
        q += 1;
    }
    proof {
        text::lemma_run_unique(pins, offered_by(all), q as int);
    }
    None
}

/// Arranges what the scheduler offers and looks for the pinned models in it.
pub fn arrange_entries(
    entries: Vec<SwapEntry>,
    advertise_profiles: bool,
    pinned: &Vec<String>,
) -> (out: Result<Vec<SwapEntry>, SwapError>)
    ensures
        match (
            out,
            arrangement(swap_views(entries@), advertise_profiles, text::views(pinned@)),
        ) {
            (Ok(list), Ok(v)) => swap_views(list@) == v,
            (Err(e), Err(f)) => e@ == f,
            _ => false,
        },
{
    let ghost given = swap_views(entries@);
    let mut unique: Table<SwapEntry> = Table::new();
    proof {
        assert(table::mapped(unique@, to_swap()) =~= seq![]);
    }
    let mut i: usize = 0;
    while i < entries.len()
        invariant
            i <= entries@.len(),
            given == swap_views(entries@),
            table::mapped(unique@, to_swap()) == by_name(given, i as nat),
        decreases entries@.len() - i,
    {
        let e: &SwapEntry = &entries[i];
        proof {
            assert(given[i as int] == e@);
            table::lemma_mapped_lookup(unique@, to_swap(), e.id@);
        }
        let keep: bool = match unique.get(e.id.as_str()) {
            Some(held) => held.profile.is_some() && e.profile.is_none(),
            None => false,
        };
        if !keep {
            let copied: SwapEntry = e.named(e.id.clone());
            proof {
                assert(copied@ == e@);
                table::lemma_mapped_put(unique@, to_swap(), e.id@, copied);
            }
            unique.insert(e.id.clone(), copied);
        }
        i += 1;
    }
    let ghost held = values_of(by_name(given, given.len()));
    let mut all: Vec<SwapEntry> = Vec::new();
    let mut k: usize = 0;
    proof {
        assert(swap_views(all@) =~= held.take(0));
    }
    while k < unique.len()
        invariant
            k <= unique@.len(),
            held == values_of(table::mapped(unique@, to_swap())),
            swap_views(all@) == held.take(k as int),
        decreases unique@.len() - k,
    {
        let e: &SwapEntry = unique.value_at(k);
        let copied: SwapEntry = e.named(e.id.clone());
        proof {
            assert(copied@ == e@);
            assert(held[k as int] == e@);
        }
        let ghost before = swap_views(all@);
        all.push(copied);
        proof {
            assert(swap_views(all@) =~= before.push(copied@));
            assert(held.take(k + 1) =~= held.take(k as int).push(held[k as int]));
        }
        k += 1;
    }
    proof {
        assert(held.take(held.len() as int) =~= held);
    }
    if advertise_profiles {
        let count: usize = all.len();
        let mut j: usize = 0;
        proof {
            assert(held + qualified(held, 0) =~= held);
        }
        while j < count
            invariant
                j <= count == held.len(),
                count <= all@.len(),
                swap_views(all@) == held + qualified(held, j as nat),
            decreases count - j,
        {
            proof {
                assert(swap_views(all@)[j as int] == all@[j as int]@);
                assert(held[j as int] == all@[j as int]@);
            }
            let e: &SwapEntry = &all[j];
            if e.profile.is_some() && !text::same(e.id.as_str(), e.physical.as_str()) {
                let mut id: String = e.physical.clone();
                id.append("@");
                id.append(e.id.as_str());
                let more: SwapEntry = e.named(id);
                let ghost before = swap_views(all@);
                all.push(more);
                proof {
                    assert(swap_views(all@) =~= before.push(more@));
                    assert(swap_views(all@) =~= held + qualified(held, (j + 1) as nat));
                }
            }
            j += 1;
        }
    }
    let ghost unsorted = swap_views(all@);
    let mut out: Vec<SwapEntry> = Vec::new();
    let mut n: usize = 0;
    proof {
        assert(swap_views(out@) =~= seq![]);
    }
    while n < all.len()
        invariant
            n <= all@.len(),
            unsorted == swap_views(all@),
            swap_views(out@) == sorted(unsorted, n as nat),
        decreases all@.len() - n,
    {
        let e: SwapEntry = all[n].named(all[n].id.clone());
        proof {
            assert(unsorted[n as int] == all@[n as int]@);
            assert(e@ == unsorted[n as int]);
        }
        place_entry(&mut out, e);
        n += 1;
    }
    proof {
        assert(swap_views(out@) == arranged(given, advertise_profiles));
        assert(swap_views(out@).len() == out@.len());
    }
    match refuse(&out, pinned) {
        Some(e) => Err(e),
        None => Ok(out),
    }
}

proof fn lemma_placed(list: Seq<SwapView>, e: SwapView)
    requires
        forall|i: int, j: int|
            #![trigger list[i], list[j]]
            0 <= i < j < list.len() ==> !text::before(list[j].id, list[i].id),
    ensures
        forall|i: int, j: int|
            #![trigger placed(list, e)[i], placed(list, e)[j]]
            0 <= i < j < placed(list, e).len() ==> !text::before(
                placed(list, e)[j].id,
                placed(list, e)[i].id,
            ),
        placed(list, e).to_multiset() == list.to_multiset().insert(e),
{
    let p = not_after(e.id);
    text::lemma_run(list, p);
    let at = text::run(list, p) as int;
    let new = placed(list, e);
    assert forall|i: int, j: int|
        #![trigger new[i], new[j]]
        0 <= i < j < new.len() implies !text::before(new[j].id, new[i].id) by {
        if j < at {
            assert(new[i] == list[i] && new[j] == list[j]);
        } else if j == at {
            assert(new[i] == list[i]);
            assert(p(list[i]));
        } else if i < at {
            assert(new[i] == list[i] && new[j] == list[j - 1]);
        } else {
            assert(new[j] == list[j - 1]);
            assert(!p(list[at]));
            if i > at {
                assert(new[i] == list[i - 1]);
            } else if text::before(list[j - 1].id, e.id) {
                text::lemma_before_transitive(list[j - 1].id, e.id, list[at].id);
                if at == j - 1 {
                    text::lemma_before_irreflexive(list[at].id);
                } else {
                    assert(!text::before(list[j - 1].id, list[at].id));
                }
            }
        }
    }
    new.to_multiset_ensures();
    assert(new[at] == e);
    assert(new.remove(at) =~= list);
    assert(new.to_multiset() =~= list.to_multiset().insert(e));
}

proof fn lemma_sorted(list: Seq<SwapView>, n: nat)
    requires
        n <= list.len(),
    ensures
        forall|i: int, j: int|
            #![trigger sorted(list, n)[i], sorted(list, n)[j]]
            0 <= i < j < sorted(list, n).len() ==> !text::before(
                sorted(list, n)[j].id,
                sorted(list, n)[i].id,
            ),
        sorted(list, n).to_multiset() == list.take(n as int).to_multiset(),
    decreases n,
{
    if n > 0 {
        lemma_sorted(list, (n - 1) as nat);
        lemma_placed(sorted(list, (n - 1) as nat), list[n - 1]);
        assert(list.take(n as int) =~= list.take(n - 1).push(list[n - 1]));
        vstd::seq_lib::to_multiset_build(list.take(n - 1), list[n - 1]);
    } else {
        assert(sorted(list, 0) =~= list.take(0));
    }
}

/// What the scheduler offers stands in the order of the names, and nothing is lost
/// or added by the ordering.
pub proof fn offer_is_ordered(entries: Seq<SwapView>, profiles: bool)
    ensures
        forall|i: int, j: int|
            #![trigger arranged(entries, profiles)[i], arranged(entries, profiles)[j]]
            0 <= i < j < arranged(entries, profiles).len() ==> !text::before(
                arranged(entries, profiles)[j].id,
                arranged(entries, profiles)[i].id,
            ),
        ({
            let unique = values_of(by_name(entries, entries.len()));
            arranged(entries, profiles).to_multiset() == (if profiles {
                unique + qualified(unique, unique.len())
            } else {
                unique
            }).to_multiset()
        }),
{
    let unique = values_of(by_name(entries, entries.len()));
    let all = if profiles {
        unique + qualified(unique, unique.len())
    } else {
        unique
    };
    lemma_sorted(all, all.len());
    assert(all.take(all.len() as int) =~= all);
}

/// The entry that stands under a name has a profile if any entry of that name has
/// one.
pub proof fn profiles_win(entries: Seq<SwapView>, n: nat, i: int)
    requires
        0 <= i < n <= entries.len(),
        entries[i].profile is Some,
    ensures
        table::ordered(by_name(entries, n)),
        table::lookup(by_name(entries, n), entries[i].id) matches Some(e) && e.profile is Some,
    decreases n,
{
    let id = entries[i].id;
    let earlier = by_name(entries, (n - 1) as nat);
    let e = entries[n - 1];
    lemma_by_name_ordered(entries, (n - 1) as nat);
    lemma_by_name_ordered(entries, n);
    table::put_then_lookup(earlier, e.id, e, id);
    if i < n - 1 {
        profiles_win(entries, (n - 1) as nat, i);
    }
}

proof fn lemma_by_name_ordered(entries: Seq<SwapView>, n: nat)
    ensures
        table::ordered(by_name(entries, n)),
    decreases n,
{
    if n > 0 {
        lemma_by_name_ordered(entries, (n - 1) as nat);
        table::put_keeps_order(
            by_name(entries, (n - 1) as nat),
            entries[n - 1].id,
            entries[n - 1],
        );
    }
}

/// A list of texts, each quoted on a line of its own behind `front`.
pub open spec fn quoted_lines(list: Seq<Seq<char>>, n: nat, front: Seq<char>) -> Seq<char>
    decreases n,
{
    if n == 0 {
        seq![]
    } else {
        quoted_lines(list, (n - 1) as nat, front) + front + json::quoted(list[n - 1]) + "\n"@
    }
}

fn add_quoted_lines(out: &mut String, list: &Vec<String>, front: &str)
    ensures
        final(out)@ == old(out)@ + quoted_lines(text::views(list@), list@.len(), front@),
{
    let ghost start = out@;
    let ghost all = text::views(list@);
    let mut i: usize = 0;
    proof {
        assert(start + quoted_lines(all, 0, front@) =~= start);
    }
    while i < list.len()
        invariant
            i <= list@.len(),
            all == text::views(list@),
            out@ == start + quoted_lines(all, i as nat, front@),
        decreases list@.len() - i,
    {
        out.append(front);
        out.append(json::quote(list[i].as_str()).as_str());
        out.append("\n");
        proof {
            assert(all[i as int] == list@[i as int]@);
            assert(out@ =~= start + quoted_lines(all, (i + 1) as nat, front@));
        }
        i += 1;
    }
}

/// The front of the configuration: how long a server may take to answer, the ports,
/// the keys, and the head of the list of models.
pub open spec fn head_of(c: ConfigView) -> Seq<char> {
    let keys = config::keys_of(c);
    "healthCheckTimeout: 300\nstartPort: "@ + text::decimal_of((c.port + 1) as nat) + "\n"@ + (
    if keys.len() > 0 {
        "apiKeys:\n"@ + quoted_lines(keys, keys.len(), "  - "@)
    } else {
        seq![]
    }) + "models:\n"@
}

pub fn head_text(cfg: &Config) -> (out: String)
    requires
        cfg.port < u16::MAX,
    ensures
        out@ == head_of(cfg@),
{
    let mut out: String = "healthCheckTimeout: 300\nstartPort: ".to_owned();
    out.append(text::decimal(cfg.port as u64 + 1).as_str());
    out.append("\n");
    let ghost first = out@;
    let keys: Vec<String> = cfg.keys();
    let ghost shown = config::keys_of(cfg@);
    proof {
        assert(shown.len() == keys@.len());
    }
    if keys.len() > 0 {
        out.append("apiKeys:\n");
        add_quoted_lines(&mut out, &keys, "  - ");
        proof {
            assert(out@ =~= first + ("apiKeys:\n"@ + quoted_lines(shown, shown.len(), "  - "@)));
        }
    } else {
        proof {
            assert(first + Seq::<char>::empty() =~= first);
        }
    }
    out.append("models:\n");
    out
}

/// The arguments that run an entry's server, up to those that the scheduler adds:
/// the program, the model, the common arguments and those of the profile.
pub open spec fn entry_args_of(
    c: ConfigView,
    p: ProfilesView,
    known: Option<Seq<Seq<char>>>,
    binary: Seq<char>,
    model_args: Seq<Seq<char>>,
    e: SwapView,
) -> Result<Seq<Seq<char>>, ProfileErrorView> {
    let front = seq![binary] + model_args + process::common_args_of(c);
    match e.profile {
        None => Ok(front),
        Some(name) => match profiles::profile_args(
            with_overrides(p, name, e.overrides),
            name,
            known,
        ) {
            Err(e) => Err(e),
            Ok(args) => Ok(front + args),
        },
    }
}

pub fn entry_args(
    cfg: &Config,
    profiles: &Profiles,
    known: Option<&Vec<String>>,
    binary: &str,
    model_args: &Vec<String>,
    entry: &SwapEntry,
) -> (out: Result<Vec<String>, ProfileError>)
    ensures
        match (
            out,
            entry_args_of(
                cfg@,
                profiles@,
                profiles::known_views(known),
                binary@,
                text::views(model_args@),
                entry@,
            ),
        ) {
            (Ok(args), Ok(v)) => text::views(args@) == v,
            (Err(e), Err(f)) => e@ == f,
            _ => false,
        },
{
    let mut args: Vec<String> = Vec::new();
    process::add(&mut args, binary);
    process::add_all(&mut args, model_args.as_slice());
    let common: Vec<String> = process::common_args(cfg);
    process::add_all(&mut args, common.as_slice());
    proof {
        assert(text::views(Seq::<String>::empty()) =~= seq![]);
        assert(text::views(args@) =~= seq![binary@] + text::views(model_args@)
            + process::common_args_of(cfg@));
    }
    match &entry.profile {
        None => {},
        Some(name) => {
            let more: Vec<String> = match overridden_args(
                profiles,
                name.as_str(),
                &entry.overrides,
                known,
            ) {
                Ok(more) => more,
                Err(e) => return Err(e),
            };
            process::add_all(&mut args, more.as_slice());
        },
    }
    Ok(args)
}

/// Whether arguments ask a model to draft for itself: with no other draft named.
pub open spec fn asks_self_draft(args: Seq<Seq<char>>) -> bool {
    args.contains("draft-mtp"@) && !args.contains("--spec-draft-model"@) && !args.contains(
        "--model-draft"@,
    )
}

pub fn requests_internal_mtp(args: &[String]) -> (yes: bool)
    ensures
        yes == asks_self_draft(text::views(args@)),
{
    metadata::has_arg(args, "draft-mtp") && !metadata::has_arg(args, "--spec-draft-model")
        && !metadata::has_arg(args, "--model-draft")
}

/// The arguments with those that the scheduler adds: what the model serves, unless
/// that is said, and where.
pub open spec fn served_args(args: Seq<Seq<char>>, mode: Option<Seq<char>>, id: Seq<char>) -> Seq<
    Seq<char>,
> {
    let shown = if args.contains("--embeddings"@) || args.contains("--reranking"@) {
        args
    } else if mode == Some("rerank"@) {
        args.push("--reranking"@)
    } else if mode == Some("embed"@) {
        args.push("--embeddings"@)
    } else {
        args
    };
    shown + seq!["--host"@, "127.0.0.1"@, "--port"@, "${PORT}"@, "--alias"@, id]
}

/// One entry of the configuration.
pub open spec fn entry_text_of(
    c: ConfigView,
    args: Seq<Seq<char>>,
    mode: Option<Seq<char>>,
    e: SwapView,
) -> Seq<char> {
    let served = served_args(args, mode, e.id);
    let line = if e.environment.len() > 0 {
        seq!["env"@] + process::assigned(e.environment) + served
    } else {
        served
    };
    let ttl = if c.scheduler_pinned_models.contains(e.id) {
        0
    } else {
        c.swap_ttl as nat
    };
    "  "@ + json::quoted(e.id) + ":\n    cmd: "@ + process::shell_line(line) + "\n    ttl: "@
        + text::decimal_of(ttl) + "\n"@
}

/// Writes one entry of the configuration; `mode` is what the model serves other
/// than chat.
pub fn entry_text(
    cfg: &Config,
    args: &Vec<String>,
    mode: Option<&str>,
    entry: &SwapEntry,
) -> (out: String)
    ensures
        out@ == entry_text_of(
            cfg@,
            text::views(args@),
            match mode {
                Some(s) => Some(s@),
                None => None,
            },
            entry@,
        ),
{
    let ghost wanted = match mode {
        Some(s) => Some(s@),
        None => None,
    };
    let ghost given = text::views(args@);
    let mut line: Vec<String> = Vec::new();
    proof {
        assert(text::views(line@) =~= seq![]);
        assert(profiles::pair_views(entry.environment@).len() == entry.environment@.len());
    }
    if entry.environment.len() > 0 {
        process::add(&mut line, "env");
        process::add_assignments(&mut line, &entry.environment);
    }
    let ghost front = text::views(line@);
    process::add_all(&mut line, args.as_slice());
    if !metadata::has_arg(args.as_slice(), "--embeddings") && !metadata::has_arg(
        args.as_slice(),
        "--reranking",
    ) {
        match mode {
            Some(s) => {
                if text::same(s, "rerank") {
                    process::add(&mut line, "--reranking");
                } else if text::same(s, "embed") {
                    process::add(&mut line, "--embeddings");
                }
            },
            None => {},
        }
    }
    process::add(&mut line, "--host");
    process::add(&mut line, "127.0.0.1");
    process::add(&mut line, "--port");
    process::add(&mut line, "${PORT}");
    process::add(&mut line, "--alias");
    process::add(&mut line, entry.id.as_str());
    proof {
        assert(text::views(line@) =~= front + served_args(given, wanted, entry@.id));
        if entry@.environment.len() > 0 {
            assert(front =~= seq!["env"@] + process::assigned(entry@.environment));
        } else {
            assert(front + served_args(given, wanted, entry@.id) =~= served_args(
                given,
                wanted,
                entry@.id,
            ));
        }
    }
    let ttl: u64 = if profiles::holds_text(&cfg.scheduler_pinned_models, entry.id.as_str()) {
        0
    } else {
        cfg.swap_ttl
    };
    let mut out: String = "  ".to_owned();
    out.append(json::quote(entry.id.as_str()).as_str());
    out.append(":\n    cmd: ");
    out.append(process::shell_join(line.as_slice()).as_str());
    out.append("\n    ttl: ");
    out.append(text::decimal(ttl).as_str());
    out.append("\n");
    out
}

/// The entry under a name: the first one.
pub open spec fn entry_named(entries: Seq<SwapView>, id: Seq<char>) -> Option<SwapView> {
    let at = text::run(entries, other_name(id)) as int;
    if at < entries.len() {
        Some(entries[at])
    } else {
        None
    }
}

/// Having another name than `id`, as a function.
pub open spec fn other_name(id: Seq<char>) -> spec_fn(SwapView) -> bool {
    |e: SwapView| e.id != id
}

/// The entries of the first `n` pinned names.
pub open spec fn pinned_entries(entries: Seq<SwapView>, pinned: Seq<Seq<char>>, n: nat) -> Seq<
    SwapView,
>
    decreases n,
{
    if n == 0 {
        seq![]
    } else {
        let earlier = pinned_entries(entries, pinned, (n - 1) as nat);
        match entry_named(entries, pinned[n - 1]) {
            Some(e) => earlier.push(e),
            None => earlier,
        }
    }
}

/// What the first `n` entries are estimated to take.
pub open spec fn needed(entries: Seq<SwapView>, n: nat) -> nat
    decreases n,
{
    if n == 0 {
        0
    } else {
        needed(entries, (n - 1) as nat) + entries[n - 1].estimate as nat
    }
}

/// Whether no two entries run one model.
pub open spec fn all_distinct(entries: Seq<SwapView>) -> bool {
    forall|i: int, j: int|
        #![trigger entries[i], entries[j]]
        0 <= i < j < entries.len() ==> entries[i].physical != entries[j].physical
}

/// What the configuration says of the pinned entries: nothing where there are none,
/// else that they are loaded first. They must run different models, be no more than
/// may be loaded, and fit into the budget where one is known.
pub open spec fn hooks_of(
    entries: Seq<SwapView>,
    pinned: Seq<Seq<char>>,
    max: nat,
    budget: nat,
) -> Result<Seq<char>, SwapErrorView> {
    let held = pinned_entries(entries, pinned, pinned.len());
    if pinned.len() == 0 {
        Ok(seq![])
    } else if !all_distinct(held) {
        Err(SwapErrorView::PinnedTwice)
    } else if held.len() > max || (budget > 0 && needed(held, held.len()) > budget) {
        Err(SwapErrorView::PinnedBudget)
    } else {
        Ok(
            "hooks:\n  on_startup:\n    preload:\n"@ + quoted_lines(
                pinned,
                pinned.len(),
                "      - "@,
            ),
        )
    }
}

fn find_entry(entries: &Vec<SwapEntry>, id: &str) -> (out: Option<usize>)
    ensures
        match (out, entry_named(swap_views(entries@), id@)) {
            (Some(i), Some(e)) => i < entries@.len() && entries@[i as int]@ == e,
            (None, None) => true,
            _ => false,
        },
{
    let ghost all = swap_views(entries@);
    let mut i: usize = 0;
    while i < entries.len() && !text::same(entries[i].id.as_str(), id)
        invariant
            i <= entries@.len(),
            all == swap_views(entries@),
            forall|j: int| 0 <= j < i ==> other_name(id@)(#[trigger] all[j]),
        decreases entries@.len() - i,
    {
        proof {
            assert(all[i as int] == entries@[i as int]@);
        }
        i += 1;
    }
    proof {
        assert(i < entries@.len() ==> all[i as int] == entries@[i as int]@);
        text::lemma_run_unique(all, other_name(id@), i as int);
    }
    if i < entries.len() {
        Some(i)
    } else {
        None
    }
}

proof fn lemma_needed_grows(entries: Seq<SwapView>, n: nat, more: nat)
    requires
        n <= more,
    ensures
        needed(entries, n) <= needed(entries, more),
    decreases more,
{
    if n < more {
        lemma_needed_grows(entries, n, (more - 1) as nat);
    }
}

/// Whether entries stand at these places.
pub open spec fn stand_at(entries: Seq<SwapEntry>, places: Seq<usize>, held: Seq<SwapView>) -> bool {
    &&& held.len() == places.len()
    &&& forall|j: int|
        0 <= j < places.len() ==> #[trigger] places[j] < entries.len() && entries[places[j] as int]@
            == held[j]
}

/// Where the entries of the pinned names stand.
fn pinned_places(entries: &Vec<SwapEntry>, pinned: &Vec<String>) -> (out: Vec<usize>)
    ensures
        stand_at(
            entries@,
            out@,
            pinned_entries(swap_views(entries@), text::views(pinned@), pinned@.len()),
        ),
{
    let ghost all = swap_views(entries@);
    let ghost pins = text::views(pinned@);
    let mut held: Vec<usize> = Vec::new();
    let mut i: usize = 0;
    while i < pinned.len()
        invariant
            i <= pinned@.len(),
            all == swap_views(entries@),
            pins == text::views(pinned@),
            stand_at(entries@, held@, pinned_entries(all, pins, i as nat)),
        decreases pinned@.len() - i,
    {
        proof {
            assert(pins[i as int] == pinned@[i as int]@);
        }
        match find_entry(entries, pinned[i].as_str()) {
            Some(k) => {
                held.push(k);
            },
            None => {},
        }
        i += 1;
    }
    held
}

/// What the pinned entries need together, and the memory that they may take.
pub fn pinned_needs(entries: &Vec<SwapEntry>, pinned: &Vec<String>, budget: u64) -> (out: Result<
    (u64, u64),
    TooLarge,
>)
    ensures
        ({
            let held = pinned_entries(swap_views(entries@), text::views(pinned@), pinned@.len());
            match out {
                Ok(found) => found.0 == needed(held, held.len()) && found.1 == budget,
                Err(_) => needed(held, held.len()) > u64::MAX,
            }
        }),
{
    let held: Vec<usize> = pinned_places(entries, pinned);
    let ghost views = pinned_entries(swap_views(entries@), text::views(pinned@), pinned@.len());
    let mut sum: u64 = 0;
    let mut k: usize = 0;
    while k < held.len()
        invariant
            k <= held@.len(),
            views == pinned_entries(swap_views(entries@), text::views(pinned@), pinned@.len()),
            stand_at(entries@, held@, views),
            sum == needed(views, k as nat),
        decreases held@.len() - k,
    {
        proof {
            assert(held@[k as int] < entries@.len());
            lemma_needed_grows(views, (k + 1) as nat, views.len());
        }
        sum =
        match sum.checked_add(entries[held[k]].estimate) {
            Some(total) => total,
            None => return Err(TooLarge),
        };
        k += 1;
    }
    Ok((sum, budget))
}

/// What is said where the pinned entries do not fit.
pub open spec fn budget_text_of(needed: u64, budget: u64) -> Seq<char> {
    "pinned models need "@ + figures::tenths_of(figures::quotient(needed as nat, 0x4000_0000))
        + " G but scheduler budget is "@ + figures::tenths_of(
        figures::quotient(budget as nat, 0x4000_0000),
    ) + " G"@
}

/// Says what the pinned entries need and what they may take.
pub fn budget_text(needed: u64, budget: u64) -> (out: String)
    ensures
        out@ == budget_text_of(needed, budget),
{
    let mut out: String = "pinned models need ".to_owned();
    out.append(figures::format_gib(needed).as_str());
    out.append(" G but scheduler budget is ");
    out.append(figures::format_gib(budget).as_str());
    out.append(" G");
    out
}

/// What is said where there is no configuration. `needs` is what the pinned entries need and
/// what they may take, where that can be counted.
pub open spec fn error_text_of(e: SwapErrorView, needs: Option<(u64, u64)>) -> Seq<char> {
    match e {
        SwapErrorView::Empty =>
            "model advertisement is empty; enable advertise_base_models or advertise_profiles"@,
        SwapErrorView::UnknownPinned(name) => "unknown pinned model '"@ + name + "'"@,
        SwapErrorView::PinnedTwice =>
            "pinned models cannot contain two profiles of the same physical GGUF"@,
        SwapErrorView::PinnedBudget => match needs {
            Some(n) => budget_text_of(n.0, n.1),
            None => "pinned models need more memory than can be counted"@,
        },
    }
}

/// Says why there is no configuration.
pub fn error_text(e: &SwapError, needs: Option<(u64, u64)>) -> (out: String)
    ensures
        out@ == error_text_of(e@, needs),
{
    match e {
        SwapError::Empty =>
            "model advertisement is empty; enable advertise_base_models or advertise_profiles".to_owned(),
        SwapError::UnknownPinned(name) => {
            let mut out: String = "unknown pinned model '".to_owned();
            out.append(name.as_str());
            out.append("'");
            out
        },
        SwapError::PinnedTwice =>
            "pinned models cannot contain two profiles of the same physical GGUF".to_owned(),
        SwapError::PinnedBudget => match needs {
            Some(n) => budget_text(n.0, n.1),
            None => "pinned models need more memory than can be counted".to_owned(),
        },
    }
}

/// A refusal for want of memory means that the pinned entries are more than may be loaded,
/// or that what they need is more than the budget, where one is known.
pub proof fn budget_refusals_have_a_reason(
    entries: Seq<SwapView>,
    pinned: Seq<Seq<char>>,
    max: nat,
    budget: nat,
)
    ensures
        ({
            let held = pinned_entries(entries, pinned, pinned.len());
            hooks_of(entries, pinned, max, budget) == Err::<Seq<char>, SwapErrorView>(
                SwapErrorView::PinnedBudget,
            ) <==> pinned.len() > 0 && all_distinct(held) && (held.len() > max || (budget > 0
                && needed(held, held.len()) > budget))
        }),
{
}

/// Writes what the configuration says of the pinned entries. `budget` is the memory
/// that they may take together, zero where it is not known.
pub fn hooks_text(
    entries: &Vec<SwapEntry>,
    pinned: &Vec<String>,
    max_models: usize,
    budget: u64,
) -> (out: Result<String, SwapError>)
    ensures
        match (
            out,
            hooks_of(
                swap_views(entries@),
                text::views(pinned@),
                max_models as nat,
                budget as nat,
            ),
        ) {
            (Ok(s), Ok(v)) => s@ == v,
            (Err(e), Err(f)) => e@ == f,
            _ => false,
        },
{
    let ghost all = swap_views(entries@);
    let ghost pins = text::views(pinned@);
    let mut text: String = String::new();
    proof {
        assert(text@ =~= seq![]);
        assert(pins.len() == pinned@.len());
    }
    if pinned.len() == 0 {
        return Ok(text);
    }
    let held: Vec<usize> = pinned_places(entries, pinned);
    let ghost views = pinned_entries(all, pins, pins.len());
    let mut a: usize = 0;
    while a < held.len()
        invariant
            a <= held@.len(),
            views == pinned_entries(all, pins, pins.len()),
            pins.len() > 0,
            all == swap_views(entries@),
            pins == text::views(pinned@),
            views.len() == held@.len(),
            forall|j: int|
                0 <= j < held@.len() ==> #[trigger] held@[j] < entries@.len()
                    && entries@[held@[j] as int]@ == views[j],
            forall|x: int, y: int|
                #![trigger views[x], views[y]]
                0 <= x < y < views.len() && x < a ==> views[x].physical != views[y].physical,
        decreases held@.len() - a,
    {
        let mut b: usize = a + 1;
        while b < held.len()
            invariant
                a < b <= held@.len(),
                views == pinned_entries(all, pins, pins.len()),
                pins.len() > 0,
                all == swap_views(entries@),
                pins == text::views(pinned@),
                views.len() == held@.len(),
                forall|j: int|
                    0 <= j < held@.len() ==> #[trigger] held@[j] < entries@.len()
                        && entries@[held@[j] as int]@ == views[j],
                forall|y: int| a < y < b ==> views[a as int].physical != (#[trigger] views[y]).physical,
            decreases held@.len() - b,
        {
            proof {
                assert(held@[a as int] < entries@.len());
                assert(held@[b as int] < entries@.len());
            }
            if text::same(
                entries[held[a]].physical.as_str(),
                entries[held[b]].physical.as_str(),
            ) {
                proof {
                    assert(views[a as int].physical == views[b as int].physical);
                }
                return Err(SwapError::PinnedTwice);
            }
            b += 1;
        }
        a += 1;
    }
    if held.len() > max_models {
        return Err(SwapError::PinnedBudget);
    }
    if budget > 0 {
        let mut sum: u64 = 0;
        let mut k: usize = 0;
        while k < held.len()
            invariant
                k <= held@.len(),
                views == pinned_entries(all, pins, pins.len()),
                pins.len() > 0,
                budget > 0,
                all == swap_views(entries@),
                pins == text::views(pinned@),
                all_distinct(views),
                views.len() == held@.len(),
                forall|j: int|
                    0 <= j < held@.len() ==> #[trigger] held@[j] < entries@.len()
                        && entries@[held@[j] as int]@ == views[j],
                sum == needed(views, k as nat),
                sum <= budget,
            decreases held@.len() - k,
        {
            proof {
                assert(held@[k as int] < entries@.len());
                lemma_needed_grows(views, (k + 1) as nat, views.len());
            }
            let more: u64 = entries[held[k]].estimate;
            if more > budget - sum {
                return Err(SwapError::PinnedBudget);
            }
            sum += more;
            k += 1;
        }
    }
    text.append("hooks:\n  on_startup:\n    preload:\n");
    let ghost front = text@;
    add_quoted_lines(&mut text, pinned, "      - ");
    proof {
        assert(front =~= "hooks:\n  on_startup:\n    preload:\n"@);
    }
    Ok(text)
}

/// The entries that run one model: the most that one of them is estimated to take,
/// and their places.
pub struct Group {
    pub estimate: u64,
    pub variants: Vec<usize>,
}

#[verifier::ext_equal]
pub ghost struct GroupView {
    pub estimate: u64,
    pub variants: Seq<usize>,
}

impl View for Group {
    type V = GroupView;

    open spec fn view(&self) -> GroupView {
        GroupView { estimate: self.estimate, variants: self.variants@ }
    }
}

/// A group as its view, as a function.
pub open spec fn to_group() -> spec_fn(Group) -> GroupView {
    |g: Group| g@
}

/// The first `n` entries, grouped by the model that they run.
pub open spec fn grouped(entries: Seq<SwapView>, n: nat) -> Seq<(Seq<char>, GroupView)>
    decreases n,
{
    if n == 0 {
        seq![]
    } else {
        let earlier = grouped(entries, (n - 1) as nat);
        let e = entries[n - 1];
        let g = match table::lookup(earlier, e.physical) {
            Some(g) => g,
            None => GroupView { estimate: e.estimate, variants: seq![] },
        };
        table::put(
            earlier,
            e.physical,
            GroupView {
                estimate: if e.estimate > g.estimate {
                    e.estimate
                } else {
                    g.estimate
                },
                variants: g.variants.push((n - 1) as usize),
            },
        )
    }
}

/// What each group is estimated to take.
pub open spec fn estimates_of(groups: Seq<(Seq<char>, GroupView)>) -> Seq<u64> {
    groups.map_values(|g: (Seq<char>, GroupView)| g.1.estimate)
}

/// Whether a group stands in one of some sets.
pub open spec fn participates(sets: Seq<Seq<usize>>, g: int) -> bool {
    exists|k: int| 0 <= k < sets.len() && (#[trigger] sets[k]).contains(g as usize)
}

/// The places of the entries of the first `n` groups that stand in some set.
pub open spec fn matrix_entries(
    groups: Seq<(Seq<char>, GroupView)>,
    sets: Seq<Seq<usize>>,
    n: nat,
) -> Seq<usize>
    decreases n,
{
    if n == 0 {
        seq![]
    } else {
        let earlier = matrix_entries(groups, sets, (n - 1) as nat);
        if participates(sets, n - 1) {
            earlier + groups[n - 1].1.variants
        } else {
            earlier
        }
    }
}

/// The last of the first `n` entries of the matrix that has a name, -1 where none
/// has it.
pub open spec fn last_with(entries: Seq<SwapView>, matrix: Seq<usize>, n: nat, id: Seq<char>) -> int
    decreases n,
{
    if n == 0 {
        -1
    } else if entries[matrix[n - 1] as int].id == id {
        n - 1
    } else {
        last_with(entries, matrix, (n - 1) as nat, id)
    }
}

/// The variable of a name in the matrix.
pub open spec fn variable_of(entries: Seq<SwapView>, matrix: Seq<usize>, id: Seq<char>) -> Seq<char> {
    "m"@ + text::decimal_of(last_with(entries, matrix, matrix.len(), id) as nat)
}

/// The lines that say which name a variable stands for.
pub open spec fn variable_lines(entries: Seq<SwapView>, matrix: Seq<usize>, n: nat) -> Seq<char>
    decreases n,
{
    if n == 0 {
        seq![]
    } else {
        let id = entries[matrix[n - 1] as int].id;
        variable_lines(entries, matrix, (n - 1) as nat) + "    "@ + variable_of(entries, matrix, id)
            + ": "@ + json::quoted(id) + "\n"@
    }
}

/// What it costs to unload an entry: its gigabytes, at least one.
pub open spec fn cost_of(estimate: u64) -> nat {
    if estimate < 1_000_000_000 {
        1
    } else {
        (estimate / 1_000_000_000) as nat
    }
}

pub open spec fn cost_lines(entries: Seq<SwapView>, matrix: Seq<usize>, n: nat) -> Seq<char>
    decreases n,
{
    if n == 0 {
        seq![]
    } else {
        let e = entries[matrix[n - 1] as int];
        cost_lines(entries, matrix, (n - 1) as nat) + "    "@ + variable_of(entries, matrix, e.id)
            + ": "@ + text::decimal_of(cost_of(e.estimate)) + "\n"@
    }
}

/// The variables of some entries.
pub open spec fn variables_of(entries: Seq<SwapView>, matrix: Seq<usize>, variants: Seq<usize>) -> Seq<
    Seq<char>,
> {
    variants.map_values(|i: usize| variable_of(entries, matrix, entries[i as int].id))
}

/// One model in a set: any of its entries.
pub open spec fn choice_of(entries: Seq<SwapView>, matrix: Seq<usize>, variants: Seq<usize>) -> Seq<
    char,
> {
    let names = variables_of(entries, matrix, variants);
    if names.len() == 1 {
        names[0]
    } else {
        "("@ + text::joined(names, " | "@) + ")"@
    }
}

pub open spec fn choices_of(
    entries: Seq<SwapView>,
    groups: Seq<(Seq<char>, GroupView)>,
    matrix: Seq<usize>,
    set: Seq<usize>,
) -> Seq<Seq<char>> {
    set.map_values(|g: usize| choice_of(entries, matrix, groups[g as int].1.variants))
}

pub open spec fn set_lines(
    entries: Seq<SwapView>,
    groups: Seq<(Seq<char>, GroupView)>,
    matrix: Seq<usize>,
    sets: Seq<Seq<usize>>,
    n: nat,
) -> Seq<char>
    decreases n,
{
    if n == 0 {
        seq![]
    } else {
        set_lines(entries, groups, matrix, sets, (n - 1) as nat) + "    fit"@ + text::decimal_of(
            (n - 1) as nat,
        ) + ": "@ + json::quoted(
            text::joined(choices_of(entries, groups, matrix, sets[n - 1]), " & "@),
        ) + "\n"@
    }
}

/// What the configuration says of the sets of models that may be loaded together:
/// nothing where there are none.
pub open spec fn matrix_of(
    entries: Seq<SwapView>,
    groups: Seq<(Seq<char>, GroupView)>,
    sets: Seq<Seq<usize>>,
) -> Seq<char> {
    let matrix = matrix_entries(groups, sets, groups.len());
    if sets.len() == 0 {
        seq![]
    } else {
        "matrix:\n  vars:\n"@ + variable_lines(entries, matrix, matrix.len())
            + "  evict_costs:\n"@ + cost_lines(entries, matrix, matrix.len()) + "  sets:\n"@
            + set_lines(entries, groups, matrix, sets, sets.len())
    }
}

/// All places lie in the list.
spec fn within(list: Seq<usize>, n: nat) -> bool {
    forall|i: int| 0 <= i < list.len() ==> #[trigger] list[i] < n
}

proof fn lemma_grouped(entries: Seq<SwapView>, n: nat)
    requires
        n <= entries.len(),
        entries.len() <= usize::MAX,
    ensures
        table::ordered(grouped(entries, n)),
        forall|g: int|
            0 <= g < grouped(entries, n).len() ==> within(
                (#[trigger] grouped(entries, n)[g]).1.variants,
                n,
            ),
    decreases n,
{
    if n > 0 {
        let earlier = grouped(entries, (n - 1) as nat);
        let e = entries[n - 1];
        lemma_grouped(entries, (n - 1) as nat);
        let new = grouped(entries, n);
        let held = table::lookup(earlier, e.physical);
        let p = table::key_differs::<GroupView>(e.physical);
        text::lemma_run(earlier, p);
        let at = text::run(earlier, p) as int;
        let g = match held {
            Some(g) => g,
            None => GroupView { estimate: e.estimate, variants: seq![] },
        };
        let value = GroupView {
            estimate: if e.estimate > g.estimate {
                e.estimate
            } else {
                g.estimate
            },
            variants: g.variants.push((n - 1) as usize),
        };
        if held is Some {
            assert(earlier[at].1 == g);
            assert(within(g.variants, (n - 1) as nat));
        }
        assert(within(value.variants, n));
        table::put_keeps_order(earlier, e.physical, value);
        assert(new == table::put(earlier, e.physical, value));
        assert forall|i: int| 0 <= i < new.len() implies within((#[trigger] new[i]).1.variants, n) by {
            table::lemma_lookup_at(new, i);
            table::put_then_lookup(earlier, e.physical, value, new[i].0);
            if new[i].0 != e.physical {
                let q = table::key_differs::<GroupView>(new[i].0);
                text::lemma_run(earlier, q);
                let k = text::run(earlier, q) as int;
                assert(!q(earlier[k]));
                assert(earlier[k].1 == new[i].1);
                assert(within(earlier[k].1.variants, (n - 1) as nat));
            }
        }
    }
}

proof fn lemma_matrix_within(
    groups: Seq<(Seq<char>, GroupView)>,
    sets: Seq<Seq<usize>>,
    n: nat,
    count: nat,
)
    requires
        n <= groups.len(),
        forall|g: int| 0 <= g < groups.len() ==> within((#[trigger] groups[g]).1.variants, count),
    ensures
        within(matrix_entries(groups, sets, n), count),
    decreases n,
{
    if n > 0 {
        lemma_matrix_within(groups, sets, (n - 1) as nat, count);
        assert(within(groups[n - 1].1.variants, count));
    }
}

fn takes_part(sets: &Vec<Vec<usize>>, g: usize) -> (yes: bool)
    ensures
        yes == participates(scheduler::set_views(sets@), g as int),
{
    let ghost all = scheduler::set_views(sets@);
    let mut k: usize = 0;
    while k < sets.len()
        invariant
            k <= sets@.len(),
            all == scheduler::set_views(sets@),
            forall|j: int| 0 <= j < k ==> !(#[trigger] all[j]).contains(g),
        decreases sets@.len() - k,
    {
        proof {
            assert(all[k as int] == sets@[k as int]@);
        }
        let mut i: usize = 0;
        while i < sets[k].len()
            invariant
                k < sets@.len(),
                i <= sets@[k as int]@.len(),
                all == scheduler::set_views(sets@),
                all[k as int] == sets@[k as int]@,
                forall|j: int| 0 <= j < i ==> #[trigger] sets@[k as int]@[j] != g,
            decreases sets@[k as int]@.len() - i,
        {
            if sets[k][i] == g {
                proof {
                    assert(all[k as int][i as int] == g);
                    assert(all[k as int].contains(g));
                }
                return true;
            }
            i += 1;
        }
        k += 1;
    }
    false
}

fn variable(entries: &Vec<SwapEntry>, matrix: &Vec<usize>, id: &str) -> (out: String)
    requires
        forall|i: int| 0 <= i < matrix@.len() ==> #[trigger] matrix@[i] < entries@.len(),
        last_with(swap_views(entries@), matrix@, matrix@.len(), id@) >= 0,
    ensures
        out@ == variable_of(swap_views(entries@), matrix@, id@),
{
    let ghost all = swap_views(entries@);
    let mut n: usize = matrix.len();
    let mut found: u64 = 0;
    while n > 0
        invariant_except_break
            last_with(all, matrix@, matrix@.len(), id@) == last_with(all, matrix@, n as nat, id@),
        invariant
            n <= matrix@.len(),
            all == swap_views(entries@),
            forall|i: int| 0 <= i < matrix@.len() ==> #[trigger] matrix@[i] < entries@.len(),
            last_with(all, matrix@, matrix@.len(), id@) >= 0,
        ensures
            found == last_with(all, matrix@, matrix@.len(), id@),
        decreases n,
    {
        proof {
            assert(matrix@[n - 1] < entries@.len());
            assert(all[matrix@[n - 1] as int] == entries@[matrix@[n - 1] as int]@);
        }
        if text::same(entries[matrix[n - 1]].id.as_str(), id) {
            found = (n - 1) as u64;
            break ;
        }
        n -= 1;
    }
    let mut out: String = "m".to_owned();
    out.append(text::decimal(found).as_str());
    out
}

proof fn lemma_last_with(entries: Seq<SwapView>, matrix: Seq<usize>, n: nat, k: int)
    requires
        0 <= k < n <= matrix.len(),
    ensures
        k <= last_with(entries, matrix, n, entries[matrix[k] as int].id) < n,
    decreases n,
{
    if entries[matrix[n - 1] as int].id != entries[matrix[k] as int].id {
        lemma_last_with(entries, matrix, (n - 1) as nat, k);
    }
}

/// The entries of a group that takes part stand in the matrix.
proof fn lemma_in_matrix(
    groups: Seq<(Seq<char>, GroupView)>,
    sets: Seq<Seq<usize>>,
    n: nat,
    g: int,
    v: int,
) -> (at: int)
    requires
        0 <= g < n <= groups.len(),
        participates(sets, g),
        0 <= v < groups[g].1.variants.len(),
    ensures
        0 <= at < matrix_entries(groups, sets, n).len(),
        matrix_entries(groups, sets, n)[at] == groups[g].1.variants[v],
    decreases n,
{
    let earlier = matrix_entries(groups, sets, (n - 1) as nat);
    if g == n - 1 {
        earlier.len() + v
    } else {
        lemma_in_matrix(groups, sets, (n - 1) as nat, g, v)
    }
}

fn choice(entries: &Vec<SwapEntry>, matrix: &Vec<usize>, variants: &Vec<usize>) -> (out: String)
    requires
        forall|i: int| 0 <= i < matrix@.len() ==> #[trigger] matrix@[i] < entries@.len(),
        forall|i: int| 0 <= i < variants@.len() ==> #[trigger] variants@[i] < entries@.len(),
        forall|i: int|
            0 <= i < variants@.len() ==> last_with(
                swap_views(entries@),
                matrix@,
                matrix@.len(),
                swap_views(entries@)[#[trigger] variants@[i] as int].id,
            ) >= 0,
    ensures
        out@ == choice_of(swap_views(entries@), matrix@, variants@),
{
    let ghost all = swap_views(entries@);
    let ghost names_view = variables_of(all, matrix@, variants@);
    let mut names: Vec<String> = Vec::new();
    let mut i: usize = 0;
    proof {
        assert(text::views(names@) =~= names_view.take(0));
    }
    while i < variants.len()
        invariant
            i <= variants@.len(),
            all == swap_views(entries@),
            names_view == variables_of(all, matrix@, variants@),
            forall|i: int| 0 <= i < matrix@.len() ==> #[trigger] matrix@[i] < entries@.len(),
            forall|i: int| 0 <= i < variants@.len() ==> #[trigger] variants@[i] < entries@.len(),
            forall|i: int|
                0 <= i < variants@.len() ==> last_with(
                    all,
                    matrix@,
                    matrix@.len(),
                    all[#[trigger] variants@[i] as int].id,
                ) >= 0,
            text::views(names@) == names_view.take(i as int),
        decreases variants@.len() - i,
    {
        let k: usize = variants[i];
        proof {
            assert(variants@[i as int] < entries@.len());
            assert(all[k as int] == entries@[k as int]@);
        }
        let name: String = variable(entries, matrix, entries[k].id.as_str());
        proof {
            profiles::lemma_views_push(names@, name);
            assert(names_view[i as int] == name@);
            assert(names_view.take(i + 1) =~= names_view.take(i as int).push(names_view[i as int]));
        }
        names.push(name);
        i += 1;
    }
    proof {
        assert(names_view.take(variants@.len() as int) =~= names_view);
        assert(names@.len() == names_view.len());
        if names@.len() == 1 {
            assert(text::views(names@)[0] == names@[0]@);
        }
    }
    if names.len() == 1 {
        names[0].clone()
    } else {
        let mut out: String = "(".to_owned();
        out.append(text::join(names.as_slice(), " | ").as_str());
        out.append(")");
        out
    }
}

/// Groups the entries by the model that they run.
fn group_entries(entries: &Vec<SwapEntry>) -> (out: Table<Group>)
    ensures
        table::mapped(out@, to_group()) == grouped(swap_views(entries@), entries@.len()),
{
    let ghost all = swap_views(entries@);
    let mut groups: Table<Group> = Table::new();
    proof {
        assert(table::mapped(groups@, to_group()) =~= seq![]);
    }
    let mut i: usize = 0;
    while i < entries.len()
        invariant
            i <= entries@.len(),
            all == swap_views(entries@),
            table::mapped(groups@, to_group()) == grouped(all, i as nat),
        decreases entries@.len() - i,
    {
        let e: &SwapEntry = &entries[i];
        proof {
            assert(all[i as int] == e@);
            table::lemma_mapped_lookup(groups@, to_group(), e.physical@);
        }
        let mut variants: Vec<usize> = Vec::new();
        let mut estimate: u64 = e.estimate;
        match groups.get(e.physical.as_str()) {
            Some(g) => {
                variants = g.variants.clone();
                if g.estimate > estimate {
                    estimate = g.estimate;
                }
            },
            None => {},
        }
        let ghost before = variants@;
        variants.push(i);
        let group: Group = Group { estimate, variants };
        proof {
            table::lemma_mapped_put(groups@, to_group(), e.physical@, group);
            match table::lookup(grouped(all, i as nat), e.physical@) {
                Some(g) => {
                    assert(before == g.variants);
                },
                None => {
                    assert(before =~= seq![]);
                },
            }
            assert(group@.variants == before.push(i));
        }
        groups.insert(e.physical.clone(), group);
        i += 1;
    }
    groups
}

/// Writes the sets of models that may be loaded together.
fn matrix_text(entries: &Vec<SwapEntry>, groups: &Table<Group>, sets: &Vec<Vec<usize>>) -> (out:
    String)
    requires
        forall|g: int|
            0 <= g < groups@.len() ==> within(
                (#[trigger] table::mapped(groups@, to_group())[g]).1.variants,
                entries@.len(),
            ),
        forall|k: int, i: int|
            0 <= k < sets@.len() && 0 <= i < sets@[k]@.len() ==> #[trigger] sets@[k]@[i]
                < groups@.len(),
    ensures
        out@ == matrix_of(
            swap_views(entries@),
            table::mapped(groups@, to_group()),
            scheduler::set_views(sets@),
        ),
{
    let ghost all = swap_views(entries@);
    let ghost gs = table::mapped(groups@, to_group());
    let ghost ss = scheduler::set_views(sets@);
    let mut out: String = String::new();
    proof {
        assert(out@ =~= seq![]);
        assert(ss.len() == sets@.len());
    }
    if sets.len() == 0 {
        return out;
    }
    let mut matrix: Vec<usize> = Vec::new();
    let mut g: usize = 0;
    proof {
        assert(matrix@ =~= matrix_entries(gs, ss, 0));
    }
    while g < groups.len()
        invariant
            g <= groups@.len(),
            gs == table::mapped(groups@, to_group()),
            ss == scheduler::set_views(sets@),
            matrix@ == matrix_entries(gs, ss, g as nat),
        decreases groups@.len() - g,
    {
        proof {
            assert(gs[g as int].1 == groups@[g as int].1@);
        }
        if takes_part(sets, g) {
            let variants: &Vec<usize> = &groups.value_at(g).variants;
            let ghost before = matrix@;
            let mut v: usize = 0;
            proof {
                assert(before + variants@.take(0) =~= before);
            }
            while v < variants.len()
                invariant
                    v <= variants@.len(),
                    matrix@ == before + variants@.take(v as int),
                decreases variants@.len() - v,
            {
                matrix.push(variants[v]);
                proof {
                    assert(matrix@ =~= before + variants@.take(v + 1));
                }
                v += 1;
            }
            proof {
                assert(variants@.take(variants@.len() as int) =~= variants@);
            }
        }
        g += 1;
    }
    proof {
        lemma_matrix_within(gs, ss, gs.len(), entries@.len());
    }
    out.append("matrix:\n  vars:\n");
    let ghost one = out@;
    let mut i: usize = 0;
    proof {
        assert(one =~= "matrix:\n  vars:\n"@);
        assert(one + variable_lines(all, matrix@, 0) =~= one);
    }
    while i < matrix.len()
        invariant
            i <= matrix@.len(),
            all == swap_views(entries@),
            forall|i: int| 0 <= i < matrix@.len() ==> #[trigger] matrix@[i] < entries@.len(),
            out@ == one + variable_lines(all, matrix@, i as nat),
        decreases matrix@.len() - i,
    {
        proof {
            assert(matrix@[i as int] < entries@.len());
            assert(all[matrix@[i as int] as int] == entries@[matrix@[i as int] as int]@);
            lemma_last_with(all, matrix@, matrix@.len(), i as int);
        }
        let e: &SwapEntry = &entries[matrix[i]];
        out.append("    ");
        out.append(variable(entries, &matrix, e.id.as_str()).as_str());
        out.append(": ");
        out.append(json::quote(e.id.as_str()).as_str());
        out.append("\n");
        proof {
            assert(out@ =~= one + variable_lines(all, matrix@, (i + 1) as nat));
        }
        i += 1;
    }
    out.append("  evict_costs:\n");
    let ghost two = out@;
    let mut c: usize = 0;
    proof {
        assert(two + cost_lines(all, matrix@, 0) =~= two);
    }
    while c < matrix.len()
        invariant
            c <= matrix@.len(),
            all == swap_views(entries@),
            forall|i: int| 0 <= i < matrix@.len() ==> #[trigger] matrix@[i] < entries@.len(),
            out@ == two + cost_lines(all, matrix@, c as nat),
        decreases matrix@.len() - c,
    {
        proof {
            assert(matrix@[c as int] < entries@.len());
            assert(all[matrix@[c as int] as int] == entries@[matrix@[c as int] as int]@);
            lemma_last_with(all, matrix@, matrix@.len(), c as int);
        }
        let e: &SwapEntry = &entries[matrix[c]];
        let cost: u64 = if e.estimate < 1_000_000_000 {
            1
        } else {
            e.estimate / 1_000_000_000
        };
        out.append("    ");
        out.append(variable(entries, &matrix, e.id.as_str()).as_str());
        out.append(": ");
        out.append(text::decimal(cost).as_str());
        out.append("\n");
        proof {
            assert(out@ =~= two + cost_lines(all, matrix@, (c + 1) as nat));
        }
        c += 1;
    }
    out.append("  sets:\n");
    let ghost three = out@;
    let mut k: usize = 0;
    proof {
        assert(three + set_lines(all, gs, matrix@, ss, 0) =~= three);
    }
    while k < sets.len()
        invariant
            k <= sets@.len(),
            all == swap_views(entries@),
            gs == table::mapped(groups@, to_group()),
            ss == scheduler::set_views(sets@),
            matrix@ == matrix_entries(gs, ss, gs.len()),
            forall|i: int| 0 <= i < matrix@.len() ==> #[trigger] matrix@[i] < entries@.len(),
            forall|g: int|
                0 <= g < groups@.len() ==> within((#[trigger] gs[g]).1.variants, entries@.len()),
            forall|k: int, i: int|
                0 <= k < sets@.len() && 0 <= i < sets@[k]@.len() ==> #[trigger] sets@[k]@[i]
                    < groups@.len(),
            out@ == three + set_lines(all, gs, matrix@, ss, k as nat),
        decreases sets@.len() - k,
    {
        let set: &Vec<usize> = &sets[k];
        let ghost choices_view = choices_of(all, gs, matrix@, set@);
        let mut choices: Vec<String> = Vec::new();
        let mut j: usize = 0;
        proof {
            assert(ss[k as int] == set@);
            assert(text::views(choices@) =~= choices_view.take(0));
        }
        while j < set.len()
            invariant
                k < sets@.len(),
                set == sets@[k as int],
                j <= set@.len(),
                all == swap_views(entries@),
                gs == table::mapped(groups@, to_group()),
                ss == scheduler::set_views(sets@),
                ss[k as int] == set@,
                matrix@ == matrix_entries(gs, ss, gs.len()),
                forall|i: int| 0 <= i < matrix@.len() ==> #[trigger] matrix@[i] < entries@.len(),
                forall|g: int|
                    0 <= g < groups@.len() ==> within(
                        (#[trigger] gs[g]).1.variants,
                        entries@.len(),
                    ),
                forall|k: int, i: int|
                    0 <= k < sets@.len() && 0 <= i < sets@[k]@.len() ==> #[trigger] sets@[k]@[i]
                        < groups@.len(),
                choices_view == choices_of(all, gs, matrix@, set@),
                text::views(choices@) == choices_view.take(j as int),
            decreases set@.len() - j,
        {
            proof {
                assert(sets@[k as int]@[j as int] < groups@.len());
            }
            let g: usize = set[j];
            let variants: &Vec<usize> = &groups.value_at(g).variants;
            proof {
                assert(gs[g as int].1 == groups@[g as int].1@);
                assert(within(gs[g as int].1.variants, entries@.len()));
                assert(ss[k as int][j as int] == g);
                assert(ss[k as int].contains(g));
                assert(participates(ss, g as int));
                assert forall|v: int| 0 <= v < variants@.len() implies last_with(
                    all,
                    matrix@,
                    matrix@.len(),
                    all[#[trigger] variants@[v] as int].id,
                ) >= 0 by {
                    let at = lemma_in_matrix(gs, ss, gs.len(), g as int, v);
                    lemma_last_with(all, matrix@, matrix@.len(), at);
                }
            }
            let item: String = choice(entries, &matrix, variants);
            proof {
                profiles::lemma_views_push(choices@, item);
                assert(choices_view[j as int] == item@);
                assert(choices_view.take(j + 1) =~= choices_view.take(j as int).push(
                    choices_view[j as int],
                ));
            }
            choices.push(item);
            j += 1;
        }
        proof {
            assert(choices_view.take(set@.len() as int) =~= choices_view);
        }
        out.append("    fit");
        out.append(text::decimal(k as u64).as_str());
        out.append(": ");
        out.append(json::quote(text::join(choices.as_slice(), " & ").as_str()).as_str());
        out.append("\n");
        proof {
            assert(out@ =~= three + set_lines(all, gs, matrix@, ss, (k + 1) as nat));
        }
        k += 1;
    }
    out
}

/// Writes which models may be loaded together: every set of at most `max_models`
/// models that fits into the budget and that no other model could join.
pub fn scheduler_matrix(entries: &Vec<SwapEntry>, budget: u64, max_models: usize) -> (out: String)
    ensures
        ({
            let groups = grouped(swap_views(entries@), entries@.len());
            exists|sets: Seq<Seq<usize>>|
                {
                    &&& #[trigger] scheduler::are_maximal(
                        estimates_of(groups),
                        budget,
                        max_models as nat,
                        sets,
                    )
                    &&& out@ == matrix_of(swap_views(entries@), groups, sets)
                }
        }),
{
    let groups: Table<Group> = group_entries(entries);
    let ghost gs = table::mapped(groups@, to_group());
    let mut estimates: Vec<u64> = Vec::new();
    let mut i: usize = 0;
    proof {
        assert(estimates@ =~= estimates_of(gs).take(0));
    }
    while i < groups.len()
        invariant
            i <= groups@.len(),
            gs == table::mapped(groups@, to_group()),
            estimates@ == estimates_of(gs).take(i as int),
        decreases groups@.len() - i,
    {
        estimates.push(groups.value_at(i).estimate);
        proof {
            assert(gs[i as int].1 == groups@[i as int].1@);
            assert(estimates@ =~= estimates_of(gs).take(i + 1));
        }
        i += 1;
    }
    proof {
        assert(estimates_of(gs).take(gs.len() as int) =~= estimates_of(gs));
    }
    let sets: Vec<Vec<usize>> = scheduler::maximal_fitting_sets(
        estimates.as_slice(),
        budget,
        max_models,
    );
    let ghost ss = scheduler::set_views(sets@);
    let _count: usize = entries.len();
    proof {
        lemma_grouped(swap_views(entries@), entries@.len());
        assert forall|k: int, i: int|
            0 <= k < sets@.len() && 0 <= i < sets@[k]@.len() implies #[trigger] sets@[k]@[i]
            < groups@.len() by {
            assert(ss[k] == sets@[k]@);
            assert(ss[k][i] < estimates@.len());
        }
        assert forall|g: int| 0 <= g < groups@.len() implies within(
            (#[trigger] gs[g]).1.variants,
            entries@.len(),
        ) by {
            assert(within(
                grouped(swap_views(entries@), entries@.len())[g].1.variants,
                entries@.len(),
            ));
        }
        assert(scheduler::are_maximal(estimates_of(gs), budget, max_models as nat, ss));
    }
    matrix_text(entries, &groups, &sets)
}

/// What is read on disk for an entry: the arguments that name its model, whether the
/// model can draft for itself, whether the draft that the entry's arguments name is
/// there and goes with the model, and what the model serves other than chat.
pub struct EntryFacts {
    pub model_args: Vec<String>,
    pub has_mtp: bool,
    pub draft_exists: bool,
    pub compatibility: DraftCompatibility,
    pub mode: Option<String>,
}

#[verifier::ext_equal]
pub ghost struct FactsView {
    pub model_args: Seq<Seq<char>>,
    pub has_mtp: bool,
    pub draft_exists: bool,
    pub compatibility: CompatibilityView,
    pub mode: Option<Seq<char>>,
}

impl View for EntryFacts {
    type V = FactsView;

    open spec fn view(&self) -> FactsView {
        FactsView {
            model_args: text::views(self.model_args@),
            has_mtp: self.has_mtp,
            draft_exists: self.draft_exists,
            compatibility: self.compatibility@,
            mode: metadata::text_view(self.mode),
        }
    }
}

pub open spec fn facts_views(list: Seq<EntryFacts>) -> Seq<FactsView> {
    list.map_values(|f: EntryFacts| f@)
}

/// Why no configuration is written.
pub enum WriteError {
    /// An entry and what is wrong with its profile.
    Profile(String, ProfileError),
    /// A profile that asks a model to draft for itself which cannot.
    NoMtp(String),
    /// An entry and what is wrong with its draft.
    Draft(String, DraftFault),
    /// Nothing is offered, or the pinned models are not in the offer or cannot be loaded
    /// together.
    Offer(SwapError),
}

pub ghost enum WriteErrorView {
    Profile(Seq<char>, ProfileErrorView),
    NoMtp(Seq<char>),
    Draft(Seq<char>, DraftFaultView),
    Offer(SwapErrorView),
}

impl View for WriteError {
    type V = WriteErrorView;

    open spec fn view(&self) -> WriteErrorView {
        match *self {
            WriteError::Profile(id, e) => WriteErrorView::Profile(id@, e@),
            WriteError::NoMtp(name) => WriteErrorView::NoMtp(name@),
            WriteError::Draft(id, e) => WriteErrorView::Draft(id@, e@),
            WriteError::Offer(e) => WriteErrorView::Offer(e@),
        }
    }
}

/// What the configuration says of one entry.
pub open spec fn entry_outcome(
    c: ConfigView,
    p: ProfilesView,
    known: Option<Seq<Seq<char>>>,
    binary: Seq<char>,
    e: SwapView,
    f: FactsView,
) -> Result<Seq<char>, WriteErrorView> {
    match entry_args_of(c, p, known, binary, f.model_args, e) {
        Err(x) => Err(WriteErrorView::Profile(e.id, x)),
        Ok(args) => match e.profile {
            Some(name) if asks_self_draft(args) && !f.has_mtp => Err(WriteErrorView::NoMtp(name)),
            _ => match process::draft_fault(true, args, f.draft_exists, f.compatibility) {
                Some(x) => Err(WriteErrorView::Draft(e.id, x)),
                None => Ok(entry_text_of(c, args, f.mode, e)),
            },
        },
    }
}

/// What the configuration says of the first `n` entries: the first fault among them
/// ends it.
pub open spec fn entries_outcome(
    c: ConfigView,
    p: ProfilesView,
    known: Option<Seq<Seq<char>>>,
    binary: Seq<char>,
    entries: Seq<SwapView>,
    facts: Seq<FactsView>,
    n: nat,
) -> Result<Seq<char>, WriteErrorView>
    decreases n,
{
    if n == 0 {
        Ok(seq![])
    } else {
        match entries_outcome(c, p, known, binary, entries, facts, (n - 1) as nat) {
            Err(x) => Err(x),
            Ok(earlier) => match entry_outcome(
                c,
                p,
                known,
                binary,
                entries[n - 1],
                facts[n - 1],
            ) {
                Err(x) => Err(x),
                Ok(more) => Ok(earlier + more),
            },
        }
    }
}

proof fn lemma_entries_outcome_fails(
    c: ConfigView,
    p: ProfilesView,
    known: Option<Seq<Seq<char>>>,
    binary: Seq<char>,
    entries: Seq<SwapView>,
    facts: Seq<FactsView>,
    n: nat,
    more: nat,
)
    requires
        n <= more,
        entries_outcome(c, p, known, binary, entries, facts, n) is Err,
    ensures
        entries_outcome(c, p, known, binary, entries, facts, more) == entries_outcome(
            c,
            p,
            known,
            binary,
            entries,
            facts,
            n,
        ),
    decreases more,
{
    if n < more {
        lemma_entries_outcome_fails(c, p, known, binary, entries, facts, n, (more - 1) as nat);
    }
}

/// Whether models may be loaded together: where the scheduler is enabled and knows how
/// much memory there is.
pub open spec fn is_scheduled(c: ConfigView, installed: u64) -> bool {
    c.scheduler_enabled && installed > 0
}

/// The sets of models that the configuration lets be loaded together.
pub open spec fn may_share(
    c: ConfigView,
    entries: Seq<SwapView>,
    installed: u64,
    budget: u64,
    sets: Seq<Seq<usize>>,
) -> bool {
    is_scheduled(c, installed) ==> scheduler::are_maximal(
        estimates_of(grouped(entries, entries.len())),
        budget,
        c.scheduler_max_models as nat,
        sets,
    )
}

/// The whole configuration: its head, its entries, the sets of models where the
/// scheduler is enabled, and the pinned entries.
pub open spec fn config_of(
    c: ConfigView,
    body: Seq<char>,
    entries: Seq<SwapView>,
    installed: u64,
    sets: Seq<Seq<usize>>,
    hooks: Seq<char>,
) -> Seq<char> {
    head_of(c) + body + (if is_scheduled(c, installed) {
        matrix_of(entries, grouped(entries, entries.len()), sets)
    } else {
        seq![]
    }) + hooks
}

fn entry_part(
    cfg: &Config,
    profiles: &Profiles,
    known: Option<&Vec<String>>,
    binary: &str,
    entry: &SwapEntry,
    facts: &EntryFacts,
) -> (out: Result<String, WriteError>)
    ensures
        match (
            out,
            entry_outcome(
                cfg@,
                profiles@,
                profiles::known_views(known),
                binary@,
                entry@,
                facts@,
            ),
        ) {
            (Ok(s), Ok(v)) => s@ == v,
            (Err(e), Err(f)) => e@ == f,
            _ => false,
        },
{
    let args: Vec<String> = match entry_args(
        cfg,
        profiles,
        known,
        binary,
        &facts.model_args,
        entry,
    ) {
        Ok(args) => args,
        Err(e) => return Err(WriteError::Profile(entry.id.clone(), e)),
    };
    match &entry.profile {
        Some(name) => {
            if requests_internal_mtp(args.as_slice()) && !facts.has_mtp {
                return Err(WriteError::NoMtp(name.clone()));
            }
        },
        None => {},
    }
    match process::validate_draft_model(
        true,
        args.as_slice(),
        facts.draft_exists,
        &facts.compatibility,
    ) {
        Ok(_) => {},
        Err(e) => return Err(WriteError::Draft(entry.id.clone(), e)),
    }
    let mode: Option<&str> = match &facts.mode {
        Some(s) => Some(s.as_str()),
        None => None,
    };
    Ok(entry_text(cfg, &args, mode, entry))
}

/// Writes the configuration of the scheduler for the entries that it offers, in their
/// order, from what is read on disk for each. `installed` is the memory of the graphics
/// cards, zero where it is not known, and `budget` what of it the models may take.
pub fn write_swap_config(
    cfg: &Config,
    profiles: &Profiles,
    known: Option<&Vec<String>>,
    binary: &str,
    entries: &Vec<SwapEntry>,
    facts: &Vec<EntryFacts>,
    installed: u64,
    budget: u64,
) -> (out: Result<String, WriteError>)
    requires
        cfg.port < u16::MAX,
        facts@.len() == entries@.len(),
    ensures
        ({
            let all = swap_views(entries@);
            let max = cfg.scheduler_max_models as nat;
            match (
                refusal(all, cfg@.scheduler_pinned_models),
                entries_outcome(
                    cfg@,
                    profiles@,
                    profiles::known_views(known),
                    binary@,
                    all,
                    facts_views(facts@),
                    all.len(),
                ),
                hooks_of(all, cfg@.scheduler_pinned_models, max, budget as nat),
            ) {
                (Some(x), _, _) => out matches Err(e) && e@ == WriteErrorView::Offer(x),
                (None, Err(x), _) => out matches Err(e) && e@ == x,
                (None, Ok(_), Err(x)) => out matches Err(e) && e@ == WriteErrorView::Offer(x),
                (None, Ok(body), Ok(hooks)) => out matches Ok(s) && exists|sets: Seq<Seq<usize>>|
                    {
                        &&& #[trigger] may_share(cfg@, all, installed, budget, sets)
                        &&& s@ == config_of(cfg@, body, all, installed, sets, hooks)
                    },
            }
        }),
{
    let ghost all = swap_views(entries@);
    let ghost given = facts_views(facts@);
    let ghost flags = profiles::known_views(known);
    let ghost max = cfg.scheduler_max_models as nat;
    match refuse(entries, &cfg.scheduler_pinned_models) {
        Some(e) => return Err(WriteError::Offer(e)),
        None => {},
    }
    let scheduled: bool = cfg.scheduler_enabled && installed > 0;
    let mut text: String = head_text(cfg);
    let ghost head = text@;
    let ghost mut body = Seq::<char>::empty();
    proof {
        assert(head + body =~= head);
    }
    let mut i: usize = 0;
    while i < entries.len()
        invariant
            i <= entries@.len(),
            facts@.len() == entries@.len(),
            all == swap_views(entries@),
            given == facts_views(facts@),
            flags == profiles::known_views(known),
            refusal(all, cfg@.scheduler_pinned_models) is None,
            entries_outcome(cfg@, profiles@, flags, binary@, all, given, i as nat) == Ok::<
                Seq<char>,
                WriteErrorView,
            >(body),
            text@ == head + body,
        decreases entries@.len() - i,
    {
        proof {
            assert(all[i as int] == entries@[i as int]@);
            assert(given[i as int] == facts@[i as int]@);
            if entries_outcome(cfg@, profiles@, flags, binary@, all, given, (i + 1) as nat) is Err {
                lemma_entries_outcome_fails(
                    cfg@,
                    profiles@,
                    flags,
                    binary@,
                    all,
                    given,
                    (i + 1) as nat,
                    all.len(),
                );
            }
        }
        match entry_part(cfg, profiles, known, binary, &entries[i], &facts[i]) {
            Ok(part) => {
                text.append(part.as_str());
                proof {
                    assert(head + body + part@ =~= head + (body + part@));
                    body = body + part@;
                }
            },
            Err(e) => return Err(e),
        }
        i += 1;
    }
    let hooks: String = match hooks_text(
        entries,
        &cfg.scheduler_pinned_models,
        cfg.scheduler_max_models,
        budget,
    ) {
        Ok(hooks) => hooks,
        Err(e) => return Err(WriteError::Offer(e)),
    };
    let ghost groups = grouped(all, all.len());
    let ghost mut kept = Seq::<Seq<usize>>::empty();
    if scheduled {
        let matrix: String = scheduler_matrix(entries, budget, cfg.scheduler_max_models);
        text.append(matrix.as_str());
        proof {
            kept = choose|sets: Seq<Seq<usize>>|
                {
                    &&& #[trigger] scheduler::are_maximal(
                        estimates_of(groups),
                        budget,
                        max,
                        sets,
                    )
                    &&& matrix@ == matrix_of(all, groups, sets)
                };
        }
    } else {
        proof {
            assert(head + body + Seq::<char>::empty() =~= head + body);
        }
    }
    text.append(hooks.as_str());
    proof {
        assert(may_share(cfg@, all, installed, budget, kept));
        assert(text@ =~= config_of(cfg@, body, all, installed, kept, hooks@));
    }
    Ok(text)
}

/// The profile that an entry runs with, or the entry itself where it has none.
pub open spec fn profile_named(entries: Seq<SwapView>, id: Seq<char>) -> Seq<char> {
    match entry_named(entries, id) {
        Some(e) => match e.profile {
            Some(name) => name,
            None => id,
        },
        None => id,
    }
}

fn named_profile(entries: &Vec<SwapEntry>, id: &str) -> (out: String)
    ensures
        out@ == profile_named(swap_views(entries@), id@),
{
    match find_entry(entries, id) {
        Some(i) => match &entries[i].profile {
            Some(name) => name.clone(),
            None => id.to_owned(),
        },
        None => id.to_owned(),
    }
}

/// The file that an entry runs.
pub open spec fn path_named(entries: Seq<SwapView>, id: Seq<char>) -> Seq<char> {
    match entry_named(entries, id) {
        Some(e) => e.path,
        None => ""@,
    }
}

fn named_path(entries: &Vec<SwapEntry>, id: &str) -> (out: String)
    ensures
        out@ == path_named(swap_views(entries@), id@),
{
    match find_entry(entries, id) {
        Some(i) => entries[i].path.clone(),
        None => "".to_owned(),
    }
}

/// What is said where no configuration is written for the entries.
pub open spec fn write_text_of(
    e: WriteErrorView,
    entries: Seq<SwapView>,
    needs: Option<(u64, u64)>,
) -> Seq<char> {
    match e {
        WriteErrorView::Profile(id, fault) => profiles::error_text_of(
            fault,
            profile_named(entries, id),
        ),
        WriteErrorView::NoMtp(profile) => "profile '"@ + profile
            + "' requests internal MTP but its GGUF lacks compatible NextN tensors"@,
        WriteErrorView::Draft(id, fault) => "model '"@ + id + "': "@ + process::draft_text_of(
            fault,
            path_named(entries, id),
        ),
        WriteErrorView::Offer(refused) => error_text_of(refused, needs),
    }
}

/// Says why no configuration is written.
pub fn write_text(e: &WriteError, entries: &Vec<SwapEntry>, needs: Option<(u64, u64)>) -> (out:
    String)
    ensures
        out@ == write_text_of(e@, swap_views(entries@), needs),
{
    match e {
        WriteError::Profile(id, fault) => profiles::error_text(
            fault,
            named_profile(entries, id.as_str()).as_str(),
        ),
        WriteError::NoMtp(profile) => {
            let mut out: String = "profile '".to_owned();
            out.append(profile.as_str());
            out.append("' requests internal MTP but its GGUF lacks compatible NextN tensors");
            out
        },
        WriteError::Draft(id, fault) => {
            let mut out: String = "model '".to_owned();
            out.append(id.as_str());
            out.append("': ");
            out.append(
                process::draft_text(fault, named_path(entries, id.as_str()).as_str()).as_str(),
            );
            out
        },
        WriteError::Offer(refused) => error_text(refused, needs),
    }
}

} // verus!
