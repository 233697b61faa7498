//! Laws of what goes: removed profiles and models take with them what leads to them, and nothing
//! else.
use vstd::prelude::*;

use crate::commands;
use crate::json::Json;
use crate::laws::texts;
use crate::profiles;
use crate::profiles::{Members, ProfileErrorView, ProfilesView};
use crate::table;
use crate::text;

verus! {

/// Whether a list has an entry with this key.
pub open spec fn listed<V>(list: Seq<(Seq<char>, V)>, key: Seq<char>) -> bool {
    exists|i: int| 0 <= i < list.len() && (#[trigger] list[i]).0 == key
}

proof fn lemma_listed<V>(list: Seq<(Seq<char>, V)>, key: Seq<char>)
    ensures
        listed(list, key) <==> table::lookup(list, key) is Some,
{
    texts::the_first_entry_with_a_key_counts(list, key);
}

/// Whether a binding is the name of a profile, or a table whose `profile` is that name.
pub open spec fn binds(binding: Json, name: Seq<char>) -> bool {
    ||| binding == Json::Text(name)
    ||| binding matches Json::Object(list) && table::lookup(list, "profile"@) == Some(
        Json::Text(name),
    )
}

/// What is left of bindings: in order, those that do not bind the name.
proof fn lemma_left(models: Members, name: Seq<char>)
    requires
        table::ordered(models),
    ensures
        ({
            let left = profiles::unbound(models, name);
            &&& table::ordered(left)
            &&& forall|i: int|
                0 <= i < left.len() ==> models.contains(#[trigger] left[i]) && !binds(left[i].1, name)
            &&& forall|i: int|
                0 <= i < models.len() && !binds((#[trigger] models[i]).1, name) ==> left.contains(
                    models[i],
                )
        }),
    decreases models.len(),
{
    let left = profiles::unbound(models, name);
    if models.len() > 0 {
        let fewer = models.drop_last();
        let n = fewer.len() as int;
        assert forall|i: int, j: int| 0 <= i < j < fewer.len() implies text::before(
            #[trigger] fewer[i].0,
            #[trigger] fewer[j].0,
        ) by {
            assert(text::before(models[i].0, models[j].0));
        }
        lemma_left(fewer, name);
        let less = profiles::unbound(fewer, name);
        assert forall|i: int| 0 <= i < left.len() implies models.contains(#[trigger] left[i]) && !binds(
            left[i].1,
            name,
        ) by {
            if i < less.len() {
                assert(left[i] == less[i]);
                let k = choose|k: int| 0 <= k < fewer.len() && fewer[k] == less[i];
                assert(models[k] == left[i]);
            } else {
                assert(models[n] == left[i]);
            }
        }
        assert forall|i: int, j: int| 0 <= i < j < left.len() implies text::before(
            #[trigger] left[i].0,
            #[trigger] left[j].0,
        ) by {
            assert(left[i] == less[i]);
            let k = choose|k: int| 0 <= k < fewer.len() && fewer[k] == less[i];
            if j < less.len() {
                assert(left[j] == less[j]);
            } else {
                assert(text::before(models[k].0, models[n].0));
            }
        }
        assert forall|i: int| 0 <= i < models.len() && !binds((#[trigger] models[i]).1, name) implies left.contains(
            models[i],
        ) by {
            if i < n {
                assert(fewer[i] == models[i]);
                let k = choose|k: int| 0 <= k < less.len() && less[k] == models[i];
                assert(left[k] == models[i]);
            } else {
                assert(left[left.len() - 1] == models[i]);
            }
        }
    }
}

proof fn lemma_left_lookup(models: Members, name: Seq<char>, model: Seq<char>)
    requires
        table::ordered(models),
    ensures
        table::lookup(profiles::unbound(models, name), model) == match table::lookup(models, model) {
            Some(b) => if binds(b, name) {
                None
            } else {
                Some(b)
            },
            None => None,
        },
{
    let left = profiles::unbound(models, name);
    lemma_left(models, name);
    texts::the_first_entry_with_a_key_counts(models, model);
    texts::the_first_entry_with_a_key_counts(left, model);
    if let Some(b) = table::lookup(left, model) {
        let i = choose|i: int| 0 <= i < left.len() && #[trigger] left[i] == (model, b);
        assert(models.contains(left[i]));
        let k = choose|k: int| 0 <= k < models.len() && models[k] == left[i];
        table::lemma_lookup_at(models, k);
    } else if let Some(b) = table::lookup(models, model) {
        let i = choose|i: int| 0 <= i < models.len() && #[trigger] models[i] == (model, b);
        if !binds(b, name) {
            assert(left.contains(models[i]));
            let k = choose|k: int| 0 <= k < left.len() && left[k] == models[i];
            assert(left[k].0 == model);
        }
    }
}

/// A profile that exists can be removed, and no other. With it go the bindings that lead to it;
/// the other bindings and the exposed names stay.
pub proof fn removed_profiles_take_their_bindings(p: ProfilesView, name: Seq<char>, model: Seq<char>)
    requires
        table::ordered(p.profiles),
        table::ordered(p.models),
    ensures
        match profiles::removed_profile(p, name) {
            Err(e) => !listed(p.profiles, name) && e == ProfileErrorView::Unknown,
            Ok(q) => {
                &&& listed(p.profiles, name)
                &&& !listed(q.profiles, name)
                &&& table::ordered(q.profiles)
                &&& table::ordered(q.models)
                &&& q.expose == p.expose
                &&& table::lookup(q.models, model) == match table::lookup(p.models, model) {
                    Some(b) => if binds(b, name) {
                        None
                    } else {
                        Some(b)
                    },
                    None => None,
                }
            },
        },
{
    lemma_listed(p.profiles, name);
    if let Ok(q) = profiles::removed_profile(p, name) {
        table::without_then_lookup(p.profiles, name, name);
        table::without_keeps_order(p.profiles, name);
        lemma_listed(q.profiles, name);
        lemma_left(p.models, name);
        lemma_left_lookup(p.models, name, model);
    }
}

/// Whether a code is that of an upper-case letter, of a lower-case letter or of a digit.
pub open spec fn letter_or_digit(code: int) -> bool {
    65 <= code < 65 + 26 || 97 <= code < 97 + 26 || 48 <= code < 48 + 10
}

/// A name is made of letters, digits, hyphens (45), dots (46) and underscores (95), and its first
/// sign is a letter or a digit: so are its beginnings, and so is what only adds such signs.
pub proof fn names_are_made_of_letters_and_digits(name: Seq<char>, c: char)
    ensures
        !profiles::is_name(seq![]),
        profiles::is_name(seq![c]) <==> letter_or_digit(c as int),
        name.len() > 0 ==> (profiles::is_name(name.push(c)) <==> profiles::is_name(name) && (
        letter_or_digit(c as int) || 45 <= c as int <= 46 || c as int == 95)),
{
    let one = seq![c];
    assert(one[0] == c);
    let more = name.push(c);
    let n = name.len() as int;
    assert(more[n] == c);
    assert forall|i: int| 0 <= i < n implies #[trigger] name[i] == more[i] by {}
    if name.len() > 0 && profiles::is_name(more) {
        assert forall|i: int| 0 <= i < n implies profiles::is_alphanumeric(#[trigger] name[i]) || name[i]
            == '.' || name[i] == '_' || name[i] == '-' by {
            assert(more[i] == name[i]);
        }
        assert(more[0] == name[0]);
    }
}

/// A profile is copied or renamed only to a name that no profile has, and only where it exists.
/// Renamed, it stays exposed under its new name, and each model that was bound stays bound.
pub proof fn names_are_given_once(p: ProfilesView, source: Seq<char>, target: Seq<char>)
    ensures
        profiles::renamed_profile(p, source, target) is Ok <==> profiles::is_name(target) && !listed(
            p.profiles,
            target,
        ) && listed(p.profiles, source),
        profiles::cloned_profile(p, source, target) is Ok <==> profiles::is_name(target) && !listed(
            p.profiles,
            target,
        ) && listed(p.profiles, source),
        profiles::cloned_profile(p, source, target) matches Ok(q) ==> q.expose == p.expose && q.models
            == p.models,
        profiles::renamed_profile(p, source, target) matches Ok(q) ==> {
            &&& q.expose.len() == p.expose.len()
            &&& forall|i: int|
                0 <= i < p.expose.len() && p.expose[i] == source ==> #[trigger] q.expose[i] == target
            &&& forall|i: int|
                0 <= i < p.expose.len() && p.expose[i] != source ==> #[trigger] q.expose[i]
                    == p.expose[i]
            &&& q.models.len() == p.models.len()
            &&& forall|i: int| 0 <= i < p.models.len() ==> (#[trigger] q.models[i]).0 == p.models[i].0
        },
{
    lemma_listed(p.profiles, source);
    lemma_listed(p.profiles, target);
}

/// Whether a profile says that it belongs to a model.
pub open spec fn belongs(list: Members, model: Seq<char>) -> bool {
    table::lookup(list, "_model"@) == Some(Json::Text(model))
}

/// Whether one of the first `n` profiles has this name and belongs to a model.
pub open spec fn owned(list: Seq<(Seq<char>, Members)>, model: Seq<char>, n: int, name: Seq<char>) -> bool {
    exists|i: int| 0 <= i < n && (#[trigger] list[i]).0 == name && belongs(list[i].1, model)
}

proof fn lemma_owned(list: Seq<(Seq<char>, Members)>, model: Seq<char>, n: nat)
    requires
        n <= list.len(),
    ensures
        ({
            let out = commands::names_owned(list, model, n);
            &&& forall|k: int|
                0 <= k < out.len() ==> owned(list, model, n as int, #[trigger] out[k])
            &&& forall|i: int|
                0 <= i < n && belongs((#[trigger] list[i]).1, model) ==> out.contains(list[i].0)
        }),
    decreases n,
{
    let out = commands::names_owned(list, model, n);
    if n > 0 {
        let less = commands::names_owned(list, model, (n - 1) as nat);
        lemma_owned(list, model, (n - 1) as nat);
        let last = list[n - 1].1;
        assert(belongs(last, model) <==> commands::model_of(last) == Some(model));
        assert forall|k: int| 0 <= k < out.len() implies owned(list, model, n as int, #[trigger] out[k]) by {
            if k < less.len() {
                assert(out[k] == less[k]);
                assert(owned(list, model, n - 1, less[k]));
                let i = choose|i: int|
                    0 <= i < n - 1 && (#[trigger] list[i]).0 == less[k] && belongs(list[i].1, model);
                assert(list[i].0 == out[k]);
            } else {
                assert(list[n - 1].0 == out[k]);
            }
        }
        assert forall|i: int| 0 <= i < n && belongs((#[trigger] list[i]).1, model) implies out.contains(
            list[i].0,
        ) by {
            if i < n - 1 {
                let k = choose|k: int| 0 <= k < less.len() && less[k] == list[i].0;
                assert(out[k] == list[i].0);
            } else {
                assert(out[out.len() - 1] == list[i].0);
            }
        }
    }
}

/// Whether one of the first `n` names is bound.
pub open spec fn binds_one(binding: Json, names: Seq<Seq<char>>, n: int) -> bool {
    exists|k: int| 0 <= k < n && binds(binding, #[trigger] names[k])
}

proof fn lemma_without(p: ProfilesView, names: Seq<Seq<char>>, n: nat, name: Seq<char>, other: Seq<char>)
    requires
        table::ordered(p.profiles),
        table::ordered(p.models),
        n <= names.len(),
        forall|k: int| 0 <= k < names.len() ==> listed(p.profiles, #[trigger] names[k]),
    ensures
        ({
            let q = commands::without_names(p, names, n);
            &&& table::ordered(q.profiles)
            &&& table::ordered(q.models)
            &&& q.expose == p.expose
            &&& table::lookup(q.profiles, name) == if names.take(n as int).contains(name) {
                None
            } else {
                table::lookup(p.profiles, name)
            }
            &&& table::lookup(q.models, other) == match table::lookup(p.models, other) {
                Some(b) => if binds_one(b, names, n as int) {
                    None
                } else {
                    Some(b)
                },
                None => None,
            }
        }),
    decreases n,
{
    if n > 0 {
        let m = (n - 1) as nat;
        let gone = names[n - 1];
        let earlier = commands::without_names(p, names, m);
        lemma_without(p, names, m, name, other);
        lemma_without(p, names, m, gone, other);
        removed_profiles_take_their_bindings(earlier, gone, other);
        let before = names.take(m as int);
        let upto = names.take(n as int);
        assert(upto =~= before.push(gone));
        assert(upto[n - 1] == gone);
        lemma_listed(p.profiles, gone);
        lemma_listed(earlier.profiles, gone);
        if before.contains(name) {
            let k = choose|k: int| 0 <= k < before.len() && before[k] == name;
            assert(upto[k] == name);
        }
        if upto.contains(name) && name != gone {
            let k = choose|k: int| 0 <= k < upto.len() && upto[k] == name;
            assert(before[k] == name);
        }
        if let Some(b) = table::lookup(p.models, other) {
            if binds_one(b, names, n as int) {
                let k = choose|k: int| 0 <= k < n && binds(b, #[trigger] names[k]);
                if k < m {
                    assert(binds_one(b, names, m as int));
                } else if before.contains(gone) {
                    let l = choose|l: int| 0 <= l < before.len() && before[l] == gone;
                    assert(binds(b, names[l]));
                }
            }
            if binds_one(b, names, m as int) {
                let k = choose|k: int| 0 <= k < m && binds(b, #[trigger] names[k]);
                assert(binds_one(b, names, n as int));
            }
            if binds(b, gone) {
                assert(binds(b, names[n - 1]));
            }
        }
        if profiles::removed_profile(earlier, gone) is Ok {
            table::without_then_lookup(earlier.profiles, gone, name);
        } else {
            assert(before.contains(gone));
        }
    }
}

/// A model that is removed takes with it the profiles that belong to it, its own binding and the
/// bindings of others that lead to one of these profiles. All else stays.
pub proof fn removed_models_take_their_profiles(
    p: ProfilesView,
    model: Seq<char>,
    name: Seq<char>,
    other: Seq<char>,
)
    requires
        table::ordered(p.profiles),
        table::ordered(p.models),
    ensures
        ({
            let q = commands::without_model(p, model);
            &&& q.expose == p.expose
            &&& table::lookup(q.profiles, name) == match table::lookup(p.profiles, name) {
                Some(list) => if belongs(list, model) {
                    None
                } else {
                    Some(list)
                },
                None => None,
            }
            &&& table::lookup(q.models, model) is None
            &&& other != model ==> match table::lookup(p.models, other) {
                None => table::lookup(q.models, other) is None,
                Some(b) => table::lookup(q.models, other) == if exists|i: int|
                    0 <= i < p.profiles.len() && belongs((#[trigger] p.profiles[i]).1, model) && binds(
                        b,
                        p.profiles[i].0,
                    ) {
                    None
                } else {
                    Some(b)
                },
            }
        }),
{
    let list = p.profiles;
    let names = commands::names_owned(list, model, list.len());
    let rest = commands::without_names(p, names, names.len());
    lemma_owned(list, model, list.len());
    assert forall|k: int| 0 <= k < names.len() implies listed(list, #[trigger] names[k]) by {
        assert(owned(list, model, list.len() as int, names[k]));
        let i = choose|i: int|
            0 <= i < list.len() && (#[trigger] list[i]).0 == names[k] && belongs(list[i].1, model);
        assert(list[i].0 == names[k]);
    }
    lemma_without(p, names, names.len(), name, other);
    assert(names.take(names.len() as int) =~= names);
    table::without_then_lookup(rest.models, model, other);
    texts::the_first_entry_with_a_key_counts(list, name);
    if let Some(members) = table::lookup(list, name) {
        let i = choose|i: int| 0 <= i < list.len() && #[trigger] list[i] == (name, members);
        if belongs(members, model) {
            assert(names.contains(list[i].0));
        }
    }
    if names.contains(name) {
        let k = choose|k: int| 0 <= k < names.len() && names[k] == name;
        assert(owned(list, model, list.len() as int, names[k]));
        let i = choose|i: int|
            0 <= i < list.len() && (#[trigger] list[i]).0 == names[k] && belongs(list[i].1, model);
        table::lemma_lookup_at(list, i);
    }
    if let Some(b) = table::lookup(p.models, other) {
        if binds_one(b, names, names.len() as int) {
            let k = choose|k: int| 0 <= k < names.len() && binds(b, #[trigger] names[k]);
            assert(owned(list, model, list.len() as int, names[k]));
            let i = choose|i: int|
                0 <= i < list.len() && (#[trigger] list[i]).0 == names[k] && belongs(list[i].1, model);
            assert(belongs(p.profiles[i].1, model) && binds(b, p.profiles[i].0));
        }
        if exists|i: int|
            0 <= i < list.len() && belongs((#[trigger] list[i]).1, model) && binds(b, list[i].0) {
            let i = choose|i: int|
                0 <= i < list.len() && belongs((#[trigger] list[i]).1, model) && binds(b, list[i].0);
            assert(names.contains(list[i].0));
            let k = choose|k: int| 0 <= k < names.len() && names[k] == list[i].0;
            assert(binds(b, names[k]));
        }
    }
}

} // verus!
