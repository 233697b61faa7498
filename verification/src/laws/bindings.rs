//! Laws of bindings and environments: which profile a model uses and what is set for it.
use vstd::prelude::*;

use crate::json;
use crate::json::Json;
use crate::laws::arguments;
use crate::laws::estimates;
use crate::laws::texts;
use crate::profiles;
use crate::profiles::{Members, ProfileErrorView, ProfilesView};
use crate::table;
use crate::text;

verus! {

/// Whether a pattern of the bindings fits a model, by its name or its place.
pub open spec fn fits(e: (Seq<char>, Json), model: Seq<char>, relative: Seq<char>) -> bool {
    profiles::fits_glob(e.0, model) || profiles::fits_glob(e.0, relative)
}

/// Whether a member of a profile is a text.
pub open spec fn text_under(list: Members, key: Seq<char>, s: Seq<char>) -> bool {
    table::lookup(list, key) == Some(Json::Text(s))
}

/// A profile belongs to the model that its `_model` names, and asks for the runtime that its
/// `_runtime` names, unless that is empty.
pub proof fn profiles_name_model_and_runtime(p: ProfilesView, name: Seq<char>, s: Seq<char>)
    ensures
        profiles::owner_of(p, name) == Some(s) <==> table::lookup(p.profiles, name) is Some && text_under(
            table::lookup(p.profiles, name)->0,
            "_model"@,
            s,
        ),
        profiles::runtime_of(p, name) == Some(s) <==> s.len() > 0 && table::lookup(
            p.profiles,
            name,
        ) is Some && text_under(table::lookup(p.profiles, name)->0, "_runtime"@, s),
{
}

/// The first binding whose pattern fits decides. It names a profile, alone or with changes that
/// are everything else in it; that profile must belong to the model. Where none fits there is
/// no profile; and each way in which a binding can be wrong is told.
pub proof fn the_first_binding_that_fits_decides(
    p: ProfilesView,
    model: Seq<char>,
    relative: Seq<char>,
)
    ensures
        ({
            let out = profiles::binding_of(p, model, relative);
            let none = forall|i: int|
                0 <= i < p.models.len() ==> !fits(#[trigger] p.models[i], model, relative);
            &&& none ==> out == Ok::<Option<(Seq<char>, Members)>, ProfileErrorView>(None)
            &&& forall|i: int|
                0 <= i < p.models.len() && fits(#[trigger] p.models[i], model, relative) && (forall|j: int|
                    0 <= j < i ==> !fits(#[trigger] p.models[j], model, relative)) ==> decides(
                    p,
                    p.models[i],
                    model,
                    out,
                )
        }),
{
    let miss = profiles::misses(model, relative);
    text::lemma_run(p.models, miss);
    let at = text::run(p.models, miss) as int;
    let out = profiles::binding_of(p, model, relative);
    assert forall|j: int| 0 <= j < at implies !fits(#[trigger] p.models[j], model, relative) by {
        assert(miss(p.models[j]));
    }
    if at < p.models.len() {
        assert(!miss(p.models[at]));
        assert(fits(p.models[at], model, relative));
        let e = p.models[at];
        match e.1 {
            Json::Text(name) => {
                assert(uses(p, model, name, seq![], out));
            },
            Json::Object(list) => match table::lookup(list, "profile"@) {
                Some(Json::Text(name)) => {
                    assert(text_under(list, "profile"@, name));
                    assert(uses(p, model, name, table::without(list, "profile"@), out));
                },
                _ => {},
            },
            _ => {},
        }
        assert(decides(p, e, model, out));
    }
    assert forall|i: int|
        0 <= i < p.models.len() && fits(#[trigger] p.models[i], model, relative) && (forall|j: int|
            0 <= j < i ==> !fits(#[trigger] p.models[j], model, relative)) implies decides(
        p,
        p.models[i],
        model,
        out,
    ) by {
        if at < i {
            assert(!fits(p.models[at], model, relative));
        }
        assert(i == at);
    }
}

/// Whether an outcome is what one binding says of a model.
pub open spec fn decides(
    p: ProfilesView,
    e: (Seq<char>, Json),
    model: Seq<char>,
    out: Result<Option<(Seq<char>, Members)>, ProfileErrorView>,
) -> bool {
    match e.1 {
        Json::Text(name) => uses(p, model, name, seq![], out),
        Json::Object(list) => {
            &&& forall|name: Seq<char>| #[trigger]
                text_under(list, "profile"@, name) ==> uses(
                    p,
                    model,
                    name,
                    table::without(list, "profile"@),
                    out,
                )
            &&& (forall|name: Seq<char>| !#[trigger] text_under(list, "profile"@, name)) ==> out == Err::<
                Option<(Seq<char>, Members)>,
                ProfileErrorView,
            >(ProfileErrorView::BindingLacksProfile)
        },
        _ => out == Err::<Option<(Seq<char>, Members)>, ProfileErrorView>(
            ProfileErrorView::BindingKind(e.0),
        ),
    }
}

/// Whether an outcome is that a model uses a profile with some changes: where it belongs to the
/// model; else it is said that it belongs to none, or to which one.
pub open spec fn uses(
    p: ProfilesView,
    model: Seq<char>,
    name: Seq<char>,
    changes: Members,
    out: Result<Option<(Seq<char>, Members)>, ProfileErrorView>,
) -> bool {
    match profiles::owner_of(p, name) {
        Some(owner) => if owner == model {
            out == Ok::<Option<(Seq<char>, Members)>, ProfileErrorView>(Some((name, changes)))
        } else {
            out == Err::<Option<(Seq<char>, Members)>, ProfileErrorView>(
                ProfileErrorView::OwnedBy(name, owner),
            )
        },
        None => out == Err::<Option<(Seq<char>, Members)>, ProfileErrorView>(
            ProfileErrorView::NoOwner(name),
        ),
    }
}

/// Whether a text can name a variable: letters, digits and underscores, no digit first.
pub open spec fn names_variable(s: Seq<char>) -> bool {
    &&& s.len() > 0
    &&& !('0' <= s[0] && s[0] <= '9')
    &&& forall|i: int|
        0 <= i < s.len() ==> {
            ||| #[trigger] s[i] == '_'
            ||| 'a' <= s[i] <= 'z'
            ||| 'A' <= s[i] <= 'Z'
            ||| '0' <= s[i] <= '9'
        }
}

/// Whether a member can be set as a variable.
pub open spec fn can_be_set(e: (Seq<char>, Json)) -> bool {
    names_variable(e.0) && !texts::occurs(profiles::displayed(e.1), '\0')
}

proof fn lemma_variables(list: Members, n: nat)
    requires
        n <= list.len(),
    ensures
        match profiles::variables(list, n) {
            Ok(pairs) => {
                &&& pairs.len() == n
                &&& forall|i: int|
                    0 <= i < n ==> can_be_set(#[trigger] list[i]) && pairs[i].0 == list[i].0
                        && arguments::written_as(list[i].1, pairs[i].1)
            },
            Err(e) => exists|i: int|
                0 <= i < n && !can_be_set(#[trigger] list[i]) && (forall|j: int|
                    0 <= j < i ==> can_be_set(#[trigger] list[j])) && e == if names_variable(
                    list[i].0,
                ) {
                    ProfileErrorView::EnvironmentNul(list[i].0)
                } else {
                    ProfileErrorView::EnvironmentName(list[i].0)
                },
        },
    decreases n,
{
    if n > 0 {
        lemma_variables(list, (n - 1) as nat);
        let e = list[n - 1];
        arguments::lemma_displayed(e.1);
        let value = profiles::displayed(e.1);
        assert(profiles::is_variable(e.0) <==> names_variable(e.0));
        assert(value.contains('\0') <==> texts::occurs(value, '\0')) by {
            if value.contains('\0') {
                let i = choose|i: int| 0 <= i < value.len() && value[i] == '\0';
                assert(value[i] == '\0');
            }
        }
        match profiles::variables(list, (n - 1) as nat) {
            Ok(less) => {
                match profiles::variables(list, n) {
                    Ok(pairs) => {
                        assert forall|i: int| 0 <= i < n implies can_be_set(#[trigger] list[i])
                            && pairs[i].0 == list[i].0 && arguments::written_as(list[i].1, pairs[i].1) by {
                            if i < n - 1 {
                                assert(pairs[i] == less[i]);
                            }
                        }
                    },
                    Err(x) => {
                        assert(!can_be_set(list[n - 1]));
                    },
                }
            },
            Err(_) => {},
        }
    }
}

/// The environment of a profile sets every variable that its `_env` holds, in order, to what
/// its value is written as; there is none without one. Where one cannot be set the first such
/// is named; where they cannot be read that is said.
pub proof fn every_variable_of_a_profile_is_set(p: ProfilesView, name: Seq<char>)
    ensures
        match table::lookup(p.profiles, name) {
            None => profiles::environment_of(p, name) matches Ok(pairs) && pairs.len() == 0,
            Some(profile) => match table::lookup(profile, "_env"@) {
                None => profiles::environment_of(p, name) matches Ok(pairs) && pairs.len() == 0,
                Some(value) => match (
                    profiles::environment_members(value),
                    profiles::environment_of(p, name),
                ) {
                    (Err(e), Err(f)) => e == f,
                    (Err(_), Ok(_)) => false,
                    (Ok(list), Ok(pairs)) => {
                        &&& pairs.len() == list.len()
                        &&& forall|i: int|
                            0 <= i < list.len() ==> can_be_set(#[trigger] list[i]) && pairs[i].0
                                == list[i].0 && arguments::written_as(list[i].1, pairs[i].1)
                    },
                    (Ok(list), Err(e)) => exists|i: int|
                        0 <= i < list.len() && !can_be_set(#[trigger] list[i]) && (forall|j: int|
                            0 <= j < i ==> can_be_set(#[trigger] list[j])) && e == if names_variable(
                            list[i].0,
                        ) {
                            ProfileErrorView::EnvironmentNul(list[i].0)
                        } else {
                            ProfileErrorView::EnvironmentName(list[i].0)
                        },
                },
            },
        },
{
    match table::lookup(p.profiles, name) {
        None => {},
        Some(profile) => match table::lookup(profile, "_env"@) {
            None => {},
            Some(value) => match profiles::environment_members(value) {
                Ok(list) => {
                    lemma_variables(list, list.len());
                },
                Err(_) => {},
            },
        },
    }
}

/// Whether a line of an environment counts: it is not blank.
pub open spec fn line_counts(line: Seq<char>) -> bool {
    text::trim_of(line).len() > 0
}

/// Whether a line assigns a value: the name, trimmed, in front of the first equals sign, and
/// everything behind it.
pub open spec fn assigns(line: Seq<char>, key: Seq<char>, value: Seq<char>) -> bool {
    exists|a: Seq<char>|
        line == #[trigger] (a + seq!['='] + value) && !texts::occurs(a, '=') && key == text::trim_of(a)
}

/// Lines of an environment assign: every line that is not blank must, and the last that assigns
/// to a name counts. The first that does not assign is named.
pub proof fn lines_assign_variables(lines: Seq<Seq<char>>, n: nat, key: Seq<char>)
    requires
        n <= lines.len(),
    ensures
        match profiles::assignments(lines, n) {
            Ok(list) => {
                &&& table::ordered(list)
                &&& forall|i: int|
                    0 <= i < n && line_counts(#[trigger] lines[i]) ==> texts::occurs(lines[i], '=')
                &&& match table::lookup(list, key) {
                    Some(v) => exists|i: int, value: Seq<char>|
                        0 <= i < n && line_counts(lines[i]) && #[trigger] assigns(lines[i], key, value)
                            && v == Json::Text(value) && forall|j: int, w: Seq<char>|
                            i < j < n && line_counts(lines[j]) ==> !#[trigger] assigns(
                                lines[j],
                                key,
                                w,
                            ),
                    None => forall|j: int, w: Seq<char>|
                        0 <= j < n && line_counts(lines[j]) ==> !#[trigger] assigns(
                            lines[j],
                            key,
                            w,
                        ),
                }
            },
            Err(e) => exists|i: int|
                0 <= i < n && line_counts(#[trigger] lines[i]) && !texts::occurs(lines[i], '=') && e
                    == ProfileErrorView::EnvironmentEntry(lines[i]) && forall|j: int|
                    0 <= j < i && line_counts(#[trigger] lines[j]) ==> texts::occurs(lines[j], '='),
        },
    decreases n,
{
    if n > 0 {
        lines_assign_variables(lines, (n - 1) as nat, key);
        let line = lines[n - 1];
        texts::texts_part_at_the_first_separator(line, '=');
        match profiles::assignments(lines, (n - 1) as nat) {
            Err(_) => {},
            Ok(less) => {
                if line_counts(line) {
                    match text::split_once_of(line, '=') {
                        None => {
                            assert(!texts::occurs(lines[n - 1], '='));
                        },
                        Some((a, b)) => {
                            let name = text::trim_of(a);
                            let all = table::put(less, name, Json::Text(b));
                            table::put_keeps_order(less, name, Json::Text(b));
                            table::put_then_lookup(less, name, Json::Text(b), key);
                            assert(line == a + seq!['='] + b);
                            assert(line[a.len() as int] == '=');
                            assert(texts::occurs(line, '='));
                            assert(assigns(line, name, b));
                            assert forall|w: Seq<char>| #[trigger] assigns(line, key, w) implies key == name
                                && w == b by {
                                let c = choose|c: Seq<char>|
                                    line == #[trigger] (c + seq!['='] + w) && !texts::occurs(c, '=')
                                        && key == text::trim_of(c);
                                estimates::lemma_parts_unique(c, w, a, b, '=');
                            }
                            if name == key {
                                assert(assigns(lines[n - 1], key, b));
                            } else {
                                assert forall|w: Seq<char>| !#[trigger] assigns(lines[n - 1], key, w) by {}
                            }
                        },
                    }
                }
            },
        }
    }
}

/// The variables of an environment are the members of an object, or of the object that a text
/// in braces holds, or what the lines of another text assign; anything else is refused.
pub proof fn environments_are_objects_or_lines(value: Json)
    ensures
        match value {
            Json::Object(list) => profiles::environment_members(value) == Ok::<
                Members,
                ProfileErrorView,
            >(list),
            Json::Text(s) => {
                let t = text::trim_start_of(s);
                if t.len() > 0 && t[0] == '{' {
                    match json::parsed(s) {
                        Some(Json::Object(list)) => profiles::environment_members(value) == Ok::<
                            Members,
                            ProfileErrorView,
                        >(list),
                        _ => profiles::environment_members(value) == Err::<Members, ProfileErrorView>(
                            ProfileErrorView::EnvironmentJson,
                        ),
                    }
                } else {
                    profiles::environment_members(value) == profiles::assignments(
                        text::lines_of(s),
                        text::lines_of(s).len(),
                    )
                }
            },
            _ => profiles::environment_members(value) == Err::<Members, ProfileErrorView>(
                ProfileErrorView::EnvironmentKind,
            ),
        },
{
}

} // verus!
