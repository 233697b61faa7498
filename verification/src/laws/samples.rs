//! Laws of samples and templates: what is measured between two samples, and which templates stay.
use vstd::prelude::*;

use crate::editor::SettingsView;
use crate::json::Json;
use crate::laws::fields;
use crate::laws::texts;
use crate::profile_editor;
use crate::profiles::ProfilesView;
use crate::table;
use crate::telemetry;
use crate::templates;
use crate::text;

verus! {

/// Progress is what leads from the first sample to the last: the time between them, which is not
/// nothing, and the tokens between them where they did not become fewer.
pub proof fn progress_leads_to_the_last_sample(samples: Seq<(u64, u64, u64)>)
    ensures
        telemetry::progress_of(samples) is Some <==> samples.len() > 0 && samples[0].0
            < samples[samples.len() - 1].0,
        telemetry::progress_of(samples) matches Some((time, read, written)) ==> {
            let a = samples[0];
            let b = samples[samples.len() - 1];
            &&& a.0 + time == b.0
            &&& read is None <==> b.1 < a.1
            &&& read matches Some(n) ==> a.1 + n == b.1
            &&& written is None <==> b.2 < a.2
            &&& written matches Some(n) ==> a.2 + n == b.2
        },
{
}

/// Of a busy slot the last sample is the new one, and the first is at most five seconds old; the
/// samples before it, which are dropped, are older. Of an idle slot no sample is kept.
pub proof fn samples_of_five_seconds_are_kept(
    samples: Seq<(u64, u64, u64)>,
    now: u64,
    prompt: u64,
    decoded: u64,
) -> (cut: int)
    ensures
        telemetry::sampled(samples, false, now, prompt, decoded).len() == 0,
        0 <= cut <= samples.len(),
        ({
            let kept = telemetry::sampled(samples, true, now, prompt, decoded);
            &&& kept == samples.skip(cut).push((now, prompt, decoded))
            &&& now - kept[0].0 <= 5_000_000_000
            &&& forall|i: int| 0 <= i < cut ==> now - (#[trigger] samples[i]).0 > 5_000_000_000
        }),
{
    let all = samples.push((now, prompt, decoded));
    let old_one = telemetry::is_old(now);
    text::lemma_run(all, old_one);
    let cut = text::run(all, old_one) as int;
    assert(all[samples.len() as int] == (now, prompt, decoded));
    assert(!old_one(all[samples.len() as int]));
    if cut > samples.len() {
        assert(old_one(all[samples.len() as int]));
    }
    assert(!old_one(all[cut]));
    assert(all.skip(cut) =~= samples.skip(cut).push((now, prompt, decoded)));
    assert(all.skip(cut)[0] == all[cut]);
    assert forall|i: int| 0 <= i < cut implies now - (#[trigger] samples[i]).0 > 5_000_000_000 by {
        assert(old_one(all[i]));
    }
    cut
}

/// A file is one of a template that is gone where its name is a name and `.jinja`, and no
/// template has that name.
pub proof fn files_of_gone_templates_are_stale(
    list: Seq<(Seq<char>, Seq<char>)>,
    name: Seq<char>,
    file: Seq<char>,
)
    ensures
        templates::is_stale(list, name + ".jinja"@) <==> forall|i: int|
            0 <= i < list.len() ==> (#[trigger] list[i]).0 != name,
        templates::is_stale(list, file) ==> exists|stem: Seq<char>| file == #[trigger] (stem + ".jinja"@),
{
    let end = ".jinja"@;
    let whole = name + end;
    assert(whole.subrange((whole.len() - end.len()) as int, whole.len() as int) =~= end);
    assert(end.is_suffix_of(whole));
    assert forall|i: int| 0 <= i < list.len() implies (templates::file_of((#[trigger] list[i]).0) == whole
        <==> list[i].0 == name) by {
        let other = templates::file_of(list[i].0);
        if other == whole {
            assert(other.take(list[i].0.len() as int) =~= list[i].0);
            assert(whole.take(name.len() as int) =~= name);
            assert(list[i].0.len() == name.len());
        }
    }
    if templates::is_stale(list, file) {
        let stem = file.take(file.len() - end.len());
        assert(end.is_suffix_of(file));
        assert(file =~= stem + end);
    }
}

proof fn lemma_joined_prefix(
    list: Seq<(Seq<char>, Seq<char>)>,
    a: Seq<(Seq<char>, Seq<char>)>,
    b: Seq<(Seq<char>, Seq<char>)>,
    n: nat,
)
    requires
        n <= a.len(),
        n <= b.len(),
        forall|i: int| 0 <= i < n ==> #[trigger] a[i] == b[i],
    ensures
        templates::joined_with(list, a, n) == templates::joined_with(list, b, n),
    decreases n,
{
    if n > 0 {
        lemma_joined_prefix(list, a, b, (n - 1) as nat);
        assert(a[n - 1] == b[n - 1]);
    }
}

proof fn lemma_taken_over(
    list: Seq<(Seq<char>, Seq<char>)>,
    found: Seq<(Seq<char>, Json)>,
    n: nat,
    name: Seq<char>,
)
    requires
        table::ordered(list),
        table::ordered(found),
        n <= found.len(),
    ensures
        ({
            let more = templates::new_ones(list, found, n);
            let all = templates::joined_with(list, more, more.len());
            &&& table::ordered(all)
            &&& table::lookup(all, name) == match table::lookup(list, name) {
                Some(c) => Some(c),
                None => match table::lookup(found.take(n as int), name) {
                    Some(Json::Text(c)) => Some(c),
                    _ => None,
                },
            }
        }),
    decreases n,
{
    if n == 0 {
        texts::the_first_entry_with_a_key_counts(found.take(0), name);
    } else {
        let m = (n - 1) as nat;
        lemma_taken_over(list, found, m, name);
        let less = templates::new_ones(list, found, m);
        let more = templates::new_ones(list, found, n);
        let before = found.take(m as int);
        let upto = found.take(n as int);
        let (key, value) = found[n - 1];
        lemma_joined_prefix(list, more, less, less.len());
        let all = templates::joined_with(list, less, less.len());
        assert(upto =~= before.push((key, value)));
        assert forall|i: int| 0 <= i < m implies (#[trigger] before[i]).0 != key by {
            assert(text::before(found[i].0, found[n - 1].0));
            text::lemma_before_irreflexive(key);
        }
        texts::entries_are_found(upto, m as int);
        texts::the_first_entry_with_a_key_counts(before, name);
        texts::the_first_entry_with_a_key_counts(upto, name);
        if name != key {
            if let Some(v) = table::lookup(before, name) {
                let i = choose|i: int|
                    0 <= i < before.len() && #[trigger] before[i] == (name, v) && forall|j: int|
                        0 <= j < i ==> (#[trigger] before[j]).0 != name;
                assert(upto[i] == (name, v));
                assert forall|j: int| 0 <= j < i implies (#[trigger] upto[j]).0 != upto[i].0 by {
                    assert(upto[j] == before[j]);
                }
                texts::entries_are_found(upto, i);
            } else if let Some(v) = table::lookup(upto, name) {
                let i = choose|i: int|
                    0 <= i < upto.len() && #[trigger] upto[i] == (name, v) && forall|j: int|
                        0 <= j < i ==> (#[trigger] upto[j]).0 != name;
                assert(i < m);
                assert(before[i].0 == name);
            }
        }
        if more.len() > less.len() {
            let c = more[more.len() - 1].1;
            table::put_then_lookup(all, key, c, name);
            table::put_keeps_order(all, key, c);
        }
    }
}

/// Templates that are taken over from an old file do not replace those that are kept: under each
/// name there is the template that was kept, or else the text of the old file.
pub proof fn kept_templates_are_not_replaced(
    list: Seq<(Seq<char>, Seq<char>)>,
    found: Seq<(Seq<char>, Json)>,
    name: Seq<char>,
)
    requires
        table::ordered(list),
        table::ordered(found),
    ensures
        ({
            let more = templates::new_ones(list, found, found.len());
            table::lookup(templates::joined_with(list, more, more.len()), name) == match table::lookup(
                list,
                name,
            ) {
                Some(c) => Some(c),
                None => match table::lookup(found, name) {
                    Some(Json::Text(c)) => Some(c),
                    _ => None,
                },
            }
        }),
{
    lemma_taken_over(list, found, found.len(), name);
    assert(found.take(found.len() as int) =~= found);
}

/// The editor opens a profile that was saved as assigned as assigned, and else not.
pub proof fn assigned_profiles_open_as_assigned(
    p: ProfilesView,
    name: Seq<char>,
    owner: Seq<char>,
    s: SettingsView,
    step: u64,
    setting: u64,
)
    requires
        table::ordered(p.profiles),
        table::ordered(p.models),
    ensures
        profile_editor::saved(p, name, owner, s) matches Some(q) ==> {
            let t = profile_editor::starting_settings(q, name, owner, step, setting);
            t.assign == s.assign && t.context_step == step
        },
{
    fields::settings_are_saved_in_their_profile(p, name, owner, s, name);
}

} // verus!
