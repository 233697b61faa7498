//! Laws of what the scheduler offers and of what it loads together.
use vstd::prelude::*;

use crate::config::ConfigView;
use crate::json;
use crate::json::Json;
use crate::laws::texts;
use crate::models::ModelView;
use crate::process;
use crate::profiles;
use crate::profiles::{Members, ProfileErrorView, ProfilesView};
use crate::scheduler;
use crate::swap;
use crate::swap::{GroupView, PlannedView, SwapView};
use crate::table;
use crate::text;

verus! {

/// Whether an offer is that of a model under its own name: its file, and the profile that is
/// bound to it with the changes of the binding, the variables of that profile and the
/// arguments of the settings and the profile.
pub open spec fn offers_model(
    c: ConfigView,
    p: ProfilesView,
    known: Option<Seq<Seq<char>>>,
    m: ModelView,
    o: PlannedView,
) -> bool {
    &&& o.entry.id == m.id
    &&& o.entry.physical == m.id
    &&& o.entry.path == m.path
    &&& o.entry.estimate == 0
    &&& match profiles::binding_of(p, m.id, m.relative) {
        Ok(None) => {
            &&& o.entry.profile is None
            &&& o.entry.overrides.len() == 0
            &&& o.entry.environment.len() == 0
            &&& o.args == process::common_args_of(c)
        },
        Ok(Some((name, changes))) => {
            &&& o.entry.profile == Some(name)
            &&& o.entry.overrides == changes
            &&& profiles::environment_of(p, name) == Ok::<
                Seq<(Seq<char>, Seq<char>)>,
                ProfileErrorView,
            >(o.entry.environment)
            &&& profiles::profile_args(swap::with_overrides(p, name, changes), name, known) matches Ok(
                own,
            )
            &&& o.args == process::common_args_of(c) + own
        },
        Err(_) => false,
    }
}

/// Whether a profile is offered with a model: it belongs to the model and is not hidden.
pub open spec fn goes_with(p: ProfilesView, j: int, m: ModelView) -> bool {
    &&& profiles::owner_of(p, p.profiles[j].0) == Some(m.id)
    &&& table::lookup(p.profiles[j].1, "_hidden"@) != Some(Json::Bool(true))
}

/// Whether an offer is that of a profile: under its name, with the file of the model, its own
/// variables and the arguments of the settings and its own.
pub open spec fn offers_profile(
    c: ConfigView,
    p: ProfilesView,
    known: Option<Seq<Seq<char>>>,
    m: ModelView,
    j: int,
    o: PlannedView,
) -> bool {
    let name = p.profiles[j].0;
    &&& goes_with(p, j, m)
    &&& o.entry.id == name
    &&& o.entry.physical == m.id
    &&& o.entry.path == m.path
    &&& o.entry.estimate == 0
    &&& o.entry.profile == Some(name)
    &&& o.entry.overrides.len() == 0
    &&& profiles::environment_of(p, name) == Ok::<Seq<(Seq<char>, Seq<char>)>, ProfileErrorView>(
        o.entry.environment,
    )
    &&& profiles::profile_args(p, name, known) matches Ok(own)
    &&& o.args == process::common_args_of(c) + own
}

/// Whether an offer comes from a source: a model and -1, or a model and a profile.
pub open spec fn comes_from(
    c: ConfigView,
    p: ProfilesView,
    known: Option<Seq<Seq<char>>>,
    models: Seq<ModelView>,
    source: (int, int),
    o: PlannedView,
) -> bool {
    if source.1 < 0 {
        offers_model(c, p, known, models[source.0], o)
    } else {
        offers_profile(c, p, known, models[source.0], source.1, o)
    }
}

/// Whether a source is one that the settings ask for.
pub open spec fn asked_for(
    c: ConfigView,
    p: ProfilesView,
    models: Seq<ModelView>,
    source: (int, int),
) -> bool {
    &&& 0 <= source.0 < models.len()
    &&& -1 <= source.1 < p.profiles.len()
    &&& source.1 < 0 ==> c.advertise_base_models
    &&& source.1 >= 0 ==> c.advertise_profiles && goes_with(p, source.1, models[source.0])
}

/// Whether sources stand in the order of the models, each before its profiles in their order.
pub open spec fn in_turn(a: (int, int), b: (int, int)) -> bool {
    a.0 < b.0 || (a.0 == b.0 && a.1 < b.1)
}

spec fn profile_sources(
    c: ConfigView,
    p: ProfilesView,
    known: Option<Seq<Seq<char>>>,
    m: ModelView,
    n: nat,
    list: Seq<PlannedView>,
    at: Seq<int>,
) -> bool {
    &&& at.len() == list.len()
    &&& forall|k: int|
        0 <= k < at.len() ==> 0 <= #[trigger] at[k] < n && offers_profile(c, p, known, m, at[k], list[k])
    &&& forall|k: int, l: int| 0 <= k < l < at.len() ==> #[trigger] at[k] < #[trigger] at[l]
    &&& forall|j: int| 0 <= j < n && #[trigger] goes_with(p, j, m) ==> at.contains(j)
}

proof fn lemma_profile_sources(
    c: ConfigView,
    p: ProfilesView,
    known: Option<Seq<Seq<char>>>,
    m: ModelView,
    n: nat,
) -> (at: Seq<int>)
    requires
        n <= p.profiles.len(),
        swap::profile_entries(c, p, known, m, n) is Ok,
    ensures
        profile_sources(
            c,
            p,
            known,
            m,
            n,
            swap::profile_entries(c, p, known, m, n)->Ok_0,
            at,
        ),
    decreases n,
{
    if n == 0 {
        seq![]
    } else {
        let before = lemma_profile_sources(c, p, known, m, (n - 1) as nat);
        let less = swap::profile_entries(c, p, known, m, (n - 1) as nat)->Ok_0;
        let list = swap::profile_entries(c, p, known, m, n)->Ok_0;
        if goes_with(p, n - 1, m) {
            let at = before.push(n - 1);
            assert(offers_profile(c, p, known, m, n - 1, list[less.len() as int]));
            assert forall|k: int| 0 <= k < at.len() implies 0 <= #[trigger] at[k] < n
                && offers_profile(c, p, known, m, at[k], list[k]) by {
                if k < before.len() {
                    assert(at[k] == before[k]);
                    assert(list[k] == less[k]);
                }
            }
            assert forall|j: int| 0 <= j < n && #[trigger] goes_with(p, j, m) implies at.contains(j) by {
                if j < n - 1 {
                    assert(before.contains(j));
                    let k = choose|k: int| 0 <= k < before.len() && before[k] == j;
                    assert(at[k] == j);
                } else {
                    assert(at[before.len() as int] == j);
                }
            }
            at
        } else {
            before
        }
    }
}

spec fn sources(
    c: ConfigView,
    p: ProfilesView,
    known: Option<Seq<Seq<char>>>,
    models: Seq<ModelView>,
    n: int,
    list: Seq<PlannedView>,
    from: Seq<(int, int)>,
) -> bool {
    &&& from.len() == list.len()
    &&& forall|k: int|
        0 <= k < from.len() ==> asked_for(c, p, models, #[trigger] from[k]) && from[k].0 < n
            && comes_from(c, p, known, models, from[k], list[k])
    &&& forall|k: int, l: int|
        0 <= k < l < from.len() ==> in_turn(#[trigger] from[k], #[trigger] from[l])
    &&& forall|s: (int, int)| #[trigger]
        asked_for(c, p, models, s) && s.0 < n ==> from.contains(s)
}

proof fn lemma_sources(
    c: ConfigView,
    p: ProfilesView,
    known: Option<Seq<Seq<char>>>,
    models: Seq<ModelView>,
    n: nat,
) -> (from: Seq<(int, int)>)
    requires
        n <= models.len(),
        swap::entries_for(c, p, known, models, n) is Ok,
    ensures
        sources(
            c,
            p,
            known,
            models,
            n as int,
            swap::entries_for(c, p, known, models, n)->Ok_0,
            from,
        ),
    decreases n,
{
    if n == 0 {
        seq![]
    } else {
        let before = lemma_sources(c, p, known, models, (n - 1) as nat);
        let less = swap::entries_for(c, p, known, models, (n - 1) as nat)->Ok_0;
        let list = swap::entries_for(c, p, known, models, n)->Ok_0;
        let m = models[n - 1];
        let i = n - 1;
        let more = swap::model_entries(c, p, known, m)->Ok_0;
        let own = if c.advertise_profiles {
            swap::profile_entries(c, p, known, m, p.profiles.len())->Ok_0
        } else {
            seq![]
        };
        let at = if c.advertise_profiles {
            lemma_profile_sources(c, p, known, m, p.profiles.len())
        } else {
            seq![]
        };
        let first: Seq<(int, int)> = if c.advertise_base_models {
            seq![(i, -1)]
        } else {
            seq![]
        };
        let tail = Seq::new(at.len(), |k: int| (i, at[k]));
        let from = before + first + tail;
        let base = if c.advertise_base_models {
            seq![swap::base_entry(c, p, known, m)->Ok_0]
        } else {
            seq![]
        };
        assert(more =~= base + own);
        assert(list =~= less + base + own);
        assert forall|k: int| 0 <= k < from.len() implies asked_for(c, p, models, #[trigger] from[k])
            && from[k].0 < n && comes_from(c, p, known, models, from[k], list[k]) by {
            if k < before.len() {
                assert(from[k] == before[k]);
                assert(list[k] == less[k]);
            } else if k < before.len() + first.len() {
                assert(from[k] == (i, -1int));
                assert(list[k] == base[0]);
            } else {
                let q = k - before.len() - first.len();
                assert(from[k] == tail[q]);
                assert(0 <= at[q] < p.profiles.len());
                assert(list[k] == own[q]);
            }
        }
        assert forall|k: int, l: int| 0 <= k < l < from.len() implies in_turn(
            #[trigger] from[k],
            #[trigger] from[l],
        ) by {
            if l < before.len() {
                assert(in_turn(before[k], before[l]));
            } else if k < before.len() {
                assert(before[k].0 < n - 1);
            } else if k >= before.len() + first.len() {
                let q = k - before.len() - first.len();
                let r = l - before.len() - first.len();
                assert(from[k] == tail[q] && from[l] == tail[r]);
                assert(at[q] < at[r]);
            } else {
                let r = l - before.len() - first.len();
                assert(from[l] == tail[r]);
                assert(0 <= at[r]);
            }
        }
        assert forall|s: (int, int)| #[trigger] asked_for(c, p, models, s) && s.0 < n implies from.contains(
            s,
        ) by {
            if s.0 < n - 1 {
                assert(before.contains(s));
                let k = choose|k: int| 0 <= k < before.len() && before[k] == s;
                assert(from[k] == s);
            } else if s.1 < 0 {
                assert(from[before.len() as int] == s);
            } else {
                assert(goes_with(p, s.1, m));
                assert(at.contains(s.1));
                let q = choose|q: int| 0 <= q < at.len() && at[q] == s.1;
                assert(tail[q] == s);
                assert(from[before.len() + first.len() + q] == s);
            }
        }
        from
    }
}

/// Every model is offered under its own name, where the settings ask for it, and with each of
/// its profiles that is not hidden, where they ask for those: in the order of the models, each
/// once, and nothing else.
pub proof fn every_model_and_profile_is_offered(
    c: ConfigView,
    p: ProfilesView,
    known: Option<Seq<Seq<char>>>,
    models: Seq<ModelView>,
) -> (from: Seq<(int, int)>)
    requires
        swap::entries_for(c, p, known, models, models.len()) is Ok,
    ensures
        ({
            let list = swap::entries_for(c, p, known, models, models.len())->Ok_0;
            &&& from.len() == list.len()
            &&& forall|k: int|
                0 <= k < from.len() ==> asked_for(c, p, models, #[trigger] from[k]) && comes_from(
                    c,
                    p,
                    known,
                    models,
                    from[k],
                    list[k],
                )
            &&& forall|k: int, l: int|
                0 <= k < l < from.len() ==> in_turn(#[trigger] from[k], #[trigger] from[l])
            &&& forall|s: (int, int)| #[trigger] asked_for(c, p, models, s) ==> from.contains(s)
        }),
{
    lemma_sources(c, p, known, models, models.len())
}

/// Under each name that was planned one entry stands, one of those with that name. It has a
/// profile where one of them has; and no later one of them has, unless it has none itself,
/// in which case it is the last.
pub proof fn one_entry_stands_under_each_name(entries: Seq<SwapView>, n: nat, id: Seq<char>)
    requires
        n <= entries.len(),
    ensures
        table::ordered(swap::by_name(entries, n)),
        match table::lookup(swap::by_name(entries, n), id) {
            Some(e) => e.id == id && exists|i: int|
                0 <= i < n && #[trigger] entries[i] == e && {
                    &&& forall|j: int|
                        i < j < n && (#[trigger] entries[j]).id == id ==> e.profile is Some
                            && entries[j].profile is None
                    &&& e.profile is None ==> forall|j: int|
                        0 <= j < n && (#[trigger] entries[j]).id == id ==> entries[j].profile is None
                },
            None => forall|j: int| 0 <= j < n ==> (#[trigger] entries[j]).id != id,
        },
    decreases n,
{
    if n > 0 {
        one_entry_stands_under_each_name(entries, (n - 1) as nat, id);
        let earlier = swap::by_name(entries, (n - 1) as nat);
        let e = entries[n - 1];
        table::put_keeps_order(earlier, e.id, e);
        table::put_then_lookup(earlier, e.id, e, id);
        if e.id == id {
            assert(entries[n - 1] == e);
        }
    }
}

/// Every entry for a profile is offered under the model's name and its own as well, in the same
/// order, and no others are.
pub proof fn profiles_are_offered_with_their_model(entries: Seq<SwapView>, n: nat) -> (at: Seq<int>)
    requires
        n <= entries.len(),
    ensures
        texts::chosen(
            entries.take(n as int),
            |e: SwapView| e.profile is Some && e.id != e.physical,
            at,
        ),
        swap::qualified(entries, n).len() == at.len(),
        forall|k: int|
            0 <= k < at.len() ==> swap::qualified(entries, n)[k] == (SwapView {
                id: entries[#[trigger] at[k]].physical + seq!['@'] + entries[at[k]].id,
                ..entries[at[k]]
            }),
    decreases n,
{
    let meant = |e: SwapView| e.profile is Some && e.id != e.physical;
    reveal_strlit("@");
    assert("@"@ =~= seq!['@']);
    if n == 0 {
        seq![]
    } else {
        let before = profiles_are_offered_with_their_model(entries, (n - 1) as nat);
        let earlier = swap::qualified(entries, (n - 1) as nat);
        let all = swap::qualified(entries, n);
        texts::lemma_chosen(entries, n - 1, meant, before);
        if meant(entries[n - 1]) {
            let at = before.push(n - 1);
            assert forall|k: int| 0 <= k < at.len() implies all[k] == (SwapView {
                id: entries[#[trigger] at[k]].physical + seq!['@'] + entries[at[k]].id,
                ..entries[at[k]]
            }) by {
                if k < before.len() {
                    assert(at[k] == before[k]);
                    assert(all[k] == earlier[k]);
                }
            }
            at
        } else {
            before
        }
    }
}

/// Whether a group is that of the entries that run one file: their places in order, and the
/// most that one of them is estimated to take.
pub open spec fn group_of(entries: Seq<SwapView>, n: int, physical: Seq<char>, g: GroupView) -> bool {
    &&& g.variants.len() > 0
    &&& forall|k: int|
        0 <= k < g.variants.len() ==> (#[trigger] g.variants[k]) < n
            && entries[g.variants[k] as int].physical == physical
            && entries[g.variants[k] as int].estimate <= g.estimate
    &&& forall|k: int, l: int|
        0 <= k < l < g.variants.len() ==> #[trigger] g.variants[k] < #[trigger] g.variants[l]
    &&& forall|i: int|
        0 <= i < n && (#[trigger] entries[i]).physical == physical ==> g.variants.contains(
            i as usize,
        )
    &&& exists|i: int|
        0 <= i < n && (#[trigger] entries[i]).physical == physical && entries[i].estimate
            == g.estimate
}

/// The entries are grouped by the file that they run: every file that one of them runs has a
/// group, in the order of the files, and no other has.
pub proof fn entries_are_grouped_by_file(entries: Seq<SwapView>, n: nat, physical: Seq<char>)
    requires
        n <= entries.len(),
        entries.len() <= usize::MAX,
    ensures
        table::ordered(swap::grouped(entries, n)),
        match table::lookup(swap::grouped(entries, n), physical) {
            Some(g) => group_of(entries, n as int, physical, g),
            None => forall|i: int| 0 <= i < n ==> (#[trigger] entries[i]).physical != physical,
        },
    decreases n,
{
    if n > 0 {
        entries_are_grouped_by_file(entries, (n - 1) as nat, physical);
        let earlier = swap::grouped(entries, (n - 1) as nat);
        let e = entries[n - 1];
        let old = table::lookup(earlier, e.physical);
        let g = match old {
            Some(g) => g,
            None => GroupView { estimate: e.estimate, variants: seq![] },
        };
        let new = GroupView {
            estimate: if e.estimate > g.estimate {
                e.estimate
            } else {
                g.estimate
            },
            variants: g.variants.push((n - 1) as usize),
        };
        table::put_keeps_order(earlier, e.physical, new);
        table::put_then_lookup(earlier, e.physical, new, physical);
        if e.physical == physical {
            assert(new.variants[g.variants.len() as int] == (n - 1) as usize);
            assert forall|i: int| 0 <= i < n && (#[trigger] entries[i]).physical == physical implies new.variants.contains(
                i as usize,
            ) by {
                if i < n - 1 {
                    assert(g.variants.contains(i as usize));
                    let k = choose|k: int| 0 <= k < g.variants.len() && g.variants[k] == i as usize;
                    assert(new.variants[k] == i as usize);
                }
            }
            assert forall|k: int| 0 <= k < new.variants.len() implies (#[trigger] new.variants[k]) < n
                && entries[new.variants[k] as int].physical == physical
                && entries[new.variants[k] as int].estimate <= new.estimate by {
                if k < g.variants.len() {
                    assert(new.variants[k] == g.variants[k]);
                }
            }
            if e.estimate > g.estimate || old is None {
                assert(entries[n - 1].estimate == new.estimate);
            } else {
                let i = choose|i: int|
                    0 <= i < n - 1 && (#[trigger] entries[i]).physical == physical
                        && entries[i].estimate == g.estimate;
                assert(entries[i].estimate == new.estimate);
            }
            assert(group_of(entries, n as int, physical, new));
        } else {
            match table::lookup(earlier, physical) {
                Some(h) => {
                    assert(group_of(entries, n - 1, physical, h));
                    let i = choose|i: int|
                        0 <= i < n - 1 && (#[trigger] entries[i]).physical == physical
                            && entries[i].estimate == h.estimate;
                    assert(entries[i].estimate == h.estimate);
                    assert forall|i: int| 0 <= i < n && (#[trigger] entries[i]).physical == physical implies h.variants.contains(
                        i as usize,
                    ) by {}
                    assert(group_of(entries, n as int, physical, h));
                },
                None => {},
            }
        }
    }
}

/// What it costs to unload a model are its whole thousand millions of bytes, at least one.
pub proof fn costs_are_whole_gigabytes(estimate: u64)
    ensures
        ({
            let cost = swap::cost_of(estimate);
            &&& cost >= 1
            &&& estimate < (cost + 1) * 1_000_000_000
            &&& cost * 1_000_000_000 <= estimate || (cost == 1 && estimate < 1_000_000_000)
        }),
{
}

/// The sum of the sizes at some places.
pub open spec fn together(estimates: Seq<u64>, set: Seq<usize>) -> int {
    texts::sum(Seq::new(set.len(), |i: int| estimates[set[i] as int] as int))
}

proof fn lemma_together(estimates: Seq<u64>, set: Seq<usize>)
    ensures
        scheduler::sum_at(estimates, set) == together(estimates, set),
    decreases set.len(),
{
    let list = Seq::new(set.len(), |i: int| estimates[set[i] as int] as int);
    if set.len() > 0 {
        let less = set.drop_last();
        let part = Seq::new(less.len(), |i: int| estimates[less[i] as int] as int);
        lemma_together(estimates, less);
        let last = estimates[set.last() as int] as int;
        texts::lemma_sum_push(part, last);
        assert(list =~= part.push(last));
    }
}

/// Sets that are loaded together hold at least two models, no more than may be loaded, each
/// once; they fit into the budget, which is less than the largest number, and no model that is
/// not in one would fit as well, unless the set is full.
pub proof fn sets_fit_and_are_full(
    estimates: Seq<u64>,
    budget: u64,
    max: nat,
    sets: Seq<Seq<usize>>,
    k: int,
    other: int,
)
    requires
        scheduler::are_maximal(estimates, budget, max, sets),
        budget < u64::MAX,
        0 <= k < sets.len(),
    ensures
        ({
            let set = sets[k];
            &&& 2 <= set.len() <= max
            &&& set.len() <= estimates.len()
            &&& forall|i: int| 0 <= i < set.len() ==> (#[trigger] set[i]) < estimates.len()
            &&& forall|i: int, j: int| 0 <= i < j < set.len() ==> #[trigger] set[i] < #[trigger] set[j]
            &&& together(estimates, set) <= budget
            &&& 0 <= other < estimates.len() && !set.contains(other as usize) && set.len() < max
                && set.len() < estimates.len() ==> together(estimates, set) + estimates[other] > budget
        }),
{
    let set = sets[k];
    lemma_together(estimates, set);
    assert(scheduler::maximal(
        estimates,
        budget,
        if max < estimates.len() {
            max
        } else {
            estimates.len()
        },
        set,
    ));
}

proof fn lemma_sum_insert(list: Seq<int>, at: int, n: int)
    requires
        0 <= at <= list.len(),
    ensures
        texts::sum(list.insert(at, n)) == texts::sum(list) + n,
    decreases at,
{
    let all = list.insert(at, n);
    if at == 0 {
        assert(all.skip(1) =~= list);
        assert(all[0] == n);
    } else {
        assert(all.skip(1) =~= list.skip(1).insert(at - 1, n));
        lemma_sum_insert(list.skip(1), at - 1, n);
        assert(all[0] == list[0]);
    }
}

/// Where a place that is not in a rising list belongs in it.
proof fn lemma_gap(set: Seq<usize>, place: usize) -> (at: int)
    requires
        forall|i: int, j: int| 0 <= i < j < set.len() ==> #[trigger] set[i] < #[trigger] set[j],
        !set.contains(place),
    ensures
        0 <= at <= set.len(),
        forall|i: int| 0 <= i < at ==> (#[trigger] set[i]) < place,
        forall|i: int| at <= i < set.len() ==> (#[trigger] set[i]) > place,
    decreases set.len(),
{
    if set.len() == 0 {
        0
    } else {
        let less = set.drop_last();
        if set.last() < place {
            assert forall|i: int| 0 <= i < set.len() implies (#[trigger] set[i]) < place by {
                if i < set.len() - 1 {
                    assert(set[i] < set[set.len() - 1]);
                }
            }
            set.len() as int
        } else {
            assert(set[set.len() - 1] != place);
            assert(!less.contains(place)) by {
                if less.contains(place) {
                    let i = choose|i: int| 0 <= i < less.len() && less[i] == place;
                    assert(set[i] == place);
                }
            }
            assert forall|i: int, j: int| 0 <= i < j < less.len() implies #[trigger] less[i]
                < #[trigger] less[j] by {
                assert(set[i] < set[j]);
            }
            let at = lemma_gap(less, place);
            assert forall|i: int| 0 <= i < at implies (#[trigger] set[i]) < place by {
                assert(less[i] < place);
            }
            assert forall|i: int| at <= i < set.len() implies (#[trigger] set[i]) > place by {
                if i < set.len() - 1 {
                    assert(less[i] > place);
                }
            }
            at
        }
    }
}

proof fn lemma_rising_len(set: Seq<usize>, n: int)
    requires
        n >= 0,
        forall|i: int| 0 <= i < set.len() ==> (#[trigger] set[i]) < n,
        forall|i: int, j: int| 0 <= i < j < set.len() ==> #[trigger] set[i] < #[trigger] set[j],
    ensures
        set.len() <= n,
    decreases set.len(),
{
    if set.len() > 0 {
        let less = set.drop_last();
        let last = set[set.len() - 1] as int;
        assert forall|i: int| 0 <= i < less.len() implies (#[trigger] less[i]) < last by {
            assert(set[i] < set[set.len() - 1]);
        }
        assert forall|i: int, j: int| 0 <= i < j < less.len() implies #[trigger] less[i]
            < #[trigger] less[j] by {
            assert(set[i] < set[j]);
        }
        lemma_rising_len(less, last);
    }
}

/// Models that fit into the budget together, at least two and no more than may be loaded, may
/// be loaded together: one of the sets holds them all. The budget is less than the largest
/// number.
pub proof fn whatever_fits_may_be_loaded(
    estimates: Seq<u64>,
    budget: u64,
    max: nat,
    sets: Seq<Seq<usize>>,
    wanted: Seq<usize>,
) -> (k: int)
    requires
        scheduler::are_maximal(estimates, budget, max, sets),
        budget < u64::MAX,
        estimates.len() <= usize::MAX,
        2 <= wanted.len() <= max,
        forall|i: int| 0 <= i < wanted.len() ==> (#[trigger] wanted[i]) < estimates.len(),
        forall|i: int, j: int|
            0 <= i < j < wanted.len() ==> #[trigger] wanted[i] < #[trigger] wanted[j],
        together(estimates, wanted) <= budget,
    ensures
        0 <= k < sets.len(),
        forall|i: int| 0 <= i < wanted.len() ==> sets[k].contains(#[trigger] wanted[i]),
    decreases estimates.len() - wanted.len(),
{
    let limit = if max < estimates.len() {
        max
    } else {
        estimates.len()
    };
    lemma_together(estimates, wanted);
    lemma_rising_len(wanted, estimates.len() as int);
    if scheduler::extensible(estimates, budget, limit, wanted) {
        let p = choose|p: int|
            #![trigger estimates[p]]
            0 <= p < estimates.len() && !wanted.contains(p as usize) && scheduler::counted(
                scheduler::sum_at(estimates, wanted) + estimates[p] as nat,
            ) <= budget;
        let at = lemma_gap(wanted, p as usize);
        let more = wanted.insert(at, p as usize);
        let old = Seq::new(wanted.len(), |i: int| estimates[wanted[i] as int] as int);
        let new = Seq::new(more.len(), |i: int| estimates[more[i] as int] as int);
        assert(new =~= old.insert(at, estimates[p] as int));
        lemma_sum_insert(old, at, estimates[p] as int);
        assert forall|i: int| 0 <= i < more.len() implies (#[trigger] more[i]) < estimates.len() by {
            if i < at {
                assert(more[i] == wanted[i]);
            } else if i > at {
                assert(more[i] == wanted[i - 1]);
            }
        }
        assert forall|i: int, j: int| 0 <= i < j < more.len() implies #[trigger] more[i]
            < #[trigger] more[j] by {
            let a = if i < at { i } else { i - 1 };
            let b = if j < at { j } else { j - 1 };
            if i != at && j != at {
                assert(more[i] == wanted[a] && more[j] == wanted[b]);
                assert(wanted[a] < wanted[b]);
            } else if i == at {
                assert(more[j] == wanted[b]);
            } else {
                assert(more[i] == wanted[a]);
            }
        }
        let k = whatever_fits_may_be_loaded(estimates, budget, max, sets, more);
        assert forall|i: int| 0 <= i < wanted.len() implies sets[k].contains(#[trigger] wanted[i]) by {
            if i < at {
                assert(more[i] == wanted[i]);
            } else {
                assert(more[i + 1] == wanted[i]);
            }
        }
        k
    } else {
        assert(scheduler::maximal(estimates, budget, limit, wanted));
        assert(sets.contains(wanted));
        let k = choose|k: int| 0 <= k < sets.len() && sets[k] == wanted;
        assert forall|i: int| 0 <= i < wanted.len() implies sets[k].contains(#[trigger] wanted[i]) by {}
        k
    }
}

/// Whether a name of the matrix is that of an entry in it: the letter `m` and the place of the
/// last entry with the same name.
pub open spec fn names_entry(
    entries: Seq<SwapView>,
    matrix: Seq<usize>,
    k: int,
    name: Seq<char>,
) -> bool {
    exists|j: int|
        k <= j < matrix.len() && #[trigger] entries[matrix[j] as int].id == entries[matrix[k] as int].id
            && (forall|l: int|
            j < l < matrix.len() ==> #[trigger] entries[matrix[l] as int].id
                != entries[matrix[k] as int].id) && name == seq!['m'] + text::decimal_of(j as nat)
}

proof fn lemma_last(entries: Seq<SwapView>, matrix: Seq<usize>, n: nat, k: int)
    requires
        0 <= k < n <= matrix.len(),
    ensures
        ({
            let id = entries[matrix[k] as int].id;
            let j = swap::last_with(entries, matrix, n, id);
            &&& k <= j < n
            &&& entries[matrix[j] as int].id == id
            &&& forall|l: int| j < l < n ==> #[trigger] entries[matrix[l] as int].id != id
        }),
    decreases n,
{
    let id = entries[matrix[k] as int].id;
    if entries[matrix[n - 1] as int].id != id {
        assert(k < n - 1);
        lemma_last(entries, matrix, (n - 1) as nat, k);
    }
}

/// The name of an entry in the matrix, as it is written.
proof fn lemma_variable(entries: Seq<SwapView>, matrix: Seq<usize>, k: int)
    requires
        0 <= k < matrix.len(),
    ensures
        names_entry(
            entries,
            matrix,
            k,
            swap::variable_of(entries, matrix, entries[matrix[k] as int].id),
        ),
{
    lemma_last(entries, matrix, matrix.len(), k);
    reveal_strlit("m");
    assert("m"@ =~= seq!['m']);
    let id = entries[matrix[k] as int].id;
    let j = swap::last_with(entries, matrix, matrix.len(), id);
    assert(entries[matrix[j] as int].id == id);
}

/// Entries of the matrix have the same name in it exactly where they are offered under the same
/// name.
pub proof fn matrix_names_tell_entries_apart(
    entries: Seq<SwapView>,
    matrix: Seq<usize>,
    k: int,
    l: int,
)
    requires
        0 <= k < matrix.len(),
        0 <= l < matrix.len(),
    ensures
        ({
            let a = entries[matrix[k] as int].id;
            let b = entries[matrix[l] as int].id;
            swap::variable_of(entries, matrix, a) == swap::variable_of(entries, matrix, b) <==> a == b
        }),
{
    let a = entries[matrix[k] as int].id;
    let b = entries[matrix[l] as int].id;
    lemma_last(entries, matrix, matrix.len(), k);
    lemma_last(entries, matrix, matrix.len(), l);
    let i = swap::last_with(entries, matrix, matrix.len(), a);
    let j = swap::last_with(entries, matrix, matrix.len(), b);
    let s = text::decimal_of(i as nat);
    let t = text::decimal_of(j as nat);
    texts::decimals_are_worth_their_number(i as nat);
    texts::decimals_are_worth_their_number(j as nat);
    let m = "m"@;
    if m + s == m + t {
        assert(s =~= (m + s).skip(m.len() as int));
        assert(t =~= (m + t).skip(m.len() as int));
    }
}

/// Whether places are those of the entries in the groups that stand in some set, one group
/// behind the other.
proof fn lemma_matrix(groups: Seq<(Seq<char>, GroupView)>, sets: Seq<Seq<usize>>, n: nat, i: usize)
    requires
        n <= groups.len(),
    ensures
        swap::matrix_entries(groups, sets, n).contains(i) <==> exists|g: int|
            0 <= g < n && (#[trigger] groups[g]).1.variants.contains(i) && swap::participates(sets, g),
    decreases n,
{
    if n > 0 {
        lemma_matrix(groups, sets, (n - 1) as nat, i);
        let less = swap::matrix_entries(groups, sets, (n - 1) as nat);
        let more = groups[n - 1].1.variants;
        let all = swap::matrix_entries(groups, sets, n);
        if swap::participates(sets, n - 1) {
            if all.contains(i) {
                let k = choose|k: int| 0 <= k < all.len() && all[k] == i;
                if k < less.len() {
                    assert(less[k] == i);
                } else {
                    assert(more[k - less.len()] == i);
                    assert(groups[n - 1].1.variants.contains(i));
                }
            }
            if less.contains(i) {
                let k = choose|k: int| 0 <= k < less.len() && less[k] == i;
                assert(all[k] == i);
            }
            if more.contains(i) {
                let k = choose|k: int| 0 <= k < more.len() && more[k] == i;
                assert(all[less.len() + k] == i);
            }
        }
    }
}

/// An entry stands in the matrix exactly where its group stands in one of the sets.
pub proof fn the_matrix_holds_what_is_loaded_together(
    groups: Seq<(Seq<char>, GroupView)>,
    sets: Seq<Seq<usize>>,
    i: usize,
)
    ensures
        swap::matrix_entries(groups, sets, groups.len()).contains(i) <==> exists|g: int, k: int, l: int|
            0 <= g < groups.len() && 0 <= k < sets.len() && 0 <= l < sets[k].len()
                && #[trigger] sets[k][l] == g as usize && (#[trigger] groups[g]).1.variants.contains(
                i,
            ),
{
    lemma_matrix(groups, sets, groups.len(), i);
    let matrix = swap::matrix_entries(groups, sets, groups.len());
    if matrix.contains(i) {
        let g = choose|g: int|
            0 <= g < groups.len() && (#[trigger] groups[g]).1.variants.contains(i)
                && swap::participates(sets, g);
        let k = choose|k: int| 0 <= k < sets.len() && (#[trigger] sets[k]).contains(g as usize);
        let l = choose|l: int| 0 <= l < sets[k].len() && sets[k][l] == g as usize;
        assert(sets[k][l] == g as usize && groups[g].1.variants.contains(i));
    }
    if exists|g: int, k: int, l: int|
        0 <= g < groups.len() && 0 <= k < sets.len() && 0 <= l < sets[k].len()
            && #[trigger] sets[k][l] == g as usize && (#[trigger] groups[g]).1.variants.contains(i) {
        let (g, k, l) = choose|g: int, k: int, l: int|
            0 <= g < groups.len() && 0 <= k < sets.len() && 0 <= l < sets[k].len()
                && #[trigger] sets[k][l] == g as usize && (#[trigger] groups[g]).1.variants.contains(
                i,
            );
        assert(sets[k].contains(g as usize));
        assert(swap::participates(sets, g));
    }
}

/// The lines that give each entry of the matrix its name.
pub open spec fn name_lines(entries: Seq<SwapView>, matrix: Seq<usize>, n: nat) -> Seq<Seq<char>> {
    Seq::new(
        n,
        |k: int|
            "    "@ + swap::variable_of(entries, matrix, entries[matrix[k] as int].id) + ": "@
                + json::quoted(entries[matrix[k] as int].id),
    )
}

/// The lines that say what it costs to unload each.
pub open spec fn price_lines(entries: Seq<SwapView>, matrix: Seq<usize>, n: nat) -> Seq<Seq<char>> {
    Seq::new(
        n,
        |k: int|
            "    "@ + swap::variable_of(entries, matrix, entries[matrix[k] as int].id) + ": "@
                + text::decimal_of(swap::cost_of(entries[matrix[k] as int].estimate)),
    )
}

/// The lines that list the sets: one of the entries of each group in them.
pub open spec fn fit_lines(
    entries: Seq<SwapView>,
    groups: Seq<(Seq<char>, GroupView)>,
    matrix: Seq<usize>,
    sets: Seq<Seq<usize>>,
    n: nat,
) -> Seq<Seq<char>> {
    Seq::new(
        n,
        |k: int|
            "    fit"@ + text::decimal_of(k as nat) + ": "@ + json::quoted(
                text::joined(
                    Seq::new(
                        sets[k].len(),
                        |i: int| swap::choice_of(
                            entries,
                            matrix,
                            groups[sets[k][i] as int].1.variants,
                        ),
                    ),
                    " & "@,
                ),
            ),
    )
}

proof fn lemma_lines(entries: Seq<SwapView>, matrix: Seq<usize>, n: nat)
    ensures
        swap::variable_lines(entries, matrix, n) == texts::spelled(name_lines(entries, matrix, n)),
        swap::cost_lines(entries, matrix, n) == texts::spelled(price_lines(entries, matrix, n)),
    decreases n,
{
    reveal_strlit("\n");
    assert("\n"@ =~= seq!['\n']);
    let names = name_lines(entries, matrix, n);
    let prices = price_lines(entries, matrix, n);
    if n == 0 {
        assert(texts::spelled(names) =~= seq![]);
        assert(texts::spelled(prices) =~= seq![]);
    } else {
        let m = (n - 1) as nat;
        lemma_lines(entries, matrix, m);
        let less = name_lines(entries, matrix, m);
        let cheap = price_lines(entries, matrix, m);
        assert(names =~= less + seq![names[n - 1]]);
        assert(prices =~= cheap + seq![prices[n - 1]]);
        texts::lemma_spelled_parts(less, seq![names[n - 1]]);
        texts::lemma_spelled_parts(cheap, seq![prices[n - 1]]);
        texts::lemma_spelled_one(names[n - 1]);
        texts::lemma_spelled_one(prices[n - 1]);
        assert(swap::variable_lines(entries, matrix, n) =~= texts::spelled(less) + (names[n - 1]
            + seq!['\n']));
        assert(swap::cost_lines(entries, matrix, n) =~= texts::spelled(cheap) + (prices[n - 1]
            + seq!['\n']));
    }
}

proof fn lemma_fits(
    entries: Seq<SwapView>,
    groups: Seq<(Seq<char>, GroupView)>,
    matrix: Seq<usize>,
    sets: Seq<Seq<usize>>,
    n: nat,
)
    ensures
        swap::set_lines(entries, groups, matrix, sets, n) == texts::spelled(
            fit_lines(entries, groups, matrix, sets, n),
        ),
    decreases n,
{
    reveal_strlit("\n");
    assert("\n"@ =~= seq!['\n']);
    let lines = fit_lines(entries, groups, matrix, sets, n);
    if n == 0 {
        assert(texts::spelled(lines) =~= seq![]);
    } else {
        let m = (n - 1) as nat;
        lemma_fits(entries, groups, matrix, sets, m);
        let less = fit_lines(entries, groups, matrix, sets, m);
        let last = lines[n - 1];
        let own = Seq::new(
            sets[n - 1].len(),
            |i: int| swap::choice_of(entries, matrix, groups[sets[n - 1][i] as int].1.variants),
        );
        assert(own =~= swap::choices_of(entries, groups, matrix, sets[n - 1]));
        assert(lines =~= less + seq![last]);
        texts::lemma_spelled_parts(less, seq![last]);
        texts::lemma_spelled_one(last);
        assert(swap::set_lines(entries, groups, matrix, sets, n) =~= texts::spelled(less) + (last
            + seq!['\n']));
    }
}

/// Where some models may be loaded together, the configuration gives every entry that may a
/// name, says what it costs to unload each, and lists every set; else it says nothing.
pub proof fn the_matrix_lists_names_costs_and_sets(
    entries: Seq<SwapView>,
    groups: Seq<(Seq<char>, GroupView)>,
    sets: Seq<Seq<usize>>,
)
    ensures
        ({
            let matrix = swap::matrix_entries(groups, sets, groups.len());
            let s = swap::matrix_of(entries, groups, sets);
            &&& sets.len() == 0 ==> s.len() == 0
            &&& sets.len() > 0 ==> s == texts::spelled(
                seq!["matrix:"@, "  vars:"@] + name_lines(entries, matrix, matrix.len())
                    + seq!["  evict_costs:"@] + price_lines(entries, matrix, matrix.len())
                    + seq!["  sets:"@] + fit_lines(entries, groups, matrix, sets, sets.len()),
            )
            &&& forall|k: int|
                0 <= k < matrix.len() ==> names_entry(
                    entries,
                    matrix,
                    k,
                    swap::variable_of(
                        entries,
                        matrix,
                        #[trigger] entries[matrix[k] as int].id,
                    ),
                )
        }),
{
    let matrix = swap::matrix_entries(groups, sets, groups.len());
    let n = matrix.len();
    assert forall|k: int| 0 <= k < matrix.len() implies names_entry(
        entries,
        matrix,
        k,
        swap::variable_of(entries, matrix, #[trigger] entries[matrix[k] as int].id),
    ) by {
        lemma_variable(entries, matrix, k);
    }
    lemma_lines(entries, matrix, n);
    lemma_fits(entries, groups, matrix, sets, sets.len());
    let names = name_lines(entries, matrix, n);
    let prices = price_lines(entries, matrix, n);
    let fits = fit_lines(entries, groups, matrix, sets, sets.len());
    lemma_headings();
    lemma_sections(
        "matrix:"@,
        "  vars:"@,
        names,
        "  evict_costs:"@,
        prices,
        "  sets:"@,
        fits,
    );
}

proof fn lemma_headings()
    ensures
        "matrix:\n  vars:\n"@ == ("matrix:"@ + seq!['\n']) + ("  vars:"@ + seq!['\n']),
        "  evict_costs:\n"@ == "  evict_costs:"@ + seq!['\n'],
        "  sets:\n"@ == "  sets:"@ + seq!['\n'],
{
    reveal_strlit("matrix:");
    reveal_strlit("  vars:");
    reveal_strlit("  evict_costs:");
    reveal_strlit("  sets:");
    reveal_strlit("matrix:\n  vars:\n");
    reveal_strlit("  evict_costs:\n");
    reveal_strlit("  sets:\n");
    assert("matrix:\n  vars:\n"@ =~= ("matrix:"@ + seq!['\n']) + ("  vars:"@ + seq!['\n']));
    assert("  evict_costs:\n"@ =~= "  evict_costs:"@ + seq!['\n']);
    assert("  sets:\n"@ =~= "  sets:"@ + seq!['\n']);
}

proof fn lemma_sections(
    a: Seq<char>,
    b: Seq<char>,
    names: Seq<Seq<char>>,
    d: Seq<char>,
    prices: Seq<Seq<char>>,
    e: Seq<char>,
    fits: Seq<Seq<char>>,
)
    ensures
        texts::spelled(seq![a, b] + names + seq![d] + prices + seq![e] + fits) == ((a + seq!['\n']) + (
        b + seq!['\n'])) + texts::spelled(names) + (d + seq!['\n']) + texts::spelled(prices) + (e
            + seq!['\n']) + texts::spelled(fits),
{
    assert(seq![a, b] =~= seq![a] + seq![b]);
    texts::lemma_spelled_parts(seq![a, b] + names + seq![d] + prices + seq![e], fits);
    texts::lemma_spelled_parts(seq![a, b] + names + seq![d] + prices, seq![e]);
    texts::lemma_spelled_parts(seq![a, b] + names + seq![d], prices);
    texts::lemma_spelled_parts(seq![a, b] + names, seq![d]);
    texts::lemma_spelled_parts(seq![a, b], names);
    texts::lemma_spelled_parts(seq![a], seq![b]);
    texts::lemma_spelled_one(a);
    texts::lemma_spelled_one(b);
    texts::lemma_spelled_one(d);
    texts::lemma_spelled_one(e);
}

/// Of a group with one entry the set names that one; of another any of its entries may be
/// loaded.
pub proof fn any_entry_of_a_group_may_be_loaded(
    entries: Seq<SwapView>,
    matrix: Seq<usize>,
    variants: Seq<usize>,
)
    ensures
        ({
            let names = Seq::new(
                variants.len(),
                |i: int| swap::variable_of(entries, matrix, entries[variants[i] as int].id),
            );
            let s = swap::choice_of(entries, matrix, variants);
            &&& variants.len() == 1 ==> s == names[0]
            &&& variants.len() != 1 ==> s == seq!['('] + text::joined(names, " | "@) + seq![')']
        }),
{
    let names = Seq::new(
        variants.len(),
        |i: int| swap::variable_of(entries, matrix, entries[variants[i] as int].id),
    );
    assert(names =~= swap::variables_of(entries, matrix, variants));
    reveal_strlit("(");
    reveal_strlit(")");
    assert("("@ =~= seq!['(']);
    assert(")"@ =~= seq![')']);
}

/// The whole configuration is its head, its entries, the sets of models where the scheduler is
/// on and knows the memory, and the pinned models, in this order.
pub proof fn the_configuration_is_complete(
    c: ConfigView,
    body: Seq<char>,
    entries: Seq<SwapView>,
    installed: u64,
    sets: Seq<Seq<usize>>,
    hooks: Seq<char>,
)
    ensures
        ({
            let s = swap::config_of(c, body, entries, installed, sets, hooks);
            let head = swap::head_of(c);
            let matrix = swap::matrix_of(entries, swap::grouped(entries, entries.len()), sets);
            &&& head.is_prefix_of(s)
            &&& hooks.is_suffix_of(s)
            &&& s.skip(head.len() as int).take(body.len() as int) == body
            &&& c.scheduler_enabled && installed > 0 ==> s == head + body + matrix + hooks
            &&& !c.scheduler_enabled || installed == 0 ==> s.len() == head.len() + body.len()
                + hooks.len()
        }),
{
    let s = swap::config_of(c, body, entries, installed, sets, hooks);
    let head = swap::head_of(c);
    assert(head =~= s.take(head.len() as int));
    assert(s.skip(head.len() as int).take(body.len() as int) =~= body);
    assert(hooks =~= s.skip(s.len() - hooks.len()));
}

} // verus!
