//! Laws of reports: what servers, cards and benchmarks tell.
use vstd::prelude::*;

use crate::benchmark;
use crate::json;
use crate::json::Json;
use crate::laws::estimates;
use crate::laws::texts;
use crate::process;
use crate::telemetry;
use crate::telemetry::{ModelState, SlotView};
use crate::text;

verus! {

/// Whether a number is the one under a key of an object, and nought where none stands there.
pub open spec fn number_under(value: Json, key: Seq<char>, n: u64) -> bool {
    match json::member_in(value, key) {
        Some(Json::Unsigned(m)) => n == m,
        _ => n == 0,
    }
}

/// The numbers under a key of some objects.
pub open spec fn numbers_under(list: Seq<Json>, key: Seq<char>) -> Seq<int> {
    Seq::new(list.len(), |i: int| telemetry::number_at(list[i], key) as int)
}

proof fn lemma_decoded(tokens: Seq<Json>, n: nat)
    requires
        n <= tokens.len(),
    ensures
        telemetry::decoded_sum(tokens, n) == texts::sum(
            numbers_under(tokens.take(n as int), "n_decoded"@),
        ),
    decreases n,
{
    if n > 0 {
        lemma_decoded(tokens, (n - 1) as nat);
        let less = numbers_under(tokens.take(n - 1), "n_decoded"@);
        let all = numbers_under(tokens.take(n as int), "n_decoded"@);
        let last = telemetry::number_at(tokens[n - 1], "n_decoded"@) as int;
        texts::lemma_sum_push(less, last);
        assert(all =~= less.push(last));
    } else {
        assert(numbers_under(tokens.take(0), "n_decoded"@) =~= seq![]);
    }
}

/// What is told of a slot stands under its own keys: its number, the tokens of its prompt that
/// are processed, whether it is busy; it has decoded the sum of what its parts have, and its
/// prompt has what is left of all its tokens without those, but no fewer than are processed.
pub proof fn slots_are_read_from_their_own_keys(slot: Json, model: Seq<char>)
    requires
        telemetry::decoded_in(slot) <= u64::MAX,
    ensures
        ({
            let s = telemetry::slot_of(slot, model);
            &&& s.model_name == model
            &&& number_under(slot, "id"@, s.slot_id)
            &&& number_under(slot, "n_prompt_tokens_processed"@, s.prompt_done)
            &&& s.is_processing <==> json::member_in(slot, "is_processing"@) == Some(Json::Bool(true))
            &&& match json::member_in(slot, "next_token"@) {
                Some(Json::Array(parts)) => s.decoded == texts::sum(numbers_under(parts, "n_decoded"@)),
                _ => s.decoded == 0,
            }
            &&& exists|total: u64| #[trigger]
                number_under(slot, "n_prompt_tokens"@, total) && {
                    &&& s.prompt_total >= s.prompt_done
                    &&& s.prompt_total >= total - s.decoded
                    &&& s.prompt_total == s.prompt_done || s.prompt_total == total - s.decoded
                }
        }),
{
    let total = telemetry::number_at(slot, "n_prompt_tokens"@);
    assert(number_under(slot, "n_prompt_tokens"@, total));
    match json::member_in(slot, "next_token"@) {
        Some(Json::Array(parts)) => {
            lemma_decoded(parts, parts.len());
            assert(parts.take(parts.len() as int) =~= parts);
        },
        _ => {},
    }
}

/// A figure of each busy slot, and nought for the idle ones.
pub open spec fn busy_figures(slots: Seq<SlotView>, what: spec_fn(SlotView) -> nat) -> Seq<int> {
    Seq::new(
        slots.len(),
        |i: int|
            if slots[i].is_processing {
                what(slots[i]) as int
            } else {
                0
            },
    )
}

/// What the busy slots do together is the sum over them of what each does.
pub proof fn busy_slots_add_up(slots: Seq<SlotView>, what: spec_fn(SlotView) -> nat, n: nat)
    requires
        n <= slots.len(),
    ensures
        telemetry::busy_sum(slots, what, n) == texts::sum(busy_figures(slots.take(n as int), what)),
    decreases n,
{
    if n > 0 {
        busy_slots_add_up(slots, what, (n - 1) as nat);
        let less = busy_figures(slots.take(n - 1), what);
        let all = busy_figures(slots.take(n as int), what);
        let last = if slots[n - 1].is_processing {
            what(slots[n - 1]) as int
        } else {
            0
        };
        texts::lemma_sum_push(less, last);
        assert(all =~= less.push(last));
    } else {
        assert(busy_figures(slots.take(0), what) =~= seq![]);
    }
}

/// What is counted of the slots are the tokens of their prompts, done and in all, the decoded
/// ones, and one for each.
pub proof fn slots_are_counted_by_their_figures(s: SlotView)
    ensures
        telemetry::done_count()(s) == s.prompt_done,
        telemetry::total_count()(s) == s.prompt_total,
        telemetry::decoded_count()(s) == s.decoded,
        telemetry::one_count()(s) == 1,
{
}

/// Whether a text says that a server is ready, capital letters aside.
pub open spec fn says_ready(item: Json) -> bool {
    json::member_in(item, "state"@) matches Some(Json::Text(s)) && text::lower_of(s) == "ready"@
}

/// Whether a server names its model.
pub open spec fn names_its_model(item: Json) -> bool {
    json::member_in(item, "model"@) matches Some(Json::Text(_))
}

proof fn lemma_member_texts(items: Seq<Json>, n: nat)
    requires
        n <= items.len(),
    ensures
        process::member_texts(items, "model"@, n).len() == 0 <==> forall|i: int|
            0 <= i < n ==> !names_its_model(#[trigger] items[i]),
    decreases n,
{
    if n > 0 {
        lemma_member_texts(items, (n - 1) as nat);
        assert(names_its_model(items[n - 1]) || !names_its_model(items[n - 1]));
    }
}

/// The models are loaded where a server names one and all are ready, loading where one names
/// one and some is not ready, and there is none where none names one.
pub proof fn models_are_loaded_when_all_are_ready(payload: Json, running: Seq<Json>)
    requires
        json::member_in(payload, "running"@) == Some(Json::Array(running)),
    ensures
        ({
            let some = exists|i: int| 0 <= i < running.len() && names_its_model(#[trigger] running[i]);
            let all = forall|i: int| 0 <= i < running.len() ==> says_ready(#[trigger] running[i]);
            &&& telemetry::state_of(payload) == ModelState::Absent <==> !some
            &&& telemetry::state_of(payload) == ModelState::Loaded <==> some && all
            &&& telemetry::state_of(payload) == ModelState::Loading <==> some && !all
        }),
{
    lemma_member_texts(running, running.len());
    let list = telemetry::running_in(payload);
    assert(list == running);
    assert forall|i: int| 0 <= i < running.len() implies (telemetry::is_ready(#[trigger] running[i])
        <==> says_ready(running[i])) by {}
    let all = forall|i: int| 0 <= i < running.len() ==> says_ready(#[trigger] running[i]);
    let ready = forall|i: int| 0 <= i < running.len() ==> telemetry::is_ready(#[trigger] running[i]);
    assert(all == ready) by {
        if all {
            assert forall|i: int| 0 <= i < running.len() implies telemetry::is_ready(
                #[trigger] running[i],
            ) by {
                assert(says_ready(running[i]));
            }
        }
        if ready {
            assert forall|i: int| 0 <= i < running.len() implies says_ready(#[trigger] running[i]) by {
                assert(telemetry::is_ready(running[i]));
            }
        }
    }
}

/// Whether a sample is one of a card.
pub open spec fn of_card(sample: Json, id: u64) -> bool {
    json::member_in(sample, "id"@) == Some(Json::Unsigned(id))
}

/// Of every card the last of its samples is told, and no card without one.
pub proof fn the_last_sample_of_a_card_counts(samples: Seq<Json>, n: nat, id: u64, value: Json)
    requires
        n <= samples.len(),
    ensures
        telemetry::latest_of(samples, n).contains((id, value)) <==> exists|i: int|
            0 <= i < n && #[trigger] samples[i] == value && of_card(value, id) && forall|j: int|
                i < j < n ==> !of_card(#[trigger] samples[j], id),
    decreases n,
{
    let all = telemetry::latest_of(samples, n);
    if n > 0 {
        let less = telemetry::latest_of(samples, (n - 1) as nat);
        let last = samples[n - 1];
        the_last_sample_of_a_card_counts(samples, (n - 1) as nat, id, value);
        telemetry::cards_are_listed_once(samples, (n - 1) as nat);
        match json::member_in(last, "id"@) {
            Some(Json::Unsigned(k)) => {
                lemma_put(less, k, last, id, value);
                if k == id {
                    assert(of_card(samples[n - 1], id));
                    if value == last {
                        assert(samples[n - 1] == value);
                    }
                }
            },
            _ => {
                assert(!of_card(samples[n - 1], id));
            },
        }
    }
}

proof fn lemma_put(list: Seq<(u64, Json)>, k: u64, v: Json, id: u64, value: Json)
    requires
        telemetry::by_number(list),
    ensures
        telemetry::put_numbered(list, k, v).contains((id, value)) <==> if id == k {
            value == v
        } else {
            list.contains((id, value))
        },
{
    let below = telemetry::numbered_below(k);
    text::lemma_run(list, below);
    let at = text::run(list, below) as int;
    let new = telemetry::put_numbered(list, k, v);
    assert forall|j: int| 0 <= j < at implies (#[trigger] list[j]).0 < k by {
        assert(below(list[j]));
    }
    if at < list.len() {
        assert(!below(list[at]));
        assert forall|j: int| at < j < list.len() implies (#[trigger] list[j]).0 > k by {
            assert(list[at].0 < list[j].0);
        }
    }
    assert(new[at] == (k, v));
    let replaced = at < list.len() && list[at].0 == k;
    if id != k && list.contains((id, value)) {
        let i = choose|i: int| 0 <= i < list.len() && list[i] == (id, value);
        if i < at || replaced {
            assert(new[i] == (id, value));
        } else {
            assert(new[i + 1] == (id, value));
        }
    }
    if new.contains((id, value)) {
        let i = choose|i: int| 0 <= i < new.len() && new[i] == (id, value);
        if i != at {
            let j = if i < at || replaced {
                i
            } else {
                i - 1
            };
            assert(list[j] == new[i]);
            if j >= at && at < list.len() && !replaced {
                assert(list[at].0 > k);
                if j > at {
                    assert(list[j].0 > k);
                }
            }
            assert(id != k);
        }
    }
}

/// The memory that a report names is the number behind the first word of the first line that
/// starts with a name.
pub proof fn memory_stands_behind_its_name(report: Seq<char>, name: Seq<char>, i: int, n: u64)
    requires
        0 <= i < text::lines_of(report).len(),
        name.is_prefix_of(text::lines_of(report)[i]),
        forall|j: int| 0 <= j < i ==> !name.is_prefix_of(#[trigger] text::lines_of(report)[j]),
        text::words_of(text::lines_of(report)[i]).len() > 1,
        text::words_of(text::lines_of(report)[i])[1] == text::decimal_of(n as nat),
    ensures
        telemetry::kib_for(report, name) == n,
{
    let lines = text::lines_of(report);
    let other = telemetry::not_line_for(name);
    assert forall|j: int| 0 <= j < i implies other(#[trigger] lines[j]) by {}
    text::lemma_run_unique(lines, other, i);
    texts::decimals_read_back(n);
}

/// The context of a benchmark is what the arguments or the settings give, at least 512, but no
/// more than the model's own.
pub proof fn benchmarks_fit_the_context(given: Option<u64>, configured: u64, limit: Option<u64>)
    ensures
        ({
            let n = benchmark::context_for(given, configured, limit);
            let wanted = match given {
                Some(m) => m,
                None => configured,
            };
            &&& limit matches Some(l) ==> n <= l
            &&& n >= 512 || limit == Some(n)
            &&& n == wanted || (n == 512 && wanted < 512) || (limit == Some(n) && n < 512) || (limit
                == Some(n) && n < wanted)
        }),
{
}

/// The number that the arguments give for the context is the one behind the last of the flags
/// that a number stands behind.
pub proof fn the_last_number_counts(args: Seq<Seq<char>>, flags: Seq<Seq<char>>, n: nat)
    requires
        n <= args.len(),
    ensures
        match benchmark::last_number(args, flags, n) {
            Some(k) => exists|i: int|
                i < n && #[trigger] estimates::stands_at(args, flags, i) && text::u64_of(args[i + 1])
                    == Some(k) && forall|j: int|
                    i < j < n && #[trigger] estimates::stands_at(args, flags, j) ==> text::u64_of(
                        args[j + 1],
                    ) is None,
            None => forall|j: int|
                j < n && #[trigger] estimates::stands_at(args, flags, j) ==> text::u64_of(args[j + 1]) is None,
        },
    decreases n,
{
    if n > 0 {
        the_last_number_counts(args, flags, (n - 1) as nat);
        let i = n - 1;
        if flags.contains(args[i]) {
            let k = choose|k: int| 0 <= k < flags.len() && flags[k] == args[i];
            assert(args[i] == flags[k]);
        }
        if estimates::stands_at(args, flags, i) {
            let k = choose|k: int| 0 <= k < flags.len() && args[i] == #[trigger] flags[k];
            assert(flags.contains(args[i]));
        }
        assert(estimates::stands_at(args, flags, i) <==> flags.contains(args[i]) && n < args.len());
    }
}

/// The prompt of a case has as many tokens as were asked for, and goes through the seed over
/// and over, seven places further on for each case.
pub proof fn prompts_go_through_the_seed(seed: Seq<i64>, index: nat, target: nat, i: int)
    requires
        seed.len() > 0,
        0 <= i < target,
    ensures
        benchmark::prefill_of(seed, index, target).len() == target,
        benchmark::prefill_of(seed, index, target)[i] == seed[(i + 7 * index) % (seed.len() as int)],
{
    let n = seed.len() as int;
    let by = (index * 7) as int % n;
    let turned = benchmark::turned(seed, by);
    assert(0 <= by < n) by (nonlinear_arith)
        requires
            by == (index * 7) as int % n,
            n > 0,
    ;
    let k = i % n;
    assert(0 <= k < n) by (nonlinear_arith)
        requires
            k == i % n,
            n > 0,
    ;
    assert(turned.len() == n);
    vstd::arithmetic::div_mod::lemma_add_mod_noop(i, (index * 7) as int, n);
    assert((k + by) % n == (i + 7 * index) % n);
    if k + by < n {
        vstd::arithmetic::div_mod::lemma_small_mod((k + by) as nat, n as nat);
        assert(turned[k] == seed[k + by]);
    } else {
        vstd::arithmetic::div_mod::lemma_mod_add_multiples_vanish(k + by - n, n);
        assert((k + by) % n == (k + by - n) % n);
        vstd::arithmetic::div_mod::lemma_small_mod((k + by - n) as nat, n as nat);
        assert(turned[k] == seed[k + by - n]);
    }
}

/// A shorter benchmark is the front of a longer one; with more than one slot three cases for
/// all slots come last, and the others are the same.
pub proof fn shorter_benchmarks_come_first(slots: u64, max: nat, more: nat)
    requires
        max <= more,
    ensures
        ({
            let short = benchmark::cases_of(slots, max);
            let long = benchmark::cases_of(slots, more);
            &&& short.is_prefix_of(long)
            &&& short.len() <= max
            &&& max <= long.len() ==> short.len() == max
        }),
        benchmark::all_cases(slots).len() == if slots > 1 {
            9nat
        } else {
            6
        },
        benchmark::all_cases(1).is_prefix_of(benchmark::all_cases(slots)),
        forall|i: int|
            0 <= i < benchmark::all_cases(slots).len() ==> (#[trigger] benchmark::all_cases(
                slots,
            )[i]).slots == (i >= 6),
{
    let short = benchmark::cases_of(slots, max);
    let long = benchmark::cases_of(slots, more);
    assert(short =~= long.take(short.len() as int));
    assert(benchmark::all_cases(1) =~= benchmark::all_cases(slots).take(6));
}

} // verus!
