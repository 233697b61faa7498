//! What the servers report: loaded models, slots, requests and graphics cards.
use vstd::prelude::*;

use crate::commands;
use crate::json;
use crate::json::{Json, JsonValue};
use crate::metadata;
use crate::process;
use crate::process::TooLarge;
use crate::profiles::{Profiles, ProfilesView};
use crate::table;
use crate::text;

verus! {

/// Whether a model is served.
#[derive(Clone, Copy, Debug, PartialEq, Eq, Structural)]
pub enum ModelState {
    Absent,
    Loading,
    Loaded,
}

/// The number under a key of an object, zero where there is none.
pub open spec fn number_at(value: Json, key: Seq<char>) -> u64 {
    match json::member_in(value, key) {
        Some(v) => metadata::or_default(json::unsigned_in(v), 0),
        None => 0,
    }
}

fn number(value: &JsonValue, key: &str) -> (out: u64)
    ensures
        out == number_at(value@, key@),
{
    match value.get(key) {
        Some(v) => match v.as_u64() {
            Some(n) => n,
            None => 0,
        },
        None => 0,
    }
}

/// The text under a key of an object.
pub open spec fn text_at(value: Json, key: Seq<char>) -> Option<Seq<char>> {
    match json::member_in(value, key) {
        Some(v) => json::text_in(v),
        None => None,
    }
}

fn text_under(value: &JsonValue, key: &str) -> (out: Option<String>)
    ensures
        metadata::text_view(out) == text_at(value@, key@),
{
    match value.get(key) {
        Some(v) => match v.as_str() {
            Some(s) => Some(s.to_owned()),
            None => None,
        },
        None => None,
    }
}

/// The items of the array under a key.
pub open spec fn items_at(value: Json, key: Seq<char>) -> Option<Seq<Json>> {
    match json::member_in(value, key) {
        Some(Json::Array(items)) => Some(items),
        _ => None,
    }
}

pub open spec fn value_views(list: Seq<JsonValue>) -> Seq<Json> {
    list.map_values(|v: JsonValue| v@)
}

fn copy_items(items: &Vec<JsonValue>) -> (out: Vec<JsonValue>)
    ensures
        value_views(out@) == value_views(items@),
{
    let out: Vec<JsonValue> = json::copy_array(items);
    proof {
        assert forall|i: int| 0 <= i < items@.len() implies value_views(out@)[i] == value_views(
            items@,
        )[i] by {
            assert(json::json_of(out@[i]) == json::json_of(items@[i]));
        }
        assert(value_views(out@) =~= value_views(items@));
    }
    out
}

fn items_under(value: &JsonValue, key: &str) -> (out: Option<Vec<JsonValue>>)
    ensures
        match (out, items_at(value@, key@)) {
            (Some(v), Some(list)) => value_views(v@) == list,
            (None, None) => true,
            _ => false,
        },
{
    match value.get(key) {
        Some(v) => match v {
            JsonValue::Array(items) => {
                proof {
                    let list = json::json_of(*v)->Array_0;
                    assert forall|i: int| 0 <= i < list.len() implies #[trigger] list[i]
                        == value_views(items@)[i] by {
                        assert(list[i] == json::json_of(items@[i]));
                    }
                    assert(list =~= value_views(items@));
                }
                Some(copy_items(items))
            },
            _ => None,
        },
        None => None,
    }
}

/// A list by ascending number with one more entry, in the place of one with its number.
pub open spec fn put_numbered(list: Seq<(u64, Json)>, id: u64, value: Json) -> Seq<(u64, Json)> {
    let at = text::run(list, numbered_below(id)) as int;
    if at < list.len() && list[at].0 == id {
        list.update(at, (id, value))
    } else {
        list.insert(at, (id, value))
    }
}

pub open spec fn numbered_below(id: u64) -> spec_fn((u64, Json)) -> bool {
    |e: (u64, Json)| e.0 < id
}

/// The last sample of every card among the first `n` ones, by the cards' numbers.
pub open spec fn latest_of(samples: Seq<Json>, n: nat) -> Seq<(u64, Json)>
    decreases n,
{
    if n == 0 {
        seq![]
    } else {
        let earlier = latest_of(samples, (n - 1) as nat);
        match json::member_in(samples[n - 1], "id"@) {
            Some(Json::Unsigned(id)) => put_numbered(earlier, id, samples[n - 1]),
            _ => earlier,
        }
    }
}

/// The samples of the cards in a report: those of a compact one as they stand, else the
/// last one of every card.
pub open spec fn gpu_samples(payload: Json) -> Seq<Json> {
    match items_at(payload, "gpus"@) {
        Some(list) => list,
        None => match items_at(payload, "gpu_stats"@) {
            Some(samples) => latest_of(samples, samples.len()).map_values(|e: (u64, Json)| e.1),
            None => seq![],
        },
    }
}

pub open spec fn numbered_views(list: Seq<(u64, JsonValue)>) -> Seq<(u64, Json)> {
    list.map_values(|e: (u64, JsonValue)| (e.0, e.1@))
}

/// Every number is smaller than the next.
pub open spec fn by_number(list: Seq<(u64, Json)>) -> bool {
    forall|i: int, j: int| 0 <= i < j < list.len() ==> #[trigger] list[i].0 < #[trigger] list[j].0
}

/// The cards are listed by ascending number, so none twice.
pub proof fn cards_are_listed_once(samples: Seq<Json>, n: nat)
    ensures
        by_number(latest_of(samples, n)),
    decreases n,
{
    if n > 0 {
        cards_are_listed_once(samples, (n - 1) as nat);
        let earlier = latest_of(samples, (n - 1) as nat);
        match json::member_in(samples[n - 1], "id"@) {
            Some(Json::Unsigned(id)) => {
                lemma_put_numbered(earlier, id, samples[n - 1]);
            },
            _ => {},
        }
    }
}

proof fn lemma_put_numbered(list: Seq<(u64, Json)>, id: u64, value: Json)
    requires
        by_number(list),
    ensures
        by_number(put_numbered(list, id, value)),
{
    text::lemma_run(list, numbered_below(id));
    let at = text::run(list, numbered_below(id)) as int;
    let new = put_numbered(list, id, value);
    assert forall|i: int| 0 <= i < at implies (#[trigger] list[i]).0 < id by {
        assert(numbered_below(id)(list[i]));
    }
    assert forall|i: int| at < i < list.len() implies (#[trigger] list[i]).0 > id by {
        assert(list[at].0 < list[i].0);
    }
    if at < list.len() && list[at].0 == id {
        assert forall|i: int, j: int| 0 <= i < j < new.len() implies #[trigger] new[i].0
            < #[trigger] new[j].0 by {
            assert(list[i].0 < list[j].0);
        }
    } else {
        assert forall|i: int, j: int| 0 <= i < j < new.len() implies #[trigger] new[i].0
            < #[trigger] new[j].0 by {
            let a = if i < at {
                i
            } else {
                i - 1
            };
            let b = if j < at {
                j
            } else {
                j - 1
            };
            if i != at {
                assert(new[i] == list[a]);
            }
            if j != at {
                assert(new[j] == list[b]);
            }
            if i != at && j != at {
                assert(list[a].0 < list[b].0);
            }
        }
    }
}

fn put_sample(list: &mut Vec<(u64, JsonValue)>, id: u64, value: JsonValue)
    ensures
        numbered_views(final(list)@) == put_numbered(numbered_views(old(list)@), id, value@),
{
    let ghost all = numbered_views(list@);
    let mut i: usize = 0;
    while i < list.len()
        invariant_except_break
            i <= list@.len(),
            all == numbered_views(list@),
            all.len() == list@.len(),
            forall|j: int| 0 <= j < i ==> (#[trigger] all[j]).0 < id,
        ensures
            i <= list@.len(),
            all == numbered_views(list@),
            all.len() == list@.len(),
            forall|j: int| 0 <= j < i ==> (#[trigger] all[j]).0 < id,
            i < list@.len() ==> all[i as int].0 >= id,
        decreases list@.len() - i,
    {
        proof {
            assert(all[i as int].0 == list@[i as int].0);
        }
        if list[i].0 >= id {
            break ;
        }
        i += 1;
    }
    proof {
        text::lemma_run_unique(all, numbered_below(id), i as int);
        if i < list@.len() {
            assert(all[i as int].0 == list@[i as int].0);
        }
    }
    if i < list.len() && list[i].0 == id {
        list.set(i, (id, value));
        proof {
            assert(numbered_views(list@) =~= all.update(i as int, (id, value@)));
        }
    } else {
        list.insert(i, (id, value));
        proof {
            assert(numbered_views(list@) =~= all.insert(i as int, (id, value@)));
        }
    }
}

/// The samples of the graphics cards in a report.
pub fn latest_gpu_samples(payload: &JsonValue) -> (out: Vec<JsonValue>)
    ensures
        value_views(out@) == gpu_samples(payload@),
{
    match items_under(payload, "gpus") {
        Some(list) => return list,
        None => {},
    }
    let samples: Vec<JsonValue> = match items_under(payload, "gpu_stats") {
        Some(list) => list,
        None => {
            let none: Vec<JsonValue> = Vec::new();
            proof {
                assert(value_views(none@) =~= seq![]);
            }
            return none;
        },
    };
    let ghost all = value_views(samples@);
    let mut latest: Vec<(u64, JsonValue)> = Vec::new();
    let mut i: usize = 0;
    proof {
        assert(numbered_views(latest@) =~= seq![]);
    }
    while i < samples.len()
        invariant
            i <= samples@.len(),
            all == value_views(samples@),
            numbered_views(latest@) == latest_of(all, i as nat),
        decreases samples@.len() - i,
    {
        proof {
            assert(all[i as int] == samples@[i as int]@);
        }
        match samples[i].get("id") {
            Some(v) => match v.as_u64() {
                Some(id) => put_sample(&mut latest, id, samples[i].copy()),
                None => {},
            },
            None => {},
        }
        i += 1;
    }
    let ghost kept = latest_of(all, all.len()).map_values(|e: (u64, Json)| e.1);
    let mut out: Vec<JsonValue> = Vec::new();
    let mut k: usize = 0;
    proof {
        assert(value_views(out@) =~= kept.take(0));
    }
    while k < latest.len()
        invariant
            k <= latest@.len(),
            kept == latest_of(all, all.len()).map_values(|e: (u64, Json)| e.1),
            numbered_views(latest@) == latest_of(all, all.len()),
            kept.len() == latest@.len(),
            value_views(out@) == kept.take(k as int),
        decreases latest@.len() - k,
    {
        let ghost before = value_views(out@);
        let sample: JsonValue = latest[k].1.copy();
        out.push(sample);
        proof {
            assert(numbered_views(latest@)[k as int] == (
                latest@[k as int].0,
                latest@[k as int].1@,
            ));
            assert(kept[k as int] == sample@);
            assert(value_views(out@) =~= before.push(sample@));
            assert(kept.take(k + 1) =~= kept.take(k as int).push(kept[k as int]));
        }
        k += 1;
    }
    proof {
        assert(kept.take(kept.len() as int) =~= kept);
    }
    out
}

/// Not being the line for something, as a function.
pub open spec fn not_line_for(name: Seq<char>) -> spec_fn(Seq<char>) -> bool {
    |line: Seq<char>| !name.is_prefix_of(line)
}

/// The kibibytes of memory that a report on the memory names.
pub open spec fn kib_for(report: Seq<char>, name: Seq<char>) -> u64 {
    let lines = text::lines_of(report);
    let at = text::run(lines, not_line_for(name)) as int;
    if at < lines.len() {
        let words = text::words_of(lines[at]);
        if words.len() > 1 {
            metadata::or_default(text::u64_of(words[1]), 0)
        } else {
            0
        }
    } else {
        0
    }
}

/// The memory that a report on the memory names.
pub fn memory_bytes(report: &str, name: &str) -> (out: Result<u64, TooLarge>)
    ensures
        match out {
            Ok(n) => n == kib_for(report@, name@) * 1024,
            Err(_) => kib_for(report@, name@) * 1024 > u64::MAX,
        },
{
    let lines: Vec<String> = text::lines(report);
    let ghost all = text::views(lines@);
    let mut i: usize = 0;
    while i < lines.len()
        invariant
            i <= lines@.len(),
            all == text::views(lines@),
            all == text::lines_of(report@),
            forall|j: int| 0 <= j < i ==> not_line_for(name@)(#[trigger] all[j]),
        decreases lines@.len() - i,
    {
        proof {
            assert(all[i as int] == lines@[i as int]@);
        }
        if text::starts_with(lines[i].as_str(), name) {
            proof {
                text::lemma_run_unique(all, not_line_for(name@), i as int);
            }
            let words: Vec<String> = text::words(lines[i].as_str());
            proof {
                assert(text::views(words@).len() == words@.len());
                assert(words@.len() > 1 ==> text::views(words@)[1] == words@[1]@);
            }
            let kib: u64 = if words.len() > 1 {
                match text::parse_u64(words[1].as_str()) {
                    Some(n) => n,
                    None => 0,
                }
            } else {
                0
            };
            return match kib.checked_mul(1024) {
                Some(n) => Ok(n),
                None => Err(TooLarge),
            };
        }
        i += 1;
    }
    proof {
        text::lemma_run_unique(all, not_line_for(name@), i as int);
    }
    Ok(0)
}

/// Where the servers that are running listen, with the models that they serve.
pub open spec fn targets_of(running: Seq<Json>, n: nat) -> Seq<(Seq<char>, Seq<char>)>
    decreases n,
{
    if n == 0 {
        seq![]
    } else {
        let earlier = targets_of(running, (n - 1) as nat);
        match text_at(running[n - 1], "proxy"@) {
            Some(proxy) => earlier.push(
                (
                    text::replaced_of(proxy, "localhost"@, "127.0.0.1"@),
                    match text_at(running[n - 1], "model"@) {
                        Some(model) => model,
                        None => "unknown"@,
                    },
                ),
            ),
            None => earlier,
        }
    }
}

/// The servers in the answer of the scheduler.
pub open spec fn running_in(payload: Json) -> Seq<Json> {
    match items_at(payload, "running"@) {
        Some(items) => items,
        None => seq![],
    }
}

/// Whether a server says that it is ready.
pub open spec fn is_ready(item: Json) -> bool {
    match text_at(item, "state"@) {
        Some(state) => text::lower_of(state) == "ready"@,
        None => false,
    }
}

/// Whether the models are loaded: all servers are ready, or else some is loading.
pub open spec fn state_of(payload: Json) -> ModelState {
    let running = running_in(payload);
    if process::names_in(payload, "running"@, "model"@).len() == 0 {
        ModelState::Absent
    } else if forall|i: int| 0 <= i < running.len() ==> is_ready(#[trigger] running[i]) {
        ModelState::Loaded
    } else {
        ModelState::Loading
    }
}

fn running_servers(payload: &JsonValue) -> (out: Vec<JsonValue>)
    ensures
        value_views(out@) == running_in(payload@),
{
    match items_under(payload, "running") {
        Some(items) => items,
        None => {
            let none: Vec<JsonValue> = Vec::new();
            proof {
                assert(value_views(none@) =~= seq![]);
            }
            none
        },
    }
}

/// Where the servers that are running listen, with the models that they serve.
pub fn running_targets(payload: &JsonValue) -> (out: Vec<(String, String)>)
    ensures
        crate::profiles::pair_views(out@) == targets_of(
            running_in(payload@),
            running_in(payload@).len(),
        ),
{
    let running: Vec<JsonValue> = running_servers(payload);
    let ghost all = running_in(payload@);
    let mut out: Vec<(String, String)> = Vec::new();
    let mut i: usize = 0;
    proof {
        assert(crate::profiles::pair_views(out@) =~= seq![]);
        reveal_strlit("localhost");
    }
    while i < running.len()
        invariant
            i <= running@.len(),
            all == value_views(running@),
            "localhost"@.len() > 0,
            crate::profiles::pair_views(out@) == targets_of(all, i as nat),
        decreases running@.len() - i,
    {
        proof {
            assert(all[i as int] == running@[i as int]@);
        }
        match text_under(&running[i], "proxy") {
            Some(proxy) => {
                let model: String = match text_under(&running[i], "model") {
                    Some(model) => model,
                    None => "unknown".to_owned(),
                };
                let ghost before = crate::profiles::pair_views(out@);
                let pair: (String, String) = (
                    text::replace(proxy.as_str(), "localhost", "127.0.0.1"),
                    model,
                );
                out.push(pair);
                proof {
                    assert(crate::profiles::pair_views(out@) =~= before.push((pair.0@, pair.1@)));
                }
            },
            None => {},
        }
        i += 1;
    }
    out
}

/// Whether the models that the scheduler lists are loaded.
pub fn running_state(payload: &JsonValue) -> (out: ModelState)
    ensures
        out == state_of(payload@),
{
    let names: Vec<String> = process::listed_names(payload, "running", "model");
    proof {
        assert(text::views(names@).len() == names@.len());
    }
    if names.len() == 0 {
        return ModelState::Absent;
    }
    let running: Vec<JsonValue> = running_servers(payload);
    let ghost all = running_in(payload@);
    let mut i: usize = 0;
    while i < running.len()
        invariant
            i <= running@.len(),
            all == value_views(running@),
            all == running_in(payload@),
            process::names_in(payload@, "running"@, "model"@).len() > 0,
            forall|j: int| 0 <= j < i ==> is_ready(#[trigger] all[j]),
        decreases running@.len() - i,
    {
        proof {
            assert(all[i as int] == running@[i as int]@);
        }
        let ready: bool = match text_under(&running[i], "state") {
            Some(state) => text::same(text::to_lower(state.as_str()).as_str(), "ready"),
            None => false,
        };
        if !ready {
            proof {
                assert(!is_ready(all[i as int]));
            }
            return ModelState::Loading;
        }
        i += 1;
    }
    ModelState::Loaded
}

/// What is shown while the servers tell of no model: the model that the server was started
/// for is loading. `running` says whether the server runs, and `launched` which model it was
/// started for.
pub open spec fn shown_state_of(
    told: ModelState,
    names: Seq<char>,
    running: bool,
    launched: Option<Seq<char>>,
) -> (ModelState, Seq<char>) {
    match launched {
        Some(model) => if told == ModelState::Absent && running {
            (ModelState::Loading, model)
        } else {
            (told, names)
        },
        None => (told, names),
    }
}

/// Whether the models are loaded and which they are, from what the servers tell and what the
/// server was started for.
pub fn shown_state(told: ModelState, names: &str, running: bool, launched: Option<&str>) -> (out: (
    ModelState,
    String,
))
    ensures
        (out.0, out.1@) == shown_state_of(
            told,
            names@,
            running,
            match launched {
                Some(model) => Some(model@),
                None => None,
            },
        ),
{
    match launched {
        Some(model) => {
            let absent: bool = match told {
                ModelState::Absent => true,
                _ => false,
            };
            if absent && running {
                (ModelState::Loading, model.to_owned())
            } else {
                (told, names.to_owned())
            }
        },
        None => (told, names.to_owned()),
    }
}

/// The member of a request that holds the time to its first token: its own, or else that
/// of its metadata.
pub open spec fn first_token_of(request: Json) -> Option<Json> {
    match json::member_in(request, "time_to_first_token_ms"@) {
        Some(v) => Some(v),
        None => match json::member_in(request, "metadata"@) {
            Some(about) => json::member_in(about, "time_to_first_token_ms"@),
            None => None,
        },
    }
}

pub fn first_token(request: &JsonValue) -> (out: Option<&JsonValue>)
    ensures
        match (out, first_token_of(request@)) {
            (Some(v), Some(j)) => v@ == j,
            (None, None) => true,
            _ => false,
        },
{
    match request.get("time_to_first_token_ms") {
        Some(v) => Some(v),
        None => match request.get("metadata") {
            Some(about) => about.get("time_to_first_token_ms"),
            None => None,
        },
    }
}

/// The model that a rate of a request is kept for; `None` where the request names none.
pub fn rated_model(request: &JsonValue) -> (out: Option<String>)
    ensures
        metadata::text_view(out) == text_at(request@, "model"@),
{
    text_under(request, "model")
}

/// What is counted of a request. Its rates are floats and are kept beside it.
#[derive(Debug, PartialEq, Eq)]
pub struct RequestCounts {
    pub model: String,
    pub prompt_tokens: u64,
    pub output_tokens: u64,
    pub cache_tokens: u64,
    pub draft_tokens: u64,
    pub draft_accepted: u64,
    pub duration_ms: u64,
}

/// The part of a request that counts its tokens.
pub open spec fn tokens_of(request: Json) -> Json {
    match json::member_in(request, "tokens"@) {
        Some(tokens) => tokens,
        None => request,
    }
}

/// Reads what is counted of a request.
pub fn request_counts(request: &JsonValue) -> (out: RequestCounts)
    ensures
        out.model@ == match text_at(request@, "model"@) {
            Some(model) => model,
            None => ""@,
        },
        out.prompt_tokens == number_at(tokens_of(request@), "input_tokens"@),
        out.output_tokens == number_at(tokens_of(request@), "output_tokens"@),
        out.cache_tokens == number_at(tokens_of(request@), "cache_tokens"@),
        out.draft_tokens == number_at(tokens_of(request@), "draft_tokens"@),
        out.draft_accepted == number_at(tokens_of(request@), "draft_acc_tokens"@),
        out.duration_ms == number_at(request@, "duration_ms"@),
{
    let tokens: &JsonValue = match request.get("tokens") {
        Some(tokens) => tokens,
        None => request,
    };
    RequestCounts {
        model: match text_under(request, "model") {
            Some(model) => model,
            None => "".to_owned(),
        },
        prompt_tokens: number(tokens, "input_tokens"),
        output_tokens: number(tokens, "output_tokens"),
        cache_tokens: number(tokens, "cache_tokens"),
        draft_tokens: number(tokens, "draft_tokens"),
        draft_accepted: number(tokens, "draft_acc_tokens"),
        duration_ms: number(request, "duration_ms"),
    }
}

/// What the scheduler has counted in all.
#[derive(Clone, Copy, Debug, PartialEq, Eq, Structural)]
pub struct Totals {
    pub requests: u64,
    pub input_tokens: u64,
    pub output_tokens: u64,
    pub cache_tokens: u64,
}

/// Reads what the scheduler has counted.
pub fn totals(stats: &JsonValue) -> (out: Totals)
    ensures
        out == (Totals {
            requests: number_at(stats@, "total_requests"@),
            input_tokens: number_at(stats@, "total_input_tokens"@),
            output_tokens: number_at(stats@, "total_output_tokens"@),
            cache_tokens: number_at(stats@, "total_cache_tokens"@),
        }),
{
    Totals {
        requests: number(stats, "total_requests"),
        input_tokens: number(stats, "total_input_tokens"),
        output_tokens: number(stats, "total_output_tokens"),
        cache_tokens: number(stats, "total_cache_tokens"),
    }
}

/// The version that a server gives in its properties.
pub open spec fn version_in(props: Json) -> Seq<char> {
    match json::member_in(props, "metadata"@) {
        Some(about) => match text_at(about, "general"@) {
            Some(s) => s,
            None => match text_at(about, "llama.cpp.version"@) {
                Some(s) => s,
                None => ""@,
            },
        },
        None => ""@,
    }
}

pub fn server_version(props: &JsonValue) -> (out: String)
    ensures
        out@ == version_in(props@),
{
    match props.get("metadata") {
        Some(about) => match text_under(about, "general") {
            Some(s) => s,
            None => match text_under(about, "llama.cpp.version") {
                Some(s) => s,
                None => "".to_owned(),
            },
        },
        None => "".to_owned(),
    }
}

/// The version in the description of a build.
pub fn build_version(manifest: &JsonValue) -> (out: String)
    ensures
        out@ == match text_at(manifest@, "tag"@) {
            Some(s) => s,
            None => ""@,
        },
{
    match text_under(manifest, "tag") {
        Some(s) => s,
        None => "".to_owned(),
    }
}

/// A slot of a server.
pub struct Slot {
    pub model_name: String,
    pub slot_id: u64,
    pub prompt_done: u64,
    pub prompt_total: u64,
    pub decoded: u64,
    pub is_processing: bool,
}

#[verifier::ext_equal]
pub ghost struct SlotView {
    pub model_name: Seq<char>,
    pub slot_id: u64,
    pub prompt_done: u64,
    pub prompt_total: u64,
    pub decoded: u64,
    pub is_processing: bool,
}

impl View for Slot {
    type V = SlotView;

    open spec fn view(&self) -> SlotView {
        SlotView {
            model_name: self.model_name@,
            slot_id: self.slot_id,
            prompt_done: self.prompt_done,
            prompt_total: self.prompt_total,
            decoded: self.decoded,
            is_processing: self.is_processing,
        }
    }
}

pub open spec fn slot_views(slots: Seq<Slot>) -> Seq<SlotView> {
    slots.map_values(|s: Slot| s@)
}

impl Slot {
    pub fn copy(&self) -> (out: Slot)
        ensures
            out@ == self@,
    {
        Slot {
            model_name: self.model_name.clone(),
            slot_id: self.slot_id,
            prompt_done: self.prompt_done,
            prompt_total: self.prompt_total,
            decoded: self.decoded,
            is_processing: self.is_processing,
        }
    }
}

/// The tokens that the first `n` entries of a slot have decoded.
pub open spec fn decoded_sum(tokens: Seq<Json>, n: nat) -> nat
    decreases n,
{
    if n == 0 {
        0
    } else {
        decoded_sum(tokens, (n - 1) as nat) + number_at(tokens[n - 1], "n_decoded"@) as nat
    }
}

/// The tokens that a slot has decoded.
pub open spec fn decoded_in(slot: Json) -> nat {
    match items_at(slot, "next_token"@) {
        Some(tokens) => decoded_sum(tokens, tokens.len()),
        None => 0,
    }
}

proof fn lemma_decoded_grows(tokens: Seq<Json>, n: nat, more: nat)
    requires
        n <= more,
    ensures
        decoded_sum(tokens, n) <= decoded_sum(tokens, more),
    decreases more,
{
    if n < more {
        lemma_decoded_grows(tokens, n, (more - 1) as nat);
    }
}

fn decoded(slot: &JsonValue) -> (out: Result<u64, TooLarge>)
    ensures
        match out {
            Ok(n) => n == decoded_in(slot@),
            Err(_) => decoded_in(slot@) > u64::MAX,
        },
{
    let tokens: Vec<JsonValue> = match items_under(slot, "next_token") {
        Some(items) => items,
        None => return Ok(0),
    };
    let ghost all = value_views(tokens@);
    let mut sum: u64 = 0;
    let mut i: usize = 0;
    while i < tokens.len()
        invariant
            i <= tokens@.len(),
            all == value_views(tokens@),
            items_at(slot@, "next_token"@) == Some(all),
            sum == decoded_sum(all, i as nat),
        decreases tokens@.len() - i,
    {
        proof {
            assert(all[i as int] == tokens@[i as int]@);
            lemma_decoded_grows(all, (i + 1) as nat, all.len());
        }
        match sum.checked_add(number(&tokens[i], "n_decoded")) {
            Some(n) => {
                sum = n;
            },
            None => return Err(TooLarge),
        }
        i += 1;
    }
    Ok(sum)
}

/// The tokens of the prompt of a slot: those that are processed, or what is left of all its
/// tokens without the decoded ones.
pub open spec fn prompt_total_of(slot: Json) -> nat {
    let processed = number_at(slot, "n_prompt_tokens_processed"@) as nat;
    let total = number_at(slot, "n_prompt_tokens"@) as nat;
    let rest = if total >= decoded_in(slot) {
        (total - decoded_in(slot)) as nat
    } else {
        0
    };
    if processed >= rest {
        processed
    } else {
        rest
    }
}

/// What a server says of a slot.
pub open spec fn slot_of(slot: Json, model: Seq<char>) -> SlotView {
    SlotView {
        model_name: model,
        slot_id: number_at(slot, "id"@),
        prompt_done: number_at(slot, "n_prompt_tokens_processed"@),
        prompt_total: prompt_total_of(slot) as u64,
        decoded: decoded_in(slot) as u64,
        is_processing: json::member_in(slot, "is_processing"@) == Some(Json::Bool(true)),
    }
}

/// Whether the counts of all slots can be held.
pub open spec fn countable(slots: Seq<Json>) -> bool {
    forall|i: int| 0 <= i < slots.len() ==> decoded_in(#[trigger] slots[i]) <= u64::MAX
}

fn read_slot(slot: &JsonValue, model: &str) -> (out: Result<Slot, TooLarge>)
    ensures
        match out {
            Ok(s) => decoded_in(slot@) <= u64::MAX && s@ == slot_of(slot@, model@),
            Err(_) => decoded_in(slot@) > u64::MAX,
        },
{
    let count: u64 = match decoded(slot) {
        Ok(n) => n,
        Err(e) => return Err(e),
    };
    let processed: u64 = number(slot, "n_prompt_tokens_processed");
    let total: u64 = number(slot, "n_prompt_tokens");
    let rest: u64 = if total >= count {
        total - count
    } else {
        0
    };
    let busy: bool = match slot.get("is_processing") {
        Some(v) => match v.as_bool() {
            Some(b) => b,
            None => false,
        },
        None => false,
    };
    Ok(
        Slot {
            model_name: model.to_owned(),
            slot_id: number(slot, "id"),
            prompt_done: processed,
            prompt_total: if processed >= rest {
                processed
            } else {
                rest
            },
            decoded: count,
            is_processing: busy,
        },
    )
}

/// The slots in the answer of a server.
pub open spec fn slots_in(payload: Json) -> Seq<Json> {
    match payload {
        Json::Array(items) => items,
        _ => seq![],
    }
}

/// Reads the slots in the answer of a server.
pub fn read_slots(payload: &JsonValue, model: &str) -> (out: Result<Vec<Slot>, TooLarge>)
    ensures
        match out {
            Ok(v) => countable(slots_in(payload@)) && slot_views(v@) == slots_in(
                payload@,
            ).map_values(|s: Json| slot_of(s, model@)),
            Err(_) => !countable(slots_in(payload@)),
        },
{
    let mut out: Vec<Slot> = Vec::new();
    let ghost all = slots_in(payload@);
    let ghost want = all.map_values(|s: Json| slot_of(s, model@));
    proof {
        assert(slot_views(out@) =~= want.take(0));
    }
    match payload {
        JsonValue::Array(items) => {
            let mut i: usize = 0;
            while i < items.len()
                invariant
                    i <= items@.len(),
                    all.len() == items@.len(),
                    all == slots_in(payload@),
                    forall|j: int|
                        0 <= j < items@.len() ==> #[trigger] all[j] == json::json_of(items@[j]),
                    want == all.map_values(|s: Json| slot_of(s, model@)),
                    forall|j: int| 0 <= j < i ==> decoded_in(#[trigger] all[j]) <= u64::MAX,
                    slot_views(out@) == want.take(i as int),
                decreases items@.len() - i,
            {
                proof {
                    assert(all[i as int] == json::json_of(items@[i as int]));
                }
                match read_slot(&items[i], model) {
                    Ok(slot) => {
                        let ghost before = slot_views(out@);
                        out.push(slot);
                        proof {
                            assert(slot_views(out@) =~= before.push(slot@));
                            assert(want.take(i + 1) =~= want.take(i as int).push(want[i as int]));
                        }
                    },
                    Err(e) => return Err(e),
                }
                i += 1;
            }
        },
        _ => {},
    }
    proof {
        assert(want.take(want.len() as int) =~= want);
    }
    Ok(out)
}

/// What the busy slots do together.
#[derive(Clone, Copy, Debug, PartialEq, Eq, Structural)]
pub struct Activity {
    pub prompt_done: u64,
    pub prompt_total: u64,
    pub generated: u64,
    pub active_requests: u64,
}

/// The sum of something over the busy ones of the first `n` slots.
pub open spec fn busy_sum(slots: Seq<SlotView>, what: spec_fn(SlotView) -> nat, n: nat) -> nat
    decreases n,
{
    if n == 0 {
        0
    } else {
        busy_sum(slots, what, (n - 1) as nat) + if slots[n - 1].is_processing {
            what(slots[n - 1])
        } else {
            0
        }
    }
}

proof fn lemma_busy_grows(slots: Seq<SlotView>, what: spec_fn(SlotView) -> nat, n: nat, more: nat)
    requires
        n <= more,
    ensures
        busy_sum(slots, what, n) <= busy_sum(slots, what, more),
    decreases more,
{
    if n < more {
        lemma_busy_grows(slots, what, n, (more - 1) as nat);
    }
}

pub open spec fn done_count() -> spec_fn(SlotView) -> nat {
    |s: SlotView| s.prompt_done as nat
}

pub open spec fn total_count() -> spec_fn(SlotView) -> nat {
    |s: SlotView| s.prompt_total as nat
}

pub open spec fn decoded_count() -> spec_fn(SlotView) -> nat {
    |s: SlotView| s.decoded as nat
}

pub open spec fn one_count() -> spec_fn(SlotView) -> nat {
    |s: SlotView| 1nat
}

/// Adds up what the busy slots do.
pub fn activity(slots: &Vec<Slot>) -> (out: Result<Activity, TooLarge>)
    ensures
        ({
            let all = slot_views(slots@);
            let n = all.len();
            match out {
                Ok(a) => {
                    &&& a.prompt_done == busy_sum(all, done_count(), n)
                    &&& a.prompt_total == busy_sum(all, total_count(), n)
                    &&& a.generated == busy_sum(all, decoded_count(), n)
                    &&& a.active_requests == busy_sum(all, one_count(), n)
                },
                Err(_) => busy_sum(all, done_count(), n) > u64::MAX || busy_sum(
                    all,
                    total_count(),
                    n,
                ) > u64::MAX || busy_sum(all, decoded_count(), n) > u64::MAX || busy_sum(
                    all,
                    one_count(),
                    n,
                ) > u64::MAX,
            }
        }),
{
    let ghost all = slot_views(slots@);
    let mut sum: Activity = Activity {
        prompt_done: 0,
        prompt_total: 0,
        generated: 0,
        active_requests: 0,
    };
    let mut i: usize = 0;
    while i < slots.len()
        invariant
            i <= slots@.len(),
            all == slot_views(slots@),
            all.len() == slots@.len(),
            sum.prompt_done == busy_sum(all, done_count(), i as nat),
            sum.prompt_total == busy_sum(all, total_count(), i as nat),
            sum.generated == busy_sum(all, decoded_count(), i as nat),
            sum.active_requests == busy_sum(all, one_count(), i as nat),
        decreases slots@.len() - i,
    {
        proof {
            assert(all[i as int] == slots@[i as int]@);
            lemma_busy_grows(all, done_count(), (i + 1) as nat, all.len());
            lemma_busy_grows(all, total_count(), (i + 1) as nat, all.len());
            lemma_busy_grows(all, decoded_count(), (i + 1) as nat, all.len());
            lemma_busy_grows(all, one_count(), (i + 1) as nat, all.len());
        }
        if slots[i].is_processing {
            let done: u64 = match sum.prompt_done.checked_add(slots[i].prompt_done) {
                Some(n) => n,
                None => return Err(TooLarge),
            };
            let total: u64 = match sum.prompt_total.checked_add(slots[i].prompt_total) {
                Some(n) => n,
                None => return Err(TooLarge),
            };
            let generated: u64 = match sum.generated.checked_add(slots[i].decoded) {
                Some(n) => n,
                None => return Err(TooLarge),
            };
            let active: u64 = match sum.active_requests.checked_add(1) {
                Some(n) => n,
                None => return Err(TooLarge),
            };
            sum = Activity {
                prompt_done: done,
                prompt_total: total,
                generated,
                active_requests: active,
            };
        }
        i += 1;
    }
    Ok(sum)
}

/// Whether some slots hold one of a model with a number.
pub open spec fn has_slot(slots: Seq<SlotView>, model: Seq<char>, id: u64) -> bool {
    exists|i: int|
        0 <= i < slots.len() && (#[trigger] slots[i]).model_name == model && slots[i].slot_id == id
}

/// The first `n` slots without those of a model whose number is too large.
pub open spec fn within(slots: Seq<SlotView>, model: Seq<char>, count: u64, n: nat) -> Seq<SlotView>
    decreases n,
{
    if n == 0 {
        seq![]
    } else {
        let earlier = within(slots, model, count, (n - 1) as nat);
        if slots[n - 1].model_name != model || slots[n - 1].slot_id < count {
            earlier.push(slots[n - 1])
        } else {
            earlier
        }
    }
}

/// A slot that nothing is known of.
pub open spec fn idle_slot(model: Seq<char>, id: u64) -> SlotView {
    SlotView {
        model_name: model,
        slot_id: id,
        prompt_done: 0,
        prompt_total: 0,
        decoded: 0,
        is_processing: false,
    }
}

/// Some slots with idle ones for those of the first `n` numbers of a model that are missing.
pub open spec fn filled(slots: Seq<SlotView>, model: Seq<char>, n: nat) -> Seq<SlotView>
    decreases n,
{
    if n == 0 {
        slots
    } else {
        let earlier = filled(slots, model, (n - 1) as nat);
        if has_slot(earlier, model, (n - 1) as u64) {
            earlier
        } else {
            earlier.push(idle_slot(model, (n - 1) as u64))
        }
    }
}

/// How many slots the profile of a model asks for.
pub open spec fn slots_for(p: ProfilesView, model: Seq<char>) -> u64 {
    match table::lookup(p.profiles, model) {
        Some(list) => match table::lookup(list, "parallel"@) {
            Some(Json::Unsigned(n)) => n,
            _ => 1,
        },
        None => 1,
    }
}

/// The slots of the first `n` models, with as many for each as its profile asks for.
pub open spec fn completed(
    slots: Seq<SlotView>,
    models: Seq<Seq<char>>,
    p: ProfilesView,
    n: nat,
) -> Seq<SlotView>
    decreases n,
{
    if n == 0 {
        slots
    } else {
        let earlier = completed(slots, models, p, (n - 1) as nat);
        let count = slots_for(p, models[n - 1]);
        filled(within(earlier, models[n - 1], count, earlier.len()), models[n - 1], count as nat)
    }
}

/// How many slots the first `n` models ask for.
pub open spec fn expected(models: Seq<Seq<char>>, p: ProfilesView, n: nat) -> nat
    decreases n,
{
    if n == 0 {
        0
    } else {
        expected(models, p, (n - 1) as nat) + slots_for(p, models[n - 1]) as nat
    }
}

/// Whether a slot comes before another: by the model, then by the number.
pub open spec fn slot_before(a: SlotView, b: SlotView) -> bool {
    text::before(a.model_name, b.model_name) || (a.model_name == b.model_name && a.slot_id
        < b.slot_id)
}

pub open spec fn slot_not_after(slot: SlotView) -> spec_fn(SlotView) -> bool {
    |other: SlotView| !slot_before(slot, other)
}

/// The first `n` slots in order; equal ones stay as they were.
pub open spec fn in_order(slots: Seq<SlotView>, n: nat) -> Seq<SlotView>
    decreases n,
{
    if n == 0 {
        seq![]
    } else {
        let earlier = in_order(slots, (n - 1) as nat);
        earlier.insert(text::run(earlier, slot_not_after(slots[n - 1])) as int, slots[n - 1])
    }
}

/// The models in a list of names with commas between them.
pub open spec fn models_in(names: Seq<char>) -> Seq<Seq<char>> {
    let parts = text::split_piece_of(names, ", "@);
    nonempty(parts, parts.len())
}

/// Those of the first `n` texts that are not empty.
pub open spec fn nonempty(parts: Seq<Seq<char>>, n: nat) -> Seq<Seq<char>>
    decreases n,
{
    if n == 0 {
        seq![]
    } else if parts[n - 1].len() == 0 {
        nonempty(parts, (n - 1) as nat)
    } else {
        nonempty(parts, (n - 1) as nat).push(parts[n - 1])
    }
}

fn list_models(names: &str) -> (out: Vec<String>)
    ensures
        text::views(out@) == models_in(names@),
{
    proof {
        reveal_strlit(", ");
    }
    let parts: Vec<String> = text::split_piece(names, ", ");
    let ghost all = text::views(parts@);
    let mut out: Vec<String> = Vec::new();
    let mut i: usize = 0;
    proof {
        assert(text::views(out@) =~= seq![]);
    }
    while i < parts.len()
        invariant
            i <= parts@.len(),
            all == text::views(parts@),
            text::views(out@) == nonempty(all, i as nat),
        decreases parts@.len() - i,
    {
        proof {
            assert(all[i as int] == parts@[i as int]@);
        }
        if text::chars_of(parts[i].as_str()).len() > 0 {
            process::add(&mut out, parts[i].as_str());
        }
        i += 1;
    }
    out
}

fn parallel(p: &Profiles, model: &str) -> (out: u64)
    ensures
        out == slots_for(p@, model@),
{
    match commands::profile_copy(p, model) {
        Some(profile) => match commands::member(&profile, "parallel") {
            Some(v) => match v.as_u64() {
                Some(n) => n,
                None => 1,
            },
            None => 1,
        },
        None => 1,
    }
}

fn holds_slot(slots: &Vec<Slot>, model: &str, id: u64) -> (yes: bool)
    ensures
        yes == has_slot(slot_views(slots@), model@, id),
{
    let ghost all = slot_views(slots@);
    let mut i: usize = 0;
    while i < slots.len()
        invariant
            i <= slots@.len(),
            all == slot_views(slots@),
            all.len() == slots@.len(),
            forall|j: int|
                0 <= j < i ==> !((#[trigger] all[j]).model_name == model@ && all[j].slot_id == id),
        decreases slots@.len() - i,
    {
        proof {
            assert(all[i as int] == slots@[i as int]@);
        }
        if slots[i].slot_id == id && text::same(slots[i].model_name.as_str(), model) {
            proof {
                assert(all[i as int].model_name == model@);
            }
            return true;
        }
        i += 1;
    }
    false
}

fn keep_within(slots: &Vec<Slot>, model: &str, count: u64) -> (out: Vec<Slot>)
    ensures
        slot_views(out@) == within(slot_views(slots@), model@, count, slots@.len()),
{
    let ghost all = slot_views(slots@);
    let mut out: Vec<Slot> = Vec::new();
    let mut i: usize = 0;
    proof {
        assert(slot_views(out@) =~= seq![]);
    }
    while i < slots.len()
        invariant
            i <= slots@.len(),
            all == slot_views(slots@),
            slot_views(out@) == within(all, model@, count, i as nat),
        decreases slots@.len() - i,
    {
        proof {
            assert(all[i as int] == slots@[i as int]@);
        }
        if slots[i].slot_id < count || !text::same(slots[i].model_name.as_str(), model) {
            let ghost before = slot_views(out@);
            let slot: Slot = slots[i].copy();
            out.push(slot);
            proof {
                assert(slot_views(out@) =~= before.push(slot@));
            }
        }
        i += 1;
    }
    out
}

fn fill(slots: &mut Vec<Slot>, model: &str, count: u64)
    ensures
        slot_views(final(slots)@) == filled(slot_views(old(slots)@), model@, count as nat),
{
    let ghost start = slot_views(slots@);
    let mut id: u64 = 0;
    while id < count
        invariant
            id <= count,
            slot_views(slots@) == filled(start, model@, id as nat),
        decreases count - id,
    {
        if !holds_slot(slots, model, id) {
            let ghost before = slot_views(slots@);
            let slot: Slot = Slot {
                model_name: model.to_owned(),
                slot_id: id,
                prompt_done: 0,
                prompt_total: 0,
                decoded: 0,
                is_processing: false,
            };
            slots.push(slot);
            proof {
                assert(slot_views(slots@) =~= before.push(slot@));
            }
        }
        id += 1;
    }
}

fn precedes(a: &Slot, b: &Slot) -> (yes: bool)
    ensures
        yes == slot_before(a@, b@),
{
    text::comes_before(a.model_name.as_str(), b.model_name.as_str()) || (a.slot_id < b.slot_id
        && text::same(a.model_name.as_str(), b.model_name.as_str()))
}

fn sort_slots(slots: &Vec<Slot>) -> (out: Vec<Slot>)
    ensures
        slot_views(out@) == in_order(slot_views(slots@), slots@.len()),
{
    let ghost all = slot_views(slots@);
    let mut out: Vec<Slot> = Vec::new();
    let mut i: usize = 0;
    proof {
        assert(slot_views(out@) =~= seq![]);
    }
    while i < slots.len()
        invariant
            i <= slots@.len(),
            all == slot_views(slots@),
            slot_views(out@) == in_order(all, i as nat),
        decreases slots@.len() - i,
    {
        let slot: Slot = slots[i].copy();
        let ghost before = slot_views(out@);
        proof {
            assert(all[i as int] == slots@[i as int]@);
        }
        let mut at: usize = 0;
        while at < out.len()
            invariant_except_break
                at <= out@.len(),
                before == slot_views(out@),
                before.len() == out@.len(),
                forall|j: int| 0 <= j < at ==> !slot_before(slot@, #[trigger] before[j]),
            ensures
                at <= out@.len(),
                before == slot_views(out@),
                before.len() == out@.len(),
                forall|j: int| 0 <= j < at ==> !slot_before(slot@, #[trigger] before[j]),
                at < out@.len() ==> slot_before(slot@, before[at as int]),
            decreases out@.len() - at,
        {
            proof {
                assert(before[at as int] == out@[at as int]@);
            }
            if precedes(&slot, &out[at]) {
                break ;
            }
            at += 1;
        }
        proof {
            text::lemma_run_unique(before, slot_not_after(slot@), at as int);
        }
        out.insert(at, slot);
        proof {
            assert(slot_views(out@) =~= before.insert(at as int, slot@));
        }
        i += 1;
    }
    out
}

proof fn lemma_expected_grows(models: Seq<Seq<char>>, p: ProfilesView, n: nat, more: nat)
    requires
        n <= more,
    ensures
        expected(models, p, n) <= expected(models, p, more),
    decreases more,
{
    if n < more {
        lemma_expected_grows(models, p, n, (more - 1) as nat);
    }
}

/// The slots that are shown for the models that are served, in order, and how many slots
/// there are: as many as the profiles ask for, or as are shown.
pub fn arrange_slots(slots: &Vec<Slot>, names: &str, p: &Profiles) -> (out: Result<
    (Vec<Slot>, u64),
    TooLarge,
>)
    ensures
        ({
            let models = models_in(names@);
            let all = completed(slot_views(slots@), models, p@, models.len());
            let wanted = expected(models, p@, models.len());
            match out {
                Ok((shown, count)) => {
                    &&& slot_views(shown@) == in_order(all, all.len())
                    &&& count == if wanted >= all.len() {
                        wanted
                    } else {
                        all.len()
                    }
                },
                Err(_) => wanted > u64::MAX,
            }
        }),
{
    let models: Vec<String> = list_models(names);
    let ghost all = models_in(names@);
    let ghost start = slot_views(slots@);
    let mut current: Vec<Slot> = Vec::new();
    let mut k: usize = 0;
    proof {
        assert(slot_views(current@) =~= start.take(0));
    }
    while k < slots.len()
        invariant
            k <= slots@.len(),
            start == slot_views(slots@),
            start.len() == slots@.len(),
            slot_views(current@) == start.take(k as int),
        decreases slots@.len() - k,
    {
        let ghost before = slot_views(current@);
        let slot: Slot = slots[k].copy();
        current.push(slot);
        proof {
            assert(slot_views(current@) =~= before.push(slot@));
            assert(start.take(k + 1) =~= start.take(k as int).push(start[k as int]));
        }
        k += 1;
    }
    proof {
        assert(start.take(start.len() as int) =~= start);
    }
    let mut wanted: u64 = 0;
    let mut i: usize = 0;
    while i < models.len()
        invariant
            i <= models@.len(),
            all == text::views(models@),
            all.len() == models@.len(),
            all == models_in(names@),
            start == slot_views(slots@),
            wanted == expected(all, p@, i as nat),
            slot_views(current@) == completed(start, all, p@, i as nat),
        decreases models@.len() - i,
    {
        proof {
            assert(all[i as int] == models@[i as int]@);
            lemma_expected_grows(all, p@, (i + 1) as nat, all.len());
            assert(slot_views(current@).len() == current@.len());
        }
        let model: &str = models[i].as_str();
        let count: u64 = parallel(p, model);
        wanted = match wanted.checked_add(count) {
            Some(n) => n,
            None => return Err(TooLarge),
        };
        current = keep_within(&current, model, count);
        fill(&mut current, model, count);
        i += 1;
    }
    proof {
        assert(slot_views(current@).len() == current@.len());
    }
    let shown: Vec<Slot> = sort_slots(&current);
    let many: u64 = current.len() as u64;
    let count: u64 = if wanted >= many {
        wanted
    } else {
        many
    };
    Ok((shown, count))
}

/// A slot more at some place adds itself and nothing else.
proof fn lemma_one_more(slots: Seq<SlotView>, at: int, slot: SlotView, model: Seq<char>, id: u64)
    requires
        0 <= at <= slots.len(),
    ensures
        has_slot(slots.insert(at, slot), model, id) == (has_slot(slots, model, id) || (
        slot.model_name == model && slot.slot_id == id)),
        slots.insert(slots.len() as int, slot) == slots.push(slot),
{
    let new = slots.insert(at, slot);
    assert(new[at] == slot);
    if has_slot(slots, model, id) {
        let i = choose|i: int|
            0 <= i < slots.len() && (#[trigger] slots[i]).model_name == model && slots[i].slot_id
                == id;
        assert(slots[i] == if i < at {
            new[i]
        } else {
            new[i + 1]
        });
    }
    if has_slot(new, model, id) {
        let i = choose|i: int|
            0 <= i < new.len() && (#[trigger] new[i]).model_name == model && new[i].slot_id == id;
        if i != at {
            assert(new[i] == if i < at {
                slots[i]
            } else {
                slots[i - 1]
            });
        }
    }
    assert(slots.insert(slots.len() as int, slot) =~= slots.push(slot));
}

proof fn lemma_within(
    slots: Seq<SlotView>,
    model: Seq<char>,
    count: u64,
    n: nat,
    other: Seq<char>,
    id: u64,
)
    requires
        n <= slots.len(),
    ensures
        has_slot(within(slots, model, count, n), other, id) == (has_slot(
            slots.take(n as int),
            other,
            id,
        ) && (other != model || id < count)),
    decreases n,
{
    if n > 0 {
        lemma_within(slots, model, count, (n - 1) as nat, other, id);
        let earlier = within(slots, model, count, (n - 1) as nat);
        let front = slots.take(n - 1);
        assert(slots.take(n as int) =~= front.push(slots[n - 1]));
        lemma_one_more(front, front.len() as int, slots[n - 1], other, id);
        lemma_one_more(earlier, earlier.len() as int, slots[n - 1], other, id);
    }
}

proof fn lemma_filled(slots: Seq<SlotView>, model: Seq<char>, n: nat, other: Seq<char>, id: u64)
    requires
        n <= u64::MAX,
    ensures
        has_slot(filled(slots, model, n), other, id) == (has_slot(slots, other, id) || (other
            == model && id < n)),
    decreases n,
{
    if n > 0 {
        lemma_filled(slots, model, (n - 1) as nat, other, id);
        let earlier = filled(slots, model, (n - 1) as nat);
        let last = idle_slot(model, (n - 1) as u64);
        lemma_one_more(earlier, earlier.len() as int, last, other, id);
    }
}

proof fn lemma_completed(
    slots: Seq<SlotView>,
    models: Seq<Seq<char>>,
    p: ProfilesView,
    n: nat,
    model: Seq<char>,
    id: u64,
)
    requires
        n <= models.len(),
    ensures
        has_slot(completed(slots, models, p, n), model, id) == if models.take(n as int).contains(
            model,
        ) {
            id < slots_for(p, model)
        } else {
            has_slot(slots, model, id)
        },
    decreases n,
{
    if n > 0 {
        lemma_completed(slots, models, p, (n - 1) as nat, model, id);
        let earlier = completed(slots, models, p, (n - 1) as nat);
        let last = models[n - 1];
        let count = slots_for(p, last);
        lemma_within(earlier, last, count, earlier.len(), model, id);
        assert(earlier.take(earlier.len() as int) =~= earlier);
        lemma_filled(within(earlier, last, count, earlier.len()), last, count as nat, model, id);
        let front = models.take(n - 1);
        let all = models.take(n as int);
        assert(all =~= front.push(last));
        assert(all[n - 1] == last);
        if front.contains(model) {
            let i = choose|i: int| 0 <= i < front.len() && front[i] == model;
            assert(all[i] == model);
        }
    }
}

proof fn lemma_in_order(slots: Seq<SlotView>, n: nat, model: Seq<char>, id: u64)
    requires
        n <= slots.len(),
    ensures
        has_slot(in_order(slots, n), model, id) == has_slot(slots.take(n as int), model, id),
    decreases n,
{
    if n > 0 {
        lemma_in_order(slots, (n - 1) as nat, model, id);
        let earlier = in_order(slots, (n - 1) as nat);
        let front = slots.take(n - 1);
        assert(slots.take(n as int) =~= front.push(slots[n - 1]));
        lemma_one_more(front, front.len() as int, slots[n - 1], model, id);
        let pred = slot_not_after(slots[n - 1]);
        text::lemma_run(earlier, pred);
        lemma_one_more(earlier, text::run(earlier, pred) as int, slots[n - 1], model, id);
    }
}

/// For every model that is served exactly the slots that its profile asks for are shown, and
/// of other models those that the servers told of.
pub proof fn every_slot_is_shown(
    slots: Seq<SlotView>,
    models: Seq<Seq<char>>,
    p: ProfilesView,
    model: Seq<char>,
    id: u64,
)
    ensures
        ({
            let all = completed(slots, models, p, models.len());
            has_slot(in_order(all, all.len()), model, id) == if models.contains(model) {
                id < slots_for(p, model)
            } else {
                has_slot(slots, model, id)
            }
        }),
{
    let all = completed(slots, models, p, models.len());
    lemma_completed(slots, models, p, models.len(), model, id);
    lemma_in_order(all, all.len(), model, id);
    assert(models.take(models.len() as int) =~= models);
    assert(all.take(all.len() as int) =~= all);
}

/// The slots are shown in order: none comes before one that stands in front of it.
pub proof fn slots_are_in_order(slots: Seq<SlotView>, n: nat)
    requires
        n <= slots.len(),
    ensures
        in_order(slots, n).len() == n,
        forall|i: int, j: int|
            0 <= i < j < in_order(slots, n).len() ==> !slot_before(
                #[trigger] in_order(slots, n)[j],
                #[trigger] in_order(slots, n)[i],
            ),
    decreases n,
{
    if n > 0 {
        slots_are_in_order(slots, (n - 1) as nat);
        let earlier = in_order(slots, (n - 1) as nat);
        let slot = slots[n - 1];
        text::lemma_run(earlier, slot_not_after(slot));
        let at = text::run(earlier, slot_not_after(slot)) as int;
        let new = in_order(slots, n);
        assert forall|i: int, j: int| 0 <= i < j < new.len() implies !slot_before(
            #[trigger] new[j],
            #[trigger] new[i],
        ) by {
            let a = if i < at {
                i
            } else {
                i - 1
            };
            let b = if j < at {
                j
            } else {
                j - 1
            };
            if i != at {
                assert(new[i] == earlier[a]);
            }
            if j != at {
                assert(new[j] == earlier[b]);
            }
            if i != at && j != at {
                assert(!slot_before(earlier[b], earlier[a]));
            } else if j == at {
                assert(slot_not_after(slot)(earlier[a]));
            } else {
                // `slot` comes before the entry that it pushed back, which none behind it
                // comes before.
                let next = earlier[at];
                assert(slot_before(slot, next));
                if slot_before(new[j], slot) {
                    lemma_slot_transitive(new[j], slot, next);
                    if b > at {
                        assert(!slot_before(earlier[b], earlier[at]));
                    } else {
                        lemma_slot_irreflexive(next);
                    }
                }
            }
        }
    }
}

proof fn lemma_slot_transitive(a: SlotView, b: SlotView, c: SlotView)
    requires
        slot_before(a, b),
        slot_before(b, c),
    ensures
        slot_before(a, c),
{
    if text::before(a.model_name, b.model_name) && text::before(b.model_name, c.model_name) {
        text::lemma_before_transitive(a.model_name, b.model_name, c.model_name);
    }
}

proof fn lemma_slot_irreflexive(a: SlotView)
    ensures
        !slot_before(a, a),
{
    text::lemma_before_irreflexive(a.model_name);
}

/// Nanoseconds in a second.
pub const SECOND: u64 = 1_000_000_000;

/// How long it is from one time to a later one.
pub open spec fn since(now: u64, at: u64) -> nat {
    if now >= at {
        (now - at) as nat
    } else {
        0
    }
}

/// Whether a sample is older than five seconds.
pub open spec fn is_old(now: u64) -> spec_fn((u64, u64, u64)) -> bool {
    |s: (u64, u64, u64)| since(now, s.0) > 5 * SECOND
}

/// The samples of a slot after a look at it: none where it is idle, else those of the last
/// five seconds with a new one. A sample is a time, the tokens of the prompt and the decoded
/// tokens.
pub open spec fn sampled(
    samples: Seq<(u64, u64, u64)>,
    busy: bool,
    now: u64,
    prompt: u64,
    decoded: u64,
) -> Seq<(u64, u64, u64)> {
    if busy {
        let all = samples.push((now, prompt, decoded));
        all.skip(text::run(all, is_old(now)) as int)
    } else {
        seq![]
    }
}

/// What was done between the first and the last sample: the time, and the tokens of the
/// prompt and the decoded tokens where they did not become fewer.
pub open spec fn progress_of(samples: Seq<(u64, u64, u64)>) -> Option<
    (nat, Option<nat>, Option<nat>),
> {
    if samples.len() == 0 {
        None
    } else {
        let first = samples[0];
        let last = samples.last();
        if since(last.0, first.0) == 0 {
            None
        } else {
            Some(
                (
                    since(last.0, first.0),
                    if last.1 >= first.1 {
                        Some((last.1 - first.1) as nat)
                    } else {
                        None
                    },
                    if last.2 >= first.2 {
                        Some((last.2 - first.2) as nat)
                    } else {
                        None
                    },
                ),
            )
        }
    }
}

/// Takes a look at a slot.
pub fn sample(
    samples: Vec<(u64, u64, u64)>,
    busy: bool,
    now: u64,
    prompt: u64,
    decoded: u64,
) -> (out: Vec<(u64, u64, u64)>)
    ensures
        out@ == sampled(samples@, busy, now, prompt, decoded),
{
    let mut out: Vec<(u64, u64, u64)> = Vec::new();
    if !busy {
        proof {
            assert(out@ =~= seq![]);
        }
        return out;
    }
    let mut all: Vec<(u64, u64, u64)> = samples;
    all.push((now, prompt, decoded));
    let mut i: usize = 0;
    while i < all.len()
        invariant_except_break
            i <= all@.len(),
            forall|j: int| 0 <= j < i ==> is_old(now)(#[trigger] all@[j]),
        ensures
            i <= all@.len(),
            forall|j: int| 0 <= j < i ==> is_old(now)(#[trigger] all@[j]),
            i < all@.len() ==> !is_old(now)(all@[i as int]),
        decreases all@.len() - i,
    {
        let at: u64 = all[i].0;
        if !(now >= at && now - at > 5 * SECOND) {
            break ;
        }
        i += 1;
    }
    proof {
        text::lemma_run_unique(all@, is_old(now), i as int);
    }
    let ghost start = i as int;
    while i < all.len()
        invariant
            start <= i <= all@.len(),
            0 <= start,
            out@ == all@.subrange(start, i as int),
        decreases all@.len() - i,
    {
        out.push(all[i]);
        proof {
            assert(all@.subrange(start, i + 1) =~= all@.subrange(start, i as int).push(
                all@[i as int],
            ));
        }
        i += 1;
    }
    proof {
        assert(all@.subrange(start, all@.len() as int) =~= all@.skip(start));
    }
    out
}

/// What was done between the first and the last sample.
pub fn progress(samples: &Vec<(u64, u64, u64)>) -> (out: Option<(u64, Option<u64>, Option<u64>)>)
    ensures
        match (out, progress_of(samples@)) {
            (Some((t, p, d)), Some((u, q, e))) => {
                &&& t == u
                &&& (match (p, q) {
                    (Some(a), Some(b)) => a == b,
                    (None, None) => true,
                    _ => false,
                })
                &&& (match (d, e) {
                    (Some(a), Some(b)) => a == b,
                    (None, None) => true,
                    _ => false,
                })
            },
            (None, None) => true,
            _ => false,
        },
{
    if samples.len() == 0 {
        return None;
    }
    let first: (u64, u64, u64) = samples[0];
    let last: (u64, u64, u64) = samples[samples.len() - 1];
    if last.0 <= first.0 {
        return None;
    }
    Some(
        (
            last.0 - first.0,
            if last.1 >= first.1 {
                Some(last.1 - first.1)
            } else {
                None
            },
            if last.2 >= first.2 {
                Some(last.2 - first.2)
            } else {
                None
            },
        ),
    )
}

/// Whether the samples of a slot are kept: those of a slot that is there, and others for
/// half a minute.
pub fn keeps_samples(present: bool, last: Option<u64>, now: u64) -> (yes: bool)
    ensures
        yes == (present || match last {
            Some(at) => since(now, at) <= 30 * SECOND,
            None => false,
        }),
{
    if present {
        return true;
    }
    match last {
        Some(at) => !(now >= at && now - at > 30 * SECOND),
        None => false,
    }
}

/// The tokens that were generated since an earlier look, and the time since then; `None`
/// where it was too long ago.
pub fn generated_since(earlier: Option<(u64, u64)>, generated: u64, now: u64) -> (out: Option<
    (u64, u64),
>)
    ensures
        match earlier {
            Some((tokens, at)) => if 0 < since(now, at) <= 5 * SECOND && generated >= tokens {
                out == Some(((generated - tokens) as u64, (now - at) as u64))
            } else {
                out is None
            },
            None => out is None,
        },
{
    match earlier {
        Some((tokens, at)) => {
            if now > at && now - at <= 5 * SECOND && generated >= tokens {
                Some((generated - tokens, now - at))
            } else {
                None
            }
        },
        None => None,
    }
}

/// What is kept of a look for the next one: the time of an earlier look stays for five
/// seconds, and nothing is kept while no request is served.
pub fn next_look(earlier: Option<(u64, u64)>, generated: u64, active: u64, now: u64) -> (out: Option<
    (u64, u64),
>)
    ensures
        out == if active == 0 {
            None
        } else {
            match earlier {
                Some((_, at)) => if since(now, at) <= 5 * SECOND {
                    Some((generated, at))
                } else {
                    Some((generated, now))
                },
                None => Some((generated, now)),
            }
        },
{
    if active == 0 {
        return None;
    }
    match earlier {
        Some((_, at)) => {
            if now >= at && now - at > 5 * SECOND {
                Some((generated, now))
            } else {
                Some((generated, at))
            }
        },
        None => Some((generated, now)),
    }
}

/// The name that a slot is shown under.
pub open spec fn shown_name(slot: SlotView, names: Seq<char>) -> Seq<char> {
    if slot.model_name.len() > 0 {
        slot.model_name
    } else if names.len() > 0 {
        names
    } else {
        "MODEL"@
    }
}

pub open spec fn other_group(name: Seq<char>) -> spec_fn((Seq<char>, Seq<int>)) -> bool {
    |g: (Seq<char>, Seq<int>)| g.0 != name
}

/// The first `n` slots by the names that they are shown under, in the order in which the
/// names come up.
pub open spec fn groups_of(slots: Seq<SlotView>, names: Seq<char>, n: nat) -> Seq<
    (Seq<char>, Seq<int>),
>
    decreases n,
{
    if n == 0 {
        seq![]
    } else {
        let earlier = groups_of(slots, names, (n - 1) as nat);
        let name = shown_name(slots[n - 1], names);
        let at = text::run(earlier, other_group(name)) as int;
        if at < earlier.len() {
            earlier.update(at, (name, earlier[at].1.push(n - 1)))
        } else {
            earlier.push((name, seq![n - 1]))
        }
    }
}

pub open spec fn places(list: Seq<usize>) -> Seq<int> {
    list.map_values(|i: usize| i as int)
}

pub open spec fn group_views(groups: Seq<(String, Vec<usize>)>) -> Seq<(Seq<char>, Seq<int>)> {
    groups.map_values(|g: (String, Vec<usize>)| (g.0@, places(g.1@)))
}

/// Groups the slots by the names that they are shown under.
pub fn group_slots(slots: &Vec<Slot>, names: &str) -> (out: Vec<(String, Vec<usize>)>)
    ensures
        group_views(out@) == groups_of(slot_views(slots@), names@, slots@.len()),
{
    let ghost all = slot_views(slots@);
    let mut out: Vec<(String, Vec<usize>)> = Vec::new();
    let mut i: usize = 0;
    proof {
        assert(group_views(out@) =~= seq![]);
    }
    while i < slots.len()
        invariant
            i <= slots@.len(),
            all == slot_views(slots@),
            group_views(out@) == groups_of(all, names@, i as nat),
        decreases slots@.len() - i,
    {
        proof {
            assert(all[i as int] == slots@[i as int]@);
        }
        let name: String = if text::chars_of(slots[i].model_name.as_str()).len() > 0 {
            slots[i].model_name.clone()
        } else if text::chars_of(names).len() > 0 {
            names.to_owned()
        } else {
            "MODEL".to_owned()
        };
        let ghost before = group_views(out@);
        let mut at: usize = 0;
        while at < out.len()
            invariant_except_break
                at <= out@.len(),
                before == group_views(out@),
                before.len() == out@.len(),
                forall|j: int| 0 <= j < at ==> (#[trigger] before[j]).0 != name@,
            ensures
                at <= out@.len(),
                before == group_views(out@),
                before.len() == out@.len(),
                forall|j: int| 0 <= j < at ==> (#[trigger] before[j]).0 != name@,
                at < out@.len() ==> before[at as int].0 == name@,
            decreases out@.len() - at,
        {
            proof {
                assert(before[at as int].0 == out@[at as int].0@);
            }
            if text::same(out[at].0.as_str(), name.as_str()) {
                break ;
            }
            at += 1;
        }
        proof {
            text::lemma_run_unique(before, other_group(name@), at as int);
        }
        if at < out.len() {
            let mut members: Vec<usize> = out[at].1.clone();
            let ghost old_members = members@;
            members.push(i);
            proof {
                assert(old_members =~= out@[at as int].1@);
                assert(places(members@) =~= places(old_members).push(i as int));
                assert(before[at as int] == (
                    out@[at as int].0@,
                    places(out@[at as int].1@),
                ));
            }
            out.set(at, (name, members));
            proof {
                assert(group_views(out@) =~= before.update(
                    at as int,
                    (name@, before[at as int].1.push(i as int)),
                ));
            }
        } else {
            let mut members: Vec<usize> = Vec::new();
            members.push(i);
            proof {
                assert(places(members@) =~= seq![i as int]);
            }
            out.push((name, members));
            proof {
                assert(group_views(out@) =~= before.push((name@, seq![i as int])));
            }
        }
        i += 1;
    }
    out
}

} // verus!
