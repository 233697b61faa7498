//! Benchmarks of profiles: what is measured, in which order, and which results are
//! kept.
use vstd::prelude::*;
use vstd::utf8::*;

use crate::json;
use crate::json::{Json, JsonValue, Number};
use crate::metadata;
use crate::process;
use crate::process::TooLarge;
use crate::profiles;
use crate::table;
use crate::table::Table;
use crate::text;

verus! {

/// How many tokens the longest case generates.
pub const MAX_GENERATION_TOKENS: u64 = 700;

pub const CODING_TOKENS: u64 = 512;

pub const PROSE_TOKENS: u64 = 700;

/// How many cases a whole benchmark has.
pub const TOTAL_CASES: usize = 9;

/// A measured number, by the bits in which it is held.
#[derive(Clone, Copy, Debug, PartialEq, Eq, Structural)]
pub struct Real(pub u64);

/// What one case measured.
pub struct BenchmarkCase {
    pub name: String,
    pub kind: String,
    pub concurrency: u64,
    pub target_prompt_tokens: u64,
    pub actual_prompt_tokens: u64,
    pub actual_decode_tokens: u64,
    pub cached_prompt_tokens: u64,
    pub prompt_ms: Real,
    pub prompt_tokens_per_second: Real,
    pub decode_ms: Real,
    pub decode_tokens_per_second: Real,
    pub decode_peak_tokens_per_second: Real,
    pub decode_median_tokens_per_second: Real,
    pub time_to_first_response_ms: Real,
    pub peak_vram_bytes: u64,
    pub peak_ram_bytes: u64,
    pub token_arrival_ms: Vec<Real>,
}

/// One benchmark of a profile.
pub struct BenchmarkRun {
    pub timestamp_unix: u64,
    pub profile: String,
    pub profile_hash: String,
    pub model: String,
    pub model_path: String,
    pub model_bytes: u64,
    pub runtime: String,
    pub runtime_version: String,
    pub backend: String,
    pub effective_context: u64,
    pub output_tokens: u64,
    pub load_ms: u64,
    pub effective_args: Vec<String>,
    pub cases: Vec<BenchmarkCase>,
}

/// What a benchmark is at. Times are in nanoseconds.
pub enum BenchmarkProgress {
    Preparing,
    StoppingServer,
    LoadingRuntime,
    Ready { runtime: String, effective_context: u64, load_ms: u64 },
    CaseStarted { name: String, target_prompt_tokens: u64, started_at: u64 },
    CaseCompleted(BenchmarkCase),
    RestoringServer,
}

/// Which profile a run was of, and all else that it says.
pub ghost struct RunView {
    pub profile: Seq<char>,
    pub rest: RunRest,
}

pub ghost struct RunRest {
    pub timestamp_unix: u64,
    pub profile_hash: Seq<char>,
    pub model: Seq<char>,
    pub model_path: Seq<char>,
    pub model_bytes: u64,
    pub runtime: Seq<char>,
    pub runtime_version: Seq<char>,
    pub backend: Seq<char>,
    pub effective_context: u64,
    pub output_tokens: u64,
    pub load_ms: u64,
    pub effective_args: Seq<String>,
    pub cases: Seq<BenchmarkCase>,
}

impl View for BenchmarkRun {
    type V = RunView;

    open spec fn view(&self) -> RunView {
        RunView {
            profile: self.profile@,
            rest: RunRest {
                timestamp_unix: self.timestamp_unix,
                profile_hash: self.profile_hash@,
                model: self.model@,
                model_path: self.model_path@,
                model_bytes: self.model_bytes,
                runtime: self.runtime@,
                runtime_version: self.runtime_version@,
                backend: self.backend@,
                effective_context: self.effective_context,
                output_tokens: self.output_tokens,
                load_ms: self.load_ms,
                effective_args: self.effective_args@,
                cases: self.cases@,
            },
        }
    }
}

pub open spec fn run_views(runs: Seq<BenchmarkRun>) -> Seq<RunView> {
    runs.map_values(|r: BenchmarkRun| r@)
}

/// The runs of a profile as their views, as a function.
pub open spec fn to_runs() -> spec_fn(Vec<BenchmarkRun>) -> Seq<RunView> {
    |v: Vec<BenchmarkRun>| run_views(v@)
}

/// The runs that are kept, by profile, the oldest first.
pub struct ProfileBenchmarks {
    pub profiles: Table<Vec<BenchmarkRun>>,
}

impl View for ProfileBenchmarks {
    type V = Seq<(Seq<char>, Seq<RunView>)>;

    open spec fn view(&self) -> Seq<(Seq<char>, Seq<RunView>)> {
        table::mapped(self.profiles@, to_runs())
    }
}

impl Default for ProfileBenchmarks {
    fn default() -> (out: ProfileBenchmarks)
        ensures
            out@ == Seq::<(Seq<char>, Seq<RunView>)>::empty(),
    {
        let out: ProfileBenchmarks = ProfileBenchmarks { profiles: Table::new() };
        proof {
            assert(out@ =~= Seq::<(Seq<char>, Seq<RunView>)>::empty());
        }
        out
    }
}

/// The last two of some runs.
pub open spec fn last_two(runs: Seq<RunView>) -> Seq<RunView> {
    if runs.len() > 2 {
        runs.skip(runs.len() - 2)
    } else {
        runs
    }
}

/// The runs that are kept after one more.
pub open spec fn with_run(
    store: Seq<(Seq<char>, Seq<RunView>)>,
    profile: Seq<char>,
    run: RunView,
) -> Seq<(Seq<char>, Seq<RunView>)> {
    let held = match table::lookup(store, profile) {
        Some(runs) => runs,
        None => seq![],
    };
    table::put(store, profile, last_two(held.push(run)))
}

/// Runs as those of another profile.
pub open spec fn of_profile(runs: Seq<RunView>, profile: Seq<char>) -> Seq<RunView> {
    runs.map_values(|r: RunView| RunView { profile, ..r })
}

/// The runs that are kept after a profile got another name.
pub open spec fn with_name(
    store: Seq<(Seq<char>, Seq<RunView>)>,
    old_name: Seq<char>,
    new_name: Seq<char>,
) -> Seq<(Seq<char>, Seq<RunView>)> {
    match table::lookup(store, old_name) {
        Some(runs) => table::put(
            table::without(store, old_name),
            new_name,
            of_profile(runs, new_name),
        ),
        None => store,
    }
}

impl ProfileBenchmarks {
    /// Keeps a run, and of each profile the last two.
    pub fn add(&mut self, profile: &str, run: BenchmarkRun)
        ensures
            final(self)@ == with_run(old(self)@, profile@, run@),
    {
        proof {
            table::lemma_mapped_lookup(self.profiles@, to_runs(), profile@);
            use_type_invariant(&self.profiles);
        }
        let ghost before = self@;
        let ghost held = match table::lookup(before, profile@) {
            Some(runs) => runs,
            None => seq![],
        };
        let mut runs: Vec<BenchmarkRun> = match self.profiles.remove(profile) {
            Some(runs) => runs,
            None => Vec::new(),
        };
        proof {
            assert(run_views(runs@) =~= held);
        }
        runs.push(run);
        let ghost all = held.push(run@);
        proof {
            assert(run_views(runs@) =~= all);
        }
        let ghost mut dropped: int = 0;
        while runs.len() > 2
            invariant
                0 <= dropped <= all.len(),
                run_views(runs@) == all.skip(dropped),
                runs@.len() == all.len() - dropped,
                all.len() > 2 ==> dropped <= all.len() - 2,
                all.len() <= 2 ==> dropped == 0,
            decreases runs@.len(),
        {
            let ghost earlier = runs@;
            let _oldest: BenchmarkRun = runs.remove(0);
            proof {
                dropped = dropped + 1;
                assert(runs@ =~= earlier.skip(1));
                assert(run_views(runs@) =~= run_views(earlier).skip(1));
                assert(all.skip(dropped - 1).skip(1) =~= all.skip(dropped));
            }
        }
        proof {
            assert(run_views(runs@) =~= last_two(all));
            table::lemma_mapped_put(
                table::without(old(self).profiles@, profile@),
                to_runs(),
                profile@,
                runs,
            );
            table::lemma_mapped_put(old(self).profiles@, to_runs(), profile@, runs);
            table::put_after_without(old(self).profiles@, profile@, runs);
        }
        self.profiles.insert(profile.to_owned(), runs);
    }

    pub fn rename(&mut self, old_name: &str, new_name: &str)
        ensures
            final(self)@ == with_name(old(self)@, old_name@, new_name@),
    {
        proof {
            table::lemma_mapped_lookup(self.profiles@, to_runs(), old_name@);
        }
        let ghost before = self.profiles@;
        match self.profiles.remove(old_name) {
            Some(mut runs) => {
                let ghost given = run_views(runs@);
                let ghost wanted = of_profile(given, new_name@);
                let mut i: usize = 0;
                while i < runs.len()
                    invariant
                        i <= runs@.len(),
                        given.len() == runs@.len(),
                        wanted == of_profile(given, new_name@),
                        forall|j: int| 0 <= j < i ==> (#[trigger] runs@[j])@ == wanted[j],
                        forall|j: int| i <= j < runs@.len() ==> (#[trigger] runs@[j])@ == given[j],
                    decreases runs@.len() - i,
                {
                    let ghost earlier = runs@;
                    let mut run: BenchmarkRun = runs.remove(i);
                    run.profile = new_name.to_owned();
                    proof {
                        assert(earlier[i as int]@ == given[i as int]);
                        assert(run@ == wanted[i as int]);
                    }
                    runs.insert(i, run);
                    proof {
                        assert forall|j: int| 0 <= j < runs@.len() && j != i implies #[trigger] runs@[j]
                            == earlier[j] by {}
                    }
                    i += 1;
                }
                proof {
                    assert(run_views(runs@) =~= wanted);
                    table::lemma_mapped_put(
                        table::without(before, old_name@),
                        to_runs(),
                        new_name@,
                        runs,
                    );
                }
                self.profiles.insert(new_name.to_owned(), runs);
            },
            None => {},
        }
    }

    pub fn remove(&mut self, profile: &str)
        ensures
            final(self)@ == table::without(old(self)@, profile@),
    {
        proof {
            table::lemma_mapped_lookup(self.profiles@, to_runs(), profile@);
        }
        let _gone: Option<Vec<BenchmarkRun>> = self.profiles.remove(profile);
    }
}

/// However often runs are added, each profile keeps at most two of them.
pub proof fn at_most_two_runs(
    store: Seq<(Seq<char>, Seq<RunView>)>,
    profile: Seq<char>,
    run: RunView,
    i: int,
)
    requires
        table::ordered(store),
        forall|j: int| 0 <= j < store.len() ==> (#[trigger] store[j]).1.len() <= 2,
        0 <= i < with_run(store, profile, run).len(),
    ensures
        with_run(store, profile, run)[i].1.len() <= 2,
{
    let held = match table::lookup(store, profile) {
        Some(runs) => runs,
        None => seq![],
    };
    let value = last_two(held.push(run));
    let new = with_run(store, profile, run);
    table::put_keeps_order(store, profile, value);
    table::lemma_lookup_at(new, i);
    table::put_then_lookup(store, profile, value, new[i].0);
    if new[i].0 != profile {
        let p = table::key_differs::<Seq<RunView>>(new[i].0);
        text::lemma_run(store, p);
        let at = text::run(store, p) as int;
        assert(store[at].1 == new[i].1);
    }
}

/// The run that was added is the last one of its profile, behind the last one before,
/// and other profiles keep theirs.
pub proof fn add_keeps_the_latest(
    store: Seq<(Seq<char>, Seq<RunView>)>,
    profile: Seq<char>,
    run: RunView,
    other: Seq<char>,
)
    requires
        table::ordered(store),
    ensures
        table::lookup(with_run(store, profile, run), profile) matches Some(runs) && runs.len() > 0
            && runs.last() == run,
        match table::lookup(store, profile) {
            Some(held) => held.len() > 0 ==> table::lookup(with_run(store, profile, run), profile)
                == Some(seq![held.last(), run]),
            None => true,
        },
        other != profile ==> table::lookup(with_run(store, profile, run), other) == table::lookup(
            store,
            other,
        ),
{
    let held = match table::lookup(store, profile) {
        Some(runs) => runs,
        None => seq![],
    };
    let value = last_two(held.push(run));
    table::put_then_lookup(store, profile, value, other);
    if held.len() > 0 {
        assert(value =~= seq![held.last(), run]);
    }
}

/// A profile's runs move to its new name and are the same but for the name.
pub proof fn rename_moves_runs(
    store: Seq<(Seq<char>, Seq<RunView>)>,
    old_name: Seq<char>,
    new_name: Seq<char>,
)
    requires
        table::ordered(store),
        table::lookup(store, old_name) is Some,
        old_name != new_name,
    ensures
        table::lookup(with_name(store, old_name, new_name), old_name) is None,
        table::lookup(with_name(store, old_name, new_name), new_name) == Some(
            of_profile(table::lookup(store, old_name)->Some_0, new_name),
        ),
{
    let runs = of_profile(table::lookup(store, old_name)->Some_0, new_name);
    let rest = table::without(store, old_name);
    table::without_keeps_order(store, old_name);
    table::without_then_lookup(store, old_name, old_name);
    table::put_then_lookup(rest, new_name, runs, old_name);
}

/// A prompt of `target` tokens that repeats the seed.
pub open spec fn repeated(seed: Seq<i64>, target: nat) -> Seq<i64> {
    Seq::new(target, |i: int| seed[i % seed.len() as int])
}

pub fn repeated_prompt(seed: &[i64], target: usize) -> (out: Vec<i64>)
    requires
        seed@.len() > 0 || target == 0,
    ensures
        out@ == repeated(seed@, target as nat),
{
    let mut out: Vec<i64> = Vec::new();
    let mut at: usize = 0;
    proof {
        if seed@.len() > 0 {
            vstd::arithmetic::div_mod::lemma_small_mod(0, seed@.len());
        }
    }
    while out.len() < target
        invariant
            out@.len() <= target,
            seed@.len() > 0 || target == 0,
            seed@.len() > 0 ==> at < seed@.len() && at == out@.len() % seed@.len(),
            out@ == repeated(seed@, target as nat).take(out@.len() as int),
        decreases target - out@.len(),
    {
        let ghost before = out@;
        out.push(seed[at]);
        proof {
            let n = seed@.len() as int;
            let k = before.len() as int;
            vstd::arithmetic::div_mod::lemma_fundamental_div_mod(k, n);
            let q = k / n;
            assert(n * q == q * n) by (nonlinear_arith);
            if at + 1 == n {
                assert((q + 1) * n == q * n + n) by (nonlinear_arith);
                vstd::arithmetic::div_mod::lemma_fundamental_div_mod_converse(k + 1, n, q + 1, 0);
            } else {
                vstd::arithmetic::div_mod::lemma_fundamental_div_mod_converse(
                    k + 1,
                    n,
                    q,
                    at + 1,
                );
            }
            assert(out@ =~= repeated(seed@, target as nat).take(out@.len() as int));
        }
        at = if at + 1 == seed.len() {
            0
        } else {
            at + 1
        };
    }
    proof {
        assert(repeated(seed@, target as nat).take(target as int) =~= repeated(
            seed@,
            target as nat,
        ));
    }
    out
}

/// The seed turned left by `by` places.
pub open spec fn turned(seed: Seq<i64>, by: int) -> Seq<i64> {
    seed.skip(by) + seed.take(by)
}

/// The prompt of a case: each case starts at another place of the seed, so that nothing
/// of an earlier one can be used again.
pub open spec fn prefill_of(seed: Seq<i64>, index: nat, target: nat) -> Seq<i64> {
    repeated(turned(seed, (index * 7) as int % seed.len() as int), target)
}

pub fn prefill_prompt(seed: &[i64], index: usize, target: usize) -> (out: Vec<i64>)
    requires
        seed@.len() > 0,
        index * 7 <= usize::MAX,
    ensures
        out@ == prefill_of(seed@, index as nat, target as nat),
{
    let by: usize = (index * 7) % seed.len();
    let mut own: Vec<i64> = Vec::new();
    let ghost wanted = turned(seed@, by as int);
    let mut i: usize = by;
    while i < seed.len()
        invariant
            by <= i <= seed@.len(),
            own@ == seed@.subrange(by as int, i as int),
        decreases seed@.len() - i,
    {
        own.push(seed[i]);
        proof {
            assert(own@ =~= seed@.subrange(by as int, i + 1));
        }
        i += 1;
    }
    let ghost front = own@;
    let mut k: usize = 0;
    proof {
        assert(front =~= seed@.skip(by as int));
        assert(own@ =~= front + seed@.take(0));
    }
    while k < by
        invariant
            k <= by < seed@.len(),
            own@ == front + seed@.take(k as int),
        decreases by - k,
    {
        own.push(seed[k]);
        proof {
            assert(own@ =~= front + seed@.take(k + 1));
        }
        k += 1;
    }
    proof {
        assert(own@ =~= wanted);
    }
    repeated_prompt(own.as_slice(), target)
}

/// The last number behind one of some flags, among the first `n` arguments.
pub open spec fn last_number(args: Seq<Seq<char>>, flags: Seq<Seq<char>>, n: nat) -> Option<u64>
    decreases n,
{
    if n == 0 {
        None
    } else if flags.contains(args[n - 1]) && n < args.len() && text::u64_of(args[n as int]) is Some {
        text::u64_of(args[n as int])
    } else {
        last_number(args, flags, (n - 1) as nat)
    }
}

/// The context that the arguments ask for, where they say so with a number.
pub open spec fn context_flags() -> Seq<Seq<char>> {
    seq!["--ctx-size"@, "-c"@]
}

pub fn flag_context(args: &[String]) -> (out: Option<u64>)
    ensures
        out == last_number(text::views(args@), context_flags(), args@.len()),
{
    let ghost all = text::views(args@);
    let mut n: usize = args.len();
    proof {
        assert(context_flags()[0] == "--ctx-size"@ && context_flags()[1] == "-c"@);
    }
    while n > 0
        invariant
            n <= args@.len(),
            all == text::views(args@),
            context_flags()[0] == "--ctx-size"@,
            context_flags()[1] == "-c"@,
            last_number(all, context_flags(), args@.len()) == last_number(
                all,
                context_flags(),
                n as nat,
            ),
        decreases n,
    {
        proof {
            assert(all[n - 1] == args@[n - 1]@);
            assert(n < args@.len() ==> all[n as int] == args@[n as int]@);
        }
        let named: bool = text::same(args[n - 1].as_str(), "--ctx-size") || text::same(
            args[n - 1].as_str(),
            "-c",
        );
        proof {
            if named {
                assert(context_flags().contains(all[n - 1]));
            }
        }
        if named && n < args.len() {
            let found: Option<u64> = text::parse_u64(args[n].as_str());
            if found.is_some() {
                return found;
            }
        }
        n -= 1;
    }
    None
}

/// The context that a benchmark reckons with: what is configured, at least 512, and no
/// more than the model's own.
pub open spec fn context_for(given: Option<u64>, configured: u64, limit: Option<u64>) -> u64 {
    let wanted = match given {
        Some(n) => n,
        None => configured,
    };
    let enough = if wanted < 512 {
        512
    } else {
        wanted
    };
    match limit {
        Some(n) if n < enough => n,
        _ => enough,
    }
}

pub fn effective_context(args: &[String], configured: u64, limit: Option<u64>) -> (out: u64)
    ensures
        out == context_for(
            last_number(text::views(args@), context_flags(), args@.len()),
            configured,
            limit,
        ),
{
    let wanted: u64 = match flag_context(args) {
        Some(n) => n,
        None => configured,
    };
    let enough: u64 = if wanted < 512 {
        512
    } else {
        wanted
    };
    match limit {
        Some(n) => if n < enough {
            n
        } else {
            enough
        },
        None => enough,
    }
}

/// Whether a context is large enough for the longest case.
pub fn is_enough(context: u64) -> (yes: bool)
    ensures
        yes == (context > MAX_GENERATION_TOKENS + 32),
{
    context > MAX_GENERATION_TOKENS + 32
}

/// A wanted number of tokens within what a case can have: at least 32, and 32 fewer
/// than the context.
pub fn bounded_target(wanted: u64, context: u64) -> (out: u64)
    requires
        context >= 64,
    ensures
        out == (if wanted < 32 {
            32
        } else if wanted > context - 32 {
            (context - 32) as u64
        } else {
            wanted
        }),
{
    if wanted < 32 {
        32
    } else if wanted > context - 32 {
        context - 32
    } else {
        wanted
    }
}

/// What a case does.
#[derive(Clone, Copy, Debug, PartialEq, Eq, Structural)]
pub enum Work {
    /// Reads a prompt that takes a part of the context: a little, a quarter, most.
    PrefillShort,
    PrefillMedium,
    PrefillLong,
    /// Writes code.
    Coding,
    /// Writes a story.
    ProseEn,
    /// Translates the story.
    ProseZh,
}

/// One case: what it does, and whether it does it in all slots at once.
#[derive(Clone, Copy, Debug, PartialEq, Eq, Structural)]
pub struct CasePlan {
    pub work: Work,
    pub slots: bool,
}

/// The cases of a benchmark in their order. Those for all slots come last, and only
/// where there is more than one slot.
pub open spec fn all_cases(slots: u64) -> Seq<CasePlan> {
    let single = seq![
        CasePlan { work: Work::PrefillShort, slots: false },
        CasePlan { work: Work::PrefillMedium, slots: false },
        CasePlan { work: Work::Coding, slots: false },
        CasePlan { work: Work::ProseEn, slots: false },
        CasePlan { work: Work::ProseZh, slots: false },
        CasePlan { work: Work::PrefillLong, slots: false },
    ];
    if slots > 1 {
        single + seq![
            CasePlan { work: Work::Coding, slots: true },
            CasePlan { work: Work::ProseEn, slots: true },
            CasePlan { work: Work::ProseZh, slots: true },
        ]
    } else {
        single
    }
}

/// The first `max` cases.
pub open spec fn cases_of(slots: u64, max: nat) -> Seq<CasePlan> {
    if max < all_cases(slots).len() {
        all_cases(slots).take(max as int)
    } else {
        all_cases(slots)
    }
}

pub fn plan_cases(slots: u64, max_cases: usize) -> (out: Vec<CasePlan>)
    ensures
        out@ == cases_of(slots, max_cases as nat),
        out@.len() <= TOTAL_CASES,
{
    let mut out: Vec<CasePlan> = Vec::new();
    out.push(CasePlan { work: Work::PrefillShort, slots: false });
    out.push(CasePlan { work: Work::PrefillMedium, slots: false });
    out.push(CasePlan { work: Work::Coding, slots: false });
    out.push(CasePlan { work: Work::ProseEn, slots: false });
    out.push(CasePlan { work: Work::ProseZh, slots: false });
    out.push(CasePlan { work: Work::PrefillLong, slots: false });
    if slots > 1 {
        out.push(CasePlan { work: Work::Coding, slots: true });
        out.push(CasePlan { work: Work::ProseEn, slots: true });
        out.push(CasePlan { work: Work::ProseZh, slots: true });
    }
    proof {
        assert(out@ =~= all_cases(slots));
    }
    if max_cases < out.len() {
        out.truncate(max_cases);
        proof {
            assert(out@ =~= all_cases(slots).take(max_cases as int));
        }
    }
    out
}

/// The name under which a case is shown.
pub open spec fn case_name_of(c: CasePlan) -> Seq<char> {
    match c.work {
        Work::PrefillShort => "prefill-short"@,
        Work::PrefillMedium => "prefill-medium"@,
        Work::PrefillLong => "prefill-long"@,
        Work::Coding => if c.slots {
            "coding-slots"@
        } else {
            "coding-single"@
        },
        Work::ProseEn => if c.slots {
            "prose-en-slots"@
        } else {
            "prose-en-single"@
        },
        Work::ProseZh => if c.slots {
            "prose-zh-slots"@
        } else {
            "prose-zh-single"@
        },
    }
}

pub fn case_name(c: &CasePlan) -> (out: &'static str)
    ensures
        out@ == case_name_of(*c),
{
    match c.work {
        Work::PrefillShort => "prefill-short",
        Work::PrefillMedium => "prefill-medium",
        Work::PrefillLong => "prefill-long",
        Work::Coding => if c.slots {
            "coding-slots"
        } else {
            "coding-single"
        },
        Work::ProseEn => if c.slots {
            "prose-en-slots"
        } else {
            "prose-en-single"
        },
        Work::ProseZh => if c.slots {
            "prose-zh-slots"
        } else {
            "prose-zh-single"
        },
    }
}

/// What the results call a case's kind.
pub open spec fn case_kind_of(w: Work) -> Seq<char> {
    match w {
        Work::Coding => "coding"@,
        Work::ProseEn | Work::ProseZh => "prose"@,
        _ => "prefill"@,
    }
}

pub fn case_kind(w: Work) -> (out: &'static str)
    ensures
        out@ == case_kind_of(w),
{
    match w {
        Work::Coding => "coding",
        Work::ProseEn => "prose",
        Work::ProseZh => "prose",
        _ => "prefill",
    }
}

/// How many tokens a case generates.
pub fn case_tokens(w: Work) -> (out: u64)
    ensures
        out == match w {
            Work::Coding => CODING_TOKENS,
            Work::ProseEn => PROSE_TOKENS,
            Work::ProseZh => PROSE_TOKENS,
            _ => 0,
        },
{
    match w {
        Work::Coding => CODING_TOKENS,
        Work::ProseEn => PROSE_TOKENS,
        Work::ProseZh => PROSE_TOKENS,
        _ => 0,
    }
}

pub open spec fn coding_prompt() -> Seq<char> {
    "Write a complete, correct Python module implementing a Red-Black tree with insert, delete, and search. Include left/right rotation helpers, docstrings with type hints, and a self-test under `if __name__ == '__main__':` that inserts, searches, and deletes several values and prints the inorder traversal. The code must run as-is."@
}

pub open spec fn story_prompt() -> Seq<char> {
    "Write a 500-word short story in English about a lighthouse keeper who finds a message in a bottle that changes everything. Use vivid sensory imagery and give it a clear beginning, middle, and end."@
}

pub open spec fn translation_prompt(story: Seq<char>) -> Seq<char> {
    "Translate the following English short story into natural, fluent Simplified Chinese. Preserve tone, imagery, and paragraph breaks:\n\n"@
        + story
}

/// What a case asks the model for: one prompt, or one for each slot. A translation is
/// of the stories that the case before it gave.
pub open spec fn prompts_of(w: Work, count: nat, stories: Seq<Seq<char>>) -> Seq<Seq<char>> {
    match w {
        Work::Coding => Seq::new(count, |i: int| coding_prompt()),
        Work::ProseEn => Seq::new(count, |i: int| story_prompt()),
        Work::ProseZh => stories.map_values(|s: Seq<char>| translation_prompt(s)),
        _ => seq![],
    }
}

fn copies(s: &str, count: usize) -> (out: Vec<String>)
    ensures
        text::views(out@) == Seq::new(count as nat, |i: int| s@),
{
    let ghost all = Seq::new(count as nat, |i: int| s@);
    let mut out: Vec<String> = Vec::new();
    let mut i: usize = 0;
    proof {
        assert(text::views(out@) =~= all.take(0));
    }
    while i < count
        invariant
            i <= count,
            all == Seq::new(count as nat, |i: int| s@),
            text::views(out@) == all.take(i as int),
        decreases count - i,
    {
        process::add(&mut out, s);
        proof {
            assert(all.take(i + 1) =~= all.take(i as int).push(s@));
        }
        i += 1;
    }
    proof {
        assert(all.take(count as int) =~= all);
    }
    out
}

pub fn prompts(w: Work, count: usize, stories: &Vec<String>) -> (out: Vec<String>)
    ensures
        text::views(out@) == prompts_of(w, count as nat, text::views(stories@)),
{
    match w {
        Work::Coding => {
            let out: Vec<String> = copies(
                "Write a complete, correct Python module implementing a Red-Black tree with insert, delete, and search. Include left/right rotation helpers, docstrings with type hints, and a self-test under `if __name__ == '__main__':` that inserts, searches, and deletes several values and prints the inorder traversal. The code must run as-is.",
                count,
            );
            proof {
                assert(text::views(out@) =~= prompts_of(w, count as nat, text::views(stories@)));
            }
            out
        },
        Work::ProseEn => {
            let out: Vec<String> = copies(
                "Write a 500-word short story in English about a lighthouse keeper who finds a message in a bottle that changes everything. Use vivid sensory imagery and give it a clear beginning, middle, and end.",
                count,
            );
            proof {
                assert(text::views(out@) =~= prompts_of(w, count as nat, text::views(stories@)));
            }
            out
        },
        Work::ProseZh => {
            let ghost all = prompts_of(w, count as nat, text::views(stories@));
            let mut out: Vec<String> = Vec::new();
            let mut i: usize = 0;
            proof {
                assert(text::views(out@) =~= all.take(0));
            }
            while i < stories.len()
                invariant
                    i <= stories@.len(),
                    all == text::views(stories@).map_values(|s: Seq<char>| translation_prompt(s)),
                    text::views(out@) == all.take(i as int),
                decreases stories@.len() - i,
            {
                let mut item: String = "Translate the following English short story into natural, fluent Simplified Chinese. Preserve tone, imagery, and paragraph breaks:\n\n".to_owned();
                item.append(stories[i].as_str());
                process::add(&mut out, item.as_str());
                proof {
                    assert(all[i as int] == item@);
                    assert(all.take(i + 1) =~= all.take(i as int).push(all[i as int]));
                }
                i += 1;
            }
            proof {
                assert(all.take(all.len() as int) =~= all);
            }
            out
        },
        _ => {
            let out: Vec<String> = Vec::new();
            proof {
                assert(text::views(out@) =~= seq![]);
            }
            out
        },
    }
}

/// What comes next in a benchmark.
#[derive(Clone, Copy, Debug, PartialEq, Eq, Structural)]
pub enum Step {
    /// The case at this place.
    Run(usize),
    /// It was cancelled.
    Cancelled,
    /// All cases are done.
    Finished,
}

/// Decides what comes next when `done` of `planned` cases are done.
pub fn next_step(done: usize, planned: usize, cancelled: bool) -> (out: Step)
    ensures
        out == (if done >= planned {
            Step::Finished
        } else if cancelled {
            Step::Cancelled
        } else {
            Step::Run(done)
        }),
{
    if done >= planned {
        Step::Finished
    } else if cancelled {
        Step::Cancelled
    } else {
        Step::Run(done)
    }
}

/// Whether the results of a benchmark are kept: those of one that was finished, or was
/// cancelled after at least one case.
pub fn keeps_results(finished: bool, cancelled: bool, cases: usize) -> (yes: bool)
    ensures
        yes == (finished || (cancelled && cases > 0)),
{
    finished || (cancelled && cases > 0)
}

/// What one line of a completion stream says.
pub struct StreamEvent {
    pub content: String,
    pub tokens: usize,
    /// The event itself, where it is the last one.
    pub last: Option<JsonValue>,
}

/// The text in an event.
pub open spec fn event_content(event: Json) -> Seq<char> {
    match json::member_in(event, "content"@) {
        Some(Json::Text(s)) => s,
        _ => seq![],
    }
}

/// How many tokens an event brings: as many as it lists, else one where it has text.
pub open spec fn event_tokens(event: Json) -> nat {
    match json::member_in(event, "tokens"@) {
        Some(Json::Array(items)) => items.len(),
        _ => if event_content(event).len() > 0 {
            1
        } else {
            0
        },
    }
}

/// Whether an event is the last one: it says so, or it has the timings.
pub open spec fn is_last(event: Json) -> bool {
    json::member_in(event, "stop"@) == Some(Json::Bool(true)) || json::member_in(
        event,
        "timings"@,
    ) is Some
}

/// What an event of a completion stream says.
pub fn stream_event(event: JsonValue) -> (out: StreamEvent)
    ensures
        out.content@ == event_content(event@),
        out.tokens == event_tokens(event@),
        match out.last {
            Some(v) => is_last(event@) && v@ == event@,
            None => !is_last(event@),
        },
{
    let content: String = match event.get("content") {
        Some(v) => match v.as_str() {
            Some(s) => s.to_owned(),
            None => String::new(),
        },
        None => String::new(),
    };
    proof {
        match json::member_in(event@, "content"@) {
            Some(Json::Text(s)) => {},
            _ => {
                assert(content@ =~= seq![]);
            },
        }
    }
    let listed: Option<usize> = match event.get("tokens") {
        Some(v) => match v.as_array() {
            Some(items) => Some(items.len()),
            None => None,
        },
        None => None,
    };
    let tokens: usize = match listed {
        Some(n) => n,
        None => if text::chars_of(content.as_str()).len() > 0 {
            1
        } else {
            0
        },
    };
    let stop: bool = match event.get("stop") {
        Some(v) => match v.as_bool() {
            Some(b) => b,
            None => false,
        },
        None => false,
    };
    let last: Option<JsonValue> = if stop || event.get("timings").is_some() {
        Some(event)
    } else {
        None
    };
    StreamEvent { content, tokens, last }
}

/// The data on a line of a completion stream; none where the line has none or says that
/// the stream ends.
pub open spec fn line_data_of(line: Seq<char>) -> Option<Seq<char>> {
    let front = "data:"@;
    if !front.is_prefix_of(line) {
        None
    } else {
        let data = text::trim_of(line.skip(front.len() as int));
        if data.len() == 0 || data == "[DONE]"@ {
            None
        } else {
            Some(data)
        }
    }
}

pub fn line_data(line: &str) -> (out: Option<String>)
    ensures
        metadata::text_view(out) == line_data_of(line@),
{
    match process::after_prefix(line, "data:") {
        Some(s) => {
            let data: String = text::trim(s.as_str());
            if text::chars_of(data.as_str()).len() == 0 || text::same(data.as_str(), "[DONE]") {
                None
            } else {
                Some(data)
            }
        },
        None => None,
    }
}

/// A number under a key of an answer's timings.
pub open spec fn timing_of(answer: Json, key: Seq<char>) -> Option<u64> {
    match json::member_in(answer, "timings"@) {
        Some(timings) => match json::member_in(timings, key) {
            Some(v) => json::unsigned_in(v),
            None => None,
        },
        None => None,
    }
}

pub fn timing(answer: &JsonValue, key: &str) -> (out: Option<u64>)
    ensures
        out == timing_of(answer@, key@),
{
    match answer.get("timings") {
        Some(timings) => match timings.get(key) {
            Some(v) => v.as_u64(),
            None => None,
        },
        None => None,
    }
}

pub open spec fn number_in(answer: Json, key: Seq<char>) -> Option<u64> {
    match json::member_in(answer, key) {
        Some(v) => json::unsigned_in(v),
        None => None,
    }
}

/// The tokens of a prompt, of an answer and of what was held before, as an answer
/// counts them; `arrived` is how many tokens came.
pub open spec fn counts_of(answer: Json, arrived: u64) -> (u64, u64, u64) {
    (
        match timing_of(answer, "prompt_n"@) {
            Some(n) => n,
            None => metadata::or_default(number_in(answer, "tokens_evaluated"@), 0),
        },
        metadata::or_default(timing_of(answer, "predicted_n"@), arrived),
        metadata::or_default(number_in(answer, "tokens_cached"@), 0),
    )
}

fn number(answer: &JsonValue, key: &str) -> (out: Option<u64>)
    ensures
        out == number_in(answer@, key@),
{
    match answer.get(key) {
        Some(v) => v.as_u64(),
        None => None,
    }
}

pub fn generation_counts(answer: &JsonValue, arrived: u64) -> (out: (u64, u64, u64))
    ensures
        out == counts_of(answer@, arrived),
{
    let prompt: u64 = match timing(answer, "prompt_n") {
        Some(n) => n,
        None => match number(answer, "tokens_evaluated") {
            Some(n) => n,
            None => 0,
        },
    };
    let decoded: u64 = match timing(answer, "predicted_n") {
        Some(n) => n,
        None => arrived,
    };
    let cached: u64 = match number(answer, "tokens_cached") {
        Some(n) => n,
        None => 0,
    };
    (prompt, decoded, cached)
}

/// The context and the number of slots that a server states.
pub open spec fn props_of(props: Json) -> Option<(u64, u64)> {
    match json::member_in(props, "default_generation_settings"@) {
        Some(settings) => match (
            number_in(settings, "n_ctx"@),
            json::member_in(props, "total_slots"@),
        ) {
            (Some(ctx), Some(slots)) => Some((ctx, metadata::or_default(json::unsigned_in(slots), 1))),
            _ => None,
        },
        None => None,
    }
}

pub fn runtime_props(props: &JsonValue) -> (out: Option<(u64, u64)>)
    ensures
        out == props_of(props@),
{
    match props.get("default_generation_settings") {
        Some(settings) => match (number(settings, "n_ctx"), props.get("total_slots")) {
            (Some(ctx), Some(slots)) => Some(
                (
                    ctx,
                    match slots.as_u64() {
                        Some(n) => n,
                        None => 1,
                    },
                ),
            ),
            _ => None,
        },
        None => None,
    }
}

/// What is kept of a profile to see later whether it has changed: the SHA-256 digest of
/// its text.
pub open spec fn hash_of(profile: profiles::Members) -> Seq<char> {
    metadata::digest(encode_utf8(json::rendered(Json::Object(profile))))
}

pub fn profile_hash(profile: &Table<JsonValue>) -> (out: String)
    ensures
        out@ == hash_of(json::members(*profile)),
{
    let whole: JsonValue = JsonValue::Object(json::copy_table(profile));
    let text: String = whole.to_text();
    metadata::sha256_hex(text.as_str().as_bytes())
}

/// What the first `n` answers count under a key of their timings.
pub open spec fn timed_sum(answers: Seq<JsonValue>, key: Seq<char>, n: nat) -> nat
    decreases n,
{
    if n == 0 {
        0
    } else {
        timed_sum(answers, key, (n - 1) as nat) + metadata::or_default(
            timing_of(answers[n - 1]@, key),
            0,
        ) as nat
    }
}

proof fn lemma_timed_sum_grows(answers: Seq<JsonValue>, key: Seq<char>, n: nat, more: nat)
    requires
        n <= more,
    ensures
        timed_sum(answers, key, n) <= timed_sum(answers, key, more),
    decreases more,
{
    if n < more {
        lemma_timed_sum_grows(answers, key, n, (more - 1) as nat);
    }
}

/// The text of an answer, empty where it holds none.
fn content(answer: &JsonValue) -> (out: String)
    ensures
        out@ == event_content(answer@),
{
    match answer.get("content") {
        Some(v) => match v.as_str() {
            Some(s) => s.to_owned(),
            None => {
                let none: String = String::new();
                proof {
                    assert(none@ =~= seq![]);
                }
                none
            },
        },
        None => {
            let none: String = String::new();
            proof {
                assert(none@ =~= seq![]);
            }
            none
        },
    }
}

/// What slots that ran at the same time did: the tokens of their prompts, those of their
/// answers, and the answers. It fails where a sum does not fit into 64 bits.
pub fn slot_totals(answers: &Vec<JsonValue>) -> (out: Result<(u64, u64, Vec<String>), TooLarge>)
    ensures
        ({
            let n = answers@.len();
            let prompt = timed_sum(answers@, "prompt_n"@, n);
            let decoded = timed_sum(answers@, "predicted_n"@, n);
            match out {
                Ok(t) => t.0 == prompt && t.1 == decoded && text::views(t.2@) == Seq::new(
                    n,
                    |i: int| event_content(answers@[i]@),
                ),
                Err(_) => prompt > u64::MAX || decoded > u64::MAX,
            }
        }),
{
    let mut prompt: u64 = 0;
    let mut decoded: u64 = 0;
    let mut texts: Vec<String> = Vec::new();
    let mut i: usize = 0;
    proof {
        assert(text::views(texts@) =~= Seq::new(0, |k: int| event_content(answers@[k]@)));
    }
    while i < answers.len()
        invariant
            i <= answers@.len(),
            prompt == timed_sum(answers@, "prompt_n"@, i as nat),
            decoded == timed_sum(answers@, "predicted_n"@, i as nat),
            texts@.len() == i,
            text::views(texts@) == Seq::new(i as nat, |k: int| event_content(answers@[k]@)),
        decreases answers@.len() - i,
    {
        proof {
            lemma_timed_sum_grows(answers@, "prompt_n"@, (i + 1) as nat, answers@.len());
            lemma_timed_sum_grows(answers@, "predicted_n"@, (i + 1) as nat, answers@.len());
        }
        let answer: &JsonValue = &answers[i];
        let more: u64 = match timing(answer, "prompt_n") {
            Some(n) => n,
            None => 0,
        };
        prompt = match prompt.checked_add(more) {
            Some(n) => n,
            None => return Err(TooLarge),
        };
        let more: u64 = match timing(answer, "predicted_n") {
            Some(n) => n,
            None => 0,
        };
        decoded = match decoded.checked_add(more) {
            Some(n) => n,
            None => return Err(TooLarge),
        };
        let ghost earlier = texts@;
        texts.push(content(answer));
        proof {
            assert(texts@ =~= earlier.push(texts@[i as int]));
            profiles::lemma_views_push(earlier, texts@[i as int]);
            assert(text::views(texts@) =~= Seq::new(
                (i + 1) as nat,
                |k: int| event_content(answers@[k]@),
            ));
        }
        i += 1;
    }
    Ok((prompt, decoded, texts))
}

/// A whole number that fits into 64 bits with a sign.
pub open spec fn signed_in(j: Json) -> Option<i64> {
    match j {
        Json::Unsigned(n) => if n <= i64::MAX {
            Some(n as i64)
        } else {
            None
        },
        Json::Negative(n) => Some(n),
        _ => None,
    }
}

/// The whole numbers among the first `n` items.
pub open spec fn signed_items(items: Seq<Json>, n: nat) -> Seq<i64>
    decreases n,
{
    if n == 0 {
        seq![]
    } else {
        let earlier = signed_items(items, (n - 1) as nat);
        match signed_in(items[n - 1]) {
            Some(k) => earlier.push(k),
            None => earlier,
        }
    }
}

/// The tokens in an answer.
pub open spec fn tokens_of(answer: Json) -> Seq<i64> {
    match json::member_in(answer, "tokens"@) {
        Some(Json::Array(items)) => signed_items(items, items.len()),
        _ => seq![],
    }
}

fn signed(v: &JsonValue) -> (out: Option<i64>)
    ensures
        out == signed_in(v@),
{
    match v {
        JsonValue::Number(Number::Unsigned(n)) => if *n <= i64::MAX as u64 {
            Some(*n as i64)
        } else {
            None
        },
        JsonValue::Number(Number::Negative(n)) => Some(*n),
        _ => None,
    }
}

pub fn tokens(answer: &JsonValue) -> (out: Vec<i64>)
    ensures
        out@ == tokens_of(answer@),
{
    let mut out: Vec<i64> = Vec::new();
    proof {
        assert(out@ =~= seq![]);
    }
    match answer.get("tokens") {
        Some(value) => match value.as_array() {
            Some(items) => {
                let ghost all = json::json_of(*value)->Array_0;
                let mut i: usize = 0;
                while i < items.len()
                    invariant
                        i <= items@.len(),
                        all.len() == items@.len(),
                        forall|j: int|
                            0 <= j < items@.len() ==> #[trigger] all[j] == json::json_of(items@[j]),
                        out@ == signed_items(all, i as nat),
                    decreases items@.len() - i,
                {
                    proof {
                        assert(all[i as int] == json::json_of(items@[i as int]));
                    }
                    match signed(&items[i]) {
                        Some(k) => out.push(k),
                        None => {},
                    }
                    i += 1;
                }
                out
            },
            None => out,
        },
        None => out,
    }
}

/// Not being the line for the memory in use, as a function.
pub open spec fn not_resident() -> spec_fn(Seq<char>) -> bool {
    |line: Seq<char>| !"VmRSS:"@.is_prefix_of(line)
}

/// The kibibytes of memory that a process's status names.
pub open spec fn resident_kib(status: Seq<char>) -> u64 {
    let lines = text::lines_of(status);
    let at = text::run(lines, not_resident()) as int;
    if at < lines.len() {
        let words = text::words_of(lines[at].skip("VmRSS:"@.len() as int));
        if words.len() > 0 {
            metadata::or_default(text::u64_of(words[0]), 0)
        } else {
            0
        }
    } else {
        0
    }
}

/// The memory that a process has, from its status.
pub fn process_rss_bytes(status: &str) -> (out: Result<u64, TooLarge>)
    ensures
        match out {
            Ok(n) => n == resident_kib(status@) * 1024,
            Err(_) => resident_kib(status@) * 1024 > u64::MAX,
        },
{
    let lines: Vec<String> = text::lines(status);
    let ghost all = text::views(lines@);
    let mut i: usize = 0;
    while i < lines.len()
        invariant
            i <= lines@.len(),
            all == text::views(lines@),
            all == text::lines_of(status@),
            forall|j: int| 0 <= j < i ==> not_resident()(#[trigger] all[j]),
        decreases lines@.len() - i,
    {
        proof {
            assert(all[i as int] == lines@[i as int]@);
        }
        match process::after_prefix(lines[i].as_str(), "VmRSS:") {
            Some(rest) => {
                proof {
                    text::lemma_run_unique(all, not_resident(), i as int);
                }
                let words: Vec<String> = text::words(rest.as_str());
                proof {
                    assert(text::views(words@).len() == words@.len());
                    assert(words@.len() > 0 ==> text::views(words@)[0] == words@[0]@);
                }
                let kib: u64 = if words.len() > 0 {
                    match text::parse_u64(words[0].as_str()) {
                        Some(n) => n,
                        None => 0,
                    }
                } else {
                    0
                };
                return match kib.checked_mul(1024) {
                    Some(n) => Ok(n),
                    None => Err(TooLarge),
                };
            },
            None => {},
        }
        i += 1;
    }
    proof {
        text::lemma_run_unique(all, not_resident(), i as int);
    }
    Ok(0)
}

/// The mebibytes on a line that are those of a process.
pub open spec fn usage_on(line: Seq<char>, pid: u32) -> Option<u64> {
    match text::split_once_of(line, ',') {
        Some((process, memory)) => if text::number_of(text::trim_of(process), u32::MAX as nat)
            == Some(pid as nat) {
            text::u64_of(text::trim_of(memory))
        } else {
            None
        },
        None => None,
    }
}

/// The numbers of a process on the first `n` lines.
pub open spec fn usages(lines: Seq<Seq<char>>, n: nat, pid: u32) -> Seq<u64>
    decreases n,
{
    if n == 0 {
        seq![]
    } else {
        let earlier = usages(lines, (n - 1) as nat, pid);
        match usage_on(lines[n - 1], pid) {
            Some(k) => earlier.push(k),
            None => earlier,
        }
    }
}

fn usage(line: &str, pid: u32) -> (out: Option<u64>)
    ensures
        out == usage_on(line@, pid),
{
    match text::split_once(line, ',') {
        Some((process, memory)) => {
            let same: bool = match text::parse_u64(text::trim(process.as_str()).as_str()) {
                Some(n) => n == pid as u64,
                None => false,
            };
            if same {
                text::parse_u64(text::trim(memory.as_str()).as_str())
            } else {
                None
            }
        },
        None => None,
    }
}

/// The memory on the cards that a listing of processes gives for one of them.
pub fn nvidia_process_vram(listing: &str, pid: u32) -> (out: Result<u64, TooLarge>)
    ensures
        ({
            let lines = text::lines_of(listing@);
            let sum = process::bytes_of(usages(lines, lines.len(), pid));
            match out {
                Ok(n) => n == sum,
                Err(_) => sum > u64::MAX,
            }
        }),
{
    let lines: Vec<String> = text::lines(listing);
    let ghost all = text::views(lines@);
    let mut found: Vec<u64> = Vec::new();
    let mut i: usize = 0;
    proof {
        assert(found@ =~= seq![]);
    }
    while i < lines.len()
        invariant
            i <= lines@.len(),
            all == text::views(lines@),
            found@ == usages(all, i as nat, pid),
        decreases lines@.len() - i,
    {
        proof {
            assert(all[i as int] == lines@[i as int]@);
        }
        match usage(lines[i].as_str(), pid) {
            Some(k) => found.push(k),
            None => {},
        }
        i += 1;
    }
    process::mebibytes(&found)
}

/// The runtime that a benchmark ran on: what is configured, or the version that is
/// current.
pub open spec fn runtime_of(configured: Seq<char>, current: Option<Seq<char>>) -> Seq<char> {
    if configured != "managed"@ {
        configured
    } else {
        match current {
            Some(name) => "managed:"@ + name,
            None => "managed"@,
        }
    }
}

pub fn resolved_runtime(configured: &str, current: Option<&str>) -> (out: String)
    ensures
        out@ == runtime_of(
            configured@,
            match current {
                Some(s) => Some(s@),
                None => None,
            },
        ),
{
    if !text::same(configured, "managed") {
        return configured.to_owned();
    }
    match current {
        Some(name) => {
            let mut out: String = "managed:".to_owned();
            out.append(name);
            out
        },
        None => "managed".to_owned(),
    }
}

/// The version on the first line of what a server prints.
pub open spec fn version_of(printed: Seq<char>) -> Seq<char> {
    let lines = text::lines_of(printed);
    let first = if lines.len() > 0 {
        text::trim_of(lines[0])
    } else {
        "unknown"@
    };
    if first.len() == 0 {
        "unknown"@
    } else {
        first
    }
}

pub fn runtime_version(printed: &str) -> (out: String)
    ensures
        out@ == version_of(printed@),
{
    let lines: Vec<String> = text::lines(printed);
    proof {
        assert(text::views(lines@).len() == lines@.len());
        assert(lines@.len() > 0 ==> text::views(lines@)[0] == lines@[0]@);
        reveal_strlit("unknown");
    }
    if lines.len() == 0 {
        return "unknown".to_owned();
    }
    let first: String = text::trim(lines[0].as_str());
    if text::chars_of(first.as_str()).len() == 0 {
        "unknown".to_owned()
    } else {
        first
    }
}

} // verus!
