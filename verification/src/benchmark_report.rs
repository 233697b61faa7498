//! What is shown of benchmarks: of one that runs, and of those that were kept.
use vstd::prelude::*;

use crate::benchmark;
use crate::benchmark::{BenchmarkCase, BenchmarkProgress, BenchmarkRun, CasePlan, TOTAL_CASES};
use crate::figures;
use crate::process;
use crate::text;

verus! {

/// What is said of what a benchmark is at.
pub open spec fn phase_of(update: BenchmarkProgress) -> Seq<char> {
    match update {
        BenchmarkProgress::Preparing => "Preparing profile…"@,
        BenchmarkProgress::StoppingServer => "Stopping active server…"@,
        BenchmarkProgress::LoadingRuntime => "Loading model and runtime…"@,
        BenchmarkProgress::Ready { .. } => "Runtime ready"@,
        BenchmarkProgress::CaseStarted { name, target_prompt_tokens, .. } => "Running "@ + name@
            + " case - "@ + text::decimal_of(target_prompt_tokens as nat) + " prompt tokens…"@,
        BenchmarkProgress::CaseCompleted(case) => "Completed "@ + case.name@ + " case"@,
        BenchmarkProgress::RestoringServer => "Restoring previous server…"@,
    }
}

pub fn phase_text(update: &BenchmarkProgress) -> (out: String)
    ensures
        out@ == phase_of(*update),
{
    match update {
        BenchmarkProgress::Preparing => "Preparing profile…".to_owned(),
        BenchmarkProgress::StoppingServer => "Stopping active server…".to_owned(),
        BenchmarkProgress::LoadingRuntime => "Loading model and runtime…".to_owned(),
        BenchmarkProgress::Ready { .. } => "Runtime ready".to_owned(),
        BenchmarkProgress::CaseStarted { name, target_prompt_tokens, .. } => {
            let mut out: String = "Running ".to_owned();
            out.append(name.as_str());
            out.append(" case - ");
            out.append(text::decimal(*target_prompt_tokens).as_str());
            out.append(" prompt tokens…");
            out
        },
        BenchmarkProgress::CaseCompleted(case) => {
            let mut out: String = "Completed ".to_owned();
            out.append(case.name.as_str());
            out.append(" case");
            out
        },
        BenchmarkProgress::RestoringServer => "Restoring previous server…".to_owned(),
    }
}

/// A benchmark that runs. Times are in nanoseconds.
pub struct RunningBenchmark {
    pub profile: String,
    pub phase: String,
    pub runtime: String,
    pub effective_context: Option<u64>,
    pub load_ms: Option<u64>,
    pub started_at: u64,
    pub case_started_at: Option<u64>,
    pub case_elapsed: u64,
    pub completed: Vec<BenchmarkCase>,
}

#[verifier::ext_equal]
pub ghost struct RunningView {
    pub profile: Seq<char>,
    pub phase: Seq<char>,
    pub runtime: Seq<char>,
    pub effective_context: Option<u64>,
    pub load_ms: Option<u64>,
    pub started_at: u64,
    pub case_started_at: Option<u64>,
    pub case_elapsed: u64,
    pub completed: Seq<BenchmarkCase>,
}

impl View for RunningBenchmark {
    type V = RunningView;

    open spec fn view(&self) -> RunningView {
        RunningView {
            profile: self.profile@,
            phase: self.phase@,
            runtime: self.runtime@,
            effective_context: self.effective_context,
            load_ms: self.load_ms,
            started_at: self.started_at,
            case_started_at: self.case_started_at,
            case_elapsed: self.case_elapsed,
            completed: self.completed@,
        }
    }
}

/// The time that has passed since another.
pub open spec fn since(at: u64, now: u64) -> u64 {
    if now >= at {
        (now - at) as u64
    } else {
        0
    }
}

fn passed(at: u64, now: u64) -> (out: u64)
    ensures
        out == since(at, now),
{
    if now >= at {
        now - at
    } else {
        0
    }
}

/// A benchmark whose case, where one runs, has ended.
pub open spec fn case_ended(v: RunningView, now: u64) -> RunningView {
    match v.case_started_at {
        Some(at) => RunningView { case_started_at: None, case_elapsed: since(at, now), ..v },
        None => v,
    }
}

/// A benchmark after it said what it is at.
pub open spec fn after_progress(v: RunningView, update: BenchmarkProgress, now: u64) -> RunningView {
    let phase = phase_of(update);
    match update {
        BenchmarkProgress::Ready { runtime, effective_context, load_ms } => RunningView {
            phase,
            runtime: runtime@,
            effective_context: Some(effective_context),
            load_ms: Some(load_ms),
            ..v
        },
        BenchmarkProgress::CaseStarted { started_at, .. } => RunningView {
            phase,
            case_started_at: Some(started_at),
            case_elapsed: 0,
            ..v
        },
        BenchmarkProgress::CaseCompleted(case) => RunningView {
            phase,
            completed: v.completed.push(case),
            ..case_ended(v, now)
        },
        BenchmarkProgress::RestoringServer => RunningView { phase, ..case_ended(v, now) },
        _ => RunningView { phase, ..v },
    }
}

/// How long the case takes: the one that runs, else the one that ended last.
pub open spec fn case_time(v: RunningView, now: u64) -> Option<u64> {
    match v.case_started_at {
        Some(at) => Some(since(at, now)),
        None => if v.completed.len() > 0 {
            Some(v.case_elapsed)
        } else {
            None
        },
    }
}

/// What is said of a runtime.
pub open spec fn about_runtime(runtime: Seq<char>, context: u64, load_ms: u64) -> Seq<char> {
    "Runtime "@ + runtime + "   Context "@ + text::decimal_of(context as nat) + "   Load "@
        + figures::hundredths_of(figures::quotient(load_ms as nat, 1000)) + "s"@
}

pub fn runtime_text(runtime: &str, context: u64, load_ms: u64) -> (out: String)
    ensures
        out@ == about_runtime(runtime@, context, load_ms),
{
    let mut out: String = "Runtime ".to_owned();
    out.append(runtime);
    out.append("   Context ");
    out.append(text::decimal(context).as_str());
    out.append("   Load ");
    out.append(figures::format_seconds(load_ms).as_str());
    out.append("s");
    out
}

/// What the dialog says of a benchmark that runs: what it is at, how long it takes, and
/// with what it runs.
pub open spec fn running_lines_of(v: RunningView, cancelling: bool, now: u64) -> Seq<Seq<char>> {
    seq![
        if cancelling {
            "Cancelling "@ + v.profile + " and restoring server…"@
        } else {
            v.phase
        },
        "Current "@ + (match case_time(v, now) {
            Some(time) => figures::elapsed_of(time as nat),
            None => "--"@,
        }) + "   Total "@ + figures::elapsed_of(since(v.started_at, now) as nat),
        "Profile "@ + v.profile + "   "@ + (match v.effective_context {
            Some(context) => about_runtime(
                v.runtime,
                context,
                match v.load_ms {
                    Some(n) => n,
                    None => 0,
                },
            ),
            None => "Resolving profile and runtime…"@,
        }),
    ]
}

impl RunningBenchmark {
    /// A benchmark that starts now.
    pub fn start(profile: &str, now: u64) -> (out: RunningBenchmark)
        ensures
            out@ == (RunningView {
                profile: profile@,
                phase: "Preparing profile…"@,
                runtime: seq![],
                effective_context: None,
                load_ms: None,
                started_at: now,
                case_started_at: None,
                case_elapsed: 0,
                completed: seq![],
            }),
    {
        let out: RunningBenchmark = RunningBenchmark {
            profile: profile.to_owned(),
            phase: "Preparing profile…".to_owned(),
            runtime: String::new(),
            effective_context: None,
            load_ms: None,
            started_at: now,
            case_started_at: None,
            case_elapsed: 0,
            completed: Vec::new(),
        };
        proof {
            assert(out@.runtime =~= seq![]);
            assert(out@.completed =~= seq![]);
        }
        out
    }

    fn end_case(&mut self, now: u64)
        ensures
            final(self)@ == case_ended(old(self)@, now),
    {
        match self.case_started_at {
            Some(at) => {
                self.case_started_at = None;
                self.case_elapsed = passed(at, now);
            },
            None => {},
        }
    }

    /// Notes what the benchmark is at.
    pub fn note(&mut self, update: BenchmarkProgress, now: u64)
        ensures
            final(self)@ == after_progress(old(self)@, update, now),
    {
        self.phase = phase_text(&update);
        match update {
            BenchmarkProgress::Ready { runtime, effective_context, load_ms } => {
                self.runtime = runtime;
                self.effective_context = Some(effective_context);
                self.load_ms = Some(load_ms);
            },
            BenchmarkProgress::CaseStarted { started_at, .. } => {
                self.case_started_at = Some(started_at);
                self.case_elapsed = 0;
            },
            BenchmarkProgress::CaseCompleted(case) => {
                self.end_case(now);
                self.completed.push(case);
            },
            BenchmarkProgress::RestoringServer => {
                self.end_case(now);
            },
            _ => {},
        }
    }

    /// Notes that the benchmark is to stop.
    pub fn cancel(&mut self)
        ensures
            final(self)@ == (RunningView { phase: "Cancelling benchmark…"@, ..old(self)@ }),
    {
        self.phase = "Cancelling benchmark…".to_owned();
    }

    /// What the dialog says of the benchmark.
    pub fn lines(&self, cancelling: bool, now: u64) -> (out: Vec<String>)
        ensures
            text::views(out@) == running_lines_of(self@, cancelling, now),
    {
        let mut out: Vec<String> = Vec::new();
        proof {
            assert(text::views(out@) =~= seq![]);
        }
        let mut label: String = self.phase.clone();
        if cancelling {
            label = "Cancelling ".to_owned();
            label.append(self.profile.as_str());
            label.append(" and restoring server…");
        }
        process::add(&mut out, label.as_str());
        let current: String = match self.case_started_at {
            Some(at) => figures::format_elapsed(passed(at, now)),
            None => if self.completed.len() > 0 {
                figures::format_elapsed(self.case_elapsed)
            } else {
                "--".to_owned()
            },
        };
        let mut times: String = "Current ".to_owned();
        times.append(current.as_str());
        times.append("   Total ");
        times.append(figures::format_elapsed(passed(self.started_at, now)).as_str());
        process::add(&mut out, times.as_str());
        let mut about: String = "Profile ".to_owned();
        about.append(self.profile.as_str());
        about.append("   ");
        match self.effective_context {
            Some(context) => {
                let load: u64 = match self.load_ms {
                    Some(n) => n,
                    None => 0,
                };
                about.append(runtime_text(self.runtime.as_str(), context, load).as_str());
            },
            None => {
                about.append("Resolving profile and runtime…");
            },
        }
        process::add(&mut out, about.as_str());
        proof {
            assert(text::views(out@) =~= running_lines_of(self@, cancelling, now));
        }
        out
    }
}

/// Everything that was completed stays, in its order, and its time is kept from then on.
pub proof fn completed_cases_stay(v: RunningView, update: BenchmarkProgress, now: u64)
    ensures
        v.completed.is_prefix_of(after_progress(v, update, now).completed),
        after_progress(v, update, now).completed.len() <= v.completed.len() + 1,
        after_progress(v, update, now).profile == v.profile,
        after_progress(v, update, now).started_at == v.started_at,
        update is CaseCompleted ==> after_progress(v, update, now).completed.last()
            == update->CaseCompleted_0 && after_progress(v, update, now).case_started_at is None,
{
}

/// What is asked before a benchmark.
pub open spec fn question_of(profile: Seq<char>) -> Seq<Seq<char>> {
    seq![
        "Run the full benchmark for "@ + profile + "?"@,
        ""@,
        "The active server will be stopped and restored afterward."@,
        "Loading or interacting with models would invalidate the results."@,
        ""@,
        "Enter/y run - Esc/q/n cancel"@,
    ]
}

pub fn question(profile: &str) -> (out: Vec<String>)
    ensures
        text::views(out@) == question_of(profile@),
{
    let mut out: Vec<String> = Vec::new();
    proof {
        assert(text::views(out@) =~= seq![]);
    }
    let mut first: String = "Run the full benchmark for ".to_owned();
    first.append(profile);
    first.append("?");
    process::add(&mut out, first.as_str());
    process::add(&mut out, "");
    process::add(&mut out, "The active server will be stopped and restored afterward.");
    process::add(&mut out, "Loading or interacting with models would invalidate the results.");
    process::add(&mut out, "");
    process::add(&mut out, "Enter/y run - Esc/q/n cancel");
    proof {
        assert(text::views(out@) =~= question_of(profile@));
    }
    out
}

/// The names of cases.
pub open spec fn names_of(cases: Seq<BenchmarkCase>) -> Seq<Seq<char>> {
    Seq::new(cases.len(), |i: int| cases[i].name@)
}

/// Having another name, as a function.
pub open spec fn other_than(name: Seq<char>) -> spec_fn(Seq<char>) -> bool {
    |case: Seq<char>| case != name
}

/// Where the first case with a name stands; behind all of them where none has it.
pub open spec fn place_of(cases: Seq<BenchmarkCase>, name: Seq<char>) -> nat {
    text::run(names_of(cases), other_than(name))
}

/// Finds the first case with a name.
pub fn find_case(cases: &Vec<BenchmarkCase>, name: &str) -> (out: Option<usize>)
    ensures
        match out {
            Some(i) => i == place_of(cases@, name@) && i < cases@.len(),
            None => place_of(cases@, name@) == cases@.len(),
        },
{
    let ghost names = names_of(cases@);
    let mut i: usize = 0;
    while i < cases.len()
        invariant
            i <= cases@.len(),
            names == names_of(cases@),
            forall|j: int| 0 <= j < i ==> #[trigger] other_than(name@)(names[j]),
        decreases cases@.len() - i,
    {
        if text::same(cases[i].name.as_str(), name) {
            proof {
                assert(!other_than(name@)(names[i as int]));
                text::lemma_run_unique(names, other_than(name@), i as int);
            }
            return Some(i);
        }
        i += 1;
    }
    proof {
        text::lemma_run_unique(names, other_than(name@), i as int);
    }
    None
}

/// The cases that the table has rows for, with their labels.
pub open spec fn labelled_cases() -> Seq<(Seq<char>, Seq<char>)> {
    seq![
        ("prefill-short"@, "PREFILL SHORT"@),
        ("prefill-medium"@, "PREFILL MEDIUM"@),
        ("prefill-long"@, "PREFILL LONG"@),
        ("coding-single"@, "CODING 1x"@),
        ("coding-slots"@, "CODING Nx"@),
        ("prose-en-single"@, "PROSE EN 1x"@),
        ("prose-en-slots"@, "PROSE EN Nx"@),
        ("prose-zh-single"@, "PROSE ZH 1x"@),
        ("prose-zh-slots"@, "PROSE ZH Nx"@),
    ]
}

/// The table has a row for every case that a benchmark runs.
pub proof fn every_case_has_a_row(c: CasePlan)
    ensures
        exists|i: int|
            0 <= i < labelled_cases().len() && (#[trigger] labelled_cases()[i]).0
                == benchmark::case_name_of(c),
{
    let rows = labelled_cases();
    assert(rows.len() == TOTAL_CASES);
    match c.work {
        benchmark::Work::PrefillShort => assert(rows[0].0 == benchmark::case_name_of(c)),
        benchmark::Work::PrefillMedium => assert(rows[1].0 == benchmark::case_name_of(c)),
        benchmark::Work::PrefillLong => assert(rows[2].0 == benchmark::case_name_of(c)),
        benchmark::Work::Coding => if c.slots {
            assert(rows[4].0 == benchmark::case_name_of(c));
        } else {
            assert(rows[3].0 == benchmark::case_name_of(c));
        },
        benchmark::Work::ProseEn => if c.slots {
            assert(rows[6].0 == benchmark::case_name_of(c));
        } else {
            assert(rows[5].0 == benchmark::case_name_of(c));
        },
        benchmark::Work::ProseZh => if c.slots {
            assert(rows[8].0 == benchmark::case_name_of(c));
        } else {
            assert(rows[7].0 == benchmark::case_name_of(c));
        },
    }
}

/// The tokens that count for a case: those of the prompt where it only reads one, else those
/// that it wrote.
pub open spec fn tokens_of(case: BenchmarkCase) -> u64 {
    if case.kind@ == "prefill"@ {
        case.actual_prompt_tokens
    } else {
        case.actual_decode_tokens
    }
}

/// The tokens of the case with a name, where there is one.
pub open spec fn tokens_in(cases: Seq<BenchmarkCase>, name: Seq<char>) -> Option<u64> {
    let at = place_of(cases, name) as int;
    if at < cases.len() {
        Some(tokens_of(cases[at]))
    } else {
        None
    }
}

/// The rows of the table: the label of each case, and its tokens where it was completed.
pub open spec fn rows_of(cases: Seq<BenchmarkCase>) -> Seq<(Seq<char>, Option<u64>)> {
    labelled_cases().map_values(
        |c: (Seq<char>, Seq<char>)| (c.1, tokens_in(cases, c.0)),
    )
}

pub open spec fn row_views(rows: Seq<(String, Option<u64>)>) -> Seq<(Seq<char>, Option<u64>)> {
    rows.map_values(|r: (String, Option<u64>)| (r.0@, r.1))
}

fn tokens(case: &BenchmarkCase) -> (out: u64)
    ensures
        out == tokens_of(*case),
{
    if text::same(case.kind.as_str(), "prefill") {
        case.actual_prompt_tokens
    } else {
        case.actual_decode_tokens
    }
}

fn add_row(
    out: &mut Vec<(String, Option<u64>)>,
    cases: &Vec<BenchmarkCase>,
    name: &str,
    label: &str,
)
    ensures
        row_views(final(out)@) == row_views(old(out)@).push((label@, tokens_in(cases@, name@))),
{
    let found: Option<u64> = match find_case(cases, name) {
        Some(i) => Some(tokens(&cases[i])),
        None => None,
    };
    out.push((label.to_owned(), found));
    proof {
        assert(row_views(out@) =~= row_views(old(out)@).push((label@, tokens_in(cases@, name@))));
    }
}

/// The rows for the cases that were completed so far.
pub fn rows(cases: &Vec<BenchmarkCase>) -> (out: Vec<(String, Option<u64>)>)
    ensures
        row_views(out@) == rows_of(cases@),
        out@.len() == TOTAL_CASES,
{
    let mut out: Vec<(String, Option<u64>)> = Vec::new();
    proof {
        assert(row_views(out@) =~= seq![]);
    }
    add_row(&mut out, cases, "prefill-short", "PREFILL SHORT");
    add_row(&mut out, cases, "prefill-medium", "PREFILL MEDIUM");
    add_row(&mut out, cases, "prefill-long", "PREFILL LONG");
    add_row(&mut out, cases, "coding-single", "CODING 1x");
    add_row(&mut out, cases, "coding-slots", "CODING Nx");
    add_row(&mut out, cases, "prose-en-single", "PROSE EN 1x");
    add_row(&mut out, cases, "prose-en-slots", "PROSE EN Nx");
    add_row(&mut out, cases, "prose-zh-single", "PROSE ZH 1x");
    add_row(&mut out, cases, "prose-zh-slots", "PROSE ZH Nx");
    proof {
        assert(row_views(out@) =~= rows_of(cases@));
        assert(row_views(out@).len() == out@.len());
    }
    out
}

/// The rows for the cases of a benchmark.
pub fn case_rows(run: &BenchmarkRun) -> (out: Vec<(String, Option<u64>)>)
    ensures
        row_views(out@) == rows_of(run.cases@),
        out@.len() == TOTAL_CASES,
{
    rows(&run.cases)
}

/// The measured figures of a case, as they are shown.
pub struct CaseFigures {
    pub prompt: String,
    pub decode: String,
    pub peak: String,
    pub median: String,
    pub first: String,
}

/// What stands over the columns of the table.
pub open spec fn case_headings_of() -> Seq<Seq<char>> {
    seq!["CASE"@, "TOKENS"@, "PP T/S"@, "DEC T/S"@, "PEAK"@, "MEDIAN"@, "FIRST"@]
}

pub fn case_headings() -> (out: Vec<String>)
    ensures
        text::views(out@) == case_headings_of(),
{
    let mut out: Vec<String> = Vec::new();
    proof {
        assert(text::views(out@) =~= seq![]);
    }
    process::add(&mut out, "CASE");
    process::add(&mut out, "TOKENS");
    process::add(&mut out, "PP T/S");
    process::add(&mut out, "DEC T/S");
    process::add(&mut out, "PEAK");
    process::add(&mut out, "MEDIAN");
    process::add(&mut out, "FIRST");
    proof {
        assert(text::views(out@) =~= case_headings_of());
    }
    out
}

/// The cells of a row: the label, and what was measured where the case was completed.
pub open spec fn cells_of(
    cases: Seq<BenchmarkCase>,
    shown: Seq<CaseFigures>,
    name: Seq<char>,
    label: Seq<char>,
) -> Seq<Seq<char>> {
    let at = place_of(cases, name) as int;
    if at < cases.len() {
        seq![
            label,
            text::decimal_of(tokens_of(cases[at]) as nat),
            shown[at].prompt@,
            shown[at].decode@,
            shown[at].peak@,
            shown[at].median@,
            shown[at].first@,
        ]
    } else {
        seq![label, "--"@, "--"@, "--"@, "--"@, "--"@, "--"@]
    }
}

/// The table of cases.
pub open spec fn table_of(cases: Seq<BenchmarkCase>, shown: Seq<CaseFigures>) -> Seq<Seq<Seq<char>>> {
    labelled_cases().map_values(
        |c: (Seq<char>, Seq<char>)| cells_of(cases, shown, c.0, c.1),
    )
}

pub open spec fn cell_views(rows: Seq<Vec<String>>) -> Seq<Seq<Seq<char>>> {
    rows.map_values(|r: Vec<String>| text::views(r@))
}

fn add_cells(
    out: &mut Vec<Vec<String>>,
    cases: &Vec<BenchmarkCase>,
    shown: &Vec<CaseFigures>,
    name: &str,
    label: &str,
)
    requires
        shown@.len() == cases@.len(),
    ensures
        cell_views(final(out)@) == cell_views(old(out)@).push(
            cells_of(cases@, shown@, name@, label@),
        ),
{
    let mut row: Vec<String> = Vec::new();
    proof {
        assert(text::views(row@) =~= seq![]);
    }
    process::add(&mut row, label);
    match find_case(cases, name) {
        Some(i) => {
            process::add(&mut row, text::decimal(tokens(&cases[i])).as_str());
            process::add(&mut row, shown[i].prompt.as_str());
            process::add(&mut row, shown[i].decode.as_str());
            process::add(&mut row, shown[i].peak.as_str());
            process::add(&mut row, shown[i].median.as_str());
            process::add(&mut row, shown[i].first.as_str());
        },
        None => {
            process::add(&mut row, "--");
            process::add(&mut row, "--");
            process::add(&mut row, "--");
            process::add(&mut row, "--");
            process::add(&mut row, "--");
            process::add(&mut row, "--");
        },
    }
    proof {
        assert(text::views(row@) =~= cells_of(cases@, shown@, name@, label@));
    }
    out.push(row);
    proof {
        assert(cell_views(out@) =~= cell_views(old(out)@).push(
            cells_of(cases@, shown@, name@, label@),
        ));
    }
}

/// The cells of the table. `shown` has the figures of each case.
pub fn case_table(cases: &Vec<BenchmarkCase>, shown: &Vec<CaseFigures>) -> (out: Vec<Vec<String>>)
    requires
        shown@.len() == cases@.len(),
    ensures
        cell_views(out@) == table_of(cases@, shown@),
{
    let mut out: Vec<Vec<String>> = Vec::new();
    proof {
        assert(cell_views(out@) =~= seq![]);
    }
    add_cells(&mut out, cases, shown, "prefill-short", "PREFILL SHORT");
    add_cells(&mut out, cases, shown, "prefill-medium", "PREFILL MEDIUM");
    add_cells(&mut out, cases, shown, "prefill-long", "PREFILL LONG");
    add_cells(&mut out, cases, shown, "coding-single", "CODING 1x");
    add_cells(&mut out, cases, shown, "coding-slots", "CODING Nx");
    add_cells(&mut out, cases, shown, "prose-en-single", "PROSE EN 1x");
    add_cells(&mut out, cases, shown, "prose-en-slots", "PROSE EN Nx");
    add_cells(&mut out, cases, shown, "prose-zh-single", "PROSE ZH 1x");
    add_cells(&mut out, cases, shown, "prose-zh-slots", "PROSE ZH Nx");
    proof {
        assert(cell_views(out@) =~= table_of(cases@, shown@));
    }
    out
}

/// The table has the rows and tokens that are listed, and as many cells as headings.
pub proof fn tables_follow_their_rows(cases: Seq<BenchmarkCase>, shown: Seq<CaseFigures>, i: int)
    requires
        shown.len() == cases.len(),
        0 <= i < labelled_cases().len(),
    ensures
        table_of(cases, shown).len() == rows_of(cases).len(),
        table_of(cases, shown)[i].len() == case_headings_of().len(),
        table_of(cases, shown)[i][0] == rows_of(cases)[i].0,
        table_of(cases, shown)[i][1] == (match rows_of(cases)[i].1 {
            Some(n) => text::decimal_of(n as nat),
            None => "--"@,
        }),
{
}

/// What stands over the table of a run that was kept.
pub open spec fn run_heading_of(number: usize, run: BenchmarkRun) -> Seq<char> {
    "RUN "@ + text::decimal_of(number as nat) + (if run.cases@.len() < TOTAL_CASES {
        " - PARTIAL"@
    } else {
        ""@
    }) + " - "@ + run.profile@ + "   "@ + about_runtime(
        run.runtime@,
        run.effective_context,
        run.load_ms,
    )
}

pub fn run_heading(number: usize, run: &BenchmarkRun) -> (out: String)
    ensures
        out@ == run_heading_of(number, *run),
{
    let mut out: String = "RUN ".to_owned();
    out.append(text::decimal(number as u64).as_str());
    out.append(
        if run.cases.len() < TOTAL_CASES {
            " - PARTIAL"
        } else {
            ""
        },
    );
    out.append(" - ");
    out.append(run.profile.as_str());
    out.append("   ");
    out.append(runtime_text(run.runtime.as_str(), run.effective_context, run.load_ms).as_str());
    out
}

/// What is said of a case in a summary.
pub open spec fn case_line(case: BenchmarkCase, shown: CaseFigures) -> Seq<char> {
    if case.kind@ == "prefill"@ {
        case.name@ + " pp "@ + shown.prompt@ + " ("@ + text::decimal_of(
            figures::kept(case.actual_prompt_tokens as nat),
        ) + " tok)"@
    } else {
        case.name@ + " x"@ + text::decimal_of(case.concurrency as nat) + " dec "@ + shown.decode@
            + " - median "@ + shown.median@
    }
}

fn case_text(case: &BenchmarkCase, shown: &CaseFigures) -> (out: String)
    ensures
        out@ == case_line(*case, *shown),
{
    let mut out: String = case.name.clone();
    if text::same(case.kind.as_str(), "prefill") {
        out.append(" pp ");
        out.append(shown.prompt.as_str());
        out.append(" (");
        out.append(figures::format_whole(case.actual_prompt_tokens).as_str());
        out.append(" tok)");
    } else {
        out.append(" x");
        out.append(text::decimal(case.concurrency).as_str());
        out.append(" dec ");
        out.append(shown.decode.as_str());
        out.append(" - median ");
        out.append(shown.median.as_str());
    }
    out
}

/// What is said of the cases of a run.
pub open spec fn case_lines(cases: Seq<BenchmarkCase>, shown: Seq<CaseFigures>) -> Seq<Seq<char>> {
    Seq::new(cases.len(), |i: int| case_line(cases[i], shown[i]))
}

/// The summary of a run: with what it ran, and a line for each case.
pub open spec fn summary_of(run: BenchmarkRun, shown: Seq<CaseFigures>) -> Seq<char> {
    "profile "@ + run.profile@ + (if run.cases@.len() < TOTAL_CASES {
        " - partial"@
    } else {
        ""@
    }) + " - runtime "@ + run.runtime@ + " - ctx "@ + text::decimal_of(
        run.effective_context as nat,
    ) + " - load "@ + figures::hundredths_of(figures::quotient(run.load_ms as nat, 1000)) + "s\n"@
        + text::joined(case_lines(run.cases@, shown), "\n"@)
}

/// Sums up a run. `shown` has the figures of each case.
pub fn summary(run: &BenchmarkRun, shown: &Vec<CaseFigures>) -> (out: String)
    requires
        shown@.len() == run.cases@.len(),
    ensures
        out@ == summary_of(*run, shown@),
{
    let ghost all = case_lines(run.cases@, shown@);
    let mut lines: Vec<String> = Vec::new();
    let mut i: usize = 0;
    proof {
        assert(text::views(lines@) =~= all.take(0));
    }
    while i < run.cases.len()
        invariant
            i <= run.cases@.len(),
            shown@.len() == run.cases@.len(),
            all == case_lines(run.cases@, shown@),
            text::views(lines@) == all.take(i as int),
        decreases run.cases@.len() - i,
    {
        process::add(&mut lines, case_text(&run.cases[i], &shown[i]).as_str());
        proof {
            assert(all.take(i as int).push(all[i as int]) =~= all.take(i + 1));
        }
        i += 1;
    }
    proof {
        assert(all.take(i as int) =~= all);
    }
    let mut out: String = "profile ".to_owned();
    out.append(run.profile.as_str());
    out.append(
        if run.cases.len() < TOTAL_CASES {
            " - partial"
        } else {
            ""
        },
    );
    out.append(" - runtime ");
    out.append(run.runtime.as_str());
    out.append(" - ctx ");
    out.append(text::decimal(run.effective_context).as_str());
    out.append(" - load ");
    out.append(figures::format_seconds(run.load_ms).as_str());
    out.append("s\n");
    out.append(text::join(lines.as_slice(), "\n").as_str());
    out
}

} // verus!
