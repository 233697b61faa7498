//! The dialogs: benchmarks that run and were kept, downloads, cards, questions and refusals.
use llamactl::benchmark::{BenchmarkCase, BenchmarkProgress, BenchmarkRun, Real, TOTAL_CASES};
use llamactl::benchmark_report::{
    case_headings, case_rows, case_table, question, run_heading, summary, CaseFigures,
    RunningBenchmark,
};
use llamactl::browser::{TemplateView, ViewRequest};
use llamactl::commands::{template_text, TemplateError};
use llamactl::dialogs::{
    card_body, card_foot, card_head, controls, cursor_text, downloaded, editor_head, editor_line,
    fetch_question, first_shown, maintenance, model_question, profile_question, search_question,
    template_question, transfer_lines, Transfer,
};
use llamactl::drm::{collect, read_fdinfo, Report};
use llamactl::editing::{Key, KeyCode, Line};
use llamactl::figures::{format_elapsed, format_share, format_whole};
use llamactl::gguf::{error_text as gguf_text, meta_text, GgufError, MetaError};
use llamactl::huggingface::{Artifact, ModelDetails};
use llamactl::json::{parse, JsonValue};
use llamactl::process::{draft_text, DraftFault};
use llamactl::profile_editor::{open_editor, EditorField};
use llamactl::profiles::{ProfileError, Profiles};
use llamactl::swap::{
    budget_text, error_text, hooks_text, pinned_needs, write_text, SwapEntry, SwapError,
    WriteError,
};
use llamactl::table::Table;
use llamactl::templates::Templates;
use llamactl::view::DownloadState;
use std::time::Duration;

fn words(list: &[&str]) -> Vec<String> {
    list.iter().map(|s| s.to_string()).collect()
}

fn shown_by_floats(nanos: u64) -> String {
    let total = Duration::from_nanos(nanos).as_secs_f64();
    let hours = (total / 3600.0) as u64;
    let minutes = ((total / 60.0) as u64) % 60;
    let seconds = total % 60.0;
    if hours > 0 {
        format!("{hours}:{minutes:02}:{seconds:04.1}")
    } else {
        format!("{minutes:02}:{seconds:04.1}")
    }
}

#[test]
fn times_are_shown_as_floating_point_shows_them() {
    assert_eq!(format_elapsed(0), "00:00.0");
    assert_eq!(format_elapsed(65_400_000_000), "01:05.4");
    assert_eq!(format_elapsed(3_725_000_000_000), "1:02:05.0");
    assert_eq!(format_elapsed(59_960_000_000), "00:60.0");
    let mut nanos: u64 = 1;
    for step in 0u64..4000 {
        assert_eq!(format_elapsed(nanos), shown_by_floats(nanos), "{nanos}");
        let tie = step * 50_000_000;
        assert_eq!(format_elapsed(tie), shown_by_floats(tie), "{tie}");
        let late = (3_599_999_999_000 + step).saturating_mul(1 + step % 7);
        assert_eq!(format_elapsed(late), shown_by_floats(late), "{late}");
        nanos = nanos.wrapping_mul(6_364_136_223_846_793_005).wrapping_add(step) >> (step % 40);
    }
    assert_eq!(format_elapsed(u64::MAX), shown_by_floats(u64::MAX));
    for (done, total) in [(0u64, 3u64), (1, 3), (2, 3), (3, 3), (1, 800), (u64::MAX, u64::MAX)] {
        let wanted = format!("{:.1}", done as f64 / total as f64 * 100.0);
        assert_eq!(format_share(done, total), wanted);
    }
    assert_eq!(format_share(1, 0), "0.0");
    assert_eq!(format_whole(12), "12");
    assert_eq!(format_whole((1 << 53) + 1), format!("{:.0}", ((1u64 << 53) + 1) as f64));
}

fn case(name: &str, kind: &str, prompt: u64, decode: u64) -> BenchmarkCase {
    BenchmarkCase {
        name: name.into(),
        kind: kind.into(),
        concurrency: 1,
        target_prompt_tokens: 0,
        actual_prompt_tokens: prompt,
        actual_decode_tokens: decode,
        cached_prompt_tokens: 0,
        prompt_ms: Real(0),
        prompt_tokens_per_second: Real(0),
        decode_ms: Real(0),
        decode_tokens_per_second: Real(0),
        decode_peak_tokens_per_second: Real(0),
        decode_median_tokens_per_second: Real(0),
        time_to_first_response_ms: Real(0),
        peak_vram_bytes: 0,
        peak_ram_bytes: 0,
        token_arrival_ms: vec![],
    }
}

fn figures(text: &str) -> CaseFigures {
    CaseFigures {
        prompt: format!("{text}p"),
        decode: format!("{text}d"),
        peak: format!("{text}k"),
        median: format!("{text}m"),
        first: format!("{text}f"),
    }
}

fn run(cases: Vec<BenchmarkCase>) -> BenchmarkRun {
    BenchmarkRun {
        timestamp_unix: 0,
        profile: "p".into(),
        profile_hash: String::new(),
        model: String::new(),
        model_path: String::new(),
        model_bytes: 0,
        runtime: "managed".into(),
        runtime_version: String::new(),
        backend: String::new(),
        effective_context: 4096,
        output_tokens: 0,
        load_ms: 1500,
        effective_args: vec![],
        cases,
    }
}

#[test]
fn kept_runs_are_shown_in_a_table() {
    let kept = run(vec![
        case("coding-single", "decode", 30, 512),
        case("prefill-short", "prefill", 200, 1),
        case("prefill-short", "prefill", 999, 1),
    ]);
    let rows = case_rows(&kept);
    assert_eq!(rows.len(), TOTAL_CASES);
    let labels: Vec<&str> = rows.iter().map(|row| row.0.as_str()).collect();
    assert_eq!(
        labels,
        vec![
            "PREFILL SHORT", "PREFILL MEDIUM", "PREFILL LONG", "CODING 1x", "CODING Nx",
            "PROSE EN 1x", "PROSE EN Nx", "PROSE ZH 1x", "PROSE ZH Nx",
        ]
    );
    assert_eq!((rows[0].1, rows[1].1, rows[3].1), (Some(200), None, Some(512)));
    let cells = case_table(&kept.cases, &vec![figures("1"), figures("2"), figures("3")]);
    assert_eq!(cells[0], words(&["PREFILL SHORT", "200", "2p", "2d", "2k", "2m", "2f"]));
    assert_eq!(cells[1], words(&["PREFILL MEDIUM", "--", "--", "--", "--", "--", "--"]));
    assert_eq!(cells[3][1..3], words(&["512", "1p"]));
    assert!(cells.iter().all(|row| row.len() == case_headings().len()));
    assert_eq!(
        run_heading(2, &kept),
        "RUN 2 - PARTIAL - p   Runtime managed   Context 4096   Load 1.50s"
    );
    assert_eq!(
        summary(&kept, &vec![figures("1"), figures("2"), figures("3")]),
        "profile p - partial - runtime managed - ctx 4096 - load 1.50s\ncoding-single x1 dec 1d - median 1m\nprefill-short pp 2p (200 tok)\nprefill-short pp 3p (999 tok)"
    );
    let whole = run((0..9).map(|_| case("x", "decode", 0, 0)).collect());
    assert!(!run_heading(1, &whole).contains("PARTIAL"));
}

#[test]
fn running_benchmarks_tell_where_they_are() {
    let second = 1_000_000_000;
    let mut b = RunningBenchmark::start("p", second);
    assert_eq!(
        b.lines(false, 3 * second),
        words(&[
            "Preparing profile…",
            "Current --   Total 00:02.0",
            "Profile p   Resolving profile and runtime…",
        ])
    );
    b.note(BenchmarkProgress::StoppingServer, 0);
    assert_eq!(b.phase, "Stopping active server…");
    b.note(BenchmarkProgress::LoadingRuntime, 0);
    assert_eq!(b.phase, "Loading model and runtime…");
    b.note(
        BenchmarkProgress::Ready { runtime: "r".into(), effective_context: 8, load_ms: 250 },
        0,
    );
    assert_eq!(b.lines(false, second)[2], "Profile p   Runtime r   Context 8   Load 0.25s");
    b.note(
        BenchmarkProgress::CaseStarted {
            name: "x".into(),
            target_prompt_tokens: 7,
            started_at: 2 * second,
        },
        2 * second,
    );
    let lines = b.lines(false, 5 * second);
    assert_eq!(lines[0], "Running x case - 7 prompt tokens…");
    assert_eq!(lines[1], "Current 00:03.0   Total 00:04.0");
    b.note(BenchmarkProgress::CaseCompleted(case("x", "decode", 0, 1)), 6 * second);
    assert_eq!((b.completed.len(), b.case_started_at, b.case_elapsed), (1, None, 4 * second));
    assert_eq!(b.lines(false, 9 * second)[1], "Current 00:04.0   Total 00:08.0");
    b.cancel();
    assert_eq!(b.phase, "Cancelling benchmark…");
    assert_eq!(b.lines(true, 9 * second)[0], "Cancelling p and restoring server…");
    b.note(BenchmarkProgress::RestoringServer, 9 * second);
    assert_eq!((b.phase.as_str(), b.case_elapsed), ("Restoring previous server…", 4 * second));
    assert_eq!(question("p")[0], "Run the full benchmark for p?");
    assert_eq!(question("p").len(), 6);
}

fn entry(id: &str, estimate: u64) -> SwapEntry {
    SwapEntry {
        id: id.into(),
        physical: id.into(),
        path: format!("/m/{id}.gguf"),
        profile: Some(format!("{id}-profile")),
        overrides: Table::new(),
        estimate,
        environment: vec![],
    }
}

#[test]
fn refused_pins_come_with_their_figures() {
    let gib = 1u64 << 30;
    let entries = vec![entry("a", 3 * gib), entry("b", 5 * gib / 2), entry("c", gib)];
    let pins = words(&["a", "b", "gone"]);
    let needs = pinned_needs(&entries, &pins, 5 * gib).ok();
    assert_eq!(needs, Some((11 * gib / 2, 5 * gib)));
    let Err(e) = hooks_text(&entries, &pins, 4, 5 * gib) else { panic!("written") };
    assert!(matches!(e, SwapError::PinnedBudget));
    assert_eq!(error_text(&e, needs), "pinned models need 5.5 G but scheduler budget is 5.0 G");
    assert_eq!(budget_text(0, gib), "pinned models need 0.0 G but scheduler budget is 1.0 G");
    let huge = vec![entry("a", u64::MAX), entry("b", 1)];
    assert!(pinned_needs(&huge, &words(&["a", "b"]), 1).is_err());
    assert_eq!(pinned_needs(&huge, &words(&["a"]), 1).ok(), Some((u64::MAX, 1)));
    assert_eq!(
        error_text(&SwapError::UnknownPinned("x".into()), None),
        "unknown pinned model 'x'"
    );
    assert!(error_text(&SwapError::Empty, None).starts_with("model advertisement is empty"));
    assert!(error_text(&SwapError::PinnedTwice, None).contains("two profiles"));
    let said = |e: WriteError| write_text(&e, &entries, needs);
    assert_eq!(
        said(WriteError::Profile("a".into(), ProfileError::Unknown)),
        "unknown profile 'a-profile'"
    );
    assert_eq!(
        said(WriteError::NoMtp("q".into())),
        "profile 'q' requests internal MTP but its GGUF lacks compatible NextN tensors"
    );
    assert_eq!(
        said(WriteError::Draft("a".into(), DraftFault::Incompatible("/d".into(), "no".into()))),
        "model 'a': draft model '/d' is incompatible with '/m/a.gguf': no"
    );
    assert!(said(WriteError::Offer(e)).contains("5.5 G"));
    assert_eq!(
        draft_text(&DraftFault::Missing("/d".into()), "/m"),
        "draft model '/d' does not exist"
    );
}

fn report(client: &str, size: &str) -> Report {
    Report {
        pid: 1,
        comm: "llama".into(),
        fields: read_fdinfo(&format!("drm-pdev: a\n{client}drm-total-vram0: {size}\n")),
    }
}

#[test]
fn only_reports_that_count_can_be_too_large() {
    let huge = "18446744073709551615 KiB";
    let first = "drm-client-id: 7\n";
    let again = collect(&vec![report(first, "2 KiB"), report(first, huge)]);
    assert_eq!(again.ok().map(|m| m.total_allocated()), Some(2048));
    let nobody = collect(&vec![report("", huge), report(first, "2 KiB")]);
    assert_eq!(nobody.ok().map(|m| m.clients.len()), Some(1));
    assert!(collect(&vec![report(first, huge)]).is_err());
    assert!(collect(&vec![report(first, "2 KiB"), report("drm-client-id: 8\n", huge)]).is_err());
}

#[test]
fn long_templates_are_scrolled_as_far_as_a_position_reaches() {
    let mut v = TemplateView { id: "o/r".into(), template: "x\n".repeat(70_000), scroll: 0 };
    let end = Key { code: KeyCode::End, ctrl: false };
    assert_eq!(v.press(end), ViewRequest::Nothing);
    assert_eq!(v.scroll, u16::MAX - 1);
}

#[test]
fn cards_have_a_head_a_body_and_a_foot() {
    let mut d = ModelDetails {
        id: "o/r".into(),
        author: "o".into(),
        downloads: 1500,
        likes: 3,
        license: "mit".into(),
        updated: "2026-01-02".into(),
        task: "chat".into(),
        library: "gguf".into(),
        base_model: "b".into(),
        languages: vec![],
        tags: vec![],
        url: "https://h/o/r".into(),
        readme: String::new(),
    };
    assert_eq!(
        card_head(&d),
        words(&[
            "o/r",
            "Author o   License mit   Updated 2026-01-02",
            "Downloads 1.5K   Likes 3   Task chat   Library gguf",
            "Base model b   Languages unknown",
            "Tags none",
            "Page https://h/o/r",
        ])
    );
    d.languages = words(&["en", "de"]);
    d.tags = words(&["x", "y"]);
    assert_eq!(card_head(&d)[3..5], words(&["Base model b   Languages en, de", "Tags x - y"]));
    assert_eq!(card_body(""), words(&["No README model card was provided."]));
    assert_eq!(card_body("a\nb"), words(&["a", "b"]));
    assert_eq!(
        card_foot(u16::MAX),
        "Line 65536 - ↑↓/PgUp/PgDn scroll - Enter/Esc/q/i close"
    );
}

fn artifact() -> Artifact {
    Artifact {
        label: "Q8_0".into(),
        description: String::new(),
        quality: 5,
        recommended: false,
        files: vec![],
        size: 1 << 30,
        shard_count: 1,
        has_mmproj: false,
        complete: true,
    }
}

#[test]
fn questions_name_what_they_are_about() {
    assert_eq!(
        fetch_question("o/r", "mit", &artifact(), "/m"),
        words(&[
            "o/r - Q8_0",
            "",
            "Size  1.0 GiB   Files  0   License  mit",
            "Destination  /m",
            "Verification  size + Hugging Face LFS SHA-256",
            "",
            "Enter/y download - Esc/q/n cancel",
        ])
    );
    assert_eq!(search_question(&Line { text: "qé".into(), cursor: 1 })[2], "Query  q▏é");
    assert_eq!(cursor_text(&Line::at_end("ab")), "ab▏");
    assert_eq!(model_question("m")[0], "Permanently delete model m?");
    assert_eq!(profile_question("p")[2], "This also deletes its retained benchmark results.");
    assert_eq!(
        template_question("t"),
        words(&["Permanently delete template t?", "", "Enter/y delete - Esc/q/n cancel"])
    );
    assert_eq!(controls().len(), 19);
    assert_eq!(controls()[0], ("↑/↓ or j/k", "select previous/next item"));
    assert_eq!(
        maintenance(Some(("b2", true)), None, true),
        words(&[
            "Check for updates",
            "Update llama.cpp → b2",
            "Update llama-swap",
            "Service installed",
        ])
    );
    assert_eq!(maintenance(None, None, false)[3], "Install systemd service");
}

#[test]
fn downloads_are_shown_line_by_line() {
    let mut d = DownloadState {
        files: Table::new(),
        progress: Table::new(),
        baseline: Table::new(),
        current: String::new(),
        phase: "Downloading model files…".into(),
        retry: None,
        completed_files: 1,
        cancelling: false,
    };
    d.files.insert("a".into(), 1 << 30);
    d.files.insert("b".into(), 1 << 30);
    d.progress.insert("a".into(), 3 << 30);
    assert_eq!(downloaded(&d).ok(), Some((2 << 30, 2 << 30)));
    d.progress.insert("a".into(), 1 << 30);
    assert_eq!(downloaded(&d).ok(), Some((1 << 30, 2 << 30)));
    let t = Transfer {
        done: 1 << 30,
        total: 2 << 30,
        speed: 1 << 20,
        nanos: 65_000_000_000,
        repository: "o/r",
        destination: "/m",
    };
    assert_eq!(
        transfer_lines(&d, &t, 20),
        words(&[
            "Downloading model files…",
            "Progress 1.0 GiB / 2.0 GiB   Average 1.0 MiB/s   Elapsed 01:05.0",
            "Repository o/r   Files 1/2",
            "Current Preparing…",
            "Ranged transfers resume automatically; every LFS file is verified",
            "Save to /m - Controls locked - Esc/q/c cancels",
        ])
    );
    d.current = "a.gguf".into();
    d.cancelling = true;
    let lines = transfer_lines(&d, &t, 20);
    assert_eq!(lines[3], "Current a.gguf");
    assert!(lines[4].starts_with("Waiting for active network reads"));
    d.retry = Some("again".into());
    assert_eq!(transfer_lines(&d, &t, 20)[4], "again");
}

#[test]
fn the_profile_editor_is_shown_line_by_line() {
    let mut p = Profiles::default();
    p.profiles = Table::new();
    let Some(JsonValue::Object(members)) = parse("{\"_model\":\"m\",\"ctx-size\":8192}") else {
        panic!("no object")
    };
    p.profiles.insert("mine".into(), members);
    let (ids, paths) = (words(&["m"]), words(&["/d/m.gguf"]));
    let Ok(mut e) = open_editor(&p, "mine", &ids, &paths, 4096, 4096) else { panic!("closed") };
    let library = Templates { templates: Table::new() };
    assert_eq!(editor_head(&e), " Profile mine - Model m - File m.gguf");
    assert_eq!(
        editor_line(EditorField::Ctx, &e, &library),
        format!("{:<26} {}", "Context size", 8192)
    );
    e.advanced = false;
    assert!(editor_line(EditorField::Advanced, &e, &library).ends_with(" off"));
    e.advanced = true;
    assert!(editor_line(EditorField::Advanced, &e, &library).ends_with(" on"));
    assert!(editor_line(EditorField::ChatTemplate, &e, &library).ends_with("(model default)"));
    assert_eq!((first_shown(0, 100, 10), first_shown(50, 100, 10)), (0, 45));
    assert_eq!((first_shown(99, 100, 10), first_shown(3, 4, 10)), (90, 0));
}

#[test]
fn refused_files_and_templates_are_explained() {
    assert_eq!(
        template_text(TemplateError::Exists, "t"),
        "template 't' already exists"
    );
    assert_eq!(template_text(TemplateError::Unknown, "t"), "unknown template 't'");
    assert!(template_text(TemplateError::Name, "t").starts_with("template names use letters"));
    assert_eq!(gguf_text(GgufError::Magic, "/a"), "/a is not a GGUF file");
    assert_eq!(gguf_text(GgufError::Version(2), "/a"), "unsupported GGUF version 2 in /a");
    assert_eq!(
        gguf_text(GgufError::Implausible(1, 2), "/a"),
        "implausible GGUF header in /a: 1 tensors, 2 keys"
    );
    assert_eq!(gguf_text(GgufError::ScalarType(99), "/a"), "unsupported GGUF scalar type 99");
    assert_eq!(
        gguf_text(GgufError::StringLength(9), "/a"),
        "GGUF string length 9 exceeds cap; file misaligned?"
    );
    assert_eq!(
        gguf_text(GgufError::ArrayCount(9), "/a"),
        "GGUF array count 9 exceeds cap; file misaligned?"
    );
    assert!(gguf_text(GgufError::TooLarge(9), "/a").starts_with("refusing to read 9 bytes"));
    assert_eq!(
        gguf_text(GgufError::Dimensions(9), "/a"),
        "a tensor has 9 dimensions; file misaligned?"
    );
    assert_eq!(meta_text(MetaError::Missing, "k"), "missing metadata key 'k'");
    assert_eq!(meta_text(MetaError::NotString, "k"), "metadata key 'k' is not a string");
    assert_eq!(meta_text(MetaError::Length, "k"), "metadata key 'k' has inconsistent length");
    assert_eq!(
        meta_text(MetaError::NotUnsigned, "k"),
        "metadata key 'k' is not an unsigned integer"
    );
}
