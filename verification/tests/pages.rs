//! The pages and what the commands print: the dashboard, lists, cards and messages.
use llamactl::browser::{
    artifact_cells, headings, repository_cells, repository_text, template_cells, Browser, Listing,
};
use llamactl::config::{error_text, ConfigError};
use llamactl::dashboard::{
    activity_text, group_title, last_request_text, model_text, server_lines, serving_title,
    slot_text, totals_text,
};
use llamactl::editing::Line;
use llamactl::figures::{format_percent, format_progress, format_seconds};
use llamactl::huggingface::{Artifact, ModelDetails, Repository, TemplateHit};
use llamactl::json::{parse, JsonValue};
use llamactl::models::{Model, ModelKind};
use llamactl::profile_list::{
    columns, headings as profile_headings, is_default, row, shown_context, Columns, Shown,
};
use llamactl::profiles::{error_text as profile_text, ProfileError, Profiles};
use llamactl::report::{card_lines, retarget_lines, status_lines};
use llamactl::table::Table;
use llamactl::telemetry::{Activity, ModelState, RequestCounts, Slot, Totals};
use llamactl::view::{model_cells, template_cells as template_row};

fn words(list: &[&str]) -> Vec<String> {
    list.iter().map(|s| s.to_string()).collect()
}

#[test]
fn figures_are_rounded_as_they_are_shown() {
    assert_eq!(format_seconds(0), "0.00");
    assert_eq!(format_seconds(1234), "1.23");
    assert_eq!(format_seconds(61_005), format!("{:.2}", 61_005f64 / 1000.0));
    for (part, whole) in [(1u64, 8u64), (1, 3), (2, 3), (7, 7), (5, 1000), (1, 200), (3, 200)] {
        assert_eq!(
            format_percent(part, whole),
            format!("{:.0}", part as f64 * 100.0 / whole as f64)
        );
        assert_eq!(
            format_progress(part, whole),
            format!("{:.0}", part as f64 / whole as f64 * 100.0)
        );
    }
    assert_eq!(format_progress(3, 0), "0");
}

#[test]
fn the_dashboard_describes_the_server() {
    assert_eq!(
        server_lines(Some(42), "127.0.0.1", 1234, 2, "b9000", 3, 4),
        words(&[
            "● ONLINE - pid 42",
            "",
            "Endpoint  http://127.0.0.1:1234/v1",
            "Auth      2 API key(s)",
            "Runtime   llama.cpp b9000",
            "Models    3 discovered",
            "Profiles  4 loaded",
        ])
    );
    let stopped = server_lines(None, "h", 1, 0, "", 0, 0);
    assert_eq!(stopped[0], "○ OFFLINE - pid 0");
    assert_eq!(stopped[4], "Runtime   llama.cpp unknown");
    let totals = Totals { requests: 1, input_tokens: 20, output_tokens: 300, cache_tokens: 4 };
    assert_eq!(totals_text(&totals), " REQUESTS 1   INPUT 20   OUTPUT 300   CACHE 4");
    assert_eq!(model_text("", ModelState::Loaded), "— (no model)");
    assert_eq!(model_text("a, b", ModelState::Loading), "a, b (Loading)");
    assert_eq!(model_text("a", ModelState::Loaded), "a (Loaded)");
    assert_eq!(group_title("a", ModelState::Loading), "a - LOADING");
    assert_eq!(group_title("a", ModelState::Loaded), "a");
}

#[test]
fn the_dashboard_describes_the_last_request() {
    let mut counts = RequestCounts {
        model: "m".into(),
        prompt_tokens: 10,
        output_tokens: 20,
        cache_tokens: 5,
        draft_tokens: 8,
        draft_accepted: 6,
        duration_ms: 2500,
    };
    assert_eq!(
        last_request_text(&counts, "100.0", "12.3", Some("0.42s")),
        " m  PP 100.0 tok/s   GEN 12.3 tok/s   TOKENS 10→20   CACHE 5   DRAFT 75% (6/8)   TTFT 0.42s   TIME 2.50s"
    );
    counts.draft_tokens = 0;
    assert_eq!(
        last_request_text(&counts, "0.0", "0.0", None),
        " m  PP 0.0 tok/s   GEN 0.0 tok/s   TOKENS 10→20   CACHE 5   DRAFT —   TTFT --   TIME 2.50s"
    );
}

#[test]
fn the_dashboard_describes_slots() {
    let mut slot = Slot {
        model_name: "m".into(),
        slot_id: 0,
        prompt_done: 1,
        prompt_total: 4,
        decoded: 120,
        is_processing: true,
    };
    assert_eq!(slot_text(&slot, Some("33.0")), " P  25%  TOK     120  T/S 33.0  active ");
    slot.is_processing = false;
    assert_eq!(slot_text(&slot, None), " P  —  TOK     120  T/S —  idle ");
    let mut all = Activity { prompt_done: 1, prompt_total: 2, generated: 7, active_requests: 3 };
    assert_eq!(activity_text(&all, Some("1.5")), " P  50%  TOK 7  T/S 1.5  3 active");
    all.prompt_total = 0;
    assert_eq!(activity_text(&all, None), " P   …  TOK 7  T/S —  3 active");
    all.active_requests = 0;
    assert_eq!(activity_text(&all, None), " P  —  TOK 7  T/S —  0 active");
}

#[test]
fn the_title_says_what_is_served() {
    assert_eq!(serving_title(false, ModelState::Loaded, "m", 20, 0), "○ STOPPED");
    assert_eq!(serving_title(true, ModelState::Absent, "", 20, 0), "✓ SERVING");
    assert_eq!(serving_title(true, ModelState::Loaded, "m", 20, 0), "● m");
    assert_eq!(serving_title(true, ModelState::Loading, "m", 20, 0), "◐ m - LOADING");
    assert_eq!(serving_title(true, ModelState::Loaded, "abcdef", 6, 250), "● bcd");
    assert_eq!(serving_title(true, ModelState::Loading, "abcdef", 3, 250), "◐ abcdef - LOADING");
}

fn repository() -> Repository {
    Repository {
        id: "o/r".into(),
        downloads: 1500,
        likes: 7,
        license: "mit".into(),
        updated: "2026-01-02".into(),
    }
}

#[test]
fn lists_have_more_columns_on_wide_pages() {
    let r = repository();
    assert_eq!(repository_cells(&r, true), words(&[" o/r", "1.5K", "7", "mit", "2026-01-02"]));
    assert_eq!(repository_cells(&r, false), words(&[" o/r", "1.5K", "mit"]));
    let mut a = Artifact {
        label: "Q4_K_M".into(),
        description: "balanced".into(),
        quality: 4,
        recommended: true,
        files: vec![],
        size: 1 << 30,
        shard_count: 1,
        has_mmproj: false,
        complete: true,
    };
    let wide = artifact_cells(&a, true);
    assert_eq!(wide[0], " Q4_K_M  RECOMMENDED");
    assert_eq!(wide[2..], words(&["4/5", "1 file", "balanced"]));
    a.recommended = false;
    let narrow = artifact_cells(&a, false);
    assert_eq!((narrow[0].as_str(), narrow[2].as_str()), (" Q4_K_M", "balanced"));
    assert_eq!(wide[1], narrow[1]);
    let hit = TemplateHit { id: "o/t".into(), template: "a\n b".into(), downloads: 2, likes: 3 };
    assert_eq!(template_cells(&hit, true), words(&[" o/t", "2", "3", "a b"]));
    assert_eq!(template_cells(&hit, false), words(&[" o/t", "2", "a b"]));
    for listing in [Listing::Templates, Listing::Artifacts, Listing::Repositories] {
        let (wide, narrow) = (headings(listing, true), headings(listing, false));
        assert!(narrow.iter().all(|heading| wide.contains(heading)));
    }
    assert_eq!(headings(Listing::Artifacts, true).len(), wide.len());
    assert_eq!(
        headings(Listing::Repositories, true),
        words(&["REPOSITORY", "DOWNLOADS", "LIKES", "LICENSE", "UPDATED"])
    );
    assert_eq!(repository_text(&r), " Repository o/r - License mit");
}

#[test]
fn an_empty_search_says_what_it_would_show() {
    let mut b = Browser {
        query: Line { text: String::new(), cursor: 0 },
        editing: false,
        search_templates: false,
        repositories: vec![],
        repository: None,
        artifacts: vec![],
        template_hits: vec![],
        template_view: None,
        details: None,
        details_open: false,
        detail_scroll: 0,
    };
    assert!(b.shows_hint() && b.listing() == Listing::Repositories);
    b.repository = Some(repository());
    assert!(!b.shows_hint() && b.listing() == Listing::Artifacts);
    b.search_templates = true;
    assert!(b.shows_hint() && b.listing() == Listing::Templates);
    b.search_templates = false;
    b.repository = None;
    b.repositories.push(repository());
    assert!(!b.shows_hint());
}

#[test]
fn a_card_is_printed_line_by_line() {
    let d = ModelDetails {
        id: "o/r".into(),
        author: "o".into(),
        downloads: 12,
        likes: 3,
        license: "mit".into(),
        updated: "2026-01-02".into(),
        task: "chat".into(),
        library: "gguf".into(),
        base_model: "b".into(),
        languages: words(&["en", "de"]),
        tags: words(&["x", "y"]),
        url: "https://h/o/r".into(),
        readme: "# R".into(),
    };
    assert_eq!(
        card_lines(&d).join("\n"),
        "  o/r\n  Author     o\n  License    mit\n  Downloads  12\n  Likes      3\n  Updated    2026-01-02\n  Task       chat\n  Library    gguf\n  Base model b\n  Languages  en, de\n  Tags       x - y\n  Page       https://h/o/r\n\n# R"
    );
}

#[test]
fn the_status_is_printed_line_by_line() {
    assert_eq!(
        status_lines("0.1.0", "cuda", "h", 80, Some(7), 2, true),
        words(&[
            "llamactl 0.1.0",
            "  backend     cuda",
            "  endpoint    http://h:80/v1",
            "  server      running (pid 7)",
            "  models      2",
            "  llama-swap  installed",
        ])
    );
    let stopped = status_lines("0.1.0", "cpu", "h", 80, None, 0, false);
    assert_eq!(stopped[3], "  server      stopped");
    assert_eq!(stopped[5], "  llama-swap  not installed");
}

#[test]
fn retargeting_says_who_had_the_profile() {
    assert_eq!(
        retarget_lines("p", "new", Some("old"), true),
        words(&[
            "✓ profile p now uses model new (was old)",
            "⚠ removed draft-mtp speculation - model 'new' lacks MTP tensors",
        ])
    );
    assert_eq!(
        retarget_lines("p", "m", Some("m"), false),
        words(&["✓ profile p already uses model m"])
    );
    assert_eq!(
        retarget_lines("p", "m", None, false),
        words(&["✓ profile p now uses model m"])
    );
}

#[test]
fn refused_settings_are_explained() {
    assert_eq!(error_text(ConfigError::UnknownKey, "k", "v"), "unknown config key 'k'");
    assert_eq!(error_text(ConfigError::ExpectedBool, "k", "v"), "expected true or false");
    assert_eq!(error_text(ConfigError::ExpectedArray, "k", "v"), "expected a JSON array");
    assert_eq!(error_text(ConfigError::InvalidJson, "k", "v"), "invalid JSON value");
    assert_eq!(
        error_text(ConfigError::Backend, "backend", "metal"),
        "invalid backend 'metal'\nvalid: cuda, vulkan, cpu, rocm, sycl-fp16, sycl-fp32, openvino"
    );
    assert_eq!(
        error_text(ConfigError::VramFraction, "k", "v"),
        "scheduler_vram_fraction must be between 0.1 and 1.0"
    );
    assert_eq!(
        error_text(ConfigError::MaxModels, "k", "0"),
        "scheduler_max_models must be at least 1"
    );
    assert_eq!(error_text(ConfigError::Ports, "k", "0"), "ports must be between 1 and 65535");
    assert_eq!(
        error_text(ConfigError::SamePort, "k", "0"),
        "telemetry_port must differ from the OpenAI API port"
    );
    assert_eq!(
        error_text(ConfigError::KeepVersions, "k", "0"),
        "keep_versions must be at least 1"
    );
}

fn profiles(list: &[(&str, &str)], bound: &[(&str, &str)]) -> Profiles {
    let mut p = Profiles::default();
    p.profiles = Table::new();
    p.models = Table::new();
    for (name, text) in list {
        let Some(JsonValue::Object(members)) = parse(text) else { panic!("{text}") };
        p.profiles.insert(name.to_string(), members);
    }
    for (model, name) in bound {
        p.models.insert(model.to_string(), JsonValue::String(name.to_string()));
    }
    p
}

#[test]
fn profiles_are_listed_by_the_room_there_is() {
    let p = profiles(
        &[
            ("fast", "{\"_model\":\"m\",\"ctx-size\":\"8192\"}"),
            ("slow", "{\"_model\":\"m\",\"ctx-size\":2048}"),
            ("bare", "{}"),
        ],
        &[("m", "fast")],
    );
    assert_eq!(columns(69), Columns::Narrow);
    assert_eq!(columns(70), Columns::Memory);
    assert_eq!(columns(140), Columns::Wide);
    assert!(is_default(&p, "fast") && !is_default(&p, "slow") && !is_default(&p, "bare"));
    assert_eq!(shown_context(&p, "fast", 4096), 8192);
    assert_eq!(shown_context(&p, "slow", 4096), 2048);
    assert_eq!(shown_context(&p, "bare", 4096), 4096);
    let pins = words(&["fast"]);
    let wide = Shown {
        vram: Some("1.5"),
        ram: Some("0.5"),
        benchmarks: words(&["1.0", "2.0", "3.0", "4.0", "--"]),
        live: "9.9",
    };
    assert_eq!(
        row(&p, &pins, 4096, Columns::Wide, "fast", &wide),
        words(&[" fast ◆ ★", "1.5G", "0.5G", "8192", "1.0", "2.0", "3.0", "4.0", "--", "9.9"])
    );
    assert_eq!(profile_headings(Columns::Wide).len(), 10);
    let short = Shown { vram: None, ram: None, benchmarks: words(&["--"]), live: "--" };
    assert_eq!(
        row(&p, &pins, 4096, Columns::Memory, "slow", &short),
        words(&[" slow", "…", "…", "--", "--"])
    );
    assert_eq!(
        row(&p, &vec![], 4096, Columns::Narrow, "bare", &short),
        words(&[" bare", "--", "--"])
    );
    assert_eq!(profile_headings(Columns::Narrow), words(&["PROFILE", "BENCH T/S", "LIVE T/S"]));
}

#[test]
fn models_and_templates_are_listed() {
    let mut m = Model {
        id: "m".into(),
        relative: "a/m.gguf".into(),
        path: "/m/a/m.gguf".into(),
        bytes: 3 << 29,
        vision: true,
        kind: ModelKind::Main,
    };
    assert_eq!(model_cells(&m), words(&[" m", "1.5G", "vision", "a/m.gguf"]));
    m.vision = false;
    assert_eq!(model_cells(&m)[2], "text");
    m.kind = ModelKind::Draft;
    assert_eq!(model_cells(&m)[2], "draft");
    let long = "word ".repeat(20);
    let cells = template_row("t", &long, long.len() as u64);
    assert_eq!((cells[0].as_str(), cells[2].len()), (" t", 60));
}

#[test]
fn refused_profiles_are_explained() {
    let said = |e: ProfileError| profile_text(&e, "p");
    assert_eq!(said(ProfileError::Exists), "profile 'p' already exists");
    assert_eq!(said(ProfileError::Unknown), "unknown profile 'p'");
    assert_eq!(
        said(ProfileError::Managed("port".into())),
        "profile 'p': --port is managed by llamactl"
    );
    assert_eq!(said(ProfileError::NotExposed("x".into())), "profile 'p': --x is not exposed");
    assert_eq!(
        said(ProfileError::UnknownFlag("x".into())),
        "profile 'p': --x is unknown to installed llama.cpp"
    );
    assert_eq!(
        said(ProfileError::OwnedBy("q".into(), "o".into())),
        "profile 'q' belongs to 'o', not 'p'"
    );
    assert_eq!(said(ProfileError::NoOwner("q".into())), "profile 'q' has no owner");
    assert_eq!(
        said(ProfileError::EnvironmentEntry("X".into())),
        "environment entry lacks '=': X"
    );
}
