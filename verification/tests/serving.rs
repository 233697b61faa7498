//! Serving: command lines, the scheduler's configuration, memory, telemetry and benchmarks.
use llamactl::benchmark::{
    bounded_target, case_kind, case_name, case_tokens, effective_context, flag_context,
    generation_counts, is_enough, keeps_results, line_data, next_step, nvidia_process_vram,
    plan_cases, prefill_prompt, process_rss_bytes, profile_hash, prompts, repeated_prompt,
    resolved_runtime, runtime_props, runtime_version, slot_totals, stream_event, timing, tokens,
    BenchmarkRun, CasePlan, ProfileBenchmarks, Step, Work, MAX_GENERATION_TOKENS,
};
use llamactl::config::Config;
use llamactl::drm::{
    collect, device_local_bytes, device_total_bytes, is_card, local_bytes, parse_size,
    read_fdinfo, Report,
};
use llamactl::json::{parse, JsonValue};
use llamactl::models::{DraftCompatibility, Model, ModelKind};
use llamactl::process::{
    common_args, complete_event_contains_upstream, device_memory_bytes, draft_model, flag_value,
    installed_vram_bytes, is_running, known_flags, library_path, listed_names, listed_vram_bytes,
    mebibytes, parse_pid, percent_encode, process_state, resolve_swap_entry, runtime_command,
    server_args, server_candidates, shell_join, swap_args, tail, target, unload_route,
    upstream_log_from_events, validate_draft_model, vendor_packages, with_environment, DraftFault,
    SwapTarget, TooLarge,
};
use llamactl::profiles::{ProfileError, Profiles};
use llamactl::scheduler::maximal_fitting_sets;
use llamactl::swap::{
    arrange_entries, entry_args, entry_text, head_text, hooks_text, overridden_args, plan_entries,
    requests_internal_mtp, scheduler_matrix, write_swap_config, EntryFacts, SwapEntry, SwapError,
    WriteError,
};
use llamactl::table::Table;
use llamactl::telemetry::{
    activity, arrange_slots, build_version, generated_since, group_slots, keeps_samples,
    latest_gpu_samples, memory_bytes, next_look, progress, read_slots, request_counts,
    running_state, running_targets, sample, server_version, totals, Activity, ModelState,
    RequestCounts, Slot, Totals, SECOND,
};

fn words(list: &[&str]) -> Vec<String> {
    list.iter().map(|s| s.to_string()).collect()
}

fn json(text: &str) -> JsonValue {
    parse(text).unwrap()
}

fn table(text: &str) -> Table<JsonValue> {
    match parse(text) {
        Some(JsonValue::Object(t)) => t,
        _ => panic!("no object: {text}"),
    }
}

fn profiles(list: &[(&str, &str)], models: &str) -> Profiles {
    let mut p = Profiles::default();
    for (name, text) in list {
        p.profiles.insert(name.to_string(), table(text));
    }
    p.models = table(models);
    p
}

#[test]
fn scheduler_returns_only_maximal_sets() {
    let sets = maximal_fitting_sets(&[12, 15, 20], 30, 4);
    assert_eq!(sets, vec![vec![0, 1]]);
}

#[test]
fn scheduler_supports_more_than_one_machine_word_of_models() {
    let estimates = vec![10; usize::BITS as usize + 1];
    let sets = maximal_fitting_sets(&estimates, 20, 2);
    assert_eq!(sets.len(), estimates.len() * (estimates.len() - 1) / 2);
    assert!(sets.iter().all(|set| set.len() == 2));
}

#[test]
fn a_budget_of_nothing_fits_no_set() {
    assert_eq!(maximal_fitting_sets(&[5], 4, 3), Vec::<Vec<usize>>::new());
    assert_eq!(maximal_fitting_sets(&[], 4, 3), Vec::<Vec<usize>>::new());
    assert_eq!(maximal_fitting_sets(&[1, 1, 1], 3, 3), vec![vec![0, 1, 2]]);
}

#[test]
fn event_log_keeps_only_upstream_output_and_limits_lines() {
    let events = [
        "data:{\"type\":\"logData\",\"data\":\"{\\\"source\\\":\\\"proxy\\\",\\\"data\\\":\\\"proxy\\\\n\\\"}\"}\n",
        "data:{\"type\":\"logData\",\"data\":\"{\\\"source\\\":\\\"upstream\\\",\\\"data\\\":\\\"one\\\\ntwo\\\\nthree\\\\n\\\"}\"}\n",
    ]
    .concat();
    assert_eq!(upstream_log_from_events(&events, 2), "two\nthree");
    assert!(complete_event_contains_upstream(&format!("{events}\n\n")));
    assert_eq!(tail("a\nb\nc", 1), "c");
}

#[test]
fn flags_are_looked_up_from_the_end() {
    let args = words(&["-c", "1", "--ctx-size", "2", "-c", "3"]);
    assert_eq!(flag_value(&args, &["-c", "--ctx-size"]).as_deref(), Some("3"));
    assert_eq!(flag_value(&args, &["--threads"]), None);
    assert_eq!(draft_model(&words(&["-md", "/d.gguf"])).as_deref(), Some("/d.gguf"));
}

#[test]
fn command_lines_of_the_server() {
    let mut cfg = Config::default();
    cfg.extra_args = words(&["--metrics"]);
    assert_eq!(common_args(&cfg), words(&["-ngl", "all", "-c", "4096", "--metrics"]));
    cfg.api_keys = words(&["k"]);
    let p = profiles(&[("mine", "{\"_model\":\"m\",\"threads\":4}")], "{}");
    let args = server_args(&cfg, &p, &words(&["-m", "/m.gguf"]), "m", Some("mine"), &words(&["--x"]))
        .ok()
        .unwrap();
    assert_eq!(&args[..2], &words(&["-m", "/m.gguf"])[..]);
    assert!(args.windows(2).any(|w| w == words(&["--threads", "4"])));
    assert!(args.windows(2).any(|w| w == words(&["--api-key", "k"])));
    assert!(args.windows(2).any(|w| w == words(&["--port", "1234"])));
    assert_eq!(args.last().map(String::as_str), Some("--x"));
    assert!(matches!(
        server_args(&cfg, &p, &[], "m", Some("none"), &[]),
        Err(ProfileError::Unknown)
    ));
    let swap = swap_args(&cfg, "/s.yaml");
    assert!(swap.contains(&"/s.yaml".to_string()));
    assert!(swap.contains(&"127.0.0.1:1234".to_string()));
}

#[test]
fn targets_name_a_model_and_perhaps_a_profile() {
    let p = profiles(&[("mine", "{\"_model\":\"m\"}")], "{}");
    let t = target(&p, "mine");
    assert_eq!((t.query.as_str(), t.profile.as_deref()), ("m", Some("mine")));
    let u = target(&p, "other");
    assert_eq!((u.query.as_str(), u.profile.as_deref()), ("other", None));
}

#[test]
fn environments_go_before_the_command() {
    let (program, args) = with_environment(&vec![], "/bin/s", &words(&["-c"]));
    assert_eq!((program.as_str(), args), ("/bin/s", words(&["-c"])));
    let pair = vec![("A".to_string(), "1".to_string())];
    let (program, args) = with_environment(&pair, "/bin/s", &words(&["-c"]));
    assert_eq!((program.as_str(), args), ("/usr/bin/env", words(&["A=1", "/bin/s", "-c"])));
    let (program, args) = runtime_command("/bin/s", "/env.sh");
    assert_eq!(program, "bash");
    assert_eq!(
        args,
        words(&[
            "-c",
            "source \"$1\" >/dev/null 2>&1; shift; exec \"$@\"",
            "llamactl",
            "/env.sh",
            "/bin/s",
        ])
    );
    assert_eq!(runtime_command("/bin/s", ""), ("/bin/s".to_string(), vec![]));
}

#[test]
fn words_are_quoted_for_the_shell() {
    assert_eq!(shell_join(&words(&["a-b/c:d=e,f", "${PORT}", "a b", "it's"])), "a-b/c:d=e,f ${PORT} 'a b' 'it'\\''s'");
    assert_eq!(percent_encode("a b/é~"), "a%20b%2F%C3%A9~");
    assert_eq!(unload_route(Some("a b")), "/api/models/unload/a%20b");
    assert_eq!(unload_route(None), "/api/models/unload");
}

#[test]
fn the_help_lists_flags_and_devices() {
    assert_eq!(known_flags("--b-flag x --a, -c --b-flag"), words(&["a", "b-flag"]));
    let listing = "CUDA0: card (1000 MiB, 250 MiB free)\nCUDA1: card (24 MiB,  4 MiB free)\n";
    assert_eq!(device_memory_bytes(listing), Ok(Some((1024 << 20, 254 << 20))));
    assert_eq!(device_memory_bytes("none"), Ok(None));
    assert_eq!(installed_vram_bytes(listing), Ok(1024 << 20));
    assert_eq!(listed_vram_bytes("8192\n 16 \nx\n"), Ok(8208 << 20));
    assert_eq!(mebibytes(&vec![u64::MAX]), Err(TooLarge));
}

#[test]
fn drafts_are_checked_before_serving() {
    let args = words(&["--spec-draft-model", "/d.gguf"]);
    let fine = DraftCompatibility::Compatible;
    let bad = DraftCompatibility::Incompatible("why".into());
    assert!(validate_draft_model(true, &args, true, &fine).is_ok());
    assert!(validate_draft_model(false, &args, false, &bad).is_ok());
    assert!(validate_draft_model(true, &[], false, &bad).is_ok());
    assert!(matches!(
        validate_draft_model(true, &args, false, &fine),
        Err(DraftFault::Missing(path)) if path == "/d.gguf"
    ));
    assert!(matches!(
        validate_draft_model(true, &args, true, &bad),
        Err(DraftFault::Incompatible(path, reason)) if path == "/d.gguf" && reason == "why"
    ));
    let unknown = DraftCompatibility::Unknown("x".into());
    assert!(validate_draft_model(true, &args, true, &unknown).is_ok());
}

#[test]
fn scheduled_models_are_named_or_searched() {
    let names = listed_names(&json("{\"data\":[{\"id\":\"alpha\"},{\"id\":\"Beta\"},{\"x\":1}]}"), "data", "id");
    assert_eq!(names, words(&["alpha", "Beta"]));
    let p = profiles(&[("alpha", "{\"_model\":\"base\"}")], "{\"base\":\"alpha\",\"odd\":1}");
    let found = |query: &str| resolve_swap_entry(&names, &p, query);
    assert!(matches!(found("alpha"), SwapTarget::Name(n) if n == "alpha"));
    assert!(matches!(found("base"), SwapTarget::Name(n) if n == "alpha"));
    assert!(matches!(found("BET"), SwapTarget::Name(n) if n == "Beta"));
    assert!(matches!(found("a"), SwapTarget::Ambiguous(list) if list == names));
    assert!(matches!(found("zz"), SwapTarget::Unmatched));
    assert!(matches!(found("odd"), SwapTarget::Profile(ProfileError::BindingKind(_))));
}

#[test]
fn processes_are_read_from_their_files() {
    assert_eq!(parse_pid(" 42\n"), Some(42));
    assert_eq!(parse_pid("x"), None);
    assert_eq!(process_state("12 (a) b) S 1"), Some('S'));
    assert!(is_running("12 (llama) S 1"));
    assert!(!is_running("12 (llama) Z 1"));
    assert_eq!(vendor_packages(&json("{\"vendor_lib_package_names\":[\"a\",1,\"b\"]}")), words(&["a", "b"]));
    assert_eq!(library_path("/r", &words(&["/v"]), "/i"), "/r:/v:/i");
    assert_eq!(library_path("/r", &vec![], ""), "/r");
    assert_eq!(
        server_candidates("managed:b1", "/v", Some("/h"), "/c"),
        words(&["/v/b1/llama-server", "/c/llama-server"])
    );
    assert_eq!(server_candidates("managed", "/v", None, "/c"), words(&["/c/llama-server"]));
    assert_eq!(
        server_candidates("lmstudio:x", "/v", Some("/h"), "/c"),
        words(&["/h/.lmstudio/extensions/backends/x/llama-server", "/c/llama-server"])
    );
}

fn model(id: &str, relative: &str) -> Model {
    Model {
        id: id.into(),
        relative: relative.into(),
        path: format!("/m/{relative}"),
        bytes: 1,
        vision: false,
        kind: ModelKind::Main,
    }
}

#[test]
fn models_are_offered_by_base_and_by_profile() {
    let mut cfg = Config::default();
    let p = profiles(
        &[("fast", "{\"_model\":\"a\",\"threads\":2}"), ("slow", "{\"_model\":\"a\"}")],
        "{\"a\":{\"profile\":\"fast\",\"threads\":8}}",
    );
    let models = vec![model("a", "a.gguf"), model("b", "b.gguf")];
    let planned = plan_entries(&cfg, &p, None, &models).ok().unwrap();
    let ids: Vec<&str> = planned.iter().map(|x| x.entry.id.as_str()).collect();
    assert_eq!(ids, vec!["a", "b"]);
    assert_eq!(planned[0].entry.profile.as_deref(), Some("fast"));
    assert!(planned[0].args.windows(2).any(|w| w == words(&["--threads", "8"])));
    cfg.advertise_profiles = true;
    let planned = plan_entries(&cfg, &p, None, &models).ok().unwrap();
    assert!(planned.iter().any(|x| x.entry.id == "slow"));
    assert_eq!(
        overridden_args(&p, "fast", &table("{\"threads\":5}"), None).ok().unwrap(),
        words(&["--threads", "5"])
    );
}

fn entry(id: &str, physical: &str, estimate: u64) -> SwapEntry {
    SwapEntry {
        id: id.into(),
        physical: physical.into(),
        path: format!("/m/{physical}.gguf"),
        profile: None,
        overrides: Table::new(),
        estimate,
        environment: vec![],
    }
}

#[test]
fn entries_are_sorted_and_pins_are_checked() {
    let arranged = arrange_entries(vec![entry("b", "b", 1), entry("a", "a", 1)], false, &words(&["a"]))
        .ok()
        .unwrap();
    let ids: Vec<&str> = arranged.iter().map(|x| x.id.as_str()).collect();
    assert_eq!(ids, vec!["a", "b"]);
    assert!(matches!(arrange_entries(vec![], false, &vec![]), Err(SwapError::Empty)));
    assert!(matches!(
        arrange_entries(vec![entry("a", "a", 1)], false, &words(&["x"])),
        Err(SwapError::UnknownPinned(name)) if name == "x"
    ));
}

#[test]
fn the_scheduler_is_told_of_models() {
    let mut cfg = Config::default();
    assert_eq!(head_text(&cfg), "healthCheckTimeout: 300\nstartPort: 1235\nmodels:\n");
    cfg.api_keys = words(&["k\"q"]);
    assert_eq!(
        head_text(&cfg),
        "healthCheckTimeout: 300\nstartPort: 1235\napiKeys:\n  - \"k\\\"q\"\nmodels:\n"
    );
    let p = Profiles::default();
    let e = entry("a", "a", 1);
    let args = entry_args(&cfg, &p, None, "/bin/s", &words(&["-m", "/m/a.gguf"]), &e).ok().unwrap();
    assert_eq!(args, words(&["/bin/s", "-m", "/m/a.gguf", "-ngl", "all", "-c", "4096"]));
    assert_eq!(
        entry_text(&cfg, &args, Some("embed"), &e),
        "  \"a\":\n    cmd: /bin/s -m /m/a.gguf -ngl all -c 4096 --embeddings --host 127.0.0.1 --port ${PORT} --alias a\n    ttl: 600\n"
    );
    cfg.scheduler_pinned_models = words(&["a"]);
    assert!(entry_text(&cfg, &args, None, &e).ends_with("    ttl: 0\n"));
    assert!(requests_internal_mtp(&words(&["--spec-type", "draft-mtp"])));
    assert!(!requests_internal_mtp(&words(&["--spec-type", "draft-mtp", "--spec-draft-model", "x"])));
}

#[test]
fn the_matrix_names_what_fits_together() {
    let entries = vec![entry("a", "one", 12), entry("b", "two", 15), entry("c", "one", 10)];
    assert_eq!(
        scheduler_matrix(&entries, 30, 4),
        "matrix:\n  vars:\n    m0: \"a\"\n    m1: \"c\"\n    m2: \"b\"\n  evict_costs:\n    m0: 1\n    m1: 1\n    m2: 1\n  sets:\n    fit0: \"(m0 | m1) & m2\"\n"
    );
    assert_eq!(scheduler_matrix(&entries, 5, 4), "");
}

#[test]
fn pinned_models_are_loaded_first() {
    let entries = vec![entry("a", "one", 12), entry("b", "two", 15), entry("c", "one", 10)];
    let text = hooks_text(&entries, &words(&["a", "b"]), 4, 30).ok().unwrap();
    assert!(text.contains("a") && text.contains("b"));
    assert!(matches!(hooks_text(&entries, &words(&["a", "c"]), 4, 30), Err(SwapError::PinnedTwice)));
    assert!(matches!(hooks_text(&entries, &words(&["a", "b"]), 1, 30), Err(SwapError::PinnedBudget)));
    assert!(matches!(hooks_text(&entries, &words(&["a", "b"]), 4, 26), Err(SwapError::PinnedBudget)));
    assert!(hooks_text(&entries, &words(&["a", "b"]), 4, 0).is_ok());
}

fn facts(path: &str) -> EntryFacts {
    EntryFacts {
        model_args: words(&["-m", path]),
        has_mtp: false,
        draft_exists: false,
        compatibility: DraftCompatibility::Compatible,
        mode: None,
    }
}

#[test]
fn the_configuration_is_written_as_a_whole() {
    let mut cfg = Config::default();
    cfg.scheduler_enabled = true;
    cfg.scheduler_max_models = 4;
    cfg.scheduler_pinned_models = words(&["a"]);
    let p = Profiles::default();
    let entries = vec![entry("a", "a", 12), entry("b", "b", 15)];
    let read = vec![facts("/m/a.gguf"), facts("/m/b.gguf")];
    let write = |installed: u64, budget: u64| {
        write_swap_config(&cfg, &p, None, "/bin/s", &entries, &read, installed, budget)
    };
    let head = "healthCheckTimeout: 300\nstartPort: 1235\nmodels:\n";
    let a = "  \"a\":\n    cmd: /bin/s -m /m/a.gguf -ngl all -c 4096 --host 127.0.0.1 --port ${PORT} --alias a\n    ttl: 0\n";
    let b = "  \"b\":\n    cmd: /bin/s -m /m/b.gguf -ngl all -c 4096 --host 127.0.0.1 --port ${PORT} --alias b\n    ttl: 600\n";
    let hooks = "hooks:\n  on_startup:\n    preload:\n      - \"a\"\n";
    assert_eq!(write(0, 0).ok().unwrap(), format!("{head}{a}{b}{hooks}"));
    let matrix = scheduler_matrix(&entries, 30, 4);
    assert!(matrix.starts_with("matrix:\n"));
    assert_eq!(write(40, 30).ok().unwrap(), format!("{head}{a}{b}{matrix}{hooks}"));
    assert!(matches!(write(40, 10), Err(WriteError::Offer(SwapError::PinnedBudget))));
}

#[test]
fn a_configuration_is_refused_by_its_first_fault() {
    let cfg = Config::default();
    let p = profiles(
        &[
            ("self", "{\"_model\":\"a\",\"spec-type\":\"draft-mtp\"}"),
            ("other", "{\"_model\":\"a\",\"spec-draft-model\":\"/m/d.gguf\"}"),
            ("managed", "{\"_model\":\"a\",\"port\":1}"),
        ],
        "{}",
    );
    let with = |profile: &str| {
        let mut e = entry(profile, "a", 1);
        e.profile = Some(profile.into());
        e
    };
    let write = |e: SwapEntry, f: EntryFacts| {
        write_swap_config(&cfg, &p, None, "/bin/s", &vec![e], &vec![f], 0, 0)
    };
    assert!(matches!(
        write(with("managed"), facts("/m/a.gguf")),
        Err(WriteError::Profile(id, ProfileError::Managed(_))) if id == "managed"
    ));
    assert!(matches!(
        write(with("self"), facts("/m/a.gguf")),
        Err(WriteError::NoMtp(name)) if name == "self"
    ));
    let mut able = facts("/m/a.gguf");
    able.has_mtp = true;
    assert!(write(with("self"), able).is_ok());
    assert!(matches!(
        write(with("other"), facts("/m/a.gguf")),
        Err(WriteError::Draft(id, DraftFault::Missing(path))) if id == "other" && path == "/m/d.gguf"
    ));
    let mut there = facts("/m/a.gguf");
    there.draft_exists = true;
    there.compatibility = DraftCompatibility::Incompatible("no".into());
    assert!(matches!(
        write(with("other"), there),
        Err(WriteError::Draft(_, DraftFault::Incompatible(_, reason))) if reason == "no"
    ));
}

#[test]
fn a_profile_is_known_by_its_digest() {
    assert_eq!(
        profile_hash(&table("{}")),
        "44136fa355b3678a1146ad16f7e8649e94fb4fc21fe77e8310c060f61caaff8a"
    );
    assert_eq!(
        profile_hash(&table("{\"b\":[1,-2,null,true],\"a\":\"x\\\"y\"}")),
        "d1a6ccc41557828cc158cc6186bbdefaac4de44a27276b54d48df216fdf08aba"
    );
}

#[test]
fn slots_are_summed_up() {
    let answers = vec![
        json("{\"content\":\"one\",\"timings\":{\"prompt_n\":3,\"predicted_n\":5}}"),
        json("{\"timings\":{\"prompt_n\":4}}"),
    ];
    assert_eq!(slot_totals(&answers).ok().unwrap(), (7, 5, words(&["one", ""])));
    let most = "{\"timings\":{\"predicted_n\":18446744073709551615}}";
    assert!(slot_totals(&vec![json(most), json("{\"timings\":{\"predicted_n\":1}}")]).is_err());
}

#[test]
fn parses_fdinfo_sizes() {
    assert_eq!(parse_size("0"), Some(0));
    assert_eq!(parse_size("3 MiB"), Some(3 * 1024 * 1024));
    assert_eq!(parse_size("5546064 KiB"), Some(5546064 * 1024));
    assert_eq!(parse_size("nonsense"), None);
    // An unrecognised suffix must not be treated as bytes.
    assert_eq!(parse_size("12 QiB"), None);
}

fn fields(list: &[(&str, &str)]) -> Table<String> {
    let mut f = Table::new();
    for (key, value) in list {
        f.insert(key.to_string(), value.to_string());
    }
    f
}

#[test]
fn counts_only_device_local_regions() {
    let f = fields(&[
        ("drm-resident-system", "0"),
        ("drm-resident-gtt", "3 MiB"),
        ("drm-resident-vram0", "5546064 KiB"),
    ]);
    // gtt and system are host memory and must not count as VRAM.
    assert_eq!(device_local_bytes(&f, "drm-resident-"), 5546064 * 1024);
}

#[test]
fn total_and_resident_are_read_independently() {
    let f = fields(&[("drm-total-vram0", "8 GiB"), ("drm-resident-vram0", "5 GiB")]);
    // Under eviction these diverge; nvtop reports the former.
    assert_eq!(device_local_bytes(&f, "drm-total-"), 8 * (1 << 30));
    assert_eq!(device_local_bytes(&f, "drm-resident-"), 5 * (1 << 30));
}

#[test]
fn i915_local_region_is_recognised() {
    let f = fields(&[("drm-resident-local0", "1 GiB")]);
    assert_eq!(device_local_bytes(&f, "drm-resident-"), 1024 * 1024 * 1024);
}

#[test]
fn clients_are_counted_once_and_add_up() {
    let report = |pid: i32, id: &str, device: &str| Report {
        pid,
        comm: "llama".into(),
        fields: read_fdinfo(&format!(
            "drm-client-id:\t{id}\ndrm-pdev:\t{device}\ndrm-total-vram0:\t2 MiB\ndrm-resident-vram0:\t1 MiB\n"
        )),
    };
    let memory = collect(&vec![report(1, "7", "a"), report(1, "7", "a"), report(2, "8", "b")]).unwrap_or_else(|_| panic!("too large"));
    assert_eq!(memory.clients.len(), 2);
    assert!(memory.countable());
    assert_eq!(memory.total_allocated(), 4 << 20);
    assert_eq!(memory.total_resident(), 2 << 20);
    assert_eq!(memory.for_pid(1), 1 << 20);
    let devices = memory.per_device();
    assert_eq!(devices.len(), 2);
    assert_eq!(devices.get("b"), Some(&(1 << 20)));
    assert_eq!(local_bytes(&fields(&[("drm-total-vram0", "18446744073709551615 KiB")]), "drm-total-"), Err(TooLarge));
    assert!(is_card("card0"));
    assert!(!is_card("card0-DP-1") && !is_card("renderD128"));
    assert_eq!(device_total_bytes(&words(&["16\n", "x", "8"])), Ok(24));
}

#[test]
fn performance_history_keeps_only_latest_sample_per_gpu() {
    let payload = json(
        "{\"gpu_stats\": [
            {\"id\": 0, \"timestamp\": \"old\", \"mem_total_mb\": 100, \"temp_c\": 40},
            {\"id\": 1, \"timestamp\": \"old\", \"mem_total_mb\": 200, \"temp_c\": 41},
            {\"id\": 0, \"timestamp\": \"new\", \"mem_total_mb\": 100, \"temp_c\": 50},
            {\"id\": 1, \"timestamp\": \"new\", \"mem_total_mb\": 200, \"temp_c\": 51}
        ]}",
    );
    let samples = latest_gpu_samples(&payload);
    assert_eq!(samples.len(), 2);
    assert_eq!(
        samples[0].get("timestamp").and_then(JsonValue::as_str),
        Some("new")
    );
    assert_eq!(
        samples[1].get("timestamp").and_then(JsonValue::as_str),
        Some("new")
    );
}

#[test]
fn compact_sidecar_gpu_samples_are_used_directly() {
    let payload = json(
        "{\"gpus\": [
            {\"id\": 0, \"mem_total_mb\": 100},
            {\"id\": 1, \"mem_total_mb\": 200}
        ]}",
    );
    let samples = latest_gpu_samples(&payload);
    assert_eq!(samples.len(), 2);
    assert_eq!(
        samples
            .iter()
            .filter_map(|gpu| gpu.get("mem_total_mb").and_then(JsonValue::as_u64))
            .sum::<u64>(),
        300
    );
}

#[test]
fn memory_and_versions_are_read_from_reports() {
    assert_eq!(memory_bytes("MemTotal:  16 kB\nMemAvailable: 4 kB\n", "MemAvailable:"), Ok(4096));
    assert_eq!(memory_bytes("", "MemTotal:"), Ok(0));
    assert_eq!(server_version(&json("{\"metadata\":{\"llama.cpp.version\":\"b1\"}}")), "b1");
    assert_eq!(build_version(&json("{\"tag\":\"b2\"}")), "b2");
    assert_eq!(
        totals(&json("{\"total_requests\":1,\"total_input_tokens\":2,\"total_output_tokens\":3}")),
        Totals { requests: 1, input_tokens: 2, output_tokens: 3, cache_tokens: 0 }
    );
    assert_eq!(
        request_counts(&json(
            "{\"model\":\"m\",\"duration_ms\":9,\"tokens\":{\"input_tokens\":1,\"output_tokens\":2,\"cache_tokens\":3,\"draft_tokens\":4,\"draft_acc_tokens\":5}}"
        )),
        RequestCounts {
            model: "m".into(),
            prompt_tokens: 1,
            output_tokens: 2,
            cache_tokens: 3,
            draft_tokens: 4,
            draft_accepted: 5,
            duration_ms: 9,
        }
    );
}

#[test]
fn running_servers_are_listed() {
    let payload = json(
        "{\"running\":[{\"model\":\"a\",\"state\":\"READY\",\"proxy\":\"http://localhost:1\"},{\"model\":\"b\",\"state\":\"starting\"}]}",
    );
    assert_eq!(running_targets(&payload), vec![("http://127.0.0.1:1".to_string(), "a".to_string())]);
    assert_eq!(running_state(&payload), ModelState::Loading);
    assert_eq!(running_state(&json("{\"running\":[{\"model\":\"a\",\"state\":\"ready\"}]}")), ModelState::Loaded);
    assert_eq!(running_state(&json("{}")), ModelState::Absent);
}

fn slot(model: &str, id: u64, busy: bool) -> Slot {
    Slot {
        model_name: model.into(),
        slot_id: id,
        prompt_done: 2,
        prompt_total: 4,
        decoded: 1,
        is_processing: busy,
    }
}

#[test]
fn slots_are_read_arranged_and_grouped() {
    let read = read_slots(
        &json("[{\"id\":3,\"is_processing\":true,\"n_prompt_tokens\":10,\"n_prompt_tokens_processed\":4,\"next_token\":[{\"n_decoded\":2}]}]"),
        "m",
    )
    .unwrap_or_else(|_| panic!("too large"));
    assert_eq!(read.len(), 1);
    assert_eq!((read[0].slot_id, read[0].decoded), (3, 2));
    assert_eq!((read[0].prompt_done, read[0].prompt_total), (4, 8));
    assert!(read[0].is_processing);
    let slots = vec![slot("b", 0, true), slot("a", 1, true), slot("a", 0, false)];
    assert_eq!(
        activity(&slots),
        Ok(Activity { prompt_done: 4, prompt_total: 8, generated: 2, active_requests: 2 })
    );
    let p = profiles(&[("a", "{\"parallel\":2}"), ("b", "{\"parallel\":1}")], "{}");
    let (shown, count) = arrange_slots(&slots, "a, b", &p).unwrap_or_else(|_| panic!("too large"));
    let order: Vec<(String, u64)> = shown.iter().map(|s| (s.model_name.clone(), s.slot_id)).collect();
    assert_eq!(order, vec![("a".to_string(), 0), ("a".to_string(), 1), ("b".to_string(), 0)]);
    assert_eq!(count, 3);
    assert_eq!(
        group_slots(&shown, "a, b"),
        vec![("a".to_string(), vec![0, 1]), ("b".to_string(), vec![2])]
    );
}

#[test]
fn speed_is_taken_over_the_last_seconds() {
    let list = sample(vec![(0, 0, 0), (2 * SECOND, 5, 1)], true, 6 * SECOND, 9, 4);
    assert_eq!(list, vec![(2 * SECOND, 5, 1), (6 * SECOND, 9, 4)]);
    assert_eq!(progress(&list), Some((4 * SECOND, Some(4), Some(3))));
    assert_eq!(sample(list, false, 7 * SECOND, 9, 4), vec![]);
    assert_eq!(progress(&vec![]), None);
    assert!(keeps_samples(false, Some(0), 30 * SECOND));
    assert!(!keeps_samples(false, Some(0), 31 * SECOND));
    assert!(keeps_samples(true, None, 0));
    assert_eq!(generated_since(Some((3, SECOND)), 5, 2 * SECOND), Some((2, SECOND)));
    assert_eq!(generated_since(Some((3, 0)), 5, 6 * SECOND), None);
    assert_eq!(next_look(None, 5, 1, 7), Some((5, 7)));
    assert_eq!(next_look(Some((1, 2)), 5, 0, 7), None);
}

fn run(profile: &str, timestamp: u64) -> BenchmarkRun {
    BenchmarkRun {
        timestamp_unix: timestamp,
        profile: profile.into(),
        profile_hash: String::new(),
        model: String::new(),
        model_path: String::new(),
        model_bytes: 0,
        runtime: String::new(),
        runtime_version: String::new(),
        backend: String::new(),
        effective_context: 4096,
        output_tokens: MAX_GENERATION_TOKENS,
        load_ms: 0,
        effective_args: vec![],
        cases: vec![],
    }
}

#[test]
fn retains_only_two_runs_per_profile() {
    let mut store = ProfileBenchmarks::default();
    for timestamp in 1..=3 {
        store.add("p", run("p", timestamp));
    }
    let runs = store.profiles.get("p").unwrap();
    assert_eq!(runs.len(), 2);
    assert_eq!(runs[0].timestamp_unix, 2);
    assert_eq!(runs[1].timestamp_unix, 3);
}

#[test]
fn runs_move_with_their_profile() {
    let mut store = ProfileBenchmarks::default();
    store.add("p", run("p", 1));
    store.rename("p", "q");
    assert!(store.profiles.get("p").is_none());
    assert_eq!(store.profiles.get("q").unwrap()[0].profile, "q");
    store.remove("q");
    assert!(store.profiles.is_empty());
}

#[test]
fn repeated_prompt_has_exact_length() {
    assert_eq!(repeated_prompt(&[1, 2, 3], 8), vec![1, 2, 3, 1, 2, 3, 1, 2]);
}

#[test]
fn prompts_of_a_benchmark() {
    assert_eq!(prefill_prompt(&[1, 2, 3, 4, 5], 1, 6), vec![3, 4, 5, 1, 2, 3]);
    assert_eq!(bounded_target(10, 4096), 32);
    assert_eq!(bounded_target(10_000, 4096), 4064);
    assert_eq!(bounded_target(100, 4096), 100);
    assert_eq!(flag_context(&words(&["-c", "9"])), Some(9));
    assert_eq!(effective_context(&words(&["-c", "9"]), 4096, None), 512);
    assert_eq!(effective_context(&[], 4096, Some(2048)), 2048);
    assert!(is_enough(733) && !is_enough(732));
    assert_eq!(prompts(Work::Coding, 2, &vec![]).len(), 2);
    let story = prompts(Work::ProseZh, 1, &words(&["Once."]));
    assert!(story[0].ends_with("\n\nOnce."));
}

#[test]
fn cases_are_planned_in_order() {
    let plan = plan_cases(1, 9);
    assert_eq!(plan.len(), 6);
    assert_eq!(plan[0], CasePlan { work: Work::PrefillShort, slots: false });
    assert_eq!(plan_cases(4, 9).len(), 9);
    assert_eq!(plan_cases(4, 1).len(), 1);
    assert_eq!(case_name(&CasePlan { work: Work::Coding, slots: true }), "coding-slots");
    assert_ne!(case_kind(Work::PrefillLong), case_kind(Work::Coding));
    assert_eq!((case_tokens(Work::Coding), case_tokens(Work::ProseEn)), (512, 700));
    assert_eq!(next_step(0, 2, false), Step::Run(0));
    assert_eq!(next_step(2, 2, false), Step::Finished);
    assert_eq!(next_step(1, 2, true), Step::Cancelled);
    assert!(keeps_results(false, true, 1) && !keeps_results(false, true, 0));
}

#[test]
fn answers_of_the_runtime() {
    assert_eq!(line_data("data: {\"a\":1}").as_deref(), Some("{\"a\":1}"));
    assert_eq!(line_data("data: [DONE]"), None);
    assert_eq!(line_data("event: x"), None);
    let event = stream_event(json("{\"content\":\"hi\",\"tokens\":[1,2]}"));
    assert_eq!((event.content.as_str(), event.tokens, event.last.is_none()), ("hi", 2, true));
    let last = stream_event(json("{\"content\":\"\",\"stop\":true,\"timings\":{\"prompt_n\":5,\"predicted_n\":6},\"tokens_cached\":7}"));
    let answer = last.last.unwrap();
    assert_eq!(timing(&answer, "prompt_n"), Some(5));
    assert_eq!(generation_counts(&answer, 9), (5, 6, 7));
    assert_eq!(generation_counts(&json("{\"tokens_evaluated\":3}"), 9), (3, 9, 0));
    assert_eq!(runtime_props(&json("{\"default_generation_settings\":{\"n_ctx\":8},\"total_slots\":2}")), Some((8, 2)));
    assert_eq!(tokens(&json("{\"tokens\":[1,-2,\"x\"]}")), vec![1, -2]);
    assert_eq!(process_rss_bytes("Name: x\nVmRSS:\t 12 kB\n"), Ok(12 * 1024));
    assert_eq!(nvidia_process_vram("7, 100\n8, 5\n7, 1\n", 7), Ok(101 << 20));
    assert_eq!(resolved_runtime("managed", Some("b1")), "managed:b1");
    assert_eq!(resolved_runtime("lmstudio:x", Some("b1")), "lmstudio:x");
    assert_eq!(runtime_version("version: 1\nmore"), "version: 1");
    assert_eq!(runtime_version(""), "unknown");
}
