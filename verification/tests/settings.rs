//! Settings: the configuration, profiles, templates and the commands that change them.
use llamactl::commands::{
    add_template, bind_profile, can_add_template, can_create, change_keys, change_scheduler,
    choose_artifact, create_profile, delete_template, edit_template, fit_context, flag_u64,
    grafted_name, is_loaded, list_flags, max_cases, other_texts, parse_setting, pin, preview,
    remove_model_profiles, rename_template, retarget_profile, server_unit, set_profile_value,
    tail_lines, update_unit, CommandError, KeyAction, TemplateError,
};
use llamactl::config::{backend_names, join_path, Config, ConfigError, Paths};
use llamactl::huggingface::Artifact;
use llamactl::json::{parse, JsonValue, Number};
use llamactl::profiles::{display, glob_matches, valid_name as valid_profile_name, ProfileError, Profiles};
use llamactl::table::Table;
use llamactl::templates::{template_file, template_name, valid_name, Templates};

fn words(list: &[&str]) -> Vec<String> {
    list.iter().map(|s| s.to_string()).collect()
}

fn table(text: &str) -> Table<JsonValue> {
    match parse(text) {
        Some(JsonValue::Object(t)) => t,
        _ => panic!("no object: {text}"),
    }
}

fn profiles(list: &[(&str, &str)], models: &str) -> Profiles {
    let mut p = Profiles::default();
    for (name, text) in list {
        p.profiles.insert(name.to_string(), table(text));
    }
    p.models = table(models);
    p
}

fn names(p: &Profiles) -> Vec<String> {
    (0..p.profiles.len()).map(|i| p.profiles.key_at(i).to_string()).collect()
}

fn text_at(p: &Profiles, model: &str) -> Option<String> {
    p.models.get(model).map(|v| v.to_text())
}

#[test]
fn advertisement_defaults_to_assigned_base_models() {
    let cfg = Config::default();
    assert!(cfg.advertise_base_models);
    assert!(!cfg.advertise_profiles);
}

#[test]
fn the_configuration_starts_with_defaults() {
    let cfg = Config::default();
    assert_eq!(cfg.backend, "vulkan");
    assert_eq!(cfg.runtime, "managed");
    assert_eq!(cfg.update_backends, words(&["vulkan", "cuda"]));
    assert_eq!((cfg.port, cfg.telemetry_port), (1234, 1235));
    assert_eq!(cfg.gpu_layers.as_str(), Some("all"));
    assert_eq!((cfg.ctx_size, cfg.keep_versions, cfg.swap_ttl), (4096, 2, 600));
    assert_eq!(cfg.scheduler_max_models, 4);
    assert_eq!(cfg.validate(true), Ok(()));
}

#[test]
fn keys_are_trimmed_and_distinct() {
    let mut cfg = Config::default();
    cfg.api_key = " one,two ,, one".into();
    cfg.api_keys = words(&["two", "three"]);
    assert_eq!(cfg.keys(), words(&["one", "two", "three"]));
}

#[test]
fn settings_are_parsed_by_their_kind() {
    let mut cfg = Config::default();
    assert_eq!(cfg.set("host", "0.0.0.0", true), Ok(()));
    assert_eq!(cfg.host, "0.0.0.0");
    assert_eq!(cfg.set("auto_update", "false", true), Ok(()));
    assert!(!cfg.auto_update);
    assert_eq!(cfg.set("port", "8080", true), Ok(()));
    assert_eq!(cfg.port, 8080);
    assert_eq!(cfg.set("api_keys", "[\"a\",\"b\"]", true), Ok(()));
    assert_eq!(cfg.api_keys, words(&["a", "b"]));
    assert_eq!(cfg.set("gpu_layers", "auto", true), Ok(()));
    assert_eq!(cfg.gpu_layers.as_str(), Some("auto"));
}

#[test]
fn settings_are_refused_for_a_reason() {
    let mut cfg = Config::default();
    assert_eq!(cfg.set("nothing", "1", true), Err(ConfigError::UnknownKey));
    assert_eq!(cfg.set("auto_update", "yes", true), Err(ConfigError::ExpectedBool));
    assert_eq!(cfg.set("ctx_size", "many", true), Err(ConfigError::ExpectedNumber));
    assert_eq!(cfg.set("api_keys", "a", true), Err(ConfigError::ExpectedArray));
    assert_eq!(cfg.set("api_keys", "[1]", true), Err(ConfigError::Shape));
    assert_eq!(cfg.set("port", "70000", true), Err(ConfigError::Shape));
    assert_eq!(cfg.set("backend", "abacus", true), Err(ConfigError::Backend));
    assert_eq!(cfg.set("scheduler_max_models", "0", true), Err(ConfigError::MaxModels));
    assert_eq!(cfg.set("port", "0", true), Err(ConfigError::Ports));
    assert_eq!(cfg.set("telemetry_port", "1234", true), Err(ConfigError::SamePort));
    assert_eq!(cfg.set("keep_versions", "0", true), Err(ConfigError::KeepVersions));
    assert_eq!(cfg.set("host", "x", false), Err(ConfigError::VramFraction));
    assert_eq!(cfg.host, "127.0.0.1");
    cfg.gpu_layers = JsonValue::Null;
    assert_eq!(cfg.set("gpu_layers", "{", true), Err(ConfigError::InvalidJson));
    assert!(cfg.holds_float("scheduler_vram_fraction") && cfg.holds_float("context_step_scale"));
    assert!(!cfg.holds_float("gpu_layers") && !cfg.holds_float("ctx_size"));
    cfg.gpu_layers = parse("-1").unwrap();
    assert!(cfg.holds_float("gpu_layers"));
    cfg.gpu_layers = parse("1.5").unwrap();
    assert!(cfg.holds_float("gpu_layers"));
    assert!(backend_names().contains(&"vulkan".to_string()));
}

#[test]
fn paths_are_found_below_the_home_directory() {
    let p = Paths::discover("/home/u", None, None, None);
    assert_eq!(p.config, "/home/u/.config/llamactl/config.json");
    let q = Paths::discover("/home/u", Some("/c".into()), Some("/d".into()), Some("/s".into()));
    assert!(q.config.starts_with("/c/"));
    assert!(q.data_dir.starts_with("/d/"));
    assert!(q.log.starts_with("/s/"));
    assert_eq!(join_path("/a", "b"), "/a/b");
}

#[test]
fn a_table_keeps_its_order() {
    let mut t: Table<u64> = Table::new();
    assert!(t.is_empty());
    t.insert("b".into(), 2);
    t.insert("a".into(), 1);
    t.insert("c".into(), 3);
    t.insert("b".into(), 20);
    assert_eq!(t.len(), 3);
    let keys: Vec<&str> = (0..3).map(|i| t.key_at(i)).collect();
    assert_eq!(keys, vec!["a", "b", "c"]);
    assert_eq!(t.get("b"), Some(&20));
    assert_eq!(t.remove("b"), Some(20));
    assert_eq!(t.remove("b"), None);
    assert_eq!(t.get("b"), None);
    assert!(t.contains_key("c"));
    t.set_at(0, 7);
    t.remove_at(1);
    assert_eq!((t.len(), *t.value_at(0)), (1, 7));
}

#[test]
fn json_is_read_and_written() {
    let value = parse(" {\"b\": [1, -2, 1.5, true, null], \"a\": \"x\\n\"} ").unwrap();
    assert_eq!(value.to_text(), "{\"a\":\"x\\n\",\"b\":[1,-2,1.5,true,null]}");
    assert_eq!(value.get("a").and_then(JsonValue::as_str), Some("x\n"));
    let list = value.get("b").and_then(JsonValue::as_array).unwrap();
    assert_eq!(list[0].as_u64(), Some(1));
    assert_eq!(list[1].as_u64(), None);
    assert_eq!(list[3].as_bool(), Some(true));
    assert!(matches!(&list[2], JsonValue::Number(Number::Float(s)) if s == "1.5"));
    assert!(parse("{").is_none());
    assert_eq!(value.copy().to_text(), value.to_text());
    assert_eq!(display(&parse("\"x\"").unwrap()), "x");
    assert_eq!(display(&parse("[\"x\"]").unwrap()), "[\"x\"]");
}

#[test]
fn profile_names_are_checked() {
    assert!(valid_profile_name("a.b_c-1").is_ok());
    for bad in ["", "-a", "a b", "é"] {
        assert!(valid_profile_name(bad).is_err(), "accepted {bad:?}");
    }
}

#[test]
fn renaming_moves_a_profile_and_its_bindings() {
    let mut p = profiles(
        &[("old", "{\"ctx-size\":1}"), ("other", "{}")],
        "{\"m\":\"old\",\"n\":{\"profile\":\"old\",\"x\":1},\"o\":\"other\"}",
    );
    p.expose = words(&["old", "keep"]);
    assert!(p.rename("old", "new").is_ok());
    assert_eq!(names(&p), words(&["new", "other"]));
    assert_eq!(p.profiles.get("new").unwrap().get("ctx-size").unwrap().as_u64(), Some(1));
    assert_eq!(text_at(&p, "m").as_deref(), Some("\"new\""));
    assert_eq!(text_at(&p, "n").as_deref(), Some("{\"profile\":\"new\",\"x\":1}"));
    assert_eq!(text_at(&p, "o").as_deref(), Some("\"other\""));
    assert_eq!(p.expose, words(&["new", "keep"]));
    assert!(matches!(p.rename("new", "a b"), Err(ProfileError::Name)));
    assert!(matches!(p.rename("new", "other"), Err(ProfileError::Exists)));
    assert!(matches!(p.rename("gone", "there"), Err(ProfileError::Unknown)));
}

#[test]
fn cloning_copies_and_removing_forgets() {
    let mut p = profiles(
        &[("a", "{\"_model\":\"m\"}")],
        "{\"m\":\"a\",\"n\":{\"profile\":\"a\"},\"o\":\"b\"}",
    );
    assert!(p.clone_profile("a", "b").is_ok());
    assert_eq!(p.owner("b"), Some("m"));
    assert!(p.remove("a").is_ok());
    assert_eq!(names(&p), words(&["b"]));
    assert_eq!(p.models.len(), 1);
    assert_eq!(text_at(&p, "o").as_deref(), Some("\"b\""));
    assert!(matches!(p.remove("a"), Err(ProfileError::Unknown)));
    assert!(matches!(p.clone_profile("a", "c"), Err(ProfileError::Unknown)));
    assert!(matches!(p.clone_profile("b", "b"), Err(ProfileError::Exists)));
}

#[test]
fn arguments_of_a_profile() {
    let p = profiles(
        &[(
            "a",
            "{\"_model\":\"m\",\"--ctx-size\":8,\"b-on\":true,\"c-off\":false,\"jinja\":true,\"l\":[1,\"x\"],\"_extra_args\":[\"--foo=1\",\"bar\"]}",
        )],
        "{}",
    );
    assert_eq!(
        p.args("a").ok().unwrap(),
        words(&["--jinja", "--ctx-size", "8", "--b-on", "--l", "1", "--l", "x", "--foo=1", "bar"])
    );
    let known = words(&["ctx-size", "foo"]);
    assert_eq!(
        p.args_checked("a", Some(&known)).ok().unwrap(),
        words(&["--jinja", "--ctx-size", "8", "--foo=1", "bar"])
    );
    assert!(matches!(
        p.args_checked("a", Some(&words(&["ctx-size"]))),
        Err(ProfileError::UnknownFlag(flag)) if flag == "foo"
    ));
    assert!(matches!(p.args("zz"), Err(ProfileError::Unknown)));
    let q = profiles(&[("a", "{\"port\":1}")], "{}");
    assert!(matches!(q.args("a"), Err(ProfileError::Managed(flag)) if flag == "port"));
    let mut r = profiles(&[("a", "{\"threads\":1}")], "{}");
    r.expose = words(&["ctx*"]);
    assert!(matches!(r.args("a"), Err(ProfileError::NotExposed(flag)) if flag == "threads"));
    assert!(r.is_exposed("ctx-size") && !r.is_exposed("threads"));
}

#[test]
fn patterns_match_names() {
    assert!(glob_matches("*", "anything"));
    assert!(glob_matches("plain", "plain"));
    assert!(!glob_matches("plain", "plainer"));
    assert!(glob_matches("qwen*", "qwen3"));
    assert!(glob_matches("*3", "qwen3"));
    assert!(glob_matches("a*c", "abc"));
    assert!(!glob_matches("a*c", "abcd"));
    assert!(!glob_matches("b*", "abc"));
    assert!(glob_matches("a*b*", "abb"));
    assert!(!glob_matches("a*b", "abb"));
    assert!(glob_matches("*m*q8*", "some-model-q8_0.gguf"));
    assert!(!glob_matches("*q8*m*", "model-q8_0.gguf"));
}

#[test]
fn bindings_are_found_by_pattern() {
    let p = profiles(
        &[("a", "{\"_model\":\"m1\"}"), ("b", "{}")],
        "{\"m*\":{\"profile\":\"a\",\"x\":2},\"n\":\"b\",\"o\":{\"y\":1},\"p\":3}",
    );
    let (name, overrides) = p.binding("m1", "x/m1.gguf").ok().unwrap().unwrap();
    assert_eq!(name, "a");
    assert_eq!(overrides.len(), 1);
    assert_eq!(overrides.get("x").unwrap().as_u64(), Some(2));
    assert!(p.binding("zz", "zz").ok().unwrap().is_none());
    assert!(matches!(p.binding("m2", "m2"), Err(ProfileError::OwnedBy(name, owner)) if name == "a" && owner == "m1"));
    assert!(matches!(p.binding("n", "n"), Err(ProfileError::NoOwner(name)) if name == "b"));
    assert!(matches!(p.binding("o", "o"), Err(ProfileError::BindingLacksProfile)));
    assert!(matches!(p.binding("p", "p"), Err(ProfileError::BindingKind(pattern)) if pattern == "p"));
}

#[test]
fn environments_are_read_in_three_shapes() {
    let env = |text: &str| profiles(&[("a", text)], "{}").environment("a");
    let pair = |k: &str, v: &str| (k.to_string(), v.to_string());
    assert_eq!(env("{}").ok().unwrap(), vec![]);
    assert_eq!(env("{\"_env\":{\"B\":1,\"A\":\"x\"}}").ok().unwrap(), vec![pair("A", "x"), pair("B", "1")]);
    assert_eq!(env("{\"_env\":\" {\\\"A\\\":true}\"}").ok().unwrap(), vec![pair("A", "true")]);
    assert_eq!(env("{\"_env\":\"B=2\\n\\n A = 1\"}").ok().unwrap(), vec![pair("A", " 1"), pair("B", "2")]);
    assert!(matches!(env("{\"_env\":\"{\"}"), Err(ProfileError::EnvironmentJson)));
    assert!(matches!(env("{\"_env\":\"A\"}"), Err(ProfileError::EnvironmentEntry(line)) if line == "A"));
    assert!(matches!(env("{\"_env\":1}"), Err(ProfileError::EnvironmentKind)));
    assert!(matches!(env("{\"_env\":{\"1A\":\"x\"}}"), Err(ProfileError::EnvironmentName(key)) if key == "1A"));
    assert!(matches!(env("{\"_env\":{\"A\":\"\\u0000\"}}"), Err(ProfileError::EnvironmentNul(key)) if key == "A"));
}

#[test]
fn runtimes_of_profiles() {
    let p = profiles(&[("a", "{\"_runtime\":\"cuda\"}"), ("b", "{\"_runtime\":\"\"}")], "{}");
    assert_eq!(p.runtime("a"), Some("cuda"));
    assert_eq!(p.runtime("b"), None);
    assert_eq!(p.runtime("c"), None);
}

#[test]
fn validates_template_names() {
    assert!(valid_name("chatml").is_ok());
    assert!(valid_name("Llama 3 Instruct").is_ok());
    assert!(valid_name("mistral-v0.2").is_ok());
    assert!(valid_name("").is_err());
    assert!(valid_name("  leading").is_err());
    assert!(valid_name("bad/name").is_err());
}

#[test]
fn templates_live_in_files_of_their_name() {
    assert_eq!(template_file("chatml"), "chatml.jinja");
    assert_eq!(template_name("chatml.jinja").as_deref(), Some("chatml"));
    assert_eq!(template_name("chatml.txt"), None);
    let mut library = Templates::default();
    assert!(add_template(&mut library, "chatml", "one").is_ok());
    assert!(!library.stale("chatml.jinja"));
    assert!(library.stale("gone.jinja"));
    let moved = library.migrate(&parse("{\"templates\":{\"chatml\":\"two\",\"new\":\"three\"}}").unwrap());
    assert_eq!(moved, vec![("new".to_string(), "three".to_string())]);
    assert_eq!(library.templates.get("chatml").map(String::as_str), Some("one"));
    assert_eq!(library.templates.get("new").map(String::as_str), Some("three"));
}

#[test]
fn templates_are_added_edited_renamed_and_deleted() {
    let mut library = Templates::default();
    assert_eq!(can_add_template(&library, "a"), Ok(()));
    assert_eq!(add_template(&mut library, "a", "x"), Ok(()));
    assert_eq!(add_template(&mut library, "a", "y"), Err(TemplateError::Exists));
    assert_eq!(add_template(&mut library, "/", "y"), Err(TemplateError::Name));
    assert!(edit_template(&mut library, "a", "z"));
    assert!(!edit_template(&mut library, "b", "z"));
    assert_eq!(rename_template(&mut library, "a", "b"), Ok(()));
    assert_eq!(rename_template(&mut library, "a", "c"), Err(TemplateError::Unknown));
    assert_eq!(library.templates.get("b").map(String::as_str), Some("z"));
    assert!(delete_template(&mut library, "b"));
    assert!(!delete_template(&mut library, "b"));
    assert!(library.templates.is_empty());
}

#[test]
fn profiles_are_made_bound_and_moved() {
    let mut p = Profiles::default();
    assert!(can_create(&p, "mine").is_ok());
    assert!(create_profile(&mut p, "mine", "m", Some(131_072), 4096).is_ok());
    assert!(matches!(create_profile(&mut p, "mine", "m", None, 1), Err(ProfileError::Exists)));
    assert!(matches!(create_profile(&mut p, "?", "m", None, 1), Err(ProfileError::Name)));
    let made = p.profiles.get("mine").unwrap();
    assert_eq!(made.get("ctx-size").unwrap().as_u64(), Some(32_768));
    assert_eq!(made.get("_extra_args").unwrap().to_text(), "[\"--kv-unified\"]");
    assert_eq!(bind_profile(&mut p, "mine").as_deref(), Some("m"));
    assert_eq!(text_at(&p, "m").as_deref(), Some("\"mine\""));
    assert_eq!(bind_profile(&mut p, "none"), None);
    assert!(set_profile_value(&mut p, "mine", "spec-type", parse_setting("\"draft-mtp\"")));
    assert!(set_profile_value(&mut p, "mine", "spec-draft-n-max", parse_setting("3")));
    assert!(!set_profile_value(&mut p, "none", "x", parse_setting("1")));
    let moved = retarget_profile(&mut p, "mine", "n", false).unwrap();
    assert_eq!(moved.owner.as_deref(), Some("m"));
    assert!(moved.removed_mtp);
    assert_eq!(p.owner("mine"), Some("n"));
    assert!(p.profiles.get("mine").unwrap().get("spec-type").is_none());
    assert_eq!(text_at(&p, "m"), None);
    assert_eq!(text_at(&p, "n").as_deref(), Some("\"mine\""));
    assert_eq!(remove_model_profiles(&mut p, "n"), words(&["mine"]));
    assert!(p.profiles.is_empty() && p.models.is_empty());
}

#[test]
fn settings_of_profiles_are_json_or_text() {
    assert_eq!(parse_setting("3").as_u64(), Some(3));
    assert_eq!(parse_setting("true").as_bool(), Some(true));
    assert_eq!(parse_setting("plain").as_str(), Some("plain"));
}

#[test]
fn keys_and_pins_are_changed() {
    let mut cfg = Config::default();
    change_keys(&mut cfg, KeyAction::Add("one".into()));
    change_keys(&mut cfg, KeyAction::Generated("two".into()));
    change_keys(&mut cfg, KeyAction::Add("one".into()));
    assert_eq!(cfg.keys(), words(&["one", "two"]));
    change_keys(&mut cfg, KeyAction::Remove("one".into()));
    assert_eq!(cfg.keys(), words(&["two"]));
    assert!(change_scheduler(&mut cfg, "disable", None).is_ok());
    assert!(!cfg.scheduler_enabled);
    assert!(change_scheduler(&mut cfg, "pin", Some("m".into())).is_ok());
    assert!(!pin(&mut cfg, "m"));
    assert_eq!(cfg.scheduler_pinned_models, words(&["m"]));
    assert!(change_scheduler(&mut cfg, "unpin", Some("m".into())).is_ok());
    assert!(cfg.scheduler_pinned_models.is_empty());
    assert_eq!(change_scheduler(&mut cfg, "pin", None), Err(CommandError::Missing));
    assert_eq!(change_scheduler(&mut cfg, "dance", None), Err(CommandError::Unknown));
    assert_eq!(other_texts(&words(&["a", "b", "a"]), "a"), words(&["b"]));
}

#[test]
fn small_questions_of_the_command_line() {
    assert_eq!(max_cases(&None), Some(9));
    assert_eq!(max_cases(&Some("small".into())), Some(1));
    assert_eq!(max_cases(&Some("medium".into())), Some(5));
    assert_eq!(max_cases(&Some("huge".into())), None);
    assert_eq!(flag_u64(&words(&["--ctx-size", "7"]), "ctx-size"), Some(7));
    assert_eq!(fit_context(&words(&["--ctx-size", "9000"]), 4096, Some(8192)), 8192);
    assert_eq!(fit_context(&[], 4096, None), 4096);
    assert_eq!(tail_lines("a\nb\nc\n", 2), "b\nc");
    assert_eq!(preview("a  b\n c", 3), "a b");
    assert_eq!(grafted_name("model.gguf"), "model-MTP.gguf");
    assert!(server_unit("/bin/x").contains("/bin/x"));
    assert!(update_unit("/bin/x").contains("/bin/x"));
    let running = parse("{\"running\":[{\"model\":\"alpha\"}]}").unwrap();
    assert!(is_loaded(&running, "alpha"));
    assert!(!is_loaded(&running, "beta"));
}

#[test]
fn flags_are_listed_from_the_help() {
    let help = "usage\n  -c,    --ctx-size N   size of the context\n  --threads N  number of threads\n";
    let mut p = Profiles::default();
    p.expose = words(&["ctx*"]);
    let all = list_flags(help, None, &p);
    assert_eq!(all.len(), 2);
    assert!(all[0].contains("ctx-size"));
    assert_eq!(list_flags(help, Some("thread"), &p).len(), 1);
    assert_eq!(list_flags(help, Some("nothing"), &p).len(), 0);
}

fn artifact(label: &str, recommended: bool) -> Artifact {
    Artifact {
        label: label.into(),
        description: String::new(),
        quality: 0,
        recommended,
        files: vec![],
        size: 0,
        shard_count: 1,
        has_mmproj: false,
        complete: true,
    }
}

#[test]
fn artifacts_are_chosen_by_label_or_recommendation() {
    let list = vec![artifact("Q8_0", false), artifact("Q4_K_M", true)];
    assert_eq!(choose_artifact(&list, None), Some(1));
    assert_eq!(choose_artifact(&list, Some("q8_0")), Some(0));
    assert_eq!(choose_artifact(&list, Some("Q2_K")), None);
    assert_eq!(choose_artifact(&vec![artifact("Q8_0", false)], None), Some(0));
    assert_eq!(choose_artifact(&vec![], None), None);
}
