//! What is read from elsewhere: answers of services, descriptions and the files of models.
use llamactl::config::Config;
use llamactl::gguf::decoded_text;
use llamactl::huggingface::{
    card_of, file_fits, needs_digest, next_page, search_results, tidy, verify_file, ApiRepository,
    DigestState, FileFault,
};
use llamactl::json::{parse, JsonValue};
use llamactl::models::{
    draft_compatibility, is_part, same_path, scan, DraftCompatibility, Found, ModelKind,
};
use llamactl::profiles::Profiles;
use llamactl::swap::{write_swap_config, EntryFacts, SwapEntry, SwapError, WriteError};
use llamactl::table::Table;
use llamactl::telemetry::{first_token, rated_model, shown_state, ModelState};
use llamactl::update::build_facts;

fn words(list: &[&str]) -> Vec<String> {
    list.iter().map(|s| s.to_string()).collect()
}

const DIGEST: &str = "ba7816bf8f01cfea414140de5dae2223b00361a396177a9cb410ff61f20015ad";

fn fed(pieces: &[&str]) -> DigestState {
    let mut state = DigestState::start();
    for piece in pieces {
        state.feed(piece.as_bytes());
    }
    state
}

#[test]
fn files_are_accepted_by_size_and_digest() {
    assert_eq!(verify_file(fed(&["abc"]), 3, 3, Some(DIGEST)), Ok(()));
    assert_eq!(verify_file(fed(&["a", "", "bc"]), 3, 3, Some(DIGEST)), Ok(()));
    assert_eq!(verify_file(fed(&["abc"]), 3, 3, Some(&DIGEST.to_uppercase())), Ok(()));
    assert_eq!(verify_file(fed(&["abc"]), 3, 4, Some(DIGEST)), Err(FileFault::Size));
    assert_eq!(
        verify_file(fed(&["abc"]), 3, 3, Some("00")),
        Err(FileFault::Digest(DIGEST.into()))
    );
    assert_eq!(verify_file(fed(&[]), 3, 3, None), Ok(()));
    assert!(file_fits(fed(&["ab", "c"]), 3, 3, Some(DIGEST)));
    assert!(!file_fits(fed(&["abd"]), 3, 3, Some(DIGEST)));
    assert!(needs_digest(3, 3, true));
    assert!(!needs_digest(3, 4, true) && !needs_digest(3, 3, false));
}

#[test]
fn cards_are_read_from_bytes() {
    let card = b"---\nlicense: mit\n---\n# Title  \n\n\n\ntext \xff end\n";
    let read = card_of(card);
    assert!(read.starts_with("# Title\n"));
    assert!(read.contains("text \u{fffd} end"));
    assert!(!read.contains("license"));
    assert_eq!(decoded_text(b"a\xffb"), "a\u{fffd}b");
    let tidied = tidy("a \t\n\n\n\nb  ");
    assert!(tidied.lines().all(|line| line == line.trim_end()));
}

#[test]
fn the_next_page_has_to_be_an_address() {
    assert_eq!(
        next_page("<https://h.co/api?cursor=x>; rel=\"next\"").as_deref(),
        Some("https://h.co/api?cursor=x")
    );
    assert_eq!(next_page("<not an address>; rel=\"next\""), None);
    assert_eq!(next_page("<https://h.co/api>; rel=\"prev\""), None);
}

fn api(id: &str, private: bool) -> ApiRepository {
    ApiRepository {
        id: id.into(),
        downloads: 3,
        likes: 2,
        private,
        gated: JsonValue::Bool(false),
        tags: words(&["license:mit"]),
        last_modified: "2026-01-02T03:04:05".into(),
        author: String::new(),
        pipeline_tag: String::new(),
        library_name: String::new(),
        card_data: JsonValue::Null,
    }
}

#[test]
fn searches_keep_the_order_of_public_repositories() {
    let mut gated = api("o/gated", false);
    gated.gated = parse("\"auto\"").unwrap();
    let list = vec![api("o/b", false), api("o/hidden", true), gated, api("o/a", false)];
    let ids: Vec<String> = search_results(&list).into_iter().map(|r| r.id).collect();
    assert_eq!(ids, words(&["o/b", "o/a"]));
}

#[test]
fn builds_are_described_by_a_file() {
    assert_eq!(
        build_facts("{\"backend\":\"cuda\",\"pinned\":true}"),
        ("cuda".to_string(), true)
    );
    assert_eq!(build_facts("{\"backend\":1,\"pinned\":1}"), ("unknown".to_string(), false));
    assert_eq!(build_facts(""), ("unknown".to_string(), false));
    assert_eq!(build_facts("{\"pinned\":false"), ("unknown".to_string(), false));
}

fn found(path: &str, bytes: u64, draft: bool) -> Found {
    Found {
        path: path.into(),
        relative: path.trim_start_matches("/m/").into(),
        bytes,
        vision: false,
        draft,
    }
}

#[test]
fn only_models_are_in_the_library() {
    let big = 60_000_000;
    let models = scan(&vec![
        found("/m/b.gguf", big, false),
        found("/m/mmproj-b.gguf", big, false),
        found("/m/c-00001-of-00002.gguf", big, false),
        found("/m/c-00002-of-00002.gguf", big, false),
        found("/m/d.bin", big, false),
        found("/m/tiny.gguf", 10, false),
        found("/m/a.gguf", big, true),
    ]);
    let paths: Vec<&str> = models.iter().map(|m| m.path.as_str()).collect();
    assert_eq!(models.len(), 3);
    assert!(paths.contains(&"/m/b.gguf"));
    assert!(paths.contains(&"/m/c-00001-of-00002.gguf"));
    assert!(models.iter().any(|m| m.path == "/m/a.gguf" && m.kind == ModelKind::Draft));
    assert!(is_part("c-00001-of-00001.gguf") && is_part("c-00002-of-00002.gguf"));
    assert!(!is_part("c.gguf") && !is_part("c-1-of-2.gguf"));
}

#[test]
fn a_model_is_no_draft_for_itself() {
    assert!(same_path("/m//a.gguf", "/m/./a.gguf"));
    assert!(same_path("m/a.gguf/", "m/a.gguf"));
    assert!(!same_path("/m/a.gguf", "m/a.gguf"));
    assert!(!same_path("/m/x/../a.gguf", "/m/a.gguf"));
    assert!(!same_path("./a", "a"));
    assert_eq!(
        draft_compatibility("/m//a.gguf", "/m/a.gguf", None, None),
        DraftCompatibility::Incompatible("draft is the main model".into())
    );
    assert_eq!(
        draft_compatibility("/m/b.gguf", "/m/a.gguf", None, None),
        DraftCompatibility::Unknown("main GGUF metadata unavailable".into())
    );
}

#[test]
fn texts_are_quoted_in_json() {
    let text = "a\"b\\c\n\r\t\u{8}\u{c}\u{1}\u{1f}\u{7f}é/";
    assert_eq!(
        JsonValue::String(text.into()).to_text(),
        "\"a\\\"b\\\\c\\n\\r\\t\\b\\f\\u0001\\u001f\u{7f}é/\""
    );
}

#[test]
fn nothing_is_written_without_offers_or_for_unknown_pins() {
    let mut cfg = Config::default();
    let p = Profiles::default();
    let write = |cfg: &Config, entries: Vec<SwapEntry>, read: Vec<EntryFacts>| {
        write_swap_config(cfg, &p, None, "/bin/s", &entries, &read, 0, 0)
    };
    let entry = || SwapEntry {
        id: "a".into(),
        physical: "a".into(),
        path: "/m/a.gguf".into(),
        profile: None,
        overrides: Table::new(),
        estimate: 1,
        environment: vec![],
    };
    let facts = || EntryFacts {
        model_args: words(&["-m", "/m/a.gguf"]),
        has_mtp: false,
        draft_exists: false,
        compatibility: DraftCompatibility::Compatible,
        mode: None,
    };
    assert!(matches!(
        write(&cfg, vec![], vec![]),
        Err(WriteError::Offer(SwapError::Empty))
    ));
    assert!(write(&cfg, vec![entry()], vec![facts()]).is_ok());
    cfg.scheduler_enabled = true;
    cfg.scheduler_pinned_models = words(&["other"]);
    assert!(matches!(
        write(&cfg, vec![entry()], vec![facts()]),
        Err(WriteError::Offer(SwapError::UnknownPinned(name))) if name == "other"
    ));
}

#[test]
fn a_model_that_was_launched_is_loading() {
    assert_eq!(
        shown_state(ModelState::Absent, "", true, Some("m")),
        (ModelState::Loading, "m".to_string())
    );
    assert_eq!(
        shown_state(ModelState::Absent, "", false, Some("m")),
        (ModelState::Absent, String::new())
    );
    assert_eq!(
        shown_state(ModelState::Loaded, "n", true, Some("m")),
        (ModelState::Loaded, "n".to_string())
    );
    assert_eq!(
        shown_state(ModelState::Absent, "", true, None),
        (ModelState::Absent, String::new())
    );
}

#[test]
fn requests_tell_their_model_and_their_first_token() {
    let here = parse("{\"model\":\"m\",\"time_to_first_token_ms\":7}").unwrap();
    assert_eq!(first_token(&here).and_then(|v| v.as_u64()), Some(7));
    assert_eq!(rated_model(&here).as_deref(), Some("m"));
    let inside = parse("{\"metadata\":{\"time_to_first_token_ms\":9}}").unwrap();
    assert_eq!(first_token(&inside).and_then(|v| v.as_u64()), Some(9));
    assert_eq!(rated_model(&inside), None);
    assert!(first_token(&parse("{}").unwrap()).is_none());
}
