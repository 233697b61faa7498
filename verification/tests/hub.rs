//! The hub: repositories, their files, model cards, transfers and updates.
use llamactl::browser::{
    artifact_notes, details_request, files_text, waiting, Browser, DetailsRequest, SearchResult,
    TemplateView, ViewRequest,
};
use llamactl::editing::{Key, KeyCode, Line};
use llamactl::huggingface::{
    after_failure, answer, api_url, artifacts, card_string, card_strings, chat_template, chunks,
    decode_html_entities, details, digest_fits, ensure_safe_relative_path, is_mmproj,
    is_not_gated, next_fetch, next_link, next_part_fetch, part_reply, part_suffix,
    preferred_mmproj, quant_description, quant_quality, quantization, raw_url, reply, resolve_url,
    resume_position, sanitize_model_card, search_pairs, search_result, shard_group_key,
    shard_parts, split_repo, start_file, strip_frontmatter, tidy, tree_url, uses_parts,
    valid_repo_id, validate_repo_id, AfterFailure, Answer, ApiRepository, Artifact, ArtifactError,
    Fetch, FileStart, ModelDetails, PartFault, RemoteFile, Reply, RepoError, Repository,
    TemplateHit, TreeNode, UrlError, LfsInfo, MULTIPART_THRESHOLD,
};
use llamactl::json::{parse, JsonValue};
use llamactl::update::{
    cmake_flags, is_installed, llama_asset, prune_versions, swap_asset, version_name, Asset,
    Version,
};

fn words(list: &[&str]) -> Vec<String> {
    list.iter().map(|s| s.to_string()).collect()
}

fn remote(path: &str, size: u64) -> RemoteFile {
    RemoteFile {
        path: path.into(),
        size,
        sha256: Some("hash".into()),
    }
}

#[test]
fn rejects_paths_that_escape_the_model_directory() {
    for path in [
        "",
        "../model.gguf",
        "/tmp/model.gguf",
        "a/../../model.gguf",
        "a\\model.gguf",
    ] {
        assert!(
            ensure_safe_relative_path(path).is_err(),
            "accepted {path:?}"
        );
    }
    assert!(ensure_safe_relative_path("quants/model-Q4_K_M.gguf").is_ok());
}

#[test]
fn groups_split_gguf_shards() {
    let first = "BF16/model-BF16-00001-of-00002.gguf";
    let second = "BF16/model-BF16-00002-of-00002.gguf";
    assert_eq!(shard_group_key(first), "BF16/model-BF16.gguf");
    assert_eq!(shard_group_key(first), shard_group_key(second));
    assert_eq!(shard_parts(second), Some((2, 2)));
}

#[test]
fn selects_f16_projector_before_bf16_and_f32() {
    let files = vec![
        remote("mmproj-F32.gguf", 3),
        remote("mmproj-BF16.gguf", 2),
        remote("mmproj-F16.gguf", 1),
    ];
    assert_eq!(preferred_mmproj(&files).unwrap().path, "mmproj-F16.gguf");
}

#[test]
fn parses_dynamic_quantization_without_shorter_false_match() {
    assert_eq!(
        quantization("model-UD-Q4_K_XL.gguf").as_deref(),
        Some("Q4_K_XL")
    );
    assert_eq!(quantization("model-Q4_K_M.gguf").as_deref(), Some("Q4_K_M"));
    assert_eq!(quant_quality("Q4_K_M"), 4);
}

#[test]
fn strips_model_card_frontmatter() {
    assert_eq!(
        strip_frontmatter("---\nlicense: apache-2.0\n---\n# Model\nDetails"),
        "# Model\nDetails"
    );
    assert_eq!(strip_frontmatter("# Model"), "# Model");
}

#[test]
fn sanitizes_html_model_cards_for_terminal_rendering() {
    let card = r#"
<div align="center"><img src="logo.png"></div>
<h1>Model &amp; Details</h1>
<p>Use <strong>carefully</strong>.<br>See <a href="https://example.com">docs</a>.</p>
<script>window.alert('no')</script>
<ul><li>First</li><li>Second</li></ul>
"#;
    let clean = sanitize_model_card(card);
    assert!(!clean.contains('<'));
    assert!(!clean.contains("logo.png"));
    assert!(!clean.contains("window.alert"));
    assert!(clean.contains("# Model & Details"));
    assert!(clean.contains("Use **carefully**."));
    assert!(clean.contains("See docs."));
    assert!(clean.contains("- First"));
}

#[test]
fn reads_scalar_and_list_card_metadata() {
    let card = parse("{\"license\": \"apache-2.0\", \"base_model\": [\"owner/base\", \"owner/merge\"]}")
        .unwrap();
    assert_eq!(card_string(&card, "license").as_deref(), Some("apache-2.0"));
    assert_eq!(
        card_strings(&card, "base_model"),
        vec!["owner/base", "owner/merge"]
    );
}

#[test]
fn builds_percent_encoded_resolve_url() {
    let url = resolve_url("owner/repo", "folder/model name-Q4_K_M.gguf").unwrap();
    assert_eq!(
        url.as_str(),
        "https://huggingface.co/owner/repo/resolve/main/folder/model%20name-Q4_K_M.gguf?download=true"
    );
}

#[test]
fn addresses_of_the_hub() {
    assert_eq!(api_url("o/r", &vec![]).unwrap(), "https://huggingface.co/api/models/o/r");
    assert_eq!(
        tree_url("o/r").unwrap(),
        "https://huggingface.co/api/models/o/r/tree/main?recursive=true&expand=false&limit=1000"
    );
    assert_eq!(raw_url("o/r", "README.md").unwrap(), "https://huggingface.co/o/r/raw/main/README.md");
    assert_eq!(api_url("nope", &vec![]), Err(UrlError::Repo(RepoError::Invalid)));
    assert_eq!(resolve_url("o/r", "../x"), Err(UrlError::Path));
}

#[test]
fn repositories_have_an_owner_and_a_name() {
    assert_eq!(split_repo("o/r"), Ok(("o".to_string(), "r".to_string())));
    assert_eq!(split_repo("o"), Err(RepoError::Invalid));
    assert_eq!(split_repo("o/r/s"), Err(RepoError::Invalid));
    assert!(valid_repo_id("owner/model-1.5_x"));
    assert!(!valid_repo_id("owner/"));
    assert_eq!(validate_repo_id("../r"), Err(RepoError::Unsafe));
}

#[test]
fn cards_are_cleaned() {
    assert_eq!(decode_html_entities("a &lt; b &amp;&nbsp;c"), "a < b & c");
    assert_eq!(tidy("a\n\n\n\nb  \n"), "a\n\nb");
    assert_eq!(sanitize_model_card("plain"), "plain");
}

#[test]
fn answers_and_links() {
    assert_eq!(answer(200), Answer::Success);
    assert_eq!(answer(401), Answer::AuthenticationRequired);
    assert_eq!(answer(403), Answer::AccessDenied);
    assert_eq!(answer(404), Answer::NotFound);
    assert_eq!(answer(429), Answer::RateLimited);
    assert_eq!(answer(500), Answer::Failure);
    assert_eq!(next_link("<https://x/1>; rel=\"next\"").as_deref(), Some("https://x/1"));
    assert_eq!(next_link("<https://x/1>; rel=\"prev\""), None);
    assert!(is_not_gated(&parse("false").unwrap()) && !is_not_gated(&parse("\"auto\"").unwrap()));
    assert!(is_mmproj("x/mmproj-F16.gguf") && !is_mmproj("x/model.gguf"));
}

#[test]
fn qualities_and_descriptions() {
    assert_eq!((quant_quality("Q2_K"), quant_quality("Q3_K_M"), quant_quality("Q8_0")), (1, 2, 5));
    assert_eq!(quant_quality("Q4_0"), 3);
    assert_eq!(quant_description("Q4_K_M"), "recommended balance");
    assert_eq!(quant_description("IQ3_M"), "compact");
    assert_eq!(quant_description("other"), "GGUF model");
}

fn node(path: &str, size: u64) -> TreeNode {
    TreeNode {
        kind: "file".into(),
        path: path.into(),
        size,
        sha256: String::new(),
        lfs: Some(LfsInfo { oid: "oid".into(), sha256: String::new(), size }),
    }
}

#[test]
fn artifacts_group_files_by_quantization() {
    let list = artifacts(&vec![
        node("m-Q8_0-00001-of-00002.gguf", 5),
        node("m-Q8_0-00002-of-00002.gguf", 6),
        node("m-Q4_K_M.gguf", 4),
        node("mmproj-F16.gguf", 1),
        node("README.md", 9),
    ])
    .unwrap_or_else(|_| panic!("no artifacts"));
    assert_eq!(list.len(), 2);
    let q8 = list.iter().find(|a| a.label == "Q8_0").unwrap();
    assert_eq!((q8.shard_count, q8.complete, q8.has_mmproj), (2, true, true));
    assert_eq!(q8.size, 5 + 6 + 1);
    let q4 = list.iter().find(|a| a.label == "Q4_K_M").unwrap();
    assert!(q4.recommended);
    assert_eq!(q4.files.len(), 2);
    let torn = artifacts(&vec![node("m-Q8_0-00001-of-00002.gguf", 5)])
        .unwrap_or_else(|_| panic!("no artifacts"));
    assert!(!torn[0].complete);
    assert!(matches!(
        artifacts(&vec![node("../m-Q8_0.gguf", 5)]),
        Err(ArtifactError::Path(path)) if path == "../m-Q8_0.gguf"
    ));
    assert!(matches!(
        artifacts(&vec![
            node("m-Q8_0-00001-of-00002.gguf", u64::MAX),
            node("m-Q8_0-00002-of-00002.gguf", 1),
        ]),
        Err(ArtifactError::Size)
    ));
}

fn api_repository() -> ApiRepository {
    ApiRepository {
        id: "o/r".into(),
        downloads: 3,
        likes: 2,
        private: false,
        gated: JsonValue::Bool(false),
        tags: words(&["gguf", "license:mit", "chat"]),
        last_modified: "2026-01-02T03:04:05".into(),
        author: String::new(),
        pipeline_tag: String::new(),
        library_name: String::new(),
        card_data: parse("{\"language\":[\"en\"],\"pipeline_tag\":\"text-generation\"}").unwrap(),
    }
}

#[test]
fn search_shows_public_repositories() {
    let shown = search_result(&api_repository()).unwrap();
    assert_eq!((shown.license.as_str(), shown.updated.as_str()), ("mit", "2026-01-02"));
    let mut hidden = api_repository();
    hidden.private = true;
    assert!(search_result(&hidden).is_none());
    let mut gated = api_repository();
    gated.gated = parse("\"manual\"").unwrap();
    assert!(search_result(&gated).is_none());
    let pairs = search_pairs(" q ", Some("gguf"));
    assert_eq!(pairs[0], ("search".to_string(), "q".to_string()));
    assert_eq!(pairs.last().unwrap(), &("filter".to_string(), "gguf".to_string()));
    assert_eq!(search_pairs("q", None).len(), 5);
}

#[test]
fn details_fill_what_is_missing() {
    let d = details(&api_repository(), "o/r", "card".into());
    assert_eq!(d.author, "o");
    assert_eq!((d.license.as_str(), d.task.as_str()), ("mit", "text-generation"));
    assert_eq!((d.library.as_str(), d.base_model.as_str()), ("unknown", "unknown"));
    assert_eq!(d.languages, words(&["en"]));
    assert_eq!(d.tags, words(&["chat"]));
    assert_eq!(d.url, "https://huggingface.co/o/r");
    assert_eq!(
        chat_template(&parse("{\"config\":{\"chat_template_jinja\":\" \",\"chat_template\":\"t\"}}").unwrap()).as_deref(),
        Some("t")
    );
    assert_eq!(chat_template(&parse("{}").unwrap()), None);
}

#[test]
fn transfers_resume_where_they_stopped() {
    assert_eq!(start_file(true, None, 5), FileStart::Skip);
    assert_eq!(start_file(false, Some(5), 5), FileStart::VerifyPartial);
    assert_eq!(start_file(false, Some(4), 5), FileStart::Fetch);
    assert!(uses_parts(MULTIPART_THRESHOLD, true) && !uses_parts(MULTIPART_THRESHOLD, false));
    assert_eq!(resume_position(4, 10), 4);
    assert_eq!(resume_position(11, 10), 0);
    assert!(matches!(next_fetch(4, 10), Fetch::Range(r) if r == "bytes=4-9"));
    assert!(matches!(next_fetch(0, 10), Fetch::Whole));
    assert!(matches!(next_fetch(10, 10), Fetch::Done));
    assert_eq!(reply(4, 206), Reply::Append);
    assert_eq!(reply(4, 200), Reply::Restart);
    assert_eq!(reply(0, 500), Reply::Failed);
    assert!(matches!(next_part_fetch(2, 10, 19), Fetch::Range(r) if r == "bytes=12-19"));
    assert!(matches!(next_part_fetch(10, 10, 19), Fetch::Done));
    assert_eq!(part_reply(206, Some("bytes 12-19/100"), 12), Ok(()));
    assert_eq!(part_reply(206, Some("bytes 0-19/100"), 12), Err(PartFault::WrongRange));
    assert_eq!(part_reply(200, None, 12), Err(PartFault::NotPartial));
    assert_eq!(part_suffix(3), ".part-03");
    assert_eq!(after_failure(1, false), AfterFailure::Retry);
    assert_eq!(after_failure(4, false), AfterFailure::GiveUp);
    assert_eq!(after_failure(1, true), AfterFailure::Stop);
    assert!(digest_fits("ABc", "abC") && !digest_fits("a", "b"));
}

#[test]
fn chunks_cover_a_file() {
    let parts = chunks(1_000_003);
    assert_eq!(parts[0].start, 0);
    assert_eq!(parts.last().unwrap().end, 1_000_002);
    for i in 1..parts.len() {
        assert_eq!(parts[i].start, parts[i - 1].end + 1);
        assert_eq!(parts[i].index, i);
    }
}

fn browser() -> Browser {
    Browser {
        query: Line { text: " qwen ".into(), cursor: 0 },
        editing: true,
        search_templates: false,
        repositories: vec![],
        repository: None,
        artifacts: vec![],
        template_hits: vec![],
        template_view: None,
        details: None,
        details_open: false,
        detail_scroll: 3,
    }
}

fn model_details() -> ModelDetails {
    details(&api_repository(), "o/r", "one\ntwo\nthree".into())
}

fn repository() -> Repository {
    Repository { id: "o/r".into(), downloads: 1, likes: 1, license: "mit".into(), updated: "x".into() }
}

fn plain(code: KeyCode) -> Key {
    Key { code, ctrl: false }
}

#[test]
fn the_browser_searches_and_shows() {
    let mut b = browser();
    assert_eq!(b.start_search(), "Searching Hugging Face for qwen…");
    assert!(!b.editing && b.detail_scroll == 0);
    let (notice, moved) = b.receive(SearchResult::Repositories(vec![repository()]));
    assert_eq!((notice.as_str(), moved), ("Found 1 public GGUF repositories", true));
    let (notice, _) = b.receive(SearchResult::Artifacts(repository(), vec![], model_details()));
    assert_eq!(notice, "No downloadable GGUF model files in o/r");
    assert!(b.details_open);
    assert!(!b.press_details(plain(KeyCode::Down)));
    assert!(b.press_details(plain(KeyCode::Esc)));
    assert!(!b.details_open);
    assert!(b.back() && !b.back());
    assert_eq!(b.toggle_mode(), "Search mode: Jinja chat templates");
    assert!(b.search_templates && b.repositories.is_empty());
    let hit = TemplateHit { id: "o/r".into(), template: "t\nu".into(), downloads: 0, likes: 0 };
    let (notice, _) = b.receive(SearchResult::Templates(vec![hit]));
    assert_eq!(notice, "Found 1 repositories with a Jinja template");
    assert!(b.show_template(0) && !b.show_template(1));
    b.open_search();
    assert!(b.editing);
}

#[test]
fn a_template_is_read_saved_or_closed() {
    let mut v = TemplateView { id: "o/r".into(), template: "a\nb\nc".into(), scroll: 0 };
    assert_eq!(v.press(plain(KeyCode::Down)), ViewRequest::Nothing);
    assert_eq!(v.scroll, 1);
    assert_eq!(v.press(plain(KeyCode::Esc)), ViewRequest::Close);
}

#[test]
fn notes_on_artifacts() {
    let a = Artifact {
        label: "Q8_0".into(),
        description: "minimal loss".into(),
        quality: 5,
        recommended: false,
        files: vec![],
        size: 1,
        shard_count: 2,
        has_mmproj: true,
        complete: false,
    };
    assert_eq!(artifact_notes(&a), "minimal loss - vision included - incomplete shards");
    assert_eq!(files_text(2), "2 shards");
    assert_eq!(files_text(1), "1 file");
    assert_eq!(waiting("Loading model card", false), "Loading model card…");
    assert_eq!(waiting("", true), "Searching Hugging Face for chat templates…");
    assert_eq!(details_request(None, None, false), DetailsRequest::Select);
    assert_eq!(details_request(Some("a"), Some("a"), true), DetailsRequest::Show);
    assert_eq!(details_request(Some("a"), Some("b"), true), DetailsRequest::Wait);
    assert_eq!(details_request(Some("a"), None, false), DetailsRequest::Load);
}

fn asset(name: &str) -> Asset {
    Asset { name: name.into(), browser_download_url: format!("https://x/{name}") }
}

#[test]
fn updates_pick_assets_and_flags() {
    let assets = vec![
        asset("llama-b1-bin-ubuntu-vulkan-x64.tar.gz"),
        asset("llama-b1-bin-ubuntu-x64.tar.gz"),
        asset("llama-swap_1_linux_amd64.tar.gz"),
    ];
    assert_eq!(llama_asset(&assets, "vulkan"), Some(0));
    assert_eq!(llama_asset(&assets, "cpu"), Some(1));
    assert_eq!(llama_asset(&assets, "rocm"), None);
    assert_eq!(swap_asset(&assets), Some(2));
    assert_eq!(cmake_flags("vulkan").unwrap(), words(&["-DGGML_NATIVE=ON", "-DGGML_VULKAN=ON"]));
    assert_eq!(cmake_flags("abacus"), None);
    assert!(is_installed("b1", &words(&["b1-vulkan"])));
    assert!(!is_installed("b1", &words(&["b10"])));
    assert_eq!(version_name("b1", "cuda"), "b1-cuda");
}

#[test]
fn old_versions_are_pruned_by_backend() {
    let version = |backend: &str, modified: u64, pinned: bool, active: bool| Version {
        backend: backend.into(),
        modified: Some(modified),
        pinned,
        active,
    };
    let list = vec![
        version("cuda", 1, false, false),
        version("cuda", 3, false, false),
        version("cuda", 2, false, false),
        version("vulkan", 1, false, false),
        version("cuda", 0, true, false),
        version("cuda", 0, false, true),
    ];
    assert_eq!(prune_versions(&list, 2), vec![0]);
    assert_eq!(prune_versions(&list, 0), vec![0, 2]);
}
