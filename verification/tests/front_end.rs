//! The front end: lines, the profile editor, pages, labels and caches.
use llamactl::cache::{copy_metadata, find, keep, FileStamp};
use llamactl::config::Config;
use llamactl::editing::{
    card_rows, line_action, name_action, scroll_by, Edit, Key, KeyCode, Leaving, Line, LineAction,
    TemplateEditor,
};
use llamactl::editor::{editor_profile_from_profile, editor_settings_from_profile, EditorSettings};
use llamactl::figures::{
    estimate_card_label, format_bytes, format_count, format_gib, residence_label,
};
use llamactl::huggingface::{DownloadEvent, DownloadSummary};
use llamactl::json::{parse, JsonValue};
use llamactl::metadata::GgufMetadata;
use llamactl::models::{Model, ModelKind};
use llamactl::profile_editor::{
    chat_template_display, commit, cycle, editor_args, editor_choices, editor_field_label,
    editor_field_value, editor_fields, editor_open_extra, editor_open_typed, editor_rows,
    editor_selected_row, editor_set_value, open_editor, pick_template, rotate, runtime_picker,
    save, settings_for, step_nonnegative, template_picker, EditorField, EditorRequest, EditorRow,
    OpenError, PickerRequest,
};
use llamactl::profiles::{ProfileError, Profiles};
use llamactl::table::Table;
use llamactl::templates::Templates;
use llamactl::ui::{
    adjust_profile, answer, apply_rename, benchmark_action, copy_name, create_custom_profile,
    custom_name, dispatch, enter, entry_count, estimate_order, page_keys, search_action, settings,
    step_context, toggle_pin, toggle_setting, visible_models, Action, BenchmarkAction,
    EnterAction, RenameOutcome, Screen, SearchAction, SettingRequest, SettingValue,
};
use llamactl::view::{
    available_runtimes, log_line, log_line_style, marquee_text, model_card_line, model_rows,
    spinner_char, status_line, sum_of, transferred, update_label, update_notice,
    DownloadState, LineStyle, LogStyle, SpanStyle, Status,
};

fn words(list: &[&str]) -> Vec<String> {
    list.iter().map(|s| s.to_string()).collect()
}

fn map(text: &str) -> Table<JsonValue> {
    match parse(text) {
        Some(JsonValue::Object(t)) => t,
        _ => panic!("no object: {text}"),
    }
}

fn key(code: KeyCode) -> Key {
    Key { code, ctrl: false }
}

fn ctrl(c: char) -> Key {
    Key { code: KeyCode::Char(c), ctrl: true }
}

fn profiles(list: &[(&str, &str)], models: &str) -> Profiles {
    let mut p = Profiles::default();
    for (name, text) in list {
        p.profiles.insert(name.to_string(), map(text));
    }
    p.models = map(models);
    p
}

/// Hands a key to the line in which a profile is renamed; false where that ends it.
fn handle_rename_input(line: &mut Line, key: Key) -> bool {
    match line_action(key, true) {
        LineAction::Edit(edit) => {
            line.edit(edit);
            true
        }
        LineAction::Nothing => true,
        LineAction::Cancel | LineAction::Submit => false,
    }
}

#[test]
fn editing_supports_arrows_home_end_and_insert_at_cursor() {
    let p = profiles(&[("qwen3-coder-custom", "{}")], "{}");
    let original = p.profiles.key_at(0).to_string();
    let mut line = Line::at_end(&original);

    handle_rename_input(&mut line, key(KeyCode::Home));
    handle_rename_input(&mut line, key(KeyCode::Char('z')));
    handle_rename_input(&mut line, key(KeyCode::Char('-')));
    assert!(line.text.starts_with("z-"));
    assert_eq!(line.cursor, 2);

    handle_rename_input(&mut line, key(KeyCode::End));
    assert_eq!(line.cursor, line.text.chars().count());
    let before = line.text.clone();
    handle_rename_input(&mut line, key(KeyCode::Backspace));
    assert_eq!(line.text, before[..before.len() - 1]);

    let cursor_before = line.cursor;
    handle_rename_input(&mut line, key(KeyCode::Left));
    handle_rename_input(&mut line, key(KeyCode::Left));
    handle_rename_input(&mut line, key(KeyCode::Delete));
    assert_eq!(line.cursor, cursor_before - 2);

    handle_rename_input(&mut line, ctrl('u'));
    assert_eq!(line.cursor, 0);

    assert!(!handle_rename_input(&mut line, key(KeyCode::Esc)));
    assert!(p.profiles.contains_key(&original));
}

#[test]
fn ctrl_edits_delete_word_line_and_jump_words() {
    let mut line = Line::at_end("qwen3-coder-custom");
    let len = line.text.chars().count();

    handle_rename_input(&mut line, ctrl('a'));
    assert_eq!(line.cursor, 0);
    handle_rename_input(&mut line, ctrl('e'));
    assert_eq!(line.cursor, line.text.chars().count());

    handle_rename_input(&mut line, Key { code: KeyCode::Left, ctrl: true });
    let after_jump = line.cursor;
    assert!(after_jump < len);

    let before = line.text.clone();
    handle_rename_input(&mut line, ctrl('w'));
    assert!(line.text.len() < before.len());

    handle_rename_input(&mut line, ctrl('k'));
    assert_eq!(line.cursor, line.text.chars().count());
    assert!(!handle_rename_input(&mut line, key(KeyCode::Esc)));
}

#[test]
fn words_are_letters_and_digits_of_any_script() {
    let mut line = Line::at_end("über straße");
    line.edit(Edit::WordLeft);
    assert_eq!(line.cursor, 5);
    line.edit(Edit::DeleteWord);
    assert_eq!(line.text, "straße");
    line.edit(Edit::WordRight);
    line.edit(Edit::Insert('!'));
    line.edit(Edit::Left);
    line.edit(Edit::Right);
    line.edit(Edit::Backspace);
    assert_eq!((line.text.as_str(), line.cursor), ("straße", 6));
    line.edit(Edit::Start);
    line.edit(Edit::ClearToEnd);
    assert_eq!(line.text, "");
    assert_eq!(line_action(key(KeyCode::Enter), false), LineAction::Submit);
    assert_eq!(name_action(key(KeyCode::Esc)), LineAction::Cancel);
}

#[test]
fn a_template_is_edited_line_by_line() {
    let mut e = TemplateEditor::new("t".into(), "ab\ncd".into(), true);
    assert_eq!(e.text(), "ab\ncd");
    e.move_home();
    e.insert_char('x');
    assert!(e.text().contains('x'));
    e.backspace();
    assert_eq!(e.text(), "ab\ncd");
    while e.line > 0 {
        e.move_up();
    }
    e.move_end();
    assert_eq!((e.line, e.col, e.line_len(0)), (0, 2, 2));
    e.delete();
    assert_eq!(e.text(), "abcd");
    assert_eq!(e.press(key(KeyCode::Enter)), Leaving::Stay);
    assert_eq!(e.text(), "ab\ncd");
    e.move_left();
    e.move_right();
    e.move_down();
    assert_eq!(e.line, 1);
    assert_eq!(e.press(ctrl('s')), Leaving::Save);
    assert_eq!(e.press(key(KeyCode::Esc)), Leaving::Cancel);
    assert_eq!(scroll_by(0, 10, key(KeyCode::Down)), Some(1));
    assert_eq!(scroll_by(0, 10, key(KeyCode::Char('z'))), None);
    assert!(card_rows("a\nb\nc") >= 1);
}

#[test]
fn draft_token_step_stops_at_zero() {
    assert_eq!(step_nonnegative(3, -1), 2);
    assert_eq!(step_nonnegative(0, -1), 0);
    assert_eq!(step_nonnegative(3, 1), 4);
}

#[test]
fn estimate_card_labels_both_values_in_mib() {
    let mib = 1u64 << 20;
    assert_eq!(
        estimate_card_label(Some(8192 * mib), 16384 * mib),
        "8192 MiB / 16384 MiB - 50.0%"
    );
    assert_eq!(estimate_card_label(Some(8192 * mib), 0), "8192 MiB - --");
}

#[test]
fn figures_are_rounded_as_the_formatter_rounds() {
    assert_eq!(estimate_card_label(None, 5), "Estimating…");
    let numbers = [
        0, 1, 999, 1000, 1023, 1050, 1150, 1250, 1536, 99_949, 99_950, 999_949, 999_950, 1_048_575,
        1_048_576, 1_250_000, 5_050_000, 123_456_789, 1 << 29, (1 << 30) - 1, 3 << 29, 1 << 40,
        (1 << 53) - 1, 1 << 53, (1 << 53) + 1, (1 << 54) + 2, (1 << 60) + 12_345, u64::MAX - 1,
        u64::MAX, 8_589_934_592, 17_000_000_001,
    ];
    let gib = (1u64 << 30) as f64;
    for n in numbers {
        let bytes = if n >= 1 << 30 {
            format!("{:.1} GiB", n as f64 / gib)
        } else if n >= 1 << 20 {
            format!("{:.1} MiB", n as f64 / (1u64 << 20) as f64)
        } else {
            format!("{:.1} KiB", n as f64 / 1024.0)
        };
        assert_eq!(format_bytes(n), bytes);
        assert_eq!(format_gib(n), format!("{:.1}", n as f64 / gib));
        let count = if n >= 1_000_000 {
            format!("{:.1}M", n as f64 / 1_000_000.0)
        } else if n >= 1_000 {
            format!("{:.1}K", n as f64 / 1_000.0)
        } else {
            n.to_string()
        };
        assert_eq!(format_count(n), count);
        for total in numbers {
            if total == 0 {
                assert_eq!(residence_label(n, total), "—");
                continue;
            }
            let mib = (1u64 << 20) as f64;
            assert_eq!(
                estimate_card_label(Some(n), total),
                format!(
                    "{:.0} MiB / {:.0} MiB - {:.1}%",
                    n as f64 / mib,
                    total as f64 / mib,
                    n as f64 * 100.0 / total as f64,
                )
            );
            assert_eq!(
                residence_label(n, total),
                format!(
                    "{:.1}/{:.1}G - {:.0}%",
                    n as f64 / gib,
                    total as f64 / gib,
                    n as f64 / total as f64 * 100.0
                )
            );
        }
    }
}

#[test]
fn settings_roundtrip_preserves_unmanaged_keys() {
    let profile = map(
        "{
            \"_model\": \"m\",
            \"ctx-size\": 65536,
            \"parallel\": 4,
            \"spec-draft-model\": \"/x/draft.gguf\",
            \"chat-template-file\": \"/x/chat.jinja\",
            \"chat-template-kwargs\": \"{\\\"tools\\\":true}\",
            \"override-tensor\": \"blk.*=CPU\",
            \"split-mode\": \"tensor\"
        }",
    );
    let settings = editor_settings_from_profile(&profile);
    assert_eq!(settings.ctx, 65536);
    assert_eq!(settings.parallel, 4);
    assert_eq!(settings.split, "tensor");
    assert_eq!(settings.chat_template_file, "/x/chat.jinja");
    assert_eq!(settings.chat_template_kwargs, "{\"tools\":true}");
    let out = editor_profile_from_profile(&profile, &settings, "m");
    assert_eq!(out.get("ctx-size").and_then(JsonValue::as_u64), Some(65536));
    assert_eq!(
        out.get("spec-draft-model").and_then(JsonValue::as_str),
        Some("/x/draft.gguf")
    );
    assert_eq!(
        out.get("override-tensor").and_then(JsonValue::as_str),
        Some("blk.*=CPU")
    );
    assert_eq!(
        out.get("chat-template-file").and_then(JsonValue::as_str),
        Some("/x/chat.jinja")
    );
}

#[test]
fn external_draft_spec_type_is_preserved() {
    let profile = map(
        "{
            \"_model\": \"m\",
            \"spec-type\": \"draft-dflash\",
            \"spec-draft-n-max\": 10,
            \"spec-draft-model\": \"/x/d.gguf\"
        }",
    );
    let settings = editor_settings_from_profile(&profile);
    assert_eq!(settings.spec_type, "draft-dflash");
    assert_eq!(settings.spec_draft_nmax, 10);
    assert_eq!(settings.spec_draft_model, "/x/d.gguf");
    let out = editor_profile_from_profile(&profile, &settings, "m");
    assert_eq!(
        out.get("spec-type").and_then(JsonValue::as_str),
        Some("draft-dflash")
    );
    assert_eq!(
        out.get("spec-draft-n-max").and_then(JsonValue::as_u64),
        Some(10)
    );
    assert_eq!(
        out.get("spec-draft-model").and_then(JsonValue::as_str),
        Some("/x/d.gguf")
    );
}

#[test]
fn mtp_on_emits_draft_mtp_and_off_strips_it() {
    let profile = map(
        "{
            \"_model\": \"m\",
            \"spec-type\": \"draft-mtp\",
            \"spec-draft-n-max\": 3
        }",
    );
    let mut settings = editor_settings_from_profile(&profile);
    assert_eq!(settings.spec_type, "draft-mtp");
    assert_eq!(settings.spec_draft_nmax, 3);
    settings.spec_draft_nmax = 5;
    let out = editor_profile_from_profile(&profile, &settings, "m");
    assert_eq!(
        out.get("spec-type").and_then(JsonValue::as_str),
        Some("draft-mtp")
    );
    assert_eq!(out.get("spec-draft-n-max").and_then(JsonValue::as_u64), Some(5));
    settings.spec_type = "none".into();
    settings.spec_draft_nmax = 0;
    let out = editor_profile_from_profile(&profile, &settings, "m");
    assert!(out.get("spec-type").is_none());
    assert!(out.get("spec-draft-n-max").is_none());
}

#[test]
fn string_ctx_values_are_parsed() {
    let profile = map(
        "{
            \"_model\": \"m\",
            \"ctx-size\": \"262144\",
            \"batch-size\": \"2048\"
        }",
    );
    let settings = editor_settings_from_profile(&profile);
    assert_eq!(settings.ctx, 262144);
    assert_eq!(settings.batch, 2048);
}

#[test]
fn keys_that_the_editor_does_not_know_stay() {
    let profile = map("{\"_model\":\"m\",\"my-own\":[1,2],\"_env\":\"A=1\"}");
    let settings = editor_settings_from_profile(&profile);
    let out = editor_profile_from_profile(&profile, &settings, "m");
    assert_eq!(out.get("my-own").unwrap().to_text(), "[1,2]");
    assert_eq!(out.get("_env").and_then(JsonValue::as_str), Some("A=1"));
    let again = editor_settings_from_profile(&out);
    assert_eq!((again.ctx, again.parallel, again.split), (settings.ctx, settings.parallel, settings.split));
}

#[test]
fn fields_are_shown_chosen_and_typed() {
    let mut s = EditorSettings::default();
    s.ctx = 8192;
    s.context_step = 4096;
    assert_eq!(editor_field_value(EditorField::Ctx, &s), "8192");
    assert!(!editor_field_label(EditorField::Ctx).is_empty());
    let choices = editor_choices(EditorField::Flash, &s, None, 4096);
    assert!(choices.contains(&"on".to_string()) && choices.contains(&"off".to_string()));
    let contexts = editor_choices(EditorField::Ctx, &s, Some(16_384), 4096);
    assert!(contexts.contains(&"16384".to_string()));
    editor_set_value(EditorField::Flash, "off", &mut s);
    assert_eq!(s.flash, "off");
    assert!(cycle(&mut s, EditorField::Flash, 1, None, 4096));
    assert_ne!(s.flash, "off");
    assert_eq!(commit(&mut s, EditorField::Ctx, "4096", Some(8192), true), Ok(()));
    assert_eq!(s.ctx, 4096);
    assert!(commit(&mut s, EditorField::Ctx, "abc", None, true).is_err());
    assert_eq!(s.ctx, 4096);
    assert!(commit(&mut s, EditorField::Temperature, "hot", None, false).is_err());
    assert_eq!(commit(&mut s, EditorField::Temperature, "0.7", None, true), Ok(()));
    assert_eq!(s.temperature, "0.7");
    assert!(editor_open_typed(EditorField::Ctx, &s).is_some());
    assert!(editor_open_typed(EditorField::Assign, &s).is_none());
    s.extra = words(&["--a", "b"]);
    assert_eq!(editor_open_extra(&s).line.text, "--a b");
    assert_eq!(rotate(0, 3, -1), 2);
    assert_eq!(rotate(2, 3, 1), 0);
}

#[test]
fn rows_hold_the_fields_in_order() {
    let rows = editor_rows(false);
    let fields = editor_fields(false);
    let in_rows: Vec<EditorField> = rows
        .iter()
        .filter_map(|r| match r {
            EditorRow::Field(f) => Some(*f),
            EditorRow::Header(_) => None,
        })
        .collect();
    assert_eq!(in_rows, fields);
    assert!(editor_fields(true).len() > fields.len());
    let at = editor_selected_row(1, false);
    assert!(matches!(rows[at], EditorRow::Field(f) if f == fields[1]));
}

#[test]
fn arguments_follow_the_settings() {
    let cfg = Config::default();
    let mut s = EditorSettings::default();
    s.ctx = 2048;
    let args = editor_args(&cfg, &s);
    assert!(args.windows(2).any(|w| w[1] == "2048"));
}

#[test]
fn the_editor_opens_changes_and_saves_a_profile() {
    let mut p = profiles(&[("mine", "{\"_model\":\"m\",\"ctx-size\":4096}"), ("lost", "{}")], "{}");
    let (ids, paths) = (words(&["m"]), words(&["/m.gguf"]));
    assert!(matches!(open_editor(&p, "lost", &ids, &paths, 4096, 4096), Err(OpenError::NoOwner)));
    assert!(matches!(
        open_editor(&p, "mine", &words(&["other"]), &paths, 4096, 4096),
        Err(OpenError::NoModel)
    ));
    let mut e = open_editor(&p, "mine", &ids, &paths, 4096, 4096).unwrap_or_else(|_| panic!("closed"));
    assert_eq!((e.owner.as_str(), e.path.as_str(), e.settings.ctx), ("m", "/m.gguf", 4096));
    assert_eq!(e.press(key(KeyCode::Down), None, 4096, true), EditorRequest::Nothing);
    assert_eq!(e.selected, 1);
    assert_eq!(e.press(key(KeyCode::Esc), None, 4096, true), EditorRequest::Close);
    let mut s = settings_for(&p, "mine", "m", 4096, 4096);
    s.ctx = 8192;
    s.assign = true;
    assert!(save(&mut p, "mine", "m", &s));
    assert_eq!(p.profiles.get("mine").unwrap().get("ctx-size").unwrap().as_u64(), Some(8192));
    assert!(!save(&mut p, "none", "m", &s));
}

#[test]
fn pickers_offer_runtimes_and_templates() {
    let mut picker = runtime_picker(words(&["managed", "managed:b1"]), "managed:b1");
    assert_eq!(picker.choice().as_deref(), Some("managed:b1"));
    assert_eq!(picker.press(key(KeyCode::Up)), PickerRequest::Nothing);
    assert_eq!(picker.choice().as_deref(), Some("managed"));
    assert_eq!(picker.press(key(KeyCode::Enter)), PickerRequest::Choose);
    assert_eq!(picker.press(key(KeyCode::Esc)), PickerRequest::Close);
    let mut library = Templates::default();
    library.templates.insert("chatml".into(), "content".into());
    let offered = template_picker(&library, "content");
    assert!(offered.options.contains(&"chatml".to_string()));
    let mut s = EditorSettings::default();
    assert!(!pick_template(&mut s, &library, "chatml").is_empty());
    assert_eq!(s.chat_template, "content");
    assert!(chat_template_display(&library, "content").contains("chatml"));
}

fn screen(page: usize, selected: usize, count: usize) -> Screen {
    Screen {
        benchmark: None,
        download: false,
        confirm: false,
        template_view: false,
        template_editor: false,
        template_name: false,
        template_delete: false,
        details: false,
        help: false,
        profile_delete: false,
        model_delete: false,
        benchmark_view: false,
        runtime_picker: false,
        template_picker: false,
        profile_editor: None,
        rename: false,
        editing: false,
        page,
        selected,
        count,
        repository: false,
        search_templates: false,
        hits: false,
        repositories: false,
    }
}

#[test]
fn keys_go_to_the_page_or_the_open_dialog() {
    let s = screen(0, 0, 1);
    assert_eq!(dispatch(s, key(KeyCode::Right)), Action::Go(1, 0));
    assert_eq!(dispatch(s, key(KeyCode::Left)), Action::Go(7, 0));
    assert_eq!(dispatch(s, key(KeyCode::Char('3'))), Action::Go(2, 0));
    assert_eq!(dispatch(screen(1, 1, 3), key(KeyCode::Down)), Action::Go(1, 2));
    assert_eq!(dispatch(screen(1, 2, 3), key(KeyCode::Down)), Action::Go(1, 2));
    assert_eq!(dispatch(screen(1, 0, 3), key(KeyCode::End)), Action::Go(1, 2));
    assert_eq!(dispatch(s, key(KeyCode::Char('q'))), Action::Quit);
    assert_eq!(dispatch(screen(2, 0, 1), key(KeyCode::Char('R'))), Action::StartRename);
    assert_eq!(dispatch(screen(5, 0, 1), key(KeyCode::Char('+'))), Action::ToggleSetting(true));
    let mut open = screen(0, 0, 1);
    open.confirm = true;
    assert_eq!(dispatch(open, key(KeyCode::Char('q'))), Action::ToConfirm);
    assert_eq!(dispatch(open, ctrl('c')), Action::Quit);
    let mut busy = screen(0, 0, 1);
    busy.download = true;
    assert_eq!(dispatch(busy, ctrl('c')), Action::CancelDownload);
    assert_eq!(dispatch(busy, key(KeyCode::Char('x'))), Action::Nothing);
    assert!(!page_keys(s).is_empty());
    assert_ne!(page_keys(s), page_keys(open));
}

#[test]
fn dialogs_are_answered() {
    assert_eq!(answer(key(KeyCode::Enter)), Some(true));
    assert_eq!(answer(key(KeyCode::Char('n'))), Some(false));
    assert_eq!(answer(key(KeyCode::Char('x'))), None);
    assert_eq!(benchmark_action(true, key(KeyCode::Esc)), BenchmarkAction::Stop);
    assert_eq!(benchmark_action(false, key(KeyCode::Char('y'))), BenchmarkAction::Run);
    assert_eq!(benchmark_action(false, key(KeyCode::Esc)), BenchmarkAction::Close);
    assert_eq!(entry_count(5, 1, 2, 3, 4), 12);
    assert_eq!(entry_count(2, 1, 2, 3, 4), 2);
    assert_eq!(enter(0, 0, true, false, (false, false), false), EnterAction::StopServer);
    assert_eq!(enter(1, 0, true, true, (false, false), false), EnterAction::LoadModel);
    assert_eq!(enter(1, 0, false, false, (false, false), false), EnterAction::StartModel);
    assert_eq!(search_action(true, screen(4, 0, 1), false, None, true), SearchAction::Wait);
}

fn model(id: &str, kind: ModelKind) -> Model {
    Model {
        id: id.into(),
        relative: format!("dir/{id}.gguf"),
        path: format!("/m/{id}.gguf"),
        bytes: 1,
        vision: false,
        kind,
    }
}

#[test]
fn models_are_filtered_and_put_in_rows() {
    let models = vec![
        model("alpha", ModelKind::Main),
        model("draft", ModelKind::Draft),
        model("Beta", ModelKind::Main),
    ];
    assert_eq!(visible_models(&models, ""), vec![0, 1, 2]);
    assert_eq!(visible_models(&models, "beta"), vec![2]);
    let (main, drafts, _) = model_rows(&models, &vec![0, 1, 2], 1);
    assert_eq!((main, drafts), (vec![0, 2], vec![1]));
}

#[test]
fn settings_are_listed_and_toggled() {
    let mut cfg = Config::default();
    let list = settings(&cfg, "10.0.0.2", "95%", false);
    assert_eq!(list.len(), 12);
    assert!(list.iter().any(|(_, v)| matches!(v, SettingValue::Boolean { .. })));
    assert_eq!(step_context(8192, 4096, true), Some(12_288));
    assert_eq!(step_context(8192, 4096, false), Some(4096));
    let mut saved = 0;
    for selected in 0..12 {
        if toggle_setting(&mut cfg, selected, true, 4096) == Some(SettingRequest::Save) {
            saved += 1;
        }
    }
    assert!(saved > 0);
}

#[test]
fn profiles_are_adjusted_by_single_keys() {
    let mut p = profiles(&[("a", "{\"ctx-size\":8192,\"parallel\":2}")], "{}");
    assert!(adjust_profile(&mut p, "a", '+', 4096));
    assert!(adjust_profile(&mut p, "a", ']', 4096));
    assert!(adjust_profile(&mut p, "a", 'f', 4096));
    assert!(adjust_profile(&mut p, "a", 'k', 4096));
    assert!(adjust_profile(&mut p, "a", 't', 4096));
    assert!(!adjust_profile(&mut p, "a", 'z', 4096));
    assert!(!adjust_profile(&mut p, "none", '+', 4096));
    let a = p.profiles.get("a").unwrap();
    assert_eq!(a.get("ctx-size").unwrap().as_u64(), Some(12_288));
    assert_eq!(a.get("parallel").unwrap().as_u64(), Some(3));
    assert_eq!(a.get("flash-attn").unwrap().as_str(), Some("off"));
    assert_eq!(a.get("cache-type-v").unwrap().as_str(), Some("q8_0"));
    assert_eq!(a.get("split-mode").unwrap().as_str(), Some("tensor"));
}

#[test]
fn profiles_get_free_names() {
    let mut p = profiles(&[("m-custom", "{}")], "{}");
    assert_eq!(custom_name(&p, "x").as_deref(), Some("x-custom"));
    assert_eq!(custom_name(&p, "m").as_deref(), Some("m-custom-2"));
    assert_eq!(copy_name(&p, "m-custom").as_deref(), Some("m-custom-copy-2"));
    let made = create_custom_profile(&mut p, "m", Some(4096), 4096).unwrap();
    assert_eq!(made, "m-custom-2");
    assert_eq!(p.owner("m-custom-2"), Some("m"));
    let mut cfg = Config::default();
    assert!(toggle_pin(&mut cfg, "m-custom"));
    assert!(matches!(apply_rename(&mut p, &mut cfg, "m-custom", "m-custom"), RenameOutcome::Unchanged));
    assert!(matches!(apply_rename(&mut p, &mut cfg, "m-custom", "new"), RenameOutcome::Renamed));
    assert_eq!(cfg.scheduler_pinned_models, words(&["new"]));
    assert!(matches!(
        apply_rename(&mut p, &mut cfg, "new", "m-custom-2"),
        RenameOutcome::Refused(ProfileError::Exists)
    ));
    assert!(!toggle_pin(&mut cfg, "new"));
    let q = profiles(&[("a", "{\"override-tensor\":\"x=CPU\"}"), ("b", "{}")], "{}");
    assert_eq!(estimate_order(&q), words(&["b", "a"]));
}

#[test]
fn renders_markdown_without_exposing_inline_markup() {
    let (style, spans) = model_card_line("## Model **Name**");
    assert_eq!(
        spans.iter().map(|span| span.0.as_str()).collect::<String>(),
        "Model Name"
    );
    assert_eq!(style, LineStyle::Heading);

    let (_, spans) = model_card_line("Read [the docs](https://example.com) and use `f16`.");
    assert_eq!(
        spans.iter().map(|span| span.0.as_str()).collect::<String>(),
        "Read the docs and use f16."
    );
    assert!(spans.iter().any(|s| s.0 == "the docs" && s.1 == SpanStyle::Link));
    assert!(spans.iter().any(|s| s.0 == "f16" && s.1 == SpanStyle::Code));
}

#[test]
fn lines_of_the_front_end() {
    assert_eq!(marquee_text("short", 10, 0), "short");
    assert_eq!(marquee_text("abcdefgh", 5, 0), "abcd");
    assert_eq!(marquee_text("abcdefgh", 5, 250), "bcde");
    assert_eq!(spinner_char(0), '⠋');
    assert_eq!(spinner_char(100), '⠙');
    assert_eq!(log_line_style("[WARN] x"), LogStyle::Warning);
    assert_eq!(log_line_style("an error"), LogStyle::Error);
    assert_eq!(log_line_style("fine"), LogStyle::Plain);
    assert_eq!(log_line("no time here"), (None, "no time here".to_string()));
    assert_eq!(
        available_runtimes(&words(&["managed:b2", "managed:b1"]), &words(&["lmstudio:x"]), "custom"),
        words(&["managed", "managed:b1", "managed:b2", "lmstudio:x", "custom"])
    );
    assert_eq!(update_label("llama.cpp", Some(("b2", true))), "Update llama.cpp → b2");
    assert_eq!(update_label("llama.cpp", Some(("b2", false))), "llama.cpp — current (b2)");
    assert_eq!(
        update_notice("b2", true, "v1", false),
        "llama.cpp b2: update available - llama-swap v1: current"
    );
    assert_eq!(status_line(&Status::Busy("Loading".into())), "Loading …");
    assert!(status_line(&Status::Rename(Line::at_end("ab"))).contains("ab"));
}

#[test]
fn downloads_are_followed() {
    let mut files = Table::new();
    files.insert("a".to_string(), 10);
    let mut d = DownloadState {
        files,
        progress: Table::new(),
        baseline: Table::new(),
        current: String::new(),
        phase: String::new(),
        retry: None,
        completed_files: 0,
        cancelling: false,
    };
    d.note(&DownloadEvent::FileStarted { path: "a".into(), total: 10 });
    d.note(&DownloadEvent::FileProgress { path: "a".into(), downloaded: 2, total: 10 });
    d.note(&DownloadEvent::FileProgress { path: "a".into(), downloaded: 7, total: 10 });
    assert_eq!(d.current, "a");
    assert_eq!(sum_of(&d.progress), Ok(7));
    assert_eq!(transferred(&d), Ok(5));
    d.note(&DownloadEvent::Retrying { path: "a".into(), attempt: 1, message: "cut".into() });
    assert!(d.retry.is_some());
    d.note(&DownloadEvent::Verifying { path: "a".into() });
    d.note(&DownloadEvent::FileDone { path: "a".into(), skipped: false });
    assert_eq!(d.completed_files, 1);
    d.note(&DownloadEvent::Finished(Ok(DownloadSummary {
        downloaded: 1,
        skipped: 0,
        destination: "/m".into(),
    })));
}

fn metadata() -> GgufMetadata {
    GgufMetadata {
        context_length: Some(4096),
        block_count: Some(2),
        embedding_length: None,
        attention_heads: None,
        kv_heads: vec![],
        key_length: vec![],
        value_length: vec![],
        sliding_window: None,
        sliding_pattern: vec![],
        pooling_type: None,
        nextn_layers: None,
        mtp_markers: words(&["enorm"]),
        tokenizer: None,
    }
}

#[test]
fn metadata_is_kept_until_the_file_changes() {
    let stamp = FileStamp { len: 5, modified: Some(1) };
    let changed = FileStamp { len: 6, modified: Some(1) };
    assert!(find(&None, stamp, false).is_none());
    let entry = Some(keep(None, stamp, &metadata(), false));
    assert_eq!(find(&entry, stamp, false).unwrap().context_length, Some(4096));
    assert!(find(&entry, stamp, true).is_none());
    assert!(find(&entry, changed, false).is_none());
    let full = Some(keep(entry, stamp, &metadata(), true));
    assert_eq!(find(&full, stamp, true).unwrap().mtp_markers, words(&["enorm"]));
    assert_eq!(copy_metadata(&metadata()).block_count, Some(2));
}
