//! The front end: which key means what, and what its actions change.
use vstd::prelude::*;

use crate::commands;
use crate::config;
use crate::config::{Config, ConfigView};
use crate::editing::{Key, KeyCode};
use crate::editor;
use crate::json;
use crate::json::{Json, JsonValue, Number};
use crate::models::Model;
use crate::pattern;
use crate::process;
use crate::profile_editor;
use crate::profiles;
use crate::profiles::{Members, ProfileError, ProfileErrorView, Profiles, ProfilesView};
use crate::table;
use crate::table::Table;
use crate::text;

verus! {

/// How many pages there are.
pub const PAGES: usize = 8;

/// What the front end shows: what is open, and where it stands.
#[derive(Clone, Copy, Debug, PartialEq, Eq, Structural)]
pub struct Screen {
    /// Whether a benchmark is run, where one is asked for.
    pub benchmark: Option<bool>,
    pub download: bool,
    pub confirm: bool,
    pub template_view: bool,
    pub template_editor: bool,
    pub template_name: bool,
    pub template_delete: bool,
    pub details: bool,
    pub help: bool,
    pub profile_delete: bool,
    pub model_delete: bool,
    pub benchmark_view: bool,
    pub runtime_picker: bool,
    pub template_picker: bool,
    /// Whether a value is typed, where a profile is edited.
    pub profile_editor: Option<bool>,
    pub rename: bool,
    pub editing: bool,
    pub page: usize,
    pub selected: usize,
    /// How many entries the page has.
    pub count: usize,
    /// Whether a repository is open.
    pub repository: bool,
    pub search_templates: bool,
    /// Whether a search for templates found any.
    pub hits: bool,
    /// Whether a search for models found any.
    pub repositories: bool,
}

/// What a key asks for.
#[derive(Clone, Copy, Debug, PartialEq, Eq, Structural)]
pub enum Action {
    Nothing,
    Quit,
    /// The key goes to what is open.
    ToBenchmark,
    CancelDownload,
    ToConfirm,
    ToTemplateView,
    ToTemplateEditor,
    ToTemplateName,
    ToTemplateDelete,
    ToDetails,
    CloseHelp,
    ToProfileDelete,
    ToModelDelete,
    ToBenchmarkView,
    ToRuntimePicker,
    ToTemplatePicker,
    ToProfileEditor,
    ToRename,
    ToSearchInput,
    ShowHelp,
    /// Another page, or another entry of the page.
    Go(usize, usize),
    Enter,
    StartRename,
    OpenProfileEditor,
    OpenSearch,
    Back,
    ShowDetails,
    RepeatSearch,
    ToggleSearchMode,
    EditTemplate,
    AddTemplate,
    RenameTemplate,
    DeleteTemplate,
    Refresh,
    CreateProfile,
    UnloadModel,
    DeleteModel,
    BenchmarkProfile,
    ShowBenchmarks,
    CloneProfile,
    DeleteProfile,
    PinProfile,
    BindProfile,
    AdjustProfile(char),
    UnloadProfile,
    /// One step up or down.
    ToggleSetting(bool),
}

/// What a key asks for where nothing is open over the page.
pub open spec fn page_action(s: Screen, key: Key) -> Action {
    let is = |c: char| key.code == KeyCode::Char(c);
    let last = profile_editor::last_place(s.count as nat) as usize;
    if is('q') {
        Action::Quit
    } else if is('?') {
        Action::ShowHelp
    } else if key.code == KeyCode::Right || is('l') || key.code == KeyCode::Tab {
        Action::Go(((s.page + 1) % 8) as usize, 0)
    } else if key.code == KeyCode::Left || is('h') || key.code == KeyCode::BackTab {
        Action::Go(((s.page + 7) % 8) as usize, 0)
    } else if key.code matches KeyCode::Char(c) && '1' <= c <= '8' {
        Action::Go((key.code->Char_0 as int - '1' as int) as usize, 0)
    } else if key.code == KeyCode::Up || is('k') {
        Action::Go(s.page, profile_editor::one_up(s.selected as int) as usize)
    } else if key.code == KeyCode::Down || is('j') {
        Action::Go(s.page, profile_editor::one_down(s.selected as int, s.count as nat) as usize)
    } else if key.code == KeyCode::Home {
        Action::Go(s.page, 0)
    } else if key.code == KeyCode::End {
        Action::Go(s.page, last)
    } else if key.code == KeyCode::Enter {
        Action::Enter
    } else if s.page == 2 && is('R') {
        Action::StartRename
    } else if s.page == 2 && is('e') {
        Action::OpenProfileEditor
    } else if s.page == 4 && (is('/') || is('s')) {
        Action::OpenSearch
    } else if s.page == 4 && s.repository && (key.code == KeyCode::Esc || is('b')) {
        Action::Back
    } else if s.page == 4 && is('i') {
        Action::ShowDetails
    } else if s.page == 4 && is('r') {
        Action::RepeatSearch
    } else if s.page == 4 && is('t') {
        Action::ToggleSearchMode
    } else if s.page == 3 && is('e') {
        Action::EditTemplate
    } else if s.page == 3 && is('a') {
        Action::AddTemplate
    } else if s.page == 3 && is('R') {
        Action::RenameTemplate
    } else if s.page == 3 && is('d') {
        Action::DeleteTemplate
    } else if is('r') {
        Action::Refresh
    } else if s.page == 1 {
        model_action(key)
    } else if s.page == 2 {
        profile_action(key)
    } else if s.page == 5 && (is('+') || is('=')) {
        Action::ToggleSetting(true)
    } else if s.page == 5 && is('-') {
        Action::ToggleSetting(false)
    } else {
        Action::Nothing
    }
}

/// What a letter asks for on the page of the models.
pub open spec fn model_action(key: Key) -> Action {
    let is = |c: char| key.code == KeyCode::Char(c);
    if is('c') {
        Action::CreateProfile
    } else if is('u') {
        Action::UnloadModel
    } else if is('d') {
        Action::DeleteModel
    } else {
        Action::Nothing
    }
}

/// What a letter asks for on the page of the profiles.
pub open spec fn profile_action(key: Key) -> Action {
    let is = |c: char| key.code == KeyCode::Char(c);
    if is('m') {
        Action::BenchmarkProfile
    } else if is('v') {
        Action::ShowBenchmarks
    } else if is('c') {
        Action::CloneProfile
    } else if is('d') {
        Action::DeleteProfile
    } else if is('p') {
        Action::PinProfile
    } else if is('b') {
        Action::BindProfile
    } else if is('+') || is('=') {
        Action::AdjustProfile('+')
    } else if is('-') || is('[') || is(']') || is('t') || is('f') || is('k') {
        Action::AdjustProfile(key.code->Char_0)
    } else if is('u') {
        Action::UnloadProfile
    } else {
        Action::Nothing
    }
}

/// What a key asks for: it goes to what is open, and else to the page.
pub open spec fn action_of(s: Screen, key: Key) -> Action {
    let is = |c: char| key.code == KeyCode::Char(c);
    if key.ctrl && is('c') {
        if s.benchmark is Some {
            Action::ToBenchmark
        } else if s.download {
            Action::CancelDownload
        } else {
            Action::Quit
        }
    } else if s.benchmark is Some {
        Action::ToBenchmark
    } else if s.download {
        if key.code == KeyCode::Esc || is('q') || is('c') {
            Action::CancelDownload
        } else {
            Action::Nothing
        }
    } else if s.confirm {
        Action::ToConfirm
    } else if s.template_view {
        Action::ToTemplateView
    } else if s.template_editor {
        Action::ToTemplateEditor
    } else if s.template_name {
        Action::ToTemplateName
    } else if s.template_delete {
        Action::ToTemplateDelete
    } else if s.details {
        Action::ToDetails
    } else if s.help {
        if key.code == KeyCode::Esc || key.code == KeyCode::Enter || is('q') || is('?') {
            Action::CloseHelp
        } else {
            Action::Nothing
        }
    } else if s.profile_delete {
        Action::ToProfileDelete
    } else if s.model_delete {
        Action::ToModelDelete
    } else if s.benchmark_view {
        Action::ToBenchmarkView
    } else if s.runtime_picker {
        Action::ToRuntimePicker
    } else if s.template_picker {
        Action::ToTemplatePicker
    } else if s.profile_editor is Some {
        Action::ToProfileEditor
    } else if s.rename {
        Action::ToRename
    } else if s.page == 4 && s.editing {
        Action::ToSearchInput
    } else {
        page_action(s, key)
    }
}

fn model_key(key: Key) -> (out: Action)
    ensures
        out == model_action(key),
{
    match key.code {
        KeyCode::Char('c') => Action::CreateProfile,
        KeyCode::Char('u') => Action::UnloadModel,
        KeyCode::Char('d') => Action::DeleteModel,
        _ => Action::Nothing,
    }
}

fn profile_key(key: Key) -> (out: Action)
    ensures
        out == profile_action(key),
{
    match key.code {
        KeyCode::Char('m') => Action::BenchmarkProfile,
        KeyCode::Char('v') => Action::ShowBenchmarks,
        KeyCode::Char('c') => Action::CloneProfile,
        KeyCode::Char('d') => Action::DeleteProfile,
        KeyCode::Char('p') => Action::PinProfile,
        KeyCode::Char('b') => Action::BindProfile,
        KeyCode::Char('+') | KeyCode::Char('=') => Action::AdjustProfile('+'),
        KeyCode::Char('-') => Action::AdjustProfile('-'),
        KeyCode::Char('[') => Action::AdjustProfile('['),
        KeyCode::Char(']') => Action::AdjustProfile(']'),
        KeyCode::Char('t') => Action::AdjustProfile('t'),
        KeyCode::Char('f') => Action::AdjustProfile('f'),
        KeyCode::Char('k') => Action::AdjustProfile('k'),
        KeyCode::Char('u') => Action::UnloadProfile,
        _ => Action::Nothing,
    }
}

fn key_is(key: Key, c: char) -> (yes: bool)
    ensures
        yes == (key.code == KeyCode::Char(c)),
{
    match key.code {
        KeyCode::Char(d) => d == c,
        _ => false,
    }
}

fn on_page(s: Screen, key: Key) -> (out: Action)
    requires
        s.page < 8,
    ensures
        out == page_action(s, key),
{
    match key.code {
        KeyCode::Right | KeyCode::Tab => return Action::Go((s.page + 1) % 8, 0),
        KeyCode::Left | KeyCode::BackTab => return Action::Go((s.page + 7) % 8, 0),
        KeyCode::Up => return Action::Go(s.page, profile_editor::up(s.selected)),
        KeyCode::Down => return Action::Go(s.page, profile_editor::down(s.selected, s.count)),
        KeyCode::Home => return Action::Go(s.page, 0),
        KeyCode::End => return Action::Go(
            s.page,
            if s.count > 0 {
                s.count - 1
            } else {
                0
            },
        ),
        KeyCode::Enter => return Action::Enter,
        KeyCode::Esc => return if s.page == 4 && s.repository {
            Action::Back
        } else {
            Action::Nothing
        },
        KeyCode::Char(c) => {
            if c == 'q' {
                return Action::Quit;
            }
            if c == '?' {
                return Action::ShowHelp;
            }
            if c == 'l' {
                return Action::Go((s.page + 1) % 8, 0);
            }
            if c == 'h' {
                return Action::Go((s.page + 7) % 8, 0);
            }
            if '1' <= c && c <= '8' {
                return Action::Go((c as u32 - '1' as u32) as usize, 0);
            }
            if c == 'k' {
                return Action::Go(s.page, profile_editor::up(s.selected));
            }
            if c == 'j' {
                return Action::Go(s.page, profile_editor::down(s.selected, s.count));
            }
        },
        _ => return Action::Nothing,
    }
    if s.page == 2 && key_is(key, 'R') {
        Action::StartRename
    } else if s.page == 2 && key_is(key, 'e') {
        Action::OpenProfileEditor
    } else if s.page == 4 && (key_is(key, '/') || key_is(key, 's')) {
        Action::OpenSearch
    } else if s.page == 4 && s.repository && key_is(key, 'b') {
        Action::Back
    } else if s.page == 4 && key_is(key, 'i') {
        Action::ShowDetails
    } else if s.page == 4 && key_is(key, 'r') {
        Action::RepeatSearch
    } else if s.page == 4 && key_is(key, 't') {
        Action::ToggleSearchMode
    } else if s.page == 3 && key_is(key, 'e') {
        Action::EditTemplate
    } else if s.page == 3 && key_is(key, 'a') {
        Action::AddTemplate
    } else if s.page == 3 && key_is(key, 'R') {
        Action::RenameTemplate
    } else if s.page == 3 && key_is(key, 'd') {
        Action::DeleteTemplate
    } else if key_is(key, 'r') {
        Action::Refresh
    } else if s.page == 1 {
        model_key(key)
    } else if s.page == 2 {
        profile_key(key)
    } else if s.page == 5 && (key_is(key, '+') || key_is(key, '=')) {
        Action::ToggleSetting(true)
    } else if s.page == 5 && key_is(key, '-') {
        Action::ToggleSetting(false)
    } else {
        Action::Nothing
    }
}

/// What a key asks for.
pub fn dispatch(s: Screen, key: Key) -> (out: Action)
    requires
        s.page < 8,
    ensures
        out == action_of(s, key),
{
    if key.ctrl && key_is(key, 'c') {
        if s.benchmark.is_some() {
            Action::ToBenchmark
        } else if s.download {
            Action::CancelDownload
        } else {
            Action::Quit
        }
    } else if s.benchmark.is_some() {
        Action::ToBenchmark
    } else if s.download {
        if key.code == KeyCode::Esc || key_is(key, 'q') || key_is(key, 'c') {
            Action::CancelDownload
        } else {
            Action::Nothing
        }
    } else if s.confirm {
        Action::ToConfirm
    } else if s.template_view {
        Action::ToTemplateView
    } else if s.template_editor {
        Action::ToTemplateEditor
    } else if s.template_name {
        Action::ToTemplateName
    } else if s.template_delete {
        Action::ToTemplateDelete
    } else if s.details {
        Action::ToDetails
    } else if s.help {
        if key.code == KeyCode::Esc || key.code == KeyCode::Enter || key_is(key, 'q') || key_is(
            key,
            '?',
        ) {
            Action::CloseHelp
        } else {
            Action::Nothing
        }
    } else if s.profile_delete {
        Action::ToProfileDelete
    } else if s.model_delete {
        Action::ToModelDelete
    } else if s.benchmark_view {
        Action::ToBenchmarkView
    } else if s.runtime_picker {
        Action::ToRuntimePicker
    } else if s.template_picker {
        Action::ToTemplatePicker
    } else if s.profile_editor.is_some() {
        Action::ToProfileEditor
    } else if s.rename {
        Action::ToRename
    } else if s.page == 4 && s.editing {
        Action::ToSearchInput
    } else {
        on_page(s, key)
    }
}

/// While something is open, no key leaves the program but the one that interrupts it, and
/// none changes the page.
pub proof fn open_dialogs_take_the_keys(s: Screen, key: Key)
    requires
        s.benchmark is Some || s.download || s.confirm || s.template_view || s.template_editor
            || s.template_name || s.template_delete || s.details || s.help || s.profile_delete
            || s.model_delete || s.benchmark_view || s.runtime_picker || s.template_picker
            || s.profile_editor is Some || s.rename,
        !(key.ctrl && key.code == KeyCode::Char('c')),
    ensures
        action_of(s, key) != Action::Quit,
        !(action_of(s, key) is Go),
{
}

/// A benchmark and a download are not left by any key: they are cancelled.
pub proof fn work_is_cancelled_first(s: Screen, key: Key)
    requires
        s.benchmark is Some || s.download,
    ensures
        action_of(s, key) != Action::Quit,
{
}

/// From every page the keys lead to a page that there is.
pub proof fn pages_exist(s: Screen, key: Key)
    requires
        s.page < 8,
    ensures
        match action_of(s, key) {
            Action::Go(page, _) => page < 8,
            _ => true,
        },
{
}

/// An answer to a question.
pub open spec fn answer_of(key: Key) -> Option<bool> {
    if key.code == KeyCode::Enter || key.code == KeyCode::Char('y') {
        Some(true)
    } else if key.code == KeyCode::Esc || key.code == KeyCode::Char('q') || key.code
        == KeyCode::Char('n') {
        Some(false)
    } else {
        None
    }
}

pub fn answer(key: Key) -> (out: Option<bool>)
    ensures
        out == answer_of(key),
{
    match key.code {
        KeyCode::Enter | KeyCode::Char('y') => Some(true),
        KeyCode::Esc | KeyCode::Char('q') | KeyCode::Char('n') => Some(false),
        _ => None,
    }
}

/// What a key asks of the dialog for a benchmark.
#[derive(Clone, Copy, Debug, PartialEq, Eq, Structural)]
pub enum BenchmarkAction {
    Nothing,
    Run,
    /// Leave the dialog.
    Close,
    /// Stop the benchmark that runs.
    Stop,
}

pub fn benchmark_action(running: bool, key: Key) -> (out: BenchmarkAction)
    ensures
        out == if running {
            if key.code == KeyCode::Esc || key.code == KeyCode::Char('q') || key.code
                == KeyCode::Char('c') {
                BenchmarkAction::Stop
            } else {
                BenchmarkAction::Nothing
            }
        } else {
            if key.code == KeyCode::Char('c') {
                BenchmarkAction::Close
            } else {
                match answer_of(key) {
                    Some(yes) => if yes {
                        BenchmarkAction::Run
                    } else {
                        BenchmarkAction::Close
                    },
                    None => BenchmarkAction::Nothing,
                }
            }
        },
{
    if running {
        return match key.code {
            KeyCode::Esc | KeyCode::Char('q') | KeyCode::Char('c') => BenchmarkAction::Stop,
            _ => BenchmarkAction::Nothing,
        };
    }
    match key.code {
        KeyCode::Enter | KeyCode::Char('y') => BenchmarkAction::Run,
        KeyCode::Esc | KeyCode::Char('q') | KeyCode::Char('n') | KeyCode::Char('c') => {
            BenchmarkAction::Close
        },
        _ => BenchmarkAction::Nothing,
    }
}

/// How many entries a page has.
pub fn entry_count(
    page: usize,
    models: usize,
    profiles: usize,
    templates: usize,
    found: usize,
) -> (out: usize)
    ensures
        out == match page {
            1 => models,
            2 => profiles,
            3 => templates,
            4 => found,
            5 => 12,
            7 => 4,
            _ => 1,
        },
{
    match page {
        1 => models,
        2 => profiles,
        3 => templates,
        4 => found,
        5 => 12,
        7 => 4,
        _ => 1,
    }
}

/// What is done where an entry of a page is entered.
#[derive(Clone, Copy, Debug, PartialEq, Eq, Structural)]
pub enum EnterAction {
    StopServer,
    StartServer,
    /// Load the model through the scheduler.
    LoadModel,
    /// Start a server for the model.
    StartModel,
    LoadProfile,
    EditTemplate,
    AddTemplate,
    SearchEntry,
    ChangeSetting,
    CheckUpdates,
    UpdateLlama,
    UpdateSwap,
    InstallService,
    LlamaCurrent,
    SwapCurrent,
    UseArrows,
    UseShortcuts,
}

/// What is done where an entry is entered. `running` says whether a server runs, `swap`
/// whether it is the scheduler, and `updates` whether there are newer versions of the server
/// and of the scheduler.
pub open spec fn enter_of(
    page: usize,
    selected: usize,
    running: bool,
    swap: bool,
    updates: (bool, bool),
    template: bool,
) -> EnterAction {
    match page {
        0 => if running {
            EnterAction::StopServer
        } else {
            EnterAction::StartServer
        },
        1 => if running && swap {
            EnterAction::LoadModel
        } else {
            EnterAction::StartModel
        },
        2 => EnterAction::LoadProfile,
        3 => if template {
            EnterAction::EditTemplate
        } else {
            EnterAction::AddTemplate
        },
        4 => EnterAction::SearchEntry,
        5 => EnterAction::ChangeSetting,
        7 => match selected {
            0 => EnterAction::CheckUpdates,
            1 => if updates.0 {
                EnterAction::UpdateLlama
            } else {
                EnterAction::LlamaCurrent
            },
            2 => if updates.1 {
                EnterAction::UpdateSwap
            } else {
                EnterAction::SwapCurrent
            },
            3 => EnterAction::InstallService,
            _ => EnterAction::UseArrows,
        },
        _ => EnterAction::UseShortcuts,
    }
}

pub fn enter(
    page: usize,
    selected: usize,
    running: bool,
    swap: bool,
    updates: (bool, bool),
    template: bool,
) -> (out: EnterAction)
    ensures
        out == enter_of(page, selected, running, swap, updates, template),
{
    match page {
        0 => if running {
            EnterAction::StopServer
        } else {
            EnterAction::StartServer
        },
        1 => if running && swap {
            EnterAction::LoadModel
        } else {
            EnterAction::StartModel
        },
        2 => EnterAction::LoadProfile,
        3 => if template {
            EnterAction::EditTemplate
        } else {
            EnterAction::AddTemplate
        },
        4 => EnterAction::SearchEntry,
        5 => EnterAction::ChangeSetting,
        7 => match selected {
            0 => EnterAction::CheckUpdates,
            1 => if updates.0 {
                EnterAction::UpdateLlama
            } else {
                EnterAction::LlamaCurrent
            },
            2 => if updates.1 {
                EnterAction::UpdateSwap
            } else {
                EnterAction::SwapCurrent
            },
            3 => EnterAction::InstallService,
            _ => EnterAction::UseArrows,
        },
        _ => EnterAction::UseShortcuts,
    }
}

/// What is done where an entry of the search is entered.
#[derive(Clone, Copy, Debug, PartialEq, Eq, Structural)]
pub enum SearchAction {
    Wait,
    ShowTemplate,
    OpenSearch,
    NoArtifact,
    Incomplete,
    /// Ask whether the model is to be fetched.
    Confirm,
    /// The identifier of the repository names no owner.
    BadRepository,
    OpenRepository,
}

/// What is done where an entry of the search is entered. `hit` says whether a template is
/// selected, `artifact` whether a model is and whether all its parts are there, and `split`
/// whether the identifier of the repository names an owner.
pub open spec fn search_action_of(
    busy: bool,
    s: Screen,
    hit: bool,
    artifact: Option<bool>,
    split: bool,
) -> SearchAction {
    if busy {
        SearchAction::Wait
    } else if s.search_templates {
        if hit {
            SearchAction::ShowTemplate
        } else {
            SearchAction::OpenSearch
        }
    } else if s.repository {
        match artifact {
            None => SearchAction::NoArtifact,
            Some(complete) => if !complete {
                SearchAction::Incomplete
            } else if !split {
                SearchAction::BadRepository
            } else {
                SearchAction::Confirm
            },
        }
    } else if s.repositories {
        SearchAction::OpenRepository
    } else {
        SearchAction::OpenSearch
    }
}

pub fn search_action(busy: bool, s: Screen, hit: bool, artifact: Option<bool>, split: bool) -> (out:
    SearchAction)
    ensures
        out == search_action_of(busy, s, hit, artifact, split),
{
    if busy {
        SearchAction::Wait
    } else if s.search_templates {
        if hit {
            SearchAction::ShowTemplate
        } else {
            SearchAction::OpenSearch
        }
    } else if s.repository {
        match artifact {
            None => SearchAction::NoArtifact,
            Some(complete) => if !complete {
                SearchAction::Incomplete
            } else if !split {
                SearchAction::BadRepository
            } else {
                SearchAction::Confirm
            },
        }
    } else if s.repositories {
        SearchAction::OpenRepository
    } else {
        SearchAction::OpenSearch
    }
}

/// The keys of what is open over the page, with what they do.
pub open spec fn dialog_keys(s: Screen) -> Seq<(Seq<char>, Seq<char>)> {
    if s.benchmark == Some(false) {
        seq![
            ("Enter/y"@, "run"@),
            ("Esc/q/n"@, "cancel"@),
        ]
    } else if s.benchmark == Some(true) {
        seq![
            ("Esc/q/c"@, "cancel benchmark"@),
        ]
    } else if s.download {
        seq![
            ("Esc/q/c"@, "cancel download"@),
        ]
    } else if s.confirm {
        seq![
            ("Enter/y"@, "download"@),
            ("Esc/q/n"@, "cancel"@),
        ]
    } else if s.details {
        seq![
            ("↑↓/jk"@, "scroll"@),
            ("PgUp/PgDn"@, "page"@),
            ("Home/End"@, "first/last"@),
            ("Enter/Esc/q/i"@, "close details"@),
        ]
    } else if s.help {
        seq![
            ("Enter/Esc/q/?"@, "close controls"@),
        ]
    } else if s.editing {
        seq![
            ("Enter"@, "search"@),
            ("Esc"@, "cancel"@),
            ("←→"@, "move"@),
            ("Backspace"@, "delete"@),
        ]
    } else if s.template_view {
        seq![
            ("↑↓/jk"@, "scroll"@),
            ("PgUp/PgDn"@, "page"@),
            ("Home/End"@, "first/last"@),
            ("s"@, "save to library"@),
            ("Esc/q/i"@, "close"@),
        ]
    } else if s.template_editor {
        seq![
            ("Ctrl+S"@, "save"@),
            ("Esc"@, "cancel"@),
            ("↑↓/←→"@, "move cursor"@),
            ("Enter"@, "new line"@),
            ("Backspace"@, "delete"@),
        ]
    } else if s.template_name {
        seq![
            ("Enter"@, "confirm"@),
            ("Esc"@, "cancel"@),
        ]
    } else if s.template_delete || s.model_delete || s.profile_delete {
        seq![
            ("Enter/y"@, "delete"@),
            ("Esc/q/n"@, "cancel"@),
        ]
    } else if s.benchmark_view {
        seq![
            ("Enter/Esc"@, "close"@),
        ]
    } else if s.runtime_picker {
        seq![
            ("↑↓/jk"@, "select"@),
            ("Home/End"@, "first/last"@),
            ("Enter"@, "confirm"@),
            ("Esc/q"@, "cancel"@),
        ]
    } else if s.template_picker {
        seq![
            ("↑↓/jk"@, "select"@),
            ("Home/End"@, "first/last"@),
            ("Enter"@, "apply"@),
            ("Esc/q"@, "cancel"@),
        ]
    } else if s.profile_editor == Some(true) {
        seq![
            ("Enter"@, "confirm"@),
            ("Esc"@, "cancel"@),
            ("←→"@, "move"@),
            ("Backspace"@, "delete"@),
        ]
    } else if s.profile_editor == Some(false) {
        seq![
            ("↑↓/jk"@, "field"@),
            ("←→/hl"@, "value"@),
            ("t"@, "exact"@),
            ("e"@, "flags"@),
            ("Enter/s"@, "save"@),
            ("Esc/q"@, "cancel"@),
        ]
    } else if s.rename {
        seq![
            ("Enter"@, "confirm"@),
            ("Esc"@, "cancel"@),
            ("←→"@, "cursor"@),
        ]
    } else {
        page_keys_of(s)
    }
}

/// The keys of a page, with what they do.
pub open spec fn page_keys_of(s: Screen) -> Seq<(Seq<char>, Seq<char>)> {
    if s.page == 0 {
        seq![
            ("Enter"@, "start/stop"@),
            ("r"@, "refresh"@),
            ("?"@, "controls"@),
            ("q"@, "quit"@),
        ]
    } else if s.page == 1 {
        seq![
            ("Enter"@, "load model"@),
            ("c"@, "create profile"@),
            ("u"@, "unload"@),
            ("d"@, "delete"@),
            ("r"@, "refresh"@),
            ("?"@, "controls"@),
            ("q"@, "quit"@),
        ]
    } else if s.page == 2 {
        seq![
            ("Enter"@, "load"@),
            ("m/v"@, "benchmark/results"@),
            ("e/R/c/d"@, "edit/rename/clone/delete"@),
            ("b/p/u"@, "bind/pin/unload"@),
            ("+/-/[]"@, "context/slots"@),
            ("t/f/k"@, "split/flash/cache"@),
            ("r"@, "refresh"@),
            ("?"@, "controls"@),
            ("q"@, "quit"@),
        ]
    } else if s.page == 5 {
        seq![
            ("Enter/+/-"@, "change"@),
            ("r"@, "refresh"@),
            ("?"@, "controls"@),
            ("q"@, "quit"@),
        ]
    } else if s.page == 6 {
        seq![
            ("r"@, "refresh"@),
            ("?"@, "controls"@),
            ("q"@, "quit"@),
        ]
    } else if s.page == 7 {
        seq![
            ("Enter"@, "run action"@),
            ("r"@, "refresh"@),
            ("?"@, "controls"@),
            ("q"@, "quit"@),
        ]
    } else if s.page == 4 && s.search_templates && s.hits {
        seq![
            ("Enter"@, "open template"@),
            ("/ or s"@, "search"@),
            ("t"@, "GGUF mode"@),
            ("r"@, "repeat search"@),
            ("?"@, "controls"@),
            ("q"@, "quit"@),
        ]
    } else if s.page == 4 && s.search_templates {
        seq![
            ("Enter, /, or s"@, "search"@),
            ("t"@, "GGUF mode"@),
            ("?"@, "controls"@),
            ("q"@, "quit"@),
        ]
    } else if s.page == 4 && s.repository {
        seq![
            ("Enter"@, "review download"@),
            ("i"@, "model card"@),
            ("b/Esc"@, "back"@),
            ("t"@, "template mode"@),
            ("r"@, "reload"@),
            ("?"@, "controls"@),
            ("q"@, "quit"@),
        ]
    } else if s.page == 4 && !s.repositories {
        seq![
            ("Enter, /, or s"@, "search"@),
            ("t"@, "template mode"@),
            ("?"@, "controls"@),
            ("q"@, "quit"@),
        ]
    } else if s.page == 4 {
        seq![
            ("/ or s"@, "search"@),
            ("Enter"@, "open repository"@),
            ("i"@, "model card"@),
            ("t"@, "template mode"@),
            ("r"@, "repeat search"@),
            ("?"@, "controls"@),
            ("q"@, "quit"@),
        ]
    } else if s.page == 3 {
        seq![
            ("Enter/e"@, "edit"@),
            ("a"@, "add"@),
            ("R"@, "rename"@),
            ("d"@, "delete"@),
            ("r"@, "refresh"@),
            ("?"@, "controls"@),
            ("q"@, "quit"@),
        ]
    } else {
        seq![
            ("Enter"@, "act"@),
            ("?"@, "controls"@),
            ("q"@, "quit"@),
        ]
    }
}

pub open spec fn key_views(list: Seq<(&'static str, &'static str)>) -> Seq<(Seq<char>, Seq<char>)> {
    list.map_values(|k: (&'static str, &'static str)| (k.0@, k.1@))
}

fn listed(list: &[(&'static str, &'static str)]) -> (out: Vec<(&'static str, &'static str)>)
    ensures
        out@ == list@,
{
    let mut out: Vec<(&'static str, &'static str)> = Vec::new();
    let mut i: usize = 0;
    while i < list.len()
        invariant
            i <= list@.len(),
            out@ == list@.take(i as int),
        decreases list@.len() - i,
    {
        out.push(list[i]);
        proof {
            assert(list@.take(i + 1) =~= list@.take(i as int).push(list@[i as int]));
        }
        i += 1;
    }
    proof {
        assert(list@.take(list@.len() as int) =~= list@);
    }
    out
}

fn shows(open: Option<bool>, what: bool) -> (yes: bool)
    ensures
        yes == (open == Some(what)),
{
    match open {
        Some(b) => b == what,
        None => false,
    }
}

fn keys_on_page(s: Screen) -> (out: Vec<(&'static str, &'static str)>)
    ensures
        key_views(out@) == page_keys_of(s),
{
    if s.page == 0 {
        let list: [(&'static str, &'static str); 4] = [
            ("Enter", "start/stop"),
            ("r", "refresh"),
            ("?", "controls"),
            ("q", "quit"),
        ];
        proof {
            assert(key_views(list@) =~= page_keys_of(s));
        }
        listed(&list)
    } else if s.page == 1 {
        let list: [(&'static str, &'static str); 7] = [
            ("Enter", "load model"),
            ("c", "create profile"),
            ("u", "unload"),
            ("d", "delete"),
            ("r", "refresh"),
            ("?", "controls"),
            ("q", "quit"),
        ];
        proof {
            assert(key_views(list@) =~= page_keys_of(s));
        }
        listed(&list)
    } else if s.page == 2 {
        let list: [(&'static str, &'static str); 9] = [
            ("Enter", "load"),
            ("m/v", "benchmark/results"),
            ("e/R/c/d", "edit/rename/clone/delete"),
            ("b/p/u", "bind/pin/unload"),
            ("+/-/[]", "context/slots"),
            ("t/f/k", "split/flash/cache"),
            ("r", "refresh"),
            ("?", "controls"),
            ("q", "quit"),
        ];
        proof {
            assert(key_views(list@) =~= page_keys_of(s));
        }
        listed(&list)
    } else if s.page == 5 {
        let list: [(&'static str, &'static str); 4] = [
            ("Enter/+/-", "change"),
            ("r", "refresh"),
            ("?", "controls"),
            ("q", "quit"),
        ];
        proof {
            assert(key_views(list@) =~= page_keys_of(s));
        }
        listed(&list)
    } else if s.page == 6 {
        let list: [(&'static str, &'static str); 3] = [
            ("r", "refresh"),
            ("?", "controls"),
            ("q", "quit"),
        ];
        proof {
            assert(key_views(list@) =~= page_keys_of(s));
        }
        listed(&list)
    } else if s.page == 7 {
        let list: [(&'static str, &'static str); 4] = [
            ("Enter", "run action"),
            ("r", "refresh"),
            ("?", "controls"),
            ("q", "quit"),
        ];
        proof {
            assert(key_views(list@) =~= page_keys_of(s));
        }
        listed(&list)
    } else if s.page == 4 && s.search_templates && s.hits {
        let list: [(&'static str, &'static str); 6] = [
            ("Enter", "open template"),
            ("/ or s", "search"),
            ("t", "GGUF mode"),
            ("r", "repeat search"),
            ("?", "controls"),
            ("q", "quit"),
        ];
        proof {
            assert(key_views(list@) =~= page_keys_of(s));
        }
        listed(&list)
    } else if s.page == 4 && s.search_templates {
        let list: [(&'static str, &'static str); 4] = [
            ("Enter, /, or s", "search"),
            ("t", "GGUF mode"),
            ("?", "controls"),
            ("q", "quit"),
        ];
        proof {
            assert(key_views(list@) =~= page_keys_of(s));
        }
        listed(&list)
    } else if s.page == 4 && s.repository {
        let list: [(&'static str, &'static str); 7] = [
            ("Enter", "review download"),
            ("i", "model card"),
            ("b/Esc", "back"),
            ("t", "template mode"),
            ("r", "reload"),
            ("?", "controls"),
            ("q", "quit"),
        ];
        proof {
            assert(key_views(list@) =~= page_keys_of(s));
        }
        listed(&list)
    } else if s.page == 4 && !s.repositories {
        let list: [(&'static str, &'static str); 4] = [
            ("Enter, /, or s", "search"),
            ("t", "template mode"),
            ("?", "controls"),
            ("q", "quit"),
        ];
        proof {
            assert(key_views(list@) =~= page_keys_of(s));
        }
        listed(&list)
    } else if s.page == 4 {
        let list: [(&'static str, &'static str); 7] = [
            ("/ or s", "search"),
            ("Enter", "open repository"),
            ("i", "model card"),
            ("t", "template mode"),
            ("r", "repeat search"),
            ("?", "controls"),
            ("q", "quit"),
        ];
        proof {
            assert(key_views(list@) =~= page_keys_of(s));
        }
        listed(&list)
    } else if s.page == 3 {
        let list: [(&'static str, &'static str); 7] = [
            ("Enter/e", "edit"),
            ("a", "add"),
            ("R", "rename"),
            ("d", "delete"),
            ("r", "refresh"),
            ("?", "controls"),
            ("q", "quit"),
        ];
        proof {
            assert(key_views(list@) =~= page_keys_of(s));
        }
        listed(&list)
    } else {
        let list: [(&'static str, &'static str); 3] = [
            ("Enter", "act"),
            ("?", "controls"),
            ("q", "quit"),
        ];
        proof {
            assert(key_views(list@) =~= page_keys_of(s));
        }
        listed(&list)
    }
}

/// The keys that can be pressed, with what they do.
pub fn page_keys(s: Screen) -> (out: Vec<(&'static str, &'static str)>)
    ensures
        key_views(out@) == dialog_keys(s),
{
    if shows(s.benchmark, false) {
        let list: [(&'static str, &'static str); 2] = [
            ("Enter/y", "run"),
            ("Esc/q/n", "cancel"),
        ];
        proof {
            assert(key_views(list@) =~= dialog_keys(s));
        }
        listed(&list)
    } else if shows(s.benchmark, true) {
        let list: [(&'static str, &'static str); 1] = [
            ("Esc/q/c", "cancel benchmark"),
        ];
        proof {
            assert(key_views(list@) =~= dialog_keys(s));
        }
        listed(&list)
    } else if s.download {
        let list: [(&'static str, &'static str); 1] = [
            ("Esc/q/c", "cancel download"),
        ];
        proof {
            assert(key_views(list@) =~= dialog_keys(s));
        }
        listed(&list)
    } else if s.confirm {
        let list: [(&'static str, &'static str); 2] = [
            ("Enter/y", "download"),
            ("Esc/q/n", "cancel"),
        ];
        proof {
            assert(key_views(list@) =~= dialog_keys(s));
        }
        listed(&list)
    } else if s.details {
        let list: [(&'static str, &'static str); 4] = [
            ("↑↓/jk", "scroll"),
            ("PgUp/PgDn", "page"),
            ("Home/End", "first/last"),
            ("Enter/Esc/q/i", "close details"),
        ];
        proof {
            assert(key_views(list@) =~= dialog_keys(s));
        }
        listed(&list)
    } else if s.help {
        let list: [(&'static str, &'static str); 1] = [
            ("Enter/Esc/q/?", "close controls"),
        ];
        proof {
            assert(key_views(list@) =~= dialog_keys(s));
        }
        listed(&list)
    } else if s.editing {
        let list: [(&'static str, &'static str); 4] = [
            ("Enter", "search"),
            ("Esc", "cancel"),
            ("←→", "move"),
            ("Backspace", "delete"),
        ];
        proof {
            assert(key_views(list@) =~= dialog_keys(s));
        }
        listed(&list)
    } else if s.template_view {
        let list: [(&'static str, &'static str); 5] = [
            ("↑↓/jk", "scroll"),
            ("PgUp/PgDn", "page"),
            ("Home/End", "first/last"),
            ("s", "save to library"),
            ("Esc/q/i", "close"),
        ];
        proof {
            assert(key_views(list@) =~= dialog_keys(s));
        }
        listed(&list)
    } else if s.template_editor {
        let list: [(&'static str, &'static str); 5] = [
            ("Ctrl+S", "save"),
            ("Esc", "cancel"),
            ("↑↓/←→", "move cursor"),
            ("Enter", "new line"),
            ("Backspace", "delete"),
        ];
        proof {
            assert(key_views(list@) =~= dialog_keys(s));
        }
        listed(&list)
    } else if s.template_name {
        let list: [(&'static str, &'static str); 2] = [
            ("Enter", "confirm"),
            ("Esc", "cancel"),
        ];
        proof {
            assert(key_views(list@) =~= dialog_keys(s));
        }
        listed(&list)
    } else if s.template_delete || s.model_delete || s.profile_delete {
        let list: [(&'static str, &'static str); 2] = [
            ("Enter/y", "delete"),
            ("Esc/q/n", "cancel"),
        ];
        proof {
            assert(key_views(list@) =~= dialog_keys(s));
        }
        listed(&list)
    } else if s.benchmark_view {
        let list: [(&'static str, &'static str); 1] = [
            ("Enter/Esc", "close"),
        ];
        proof {
            assert(key_views(list@) =~= dialog_keys(s));
        }
        listed(&list)
    } else if s.runtime_picker {
        let list: [(&'static str, &'static str); 4] = [
            ("↑↓/jk", "select"),
            ("Home/End", "first/last"),
            ("Enter", "confirm"),
            ("Esc/q", "cancel"),
        ];
        proof {
            assert(key_views(list@) =~= dialog_keys(s));
        }
        listed(&list)
    } else if s.template_picker {
        let list: [(&'static str, &'static str); 4] = [
            ("↑↓/jk", "select"),
            ("Home/End", "first/last"),
            ("Enter", "apply"),
            ("Esc/q", "cancel"),
        ];
        proof {
            assert(key_views(list@) =~= dialog_keys(s));
        }
        listed(&list)
    } else if shows(s.profile_editor, true) {
        let list: [(&'static str, &'static str); 4] = [
            ("Enter", "confirm"),
            ("Esc", "cancel"),
            ("←→", "move"),
            ("Backspace", "delete"),
        ];
        proof {
            assert(key_views(list@) =~= dialog_keys(s));
        }
        listed(&list)
    } else if shows(s.profile_editor, false) {
        let list: [(&'static str, &'static str); 6] = [
            ("↑↓/jk", "field"),
            ("←→/hl", "value"),
            ("t", "exact"),
            ("e", "flags"),
            ("Enter/s", "save"),
            ("Esc/q", "cancel"),
        ];
        proof {
            assert(key_views(list@) =~= dialog_keys(s));
        }
        listed(&list)
    } else if s.rename {
        let list: [(&'static str, &'static str); 3] = [
            ("Enter", "confirm"),
            ("Esc", "cancel"),
            ("←→", "cursor"),
        ];
        proof {
            assert(key_views(list@) =~= dialog_keys(s));
        }
        listed(&list)
    } else {
        keys_on_page(s)
    }
}

/// Whether a model is shown under a filter: its identifier or its path holds it, whatever
/// the case.
pub open spec fn shows_model(id: Seq<char>, relative: Seq<char>, filter: Seq<char>) -> bool {
    filter.len() == 0 || text::holds(pattern::lowercase(id), pattern::lowercase(filter))
        || text::holds(pattern::lowercase(relative), pattern::lowercase(filter))
}

/// The places of those of the first `n` models that are shown.
pub open spec fn shown_models(models: Seq<Model>, filter: Seq<char>, n: nat) -> Seq<int>
    decreases n,
{
    if n == 0 {
        seq![]
    } else {
        let earlier = shown_models(models, filter, (n - 1) as nat);
        if shows_model(models[n - 1].id@, models[n - 1].relative@, filter) {
            earlier.push(n - 1)
        } else {
            earlier
        }
    }
}

/// The places of the models that are shown under a filter.
pub fn visible_models(models: &Vec<Model>, filter: &str) -> (out: Vec<usize>)
    ensures
        out@.map_values(|i: usize| i as int) == shown_models(models@, filter@, models@.len()),
{
    let mut out: Vec<usize> = Vec::new();
    let wanted: String = pattern::to_lowercase(filter);
    let none: bool = text::chars_of(filter).len() == 0;
    let mut i: usize = 0;
    proof {
        assert(out@.map_values(|i: usize| i as int) =~= seq![]);
    }
    while i < models.len()
        invariant
            i <= models@.len(),
            wanted@ == pattern::lowercase(filter@),
            none == (filter@.len() == 0),
            out@.map_values(|i: usize| i as int) == shown_models(models@, filter@, i as nat),
        decreases models@.len() - i,
    {
        let fits: bool = none || text::contains(
            pattern::to_lowercase(models[i].id.as_str()).as_str(),
            wanted.as_str(),
        ) || text::contains(
            pattern::to_lowercase(models[i].relative.as_str()).as_str(),
            wanted.as_str(),
        );
        if fits {
            let ghost before = out@;
            out.push(i);
            proof {
                assert(out@.map_values(|i: usize| i as int) =~= before.map_values(
                    |i: usize| i as int,
                ).push(i as int));
            }
        }
        i += 1;
    }
    out
}

/// What a setting shows.
pub enum SettingValue {
    Text(String),
    Boolean { checked: bool, detail: String },
}

#[verifier::ext_equal]
pub ghost enum SettingView {
    Text(Seq<char>),
    Boolean(bool, Seq<char>),
}

impl View for SettingValue {
    type V = SettingView;

    open spec fn view(&self) -> SettingView {
        match self {
            SettingValue::Text(s) => SettingView::Text(s@),
            SettingValue::Boolean { checked, detail } => SettingView::Boolean(*checked, detail@),
        }
    }
}

pub open spec fn setting_views(list: Seq<(&'static str, SettingValue)>) -> Seq<
    (Seq<char>, SettingView),
> {
    list.map_values(|p: (&'static str, SettingValue)| (p.0@, p.1@))
}

/// The settings that are shown. `lan` is the address of the machine, `fraction` the share of
/// the memory that the scheduler uses, and `boot` whether the server is started with the
/// machine.
pub open spec fn settings_of(c: ConfigView, lan: Seq<char>, fraction: Seq<char>, boot: bool) -> Seq<
    (Seq<char>, SettingView),
> {
    let local = c.host == "127.0.0.1"@;
    seq![
        (
            "LAN access"@,
            SettingView::Boolean(
                !local,
                if local {
                    "localhost only"@
                } else {
                    "- "@ + lan
                },
            ),
        ),
        ("API port"@, SettingView::Text(text::decimal_of(c.port as nat))),
        ("Telemetry sidecar port"@, SettingView::Text(text::decimal_of(c.telemetry_port as nat))),
        ("Runtime"@, SettingView::Text(c.runtime)),
        ("Target"@, SettingView::Text(c.backend)),
        ("Context size"@, SettingView::Text(text::decimal_of(c.ctx_size as nat))),
        ("Scheduler"@, SettingView::Boolean(c.scheduler_enabled, ""@)),
        ("Scheduler VRAM fraction"@, SettingView::Text(fraction)),
        (
            "Pinned models"@,
            SettingView::Text(
                if c.scheduler_pinned_models.len() == 0 {
                    "—"@
                } else {
                    text::joined(c.scheduler_pinned_models, ", "@)
                },
            ),
        ),
        ("Advertise base models"@, SettingView::Boolean(c.advertise_base_models, ""@)),
        ("Advertise profiles"@, SettingView::Boolean(c.advertise_profiles, ""@)),
        ("Start on boot"@, SettingView::Boolean(boot, ""@)),
    ]
}

fn text_setting(s: &str) -> (out: SettingValue)
    ensures
        out@ == SettingView::Text(s@),
{
    SettingValue::Text(s.to_owned())
}

fn switch_setting(checked: bool, detail: &str) -> (out: SettingValue)
    ensures
        out@ == SettingView::Boolean(checked, detail@),
{
    SettingValue::Boolean { checked, detail: detail.to_owned() }
}

fn add_setting(out: &mut Vec<(&'static str, SettingValue)>, label: &'static str, value: SettingValue)
    ensures
        setting_views(final(out)@) == setting_views(old(out)@).push((label@, value@)),
{
    out.push((label, value));
    proof {
        assert(setting_views(out@) =~= setting_views(old(out)@).push((label@, value@)));
    }
}

/// The settings that are shown.
pub fn settings(c: &Config, lan: &str, fraction: &str, boot: bool) -> (out: Vec<
    (&'static str, SettingValue),
>)
    ensures
        setting_views(out@) == settings_of(c@, lan@, fraction@, boot),
{
    let mut out: Vec<(&'static str, SettingValue)> = Vec::new();
    proof {
        assert(setting_views(out@) =~= seq![]);
        assert(text::views(c.scheduler_pinned_models@).len() == c.scheduler_pinned_models@.len());
    }
    if text::same(c.host.as_str(), "127.0.0.1") {
        add_setting(&mut out, "LAN access", switch_setting(false, "localhost only"));
    } else {
        let mut detail: String = "- ".to_owned();
        detail.append(lan);
        add_setting(&mut out, "LAN access", switch_setting(true, detail.as_str()));
    }
    add_setting(&mut out, "API port", SettingValue::Text(text::decimal(c.port as u64)));
    add_setting(
        &mut out,
        "Telemetry sidecar port",
        SettingValue::Text(text::decimal(c.telemetry_port as u64)),
    );
    add_setting(&mut out, "Runtime", text_setting(c.runtime.as_str()));
    add_setting(&mut out, "Target", text_setting(c.backend.as_str()));
    add_setting(&mut out, "Context size", SettingValue::Text(text::decimal(c.ctx_size)));
    add_setting(&mut out, "Scheduler", switch_setting(c.scheduler_enabled, ""));
    add_setting(&mut out, "Scheduler VRAM fraction", text_setting(fraction));
    let pinned: String = if c.scheduler_pinned_models.len() == 0 {
        "—".to_owned()
    } else {
        text::join(c.scheduler_pinned_models.as_slice(), ", ")
    };
    add_setting(&mut out, "Pinned models", SettingValue::Text(pinned));
    add_setting(&mut out, "Advertise base models", switch_setting(c.advertise_base_models, ""));
    add_setting(&mut out, "Advertise profiles", switch_setting(c.advertise_profiles, ""));
    add_setting(&mut out, "Start on boot", switch_setting(boot, ""));
    proof {
        assert(setting_views(out@) =~= settings_of(c@, lan@, fraction@, boot));
    }
    out
}

/// What has to be done after a setting was changed.
#[derive(Clone, Copy, Debug, PartialEq, Eq, Structural)]
pub enum SettingRequest {
    /// Save the settings.
    Save,
    /// Let a runtime be picked.
    PickRuntime,
    /// Change the share of the memory, and save the settings.
    Fraction,
    /// Change whether the server is started with the machine.
    StartOnBoot,
    /// The setting has to be typed.
    Typed,
}

/// A number as a signed one, as a cast makes it.
pub open spec fn signed(n: u64) -> int {
    if n <= i64::MAX {
        n as int
    } else {
        n - 0x1_0000_0000_0000_0000
    }
}

/// A context that is one step larger or smaller, at least 1024; `None` where it is too
/// large to be stepped.
pub open spec fn stepped_context(n: u64, step: u64, up: bool) -> Option<u64> {
    let next = if up {
        signed(n) + step
    } else {
        signed(n) - step
    };
    if next < i64::MIN || next > i64::MAX {
        None
    } else if next < 1024 {
        Some(1024)
    } else {
        Some(next as u64)
    }
}

pub fn step_context(n: u64, step: u64, up: bool) -> (out: Option<u64>)
    requires
        step <= 65_536,
    ensures
        out == stepped_context(n, step, up),
{
    let most: u64 = i64::MAX as u64;
    if n <= most {
        if up {
            if n > most - step {
                None
            } else if n + step < 1024 {
                Some(1024)
            } else {
                Some(n + step)
            }
        } else if n < step || n - step < 1024 {
            Some(1024)
        } else {
            Some(n - step)
        }
    } else if up {
        let below: u64 = u64::MAX - n + 1;
        if step > below && step - below >= 1024 {
            Some(step - below)
        } else {
            Some(1024)
        }
    } else if n - most - 1 < step {
        None
    } else {
        Some(1024)
    }
}

/// The settings after one of them was changed, and what has to be done; `None` where the
/// context is too large to be stepped.
pub open spec fn toggled(c: ConfigView, selected: usize, up: bool, step: u64) -> Option<
    (ConfigView, SettingRequest),
> {
    let save = SettingRequest::Save;
    match selected {
        0 => Some(
            (
                ConfigView {
                    host: if c.host == "127.0.0.1"@ {
                        "0.0.0.0"@
                    } else {
                        "127.0.0.1"@
                    },
                    ..c
                },
                save,
            ),
        ),
        3 => Some((c, SettingRequest::PickRuntime)),
        4 => Some((ConfigView { backend: next_backend(c.backend, up), ..c }, save)),
        5 => match stepped_context(c.ctx_size, step, up) {
            Some(ctx_size) => Some((ConfigView { ctx_size, ..c }, save)),
            None => None,
        },
        6 => Some((ConfigView { scheduler_enabled: !c.scheduler_enabled, ..c }, save)),
        7 => Some((c, SettingRequest::Fraction)),
        9 => Some((ConfigView { advertise_base_models: !c.advertise_base_models, ..c }, save)),
        10 => Some((ConfigView { advertise_profiles: !c.advertise_profiles, ..c }, save)),
        11 => Some((c, SettingRequest::StartOnBoot)),
        _ => Some((c, SettingRequest::Typed)),
    }
}

/// The backend that comes next, or before; the first one stands for one that there is not.
pub open spec fn next_backend(current: Seq<char>, up: bool) -> Seq<char> {
    let list = config::backends();
    let found = text::run(list, profile_editor::another(current)) as int;
    let at = if found < list.len() {
        found
    } else {
        0
    };
    list[(at + if up {
        1int
    } else {
        -1int
    }) % (list.len() as int)]
}

fn turn_backend(current: &str, up: bool) -> (out: String)
    ensures
        out@ == next_backend(current@, up),
{
    let list: Vec<String> = config::backend_names();
    proof {
        assert(text::views(list@).len() == list@.len());
    }
    let at: usize = match profile_editor::position(&list, current) {
        Some(i) => i,
        None => 0,
    };
    let next: usize = profile_editor::rotate(
        at,
        list.len(),
        if up {
            1
        } else {
            -1
        },
    );
    proof {
        assert(text::views(list@)[next as int] == list@[next as int]@);
    }
    list[next].clone()
}

/// Changes the selected setting, and says what has to be done.
pub fn toggle_setting(c: &mut Config, selected: usize, up: bool, step: u64) -> (out: Option<
    SettingRequest,
>)
    requires
        step <= 65_536,
    ensures
        match (out, toggled(old(c)@, selected, up, step)) {
            (Some(r), Some((v, q))) => r == q && final(c)@ == v,
            (None, None) => final(c)@ == old(c)@,
            _ => false,
        },
{
    match selected {
        0 => {
            c.host = if text::same(c.host.as_str(), "127.0.0.1") {
                "0.0.0.0".to_owned()
            } else {
                "127.0.0.1".to_owned()
            };
            Some(SettingRequest::Save)
        },
        3 => Some(SettingRequest::PickRuntime),
        4 => {
            c.backend = turn_backend(c.backend.as_str(), up);
            Some(SettingRequest::Save)
        },
        5 => match step_context(c.ctx_size, step, up) {
            Some(n) => {
                c.ctx_size = n;
                Some(SettingRequest::Save)
            },
            None => None,
        },
        6 => {
            c.scheduler_enabled = !c.scheduler_enabled;
            Some(SettingRequest::Save)
        },
        7 => Some(SettingRequest::Fraction),
        9 => {
            c.advertise_base_models = !c.advertise_base_models;
            Some(SettingRequest::Save)
        },
        10 => {
            c.advertise_profiles = !c.advertise_profiles;
            Some(SettingRequest::Save)
        },
        11 => Some(SettingRequest::StartOnBoot),
        _ => Some(SettingRequest::Typed),
    }
}

/// The next of three texts in a circle; the first stands behind every other text.
pub open spec fn next_of_three(
    current: Seq<char>,
    a: Seq<char>,
    b: Seq<char>,
    c: Seq<char>,
) -> Seq<char> {
    if current == a {
        b
    } else if current == b {
        c
    } else {
        a
    }
}

fn turn_three(current: &str, a: &str, b: &str, c: &str) -> (out: String)
    ensures
        out@ == next_of_three(current@, a@, b@, c@),
{
    if text::same(current, a) {
        b.to_owned()
    } else if text::same(current, b) {
        c.to_owned()
    } else {
        a.to_owned()
    }
}

/// How many slots a profile asks for.
pub open spec fn slots_under(list: Members) -> u64 {
    match table::lookup(list, "parallel"@) {
        Some(Json::Unsigned(n)) => n,
        _ => 1,
    }
}

/// One slot more or less, between 1 and 32; `None` where the number is too large to be
/// stepped.
pub open spec fn stepped_slots(n: u64, up: bool) -> Option<u64> {
    let next = if up {
        signed(n) + 1
    } else {
        signed(n) - 1
    };
    if next < i64::MIN || next > i64::MAX {
        None
    } else if next < 1 {
        Some(1)
    } else if next > 32 {
        Some(32)
    } else {
        Some(next as u64)
    }
}

fn step_slots(n: u64, up: bool) -> (out: Option<u64>)
    ensures
        out == stepped_slots(n, up),
{
    let most: u64 = i64::MAX as u64;
    if n > most {
        if !up && n == most + 1 {
            None
        } else {
            Some(1)
        }
    } else if up {
        if n == most {
            None
        } else if n >= 32 {
            Some(32)
        } else {
            Some(n + 1)
        }
    } else if n <= 1 {
        Some(1)
    } else if n > 33 {
        Some(32)
    } else {
        Some(n - 1)
    }
}

/// What a key does to a profile: the context, the slots, how the model is split, the
/// attention and the cache. `None` where the key does nothing or the number is too large.
pub open spec fn adjusted(list: Members, key: char, step: u64) -> Option<Members> {
    if key == '+' || key == '-' {
        match stepped_context(
            editor::number_under(list, "ctx-size"@, 4096),
            step,
            key == '+',
        ) {
            Some(n) => Some(table::put(list, "ctx-size"@, Json::Unsigned(n))),
            None => None,
        }
    } else if key == '[' || key == ']' {
        match stepped_slots(slots_under(list), key == ']') {
            Some(n) => Some(table::put(list, "parallel"@, Json::Unsigned(n))),
            None => None,
        }
    } else if key == 't' {
        let current = editor::text_under(list, "split-mode"@, "layer"@);
        Some(
            table::put(
                list,
                "split-mode"@,
                Json::Text(next_of_three(current, "layer"@, "tensor"@, "row"@)),
            ),
        )
    } else if key == 'f' {
        let current = editor::text_under(list, "flash-attn"@, "on"@);
        Some(
            table::put(
                list,
                "flash-attn"@,
                Json::Text(
                    if current == "on"@ {
                        "off"@
                    } else {
                        "on"@
                    },
                ),
            ),
        )
    } else if key == 'k' {
        let current = editor::text_under(list, "cache-type-k"@, "f16"@);
        let next = Json::Text(next_of_three(current, "f16"@, "q8_0"@, "q4_0"@));
        Some(table::put(table::put(list, "cache-type-k"@, next), "cache-type-v"@, next))
    } else {
        None
    }
}

fn put_count(t: &mut Table<JsonValue>, key: &str, n: u64)
    ensures
        json::members(*final(t)) == table::put(json::members(*old(t)), key@, Json::Unsigned(n)),
{
    commands::put_member(t, key, JsonValue::Number(Number::Unsigned(n)));
}

fn adjust_members(t: &mut Table<JsonValue>, key: char, step: u64) -> (changed: bool)
    requires
        step <= 65_536,
    ensures
        match adjusted(json::members(*old(t)), key, step) {
            Some(list) => changed && json::members(*final(t)) == list,
            None => !changed && json::members(*final(t)) == json::members(*old(t)),
        },
{
    if key == '+' || key == '-' {
        match step_context(editor::number_of(t, "ctx-size", 4096), step, key == '+') {
            Some(n) => {
                put_count(t, "ctx-size", n);
                true
            },
            None => false,
        }
    } else if key == '[' || key == ']' {
        let current: u64 = match commands::member(t, "parallel") {
            Some(v) => match v.as_u64() {
                Some(n) => n,
                None => 1,
            },
            None => 1,
        };
        match step_slots(current, key == ']') {
            Some(n) => {
                put_count(t, "parallel", n);
                true
            },
            None => false,
        }
    } else if key == 't' {
        let current: String = editor::text_of(t, "split-mode", "layer");
        let next: String = turn_three(current.as_str(), "layer", "tensor", "row");
        commands::put_text(t, "split-mode", next.as_str());
        true
    } else if key == 'f' {
        let current: String = editor::text_of(t, "flash-attn", "on");
        let next: &str = if text::same(current.as_str(), "on") {
            "off"
        } else {
            "on"
        };
        commands::put_text(t, "flash-attn", next);
        true
    } else if key == 'k' {
        let current: String = editor::text_of(t, "cache-type-k", "f16");
        let next: String = turn_three(current.as_str(), "f16", "q8_0", "q4_0");
        commands::put_text(t, "cache-type-k", next.as_str());
        commands::put_text(t, "cache-type-v", next.as_str());
        true
    } else {
        false
    }
}

/// Does what a key means to a profile; `false` where nothing is changed.
pub fn adjust_profile(p: &mut Profiles, name: &str, key: char, step: u64) -> (changed: bool)
    requires
        step <= 65_536,
    ensures
        match table::lookup(old(p)@.profiles, name@) {
            Some(list) => match adjusted(list, key, step) {
                Some(new) => changed && final(p)@ == (ProfilesView {
                    profiles: table::put(old(p)@.profiles, name@, new),
                    ..old(p)@
                }),
                None => !changed && final(p)@ == old(p)@,
            },
            None => !changed && final(p)@ == old(p)@,
        },
{
    let mut t: Table<JsonValue> = match commands::profile_copy(p, name) {
        Some(t) => t,
        None => return false,
    };
    if !adjust_members(&mut t, key, step) {
        return false;
    }
    commands::put_profile(p, name, t);
    true
}

/// A binding that leads to a new name of a profile where it led to the old one.
pub open spec fn renamed_binding(source: Seq<char>, target: Seq<char>) -> spec_fn(Json) -> Json {
    |b: Json|
        if b == Json::Text(source) {
            Json::Text(target)
        } else {
            b
        }
}

/// Some names with the first occurrence of one replaced.
pub open spec fn with_first_replaced(
    list: Seq<Seq<char>>,
    source: Seq<char>,
    target: Seq<char>,
) -> Seq<Seq<char>> {
    let at = text::run(list, profile_editor::another(source)) as int;
    if at < list.len() {
        list.update(at, target)
    } else {
        list
    }
}

/// What became of renaming a profile in place.
pub enum RenameOutcome {
    Unchanged,
    Renamed,
    Refused(ProfileError),
}

/// The profiles and the pinned names after a profile was renamed in place, or why it was
/// not; `None` where the name stays.
pub open spec fn renamed_in_place(
    p: ProfilesView,
    c: ConfigView,
    source: Seq<char>,
    target: Seq<char>,
) -> Option<Result<(ProfilesView, ConfigView), ProfileErrorView>> {
    if source == target {
        None
    } else if !profiles::is_name(target) {
        Some(Err(ProfileErrorView::Name))
    } else if table::lookup(p.profiles, target) is Some {
        Some(Err(ProfileErrorView::Exists))
    } else {
        match table::lookup(p.profiles, source) {
            None => Some(Err(ProfileErrorView::Unknown)),
            Some(list) => Some(
                Ok(
                    (
                        ProfilesView {
                            profiles: table::put(
                                table::without(p.profiles, source),
                                target,
                                list,
                            ),
                            models: table::mapped(p.models, renamed_binding(source, target)),
                            ..p
                        },
                        ConfigView {
                            scheduler_pinned_models: with_first_replaced(
                                c.scheduler_pinned_models,
                                source,
                                target,
                            ),
                            ..c
                        },
                    ),
                ),
            ),
        }
    }
}

fn replace_first(list: &mut Vec<String>, source: &str, target: &str)
    ensures
        text::views(final(list)@) == with_first_replaced(
            text::views(old(list)@),
            source@,
            target@,
        ),
{
    let ghost all = text::views(list@);
    match profile_editor::position(list, source) {
        Some(i) => {
            list.set(i, target.to_owned());
            proof {
                assert(text::views(list@) =~= all.update(i as int, target@));
            }
        },
        None => {},
    }
}

fn rebind_texts(models: &mut Table<JsonValue>, source: &str, target: &str)
    ensures
        table::mapped(final(models)@, json::to_json()) == table::mapped(
            table::mapped(old(models)@, json::to_json()),
            renamed_binding(source@, target@),
        ),
{
    let ghost start = table::mapped(models@, json::to_json());
    let ghost want = table::mapped(start, renamed_binding(source@, target@));
    let mut i: usize = 0;
    while i < models.len()
        invariant
            i <= models@.len(),
            models@.len() == start.len(),
            want == table::mapped(start, renamed_binding(source@, target@)),
            forall|j: int|
                0 <= j < i ==> #[trigger] table::mapped(models@, json::to_json())[j] == want[j],
            forall|j: int|
                i <= j < start.len() ==> #[trigger] table::mapped(models@, json::to_json())[j]
                    == start[j],
        decreases models@.len() - i,
    {
        let ghost before = table::mapped(models@, json::to_json());
        proof {
            assert(before[i as int] == start[i as int]);
        }
        if profiles::is_text(Some(models.value_at(i)), source) {
            let value: JsonValue = JsonValue::String(target.to_owned());
            models.set_at(i, value);
            proof {
                let now = table::mapped(models@, json::to_json());
                assert forall|j: int| 0 <= j < now.len() && j != i implies #[trigger] now[j]
                    == before[j] by {}
                assert(now[i as int] == want[i as int]);
            }
        }
        i += 1;
    }
    proof {
        assert(table::mapped(models@, json::to_json()) =~= want);
    }
}

/// Renames a profile in place, with the bindings that lead to it and its pin.
pub fn apply_rename(p: &mut Profiles, c: &mut Config, source: &str, target: &str) -> (out:
    RenameOutcome)
    ensures
        match (out, renamed_in_place(old(p)@, old(c)@, source@, target@)) {
            (RenameOutcome::Unchanged, None) => final(p)@ == old(p)@ && final(c)@ == old(c)@,
            (RenameOutcome::Refused(e), Some(Err(f))) => e@ == f && final(p)@ == old(p)@
                && final(c)@ == old(c)@,
            (RenameOutcome::Renamed, Some(Ok((q, d)))) => final(p)@ == q && final(c)@ == d,
            _ => false,
        },
{
    if text::same(source, target) {
        return RenameOutcome::Unchanged;
    }
    match commands::can_create(p, target) {
        Ok(_) => {},
        Err(e) => return RenameOutcome::Refused(e),
    }
    let profile: Table<JsonValue> = match commands::profile_copy(p, source) {
        Some(t) => t,
        None => return RenameOutcome::Refused(ProfileError::Unknown),
    };
    proof {
        table::lemma_mapped_lookup(p.profiles@, profiles::to_members(), source@);
    }
    let _gone: Option<Table<JsonValue>> = p.profiles.remove(source);
    commands::put_profile(p, target, profile);
    rebind_texts(&mut p.models, source, target);
    replace_first(&mut c.scheduler_pinned_models, source, target);
    RenameOutcome::Renamed
}

/// A name with a number behind it.
pub open spec fn numbered_name(base: Seq<char>, n: nat) -> Seq<char> {
    base + "-"@ + text::decimal_of(n)
}

/// Whether `n` is the first number from 2 on for which no profile has the name.
pub open spec fn is_first_free(p: ProfilesView, base: Seq<char>, n: int) -> bool {
    &&& 2 <= n <= i32::MAX
    &&& table::lookup(p.profiles, numbered_name(base, n as nat)) is None
    &&& forall|m: int|
        2 <= m < n ==> table::lookup(p.profiles, #[trigger] numbered_name(base, m as nat)) is Some
}

/// The name with the first free number behind it; `None` where none is free.
pub fn free_name(p: &Profiles, base: &str) -> (out: Option<String>)
    ensures
        match out {
            Some(name) => exists|n: int|
                #[trigger] is_first_free(p@, base@, n) && name@ == numbered_name(
                    base@,
                    n as nat,
                ),
            None => forall|n: int|
                2 <= n <= i32::MAX ==> table::lookup(
                    p@.profiles,
                    #[trigger] numbered_name(base@, n as nat),
                ) is Some,
        },
{
    let mut n: u64 = 2;
    while n <= i32::MAX as u64
        invariant
            2 <= n <= i32::MAX as u64 + 1,
            forall|m: int|
                2 <= m < n ==> table::lookup(
                    p@.profiles,
                    #[trigger] numbered_name(base@, m as nat),
                ) is Some,
        decreases i32::MAX as u64 + 1 - n,
    {
        let mut name: String = base.to_owned();
        name.append("-");
        name.append(text::decimal(n).as_str());
        proof {
            assert(name@ == numbered_name(base@, n as nat));
            table::lemma_mapped_lookup(p.profiles@, profiles::to_members(), name@);
        }
        if !p.profiles.contains_key(name.as_str()) {
            proof {
                assert(is_first_free(p@, base@, n as int));
            }
            return Some(name);
        }
        n += 1;
    }
    None
}

/// The name for a new profile of a model: the model's with `-custom` behind it, and a number
/// where that is taken.
pub fn custom_name(p: &Profiles, model: &str) -> (out: Option<String>)
    ensures
        ({
            let base = model@ + "-custom"@;
            if table::lookup(p@.profiles, base) is None {
                crate::metadata::text_view(out) == Some(base)
            } else {
                match out {
                    Some(name) => exists|n: int|
                        #[trigger] is_first_free(p@, base, n) && name@ == numbered_name(
                            base,
                            n as nat,
                        ),
                    None => forall|n: int|
                        2 <= n <= i32::MAX ==> table::lookup(
                            p@.profiles,
                            #[trigger] numbered_name(base, n as nat),
                        ) is Some,
                }
            }
        }),
{
    let mut base: String = model.to_owned();
    base.append("-custom");
    proof {
        table::lemma_mapped_lookup(p.profiles@, profiles::to_members(), base@);
    }
    if !p.profiles.contains_key(base.as_str()) {
        return Some(base);
    }
    free_name(p, base.as_str())
}

/// The name for a copy of a profile.
pub fn copy_name(p: &Profiles, source: &str) -> (out: Option<String>)
    ensures
        match out {
            Some(name) => exists|n: int|
                #[trigger] is_first_free(p@, source@ + "-copy"@, n) && name@ == numbered_name(
                    source@ + "-copy"@,
                    n as nat,
                ),
            None => forall|n: int|
                2 <= n <= i32::MAX ==> table::lookup(
                    p@.profiles,
                    #[trigger] numbered_name(source@ + "-copy"@, n as nat),
                ) is Some,
        },
{
    let mut base: String = source.to_owned();
    base.append("-copy");
    free_name(p, base.as_str())
}

/// Makes a profile for a model under a free name, lets the model use it and says the name;
/// `None` where no name is free.
pub fn create_custom_profile(p: &mut Profiles, model: &str, limit: Option<u64>, setting: u64) -> (out:
    Option<String>)
    ensures
        match out {
            Some(name) => {
                &&& table::lookup(old(p)@.profiles, name@) is None
                &&& final(p)@ == (ProfilesView {
                    profiles: table::put(
                        old(p)@.profiles,
                        name@,
                        commands::new_profile(
                            model@,
                            commands::starting_context(limit, setting),
                        ),
                    ),
                    models: table::put(old(p)@.models, model@, Json::Text(name@)),
                    ..old(p)@
                })
                &&& if table::lookup(old(p)@.profiles, model@ + "-custom"@) is None {
                    name@ == model@ + "-custom"@
                } else {
                    exists|n: int|
                        #[trigger] is_first_free(old(p)@, model@ + "-custom"@, n) && name@
                            == numbered_name(model@ + "-custom"@, n as nat)
                }
            },
            None => final(p)@ == old(p)@ && table::lookup(
                old(p)@.profiles,
                model@ + "-custom"@,
            ) is Some && forall|n: int|
                2 <= n <= i32::MAX ==> table::lookup(
                    old(p)@.profiles,
                    #[trigger] numbered_name(model@ + "-custom"@, n as nat),
                ) is Some,
        },
{
    match custom_name(p, model) {
        Some(name) => {
            let t: Table<JsonValue> = commands::make_profile(model, limit, setting);
            commands::put_profile(p, name.as_str(), t);
            commands::put_binding(p, model, name.as_str());
            Some(name)
        },
        None => None,
    }
}

/// Pins a profile or takes its pin away, and says whether it is pinned now.
pub fn toggle_pin(c: &mut Config, name: &str) -> (pinned: bool)
    ensures
        pinned == !old(c)@.scheduler_pinned_models.contains(name@),
        final(c)@ == (ConfigView {
            scheduler_pinned_models: if pinned {
                old(c)@.scheduler_pinned_models.push(name@)
            } else {
                commands::others(
                    old(c)@.scheduler_pinned_models,
                    name@,
                    old(c)@.scheduler_pinned_models.len(),
                )
            },
            ..old(c)@
        }),
{
    if profiles::holds_text(&c.scheduler_pinned_models, name) {
        c.scheduler_pinned_models = commands::other_texts(&c.scheduler_pinned_models, name);
        false
    } else {
        process::add(&mut c.scheduler_pinned_models, name);
        true
    }
}

/// The names of the first `n` profiles that leave the placement of tensors alone, or those
/// that do not.
pub open spec fn placing(list: Seq<(Seq<char>, Members)>, overrides: bool, n: nat) -> Seq<Seq<char>>
    decreases n,
{
    if n == 0 {
        seq![]
    } else {
        let earlier = placing(list, overrides, (n - 1) as nat);
        if (table::lookup(list[n - 1].1, "override-tensor"@) is Some) == overrides {
            earlier.push(list[n - 1].0)
        } else {
            earlier
        }
    }
}

fn names_placing(p: &Profiles, overrides: bool) -> (out: Vec<String>)
    ensures
        text::views(out@) == placing(p@.profiles, overrides, p@.profiles.len()),
{
    let ghost all = p@.profiles;
    let mut out: Vec<String> = Vec::new();
    let mut i: usize = 0;
    proof {
        assert(text::views(out@) =~= seq![]);
    }
    while i < p.profiles.len()
        invariant
            i <= p.profiles@.len(),
            all == p@.profiles,
            all.len() == p.profiles@.len(),
            text::views(out@) == placing(all, overrides, i as nat),
        decreases p.profiles@.len() - i,
    {
        proof {
            assert(all[i as int] == (
                p.profiles@[i as int].0,
                json::members(p.profiles@[i as int].1),
            ));
        }
        if commands::member(p.profiles.value_at(i), "override-tensor").is_some() == overrides {
            process::add(&mut out, p.profiles.key_at(i));
        }
        i += 1;
    }
    out
}

/// The order in which the memory of the profiles is estimated: those that place tensors come
/// last, for their estimate takes longer.
pub fn estimate_order(p: &Profiles) -> (out: Vec<String>)
    ensures
        text::views(out@) == placing(p@.profiles, false, p@.profiles.len()) + placing(
            p@.profiles,
            true,
            p@.profiles.len(),
        ),
{
    let mut out: Vec<String> = names_placing(p, false);
    let rest: Vec<String> = names_placing(p, true);
    process::add_all(&mut out, rest.as_slice());
    out
}

} // verus!
