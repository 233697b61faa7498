//! The dialogs and what they say, line by line.
use vstd::prelude::*;

use crate::editing::{Line, LineView};
use crate::editor::SettingsView;
use crate::figures;
use crate::huggingface::{Artifact, ArtifactView, DetailsView, ModelDetails};
use crate::models;
use crate::process;
use crate::process::TooLarge;
use crate::profile_editor;
use crate::profile_editor::{EditorField, ProfileEditor};
use crate::templates::Templates;
use crate::text;
use crate::ui;
use crate::view;
use crate::view::{DownloadState, DownloadView};

verus! {

/// A list in one line, or another text where it is empty.
pub open spec fn listed_or(
    list: Seq<Seq<char>>,
    sep: Seq<char>,
    otherwise: Seq<char>,
) -> Seq<char> {
    if list.len() == 0 {
        otherwise
    } else {
        text::joined(list, sep)
    }
}

fn list_or(list: &Vec<String>, sep: &str, otherwise: &str) -> (out: String)
    ensures
        out@ == listed_or(text::views(list@), sep@, otherwise@),
{
    if list.len() == 0 {
        otherwise.to_owned()
    } else {
        text::join(list.as_slice(), sep)
    }
}

/// What stands over a model card.
pub open spec fn card_head_of(d: DetailsView) -> Seq<Seq<char>> {
    seq![
        d.id,
        "Author "@ + d.author + "   License "@ + d.license + "   Updated "@ + d.updated,
        "Downloads "@ + figures::count_text(d.downloads as nat) + "   Likes "@
            + figures::count_text(d.likes as nat) + "   Task "@ + d.task + "   Library "@
            + d.library,
        "Base model "@ + d.base_model + "   Languages "@
            + listed_or(d.languages, ", "@, "unknown"@),
        "Tags "@ + listed_or(d.tags, " - "@, "none"@),
        "Page "@ + d.url,
    ]
}

pub fn card_head(d: &ModelDetails) -> (out: Vec<String>)
    ensures
        text::views(out@) == card_head_of(d@),
{
    let mut out: Vec<String> = Vec::new();
    proof {
        assert(text::views(out@) =~= seq![]);
    }
    process::add(&mut out, d.id.as_str());
    let mut line: String = "Author ".to_owned();
    line.append(d.author.as_str());
    line.append("   License ");
    line.append(d.license.as_str());
    line.append("   Updated ");
    line.append(d.updated.as_str());
    process::add(&mut out, line.as_str());
    let mut line: String = "Downloads ".to_owned();
    line.append(figures::format_count(d.downloads).as_str());
    line.append("   Likes ");
    line.append(figures::format_count(d.likes).as_str());
    line.append("   Task ");
    line.append(d.task.as_str());
    line.append("   Library ");
    line.append(d.library.as_str());
    process::add(&mut out, line.as_str());
    let mut line: String = "Base model ".to_owned();
    line.append(d.base_model.as_str());
    line.append("   Languages ");
    line.append(list_or(&d.languages, ", ", "unknown").as_str());
    process::add(&mut out, line.as_str());
    let mut line: String = "Tags ".to_owned();
    line.append(list_or(&d.tags, " - ", "none").as_str());
    process::add(&mut out, line.as_str());
    let mut line: String = "Page ".to_owned();
    line.append(d.url.as_str());
    process::add(&mut out, line.as_str());
    proof {
        assert(text::views(out@) =~= card_head_of(d@));
    }
    out
}

/// The lines of a model card, or that there is none.
pub open spec fn card_body_of(readme: Seq<char>) -> Seq<Seq<char>> {
    if readme.len() == 0 {
        seq!["No README model card was provided."@]
    } else {
        text::lines_of(readme)
    }
}

pub fn card_body(readme: &str) -> (out: Vec<String>)
    ensures
        text::views(out@) == card_body_of(readme@),
{
    if readme.is_empty() {
        let mut out: Vec<String> = Vec::new();
        process::add(&mut out, "No README model card was provided.");
        proof {
            assert(text::views(out@) =~= card_body_of(readme@));
        }
        out
    } else {
        text::lines(readme)
    }
}

/// What stands under a model card that is scrolled.
pub fn card_foot(scroll: u16) -> (out: String)
    ensures
        out@ == "Line "@ + text::decimal_of(scroll as nat + 1)
            + " - ↑↓/PgUp/PgDn scroll - Enter/Esc/q/i close"@,
{
    let mut out: String = "Line ".to_owned();
    out.append(text::decimal(scroll as u64 + 1).as_str());
    out.append(" - ↑↓/PgUp/PgDn scroll - Enter/Esc/q/i close");
    out
}

/// What is asked before a model is fetched.
pub open spec fn fetch_question_of(
    repository: Seq<char>,
    license: Seq<char>,
    a: ArtifactView,
    destination: Seq<char>,
) -> Seq<Seq<char>> {
    seq![
        repository + " - "@ + a.label,
        ""@,
        "Size  "@ + figures::bytes_text(a.size) + "   Files  "@ + text::decimal_of(a.files.len())
            + "   License  "@ + license,
        "Destination  "@ + destination,
        "Verification  "@ + "size + Hugging Face LFS SHA-256"@,
        ""@,
        "Enter/y download - Esc/q/n cancel"@,
    ]
}

pub fn fetch_question(
    repository: &str,
    license: &str,
    a: &Artifact,
    destination: &str,
) -> (out: Vec<String>)
    ensures
        text::views(out@) == fetch_question_of(repository@, license@, a@, destination@),
{
    let mut out: Vec<String> = Vec::new();
    proof {
        assert(text::views(out@) =~= seq![]);
    }
    let mut line: String = repository.to_owned();
    line.append(" - ");
    line.append(a.label.as_str());
    process::add(&mut out, line.as_str());
    process::add(&mut out, "");
    let mut line: String = "Size  ".to_owned();
    line.append(figures::format_bytes(a.size).as_str());
    line.append("   Files  ");
    line.append(text::decimal(a.files.len() as u64).as_str());
    line.append("   License  ");
    line.append(license);
    process::add(&mut out, line.as_str());
    let mut line: String = "Destination  ".to_owned();
    line.append(destination);
    process::add(&mut out, line.as_str());
    let mut line: String = "Verification  ".to_owned();
    line.append("size + Hugging Face LFS SHA-256");
    process::add(&mut out, line.as_str());
    process::add(&mut out, "");
    process::add(&mut out, "Enter/y download - Esc/q/n cancel");
    proof {
        assert(text::views(out@) =~= fetch_question_of(repository@, license@, a@, destination@));
    }
    out
}

/// A line with a mark where the cursor stands.
pub open spec fn with_cursor(line: LineView) -> Seq<char> {
    if line.cursor <= line.text.len() {
        line.text.take(line.cursor) + "▏"@ + line.text.skip(line.cursor)
    } else {
        line.text + "▏"@
    }
}

pub fn cursor_text(line: &Line) -> (out: String)
    ensures
        out@ == with_cursor(line@),
{
    let chars: Vec<char> = text::chars_of(line.text.as_str());
    if line.cursor <= chars.len() {
        let mut out: String = text::part_text(chars.as_slice(), 0, line.cursor);
        out.append("▏");
        out.append(text::part_text(chars.as_slice(), line.cursor, chars.len()).as_str());
        proof {
            assert(line.text@.subrange(0, line.cursor as int) =~= line.text@.take(
                line.cursor as int,
            ));
            assert(line.text@.subrange(line.cursor as int, chars@.len() as int)
                =~= line.text@.skip(line.cursor as int));
        }
        out
    } else {
        let mut out: String = line.text.clone();
        out.append("▏");
        out
    }
}

/// What is asked before a search.
pub open spec fn search_question_of(query: LineView) -> Seq<Seq<char>> {
    seq![
        "Search public, non-gated GGUF repositories."@,
        ""@,
        "Query  "@ + with_cursor(query),
        ""@,
        "Enter search - Esc cancel"@,
    ]
}

pub fn search_question(query: &Line) -> (out: Vec<String>)
    ensures
        text::views(out@) == search_question_of(query@),
{
    let mut out: Vec<String> = Vec::new();
    proof {
        assert(text::views(out@) =~= seq![]);
    }
    process::add(&mut out, "Search public, non-gated GGUF repositories.");
    process::add(&mut out, "");
    let mut line: String = "Query  ".to_owned();
    line.append(cursor_text(query).as_str());
    process::add(&mut out, line.as_str());
    process::add(&mut out, "");
    process::add(&mut out, "Enter search - Esc cancel");
    proof {
        assert(text::views(out@) =~= search_question_of(query@));
    }
    out
}

/// What is asked before a model is deleted.
pub open spec fn model_question_of(name: Seq<char>) -> Seq<Seq<char>> {
    seq![
        "Permanently delete model "@ + name + "?"@,
        ""@,
        "This also deletes profiles that use this model."@,
        ""@,
        "Enter/y delete - Esc/q/n cancel"@,
    ]
}

pub fn model_question(name: &str) -> (out: Vec<String>)
    ensures
        text::views(out@) == model_question_of(name@),
{
    let mut out: Vec<String> = Vec::new();
    proof {
        assert(text::views(out@) =~= seq![]);
    }
    let mut line: String = "Permanently delete model ".to_owned();
    line.append(name);
    line.append("?");
    process::add(&mut out, line.as_str());
    process::add(&mut out, "");
    process::add(&mut out, "This also deletes profiles that use this model.");
    process::add(&mut out, "");
    process::add(&mut out, "Enter/y delete - Esc/q/n cancel");
    proof {
        assert(text::views(out@) =~= model_question_of(name@));
    }
    out
}

/// What is asked before a profile is deleted.
pub open spec fn profile_question_of(name: Seq<char>) -> Seq<Seq<char>> {
    seq![
        "Permanently delete profile "@ + name + "?"@,
        ""@,
        "This also deletes its retained benchmark results."@,
        ""@,
        "Enter/y delete - Esc/q/n cancel"@,
    ]
}

pub fn profile_question(name: &str) -> (out: Vec<String>)
    ensures
        text::views(out@) == profile_question_of(name@),
{
    let mut out: Vec<String> = Vec::new();
    proof {
        assert(text::views(out@) =~= seq![]);
    }
    let mut line: String = "Permanently delete profile ".to_owned();
    line.append(name);
    line.append("?");
    process::add(&mut out, line.as_str());
    process::add(&mut out, "");
    process::add(&mut out, "This also deletes its retained benchmark results.");
    process::add(&mut out, "");
    process::add(&mut out, "Enter/y delete - Esc/q/n cancel");
    proof {
        assert(text::views(out@) =~= profile_question_of(name@));
    }
    out
}

/// What is asked before a template is deleted.
pub open spec fn template_question_of(name: Seq<char>) -> Seq<Seq<char>> {
    seq![
        "Permanently delete template "@ + name + "?"@,
        ""@,
        "Enter/y delete - Esc/q/n cancel"@,
    ]
}

pub fn template_question(name: &str) -> (out: Vec<String>)
    ensures
        text::views(out@) == template_question_of(name@),
{
    let mut out: Vec<String> = Vec::new();
    proof {
        assert(text::views(out@) =~= seq![]);
    }
    let mut line: String = "Permanently delete template ".to_owned();
    line.append(name);
    line.append("?");
    process::add(&mut out, line.as_str());
    process::add(&mut out, "");
    process::add(&mut out, "Enter/y delete - Esc/q/n cancel");
    proof {
        assert(text::views(out@) =~= template_question_of(name@));
    }
    out
}

/// How much of a download is done: at most all of it.
pub fn downloaded(d: &DownloadState) -> (out: Result<(u64, u64), TooLarge>)
    ensures
        ({
            let done = view::amount(d@.progress, d@.progress.len());
            let all = view::amount(d@.files, d@.files.len());
            match out {
                Ok(n) => n.1 == all && n.0 == if done < all {
                    done
                } else {
                    all
                },
                Err(_) => done > u64::MAX || all > u64::MAX,
            }
        }),
{
    let all: u64 = match view::sum_of(&d.files) {
        Ok(n) => n,
        Err(e) => return Err(e),
    };
    let done: u64 = match view::sum_of(&d.progress) {
        Ok(n) => n,
        Err(e) => return Err(e),
    };
    Ok(
        (
            if done < all {
                done
            } else {
                all
            },
            all,
        ),
    )
}

/// What is said of a file that is fetched: its name, which moves where it is too long.
pub open spec fn current_of(current: Seq<char>, width: nat, millis: nat) -> Seq<char> {
    if current.len() == 0 {
        "Preparing…"@
    } else {
        view::marquee_of(current, width, millis)
    }
}

fn current_file(current: &str, width: usize, millis: u64) -> (out: String)
    ensures
        out@ == current_of(current@, width as nat, millis as nat),
{
    if current.is_empty() {
        "Preparing…".to_owned()
    } else {
        view::marquee_text(current, width, millis)
    }
}

/// What is said under a download: why it is tried again, else what it does.
pub open spec fn detail_of(d: DownloadView) -> Seq<char> {
    match d.retry {
        Some(s) => s,
        None => if d.cancelling {
            "Waiting for active network reads to stop; partial files are retained"@
        } else {
            "Ranged transfers resume automatically; every LFS file is verified"@
        },
    }
}

fn detail(d: &DownloadState) -> (out: String)
    ensures
        out@ == detail_of(d@),
{
    match &d.retry {
        Some(s) => s.clone(),
        None => if d.cancelling {
            "Waiting for active network reads to stop; partial files are retained".to_owned()
        } else {
            "Ranged transfers resume automatically; every LFS file is verified".to_owned()
        },
    }
}

/// A download as the dialog shows it: how much of it is done, how many bytes a second come in
/// on average, how long it takes in nanoseconds, and where it goes.
pub struct Transfer<'a> {
    pub done: u64,
    pub total: u64,
    pub speed: u64,
    pub nanos: u64,
    pub repository: &'a str,
    pub destination: &'a str,
}

/// What the dialog says of a download. `width` is how wide the name of a file can be.
pub open spec fn transfer_lines_of(
    d: DownloadView,
    t: Transfer<'_>,
    width: usize,
) -> Seq<Seq<char>> {
    seq![
        d.phase,
        "Progress "@ + figures::bytes_text(t.done as nat) + " / "@
            + figures::bytes_text(t.total as nat) + "   Average "@
            + figures::bytes_text(t.speed as nat) + "/s   Elapsed "@
            + figures::elapsed_of(t.nanos as nat),
        "Repository "@ + t.repository@ + "   Files "@ + text::decimal_of(d.completed_files as nat)
            + "/"@ + text::decimal_of(d.files.len()),
        "Current "@ + current_of(d.current, width as nat, (t.nanos / 1_000_000) as nat),
        detail_of(d),
        "Save to "@ + t.destination@ + " - Controls locked - Esc/q/c cancels"@,
    ]
}

pub fn transfer_lines(d: &DownloadState, t: &Transfer<'_>, width: usize) -> (out: Vec<String>)
    ensures
        text::views(out@) == transfer_lines_of(d@, *t, width),
{
    let mut out: Vec<String> = Vec::new();
    proof {
        assert(text::views(out@) =~= seq![]);
    }
    process::add(&mut out, d.phase.as_str());
    let mut line: String = "Progress ".to_owned();
    line.append(figures::format_bytes(t.done).as_str());
    line.append(" / ");
    line.append(figures::format_bytes(t.total).as_str());
    line.append("   Average ");
    line.append(figures::format_bytes(t.speed).as_str());
    line.append("/s   Elapsed ");
    line.append(figures::format_elapsed(t.nanos).as_str());
    process::add(&mut out, line.as_str());
    let mut line: String = "Repository ".to_owned();
    line.append(t.repository);
    line.append("   Files ");
    line.append(text::decimal(d.completed_files as u64).as_str());
    line.append("/");
    line.append(text::decimal(d.files.len() as u64).as_str());
    process::add(&mut out, line.as_str());
    let mut line: String = "Current ".to_owned();
    line.append(current_file(d.current.as_str(), width, t.nanos / 1_000_000).as_str());
    process::add(&mut out, line.as_str());
    process::add(&mut out, detail(d).as_str());
    let mut line: String = "Save to ".to_owned();
    line.append(t.destination);
    line.append(" - Controls locked - Esc/q/c cancels");
    process::add(&mut out, line.as_str());
    proof {
        assert(text::views(out@) =~= transfer_lines_of(d@, *t, width));
    }
    out
}

/// What stands over the profile editor: the profile, its model and the model's file.
pub open spec fn editor_head_of(name: Seq<char>, owner: Seq<char>, path: Seq<char>) -> Seq<char> {
    " Profile "@ + name + " - Model "@ + owner + " - File "@ + (match models::file_name_of(path) {
        Some(file) => file,
        None => path,
    })
}

pub fn editor_head(editor: &ProfileEditor) -> (out: String)
    ensures
        out@ == editor_head_of(editor.name@, editor.owner@, editor.path@),
{
    let mut out: String = " Profile ".to_owned();
    out.append(editor.name.as_str());
    out.append(" - Model ");
    out.append(editor.owner.as_str());
    out.append(" - File ");
    match models::file_name(editor.path.as_str()) {
        Some(file) => {
            out.append(file.as_str());
        },
        None => {
            out.append(editor.path.as_str());
        },
    }
    out
}

/// A text with blanks behind it, so that it is `width` characters wide.
pub open spec fn filled_to(s: Seq<char>, width: nat) -> Seq<char> {
    if s.len() < width {
        s + Seq::new((width - s.len()) as nat, |i: int| ' ')
    } else {
        s
    }
}

fn fill_to(s: &str, width: usize) -> (out: String)
    ensures
        out@ == filled_to(s@, width as nat),
{
    let length: usize = text::chars_of(s).len();
    let mut out: String = s.to_owned();
    let mut i: usize = length;
    proof {
        assert(s@ + Seq::new(0, |i: int| ' ') =~= s@);
    }
    while i < width
        invariant
            length == s@.len(),
            length <= i,
            i <= width || i == length,
            out@ == s@ + Seq::new((i - length) as nat, |i: int| ' '),
        decreases width - i,
    {
        out.push(' ');
        i += 1;
        proof {
            assert(out@ =~= s@ + Seq::new((i - length) as nat, |i: int| ' '));
        }
    }
    out
}

/// What the profile editor shows of a setting.
pub open spec fn editor_line_of(
    field: EditorField,
    settings: SettingsView,
    advanced: bool,
    library: Seq<(Seq<char>, Seq<char>)>,
) -> Seq<char> {
    filled_to(profile_editor::label_of(field), 26) + " "@ + (match field {
        EditorField::Advanced => if advanced {
            "on"@
        } else {
            "off"@
        },
        EditorField::ChatTemplate => profile_editor::shown_template(
            library,
            settings.chat_template,
        ),
        _ => profile_editor::value_of(field, settings),
    })
}

pub fn editor_line(field: EditorField, editor: &ProfileEditor, library: &Templates) -> (out: String)
    ensures
        out@ == editor_line_of(field, editor.settings@, editor.advanced, library@),
{
    let mut out: String = fill_to(profile_editor::editor_field_label(field), 26);
    out.append(" ");
    match field {
        EditorField::Advanced => {
            out.append(
                if editor.advanced {
                    "on"
                } else {
                    "off"
                },
            );
        },
        EditorField::ChatTemplate => {
            out.append(
                profile_editor::chat_template_display(
                    library,
                    editor.settings.chat_template.as_str(),
                ).as_str(),
            );
        },
        _ => {
            out.append(profile_editor::editor_field_value(field, &editor.settings).as_str());
        },
    }
    out
}

/// The first line of a template that the editor shows, so that the one at `line` is in the
/// middle where it can be.
pub fn first_shown(line: usize, total: usize, visible: usize) -> (out: usize)
    ensures
        ({
            let middle = if line < visible / 2 {
                0
            } else {
                line - visible / 2
            };
            let last = if visible == 0 {
                total - 1
            } else {
                total - visible
            };
            out == if middle <= last {
                middle
            } else if last > 0 {
                last
            } else {
                0
            }
        }),
        line < total && visible > 0 ==> out <= line < out + visible,
{
    let middle: usize = if line < visible / 2 {
        0
    } else {
        line - visible / 2
    };
    let rows: usize = if visible == 0 {
        1
    } else {
        visible
    };
    let last: usize = if total < rows {
        0
    } else {
        total - rows
    };
    if middle <= last {
        middle
    } else {
        last
    }
}

/// The rows of the page for maintenance. `llama` and `swap` are the newest versions and
/// whether they are newer than the installed ones, where that is known.
pub open spec fn maintenance_of(
    llama: Option<(Seq<char>, bool)>,
    swap: Option<(Seq<char>, bool)>,
    service: bool,
) -> Seq<Seq<char>> {
    seq![
        "Check for updates"@,
        view::update_label_of("llama.cpp"@, llama),
        view::update_label_of("llama-swap"@, swap),
        if service {
            "Service installed"@
        } else {
            "Install systemd service"@
        },
    ]
}

pub open spec fn check_view(check: Option<(&str, bool)>) -> Option<(Seq<char>, bool)> {
    match check {
        Some((tag, changed)) => Some((tag@, changed)),
        None => None,
    }
}

pub fn maintenance(llama: Option<(&str, bool)>, swap: Option<(&str, bool)>, service: bool) -> (out:
    Vec<String>)
    ensures
        text::views(out@) == maintenance_of(check_view(llama), check_view(swap), service),
{
    let mut out: Vec<String> = Vec::new();
    proof {
        assert(text::views(out@) =~= seq![]);
    }
    process::add(&mut out, "Check for updates");
    process::add(&mut out, view::update_label("llama.cpp", llama).as_str());
    process::add(&mut out, view::update_label("llama-swap", swap).as_str());
    process::add(
        &mut out,
        if service {
            "Service installed"
        } else {
            "Install systemd service"
        },
    );
    proof {
        assert(text::views(out@) =~= maintenance_of(check_view(llama), check_view(swap), service));
    }
    out
}

/// What the reference of controls lists: keys, and what they do.
pub open spec fn controls_of() -> Seq<(Seq<char>, Seq<char>)> {
    seq![
        ("↑/↓ or j/k"@, "select previous/next item"@),
        ("Home / End"@, "select first/last item"@),
        ("←/→ or h/l"@, "switch workspace"@),
        ("Tab / Shift+Tab"@, "switch workspace"@),
        ("1–8"@, "jump directly to a workspace"@),
        ("Enter"@, "run the primary action"@),
        ("r"@, "refresh the current state"@),
        ("?"@, "open or close this control reference"@),
        ("q / Ctrl+C"@, "quit; modal q cancels instead"@),
        ("Models: c / u / d"@, "create profile / unload / delete"@),
        ("Profiles: m / v"@, "run benchmark / view results"@),
        ("Profiles: e / R / c / d"@, "edit / rename / clone / delete"@),
        ("Profiles: b / p / u"@, "bind / pin / unload"@),
        ("Profiles: +/- / [/]"@, "context size / parallel slots"@),
        ("Profiles: t / f / k"@, "split mode / flash attention / KV cache"@),
        ("Search: / or s / i"@, "search / open model card"@),
        ("Search: t"@, "toggle GGUF / Jinja template search"@),
        ("Search: b"@, "back to results"@),
        ("Templates: e / a / R / d"@, "edit / add / rename / delete"@),
    ]
}

pub fn controls() -> (out: Vec<(&'static str, &'static str)>)
    ensures
        ui::key_views(out@) == controls_of(),
{
    let mut out: Vec<(&'static str, &'static str)> = Vec::new();
    out.push(("↑/↓ or j/k", "select previous/next item"));
    out.push(("Home / End", "select first/last item"));
    out.push(("←/→ or h/l", "switch workspace"));
    out.push(("Tab / Shift+Tab", "switch workspace"));
    out.push(("1–8", "jump directly to a workspace"));
    out.push(("Enter", "run the primary action"));
    out.push(("r", "refresh the current state"));
    out.push(("?", "open or close this control reference"));
    out.push(("q / Ctrl+C", "quit; modal q cancels instead"));
    out.push(("Models: c / u / d", "create profile / unload / delete"));
    out.push(("Profiles: m / v", "run benchmark / view results"));
    out.push(("Profiles: e / R / c / d", "edit / rename / clone / delete"));
    out.push(("Profiles: b / p / u", "bind / pin / unload"));
    out.push(("Profiles: +/- / [/]", "context size / parallel slots"));
    out.push(("Profiles: t / f / k", "split mode / flash attention / KV cache"));
    out.push(("Search: / or s / i", "search / open model card"));
    out.push(("Search: t", "toggle GGUF / Jinja template search"));
    out.push(("Search: b", "back to results"));
    out.push(("Templates: e / a / R / d", "edit / add / rename / delete"));
    proof {
        assert(ui::key_views(out@) =~= controls_of());
    }
    out
}

} // verus!
