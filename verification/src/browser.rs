//! The search for models and templates: what was found, and what is open.
use vstd::prelude::*;

use crate::commands;
use crate::editing;
use crate::editing::{Key, KeyCode, Line, LineView};
use crate::figures;
use crate::huggingface::{
    Artifact, ArtifactView, ModelDetails, Repository, RepositoryView, TemplateHit,
};
use crate::process;
use crate::text;

verus! {

/// A template that is shown.
pub struct TemplateView {
    pub id: String,
    pub template: String,
    pub scroll: u16,
}

/// The state of the search.
pub struct Browser {
    pub query: Line,
    pub editing: bool,
    pub search_templates: bool,
    pub repositories: Vec<Repository>,
    pub repository: Option<Repository>,
    pub artifacts: Vec<Artifact>,
    pub template_hits: Vec<TemplateHit>,
    pub template_view: Option<TemplateView>,
    pub details: Option<ModelDetails>,
    pub details_open: bool,
    pub detail_scroll: u16,
}

#[verifier::ext_equal]
pub ghost struct BrowserView {
    pub query: LineView,
    pub editing: bool,
    pub search_templates: bool,
    pub repositories: Seq<Repository>,
    pub repository: Option<Repository>,
    pub artifacts: Seq<Artifact>,
    pub template_hits: Seq<TemplateHit>,
    pub template_view: Option<TemplateView>,
    pub details: Option<ModelDetails>,
    pub details_open: bool,
    pub detail_scroll: u16,
}

impl View for Browser {
    type V = BrowserView;

    open spec fn view(&self) -> BrowserView {
        BrowserView {
            query: self.query@,
            editing: self.editing,
            search_templates: self.search_templates,
            repositories: self.repositories@,
            repository: self.repository,
            artifacts: self.artifacts@,
            template_hits: self.template_hits@,
            template_view: self.template_view,
            details: self.details,
            details_open: self.details_open,
            detail_scroll: self.detail_scroll,
        }
    }
}

/// What a request brought.
pub enum SearchResult {
    Repositories(Vec<Repository>),
    Templates(Vec<TemplateHit>),
    Artifacts(Repository, Vec<Artifact>, ModelDetails),
    Details(ModelDetails),
}

/// The search with nothing open and no details.
pub open spec fn closed_pages(b: BrowserView) -> BrowserView {
    BrowserView {
        repository: None,
        artifacts: seq![],
        template_hits: seq![],
        template_view: None,
        details: None,
        details_open: false,
        ..b
    }
}

/// The search after a request was sent for it.
pub open spec fn searching(b: BrowserView) -> BrowserView {
    BrowserView { editing: false, detail_scroll: 0, ..closed_pages(b) }
}

/// What is said while a search runs.
pub open spec fn searching_notice(b: BrowserView) -> Seq<char> {
    let query = text::trim_of(b.query.text);
    if query.len() == 0 {
        "Searching "@ + (if b.search_templates {
            "Jinja templates"@
        } else {
            "public GGUF repositories"@
        }) + "…"@
    } else {
        "Searching Hugging Face for "@ + query + "…"@
    }
}

/// The search after something was brought, what is said of it, and whether the first entry
/// is selected.
pub open spec fn received(b: BrowserView, result: SearchResult) -> (BrowserView, Seq<char>, bool) {
    match result {
        SearchResult::Repositories(list) => (
            BrowserView { repositories: list@, detail_scroll: 0, ..closed_pages(b) },
            if list@.len() == 0 {
                "No public, non-gated GGUF repositories matched"@
            } else {
                "Found "@ + text::decimal_of(list@.len()) + " public GGUF repositories"@
            },
            true,
        ),
        SearchResult::Templates(hits) => (
            BrowserView {
                template_hits: hits@,
                repositories: seq![],
                detail_scroll: 0,
                ..closed_pages(b)
            },
            if hits@.len() == 0 {
                "No public repositories with a chat template matched"@
            } else {
                "Found "@ + text::decimal_of(hits@.len())
                    + " repositories with a Jinja template"@
            },
            true,
        ),
        SearchResult::Artifacts(repository, artifacts, details) => (
            BrowserView {
                repository: Some(repository),
                artifacts: artifacts@,
                details: Some(details),
                details_open: true,
                detail_scroll: 0,
                ..b
            },
            if artifacts@.len() == 0 {
                "No downloadable GGUF model files in "@ + repository.id@
            } else {
                text::decimal_of(artifacts@.len()) + " quantizations available in "@
                    + repository.id@
            },
            true,
        ),
        SearchResult::Details(details) => (
            BrowserView { details: Some(details), details_open: true, detail_scroll: 0, ..b },
            "Loaded Hugging Face model card"@,
            false,
        ),
    }
}

fn counted(front: &str, n: usize, back: &str) -> (out: String)
    ensures
        out@ == front@ + text::decimal_of(n as nat) + back@,
{
    let mut out: String = front.to_owned();
    out.append(text::decimal(n as u64).as_str());
    out.append(back);
    out
}

impl Browser {
    fn close_pages(&mut self)
        ensures
            final(self)@ == closed_pages(old(self)@),
    {
        self.repository = None;
        self.artifacts = Vec::new();
        self.template_hits = Vec::new();
        self.template_view = None;
        self.details = None;
        self.details_open = false;
    }

    /// Starts a search, and says so.
    pub fn start_search(&mut self) -> (notice: String)
        ensures
            final(self)@ == searching(old(self)@),
            notice@ == searching_notice(old(self)@),
    {
        self.editing = false;
        self.detail_scroll = 0;
        self.close_pages();
        let query: String = text::trim(self.query.text.as_str());
        if text::chars_of(query.as_str()).len() == 0 {
            let mut notice: String = "Searching ".to_owned();
            notice.append(
                if self.search_templates {
                    "Jinja templates"
                } else {
                    "public GGUF repositories"
                },
            );
            notice.append("…");
            notice
        } else {
            let mut notice: String = "Searching Hugging Face for ".to_owned();
            notice.append(query.as_str());
            notice.append("…");
            notice
        }
    }

    /// Takes what a request brought, and says what it is and whether the first entry is
    /// selected.
    pub fn receive(&mut self, result: SearchResult) -> (out: (String, bool))
        ensures
            (final(self)@, out.0@, out.1) == received(old(self)@, result),
    {
        match result {
            SearchResult::Repositories(list) => {
                let count: usize = list.len();
                self.detail_scroll = 0;
                self.close_pages();
                self.repositories = list;
                if count == 0 {
                    ("No public, non-gated GGUF repositories matched".to_owned(), true)
                } else {
                    (counted("Found ", count, " public GGUF repositories"), true)
                }
            },
            SearchResult::Templates(hits) => {
                let count: usize = hits.len();
                self.detail_scroll = 0;
                self.close_pages();
                self.repositories = Vec::new();
                self.template_hits = hits;
                if count == 0 {
                    ("No public repositories with a chat template matched".to_owned(), true)
                } else {
                    (counted("Found ", count, " repositories with a Jinja template"), true)
                }
            },
            SearchResult::Artifacts(repository, artifacts, details) => {
                let count: usize = artifacts.len();
                let notice: String = if count == 0 {
                    let mut s: String = "No downloadable GGUF model files in ".to_owned();
                    s.append(repository.id.as_str());
                    s
                } else {
                    let mut s: String = text::decimal(count as u64);
                    s.append(" quantizations available in ");
                    s.append(repository.id.as_str());
                    s
                };
                self.repository = Some(repository);
                self.artifacts = artifacts;
                self.details = Some(details);
                self.details_open = true;
                self.detail_scroll = 0;
                (notice, true)
            },
            SearchResult::Details(details) => {
                self.details = Some(details);
                self.details_open = true;
                self.detail_scroll = 0;
                ("Loaded Hugging Face model card".to_owned(), false)
            },
        }
    }

    /// Searches for templates instead of models, or the other way round, and says so.
    pub fn toggle_mode(&mut self) -> (notice: String)
        ensures
            final(self)@ == (BrowserView {
                search_templates: !old(self)@.search_templates,
                repositories: seq![],
                ..closed_pages(old(self)@)
            }),
            notice@ == if old(self)@.search_templates {
                "Search mode: GGUF models"@
            } else {
                "Search mode: Jinja chat templates"@
            },
    {
        self.search_templates = !self.search_templates;
        self.repositories = Vec::new();
        self.close_pages();
        if self.search_templates {
            "Search mode: Jinja chat templates".to_owned()
        } else {
            "Search mode: GGUF models".to_owned()
        }
    }

    /// Leaves a repository; `false` where none is open.
    pub fn back(&mut self) -> (left: bool)
        ensures
            left == (old(self)@.repository is Some),
            final(self)@ == if left {
                BrowserView { repository: None, artifacts: seq![], ..old(self)@ }
            } else {
                old(self)@
            },
    {
        if self.repository.is_none() {
            return false;
        }
        self.repository = None;
        self.artifacts = Vec::new();
        true
    }

    /// Opens the line in which the search is typed.
    pub fn open_search(&mut self)
        ensures
            final(self)@ == (BrowserView {
                editing: true,
                query: LineView {
                    text: old(self)@.query.text,
                    cursor: old(self)@.query.text.len() as int,
                },
                ..old(self)@
            }),
    {
        self.editing = true;
        self.query.cursor = text::chars_of(self.query.text.as_str()).len();
    }

    /// Shows the template at a place in the results; `false` where there is none.
    pub fn show_template(&mut self, at: usize) -> (shown: bool)
        ensures
            shown == (at < old(self)@.template_hits.len()),
            shown ==> match final(self)@.template_view {
                Some(view) => {
                    &&& view.id@ == old(self)@.template_hits[at as int].id@
                    &&& view.template@ == old(self)@.template_hits[at as int].template@
                    &&& view.scroll == 0
                },
                None => false,
            },
            (BrowserView { template_view: old(self)@.template_view, ..final(self)@ }) == old(
                self,
            )@,
            !shown ==> final(self)@ == old(self)@,
    {
        if at >= self.template_hits.len() {
            return false;
        }
        self.template_view = Some(
            TemplateView {
                id: self.template_hits[at].id.clone(),
                template: self.template_hits[at].template.clone(),
                scroll: 0,
            },
        );
        true
    }

    /// Does what a key means to the details, and says whether they are left by it.
    pub fn press_details(&mut self, key: Key) -> (left: bool)
        ensures
            left == closes_details(key),
            final(self)@ == if left {
                BrowserView { details_open: false, ..old(self)@ }
            } else {
                BrowserView { detail_scroll: final(self)@.detail_scroll, ..old(self)@ }
            },
            !left ==> match editing::scrolled(
                old(self)@.detail_scroll,
                rows_in(old(self)@.details),
                key,
            ) {
                Some(n) => final(self)@.detail_scroll == n,
                None => final(self)@.detail_scroll == old(self)@.detail_scroll,
            },
    {
        match key.code {
            KeyCode::Esc | KeyCode::Enter | KeyCode::Char('q') | KeyCode::Char('i') => {
                self.details_open = false;
                return true;
            },
            _ => {},
        }
        let rows: u16 = match &self.details {
            Some(details) => editing::card_rows(details.readme.as_str()),
            None => 0,
        };
        match editing::scroll_by(self.detail_scroll, rows, key) {
            Some(n) => {
                self.detail_scroll = n;
            },
            None => {},
        }
        false
    }
}

/// Whether a key leaves the details of a model.
pub open spec fn closes_details(key: Key) -> bool {
    key.code == KeyCode::Esc || key.code == KeyCode::Enter || key.code == KeyCode::Char('q')
        || key.code == KeyCode::Char('i')
}

/// How many rows the card of a model takes.
pub open spec fn rows_in(details: Option<ModelDetails>) -> u16 {
    match details {
        Some(d) => {
            let lines = text::lines_of(d.readme@);
            let rows = editing::all_rows(lines, lines.len());
            if rows <= u16::MAX {
                rows as u16
            } else {
                u16::MAX
            }
        },
        None => 0,
    }
}

/// What a key asks of a template that is shown.
#[derive(Clone, Copy, Debug, PartialEq, Eq, Structural)]
pub enum ViewRequest {
    Nothing,
    Close,
    Save,
}

/// The rows of a template: as many as it has lines, at least one, and at most as many as a
/// position can tell apart.
pub open spec fn template_rows(template: Seq<char>) -> u16 {
    let n = text::lines_of(template).len();
    if n == 0 {
        1
    } else if n <= u16::MAX {
        n as u16
    } else {
        u16::MAX
    }
}

impl TemplateView {
    /// Does what a key means to a template that is shown, and says what is asked.
    pub fn press(&mut self, key: Key) -> (out: ViewRequest)
        ensures
            out == if key.code == KeyCode::Esc || key.code == KeyCode::Char('q') || key.code
                == KeyCode::Char('i') {
                ViewRequest::Close
            } else if key.code == KeyCode::Char('s') {
                ViewRequest::Save
            } else {
                ViewRequest::Nothing
            },
            final(self).id == old(self).id,
            final(self).template == old(self).template,
            match editing::scrolled(
                old(self).scroll,
                template_rows(old(self).template@),
                key,
            ) {
                Some(n) => final(self).scroll == n,
                None => final(self).scroll == old(self).scroll,
            },
    {
        match key.code {
            KeyCode::Esc | KeyCode::Char('q') | KeyCode::Char('i') => return ViewRequest::Close,
            KeyCode::Char('s') => return ViewRequest::Save,
            _ => {},
        }
        let lines: Vec<String> = text::lines(self.template.as_str());
        proof {
            assert(text::views(lines@).len() == lines@.len());
        }
        let rows: u16 = if lines.len() == 0 {
            1
        } else if lines.len() <= u16::MAX as usize {
            lines.len() as u16
        } else {
            u16::MAX
        };
        match editing::scroll_by(self.scroll, rows, key) {
            Some(n) => {
                self.scroll = n;
            },
            None => {},
        }
        ViewRequest::Nothing
    }
}

/// What is to be done where the details of a repository are asked for.
#[derive(Clone, Copy, Debug, PartialEq, Eq, Structural)]
pub enum DetailsRequest {
    /// No repository is selected.
    Select,
    /// The details are there.
    Show,
    /// Another request is running.
    Wait,
    Load,
}

/// What is to be done where the details of a repository are asked for: `wanted` is its
/// identifier and `known` that of the repository whose details are there.
pub fn details_request(wanted: Option<&str>, known: Option<&str>, busy: bool) -> (out:
    DetailsRequest)
    ensures
        out == match wanted {
            None => DetailsRequest::Select,
            Some(id) => if known is Some && known->Some_0@ == id@ {
                DetailsRequest::Show
            } else if busy {
                DetailsRequest::Wait
            } else {
                DetailsRequest::Load
            },
        },
{
    match wanted {
        None => DetailsRequest::Select,
        Some(id) => {
            let there: bool = match known {
                Some(other) => text::same(other, id),
                None => false,
            };
            if there {
                DetailsRequest::Show
            } else if busy {
                DetailsRequest::Wait
            } else {
                DetailsRequest::Load
            }
        },
    }
}

/// What is shown while a request runs.
pub open spec fn waiting_message(notice: Seq<char>, search_templates: bool) -> Seq<char> {
    if text::holds(notice, "model card"@) {
        "Loading model card…"@
    } else if text::holds(notice, "GGUF files"@) {
        "Reading repository files…"@
    } else if search_templates {
        "Searching Hugging Face for chat templates…"@
    } else {
        "Searching Hugging Face…"@
    }
}

pub fn waiting(notice: &str, search_templates: bool) -> (out: &'static str)
    ensures
        out@ == waiting_message(notice@, search_templates),
{
    if text::contains(notice, "model card") {
        "Loading model card…"
    } else if text::contains(notice, "GGUF files") {
        "Reading repository files…"
    } else if search_templates {
        "Searching Hugging Face for chat templates…"
    } else {
        "Searching Hugging Face…"
    }
}

/// What is said of a model that can be fetched.
pub open spec fn notes_of(a: ArtifactView) -> Seq<char> {
    let vision = if a.has_mmproj {
        " - vision included"@
    } else {
        ""@
    };
    let parts = if a.complete {
        ""@
    } else {
        " - incomplete shards"@
    };
    a.description + vision + parts
}

pub fn artifact_notes(a: &Artifact) -> (out: String)
    ensures
        out@ == notes_of(a@),
{
    let mut out: String = a.description.clone();
    out.append(
        if a.has_mmproj {
            " - vision included"
        } else {
            ""
        },
    );
    out.append(
        if a.complete {
            ""
        } else {
            " - incomplete shards"
        },
    );
    out
}

/// How many files a model consists of.
pub open spec fn files_of(shards: nat) -> Seq<char> {
    if shards > 1 {
        text::decimal_of(shards) + " shards"@
    } else {
        "1 file"@
    }
}

/// How many files a model consists of.
pub fn files_text(shards: usize) -> (out: String)
    ensures
        out@ == files_of(shards as nat),
{
    if shards > 1 {
        let mut out: String = text::decimal(shards as u64);
        out.append(" shards");
        out
    } else {
        "1 file".to_owned()
    }
}

/// What a search lists.
#[derive(Clone, Copy, Debug, PartialEq, Eq, Structural)]
pub enum Listing {
    Templates,
    Artifacts,
    Repositories,
}

/// The columns of a list, some of them only where the page is wide.
pub open spec fn headings_of(listing: Listing, wide: bool) -> Seq<Seq<char>> {
    match (listing, wide) {
        (Listing::Templates, true) => seq!["REPOSITORY"@, "DOWNLOADS"@, "LIKES"@, "PREVIEW"@],
        (Listing::Templates, false) => seq!["REPOSITORY"@, "DOWNLOADS"@, "PREVIEW"@],
        (Listing::Artifacts, true) => seq![
            "QUANTIZATION"@,
            "SIZE"@,
            "QUALITY"@,
            "FILES"@,
            "NOTES"@,
        ],
        (Listing::Artifacts, false) => seq!["QUANTIZATION"@, "SIZE"@, "NOTES"@],
        (Listing::Repositories, true) => seq![
            "REPOSITORY"@,
            "DOWNLOADS"@,
            "LIKES"@,
            "LICENSE"@,
            "UPDATED"@,
        ],
        (Listing::Repositories, false) => seq!["REPOSITORY"@, "DOWNLOADS"@, "LICENSE"@],
    }
}

pub fn headings(listing: Listing, wide: bool) -> (out: Vec<String>)
    ensures
        text::views(out@) == headings_of(listing, wide),
{
    let mut out: Vec<String> = Vec::new();
    proof {
        assert(text::views(out@) =~= seq![]);
    }
    match listing {
        Listing::Templates => {
            process::add(&mut out, "REPOSITORY");
            process::add(&mut out, "DOWNLOADS");
            if wide {
                process::add(&mut out, "LIKES");
            }
            process::add(&mut out, "PREVIEW");
        },
        Listing::Artifacts => {
            process::add(&mut out, "QUANTIZATION");
            process::add(&mut out, "SIZE");
            if wide {
                process::add(&mut out, "QUALITY");
                process::add(&mut out, "FILES");
            }
            process::add(&mut out, "NOTES");
        },
        Listing::Repositories => {
            process::add(&mut out, "REPOSITORY");
            process::add(&mut out, "DOWNLOADS");
            if wide {
                process::add(&mut out, "LIKES");
            }
            process::add(&mut out, "LICENSE");
            if wide {
                process::add(&mut out, "UPDATED");
            }
        },
    }
    proof {
        assert(text::views(out@) =~= headings_of(listing, wide));
    }
    out
}

/// What the list shows of a repository.
pub open spec fn repository_row(r: RepositoryView, wide: bool) -> Seq<Seq<char>> {
    let downloads = figures::count_text(r.downloads as nat);
    if wide {
        seq![" "@ + r.id, downloads, figures::count_text(r.likes as nat), r.license, r.updated]
    } else {
        seq![" "@ + r.id, downloads, r.license]
    }
}

fn indented(s: &str) -> (out: String)
    ensures
        out@ == " "@ + s@,
{
    let mut out: String = " ".to_owned();
    out.append(s);
    out
}

pub fn repository_cells(r: &Repository, wide: bool) -> (out: Vec<String>)
    ensures
        text::views(out@) == repository_row(r@, wide),
{
    let mut out: Vec<String> = Vec::new();
    proof {
        assert(text::views(out@) =~= seq![]);
    }
    process::add(&mut out, indented(r.id.as_str()).as_str());
    process::add(&mut out, figures::format_count(r.downloads).as_str());
    if wide {
        process::add(&mut out, figures::format_count(r.likes).as_str());
    }
    process::add(&mut out, r.license.as_str());
    if wide {
        process::add(&mut out, r.updated.as_str());
    }
    proof {
        assert(text::views(out@) =~= repository_row(r@, wide));
    }
    out
}

/// What the list shows of a model that can be fetched.
pub open spec fn artifact_row(a: ArtifactView, wide: bool) -> Seq<Seq<char>> {
    let label = " "@ + a.label + (if a.recommended {
        "  RECOMMENDED"@
    } else {
        ""@
    });
    let bytes = figures::bytes_text(a.size);
    if wide {
        seq![
            label,
            bytes,
            text::decimal_of(a.quality as nat) + "/5"@,
            files_of(a.shard_count),
            notes_of(a),
        ]
    } else {
        seq![label, bytes, notes_of(a)]
    }
}

pub fn artifact_cells(a: &Artifact, wide: bool) -> (out: Vec<String>)
    ensures
        text::views(out@) == artifact_row(a@, wide),
{
    let mut out: Vec<String> = Vec::new();
    proof {
        assert(text::views(out@) =~= seq![]);
    }
    let mut label: String = indented(a.label.as_str());
    label.append(
        if a.recommended {
            "  RECOMMENDED"
        } else {
            ""
        },
    );
    process::add(&mut out, label.as_str());
    process::add(&mut out, figures::format_bytes(a.size).as_str());
    if wide {
        let mut quality: String = text::decimal(a.quality as u64);
        quality.append("/5");
        process::add(&mut out, quality.as_str());
        process::add(&mut out, files_text(a.shard_count).as_str());
    }
    process::add(&mut out, artifact_notes(a).as_str());
    proof {
        assert(text::views(out@) =~= artifact_row(a@, wide));
    }
    out
}

/// What the list shows of a template.
pub fn template_cells(hit: &TemplateHit, wide: bool) -> (out: Vec<String>)
    ensures
        text::views(out@) == (if wide {
            seq![
                " "@ + hit.id@,
                figures::count_text(hit.downloads as nat),
                figures::count_text(hit.likes as nat),
                commands::preview_of(hit.template@, 80),
            ]
        } else {
            seq![
                " "@ + hit.id@,
                figures::count_text(hit.downloads as nat),
                commands::preview_of(hit.template@, 80),
            ]
        }),
{
    let mut out: Vec<String> = Vec::new();
    proof {
        assert(text::views(out@) =~= seq![]);
    }
    process::add(&mut out, indented(hit.id.as_str()).as_str());
    process::add(&mut out, figures::format_count(hit.downloads).as_str());
    if wide {
        process::add(&mut out, figures::format_count(hit.likes).as_str());
    }
    process::add(&mut out, commands::preview(hit.template.as_str(), 80).as_str());
    out
}

/// Which repository is open, and under which terms it can be used.
pub fn repository_text(r: &Repository) -> (out: String)
    ensures
        out@ == " Repository "@ + r@.id + " - License "@ + r@.license,
{
    let mut out: String = " Repository ".to_owned();
    out.append(r.id.as_str());
    out.append(" - License ");
    out.append(r.license.as_str());
    out
}

impl Browser {
    /// What is listed.
    pub open spec fn listed(self) -> Listing {
        if self.search_templates {
            Listing::Templates
        } else if self.repository is Some {
            Listing::Artifacts
        } else {
            Listing::Repositories
        }
    }

    pub fn listing(&self) -> (out: Listing)
        ensures
            out == self.listed(),
    {
        if self.search_templates {
            Listing::Templates
        } else if self.repository.is_some() {
            Listing::Artifacts
        } else {
            Listing::Repositories
        }
    }

    /// Whether nothing is listed, so that the page says what it would show.
    pub fn shows_hint(&self) -> (yes: bool)
        ensures
            yes == match self.listed() {
                Listing::Templates => self.template_hits@.len() == 0,
                Listing::Artifacts => false,
                Listing::Repositories => self.repositories@.len() == 0,
            },
    {
        match self.listing() {
            Listing::Templates => self.template_hits.len() == 0,
            Listing::Artifacts => false,
            Listing::Repositories => self.repositories.len() == 0,
        }
    }
}

} // verus!
