//! The page that lists the profiles, row by row.
use vstd::prelude::*;

use crate::benchmark::BenchmarkRun;
use crate::benchmark_report;
use crate::editor;
use crate::json;
use crate::json::Json;
use crate::process;
use crate::profiles;
use crate::profiles::{Profiles, ProfilesView};
use crate::table;
use crate::text;

verus! {

/// Which columns the list has.
#[derive(Clone, Copy, Debug, PartialEq, Eq, Structural)]
pub enum Columns {
    Narrow,
    /// With the memory that a profile takes.
    Memory,
    /// With its context and its benchmarks too.
    Wide,
}

/// The columns that a page has room for.
pub fn columns(width: u16) -> (out: Columns)
    ensures
        out == (if width >= 140 {
            Columns::Wide
        } else if width >= 70 {
            Columns::Memory
        } else {
            Columns::Narrow
        }),
{
    if width >= 140 {
        Columns::Wide
    } else if width >= 70 {
        Columns::Memory
    } else {
        Columns::Narrow
    }
}

/// What stands over the columns.
pub open spec fn headings_of(columns: Columns) -> Seq<Seq<char>> {
    match columns {
        Columns::Narrow => seq!["PROFILE"@, "BENCH T/S"@, "LIVE T/S"@],
        Columns::Memory => seq!["PROFILE"@, "VRAM"@, "RAM"@, "BENCH T/S"@, "LIVE T/S"@],
        Columns::Wide => seq![
            "PROFILE"@,
            "VRAM"@,
            "RAM"@,
            "CTX"@,
            "PP-S"@,
            "PP-M"@,
            "PP-L"@,
            "COD"@,
            "PROSE"@,
            "LIVE T/S"@,
        ],
    }
}

pub fn headings(columns: Columns) -> (out: Vec<String>)
    ensures
        text::views(out@) == headings_of(columns),
{
    let mut out: Vec<String> = Vec::new();
    proof {
        assert(text::views(out@) =~= seq![]);
    }
    process::add(&mut out, "PROFILE");
    match columns {
        Columns::Narrow => {
            process::add(&mut out, "BENCH T/S");
        },
        Columns::Memory => {
            process::add(&mut out, "VRAM");
            process::add(&mut out, "RAM");
            process::add(&mut out, "BENCH T/S");
        },
        Columns::Wide => {
            process::add(&mut out, "VRAM");
            process::add(&mut out, "RAM");
            process::add(&mut out, "CTX");
            process::add(&mut out, "PP-S");
            process::add(&mut out, "PP-M");
            process::add(&mut out, "PP-L");
            process::add(&mut out, "COD");
            process::add(&mut out, "PROSE");
        },
    }
    process::add(&mut out, "LIVE T/S");
    proof {
        assert(text::views(out@) =~= headings_of(columns));
    }
    out
}

/// Where the first case with a name stands in a benchmark.
pub fn case_named(run: &BenchmarkRun, name: &str) -> (out: Option<usize>)
    ensures
        match out {
            Some(i) => i == benchmark_report::place_of(run.cases@, name@) && i < run.cases@.len(),
            None => benchmark_report::place_of(run.cases@, name@) == run.cases@.len(),
        },
{
    benchmark_report::find_case(&run.cases, name)
}

/// Whether a profile is the one that its model uses where none is named.
pub open spec fn is_default_of(p: ProfilesView, name: Seq<char>) -> bool {
    match profiles::owner_of(p, name) {
        Some(owner) => table::lookup(p.models, owner) == Some(Json::Text(name)),
        None => false,
    }
}

pub fn is_default(p: &Profiles, name: &str) -> (yes: bool)
    ensures
        yes == is_default_of(p@, name@),
{
    match p.owner(name) {
        Some(owner) => {
            proof {
                table::lemma_mapped_lookup(p.models@, json::to_json(), owner@);
            }
            match p.models.get(owner) {
                Some(bound) => profiles::is_text(Some(bound), name),
                None => false,
            }
        },
        None => false,
    }
}

/// The context that is shown of a profile: its own, else the setting.
pub open spec fn shown_context_of(p: ProfilesView, name: Seq<char>, setting: u64) -> u64 {
    match table::lookup(p.profiles, name) {
        Some(list) => editor::number_under(list, "ctx-size"@, setting),
        None => setting,
    }
}

pub fn shown_context(p: &Profiles, name: &str, setting: u64) -> (out: u64)
    ensures
        out == shown_context_of(p@, name@, setting),
{
    proof {
        table::lemma_mapped_lookup(p.profiles@, profiles::to_members(), name@);
    }
    match p.profiles.get(name) {
        Some(list) => editor::number_of(list, "ctx-size", setting),
        None => setting,
    }
}

/// The name of a profile with the signs of one that is pinned and of one that is used where
/// none is named.
pub open spec fn label_of(name: Seq<char>, pinned: bool, default: bool) -> Seq<char> {
    " "@ + name + (if pinned {
        " ◆"@
    } else {
        ""@
    }) + (if default {
        " ★"@
    } else {
        ""@
    })
}

fn label(name: &str, pinned: bool, default: bool) -> (out: String)
    ensures
        out@ == label_of(name@, pinned, default),
{
    let mut out: String = " ".to_owned();
    out.append(name);
    out.append(
        if pinned {
            " ◆"
        } else {
            ""
        },
    );
    out.append(
        if default {
            " ★"
        } else {
            ""
        },
    );
    out
}

/// How much memory is shown, where it is known.
pub open spec fn gibibytes_of(amount: Option<Seq<char>>) -> Seq<char> {
    match amount {
        Some(s) => s + "G"@,
        None => "…"@,
    }
}

fn gibibytes(amount: Option<&str>) -> (out: String)
    ensures
        out@ == gibibytes_of(text_of(amount)),
{
    match amount {
        Some(s) => {
            let mut out: String = s.to_owned();
            out.append("G");
            out
        },
        None => "…".to_owned(),
    }
}

pub open spec fn text_of(s: Option<&str>) -> Option<Seq<char>> {
    match s {
        Some(s) => Some(s@),
        None => None,
    }
}

/// What is known of a profile, as it is shown: the memory that it takes in gibibytes, the
/// rates of its benchmark, and its rate right now.
pub struct Shown<'a> {
    pub vram: Option<&'a str>,
    pub ram: Option<&'a str>,
    pub benchmarks: Vec<String>,
    pub live: &'a str,
}

/// What the list shows of a profile. Without room for its context, it shows the rates of its
/// benchmark behind the memory.
pub open spec fn row_of(
    p: ProfilesView,
    pinned: Seq<Seq<char>>,
    setting: u64,
    columns: Columns,
    name: Seq<char>,
    vram: Option<Seq<char>>,
    ram: Option<Seq<char>>,
    benchmarks: Seq<Seq<char>>,
    live: Seq<char>,
) -> Seq<Seq<char>> {
    seq![label_of(name, pinned.contains(name), is_default_of(p, name))] + (match columns {
        Columns::Narrow => seq![],
        Columns::Memory => seq![gibibytes_of(vram), gibibytes_of(ram)],
        Columns::Wide => seq![
            gibibytes_of(vram),
            gibibytes_of(ram),
            text::decimal_of(shown_context_of(p, name, setting) as nat),
        ],
    }) + benchmarks + seq![live]
}

pub fn row(
    p: &Profiles,
    pinned: &Vec<String>,
    setting: u64,
    columns: Columns,
    name: &str,
    shown: &Shown<'_>,
) -> (out: Vec<String>)
    ensures
        text::views(out@) == row_of(
            p@,
            text::views(pinned@),
            setting,
            columns,
            name@,
            text_of(shown.vram),
            text_of(shown.ram),
            text::views(shown.benchmarks@),
            shown.live@,
        ),
{
    let mut out: Vec<String> = Vec::new();
    proof {
        assert(text::views(out@) =~= seq![]);
    }
    let first: String = label(name, profiles::holds_text(pinned, name), is_default(p, name));
    process::add(&mut out, first.as_str());
    match columns {
        Columns::Narrow => {},
        Columns::Memory => {
            process::add(&mut out, gibibytes(shown.vram).as_str());
            process::add(&mut out, gibibytes(shown.ram).as_str());
        },
        Columns::Wide => {
            process::add(&mut out, gibibytes(shown.vram).as_str());
            process::add(&mut out, gibibytes(shown.ram).as_str());
            process::add(&mut out, text::decimal(shown_context(p, name, setting)).as_str());
        },
    }
    process::add_all(&mut out, shown.benchmarks.as_slice());
    process::add(&mut out, shown.live);
    proof {
        assert(text::views(out@) =~= row_of(
            p@,
            text::views(pinned@),
            setting,
            columns,
            name@,
            text_of(shown.vram),
            text_of(shown.ram),
            text::views(shown.benchmarks@),
            shown.live@,
        ));
    }
    out
}

/// A row has as many cells as there are columns, where the benchmark has as many rates as
/// the columns ask for.
pub proof fn rows_fit_their_headings(
    p: ProfilesView,
    pinned: Seq<Seq<char>>,
    setting: u64,
    columns: Columns,
    name: Seq<char>,
    vram: Option<Seq<char>>,
    ram: Option<Seq<char>>,
    benchmarks: Seq<Seq<char>>,
    live: Seq<char>,
)
    requires
        benchmarks.len() == (if columns == Columns::Wide {
            5
        } else {
            1int
        }),
    ensures
        row_of(p, pinned, setting, columns, name, vram, ram, benchmarks, live).len()
            == headings_of(columns).len(),
{
}

} // verus!
