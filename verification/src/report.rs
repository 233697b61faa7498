//! What the commands print, line by line.
use vstd::prelude::*;

use crate::huggingface::{DetailsView, ModelDetails};
use crate::process;
use crate::text;

verus! {

fn labelled(label: &str, value: &str) -> (out: String)
    ensures
        out@ == label@ + value@,
{
    let mut out: String = label.to_owned();
    out.append(value);
    out
}

/// What is printed of a repository and its description.
pub open spec fn card_lines_of(d: DetailsView) -> Seq<Seq<char>> {
    seq![
        "  "@ + d.id,
        "  Author     "@ + d.author,
        "  License    "@ + d.license,
        "  Downloads  "@ + text::decimal_of(d.downloads as nat),
        "  Likes      "@ + text::decimal_of(d.likes as nat),
        "  Updated    "@ + d.updated,
        "  Task       "@ + d.task,
        "  Library    "@ + d.library,
        "  Base model "@ + d.base_model,
        "  Languages  "@ + text::joined(d.languages, ", "@),
        "  Tags       "@ + text::joined(d.tags, " - "@),
        "  Page       "@ + d.url,
        ""@,
        d.readme,
    ]
}

pub fn card_lines(d: &ModelDetails) -> (out: Vec<String>)
    ensures
        text::views(out@) == card_lines_of(d@),
{
    let mut out: Vec<String> = Vec::new();
    proof {
        assert(text::views(out@) =~= seq![]);
    }
    process::add(&mut out, labelled("  ", d.id.as_str()).as_str());
    process::add(&mut out, labelled("  Author     ", d.author.as_str()).as_str());
    process::add(&mut out, labelled("  License    ", d.license.as_str()).as_str());
    process::add(
        &mut out,
        labelled("  Downloads  ", text::decimal(d.downloads).as_str()).as_str(),
    );
    process::add(&mut out, labelled("  Likes      ", text::decimal(d.likes).as_str()).as_str());
    process::add(&mut out, labelled("  Updated    ", d.updated.as_str()).as_str());
    process::add(&mut out, labelled("  Task       ", d.task.as_str()).as_str());
    process::add(&mut out, labelled("  Library    ", d.library.as_str()).as_str());
    process::add(&mut out, labelled("  Base model ", d.base_model.as_str()).as_str());
    process::add(
        &mut out,
        labelled("  Languages  ", text::join(&d.languages, ", ").as_str()).as_str(),
    );
    process::add(
        &mut out,
        labelled("  Tags       ", text::join(&d.tags, " - ").as_str()).as_str(),
    );
    process::add(&mut out, labelled("  Page       ", d.url.as_str()).as_str());
    process::add(&mut out, "");
    process::add(&mut out, d.readme.as_str());
    proof {
        assert(text::views(out@) =~= card_lines_of(d@));
    }
    out
}

/// What is printed of the server. `models` counts the models in the library.
pub open spec fn status_lines_of(
    version: Seq<char>,
    backend: Seq<char>,
    host: Seq<char>,
    port: u16,
    pid: Option<u32>,
    models: usize,
    scheduler: bool,
) -> Seq<Seq<char>> {
    seq![
        "llamactl "@ + version,
        "  backend     "@ + backend,
        "  endpoint    http://"@ + host + ":"@ + text::decimal_of(port as nat) + "/v1"@,
        match pid {
            Some(pid) => "  server      running (pid "@ + text::decimal_of(pid as nat) + ")"@,
            None => "  server      stopped"@,
        },
        "  models      "@ + text::decimal_of(models as nat),
        if scheduler {
            "  llama-swap  installed"@
        } else {
            "  llama-swap  not installed"@
        },
    ]
}

pub fn status_lines(
    version: &str,
    backend: &str,
    host: &str,
    port: u16,
    pid: Option<u32>,
    models: usize,
    scheduler: bool,
) -> (out: Vec<String>)
    ensures
        text::views(out@) == status_lines_of(
            version@,
            backend@,
            host@,
            port,
            pid,
            models,
            scheduler,
        ),
{
    let mut out: Vec<String> = Vec::new();
    proof {
        assert(text::views(out@) =~= seq![]);
    }
    process::add(&mut out, labelled("llamactl ", version).as_str());
    process::add(&mut out, labelled("  backend     ", backend).as_str());
    let mut endpoint: String = labelled("  endpoint    http://", host);
    endpoint.append(":");
    endpoint.append(text::decimal(port as u64).as_str());
    endpoint.append("/v1");
    process::add(&mut out, endpoint.as_str());
    match pid {
        Some(pid) => {
            let mut server: String = labelled(
                "  server      running (pid ",
                text::decimal(pid as u64).as_str(),
            );
            server.append(")");
            process::add(&mut out, server.as_str());
        },
        None => {
            process::add(&mut out, "  server      stopped");
        },
    }
    process::add(
        &mut out,
        labelled("  models      ", text::decimal(models as u64).as_str()).as_str(),
    );
    process::add(
        &mut out,
        if scheduler {
            "  llama-swap  installed"
        } else {
            "  llama-swap  not installed"
        },
    );
    proof {
        assert(text::views(out@) =~= status_lines_of(
            version@,
            backend@,
            host@,
            port,
            pid,
            models,
            scheduler,
        ));
    }
    out
}

/// What is printed where a profile was given to the model `id`. `owner` is the model that
/// had it before.
pub open spec fn retarget_lines_of(
    name: Seq<char>,
    id: Seq<char>,
    owner: Option<Seq<char>>,
    removed_mtp: bool,
) -> Seq<Seq<char>> {
    let first = match owner {
        Some(old_id) => if old_id != id {
            "✓ profile "@ + name + " now uses model "@ + id + " (was "@ + old_id + ")"@
        } else {
            "✓ profile "@ + name + " already uses model "@ + id
        },
        None => "✓ profile "@ + name + " now uses model "@ + id,
    };
    if removed_mtp {
        seq![
            first,
            "⚠ removed draft-mtp speculation - model '"@ + id + "' lacks MTP tensors"@,
        ]
    } else {
        seq![first]
    }
}

pub fn retarget_lines(name: &str, id: &str, owner: Option<&str>, removed_mtp: bool) -> (out: Vec<
    String,
>)
    ensures
        text::views(out@) == retarget_lines_of(
            name@,
            id@,
            match owner {
                Some(old_id) => Some(old_id@),
                None => None,
            },
            removed_mtp,
        ),
{
    let mut out: Vec<String> = Vec::new();
    proof {
        assert(text::views(out@) =~= seq![]);
    }
    let mut first: String = labelled("✓ profile ", name);
    match owner {
        Some(old_id) => {
            if text::same(old_id, id) {
                first.append(" already uses model ");
                first.append(id);
            } else {
                first.append(" now uses model ");
                first.append(id);
                first.append(" (was ");
                first.append(old_id);
                first.append(")");
            }
        },
        None => {
            first.append(" now uses model ");
            first.append(id);
        },
    }
    process::add(&mut out, first.as_str());
    if removed_mtp {
        let mut second: String = labelled("⚠ removed draft-mtp speculation - model '", id);
        second.append("' lacks MTP tensors");
        process::add(&mut out, second.as_str());
    }
    proof {
        assert(text::views(out@) =~= retarget_lines_of(
            name@,
            id@,
            match owner {
                Some(old_id) => Some(old_id@),
                None => None,
            },
            removed_mtp,
        ));
    }
    out
}

} // verus!
