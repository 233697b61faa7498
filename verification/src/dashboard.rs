//! The page that shows what the server does, line by line.
use vstd::prelude::*;

use crate::figures;
use crate::process;
use crate::telemetry::{Activity, ModelState, RequestCounts, Slot, SlotView, Totals};
use crate::text;
use crate::view;

verus! {

/// What the page says of the server. `keys` counts the keys that it takes, `models` the
/// models in the library and `profiles` the profiles.
pub open spec fn server_lines_of(
    pid: Option<u32>,
    host: Seq<char>,
    port: u16,
    keys: usize,
    version: Seq<char>,
    models: usize,
    profiles: usize,
) -> Seq<Seq<char>> {
    let state = match pid {
        Some(pid) => "● ONLINE - pid "@ + text::decimal_of(pid as nat),
        None => "○ OFFLINE - pid "@ + text::decimal_of(0),
    };
    let shown = if version.len() == 0 {
        "unknown"@
    } else {
        version
    };
    seq![
        state,
        ""@,
        "Endpoint  http://"@ + host + ":"@ + text::decimal_of(port as nat) + "/v1"@,
        "Auth      "@ + text::decimal_of(keys as nat) + " API key(s)"@,
        "Runtime   llama.cpp "@ + shown,
        "Models    "@ + text::decimal_of(models as nat) + " discovered"@,
        "Profiles  "@ + text::decimal_of(profiles as nat) + " loaded"@,
    ]
}

fn counted(front: &str, n: u64, back: &str) -> (out: String)
    ensures
        out@ == front@ + text::decimal_of(n as nat) + back@,
{
    let mut out: String = front.to_owned();
    out.append(text::decimal(n).as_str());
    out.append(back);
    out
}

/// What the page says of the server.
pub fn server_lines(
    pid: Option<u32>,
    host: &str,
    port: u16,
    keys: usize,
    version: &str,
    models: usize,
    profiles: usize,
) -> (out: Vec<String>)
    ensures
        text::views(out@) == server_lines_of(pid, host@, port, keys, version@, models, profiles),
{
    let mut out: Vec<String> = Vec::new();
    proof {
        assert(text::views(out@) =~= seq![]);
        reveal_strlit("");
    }
    let state: String = match pid {
        Some(pid) => counted("● ONLINE - pid ", pid as u64, ""),
        None => counted("○ OFFLINE - pid ", 0, ""),
    };
    let mut endpoint: String = "Endpoint  http://".to_owned();
    endpoint.append(host);
    endpoint.append(counted(":", port as u64, "/v1").as_str());
    let mut runtime: String = "Runtime   llama.cpp ".to_owned();
    if version.is_empty() {
        runtime.append("unknown");
    } else {
        runtime.append(version);
    }
    process::add(&mut out, state.as_str());
    process::add(&mut out, "");
    process::add(&mut out, endpoint.as_str());
    process::add(&mut out, counted("Auth      ", keys as u64, " API key(s)").as_str());
    process::add(&mut out, runtime.as_str());
    process::add(&mut out, counted("Models    ", models as u64, " discovered").as_str());
    process::add(&mut out, counted("Profiles  ", profiles as u64, " loaded").as_str());
    proof {
        let owed = server_lines_of(pid, host@, port, keys, version@, models, profiles);
        assert(state@ =~= owed[0]);
        assert(endpoint@ =~= owed[2]);
        assert(text::views(out@) =~= owed);
    }
    out
}

/// What the scheduler has counted, in one line.
pub open spec fn totals_line(t: Totals) -> Seq<char> {
    " REQUESTS "@ + text::decimal_of(t.requests as nat) + "   INPUT "@ + text::decimal_of(
        t.input_tokens as nat,
    ) + "   OUTPUT "@ + text::decimal_of(t.output_tokens as nat) + "   CACHE "@
        + text::decimal_of(t.cache_tokens as nat)
}

pub fn totals_text(t: &Totals) -> (out: String)
    ensures
        out@ == totals_line(*t),
{
    let mut out: String = counted(" REQUESTS ", t.requests, "   INPUT ");
    out.append(counted("", t.input_tokens, "   OUTPUT ").as_str());
    out.append(counted("", t.output_tokens, "   CACHE ").as_str());
    out.append(text::decimal(t.cache_tokens).as_str());
    proof {
        reveal_strlit("");
        assert(out@ =~= totals_line(*t));
    }
    out
}

/// What a state is called.
pub open spec fn state_name(state: ModelState) -> Seq<char> {
    match state {
        ModelState::Absent => "None"@,
        ModelState::Loading => "Loading"@,
        ModelState::Loaded => "Loaded"@,
    }
}

/// Which models are served, and whether they are loaded.
pub open spec fn model_line(names: Seq<char>, state: ModelState) -> Seq<char> {
    if names.len() == 0 {
        "— (no model)"@
    } else {
        names + " ("@ + state_name(state) + ")"@
    }
}

pub fn model_text(names: &str, state: ModelState) -> (out: String)
    ensures
        out@ == model_line(names@, state),
{
    if names.is_empty() {
        return "— (no model)".to_owned();
    }
    let mut out: String = names.to_owned();
    out.append(" (");
    out.append(
        match state {
            ModelState::Absent => "None",
            ModelState::Loading => "Loading",
            ModelState::Loaded => "Loaded",
        },
    );
    out.append(")");
    out
}

/// The title over the slots of a model.
pub fn group_title(name: &str, state: ModelState) -> (out: String)
    ensures
        out@ == if state == ModelState::Loading {
            name@ + " - LOADING"@
        } else {
            name@
        },
{
    let mut out: String = name.to_owned();
    match state {
        ModelState::Loading => {
            out.append(" - LOADING");
        },
        _ => {},
    }
    out
}

/// How many of the drafted tokens were accepted.
pub open spec fn acceptance_of(accepted: u64, drafted: u64) -> Seq<char> {
    if drafted > 0 {
        figures::percent_text(accepted, drafted) + "% ("@ + text::decimal_of(accepted as nat)
            + "/"@ + text::decimal_of(drafted as nat) + ")"@
    } else {
        "—"@
    }
}

fn acceptance(accepted: u64, drafted: u64) -> (out: String)
    ensures
        out@ == acceptance_of(accepted, drafted),
{
    if drafted > 0 {
        let mut out: String = figures::format_percent(accepted, drafted);
        out.append("% (");
        out.append(counted("", accepted, "/").as_str());
        out.append(counted("", drafted, ")").as_str());
        proof {
            reveal_strlit("");
            assert(out@ =~= acceptance_of(accepted, drafted));
        }
        out
    } else {
        "—".to_owned()
    }
}

/// What the page says of the last request. The rates and the time to the first token are
/// given as they are shown.
pub open spec fn last_request_of(
    model: Seq<char>,
    c: RequestCounts,
    prompt_rate: Seq<char>,
    rate: Seq<char>,
    first_token: Option<Seq<char>>,
) -> Seq<char> {
    " "@ + model + "  PP "@ + prompt_rate + " tok/s   GEN "@ + rate + " tok/s   TOKENS "@
        + text::decimal_of(c.prompt_tokens as nat) + "→"@ + text::decimal_of(c.output_tokens as nat)
        + "   CACHE "@ + text::decimal_of(c.cache_tokens as nat) + "   DRAFT "@ + acceptance_of(
        c.draft_accepted,
        c.draft_tokens,
    ) + "   TTFT "@ + (match first_token {
        Some(s) => s,
        None => "--"@,
    }) + "   TIME "@ + figures::hundredths_of(figures::quotient(c.duration_ms as nat, 1000)) + "s"@
}

pub fn last_request_text(
    c: &RequestCounts,
    prompt_rate: &str,
    rate: &str,
    first_token: Option<&str>,
) -> (out: String)
    ensures
        out@ == last_request_of(
            c.model@,
            *c,
            prompt_rate@,
            rate@,
            match first_token {
                Some(s) => Some(s@),
                None => None,
            },
        ),
{
    let mut out: String = " ".to_owned();
    out.append(c.model.as_str());
    out.append("  PP ");
    out.append(prompt_rate);
    out.append(" tok/s   GEN ");
    out.append(rate);
    out.append(" tok/s   TOKENS ");
    out.append(text::decimal(c.prompt_tokens).as_str());
    out.append("→");
    out.append(text::decimal(c.output_tokens).as_str());
    out.append("   CACHE ");
    out.append(text::decimal(c.cache_tokens).as_str());
    out.append("   DRAFT ");
    out.append(acceptance(c.draft_accepted, c.draft_tokens).as_str());
    out.append("   TTFT ");
    match first_token {
        Some(s) => {
            out.append(s);
        },
        None => {
            out.append("--");
        },
    }
    out.append("   TIME ");
    out.append(figures::format_seconds(c.duration_ms).as_str());
    out.append("s");
    out
}

/// A text with blanks in front, so that it is `width` characters wide.
pub open spec fn padded(s: Seq<char>, width: nat) -> Seq<char> {
    if s.len() < width {
        Seq::new((width - s.len()) as nat, |i: int| ' ') + s
    } else {
        s
    }
}

fn pad(s: &str, width: usize) -> (out: String)
    ensures
        out@ == padded(s@, width as nat),
{
    let length: usize = text::chars_of(s).len();
    if length >= width {
        return s.to_owned();
    }
    let mut out: String = String::new();
    let mut i: usize = length;
    proof {
        assert(out@ =~= Seq::new(0, |i: int| ' '));
    }
    while i < width
        invariant
            length <= i <= width,
            out@ == Seq::new((i - length) as nat, |i: int| ' '),
        decreases width - i,
    {
        out.push(' ');
        i += 1;
        proof {
            assert(out@ =~= Seq::new((i - length) as nat, |i: int| ' '));
        }
    }
    out.append(s);
    out
}

/// What the page says of a slot. Its rate is given as it is shown.
pub open spec fn slot_line(s: SlotView, rate: Option<Seq<char>>) -> Seq<char> {
    " P "@ + (if s.is_processing {
        padded(figures::progress_text(s.prompt_done, s.prompt_total), 3) + "%"@
    } else {
        " —"@
    }) + "  TOK "@ + padded(text::decimal_of(s.decoded as nat), 7) + "  T/S "@ + (match rate {
        Some(rate) => rate,
        None => "—"@,
    }) + (if s.is_processing {
        "  active "@
    } else {
        "  idle "@
    })
}

pub fn slot_text(s: &Slot, rate: Option<&str>) -> (out: String)
    ensures
        out@ == slot_line(
            s@,
            match rate {
                Some(rate) => Some(rate@),
                None => None,
            },
        ),
{
    let mut out: String = " P ".to_owned();
    if s.is_processing {
        let mut share: String = pad(
            figures::format_progress(s.prompt_done, s.prompt_total).as_str(),
            3,
        );
        share.append("%");
        out.append(share.as_str());
    } else {
        out.append(" —");
    }
    out.append("  TOK ");
    out.append(pad(text::decimal(s.decoded).as_str(), 7).as_str());
    out.append("  T/S ");
    match rate {
        Some(rate) => {
            out.append(rate);
        },
        None => {
            out.append("—");
        },
    }
    if s.is_processing {
        out.append("  active ");
    } else {
        out.append("  idle ");
    }
    out
}

/// What the servers do together, in one line. The rate is given as it is shown.
pub open spec fn activity_line(a: Activity, rate: Option<Seq<char>>) -> Seq<char> {
    " P "@ + (if a.prompt_total > 0 {
        padded(figures::percent_text(a.prompt_done, a.prompt_total), 3) + "%"@
    } else if a.active_requests > 0 {
        "  …"@
    } else {
        " —"@
    }) + "  TOK "@ + text::decimal_of(a.generated as nat) + "  T/S "@ + (match rate {
        Some(rate) => rate,
        None => "—"@,
    }) + "  "@ + text::decimal_of(a.active_requests as nat) + " active"@
}

pub fn activity_text(a: &Activity, rate: Option<&str>) -> (out: String)
    ensures
        out@ == activity_line(
            *a,
            match rate {
                Some(rate) => Some(rate@),
                None => None,
            },
        ),
{
    let mut out: String = " P ".to_owned();
    if a.prompt_total > 0 {
        let mut share: String = pad(
            figures::format_percent(a.prompt_done, a.prompt_total).as_str(),
            3,
        );
        share.append("%");
        out.append(share.as_str());
    } else if a.active_requests > 0 {
        out.append("  …");
    } else {
        out.append(" —");
    }
    out.append("  TOK ");
    out.append(text::decimal(a.generated).as_str());
    out.append("  T/S ");
    match rate {
        Some(rate) => {
            out.append(rate);
        },
        None => {
            out.append("—");
        },
    }
    out.append("  ");
    out.append(text::decimal(a.active_requests).as_str());
    out.append(" active");
    out
}

/// What is served, in a place `width` characters wide. Names that are too long for it move
/// through what the signs around them leave free, `millis` after they started.
pub open spec fn serving_title_of(
    running: bool,
    state: ModelState,
    names: Seq<char>,
    width: nat,
    millis: nat,
) -> Seq<char> {
    if !running {
        "○ STOPPED"@
    } else {
        match state {
            ModelState::Absent => "✓ SERVING"@,
            ModelState::Loading => "◐ "@ + view::marquee_of(
                names,
                if width < 12 {
                    0
                } else {
                    (width - 12) as nat
                },
                millis,
            ) + " - LOADING"@,
            ModelState::Loaded => "● "@ + view::marquee_of(
                names,
                if width < 2 {
                    0
                } else {
                    (width - 2) as nat
                },
                millis,
            ),
        }
    }
}

pub fn serving_title(running: bool, state: ModelState, names: &str, width: usize, millis: u64) -> (out:
    String)
    ensures
        out@ == serving_title_of(running, state, names@, width as nat, millis as nat),
{
    if !running {
        return "○ STOPPED".to_owned();
    }
    match state {
        ModelState::Absent => "✓ SERVING".to_owned(),
        ModelState::Loading => {
            let mut out: String = "◐ ".to_owned();
            let free: usize = if width < 12 {
                0
            } else {
                width - 12
            };
            out.append(view::marquee_text(names, free, millis).as_str());
            out.append(" - LOADING");
            out
        },
        ModelState::Loaded => {
            let mut out: String = "● ".to_owned();
            let free: usize = if width < 2 {
                0
            } else {
                width - 2
            };
            out.append(view::marquee_text(names, free, millis).as_str());
            out
        },
    }
}

} // verus!
