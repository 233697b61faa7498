//! Laws of the scheduler's configuration.
use vstd::prelude::*;

use crate::config::ConfigView;
use crate::config;
use crate::json;
use crate::json::Json;
use crate::laws::arguments;
use crate::laws::estimates;
use crate::laws::texts;
use crate::models::CompatibilityView;
use crate::process;
use crate::process::DraftFaultView;
use crate::profiles;
use crate::profiles::{ProfileErrorView, ProfilesView};
use crate::swap;
use crate::swap::{FactsView, GroupView, SwapErrorView, SwapView, WriteErrorView};
use crate::table;
use crate::text;

verus! {

/// Whether a list of words holds one.
pub open spec fn among(words: Seq<Seq<char>>, word: Seq<char>) -> bool {
    exists|i: int| 0 <= i < words.len() && #[trigger] words[i] == word
}

/// Whether the words of a command line are those of an entry: `env` and an assignment for each
/// variable, where there are any, then the program with its arguments, then what the model
/// serves, where the arguments do not say it, and where it is reached and under which name.
pub open spec fn runs(
    words: Seq<Seq<char>>,
    args: Seq<Seq<char>>,
    mode: Option<Seq<char>>,
    e: SwapView,
) -> bool {
    let start = if e.environment.len() > 0 {
        1 + e.environment.len() as int
    } else {
        0
    };
    let said = among(args, "--embeddings"@) || among(args, "--reranking"@);
    let end = words.len() - 6;
    &&& end == start + args.len() + if !said && (mode == Some("rerank"@) || mode == Some("embed"@)) {
        1int
    } else {
        0
    }
    &&& e.environment.len() > 0 ==> words[0] == "env"@
    &&& forall|k: int|
        0 <= k < e.environment.len() ==> words[k + 1] == (#[trigger] e.environment[k]).0 + seq!['=']
            + e.environment[k].1
    &&& forall|k: int| 0 <= k < args.len() ==> words[start + k] == #[trigger] args[k]
    &&& !said && mode == Some("rerank"@) ==> words[start + args.len()] == "--reranking"@
    &&& !said && mode == Some("embed"@) ==> words[start + args.len()] == "--embeddings"@
    &&& words[end] == "--host"@
    &&& words[end + 1] == "127.0.0.1"@
    &&& words[end + 2] == "--port"@
    &&& words[end + 3] == "${PORT}"@
    &&& words[end + 4] == "--alias"@
    &&& words[end + 5] == e.id
}

/// The entry of a model names it, gives a command line from which a shell reads the words that
/// start it, every variable of its environment among them in front of the program, and the
/// time after which it is stopped: never where it is pinned.
pub proof fn entries_start_what_they_name(
    c: ConfigView,
    args: Seq<Seq<char>>,
    mode: Option<Seq<char>>,
    e: SwapView,
)
    requires
        e.id.len() > 0,
        forall|i: int| 0 <= i < args.len() ==> (#[trigger] args[i]).len() > 0,
    ensures
        exists|line: Seq<char>, ttl: nat|
            #![trigger process::shell_words(line, None, false), text::decimal_of(ttl)]
            {
                &&& swap::entry_text_of(c, args, mode, e) == "  "@ + json::quoted(e.id)
                    + ":\n    cmd: "@ + line + "\n    ttl: "@ + text::decimal_of(ttl) + "\n"@
                &&& runs(process::shell_words(line, None, false), args, mode, e)
                &&& ttl == if among(c.scheduler_pinned_models, e.id) {
                    0
                } else {
                    c.swap_ttl as nat
                }
            },
{
    let served = swap::served_args(args, mode, e.id);
    let given = process::assigned(e.environment);
    let words = if e.environment.len() > 0 {
        seq!["env"@] + given + served
    } else {
        served
    };
    reveal_strlit("env");
    reveal_strlit("=");
    reveal_strlit("--reranking");
    reveal_strlit("--embeddings");
    reveal_strlit("--host");
    reveal_strlit("127.0.0.1");
    reveal_strlit("--port");
    reveal_strlit("${PORT}");
    reveal_strlit("--alias");
    reveal_strlit("rerank");
    reveal_strlit("embed");
    assert("rerank"@[0] == 'r' && "embed"@[0] == 'e');
    assert("="@ =~= seq!['=']);
    assert forall|k: int| 0 <= k < given.len() implies #[trigger] given[k] == e.environment[k].0
        + seq!['='] + e.environment[k].1 by {}
    assert forall|i: int| 0 <= i < served.len() implies (#[trigger] served[i]).len() > 0 by {
        if i < args.len() {
            assert(served[i] == args[i]);
        }
    }
    assert forall|i: int| 0 <= i < words.len() implies (#[trigger] words[i]).len() > 0 by {
        if e.environment.len() > 0 {
            if i == 0 {
            } else if i <= given.len() {
                assert(words[i] == given[i - 1]);
            } else {
                assert(words[i] == served[i - 1 - given.len()]);
            }
        }
    }
    process::arguments_read_back(words);
    lemma_among(args, "--embeddings"@);
    lemma_among(args, "--reranking"@);
    lemma_among(c.scheduler_pinned_models, e.id);
    assert(runs(words, args, mode, e)) by {
        let start = words.len() - served.len();
        assert forall|k: int| 0 <= k < e.environment.len() implies words[k + 1] == (
        #[trigger] e.environment[k]).0 + seq!['='] + e.environment[k].1 by {
            assert(words[k + 1] == given[k]);
        }
        assert forall|k: int| 0 <= k < served.len() implies words[start + k] == #[trigger] served[k] by {}
        assert forall|k: int| 0 <= k < args.len() implies words[start + k] == #[trigger] args[k] by {
            assert(served[k] == args[k]);
        }
        let m = served.len() - 6;
        assert(served[m] == "--host"@);
        assert(served[m + 1] == "127.0.0.1"@);
        assert(served[m + 2] == "--port"@);
        assert(served[m + 3] == "${PORT}"@);
        assert(served[m + 4] == "--alias"@);
        assert(served[m + 5] == e.id);
        assert(served[args.len() as int] == served[args.len() as int]);
    }
    let line = process::shell_line(words);
    let ttl = if among(c.scheduler_pinned_models, e.id) {
        0
    } else {
        c.swap_ttl as nat
    };
    assert(process::shell_words(line, None, false) == words);
    assert(swap::entry_text_of(c, args, mode, e) == "  "@ + json::quoted(e.id) + ":\n    cmd: "@
        + line + "\n    ttl: "@ + text::decimal_of(ttl) + "\n"@);
}

proof fn lemma_among(words: Seq<Seq<char>>, word: Seq<char>)
    ensures
        among(words, word) <==> words.contains(word),
{
    if words.contains(word) {
        let i = choose|i: int| 0 <= i < words.len() && words[i] == word;
        assert(words[i] == word);
    }
}

/// Each key of the servers is a trimmed item of the setting, between commas, or of the list;
/// none is blank, every one that is not blank is there, none twice, and they stand in the order
/// in which they come first.
pub proof fn keys_are_the_items_that_are_given(c: ConfigView) -> (at: Seq<int>)
    ensures
        ({
            let all = text::split_of(c.api_key, ',') + c.api_keys;
            let keys = config::keys_of(c);
            &&& at.len() == keys.len()
            &&& forall|k: int|
                0 <= k < keys.len() ==> 0 <= #[trigger] at[k] < all.len() && keys[k]
                    == text::trim_of(all[at[k]]) && keys[k].len() > 0
            &&& forall|k: int, l: int| 0 <= k < l < at.len() ==> #[trigger] at[k] < #[trigger] at[l]
            &&& forall|k: int, l: int|
                0 <= k < l < keys.len() ==> #[trigger] keys[k] != #[trigger] keys[l]
            &&& forall|i: int|
                0 <= i < all.len() && text::trim_of(#[trigger] all[i]).len() > 0 ==> keys.contains(
                    text::trim_of(all[i]),
                )
        }),
{
    let all = text::split_of(c.api_key, ',') + c.api_keys;
    lemma_keys(all, all.len())
}

proof fn lemma_keys(all: Seq<Seq<char>>, n: nat) -> (at: Seq<int>)
    requires
        n <= all.len(),
    ensures
        ({
            let keys = config::distinct_keys(all, n);
            &&& at.len() == keys.len()
            &&& forall|k: int|
                0 <= k < keys.len() ==> 0 <= #[trigger] at[k] < n && keys[k] == text::trim_of(
                    all[at[k]],
                ) && keys[k].len() > 0
            &&& forall|k: int, l: int| 0 <= k < l < at.len() ==> #[trigger] at[k] < #[trigger] at[l]
            &&& forall|k: int, l: int|
                0 <= k < l < keys.len() ==> #[trigger] keys[k] != #[trigger] keys[l]
            &&& forall|i: int|
                0 <= i < n && text::trim_of(#[trigger] all[i]).len() > 0 ==> keys.contains(
                    text::trim_of(all[i]),
                )
        }),
    decreases n,
{
    if n == 0 {
        seq![]
    } else {
        let before = lemma_keys(all, (n - 1) as nat);
        let rest = config::distinct_keys(all, (n - 1) as nat);
        let keys = config::distinct_keys(all, n);
        let key = text::trim_of(all[n - 1]);
        if key.len() > 0 && !rest.contains(key) {
            let at = before.push(n - 1);
            assert forall|i: int| 0 <= i < n && text::trim_of(#[trigger] all[i]).len() > 0 implies keys.contains(
                text::trim_of(all[i]),
            ) by {
                if i < n - 1 {
                    let k = choose|k: int| 0 <= k < rest.len() && rest[k] == text::trim_of(all[i]);
                    assert(keys[k] == rest[k]);
                } else {
                    assert(keys[rest.len() as int] == key);
                }
            }
            assert forall|k: int, l: int| 0 <= k < l < keys.len() implies #[trigger] keys[k]
                != #[trigger] keys[l] by {
                if l < rest.len() {
                    assert(keys[k] == rest[k] && keys[l] == rest[l]);
                } else {
                    assert(keys[k] == rest[k]);
                    assert(rest.contains(rest[k]));
                }
            }
            assert forall|k: int| 0 <= k < keys.len() implies 0 <= #[trigger] at[k] < n && keys[k]
                == text::trim_of(all[at[k]]) && keys[k].len() > 0 by {
                if k < rest.len() {
                    assert(at[k] == before[k]);
                    assert(keys[k] == rest[k]);
                }
            }
            at
        } else {
            before
        }
    }
}

proof fn lemma_quoted_lines(list: Seq<Seq<char>>, n: nat, front: Seq<char>)
    requires
        n <= list.len(),
    ensures
        swap::quoted_lines(list, n, front) == texts::spelled(
            Seq::new(n, |i: int| front + json::quoted(list[i])),
        ),
    decreases n,
{
    let lines = Seq::new(n, |i: int| front + json::quoted(list[i]));
    if n == 0 {
        assert(texts::spelled(lines) =~= seq![]);
    } else {
        let less = Seq::new((n - 1) as nat, |i: int| front + json::quoted(list[i]));
        lemma_quoted_lines(list, (n - 1) as nat, front);
        let last = front + json::quoted(list[n - 1]);
        assert(lines =~= less + seq![last]);
        texts::lemma_spelled_parts(less, seq![last]);
        texts::lemma_spelled_one(last);
        reveal_strlit("\n");
        assert("\n"@ =~= seq!['\n']);
        assert(swap::quoted_lines(list, n, front) =~= texts::spelled(less) + (last + seq!['\n']));
    }
}

/// The configuration starts with how long a server may take to answer, the port behind its own,
/// every key on a line of its own where there are any, and the head of the list of models.
pub proof fn the_head_lists_port_and_keys(c: ConfigView)
    ensures
        ({
            let keys = config::keys_of(c);
            swap::head_of(c) == texts::spelled(
                seq!["healthCheckTimeout: 300"@, "startPort: "@ + text::decimal_of((c.port + 1) as nat)]
                    + (if keys.len() > 0 {
                    seq!["apiKeys:"@] + Seq::new(
                        keys.len(),
                        |i: int| "  - "@ + json::quoted(keys[i]),
                    )
                } else {
                    seq![]
                }) + seq!["models:"@],
            )
        }),
{
    let keys = config::keys_of(c);
    let port = text::decimal_of((c.port + 1) as nat);
    let a = "healthCheckTimeout: 300"@;
    let b = "startPort: "@ + port;
    let d = "apiKeys:"@;
    let e = "models:"@;
    let lines = Seq::new(keys.len(), |i: int| "  - "@ + json::quoted(keys[i]));
    let mid = if keys.len() > 0 {
        seq![d] + lines
    } else {
        seq![]
    };
    reveal_strlit("healthCheckTimeout: 300\nstartPort: ");
    reveal_strlit("healthCheckTimeout: 300");
    reveal_strlit("startPort: ");
    reveal_strlit("apiKeys:\n");
    reveal_strlit("apiKeys:");
    reveal_strlit("models:\n");
    reveal_strlit("models:");
    reveal_strlit("\n");
    assert("\n"@ =~= seq!['\n']);
    assert("healthCheckTimeout: 300\nstartPort: "@ =~= a + seq!['\n'] + "startPort: "@);
    assert("apiKeys:\n"@ =~= d + seq!['\n']);
    assert("models:\n"@ =~= e + seq!['\n']);
    assert(seq![a, b] =~= seq![a] + seq![b]);
    texts::lemma_spelled_parts(seq![a, b] + mid, seq![e]);
    texts::lemma_spelled_parts(seq![a, b], mid);
    texts::lemma_spelled_parts(seq![a], seq![b]);
    texts::lemma_spelled_one(a);
    texts::lemma_spelled_one(b);
    texts::lemma_spelled_one(e);
    if keys.len() > 0 {
        texts::lemma_spelled_parts(seq![d], lines);
        texts::lemma_spelled_one(d);
        lemma_quoted_lines(keys, keys.len(), "  - "@);
        assert(swap::head_of(c) =~= (a + seq!['\n']) + (b + seq!['\n']) + ((d + seq!['\n'])
            + texts::spelled(lines)) + (e + seq!['\n']));
    } else {
        assert(texts::spelled(mid) =~= seq![]);
        assert(swap::head_of(c) =~= (a + seq!['\n']) + (b + seq!['\n']) + texts::spelled(mid) + (e
            + seq!['\n']));
    }
}

/// Whether arguments are those of an entry: the program, the files of the model, the layers and
/// the context of the settings with their extra arguments, and what the profile says with the
/// changes of the entry, where it has one.
pub open spec fn runs_with(
    args: Seq<Seq<char>>,
    c: ConfigView,
    binary: Seq<char>,
    model_args: Seq<Seq<char>>,
    own: Seq<Seq<char>>,
) -> bool {
    let m = model_args.len() as int;
    let x = c.extra_args.len() as int;
    &&& args.len() == 5 + m + x + own.len()
    &&& args[0] == binary
    &&& args.subrange(1, 1 + m) == model_args
    &&& args[1 + m] == "-ngl"@
    &&& arguments::written_as(c.gpu_layers, args[2 + m])
    &&& args[3 + m] == "-c"@
    &&& args[4 + m] == text::decimal_of(c.ctx_size as nat)
    &&& args.subrange(5 + m, 5 + m + x) == c.extra_args
    &&& args.skip(5 + m + x) == own
}

/// The arguments of an entry name the program, the model's files, layers and context of the
/// settings, their extra arguments, and last what its profile says, with every change that the
/// entry makes in it. They are refused for what the profile is refused for.
pub proof fn entries_run_with_their_profile(
    c: ConfigView,
    p: ProfilesView,
    known: Option<Seq<Seq<char>>>,
    binary: Seq<char>,
    model_args: Seq<Seq<char>>,
    e: SwapView,
)
    ensures
        match (e.profile, swap::entry_args_of(c, p, known, binary, model_args, e)) {
            (None, Ok(args)) => runs_with(args, c, binary, model_args, seq![]),
            (None, Err(_)) => false,
            (Some(name), out) => match (
                out,
                profiles::profile_args(swap::with_overrides(p, name, e.overrides), name, known),
            ) {
                (Ok(args), Ok(own)) => runs_with(args, c, binary, model_args, own),
                (Err(x), Err(y)) => x == y,
                _ => false,
            },
        },
{
    let front = seq![binary] + model_args + process::common_args_of(c);
    let m = model_args.len() as int;
    let x = c.extra_args.len() as int;
    arguments::lemma_displayed(c.gpu_layers);
    match swap::entry_args_of(c, p, known, binary, model_args, e) {
        Ok(args) => {
            let own = match e.profile {
                None => seq![],
                Some(name) => profiles::profile_args(
                    swap::with_overrides(p, name, e.overrides),
                    name,
                    known,
                )->Ok_0,
            };
            assert(args =~= front + own);
            assert(args.subrange(1, 1 + m) =~= model_args);
            assert(args.subrange(5 + m, 5 + m + x) =~= c.extra_args);
            assert(args.skip(5 + m + x) =~= own);
        },
        Err(_) => {},
    }
}

/// A changed profile holds every change, the last of two under one key, and what it held under
/// any other key; the other profiles stay what they were.
pub proof fn changes_stand_in_the_profile(
    p: ProfilesView,
    name: Seq<char>,
    changes: Seq<(Seq<char>, Json)>,
    key: Seq<char>,
    other: Seq<char>,
)
    requires
        table::ordered(p.profiles),
        table::lookup(p.profiles, name) is Some,
        table::ordered(table::lookup(p.profiles, name)->0),
        other != name,
    ensures
        ({
            let q = swap::with_overrides(p, name, changes);
            &&& q.expose == p.expose
            &&& q.models == p.models
            &&& table::lookup(q.profiles, other) == table::lookup(p.profiles, other)
            &&& table::lookup(q.profiles, name) matches Some(list) && {
                &&& table::ordered(list)
                &&& (forall|i: int| 0 <= i < changes.len() ==> (#[trigger] changes[i]).0 != key)
                    ==> table::lookup(list, key) == table::lookup(
                    table::lookup(p.profiles, name)->0,
                    key,
                )
                &&& forall|i: int|
                    0 <= i < changes.len() && (#[trigger] changes[i]).0 == key && (forall|j: int|
                        i < j < changes.len() ==> (#[trigger] changes[j]).0 != key)
                        ==> table::lookup(list, key) == Some(changes[i].1)
            }
        }),
{
    let list = table::lookup(p.profiles, name)->0;
    let new = swap::merged(list, changes, changes.len());
    lemma_merged(list, changes, changes.len(), key);
    table::put_then_lookup(p.profiles, name, new, other);
}

proof fn lemma_merged(
    list: Seq<(Seq<char>, Json)>,
    changes: Seq<(Seq<char>, Json)>,
    n: nat,
    key: Seq<char>,
)
    requires
        table::ordered(list),
        n <= changes.len(),
    ensures
        table::ordered(swap::merged(list, changes, n)),
        (forall|i: int| 0 <= i < n ==> (#[trigger] changes[i]).0 != key) ==> table::lookup(
            swap::merged(list, changes, n),
            key,
        ) == table::lookup(list, key),
        forall|i: int|
            0 <= i < n && (#[trigger] changes[i]).0 == key && (forall|j: int|
                i < j < n ==> (#[trigger] changes[j]).0 != key) ==> table::lookup(
                swap::merged(list, changes, n),
                key,
            ) == Some(changes[i].1),
    decreases n,
{
    if n > 0 {
        let before = swap::merged(list, changes, (n - 1) as nat);
        lemma_merged(list, changes, (n - 1) as nat, key);
        let last = changes[n - 1];
        table::put_keeps_order(before, last.0, last.1);
        table::put_then_lookup(before, last.0, last.1, key);
        assert forall|i: int|
            0 <= i < n && (#[trigger] changes[i]).0 == key && (forall|j: int|
                i < j < n ==> (#[trigger] changes[j]).0 != key) implies table::lookup(
            swap::merged(list, changes, n),
            key,
        ) == Some(changes[i].1) by {
            if i < n - 1 {
                assert(changes[n - 1].0 != key);
            }
        }
    }
}

/// Whether a model is asked to draft for itself: `draft-mtp` is said, and no other draft.
pub open spec fn drafts_for_itself(args: Seq<Seq<char>>) -> bool {
    among(args, "draft-mtp"@) && !among(args, "--spec-draft-model"@) && !among(
        args,
        "--model-draft"@,
    )
}

/// Whether an entry is written as it should be: its text, for the arguments that it runs with,
/// and nothing is wrong with its draft. An entry with a profile drafts for itself only where
/// its model can; a draft that is named must be there and must not be known not to go with the
/// model.
pub open spec fn entry_is_fine(
    c: ConfigView,
    p: ProfilesView,
    known: Option<Seq<Seq<char>>>,
    binary: Seq<char>,
    e: SwapView,
    f: FactsView,
    s: Seq<char>,
) -> bool {
    match swap::entry_args_of(c, p, known, binary, f.model_args, e) {
        Ok(args) => {
            let flags = seq!["-md"@, "--model-draft"@, "--spec-draft-model"@];
            &&& s == swap::entry_text_of(c, args, f.mode, e)
            &&& e.profile is Some && drafts_for_itself(args) ==> f.has_mtp
            &&& forall|i: int| #[trigger]
                estimates::last_at(args, flags, i) ==> f.draft_exists && !(f.compatibility is Incompatible)
        },
        Err(_) => false,
    }
}

/// Whether an error says what is wrong with an entry: with its profile, or that its model
/// cannot draft for itself, or that the draft it names is missing or does not go with it.
pub open spec fn entry_is_refused(
    c: ConfigView,
    p: ProfilesView,
    known: Option<Seq<Seq<char>>>,
    binary: Seq<char>,
    e: SwapView,
    f: FactsView,
    x: WriteErrorView,
) -> bool {
    let flags = seq!["-md"@, "--model-draft"@, "--spec-draft-model"@];
    match (swap::entry_args_of(c, p, known, binary, f.model_args, e), x) {
        (Err(y), WriteErrorView::Profile(id, z)) => id == e.id && y == z,
        (Ok(args), WriteErrorView::NoMtp(name)) => e.profile == Some(name) && drafts_for_itself(args)
            && !f.has_mtp,
        (Ok(args), WriteErrorView::Draft(id, fault)) => id == e.id && exists|i: int|
            #![trigger estimates::last_at(args, flags, i)]
            estimates::last_at(args, flags, i) && match fault {
                DraftFaultView::Missing(draft) => draft == args[i + 1] && !f.draft_exists,
                DraftFaultView::Incompatible(draft, reason) => draft == args[i + 1]
                    && f.draft_exists && f.compatibility == CompatibilityView::Incompatible(reason),
            },
        _ => false,
    }
}

proof fn lemma_flags_in_any_order(args: Seq<Seq<char>>, i: int)
    ensures
        ({
            let a = seq!["-md"@, "--model-draft"@, "--spec-draft-model"@];
            let b = seq!["--spec-draft-model"@, "--model-draft"@, "-md"@];
            estimates::stands_at(args, a, i) <==> estimates::stands_at(args, b, i)
        }),
{
    let a = seq!["-md"@, "--model-draft"@, "--spec-draft-model"@];
    let b = seq!["--spec-draft-model"@, "--model-draft"@, "-md"@];
    assert(a[0] == b[2] && a[1] == b[1] && a[2] == b[0]);
    if estimates::stands_at(args, a, i) {
        let k = choose|k: int| 0 <= k < a.len() && args[i] == #[trigger] a[k];
        assert(args[i] == b[2 - k]);
    }
    if estimates::stands_at(args, b, i) {
        let k = choose|k: int| 0 <= k < b.len() && args[i] == #[trigger] b[k];
        assert(args[i] == a[2 - k]);
    }
}

proof fn lemma_draft_in(args: Seq<Seq<char>>)
    ensures
        ({
            let flags = seq!["-md"@, "--model-draft"@, "--spec-draft-model"@];
            match process::draft_in(args) {
                Some(draft) => exists|i: int| #[trigger]
                    estimates::last_at(args, flags, i) && draft == args[i + 1],
                None => forall|i: int| !#[trigger] estimates::last_at(args, flags, i),
            }
        }),
{
    let flags = seq!["-md"@, "--model-draft"@, "--spec-draft-model"@];
    let other = seq!["--spec-draft-model"@, "--model-draft"@, "-md"@];
    assert forall|i: int| estimates::stands_at(args, flags, i) <==> #[trigger] estimates::stands_at(
        args,
        other,
        i,
    ) by {
        lemma_flags_in_any_order(args, i);
    }
    estimates::lemma_value_after(args, other, args.len());
    match process::draft_in(args) {
        Some(draft) => {
            let i = choose|i: int|
                i + 1 < args.len() && #[trigger] estimates::stands_at(args, other, i) && draft == args[i
                    + 1] && forall|j: int|
                    i < j && j + 1 < args.len() ==> !#[trigger] estimates::stands_at(args, other, j);
            lemma_flags_in_any_order(args, i);
            assert forall|j: int| j > i implies !#[trigger] estimates::stands_at(args, flags, j) by {
                lemma_flags_in_any_order(args, j);
                if j + 1 < args.len() {
                    assert(!estimates::stands_at(args, other, j));
                }
            }
            assert(estimates::last_at(args, flags, i));
        },
        None => {
            assert forall|i: int| !#[trigger] estimates::last_at(args, flags, i) by {
                lemma_flags_in_any_order(args, i);
                if estimates::last_at(args, flags, i) {
                    assert(estimates::stands_at(args, flags, i));
                    assert(!estimates::stands_at(args, other, i));
                }
            }
        },
    }
}

proof fn lemma_entry(
    c: ConfigView,
    p: ProfilesView,
    known: Option<Seq<Seq<char>>>,
    binary: Seq<char>,
    e: SwapView,
    f: FactsView,
)
    ensures
        match swap::entry_outcome(c, p, known, binary, e, f) {
            Ok(s) => entry_is_fine(c, p, known, binary, e, f, s),
            Err(x) => entry_is_refused(c, p, known, binary, e, f, x),
        },
{
    match swap::entry_args_of(c, p, known, binary, f.model_args, e) {
        Ok(args) => {
            lemma_draft_in(args);
            lemma_among(args, "draft-mtp"@);
            lemma_among(args, "--spec-draft-model"@);
            lemma_among(args, "--model-draft"@);
            let flags = seq!["-md"@, "--model-draft"@, "--spec-draft-model"@];
            match swap::entry_outcome(c, p, known, binary, e, f) {
                Ok(s) => {
                    assert forall|i: int| #[trigger] estimates::last_at(args, flags, i) implies f.draft_exists
                        && !(f.compatibility is Incompatible) by {
                        assert(process::draft_in(args) is Some);
                    }
                },
                Err(x) => {},
            }
        },
        Err(_) => {},
    }
}

/// The configuration says of the entries what it says of each, one behind the other; the first
/// that something is wrong with is named, and then there is none.
pub proof fn every_entry_is_written(
    c: ConfigView,
    p: ProfilesView,
    known: Option<Seq<Seq<char>>>,
    binary: Seq<char>,
    entries: Seq<SwapView>,
    facts: Seq<FactsView>,
) -> (parts: Seq<Seq<char>>)
    requires
        facts.len() == entries.len(),
    ensures
        match swap::entries_outcome(c, p, known, binary, entries, facts, entries.len()) {
            Ok(body) => {
                &&& parts.len() == entries.len()
                &&& body == texts::strung(parts)
                &&& forall|i: int|
                    0 <= i < entries.len() ==> entry_is_fine(
                        c,
                        p,
                        known,
                        binary,
                        #[trigger] entries[i],
                        facts[i],
                        parts[i],
                    )
            },
            Err(x) => exists|i: int|
                0 <= i < entries.len() && entry_is_refused(
                    c,
                    p,
                    known,
                    binary,
                    #[trigger] entries[i],
                    facts[i],
                    x,
                ) && parts.len() == i && forall|j: int|
                    0 <= j < i ==> entry_is_fine(
                        c,
                        p,
                        known,
                        binary,
                        #[trigger] entries[j],
                        facts[j],
                        parts[j],
                    ),
        },
{
    lemma_entries(c, p, known, binary, entries, facts, entries.len())
}

proof fn lemma_entries(
    c: ConfigView,
    p: ProfilesView,
    known: Option<Seq<Seq<char>>>,
    binary: Seq<char>,
    entries: Seq<SwapView>,
    facts: Seq<FactsView>,
    n: nat,
) -> (parts: Seq<Seq<char>>)
    requires
        facts.len() == entries.len(),
        n <= entries.len(),
    ensures
        match swap::entries_outcome(c, p, known, binary, entries, facts, n) {
            Ok(body) => {
                &&& parts.len() == n
                &&& body == texts::strung(parts)
                &&& forall|i: int|
                    0 <= i < n ==> entry_is_fine(
                        c,
                        p,
                        known,
                        binary,
                        #[trigger] entries[i],
                        facts[i],
                        parts[i],
                    )
            },
            Err(x) => exists|i: int|
                0 <= i < n && entry_is_refused(
                    c,
                    p,
                    known,
                    binary,
                    #[trigger] entries[i],
                    facts[i],
                    x,
                ) && parts.len() == i && forall|j: int|
                    0 <= j < i ==> entry_is_fine(
                        c,
                        p,
                        known,
                        binary,
                        #[trigger] entries[j],
                        facts[j],
                        parts[j],
                    ),
        },
    decreases n,
{
    if n == 0 {
        seq![]
    } else {
        let before = lemma_entries(c, p, known, binary, entries, facts, (n - 1) as nat);
        match swap::entries_outcome(c, p, known, binary, entries, facts, (n - 1) as nat) {
            Err(_) => before,
            Ok(earlier) => {
                lemma_entry(c, p, known, binary, entries[n - 1], facts[n - 1]);
                match swap::entry_outcome(c, p, known, binary, entries[n - 1], facts[n - 1]) {
                    Err(x) => {
                        assert(entry_is_refused(
                            c,
                            p,
                            known,
                            binary,
                            entries[n - 1],
                            facts[n - 1],
                            x,
                        ));
                        before
                    },
                    Ok(more) => {
                        let parts = before.push(more);
                        texts::lemma_strung_push(before, more);
                        assert forall|i: int| 0 <= i < n implies entry_is_fine(
                            c,
                            p,
                            known,
                            binary,
                            #[trigger] entries[i],
                            facts[i],
                            parts[i],
                        ) by {
                            if i < n - 1 {
                                assert(parts[i] == before[i]);
                            }
                        }
                        parts
                    },
                }
            },
        }
    }
}

/// Whether an entry is the first under a name.
pub open spec fn first_named(entries: Seq<SwapView>, id: Seq<char>, e: SwapView) -> bool {
    exists|i: int|
        0 <= i < entries.len() && #[trigger] entries[i] == e && e.id == id && forall|j: int|
            0 <= j < i ==> (#[trigger] entries[j]).id != id
}

proof fn lemma_named(entries: Seq<SwapView>, id: Seq<char>)
    ensures
        match swap::entry_named(entries, id) {
            Some(e) => first_named(entries, id, e),
            None => forall|i: int| 0 <= i < entries.len() ==> (#[trigger] entries[i]).id != id,
        },
{
    let other = swap::other_name(id);
    text::lemma_run(entries, other);
    let at = text::run(entries, other) as int;
    assert forall|j: int| 0 <= j < at implies (#[trigger] entries[j]).id != id by {
        assert(other(entries[j]));
    }
    if at < entries.len() {
        assert(!other(entries[at]));
        assert(entries[at] == entries[at]);
    }
}

proof fn lemma_pinned(entries: Seq<SwapView>, pinned: Seq<Seq<char>>, n: nat)
    requires
        n <= pinned.len(),
        forall|k: int| 0 <= k < n ==> swap::offers(entries, #[trigger] pinned[k]),
    ensures
        swap::pinned_entries(entries, pinned, n).len() == n,
        forall|k: int|
            0 <= k < n ==> first_named(
                entries,
                #[trigger] pinned[k],
                swap::pinned_entries(entries, pinned, n)[k],
            ),
    decreases n,
{
    if n > 0 {
        lemma_pinned(entries, pinned, (n - 1) as nat);
        let id = pinned[n - 1];
        lemma_named(entries, id);
        assert(swap::offers(entries, id));
        let i = choose|i: int| 0 <= i < entries.len() && (#[trigger] entries[i]).id == id;
        assert(entries[i].id == id);
        let earlier = swap::pinned_entries(entries, pinned, (n - 1) as nat);
        let all = swap::pinned_entries(entries, pinned, n);
        assert forall|k: int| 0 <= k < n implies first_named(entries, #[trigger] pinned[k], all[k]) by {
            if k < n - 1 {
                assert(all[k] == earlier[k]);
            }
        }
    }
}

proof fn lemma_needed(entries: Seq<SwapView>, n: nat)
    requires
        n <= entries.len(),
    ensures
        swap::needed(entries, n) == texts::sum(Seq::new(n, |i: int| entries[i].estimate as int)),
    decreases n,
{
    let list = Seq::new(n, |i: int| entries[i].estimate as int);
    if n > 0 {
        let less = Seq::new((n - 1) as nat, |i: int| entries[i].estimate as int);
        lemma_needed(entries, (n - 1) as nat);
        texts::lemma_sum_push(less, entries[n - 1].estimate as int);
        assert(list =~= less.push(entries[n - 1].estimate as int));
    }
}

/// The pinned models are loaded first, in their order, where they run different files, are no
/// more than may be loaded and fit into the budget, if it is known; else it is said which of
/// these does not hold. Where none is pinned nothing is said.
pub proof fn pinned_models_are_loaded_first(
    entries: Seq<SwapView>,
    pinned: Seq<Seq<char>>,
    max: nat,
    budget: nat,
) -> (held: Seq<SwapView>)
    requires
        forall|k: int| 0 <= k < pinned.len() ==> swap::offers(entries, #[trigger] pinned[k]),
    ensures
        held.len() == pinned.len(),
        forall|k: int| 0 <= k < pinned.len() ==> first_named(entries, #[trigger] pinned[k], held[k]),
        ({
            let twice = exists|i: int, j: int|
                #![trigger held[i], held[j]]
                0 <= i < j < held.len() && held[i].physical == held[j].physical;
            let total = texts::sum(Seq::new(held.len(), |i: int| held[i].estimate as int));
            let too_much = held.len() > max || (budget > 0 && total > budget);
            match swap::hooks_of(entries, pinned, max, budget) {
                Ok(s) => {
                    &&& pinned.len() == 0 ==> s.len() == 0
                    &&& pinned.len() > 0 ==> !twice && !too_much && s == texts::spelled(
                        seq!["hooks:"@, "  on_startup:"@, "    preload:"@] + Seq::new(
                            pinned.len(),
                            |i: int| "      - "@ + json::quoted(pinned[i]),
                        ),
                    )
                },
                Err(SwapErrorView::PinnedTwice) => pinned.len() > 0 && twice,
                Err(SwapErrorView::PinnedBudget) => pinned.len() > 0 && !twice && too_much,
                Err(_) => false,
            }
        }),
{
    let held = swap::pinned_entries(entries, pinned, pinned.len());
    lemma_pinned(entries, pinned, pinned.len());
    lemma_needed(held, held.len());
    let a = "hooks:"@;
    let b = "  on_startup:"@;
    let d = "    preload:"@;
    let lines = Seq::new(pinned.len(), |i: int| "      - "@ + json::quoted(pinned[i]));
    lemma_quoted_lines(pinned, pinned.len(), "      - "@);
    reveal_strlit("hooks:");
    reveal_strlit("  on_startup:");
    reveal_strlit("    preload:");
    reveal_strlit("hooks:\n  on_startup:\n    preload:\n");
    texts::lemma_spelled_parts(seq![a, b, d], lines);
    assert(seq![a, b, d] =~= seq![a] + seq![b] + seq![d]);
    texts::lemma_spelled_parts(seq![a] + seq![b], seq![d]);
    texts::lemma_spelled_parts(seq![a], seq![b]);
    texts::lemma_spelled_one(a);
    texts::lemma_spelled_one(b);
    texts::lemma_spelled_one(d);
    assert("hooks:\n  on_startup:\n    preload:\n"@ =~= (a + seq!['\n']) + (b + seq!['\n']) + (d
        + seq!['\n']));
    if !swap::all_distinct(held) {
        let (i, j) = choose|i: int, j: int|
            #![trigger held[i], held[j]]
            0 <= i < j < held.len() && held[i].physical == held[j].physical;
        assert(held[i].physical == held[j].physical);
    }
    held
}

/// An offer is refused where it is empty, or for the first pinned model that is not in it.
pub proof fn refused_offers(offer: Seq<SwapView>, pinned: Seq<Seq<char>>)
    ensures
        match swap::refusal(offer, pinned) {
            None => offer.len() > 0 && forall|k: int|
                0 <= k < pinned.len() ==> swap::offers(offer, #[trigger] pinned[k]),
            Some(SwapErrorView::Empty) => offer.len() == 0,
            Some(SwapErrorView::UnknownPinned(name)) => offer.len() > 0 && exists|k: int|
                0 <= k < pinned.len() && #[trigger] pinned[k] == name && !swap::offers(offer, name)
                    && forall|j: int| 0 <= j < k ==> swap::offers(offer, #[trigger] pinned[j]),
            Some(_) => false,
        },
{
    let held = swap::offered_by(offer);
    text::lemma_run(pinned, held);
    let at = text::run(pinned, held) as int;
    assert forall|j: int| 0 <= j < at implies swap::offers(offer, #[trigger] pinned[j]) by {
        assert(held(pinned[j]));
    }
    if at < pinned.len() {
        assert(!held(pinned[at]));
        assert(pinned[at] == pinned[at]);
    }
}

} // verus!
