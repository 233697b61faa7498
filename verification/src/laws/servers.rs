//! Laws of servers: how they are started, found and read.
use vstd::prelude::*;

use crate::config;
use crate::config::ConfigView;
use crate::json;
use crate::json::Json;
use crate::laws::arguments;
use crate::laws::estimates;
use crate::laws::texts;
use crate::pattern;
use crate::process;
use crate::process::SwapTargetView;
use crate::profiles;
use crate::profiles::{ProfileErrorView, ProfilesView};
use crate::table;
use crate::text;

verus! {

/// Whether the arguments of a server are these: the files of the model, the layers and the
/// context of the settings and their extra arguments, what the profile says, the name that it
/// is served under, where it listens, every key, and what was asked for besides.
pub open spec fn starts(
    args: Seq<Seq<char>>,
    c: ConfigView,
    model_args: Seq<Seq<char>>,
    own: Seq<Seq<char>>,
    name: Seq<char>,
    extra: Seq<Seq<char>>,
) -> bool {
    let keys = config::keys_of(c);
    let m = model_args.len() as int;
    let x = m + 4 + c.extra_args.len();
    let o = x + own.len();
    let k = o + 6 + 2 * keys.len();
    &&& args.len() == k + extra.len()
    &&& args.take(m) == model_args
    &&& args[m] == "-ngl"@
    &&& arguments::written_as(c.gpu_layers, args[m + 1])
    &&& args[m + 2] == "-c"@
    &&& args[m + 3] == text::decimal_of(c.ctx_size as nat)
    &&& args.subrange(m + 4, x) == c.extra_args
    &&& args.subrange(x, o) == own
    &&& args[o] == "--alias"@
    &&& args[o + 1] == name
    &&& args[o + 2] == "--host"@
    &&& args[o + 3] == c.host
    &&& args[o + 4] == "--port"@
    &&& args[o + 5] == text::decimal_of(c.port as nat)
    &&& forall|i: int| 0 <= i < keys.len() ==> #[trigger] key_stands(args, o + 6, keys, i)
    &&& args.skip(k) == extra
}

/// Whether a key stands in its place, behind `--api-key`.
pub open spec fn key_stands(args: Seq<Seq<char>>, from: int, keys: Seq<Seq<char>>, i: int) -> bool {
    args[from + 2 * i] == "--api-key"@ && args[from + 2 * i + 1] == keys[i]
}

proof fn lemma_key_args(keys: Seq<Seq<char>>, n: nat)
    requires
        n <= keys.len(),
    ensures
        process::key_args(keys, n).len() == 2 * n,
        forall|i: int|
            0 <= i < n ==> #[trigger] key_stands(process::key_args(keys, n), 0, keys, i),
    decreases n,
{
    if n > 0 {
        lemma_key_args(keys, (n - 1) as nat);
        let less = process::key_args(keys, (n - 1) as nat);
        let all = process::key_args(keys, n);
        assert forall|i: int| 0 <= i < n implies #[trigger] key_stands(all, 0, keys, i) by {
            if i < n - 1 {
                assert(key_stands(less, 0, keys, i));
            }
        }
    }
}

/// A server is started with its model's files, the settings, its profile, its name and where it
/// listens; one with a profile goes by the name of the profile.
pub proof fn servers_start_with_model_settings_and_profile(
    c: ConfigView,
    p: ProfilesView,
    model_args: Seq<Seq<char>>,
    id: Seq<char>,
    profile: Option<Seq<char>>,
    extra: Seq<Seq<char>>,
)
    ensures
        match (profile, process::server_args_of(c, p, model_args, id, profile, extra)) {
            (None, Ok(args)) => starts(args, c, model_args, seq![], id, extra),
            (None, Err(_)) => false,
            (Some(name), out) => match (out, profiles::profile_args(p, name, None)) {
                (Ok(args), Ok(own)) => starts(args, c, model_args, own, name, extra),
                (Err(x), Err(y)) => x == y,
                _ => false,
            },
        },
{
    arguments::lemma_displayed(c.gpu_layers);
    match process::server_args_of(c, p, model_args, id, profile, extra) {
        Ok(args) => {
            let (own, name) = match profile {
                None => (seq![], id),
                Some(name) => (profiles::profile_args(p, name, None)->Ok_0, name),
            };
            lemma_starts(args, c, model_args, own, name, extra);
        },
        Err(_) => {},
    }
}

proof fn lemma_starts(
    args: Seq<Seq<char>>,
    c: ConfigView,
    model_args: Seq<Seq<char>>,
    own: Seq<Seq<char>>,
    name: Seq<char>,
    extra: Seq<Seq<char>>,
)
    requires
        ({
            let keys = config::keys_of(c);
            args == model_args + process::common_args_of(c) + own + seq!["--alias"@, name] + (seq![
                "--host"@,
                c.host,
                "--port"@,
                text::decimal_of(c.port as nat),
            ] + process::key_args(keys, keys.len()) + extra)
        }) || (own.len() == 0 && ({
            let keys = config::keys_of(c);
            args == model_args + process::common_args_of(c) + seq!["--alias"@, name] + (seq![
                "--host"@,
                c.host,
                "--port"@,
                text::decimal_of(c.port as nat),
            ] + process::key_args(keys, keys.len()) + extra)
        })),
    ensures
        starts(args, c, model_args, own, name, extra),
{
    arguments::lemma_displayed(c.gpu_layers);
    let keys = config::keys_of(c);
    let list = process::key_args(keys, keys.len());
    lemma_key_args(keys, keys.len());
    let m = model_args.len() as int;
    let x = m + 4 + c.extra_args.len();
    let o = x + own.len();
    let k = o + 6 + 2 * keys.len();
    assert(args.take(m) =~= model_args);
    assert(args.subrange(m + 4, x) =~= c.extra_args);
    assert(args.subrange(x, o) =~= own);
    assert(args.skip(k) =~= extra);
    assert forall|i: int| 0 <= i < keys.len() implies #[trigger] key_stands(args, o + 6, keys, i) by {
        assert(key_stands(list, 0, keys, i));
        assert(args[o + 6 + 2 * i] == list[2 * i]);
        assert(args[o + 6 + 2 * i + 1] == list[2 * i + 1]);
    }
}

/// The scheduler is started with its configuration, which it watches, and listens at the host
/// and port of the settings.
pub proof fn the_scheduler_listens_where_the_settings_say(c: ConfigView, file: Seq<char>)
    ensures
        ({
            let args = process::swap_args_of(c, file);
            &&& args.len() == 5
            &&& args[0] == "-config"@
            &&& args[1] == file
            &&& args[2] == "-watch-config"@
            &&& args[3] == "-listen"@
            &&& args[4] == c.host + seq![':'] + text::decimal_of(c.port as nat)
        }),
{
    reveal_strlit(":");
    assert(":"@ =~= seq![':']);
}

/// A request names a model, a profile, or both with `@` between them: the profile behind the
/// first one. The model of a profile that belongs to one is that one, whatever stands in front.
pub proof fn requests_name_model_and_profile(p: ProfilesView, model: Seq<char>, name: Seq<char>)
    requires
        !texts::occurs(model, '@'),
    ensures
        ({
            let t = process::target_of(p, model + seq!['@'] + name);
            &&& t.profile == Some(name)
            &&& profiles::owner_of(p, name) matches Some(owner) ==> t.query == owner
            &&& profiles::owner_of(p, name) is None ==> t.query == model
        }),
        ({
            let t = process::target_of(p, model);
            &&& table::lookup(p.profiles, model) is None ==> t.query == model && t.profile is None
            &&& table::lookup(p.profiles, model) is Some ==> t.profile == Some(model) && (
            profiles::owner_of(p, model) matches Some(owner) ==> t.query == owner) && (
            profiles::owner_of(p, model) is None ==> t.query == model)
        }),
{
    let s = model + seq!['@'] + name;
    texts::texts_part_at_the_first_separator(s, '@');
    texts::texts_part_at_the_first_separator(model, '@');
    assert(s[model.len() as int] == '@');
    assert(texts::occurs(s, '@'));
    match text::split_once_of(s, '@') {
        Some((a, b)) => {
            estimates::lemma_parts_unique(a, b, model, name, '@');
        },
        None => {},
    }
    match text::split_once_of(model, '@') {
        Some((a, b)) => {
            assert(model[a.len() as int] == '@');
            assert(texts::occurs(model, '@'));
        },
        None => {},
    }
}

/// Whether a name holds another, capital letters aside.
pub open spec fn name_holds(name: Seq<char>, wanted: Seq<char>) -> bool {
    exists|i: int| #[trigger]
        text::at_position(pattern::lowercase(name), pattern::lowercase(wanted), i)
}

proof fn lemma_holding(names: Seq<Seq<char>>, n: nat, wanted: Seq<char>) -> (at: Seq<int>)
    requires
        n <= names.len(),
    ensures
        texts::chosen(names.take(n as int), |s: Seq<char>| name_holds(s, wanted), at),
        process::names_holding(names, n, wanted).len() == at.len(),
        forall|k: int|
            0 <= k < at.len() ==> process::names_holding(names, n, wanted)[k] == names[#[trigger] at[k]],
    decreases n,
{
    let meant = |s: Seq<char>| name_holds(s, wanted);
    if n == 0 {
        seq![]
    } else {
        let before = lemma_holding(names, (n - 1) as nat, wanted);
        texts::lemma_chosen(names, n - 1, meant, before);
        let earlier = process::names_holding(names, (n - 1) as nat, wanted);
        let all = process::names_holding(names, n, wanted);
        if meant(names[n - 1]) {
            let at = before.push(n - 1);
            assert forall|k: int| 0 <= k < at.len() implies all[k] == names[#[trigger] at[k]] by {
                if k < before.len() {
                    assert(all[k] == earlier[k]);
                    assert(at[k] == before[k]);
                }
            }
            at
        } else {
            before
        }
    }
}

/// A request to the scheduler leads to the name that it is; else to the profile that is bound to
/// it, where that is offered; else to the only name that holds it. More than one are told, and
/// so is what is wrong with a binding.
pub proof fn requests_lead_to_offered_names(
    names: Seq<Seq<char>>,
    p: ProfilesView,
    requested: Seq<char>,
) -> (at: Seq<int>)
    ensures
        texts::chosen(names, |s: Seq<char>| name_holds(s, requested), at),
        ({
            let out = process::swap_target(names, p, requested);
            let here = exists|i: int| 0 <= i < names.len() && #[trigger] names[i] == requested;
            let bound = profiles::binding_of(p, requested, requested);
            let offered = bound matches Ok(Some(b)) && exists|i: int|
                0 <= i < names.len() && #[trigger] names[i] == b.0;
            &&& here ==> out == SwapTargetView::Name(requested)
            &&& !here ==> {
                &&& (bound matches Err(e) ==> out == SwapTargetView::Profile(e))
                &&& (bound matches Ok(Some(b)) ==> offered ==> out == SwapTargetView::Name(b.0))
                &&& !(bound is Err) && !offered && at.len() == 0 ==> out is Unmatched
                &&& !(bound is Err) && !offered && at.len() == 1 ==> out == SwapTargetView::Name(
                    names[at[0]],
                )
                &&& !(bound is Err) && !offered && at.len() > 1 ==> (out matches SwapTargetView::Ambiguous(
                    list,
                ) && list.len() == at.len() && forall|k: int|
                    0 <= k < at.len() ==> list[k] == names[#[trigger] at[k]])
            }
        }),
{
    let at = lemma_holding(names, names.len(), requested);
    assert(names.take(names.len() as int) =~= names);
    lemma_contains(names, requested);
    match profiles::binding_of(p, requested, requested) {
        Ok(Some(b)) => {
            lemma_contains(names, b.0);
        },
        _ => {},
    }
    if at.len() == 1 {
        assert(process::names_holding(names, names.len(), requested)[0] == names[at[0]]);
    }
    at
}

proof fn lemma_contains(list: Seq<Seq<char>>, item: Seq<char>)
    ensures
        list.contains(item) <==> exists|i: int| 0 <= i < list.len() && #[trigger] list[i] == item,
{
    if list.contains(item) {
        let i = choose|i: int| 0 <= i < list.len() && list[i] == item;
        assert(list[i] == item);
    }
}

proof fn lemma_flag_table(m: Seq<pattern::Groups>, n: nat, flag: Seq<char>)
    requires
        n <= m.len(),
    ensures
        table::ordered(process::flag_table(m, n)),
        table::lookup(process::flag_table(m, n), flag) is Some <==> exists|i: int|
            0 <= i < n && pattern::group_of(#[trigger] m[i], 1) == flag,
    decreases n,
{
    if n > 0 {
        lemma_flag_table(m, (n - 1) as nat, flag);
        let less = process::flag_table(m, (n - 1) as nat);
        let key = pattern::group_of(m[n - 1], 1);
        table::put_keeps_order(less, key, ());
        table::put_then_lookup(less, key, (), flag);
    }
}

/// The flags that a server knows are those that its help names, each once and in order.
pub proof fn known_flags_are_those_of_the_help(m: Seq<pattern::Groups>, flag: Seq<char>)
    ensures
        ({
            let flags = process::flags_in(Some(m));
            &&& flags.contains(flag) <==> exists|i: int|
                0 <= i < m.len() && pattern::group_of(#[trigger] m[i], 1) == flag
            &&& forall|i: int, j: int|
                0 <= i < j < flags.len() ==> text::before(#[trigger] flags[i], #[trigger] flags[j])
        }),
{
    let list = process::flag_table(m, m.len());
    let flags = process::flags_in(Some(m));
    lemma_flag_table(m, m.len(), flag);
    texts::the_first_entry_with_a_key_counts(list, flag);
    if flags.contains(flag) {
        let i = choose|i: int| 0 <= i < flags.len() && flags[i] == flag;
        assert(list[i].0 == flag);
        assert(table::lookup(list, flag) is Some);
    }
    if table::lookup(list, flag) is Some {
        let v = table::lookup(list, flag)->0;
        let i = choose|i: int|
            0 <= i < list.len() && #[trigger] list[i] == (flag, v) && forall|j: int|
                0 <= j < i ==> (#[trigger] list[j]).0 != flag;
        assert(flags[i] == flag);
    }
    assert forall|i: int, j: int| 0 <= i < j < flags.len() implies text::before(
        #[trigger] flags[i],
        #[trigger] flags[j],
    ) by {
        assert(text::before(list[i].0, list[j].0));
    }
}

/// The numbers of a list, as they are counted.
pub open spec fn counted(list: Seq<u64>) -> Seq<int> {
    Seq::new(list.len(), |i: int| list[i] as int)
}

proof fn lemma_sum_of(list: Seq<u64>, n: nat)
    requires
        n <= list.len(),
    ensures
        process::sum_of(list, n) == texts::sum(counted(list.take(n as int))),
    decreases n,
{
    if n > 0 {
        lemma_sum_of(list, (n - 1) as nat);
        let less = counted(list.take(n - 1));
        let all = counted(list.take(n as int));
        texts::lemma_sum_push(less, list[n - 1] as int);
        assert(all =~= less.push(list[n - 1] as int));
    } else {
        assert(counted(list.take(0)) =~= seq![]);
    }
}

/// A mebibyte has two to the twentieth bytes, and so many add up.
pub proof fn mebibytes_add_up(list: Seq<u64>)
    ensures
        process::bytes_of(list) == 1024 * (1024 * texts::sum(counted(list))),
{
    lemma_sum_of(list, list.len());
    assert(list.take(list.len() as int) =~= list);
}

proof fn lemma_numbers(m: Seq<pattern::Groups>, group: int, n: nat)
    requires
        n <= m.len(),
    ensures
        process::numbers_of(m, group, n).len() <= n,
        process::numbers_of(m, group, n).len() == n ==> forall|i: int|
            0 <= i < n ==> text::u64_of(pattern::group_of(#[trigger] m[i], group)) == Some(
                process::numbers_of(m, group, n)[i],
            ),
        (forall|i: int| 0 <= i < n ==> text::u64_of(pattern::group_of(#[trigger] m[i], group)) is Some)
            ==> process::numbers_of(m, group, n).len() == n,
    decreases n,
{
    if n > 0 {
        lemma_numbers(m, group, (n - 1) as nat);
        let less = process::numbers_of(m, group, (n - 1) as nat);
        let all = process::numbers_of(m, group, n);
        if all.len() == n {
            assert(text::u64_of(pattern::group_of(m[n - 1], group)) is Some);
            assert forall|i: int| 0 <= i < n implies text::u64_of(
                pattern::group_of(#[trigger] m[i], group),
            ) == Some(all[i]) by {
                if i < n - 1 {
                    assert(all[i] == less[i]);
                }
            }
        }
    }
}

/// The memory of the devices is the sum of what each is said to have in all, and to have free:
/// the first and the second number of each. It is not known where one is no number or there is
/// none in all.
pub proof fn device_memory_is_summed(m: Seq<pattern::Groups>) -> (r: (Seq<u64>, Seq<u64>))
    ensures
        ({
            let (total, free) = r;
            let readable = forall|i: int|
                0 <= i < m.len() ==> text::u64_of(pattern::group_of(#[trigger] m[i], 1)) is Some
                    && text::u64_of(pattern::group_of(m[i], 2)) is Some;
            &&& readable ==> {
                &&& total.len() == m.len()
                &&& free.len() == m.len()
                &&& forall|i: int|
                    0 <= i < m.len() ==> text::u64_of(pattern::group_of(#[trigger] m[i], 1)) == Some(
                        total[i],
                    ) && text::u64_of(pattern::group_of(m[i], 2)) == Some(free[i])
            }
            &&& match process::device_memory_of(Some(m)) {
                Some((t, f)) => readable && t > 0 && t == 1024 * (1024 * texts::sum(counted(total))) && f
                    == 1024 * (1024 * texts::sum(counted(free))),
                None => !readable || texts::sum(counted(total)) == 0,
            }
            &&& process::installed_of(Some(m)) == 1024 * (1024 * texts::sum(counted(total)))
        }),
{
    let total = process::numbers_of(m, 1, m.len());
    let free = process::numbers_of(m, 2, m.len());
    lemma_numbers(m, 1, m.len());
    lemma_numbers(m, 2, m.len());
    mebibytes_add_up(total);
    mebibytes_add_up(free);
    (total, free)
}

/// The state of a process stands behind the last closing bracket and blank of its status line.
pub proof fn states_stand_behind_the_name(front: Seq<char>, c: char, rest: Seq<char>)
    requires
        forall|i: int| !#[trigger] text::at_position(seq![c] + rest, ") "@, i),
        c != ' ',
    ensures
        process::state_of(front + seq![')', ' ', c] + rest) == Some(c),
{
    let s = front + seq![')', ' ', c] + rest;
    let piece = ") "@;
    reveal_strlit(") ");
    assert(piece =~= seq![')', ' ']);
    let at = front.len() as int;
    assert(s.subrange(at, at + 2) =~= piece);
    assert(text::at_position(s, piece, at));
    assert forall|j: int| j > at implies !#[trigger] text::at_position(s, piece, j) by {
        if text::at_position(s, piece, j) {
            assert(s.subrange(j, j + 2)[0] == ')');
            assert(s[j] == ')');
            assert(s.subrange(j, j + 2)[1] == ' ');
            assert(s[j + 1] == ' ');
            if j == at + 1 {
                assert(s[j] == ' ');
            } else {
                let tail = seq![c] + rest;
                let i = j - at - 2;
                assert(tail.subrange(i, i + 2) =~= piece) by {
                    assert(tail[i] == s[j]);
                    assert(tail[i + 1] == s[j + 1]);
                }
                assert(text::at_position(tail, piece, i));
            }
        }
    }
    lemma_last_place(s, piece, s.len(), at);
}

proof fn lemma_last_place(s: Seq<char>, piece: Seq<char>, n: nat, at: int)
    requires
        0 <= at < n,
        text::at_position(s, piece, at),
        forall|j: int| j > at ==> !#[trigger] text::at_position(s, piece, j),
    ensures
        process::last_place(s, piece, n) == at,
    decreases n,
{
    if n - 1 > at {
        assert(!text::at_position(s, piece, n - 1));
        lemma_last_place(s, piece, (n - 1) as nat, at);
    }
}

/// The number of a process is read from the digits in its file, blanks around them aside.
pub proof fn process_numbers_are_read_back(n: u32)
    ensures
        process::pid_of(text::decimal_of(n as nat)) == Some(n as nat),
{
    let s = text::decimal_of(n as nat);
    texts::decimals_are_worth_their_number(n as nat);
    texts::decimals_read_back(n as u64);
    texts::white_space_is_not_seen(s[0]);
    texts::white_space_is_not_seen(s[s.len() - 1]);
    texts::texts_between_no_blanks_stay(s);
}

/// A server is looked for in the managed version that the setting names, or in the backend of
/// the other program below the home directory, and then in the current version.
pub proof fn servers_are_looked_for_where_the_setting_says(
    versions: Seq<char>,
    home: Seq<char>,
    current: Seq<char>,
    name: Seq<char>,
)
    ensures
        ({
            let last = config::joined_path(current, "llama-server"@);
            let managed = process::server_places("managed:"@ + name, versions, Some(home), current);
            let other = process::server_places("lmstudio:"@ + name, versions, Some(home), current);
            &&& managed == seq![
                config::joined_path(config::joined_path(versions, name), "llama-server"@),
                last,
            ]
            &&& other == seq![
                config::joined_path(
                    config::joined_path(
                        config::joined_path(home, ".lmstudio/extensions/backends"@),
                        name,
                    ),
                    "llama-server"@,
                ),
                last,
            ]
            &&& process::server_places("managed"@, versions, Some(home), current) == seq![last]
        }),
{
    reveal_strlit("managed:");
    reveal_strlit("lmstudio:");
    reveal_strlit("managed");
    let a = "managed:"@ + name;
    let b = "lmstudio:"@ + name;
    assert("managed:"@ =~= a.take(8));
    assert("lmstudio:"@ =~= b.take(9));
    assert(a.skip(8) =~= name);
    assert(b.skip(9) =~= name);
    assert("managed:"@[0] == 'm');
    assert(b[0] == 'l');
    if "managed:"@.is_prefix_of(b) {
        assert("managed:"@[0] == b[0]);
    }
    if "lmstudio:"@.is_prefix_of("managed"@) {
        assert("lmstudio:"@.len() <= "managed"@.len());
    }
}

/// The output of the servers is what each event that carries some adds, one behind the other.
pub proof fn outputs_add_up(lines: Seq<Seq<char>>, n: nat)
    requires
        n <= lines.len(),
    ensures
        process::stream_output(lines, n) == texts::strung(
            Seq::new(n, |i: int| process::line_output(lines[i])),
        ),
    decreases n,
{
    let all = Seq::new(n, |i: int| process::line_output(lines[i]));
    if n > 0 {
        outputs_add_up(lines, (n - 1) as nat);
        let less = Seq::new((n - 1) as nat, |i: int| process::line_output(lines[i]));
        texts::lemma_strung_push(less, process::line_output(lines[n - 1]));
        assert(all =~= less.push(process::line_output(lines[n - 1])));
    }
}

/// A line carries output where it starts with `data:`, an event of the log in which a payload
/// of a server stands: the text under `data` of the payload whose source is `upstream`.
pub proof fn lines_carry_the_output_of_servers(line: Seq<char>, data: Seq<char>)
    requires
        "data:"@.is_prefix_of(line),
    ensures
        forall|event: Json, s: Seq<char>, payload: Json|
            #![trigger json::member_in(event, "data"@), json::member_in(payload, "source"@), json::parsed(s)]
            {
                &&& json::parsed(text::trim_of(line.skip("data:"@.len() as int))) == Some(event)
                &&& json::member_in(event, "type"@) == Some(Json::Text("logData"@))
                &&& json::member_in(event, "data"@) == Some(Json::Text(s))
                &&& json::parsed(s) == Some(payload)
                &&& json::member_in(payload, "source"@) == Some(Json::Text("upstream"@))
                &&& json::member_in(payload, "data"@) == Some(Json::Text(data))
            } ==> process::line_output(line) == data,
{
}

} // verus!
