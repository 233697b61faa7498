//! How the server is started: its arguments, the scheduler's configuration, and
//! what its answers say.
use vstd::prelude::*;
use vstd::utf8::*;

use crate::config;
use crate::config::{Config, ConfigView};
use crate::json;
use crate::json::{Json, JsonValue};
use crate::metadata;
use crate::models::{CompatibilityView, DraftCompatibility};
use crate::pattern;
use crate::profiles;
use crate::profiles::{ProfileError, ProfileErrorView, Profiles, ProfilesView};
use crate::table;
use crate::table::Table;
use crate::text;

verus! {

/// What the server was last started with.
pub struct LaunchSpec {
    pub model: Option<String>,
    pub extra: Vec<String>,
    pub swap: bool,
}

/// The argument behind the last of the first `n` arguments that is one of
/// `flags`.
pub open spec fn value_after(args: Seq<Seq<char>>, flags: Seq<Seq<char>>, n: nat) -> Option<
    Seq<char>,
>
    decreases n,
{
    if n < 2 {
        None
    } else if flags.contains(args[n - 2]) {
        Some(args[n - 1])
    } else {
        value_after(args, flags, (n - 1) as nat)
    }
}

/// The views of some texts.
pub open spec fn str_views(list: Seq<&str>) -> Seq<Seq<char>> {
    list.map_values(|s: &str| s@)
}

fn among(flags: &[&str], arg: &str) -> (yes: bool)
    ensures
        yes == str_views(flags@).contains(arg@),
{
    let mut i: usize = 0;
    while i < flags.len()
        invariant
            i <= flags@.len(),
            forall|j: int| 0 <= j < i ==> str_views(flags@)[j] != arg@,
        decreases flags@.len() - i,
    {
        if text::same(flags[i], arg) {
            proof {
                assert(str_views(flags@)[i as int] == arg@);
            }
            return true;
        }
        i += 1;
    }
    false
}

/// The argument behind the last occurrence of a flag.
pub fn flag_value(args: &[String], flags: &[&str]) -> (out: Option<String>)
    ensures
        match (out, value_after(text::views(args@), str_views(flags@), args@.len())) {
            (Some(s), Some(t)) => s@ == t,
            (None, None) => true,
            _ => false,
        },
{
    let ghost all = text::views(args@);
    let mut n: usize = args.len();
    while n >= 2
        invariant
            n <= args@.len(),
            all == text::views(args@),
            value_after(all, str_views(flags@), n as nat) == value_after(
                all,
                str_views(flags@),
                args@.len(),
            ),
        decreases n,
    {
        proof {
            assert(all[n - 2] == args@[n - 2]@);
            assert(all[n - 1] == args@[n - 1]@);
        }
        if among(flags, args[n - 2].as_str()) {
            return Some(args[n - 1].clone());
        }
        n -= 1;
    }
    None
}

/// The arguments that every server gets.
pub open spec fn common_args_of(c: ConfigView) -> Seq<Seq<char>> {
    seq!["-ngl"@, profiles::displayed(c.gpu_layers), "-c"@, text::decimal_of(c.ctx_size as nat)]
        + c.extra_args
}

/// Appends one text to a list.
pub fn add(out: &mut Vec<String>, item: &str)
    ensures
        text::views(final(out)@) == text::views(old(out)@).push(item@),
{
    let owned: String = item.to_owned();
    out.push(owned);
    proof {
        profiles::lemma_views_push(old(out)@, owned);
    }
}

/// Appends texts to a list.
pub fn add_all(out: &mut Vec<String>, items: &[String])
    ensures
        text::views(final(out)@) == text::views(old(out)@) + text::views(items@),
{
    let ghost start = text::views(out@);
    let mut i: usize = 0;
    proof {
        assert(start + text::views(items@).take(0) =~= start);
    }
    while i < items.len()
        invariant
            i <= items@.len(),
            text::views(out@) == start + text::views(items@).take(i as int),
        decreases items@.len() - i,
    {
        self::add(out, items[i].as_str());
        proof {
            assert(text::views(out@) =~= start + text::views(items@).take(i + 1));
        }
        i += 1;
    }
    proof {
        assert(text::views(items@).take(items@.len() as int) =~= text::views(items@));
    }
}

pub fn common_args(cfg: &Config) -> (out: Vec<String>)
    ensures
        text::views(out@) == common_args_of(cfg@),
{
    let layers: String = match cfg.gpu_layers.as_str() {
        Some(s) => s.to_owned(),
        None => cfg.gpu_layers.to_text(),
    };
    let mut out: Vec<String> = Vec::new();
    self::add(&mut out, "-ngl");
    self::add(&mut out, layers.as_str());
    self::add(&mut out, "-c");
    self::add(&mut out, text::decimal(cfg.ctx_size).as_str());
    proof {
        assert(text::views(out@) =~= seq![
            "-ngl"@,
            profiles::displayed(cfg@.gpu_layers),
            "-c"@,
            text::decimal_of(cfg.ctx_size as nat),
        ]);
    }
    add_all(&mut out, cfg.extra_args.as_slice());
    out
}

/// A host and a port.
pub open spec fn address(host: Seq<char>, port: u16) -> Seq<char> {
    host + ":"@ + text::decimal_of(port as nat)
}

/// The arguments that start the scheduler.
pub open spec fn swap_args_of(c: ConfigView, swap_config: Seq<char>) -> Seq<Seq<char>> {
    seq![
        "-config"@,
        swap_config,
        "-watch-config"@,
        "-listen"@,
        address(c.host, c.port),
    ]
}

pub fn swap_args(cfg: &Config, swap_config: &str) -> (out: Vec<String>)
    ensures
        text::views(out@) == swap_args_of(cfg@, swap_config@),
{
    let mut listen: String = cfg.host.clone();
    listen.append(":");
    listen.append(text::decimal(cfg.port as u64).as_str());
    let mut out: Vec<String> = Vec::new();
    self::add(&mut out, "-config");
    self::add(&mut out, swap_config);
    self::add(&mut out, "-watch-config");
    self::add(&mut out, "-listen");
    self::add(&mut out, listen.as_str());
    proof {
        assert(text::views(out@) =~= swap_args_of(cfg@, swap_config@));
    }
    out
}

/// What a request for a model names: a query, and a profile where it names one.
pub ghost struct TargetView {
    pub query: Seq<char>,
    pub profile: Option<Seq<char>>,
}

pub struct Target {
    pub query: String,
    pub profile: Option<String>,
}

impl View for Target {
    type V = TargetView;

    open spec fn view(&self) -> TargetView {
        TargetView {
            query: self.query@,
            profile: match self.profile {
                Some(p) => Some(p@),
                None => None,
            },
        }
    }
}

/// What `spec` names: `model@profile`, a profile by its name, or a model. The
/// model of a profile that has an owner is its owner.
pub open spec fn target_of(p: ProfilesView, spec_text: Seq<char>) -> TargetView {
    let (query, named) = match text::split_once_of(spec_text, '@') {
        Some((a, b)) => (a, Some(b)),
        None => (
            spec_text,
            if table::lookup(p.profiles, spec_text) is Some {
                Some(spec_text)
            } else {
                None
            },
        ),
    };
    let owner = match named {
        Some(profile) => profiles::owner_of(p, profile),
        None => None,
    };
    TargetView {
        query: match owner {
            Some(model) => model,
            None => query,
        },
        profile: named,
    }
}

pub fn target(profiles: &Profiles, spec_text: &str) -> (out: Target)
    ensures
        out@ == target_of(profiles@, spec_text@),
{
    proof {
        table::lemma_mapped_lookup(profiles.profiles@, profiles::to_members(), spec_text@);
    }
    let (query, profile): (String, Option<String>) = match text::split_once(spec_text, '@') {
        Some((a, b)) => (a, Some(b)),
        None => if profiles.profiles.contains_key(spec_text) {
            (spec_text.to_owned(), Some(spec_text.to_owned()))
        } else {
            (spec_text.to_owned(), None)
        },
    };
    let owner: Option<String> = match &profile {
        Some(name) => match profiles.owner(name.as_str()) {
            Some(model) => Some(model.to_owned()),
            None => None,
        },
        None => None,
    };
    Target {
        query: match owner {
            Some(model) => model,
            None => query,
        },
        profile,
    }
}

/// One `--api-key` and key for each of the first `n` keys.
pub open spec fn key_args(keys: Seq<Seq<char>>, n: nat) -> Seq<Seq<char>>
    decreases n,
{
    if n == 0 {
        seq![]
    } else {
        key_args(keys, (n - 1) as nat).push("--api-key"@).push(keys[n - 1])
    }
}

/// The arguments for one model, from those that name its files: the common
/// ones, those of the profile, the name it is served under, and where it
/// listens.
pub open spec fn server_args_of(
    c: ConfigView,
    p: ProfilesView,
    model_args: Seq<Seq<char>>,
    id: Seq<char>,
    profile: Option<Seq<char>>,
    extra: Seq<Seq<char>>,
) -> Result<Seq<Seq<char>>, ProfileErrorView> {
    let keys = config::keys_of(c);
    let listen = seq!["--host"@, c.host, "--port"@, text::decimal_of(c.port as nat)] + key_args(
        keys,
        keys.len(),
    ) + extra;
    match profile {
        None => Ok(model_args + common_args_of(c) + seq!["--alias"@, id] + listen),
        Some(name) => match profiles::profile_args(p, name, None) {
            Err(e) => Err(e),
            Ok(own) => Ok(model_args + common_args_of(c) + own + seq!["--alias"@, name] + listen),
        },
    }
}

pub fn server_args(
    cfg: &Config,
    profiles: &Profiles,
    model_args: &[String],
    id: &str,
    profile: Option<&str>,
    extra: &[String],
) -> (out: Result<Vec<String>, ProfileError>)
    ensures
        match (
            out,
            server_args_of(
                cfg@,
                profiles@,
                text::views(model_args@),
                id@,
                match profile {
                    Some(s) => Some(s@),
                    None => None,
                },
                text::views(extra@),
            ),
        ) {
            (Ok(args), Ok(v)) => text::views(args@) == v,
            (Err(e), Err(f)) => e@ == f,
            _ => false,
        },
{
    let mut args: Vec<String> = Vec::new();
    proof {
        assert(text::views(args@) =~= seq![]);
    }
    add_all(&mut args, model_args);
    let common: Vec<String> = common_args(cfg);
    add_all(&mut args, common.as_slice());
    proof {
        assert(text::views(args@) =~= text::views(model_args@) + common_args_of(cfg@));
    }
    let ghost before = text::views(args@);
    match profile {
        Some(name) => {
            let own: Vec<String> = match profiles.args(name) {
                Ok(own) => own,
                Err(e) => return Err(e),
            };
            add_all(&mut args, own.as_slice());
            self::add(&mut args, "--alias");
            self::add(&mut args, name);
            proof {
                assert(text::views(args@) =~= before + text::views(own@) + seq![
                    "--alias"@,
                    name@,
                ]);
            }
        },
        None => {
            self::add(&mut args, "--alias");
            self::add(&mut args, id);
            proof {
                assert(text::views(args@) =~= before + seq!["--alias"@, id@]);
            }
        },
    }
    let ghost head = text::views(args@);
    let port: String = text::decimal(cfg.port as u64);
    self::add(&mut args, "--host");
    self::add(&mut args, cfg.host.as_str());
    self::add(&mut args, "--port");
    self::add(&mut args, port.as_str());
    let ghost place = seq!["--host"@, cfg@.host, "--port"@, port@];
    let keys: Vec<String> = cfg.keys();
    let ghost all = text::views(keys@);
    let mut i: usize = 0;
    proof {
        assert(text::views(args@) =~= head + (place + key_args(all, 0)));
    }
    while i < keys.len()
        invariant
            i <= keys@.len(),
            all == text::views(keys@),
            text::views(args@) == head + (place + key_args(all, i as nat)),
        decreases keys@.len() - i,
    {
        proof {
            assert(all[i as int] == keys@[i as int]@);
        }
        self::add(&mut args, "--api-key");
        self::add(&mut args, keys[i].as_str());
        proof {
            assert(text::views(args@) =~= head + (place + key_args(all, (i + 1) as nat)));
        }
        i += 1;
    }
    add_all(&mut args, extra);
    proof {
        assert(text::views(args@) =~= head + (place + key_args(all, all.len()) + text::views(
            extra@,
        )));
    }
    Ok(args)
}

/// Assignments as they stand on a command line.
pub open spec fn assigned(pairs: Seq<(Seq<char>, Seq<char>)>) -> Seq<Seq<char>> {
    pairs.map_values(|p: (Seq<char>, Seq<char>)| p.0 + "="@ + p.1)
}

/// Appends assignments to a list.
pub fn add_assignments(out: &mut Vec<String>, pairs: &Vec<(String, String)>)
    ensures
        text::views(final(out)@) == text::views(old(out)@) + assigned(
            profiles::pair_views(pairs@),
        ),
{
    let ghost start = text::views(out@);
    let ghost all = assigned(profiles::pair_views(pairs@));
    let mut i: usize = 0;
    proof {
        assert(start + all.take(0) =~= start);
    }
    while i < pairs.len()
        invariant
            i <= pairs@.len(),
            all == assigned(profiles::pair_views(pairs@)),
            text::views(out@) == start + all.take(i as int),
        decreases pairs@.len() - i,
    {
        let mut item: String = pairs[i].0.clone();
        item.append("=");
        item.append(pairs[i].1.as_str());
        self::add(out, item.as_str());
        proof {
            assert(all[i as int] == item@);
            assert(text::views(out@) =~= start + all.take(i + 1));
        }
        i += 1;
    }
    proof {
        assert(all.take(all.len() as int) =~= all);
    }
}

/// The program and its arguments, run through `env` where there are variables
/// to set.
pub fn with_environment(
    environment: &Vec<(String, String)>,
    binary: &str,
    args: &[String],
) -> (out: (String, Vec<String>))
    ensures
        environment@.len() == 0 ==> out.0@ == binary@ && text::views(out.1@) == text::views(args@),
        environment@.len() > 0 ==> out.0@ == "/usr/bin/env"@ && text::views(out.1@) == assigned(
            profiles::pair_views(environment@),
        ).push(binary@) + text::views(args@),
{
    let mut wrapped: Vec<String> = Vec::new();
    proof {
        assert(text::views(wrapped@) =~= seq![]);
    }
    if environment.len() == 0 {
        add_all(&mut wrapped, args);
        proof {
            assert(text::views(wrapped@) =~= text::views(args@));
        }
        return (binary.to_owned(), wrapped);
    }
    add_assignments(&mut wrapped, environment);
    self::add(&mut wrapped, binary);
    add_all(&mut wrapped, args);
    proof {
        assert(text::views(wrapped@) =~= assigned(profiles::pair_views(environment@)).push(binary@)
            + text::views(args@));
    }
    ("/usr/bin/env".to_owned(), wrapped)
}

/// A character that needs no quoting in a shell.
pub open spec fn is_plain(c: char) -> bool {
    ||| profiles::is_alphanumeric(c)
    ||| c == '/'
    ||| c == '.'
    ||| c == '_'
    ||| c == '-'
    ||| c == ':'
    ||| c == '='
    ||| c == ','
}

/// The text with every quotation mark closed, escaped and opened again.
pub open spec fn escaped(s: Seq<char>) -> Seq<char>
    decreases s.len(),
{
    if s.len() == 0 {
        seq![]
    } else if s.last() == '\'' {
        escaped(s.drop_last()) + seq!['\'', '\\', '\'', '\'']
    } else {
        escaped(s.drop_last()).push(s.last())
    }
}

/// One argument as a shell reads it; the placeholder for the port stands for
/// itself.
pub open spec fn shell_word(s: Seq<char>) -> Seq<char> {
    if s == "${PORT}"@ || forall|i: int| 0 <= i < s.len() ==> is_plain(#[trigger] s[i]) {
        s
    } else {
        seq!['\''] + escaped(s) + seq!['\'']
    }
}

fn plain(c: char) -> (yes: bool)
    ensures
        yes == is_plain(c),
{
    profiles::alphanumeric(c) || c == '/' || c == '.' || c == '_' || c == '-' || c == ':' || c
        == '=' || c == ','
}

fn shell_quote(s: &str) -> (out: String)
    ensures
        out@ == shell_word(s@),
{
    let chars: Vec<char> = text::chars_of(s);
    let mut simple: bool = true;
    let mut i: usize = 0;
    while i < chars.len()
        invariant
            i <= chars@.len(),
            chars@ == s@,
            simple == (forall|j: int| 0 <= j < i ==> is_plain(#[trigger] s@[j])),
        decreases chars@.len() - i,
    {
        if !plain(chars[i]) {
            proof {
                assert(!is_plain(s@[i as int]));
            }
            simple = false;
        }
        i += 1;
    }
    if simple || text::same(s, "${PORT}") {
        return s.to_owned();
    }
    let mut out: String = String::new();
    out.push('\'');
    let mut k: usize = 0;
    proof {
        assert(s@.take(0) =~= seq![]);
        assert(out@ =~= seq!['\''] + escaped(s@.take(0)));
    }
    while k < chars.len()
        invariant
            k <= chars@.len(),
            chars@ == s@,
            out@ == seq!['\''] + escaped(s@.take(k as int)),
        decreases chars@.len() - k,
    {
        proof {
            assert(s@.take(k + 1).drop_last() =~= s@.take(k as int));
        }
        if chars[k] == '\'' {
            out.push('\'');
            out.push('\\');
            out.push('\'');
            out.push('\'');
        } else {
            out.push(chars[k]);
        }
        proof {
            assert(out@ =~= seq!['\''] + escaped(s@.take(k + 1)));
        }
        k += 1;
    }
    out.push('\'');
    proof {
        assert(s@.take(s@.len() as int) =~= s@);
        assert(out@ =~= shell_word(s@));
    }
    out
}

/// Arguments as one command line.
pub open spec fn shell_line(args: Seq<Seq<char>>) -> Seq<char> {
    text::joined(args.map_values(|a: Seq<char>| shell_word(a)), " "@)
}

pub fn shell_join(args: &[String]) -> (out: String)
    ensures
        out@ == shell_line(text::views(args@)),
{
    let ghost all = text::views(args@).map_values(|a: Seq<char>| shell_word(a));
    let mut words: Vec<String> = Vec::new();
    let mut i: usize = 0;
    proof {
        assert(text::views(words@) =~= all.take(0));
    }
    while i < args.len()
        invariant
            i <= args@.len(),
            all == text::views(args@).map_values(|a: Seq<char>| shell_word(a)),
            text::views(words@) == all.take(i as int),
        decreases args@.len() - i,
    {
        let word: String = shell_quote(args[i].as_str());
        self::add(&mut words, word.as_str());
        proof {
            assert(all[i as int] == word@);
            assert(text::views(words@) =~= all.take(i + 1));
        }
        i += 1;
    }
    proof {
        assert(all.take(all.len() as int) =~= all);
    }
    text::join(words.as_slice(), " ")
}

/// A word with one more character.
pub open spec fn longer(word: Option<Seq<char>>, c: char) -> Option<Seq<char>> {
    match word {
        Some(w) => Some(w.push(c)),
        None => Some(seq![c]),
    }
}

/// The words that a shell reads from a line: blanks part them, a text between two quotation
/// marks stands for itself, and so does a character behind a backslash. `word` is what was
/// read of the first word, and `quoted` says whether a quotation mark is open.
pub open spec fn shell_words(s: Seq<char>, word: Option<Seq<char>>, quoted: bool) -> Seq<Seq<char>>
    decreases s.len(),
{
    if s.len() == 0 {
        match word {
            Some(w) => seq![w],
            None => seq![],
        }
    } else {
        let c = s[0];
        let rest = s.skip(1);
        if quoted {
            if c == '\'' {
                shell_words(rest, word, false)
            } else {
                shell_words(rest, longer(word, c), true)
            }
        } else if c == ' ' {
            match word {
                Some(w) => seq![w] + shell_words(rest, None, false),
                None => shell_words(rest, None, false),
            }
        } else if c == '\'' {
            shell_words(
                rest,
                match word {
                    Some(w) => Some(w),
                    None => Some(seq![]),
                },
                true,
            )
        } else if c == '\\' && rest.len() > 0 {
            shell_words(rest.skip(1), longer(word, rest[0]), false)
        } else {
            shell_words(rest, longer(word, c), false)
        }
    }
}

proof fn lemma_read_escaped(a: Seq<char>, w: Seq<char>, tail: Seq<char>)
    ensures
        shell_words(escaped(a) + tail, Some(w), true) == shell_words(tail, Some(w + a), true),
    decreases a.len(),
{
    if a.len() == 0 {
        assert(escaped(a) + tail =~= tail);
        assert(w + a =~= w);
    } else {
        let front = a.drop_last();
        let c = a.last();
        let piece = if c == '\'' {
            seq!['\'', '\\', '\'', '\'']
        } else {
            seq![c]
        };
        let more = piece + tail;
        assert(escaped(a) + tail =~= escaped(front) + more);
        lemma_read_escaped(front, w, more);
        assert((w + front).push(c) =~= w + a);
        if c == '\'' {
            assert(more.skip(1).skip(1).skip(1).skip(1) =~= tail);
            assert(more[0] == '\'' && more.skip(1)[0] == '\\' && more.skip(1).skip(1)[0] == '\''
                && more.skip(1).skip(1).skip(1)[0] == '\'');
            reveal_with_fuel(shell_words, 4);
        } else {
            assert(more.skip(1) =~= tail);
            assert(more[0] == c);
        }
    }
}

/// Whether a shell reads a character as itself.
pub open spec fn is_ordinary(c: char) -> bool {
    c != ' ' && c != '\'' && c != '\\'
}

proof fn lemma_read_plain(a: Seq<char>, tail: Seq<char>)
    requires
        a.len() > 0,
        forall|i: int| 0 <= i < a.len() ==> is_ordinary(#[trigger] a[i]),
    ensures
        shell_words(a + tail, None, false) == shell_words(tail, Some(a), false),
    decreases a.len(),
{
    let front = a.drop_last();
    let more = seq![a.last()] + tail;
    assert(more.skip(1) =~= tail);
    assert(a + tail =~= front + more);
    assert(is_ordinary(a[a.len() - 1]));
    if front.len() == 0 {
        assert(front + more =~= more);
        assert(a =~= seq![a.last()]);
    } else {
        assert forall|i: int| 0 <= i < front.len() implies is_ordinary(#[trigger] front[i]) by {
            assert(a[i] == front[i]);
        }
        lemma_read_plain(front, more);
        assert(front.push(a.last()) =~= a);
    }
}

proof fn lemma_read_word(a: Seq<char>, tail: Seq<char>)
    requires
        a.len() > 0,
    ensures
        shell_words(shell_word(a) + tail, None, false) == shell_words(tail, Some(a), false),
{
    reveal_strlit("${PORT}");
    if shell_word(a) == a {
        assert forall|i: int| 0 <= i < a.len() implies is_ordinary(#[trigger] a[i]) by {
            if a != "${PORT}"@ {
                if !is_plain(a[i]) {
                    assert(a.len() == (seq!['\''] + escaped(a) + seq!['\'']).len());
                    lemma_escaped_is_longer(a);
                }
            }
        }
        lemma_read_plain(a, tail);
    } else {
        let inner = seq!['\''] + tail;
        let all = shell_word(a) + tail;
        assert(all.skip(1) =~= escaped(a) + inner);
        lemma_read_escaped(a, seq![], inner);
        assert(seq![] + a =~= a);
        assert(inner.skip(1) =~= tail);
    }
}

proof fn lemma_escaped_is_longer(a: Seq<char>)
    ensures
        escaped(a).len() >= a.len(),
    decreases a.len(),
{
    if a.len() > 0 {
        lemma_escaped_is_longer(a.drop_last());
    }
}

proof fn lemma_read_line(args: Seq<Seq<char>>, tail: Seq<char>)
    requires
        args.len() > 0,
        forall|i: int| 0 <= i < args.len() ==> (#[trigger] args[i]).len() > 0,
    ensures
        shell_words(shell_line(args) + tail, None, false) == args.drop_last() + shell_words(
            tail,
            Some(args.last()),
            false,
        ),
    decreases args.len(),
{
    let words = args.map_values(|a: Seq<char>| shell_word(a));
    let last = args[args.len() - 1];
    lemma_read_word(last, tail);
    if args.len() == 1 {
        assert(shell_line(args) == words[0]);
        assert(args.drop_last() =~= seq![]);
    } else {
        let front = args.drop_last();
        assert(words.drop_last() =~= front.map_values(|a: Seq<char>| shell_word(a)));
        reveal_strlit(" ");
        let more = seq![' '] + (shell_word(last) + tail);
        assert(shell_line(args) + tail =~= shell_line(front) + more);
        assert forall|i: int| 0 <= i < front.len() implies (#[trigger] front[i]).len() > 0 by {
            assert(front[i] == args[i]);
        }
        lemma_read_line(front, more);
        assert(more.skip(1) =~= shell_word(last) + tail);
        assert(front.drop_last() + (seq![front.last()] + shell_words(tail, Some(last), false))
            =~= front + shell_words(tail, Some(last), false));
    }
}

/// A shell reads the arguments back from the command line that is made of them. An empty
/// argument has no place in the line.
pub proof fn arguments_read_back(args: Seq<Seq<char>>)
    requires
        forall|i: int| 0 <= i < args.len() ==> (#[trigger] args[i]).len() > 0,
    ensures
        shell_words(shell_line(args), None, false) == args,
{
    if args.len() > 0 {
        lemma_read_line(args, seq![]);
        assert(shell_line(args) + Seq::<char>::empty() =~= shell_line(args));
        assert(args.drop_last() + seq![args.last()] =~= args);
    }
}

/// The digit of a number below sixteen, in upper case.
pub open spec fn hex_digit(n: int) -> char {
    if n < 10 {
        (48 + n) as char
    } else {
        (55 + n) as char
    }
}

/// A byte that stands for itself in a path.
pub open spec fn is_unreserved(b: u8) -> bool {
    ||| 48 <= b <= 57
    ||| 65 <= b <= 90
    ||| 97 <= b <= 122
    ||| b == 45
    ||| b == 46
    ||| b == 95
    ||| b == 126
}

/// One byte, as itself or as a percent sign and two digits.
pub open spec fn encoded_byte(b: u8) -> Seq<char> {
    if is_unreserved(b) {
        seq![b as char]
    } else {
        seq!['%', hex_digit(b as int / 16), hex_digit(b as int % 16)]
    }
}

/// Bytes, each encoded.
pub open spec fn encoded_bytes(s: Seq<u8>) -> Seq<char>
    decreases s.len(),
{
    if s.len() == 0 {
        seq![]
    } else {
        encoded_bytes(s.drop_last()) + encoded_byte(s.last())
    }
}

fn hex(n: u8) -> (c: char)
    requires
        n < 16,
    ensures
        c == hex_digit(n as int),
{
    if n < 10 {
        (48 + n) as char
    } else {
        (55 + n) as char
    }
}

/// A text as one segment of a path.
pub fn percent_encode(value: &str) -> (out: String)
    ensures
        out@ == encoded_bytes(encode_utf8(value@)),
{
    let bytes: &[u8] = value.as_bytes();
    let mut out: String = String::new();
    let mut i: usize = 0;
    proof {
        assert(bytes@.take(0) =~= seq![]);
        assert(out@ =~= seq![]);
    }
    while i < bytes.len()
        invariant
            i <= bytes@.len(),
            out@ == encoded_bytes(bytes@.take(i as int)),
        decreases bytes@.len() - i,
    {
        let b: u8 = bytes[i];
        proof {
            assert(bytes@.take(i + 1).drop_last() =~= bytes@.take(i as int));
        }
        if (48 <= b && b <= 57) || (65 <= b && b <= 90) || (97 <= b && b <= 122) || b == 45 || b
            == 46 || b == 95 || b == 126 {
            out.push(b as char);
        } else {
            out.push('%');
            out.push(hex(b / 16));
            out.push(hex(b % 16));
        }
        proof {
            assert(out@ =~= encoded_bytes(bytes@.take(i + 1)));
        }
        i += 1;
    }
    proof {
        assert(bytes@.take(bytes@.len() as int) =~= bytes@);
    }
    out
}

/// The number that a digit stands for.
pub open spec fn hex_value(c: char) -> int {
    if c <= '9' {
        c as int - 48
    } else {
        c as int - 55
    }
}

/// The bytes that an encoded text stands for: each character for itself, or a percent sign
/// with two digits for one.
pub open spec fn decoded_bytes(s: Seq<char>) -> Seq<u8>
    decreases s.len(),
{
    if s.len() == 0 {
        seq![]
    } else if s[0] == '%' && s.len() >= 3 {
        seq![(hex_value(s[1]) * 16 + hex_value(s[2])) as u8] + decoded_bytes(s.skip(3))
    } else {
        seq![s[0] as u8] + decoded_bytes(s.skip(1))
    }
}

proof fn lemma_decoded(s: Seq<u8>, tail: Seq<char>)
    ensures
        decoded_bytes(encoded_bytes(s) + tail) == s + decoded_bytes(tail),
    decreases s.len(),
{
    if s.len() == 0 {
        assert(encoded_bytes(s) + tail =~= tail);
        assert(s + decoded_bytes(tail) =~= decoded_bytes(tail));
    } else {
        let front = s.drop_last();
        let b = s.last();
        let more = encoded_byte(b) + tail;
        assert(encoded_bytes(s) + tail =~= encoded_bytes(front) + more);
        lemma_decoded(front, more);
        if is_unreserved(b) {
            assert(more.skip(1) =~= tail);
            assert(more[0] == b as char);
        } else {
            assert(more.skip(3) =~= tail);
            assert(more[0] == '%' && more[1] == hex_digit(b as int / 16) && more[2] == hex_digit(
                b as int % 16,
            ));
            assert(hex_value(hex_digit(b as int / 16)) == b as int / 16);
            assert(hex_value(hex_digit(b as int % 16)) == b as int % 16);
        }
        assert(front + (seq![b] + decoded_bytes(tail)) =~= s + decoded_bytes(tail));
    }
}

/// An encoded text can be decoded, so that no two texts are encoded alike.
pub proof fn encoding_can_be_undone(s: Seq<u8>)
    ensures
        decoded_bytes(encoded_bytes(s)) == s,
{
    lemma_decoded(s, seq![]);
    assert(encoded_bytes(s) + Seq::<char>::empty() =~= encoded_bytes(s));
    assert(s + Seq::<u8>::empty() =~= s);
}

/// An encoded text holds only letters, digits and the signs `-._~%`.
pub proof fn encoding_is_safe(s: Seq<u8>, i: int)
    requires
        0 <= i < encoded_bytes(s).len(),
    ensures
        ({
            let c = encoded_bytes(s)[i];
            profiles::is_alphanumeric(c) || c == '-' || c == '.' || c == '_' || c == '~' || c
                == '%'
        }),
    decreases s.len(),
{
    if s.len() > 0 {
        let less = encoded_bytes(s.drop_last());
        if i < less.len() {
            encoding_is_safe(s.drop_last(), i);
        }
    }
}

/// The expression for a long flag.
pub open spec fn flag_expression() -> Seq<char> {
    r"--([A-Za-z0-9][A-Za-z0-9-]*)"@
}

/// The flags that the first `n` matches name, in order and each once.
pub open spec fn flag_table(matches: Seq<pattern::Groups>, n: nat) -> Seq<(Seq<char>, ())>
    decreases n,
{
    if n == 0 {
        seq![]
    } else {
        table::put(
            flag_table(matches, (n - 1) as nat),
            pattern::group_of(matches[n - 1], 1),
            (),
        )
    }
}

/// The flags that some matches name.
pub open spec fn flags_in(matches: Option<Seq<pattern::Groups>>) -> Seq<Seq<char>> {
    match matches {
        Some(m) => flag_table(m, m.len()).map_values(|e: (Seq<char>, ())| e.0),
        None => seq![],
    }
}

/// The matches of an expression, where there are any.
pub open spec fn found_views(found: Option<Vec<Vec<Option<String>>>>) -> Option<
    Seq<pattern::Groups>,
> {
    match found {
        Some(m) => Some(pattern::match_views(m@)),
        None => None,
    }
}

/// The flags that some matches name, in order and each once.
pub fn flags_from(found: &Option<Vec<Vec<Option<String>>>>) -> (out: Vec<String>)
    ensures
        text::views(out@) == flags_in(found_views(*found)),
{
    let mut out: Vec<String> = Vec::new();
    proof {
        assert(text::views(out@) =~= seq![]);
    }
    match found {
        None => out,
        Some(m) => {
            let ghost all = pattern::match_views(m@);
            let mut flags: Table<()> = Table::new();
            let mut i: usize = 0;
            while i < m.len()
                invariant
                    i <= m@.len(),
                    all == pattern::match_views(m@),
                    flags@ == flag_table(all, i as nat),
                decreases m@.len() - i,
            {
                proof {
                    assert(all[i as int] == pattern::group_views(m@[i as int]@));
                }
                flags.insert(pattern::group(&m[i], 1), ());
                i += 1;
            }
            let ghost names = flags@.map_values(|e: (Seq<char>, ())| e.0);
            let mut k: usize = 0;
            proof {
                assert(text::views(out@) =~= names.take(0));
            }
            while k < flags.len()
                invariant
                    k <= flags@.len(),
                    names == flags@.map_values(|e: (Seq<char>, ())| e.0),
                    text::views(out@) == names.take(k as int),
                decreases flags@.len() - k,
            {
                self::add(&mut out, flags.key_at(k));
                proof {
                    assert(names.take(k + 1) =~= names.take(k as int).push(names[k as int]));
                }
                k += 1;
            }
            proof {
                assert(names.take(names.len() as int) =~= names);
            }
            out
        },
    }
}

/// The flags that a server's help names.
pub fn known_flags(help: &str) -> (out: Vec<String>)
    ensures
        text::views(out@) == flags_in(pattern::captured(flag_expression(), help@)),
{
    let found: Option<Vec<Vec<Option<String>>>> = pattern::captures(
        r"--([A-Za-z0-9][A-Za-z0-9-]*)",
        help,
    );
    flags_from(&found)
}

/// A number of bytes that is too large to be held.
#[derive(Clone, Copy, Debug, PartialEq, Eq, Structural)]
pub struct TooLarge;

/// The sum of the first `n` numbers.
pub open spec fn sum_of(list: Seq<u64>, n: nat) -> nat
    decreases n,
{
    if n == 0 {
        0
    } else {
        sum_of(list, (n - 1) as nat) + list[n - 1] as nat
    }
}

/// So many mebibytes in bytes.
pub open spec fn bytes_of(list: Seq<u64>) -> nat {
    sum_of(list, list.len()) * 1_048_576
}

proof fn lemma_sum_grows(list: Seq<u64>, n: nat, more: nat)
    requires
        n <= more,
    ensures
        sum_of(list, n) <= sum_of(list, more),
    decreases more,
{
    if n < more {
        lemma_sum_grows(list, n, (more - 1) as nat);
    }
}

/// The bytes in some numbers of mebibytes.
pub fn mebibytes(list: &Vec<u64>) -> (out: Result<u64, TooLarge>)
    ensures
        match out {
            Ok(n) => n == bytes_of(list@),
            Err(_) => bytes_of(list@) > u64::MAX,
        },
{
    let mut sum: u64 = 0;
    let mut i: usize = 0;
    while i < list.len()
        invariant
            i <= list@.len(),
            sum == sum_of(list@, i as nat),
            sum <= 0xfff_ffff_ffff,
        decreases list@.len() - i,
    {
        proof {
            lemma_sum_grows(list@, (i + 1) as nat, list@.len());
        }
        if list[i] > 0xfff_ffff_ffff - sum {
            return Err(TooLarge);
        }
        sum += list[i];
        i += 1;
    }
    Ok(sum * 1_048_576)
}

/// The numbers in a group of the first `n` matches, as far as they are numbers.
pub open spec fn numbers_of(matches: Seq<pattern::Groups>, group: int, n: nat) -> Seq<u64>
    decreases n,
{
    if n == 0 {
        seq![]
    } else {
        let earlier = numbers_of(matches, group, (n - 1) as nat);
        match text::u64_of(pattern::group_of(matches[n - 1], group)) {
            Some(k) => earlier.push(k),
            None => earlier,
        }
    }
}

fn numbers(m: &Vec<Vec<Option<String>>>, group: usize) -> (out: Vec<u64>)
    ensures
        out@ == numbers_of(pattern::match_views(m@), group as int, m@.len()),
{
    let ghost all = pattern::match_views(m@);
    let mut out: Vec<u64> = Vec::new();
    let mut i: usize = 0;
    proof {
        assert(out@ =~= seq![]);
    }
    while i < m.len()
        invariant
            i <= m@.len(),
            all == pattern::match_views(m@),
            out@ == numbers_of(all, group as int, i as nat),
        decreases m@.len() - i,
    {
        proof {
            assert(all[i as int] == pattern::group_views(m@[i as int]@));
        }
        match text::parse_u64(pattern::group(&m[i], group).as_str()) {
            Some(k) => out.push(k),
            None => {},
        }
        i += 1;
    }
    out
}

/// The expression for the memory of a device, in all and free.
pub open spec fn device_expression() -> Seq<char> {
    r"\((\d+)\s+MiB,\s+(\d+)\s+MiB free\)"@
}

/// The memory of the devices that some matches show, in all and free; `None` where
/// there is none, or a number is not one.
pub open spec fn device_memory_of(matches: Option<Seq<pattern::Groups>>) -> Option<(nat, nat)> {
    match matches {
        None => None,
        Some(m) => {
            let total = numbers_of(m, 1, m.len());
            let free = numbers_of(m, 2, m.len());
            if total.len() < m.len() || free.len() < m.len() || bytes_of(total) == 0 {
                None
            } else {
                Some((bytes_of(total), bytes_of(free)))
            }
        },
    }
}

/// The memory of the devices that some matches show.
pub fn device_memory_from(found: &Option<Vec<Vec<Option<String>>>>) -> (out: Result<
    Option<(u64, u64)>,
    TooLarge,
>)
    ensures
        match (out, device_memory_of(found_views(*found))) {
            (Ok(Some((total, free))), Some((t, f))) => total == t && free == f,
            (Ok(None), None) => true,
            (Err(_), Some((t, f))) => t > u64::MAX || f > u64::MAX,
            _ => false,
        },
{
    match found {
        None => Ok(None),
        Some(m) => {
            let total: Vec<u64> = numbers(m, 1);
            let free: Vec<u64> = numbers(m, 2);
            if total.len() < m.len() || free.len() < m.len() {
                return Ok(None);
            }
            let a: u64 = match mebibytes(&total) {
                Ok(n) => n,
                Err(e) => return Err(e),
            };
            if a == 0 {
                return Ok(None);
            }
            match mebibytes(&free) {
                Ok(b) => Ok(Some((a, b))),
                Err(e) => Err(e),
            }
        },
    }
}

/// The memory of the devices that a server lists, in all and free.
pub fn device_memory_bytes(listing: &str) -> (out: Result<Option<(u64, u64)>, TooLarge>)
    ensures
        match (out, device_memory_of(pattern::captured(device_expression(), listing@))) {
            (Ok(Some((total, free))), Some((t, f))) => total == t && free == f,
            (Ok(None), None) => true,
            (Err(_), Some((t, f))) => t > u64::MAX || f > u64::MAX,
            _ => false,
        },
{
    let found: Option<Vec<Vec<Option<String>>>> = pattern::captures(
        r"\((\d+)\s+MiB,\s+(\d+)\s+MiB free\)",
        listing,
    );
    device_memory_from(&found)
}

/// The memory that is installed in the devices that some matches show.
pub open spec fn installed_of(matches: Option<Seq<pattern::Groups>>) -> nat {
    match matches {
        None => 0,
        Some(m) => bytes_of(numbers_of(m, 1, m.len())),
    }
}

pub fn installed_from(found: &Option<Vec<Vec<Option<String>>>>) -> (out: Result<u64, TooLarge>)
    ensures
        match out {
            Ok(n) => n == installed_of(found_views(*found)),
            Err(_) => installed_of(found_views(*found)) > u64::MAX,
        },
{
    match found {
        None => Ok(0),
        Some(m) => mebibytes(&numbers(m, 1)),
    }
}

/// The memory that is installed in the devices that a server lists; zero where it
/// lists none.
pub fn installed_vram_bytes(listing: &str) -> (out: Result<u64, TooLarge>)
    ensures
        match out {
            Ok(n) => n == installed_of(pattern::captured(device_expression(), listing@)),
            Err(_) => installed_of(pattern::captured(device_expression(), listing@)) > u64::MAX,
        },
{
    let found: Option<Vec<Vec<Option<String>>>> = pattern::captures(
        r"\((\d+)\s+MiB,\s+(\d+)\s+MiB free\)",
        listing,
    );
    installed_from(&found)
}

/// The numbers that stand alone on one of the first `n` lines.
pub open spec fn line_numbers(lines: Seq<Seq<char>>, n: nat) -> Seq<u64>
    decreases n,
{
    if n == 0 {
        seq![]
    } else {
        let earlier = line_numbers(lines, (n - 1) as nat);
        match text::u64_of(text::trim_of(lines[n - 1])) {
            Some(k) => earlier.push(k),
            None => earlier,
        }
    }
}

/// The memory that is listed one device to a line, in bytes.
pub fn listed_vram_bytes(listing: &str) -> (out: Result<u64, TooLarge>)
    ensures
        ({
            let lines = text::lines_of(listing@);
            let sum = bytes_of(line_numbers(lines, lines.len()));
            match out {
                Ok(n) => n == sum,
                Err(_) => sum > u64::MAX,
            }
        }),
{
    let lines: Vec<String> = text::lines(listing);
    let ghost all = text::views(lines@);
    let mut found: Vec<u64> = Vec::new();
    let mut i: usize = 0;
    proof {
        assert(found@ =~= seq![]);
    }
    while i < lines.len()
        invariant
            i <= lines@.len(),
            all == text::views(lines@),
            found@ == line_numbers(all, i as nat),
        decreases lines@.len() - i,
    {
        proof {
            assert(all[i as int] == lines@[i as int]@);
        }
        match text::parse_u64(text::trim(lines[i].as_str()).as_str()) {
            Some(k) => found.push(k),
            None => {},
        }
        i += 1;
    }
    mebibytes(&found)
}

/// The draft that some arguments name.
pub open spec fn draft_in(args: Seq<Seq<char>>) -> Option<Seq<char>> {
    value_after(args, seq!["--spec-draft-model"@, "--model-draft"@, "-md"@], args.len())
}

pub fn draft_model(args: &[String]) -> (out: Option<String>)
    ensures
        metadata::text_view(out) == draft_in(text::views(args@)),
{
    let flags: [&str; 3] = ["--spec-draft-model", "--model-draft", "-md"];
    proof {
        assert(str_views(flags@) =~= seq!["--spec-draft-model"@, "--model-draft"@, "-md"@]);
    }
    flag_value(args, &flags)
}

/// Why a draft cannot be used.
pub enum DraftFault {
    /// There is no such file.
    Missing(String),
    /// The draft and why it does not go with the model.
    Incompatible(String, String),
}

pub ghost enum DraftFaultView {
    Missing(Seq<char>),
    Incompatible(Seq<char>, Seq<char>),
}

impl View for DraftFault {
    type V = DraftFaultView;

    open spec fn view(&self) -> DraftFaultView {
        match *self {
            DraftFault::Missing(s) => DraftFaultView::Missing(s@),
            DraftFault::Incompatible(a, b) => DraftFaultView::Incompatible(a@, b@),
        }
    }
}

/// What is wrong with the draft that some arguments name, for a model that is known
/// by its file: `exists` and `compatibility` say of the draft that it is there and
/// goes with the model.
pub open spec fn draft_fault(
    main: bool,
    args: Seq<Seq<char>>,
    exists: bool,
    compatibility: CompatibilityView,
) -> Option<DraftFaultView> {
    match draft_in(args) {
        Some(draft) if main => if !exists {
            Some(DraftFaultView::Missing(draft))
        } else {
            match compatibility {
                CompatibilityView::Incompatible(reason) => Some(
                    DraftFaultView::Incompatible(draft, reason),
                ),
                _ => None,
            }
        },
        _ => None,
    }
}

pub fn validate_draft_model(
    main: bool,
    args: &[String],
    exists: bool,
    compatibility: &DraftCompatibility,
) -> (out: Result<(), DraftFault>)
    ensures
        match (out, draft_fault(main, text::views(args@), exists, compatibility@)) {
            (Ok(_), None) => true,
            (Err(e), Some(f)) => e@ == f,
            _ => false,
        },
{
    if !main {
        return Ok(());
    }
    let draft: String = match draft_model(args) {
        Some(draft) => draft,
        None => return Ok(()),
    };
    if !exists {
        return Err(DraftFault::Missing(draft));
    }
    match compatibility {
        DraftCompatibility::Incompatible(reason) => Err(
            DraftFault::Incompatible(draft, reason.clone()),
        ),
        _ => Ok(()),
    }
}

/// The texts under `key` in the objects of a list, as far as they are texts.
pub open spec fn member_texts(items: Seq<Json>, key: Seq<char>, n: nat) -> Seq<Seq<char>>
    decreases n,
{
    if n == 0 {
        seq![]
    } else {
        let earlier = member_texts(items, key, (n - 1) as nat);
        match json::member_in(items[n - 1], key) {
            Some(Json::Text(s)) => earlier.push(s),
            _ => earlier,
        }
    }
}

/// The names in an answer of the scheduler: the texts under `key` in the objects
/// of the list under `list`.
pub open spec fn names_in(payload: Json, list: Seq<char>, key: Seq<char>) -> Seq<Seq<char>> {
    match json::member_in(payload, list) {
        Some(Json::Array(items)) => member_texts(items, key, items.len()),
        _ => seq![],
    }
}

pub fn listed_names(payload: &JsonValue, list: &str, key: &str) -> (out: Vec<String>)
    ensures
        text::views(out@) == names_in(payload@, list@, key@),
{
    let mut out: Vec<String> = Vec::new();
    proof {
        assert(text::views(out@) =~= seq![]);
    }
    match payload.get(list) {
        Some(value) => match value.as_array() {
            Some(items) => {
                let ghost all = json::json_of(*value)->Array_0;
                let mut i: usize = 0;
                while i < items.len()
                    invariant
                        i <= items@.len(),
                        all.len() == items@.len(),
                        forall|j: int| 0 <= j < items@.len() ==> #[trigger] all[j] == json::json_of(items@[j]),
                        text::views(out@) == member_texts(all, key@, i as nat),
                    decreases items@.len() - i,
                {
                    proof {
                        assert(all[i as int] == json::json_of(items@[i as int]));
                    }
                    match items[i].get(key) {
                        Some(member) => match member.as_str() {
                            Some(s) => self::add(&mut out, s),
                            None => {},
                        },
                        None => {},
                    }
                    i += 1;
                }
                out
            },
            None => out,
        },
        None => out,
    }
}

/// What a requested name leads to among the names that the scheduler offers.
pub enum SwapTarget {
    Name(String),
    /// The profile that is bound to the name cannot be read.
    Profile(ProfileError),
    Unmatched,
    Ambiguous(Vec<String>),
}

pub ghost enum SwapTargetView {
    Name(Seq<char>),
    Profile(ProfileErrorView),
    Unmatched,
    Ambiguous(Seq<Seq<char>>),
}

impl View for SwapTarget {
    type V = SwapTargetView;

    open spec fn view(&self) -> SwapTargetView {
        match *self {
            SwapTarget::Name(s) => SwapTargetView::Name(s@),
            SwapTarget::Profile(e) => SwapTargetView::Profile(e@),
            SwapTarget::Unmatched => SwapTargetView::Unmatched,
            SwapTarget::Ambiguous(list) => SwapTargetView::Ambiguous(text::views(list@)),
        }
    }
}

/// The names among the first `n` that hold another, capital letters aside.
pub open spec fn names_holding(names: Seq<Seq<char>>, n: nat, wanted: Seq<char>) -> Seq<Seq<char>>
    decreases n,
{
    if n == 0 {
        seq![]
    } else {
        let earlier = names_holding(names, (n - 1) as nat, wanted);
        if text::holds(pattern::lowercase(names[n - 1]), pattern::lowercase(wanted)) {
            earlier.push(names[n - 1])
        } else {
            earlier
        }
    }
}

/// The name that is meant: the name itself, or the profile that is bound to it, or
/// the only one that holds it.
pub open spec fn swap_target(names: Seq<Seq<char>>, p: ProfilesView, requested: Seq<char>) -> SwapTargetView {
    let hits = names_holding(names, names.len(), requested);
    let by_part = if hits.len() == 0 {
        SwapTargetView::Unmatched
    } else if hits.len() == 1 {
        SwapTargetView::Name(hits[0])
    } else {
        SwapTargetView::Ambiguous(hits)
    };
    if names.contains(requested) {
        SwapTargetView::Name(requested)
    } else {
        match profiles::binding_of(p, requested, requested) {
            Err(e) => SwapTargetView::Profile(e),
            Ok(Some((profile, _))) => if names.contains(profile) {
                SwapTargetView::Name(profile)
            } else {
                by_part
            },
            Ok(None) => by_part,
        }
    }
}

pub fn resolve_swap_entry(names: &Vec<String>, profiles: &Profiles, requested: &str) -> (out: SwapTarget)
    ensures
        out@ == swap_target(text::views(names@), profiles@, requested@),
{
    let ghost all = text::views(names@);
    if profiles::holds_text(names, requested) {
        return SwapTarget::Name(requested.to_owned());
    }
    match profiles.binding(requested, requested) {
        Err(e) => return SwapTarget::Profile(e),
        Ok(Some((profile, _))) => {
            if profiles::holds_text(names, profile.as_str()) {
                return SwapTarget::Name(profile);
            }
        },
        Ok(None) => {},
    }
    let lowered: String = pattern::to_lowercase(requested);
    let mut hits: Vec<String> = Vec::new();
    let mut i: usize = 0;
    proof {
        assert(text::views(hits@) =~= seq![]);
    }
    while i < names.len()
        invariant
            i <= names@.len(),
            all == text::views(names@),
            lowered@ == pattern::lowercase(requested@),
            text::views(hits@) == names_holding(all, i as nat, requested@),
        decreases names@.len() - i,
    {
        proof {
            assert(all[i as int] == names@[i as int]@);
        }
        if text::contains(
            pattern::to_lowercase(names[i].as_str()).as_str(),
            lowered.as_str(),
        ) {
            self::add(&mut hits, names[i].as_str());
        }
        i += 1;
    }
    proof {
        assert(text::views(hits@).len() == hits@.len());
        if hits@.len() == 1 {
            assert(text::views(hits@)[0] == hits@[0]@);
        }
    }
    if hits.len() == 0 {
        SwapTarget::Unmatched
    } else if hits.len() == 1 {
        SwapTarget::Name(hits[0].clone())
    } else {
        SwapTarget::Ambiguous(hits)
    }
}

/// The route that unloads a model, or all.
pub open spec fn unload_route_of(model: Option<Seq<char>>) -> Seq<char> {
    match model {
        Some(name) => "/api/models/unload/"@ + encoded_bytes(encode_utf8(name)),
        None => "/api/models/unload"@,
    }
}

pub fn unload_route(model: Option<&str>) -> (out: String)
    ensures
        out@ == unload_route_of(
            match model {
                Some(s) => Some(s@),
                None => None,
            },
        ),
{
    match model {
        Some(name) => {
            let mut out: String = "/api/models/unload/".to_owned();
            out.append(percent_encode(name).as_str());
            out
        },
        None => "/api/models/unload".to_owned(),
    }
}

/// The process number in a file, where it holds one.
pub open spec fn pid_of(content: Seq<char>) -> Option<nat> {
    text::number_of(text::trim_of(content), u32::MAX as nat)
}

pub fn parse_pid(content: &str) -> (out: Option<u32>)
    ensures
        match (out, pid_of(content@)) {
            (Some(a), Some(b)) => a == b,
            (None, None) => true,
            _ => false,
        },
{
    match text::parse_u64(text::trim(content).as_str()) {
        Some(n) => if n <= u32::MAX as u64 {
            Some(n as u32)
        } else {
            None
        },
        None => None,
    }
}

/// The last place of `piece` among the first `n`, -1 where there is none.
pub open spec fn last_place(s: Seq<char>, piece: Seq<char>, n: nat) -> int
    decreases n,
{
    if n == 0 {
        -1
    } else if text::at_position(s, piece, n - 1) {
        n - 1
    } else {
        last_place(s, piece, (n - 1) as nat)
    }
}

/// The state in a process's status line: the character behind the name, which
/// stands in brackets and may hold brackets itself.
pub open spec fn state_of(stat: Seq<char>) -> Option<char> {
    let at = last_place(stat, ") "@, stat.len());
    if at >= 0 && at + 2 < stat.len() {
        Some(stat[at + 2])
    } else {
        None
    }
}

pub fn process_state(stat: &str) -> (out: Option<char>)
    ensures
        out == state_of(stat@),
{
    let chars: Vec<char> = text::chars_of(stat);
    let piece: Vec<char> = text::chars_of(") ");
    proof {
        reveal_strlit(") ");
    }
    let mut n: usize = chars.len();
    while n > 0
        invariant
            n <= chars@.len(),
            chars@ == stat@,
            piece@ == ") "@,
            piece@.len() == 2,
            last_place(stat@, ") "@, stat@.len()) == last_place(stat@, ") "@, n as nat),
        decreases n,
    {
        if text::occurs_at(chars.as_slice(), piece.as_slice(), n - 1) {
            if n < chars.len() && n + 1 < chars.len() {
                return Some(chars[n + 1]);
            }
            return None;
        }
        n -= 1;
    }
    None
}

/// Whether a process that a status line tells of runs: one that has ended and is
/// only waited for does not.
pub fn is_running(stat: &str) -> (yes: bool)
    ensures
        yes == (state_of(stat@) matches Some(c) && c != 'Z'),
{
    match process_state(stat) {
        Some(c) => c != 'Z',
        None => false,
    }
}

/// The program that runs a server and its first arguments. Where there is a script
/// for the environment, a shell reads it and then becomes the server.
pub open spec fn runtime_program(binary: Seq<char>, env_file: Seq<char>) -> (
    Seq<char>,
    Seq<Seq<char>>,
) {
    if env_file.len() == 0 {
        (binary, seq![])
    } else {
        (
            "bash"@,
            seq![
                "-c"@,
                "source \"$1\" >/dev/null 2>&1; shift; exec \"$@\""@,
                "llamactl"@,
                env_file,
                binary,
            ],
        )
    }
}

pub fn runtime_command(binary: &str, env_file: &str) -> (out: (String, Vec<String>))
    ensures
        (out.0@, text::views(out.1@)) == runtime_program(binary@, env_file@),
{
    let mut args: Vec<String> = Vec::new();
    proof {
        assert(text::views(args@) =~= seq![]);
    }
    if text::chars_of(env_file).len() == 0 {
        return (binary.to_owned(), args);
    }
    self::add(&mut args, "-c");
    self::add(&mut args, "source \"$1\" >/dev/null 2>&1; shift; exec \"$@\"");
    self::add(&mut args, "llamactl");
    self::add(&mut args, env_file);
    self::add(&mut args, binary);
    proof {
        assert(text::views(args@) =~= runtime_program(binary@, env_file@).1);
    }
    ("bash".to_owned(), args)
}

/// The packages of libraries that a runtime's manifest names.
pub open spec fn vendor_packages_of(manifest: Json) -> Seq<Seq<char>> {
    match json::member_in(manifest, "vendor_lib_package_names"@) {
        Some(Json::Array(items)) => profiles::texts_in(items, items.len()),
        _ => seq![],
    }
}

pub fn vendor_packages(manifest: &JsonValue) -> (out: Vec<String>)
    ensures
        text::views(out@) == vendor_packages_of(manifest@),
{
    let none: Vec<String> = Vec::new();
    proof {
        assert(text::views(none@) =~= seq![]);
    }
    match manifest.get("vendor_lib_package_names") {
        Some(JsonValue::Array(items)) => profiles::texts(items),
        _ => none,
    }
}

/// Where a server finds its libraries: beside itself, in the packages that its
/// runtime names, and where the environment says.
pub open spec fn library_path_of(
    runtime: Seq<char>,
    vendors: Seq<Seq<char>>,
    inherited: Seq<char>,
) -> Seq<char> {
    let all = seq![runtime] + vendors;
    text::joined(
        if inherited.len() == 0 {
            all
        } else {
            all.push(inherited)
        },
        ":"@,
    )
}

pub fn library_path(runtime: &str, vendors: &Vec<String>, inherited: &str) -> (out: String)
    ensures
        out@ == library_path_of(runtime@, text::views(vendors@), inherited@),
{
    let mut all: Vec<String> = Vec::new();
    self::add(&mut all, runtime);
    add_all(&mut all, vendors.as_slice());
    if text::chars_of(inherited).len() > 0 {
        self::add(&mut all, inherited);
    }
    proof {
        assert(text::views(Seq::<String>::empty()) =~= seq![]);
        let shown = seq![runtime@] + text::views(vendors@);
        assert(text::views(all@) =~= if inherited@.len() == 0 {
            shown
        } else {
            shown.push(inherited@)
        });
    }
    text::join(all.as_slice(), ":")
}

/// Where the server may lie, in the order in which the places are tried: in the
/// version or the backend that the setting names, and in the current version. With
/// no home directory a backend of another program cannot be looked for, and nothing
/// is.
pub open spec fn server_places(
    runtime: Seq<char>,
    versions: Seq<char>,
    home: Option<Seq<char>>,
    current: Seq<char>,
) -> Seq<Seq<char>> {
    let managed = "managed:"@;
    let other = "lmstudio:"@;
    let last = config::joined_path(current, "llama-server"@);
    if managed.is_prefix_of(runtime) {
        seq![
            config::joined_path(
                config::joined_path(versions, runtime.skip(managed.len() as int)),
                "llama-server"@,
            ),
            last,
        ]
    } else if other.is_prefix_of(runtime) {
        match home {
            None => seq![],
            Some(home) => seq![
                config::joined_path(
                    config::joined_path(
                        config::joined_path(home, ".lmstudio/extensions/backends"@),
                        runtime.skip(other.len() as int),
                    ),
                    "llama-server"@,
                ),
                last,
            ],
        }
    } else {
        seq![last]
    }
}

/// What stands behind a prefix.
pub fn after_prefix(s: &str, prefix: &str) -> (out: Option<String>)
    ensures
        metadata::text_view(out) == if prefix@.is_prefix_of(s@) {
            Some(s@.skip(prefix@.len() as int))
        } else {
            None
        },
{
    if !text::starts_with(s, prefix) {
        return None;
    }
    let chars: Vec<char> = text::chars_of(s);
    let at: usize = text::chars_of(prefix).len();
    proof {
        assert(s@.subrange(at as int, s@.len() as int) =~= s@.skip(at as int));
    }
    Some(text::part_text(chars.as_slice(), at, chars.len()))
}

pub fn server_candidates(
    runtime: &str,
    versions: &str,
    home: Option<&str>,
    current: &str,
) -> (out: Vec<String>)
    ensures
        text::views(out@) == server_places(
            runtime@,
            versions@,
            match home {
                Some(h) => Some(h@),
                None => None,
            },
            current@,
        ),
{
    let mut out: Vec<String> = Vec::new();
    proof {
        assert(text::views(out@) =~= seq![]);
    }
    let last: String = config::join_path(current, "llama-server");
    match after_prefix(runtime, "managed:") {
        Some(name) => {
            let dir: String = config::join_path(versions, name.as_str());
            self::add(&mut out, config::join_path(dir.as_str(), "llama-server").as_str());
        },
        None => match after_prefix(runtime, "lmstudio:") {
            Some(name) => match home {
                None => return out,
                Some(home) => {
                    let all: String = config::join_path(home, ".lmstudio/extensions/backends");
                    let dir: String = config::join_path(all.as_str(), name.as_str());
                    self::add(&mut out, config::join_path(dir.as_str(), "llama-server").as_str());
                },
            },
            None => {},
        },
    }
    self::add(&mut out, last.as_str());
    proof {
        assert(text::views(out@) =~= server_places(
            runtime@,
            versions@,
            match home {
                Some(h) => Some(h@),
                None => None,
            },
            current@,
        ));
    }
    out
}

/// Whether some events hold output of a server.
pub fn complete_event_contains_upstream(events: &str) -> (yes: bool)
    ensures
        yes == text::holds(events@, "\\\"source\\\":\\\"upstream\\\""@),
{
    text::contains(events, "\\\"source\\\":\\\"upstream\\\"")
}

/// What an event of the log carries.
pub open spec fn log_payload_of(event: Json) -> Option<Seq<char>> {
    if json::member_in(event, "type"@) == Some(Json::Text("logData"@)) {
        match json::member_in(event, "data"@) {
            Some(v) => json::text_in(v),
            None => None,
        }
    } else {
        None
    }
}

/// The output of a server in what an event carries.
pub open spec fn upstream_data_of(payload: Json) -> Option<Seq<char>> {
    if json::member_in(payload, "source"@) == Some(Json::Text("upstream"@)) {
        match json::member_in(payload, "data"@) {
            Some(v) => json::text_in(v),
            None => None,
        }
    } else {
        None
    }
}

pub fn log_payload(event: &JsonValue) -> (out: Option<String>)
    ensures
        metadata::text_view(out) == log_payload_of(event@),
{
    if !profiles::is_text(event.get("type"), "logData") {
        return None;
    }
    match event.get("data") {
        Some(v) => match v.as_str() {
            Some(s) => Some(s.to_owned()),
            None => None,
        },
        None => None,
    }
}

pub fn upstream_data(payload: &JsonValue) -> (out: Option<String>)
    ensures
        metadata::text_view(out) == upstream_data_of(payload@),
{
    if !profiles::is_text(payload.get("source"), "upstream") {
        return None;
    }
    match payload.get("data") {
        Some(v) => match v.as_str() {
            Some(s) => Some(s.to_owned()),
            None => None,
        },
        None => None,
    }
}

/// The output that one line of an event stream adds.
pub open spec fn line_output(line: Seq<char>) -> Seq<char> {
    let front = "data:"@;
    if !front.is_prefix_of(line) {
        seq![]
    } else {
        match json::parsed(text::trim_of(line.skip(front.len() as int))) {
            None => seq![],
            Some(event) => match log_payload_of(event) {
                None => seq![],
                Some(s) => match json::parsed(s) {
                    None => seq![],
                    Some(payload) => match upstream_data_of(payload) {
                        None => seq![],
                        Some(data) => data,
                    },
                },
            },
        }
    }
}

/// The output that the first `n` lines of an event stream add up to.
pub open spec fn stream_output(lines: Seq<Seq<char>>, n: nat) -> Seq<char>
    decreases n,
{
    if n == 0 {
        seq![]
    } else {
        stream_output(lines, (n - 1) as nat) + line_output(lines[n - 1])
    }
}

/// The last `max` lines of a text.
pub open spec fn last_lines(s: Seq<char>, max: nat) -> Seq<char> {
    let lines = text::lines_of(s);
    let from = if lines.len() > max {
        (lines.len() - max) as int
    } else {
        0
    };
    text::joined(lines.skip(from), "\n"@)
}

pub fn tail(s: &str, max: usize) -> (out: String)
    ensures
        out@ == last_lines(s@, max as nat),
{
    let lines: Vec<String> = text::lines(s);
    let from: usize = if lines.len() > max {
        lines.len() - max
    } else {
        0
    };
    let kept: &[String] = vstd::slice::slice_subrange(lines.as_slice(), from, lines.len());
    proof {
        assert(text::views(kept@) =~= text::lines_of(s@).skip(from as int));
    }
    text::join(kept, "\n")
}

fn output_of(line: &str) -> (out: String)
    ensures
        out@ == line_output(line@),
{
    let none: String = String::new();
    proof {
        assert(none@ =~= seq![]);
    }
    let content: String = match after_prefix(line, "data:") {
        Some(s) => s,
        None => return none,
    };
    let event: JsonValue = match json::parse(text::trim(content.as_str()).as_str()) {
        Some(v) => v,
        None => return none,
    };
    let carried: String = match log_payload(&event) {
        Some(s) => s,
        None => return none,
    };
    let payload: JsonValue = match json::parse(carried.as_str()) {
        Some(v) => v,
        None => return none,
    };
    match upstream_data(&payload) {
        Some(data) => data,
        None => none,
    }
}

/// The last lines of the servers' output in an event stream.
pub fn upstream_log_from_events(events: &str, max_lines: usize) -> (out: String)
    ensures
        ({
            let lines = text::lines_of(events@);
            out@ == last_lines(stream_output(lines, lines.len()), max_lines as nat)
        }),
{
    let lines: Vec<String> = text::lines(events);
    let ghost all = text::views(lines@);
    let mut upstream: String = String::new();
    let mut i: usize = 0;
    proof {
        assert(upstream@ =~= seq![]);
    }
    while i < lines.len()
        invariant
            i <= lines@.len(),
            all == text::views(lines@),
            upstream@ == stream_output(all, i as nat),
        decreases lines@.len() - i,
    {
        proof {
            assert(all[i as int] == lines@[i as int]@);
        }
        upstream.append(output_of(lines[i].as_str()).as_str());
        i += 1;
    }
    tail(upstream.as_str(), max_lines)
}

/// What is said where a draft does not go with the model at `main`.
pub open spec fn draft_text_of(fault: DraftFaultView, main: Seq<char>) -> Seq<char> {
    match fault {
        DraftFaultView::Missing(path) => "draft model '"@ + path + "' does not exist"@,
        DraftFaultView::Incompatible(path, reason) => "draft model '"@ + path
            + "' is incompatible with '"@ + main + "': "@ + reason,
    }
}

pub fn draft_text(fault: &DraftFault, main: &str) -> (out: String)
    ensures
        out@ == draft_text_of(fault@, main@),
{
    let mut out: String = "draft model '".to_owned();
    match fault {
        DraftFault::Missing(path) => {
            out.append(path.as_str());
            out.append("' does not exist");
        },
        DraftFault::Incompatible(path, reason) => {
            out.append(path.as_str());
            out.append("' is incompatible with '");
            out.append(main);
            out.append("': ");
            out.append(reason.as_str());
        },
    }
    out
}

} // verus!
