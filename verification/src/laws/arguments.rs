//! Laws of profiles: which server arguments a profile stands for.
use vstd::prelude::*;

use crate::json;
use crate::json::Json;
use crate::laws::texts;
use crate::profiles;
use crate::profiles::{Members, ProfileErrorView, ProfilesView};
use crate::table;
use crate::text;

verus! {

/// Whether a text is what a value is written as: a text as it is, a number in its digits.
pub open spec fn written_as(value: Json, s: Seq<char>) -> bool {
    match value {
        Json::Text(t) => s == t,
        Json::Unsigned(n) => s == text::decimal_of(n as nat),
        Json::Negative(n) => {
            &&& n < 0 ==> s.len() > 0 && s[0] == '-' && s.skip(1) == text::decimal_of((-n) as nat)
            &&& n >= 0 ==> s == text::decimal_of(n as nat)
        },
        Json::Float(t) => s == t,
        Json::Bool(true) => s == "true"@,
        Json::Bool(false) => s == "false"@,
        Json::Null => s == "null"@,
        _ => s == json::rendered(value),
    }
}

/// Whether the flag and what an item is written as stand next in their turn.
pub open spec fn said_of_item(
    words: Seq<Seq<char>>,
    flag: Seq<char>,
    items: Seq<Json>,
    k: int,
) -> bool {
    words[2 * k] == "--"@ + flag && written_as(items[k], words[2 * k + 1])
}

/// Whether some arguments say a flag with a value: the flag alone where the value is true,
/// nothing where it is false or nothing, the flag and an argument for each item of a list,
/// and for any other value the flag and the value.
pub open spec fn says(words: Seq<Seq<char>>, flag: Seq<char>, value: Json) -> bool {
    match value {
        Json::Bool(true) => words.len() == 1 && words[0] == "--"@ + flag,
        Json::Bool(false) => words.len() == 0,
        Json::Null => words.len() == 0,
        Json::Array(items) => {
            &&& words.len() == 2 * items.len()
            &&& forall|k: int| 0 <= k < items.len() ==> #[trigger] said_of_item(words, flag, items, k)
        },
        _ => words.len() == 2 && words[0] == "--"@ + flag && written_as(value, words[1]),
    }
}

pub proof fn lemma_displayed(value: Json)
    ensures
        written_as(value, profiles::displayed(value)),
{
    match value {
        Json::Negative(n) => {
            if n < 0 {
                reveal_strlit("-");
                assert(profiles::displayed(value).skip(1) =~= text::decimal_of((-n) as nat));
            }
        },
        _ => {},
    }
}

proof fn lemma_repeated(key: Seq<char>, items: Seq<Json>, n: nat)
    requires
        n <= items.len(),
    ensures
        profiles::repeated_flag(key, items, n).len() == 2 * n,
        forall|k: int|
            0 <= k < n ==> #[trigger] said_of_item(
                profiles::repeated_flag(key, items, n),
                key,
                items,
                k,
            ),
    decreases n,
{
    let words = profiles::repeated_flag(key, items, n);
    if n > 0 {
        let before = profiles::repeated_flag(key, items, (n - 1) as nat);
        lemma_repeated(key, items, (n - 1) as nat);
        lemma_displayed(items[n - 1]);
        assert(words == before.push("--"@ + key).push(profiles::displayed(items[n - 1])));
        assert forall|k: int| 0 <= k < n implies #[trigger] said_of_item(words, key, items, k) by {
            if k < n - 1 {
                assert(said_of_item(before, key, items, k));
                assert(words[2 * k] == before[2 * k]);
                assert(words[2 * k + 1] == before[2 * k + 1]);
            }
        }
    }
}

proof fn lemma_says(key: Seq<char>, value: Json)
    ensures
        says(profiles::flag_args(key, value), key, value),
{
    lemma_displayed(value);
    match value {
        Json::Array(items) => {
            lemma_repeated(key, items, items.len());
        },
        _ => {},
    }
}

/// The name of a flag is its key without the hyphens in front.
pub proof fn flags_are_named_without_hyphens(key: Seq<char>)
    ensures
        ({
            let flag = profiles::bare_flag(key);
            let n = key.len() - flag.len();
            &&& n >= 0
            &&& key.skip(n) == flag
            &&& forall|i: int| 0 <= i < n ==> #[trigger] key[i] == '-'
            &&& flag.len() > 0 ==> flag[0] != '-'
        }),
{
    let hyphen = |c: char| c == '-';
    text::lemma_run(key, hyphen);
    let n = text::run(key, hyphen) as int;
    assert forall|i: int| 0 <= i < n implies #[trigger] key[i] == '-' by {
        assert(hyphen(key[i]));
    }
    if n < key.len() {
        assert(!hyphen(key[n]));
        assert(profiles::bare_flag(key)[0] == key[n]);
    }
}

/// The flags that are set for the server elsewhere.
pub open spec fn set_elsewhere() -> Seq<Seq<char>> {
    seq![
        "m"@,
        "model"@,
        "mmproj"@,
        "model-url"@,
        "hf"@,
        "hf-repo"@,
        "hf-file"@,
        "host"@,
        "port"@,
        "api-key"@,
        "alias"@,
        "help"@,
        "usage"@,
        "version"@,
    ]
}

/// Whether a list of patterns admits a flag: by its name, or by a start of it in front of a
/// star.
pub open spec fn open_to(expose: Seq<Seq<char>>, flag: Seq<char>) -> bool {
    exists|i: int|
        0 <= i < expose.len() && {
            ||| #[trigger] expose[i] == flag
            ||| exists|k: int|
                0 <= k <= flag.len() && expose[i] == #[trigger] flag.take(k) + seq!['*']
        }
}

/// The names that are set elsewhere are refused, and no others; what a pattern admits is the
/// flag that it names, or all that start with what stands in front of its star.
pub proof fn refused_and_admitted_flags(expose: Seq<Seq<char>>, flag: Seq<char>)
    ensures
        profiles::is_reserved(flag) <==> set_elsewhere().contains(flag),
        profiles::exposed(expose, flag) <==> open_to(expose, flag),
{
    let names = set_elsewhere();
    if profiles::is_reserved(flag) {
        assert(names[0] == "m"@ && names[1] == "model"@ && names[2] == "mmproj"@ && names[3]
            == "model-url"@ && names[4] == "hf"@ && names[5] == "hf-repo"@ && names[6]
            == "hf-file"@ && names[7] == "host"@ && names[8] == "port"@ && names[9] == "api-key"@
            && names[10] == "alias"@ && names[11] == "help"@ && names[12] == "usage"@ && names[13]
            == "version"@);
    }
    reveal_strlit("*");
    if profiles::exposed(expose, flag) {
        let i = choose|i: int| 0 <= i < expose.len() && profiles::admits(#[trigger] expose[i], flag);
        let e = expose[i];
        if e == "*"@ {
            assert(e =~= flag.take(0) + seq!['*']);
        } else if e != flag {
            let k = e.len() - 1;
            assert(e.drop_last() =~= flag.take(k));
            assert(e =~= flag.take(k) + seq!['*']);
        }
        assert(open_to(expose, flag));
    }
    if open_to(expose, flag) {
        let i = choose|i: int|
            0 <= i < expose.len() && {
                ||| #[trigger] expose[i] == flag
                ||| exists|k: int|
                    0 <= k <= flag.len() && expose[i] == #[trigger] flag.take(k) + seq!['*']
            };
        let e = expose[i];
        if e != flag {
            let k = choose|k: int|
                0 <= k <= flag.len() && e == #[trigger] flag.take(k) + seq!['*'];
            assert(e.drop_last() =~= flag.take(k));
            assert(e.drop_last().is_prefix_of(flag));
            assert(e.last() == '*');
        }
        assert(profiles::admits(expose[i], flag));
    }
}

/// Whether a key of a profile stands for a flag in its turn: it starts with no underscore and
/// is neither `jinja` nor `no-jinja`.
pub open spec fn in_turn(key: Seq<char>) -> bool {
    !(key.len() > 0 && key[0] == '_') && key != "jinja"@ && key != "no-jinja"@
}

/// Whether some arguments are what one member of a profile stands for.
pub open spec fn stands_for(
    words: Seq<Seq<char>>,
    member: (Seq<char>, Json),
    known: Option<Seq<Seq<char>>>,
) -> bool {
    let flag = profiles::bare_flag(member.0);
    if in_turn(member.0) && (known matches Some(flags) ==> flags.contains(flag)) {
        says(words, flag, member.1)
    } else {
        words.len() == 0
    }
}

/// Whether a member may stand in a profile.
pub open spec fn may_stand(expose: Seq<Seq<char>>, key: Seq<char>) -> bool {
    in_turn(key) ==> !set_elsewhere().contains(profiles::bare_flag(key)) && open_to(
        expose,
        profiles::bare_flag(key),
    )
}

/// What is said of a member that may not stand in a profile.
pub open spec fn refused_for(key: Seq<char>, e: ProfileErrorView) -> bool {
    let flag = profiles::bare_flag(key);
    if set_elsewhere().contains(flag) {
        e == ProfileErrorView::Managed(flag)
    } else {
        e == ProfileErrorView::NotExposed(flag)
    }
}

proof fn lemma_members(
    expose: Seq<Seq<char>>,
    known: Option<Seq<Seq<char>>>,
    list: Members,
    n: nat,
) -> (cuts: Seq<int>)
    requires
        n <= list.len(),
    ensures
        match profiles::member_args(expose, known, list, n) {
            Ok(args) => {
                &&& cuts.len() == n + 1
                &&& cuts[0] == 0
                &&& cuts[n as int] == args.len()
                &&& forall|k: int| 0 <= k < n ==> 0 <= #[trigger] cuts[k] <= cuts[k + 1] <= args.len()
                &&& forall|k: int|
                    0 <= k < n ==> stands_for(
                        args.subrange(cuts[k], cuts[k + 1]),
                        #[trigger] list[k],
                        known,
                    )
                &&& forall|k: int| 0 <= k < n ==> may_stand(expose, (#[trigger] list[k]).0)
            },
            Err(e) => exists|k: int|
                0 <= k < n && !may_stand(expose, (#[trigger] list[k]).0) && refused_for(list[k].0, e)
                    && forall|j: int| 0 <= j < k ==> may_stand(expose, (#[trigger] list[j]).0),
        },
    decreases n,
{
    if n == 0 {
        seq![0]
    } else {
        let before = lemma_members(expose, known, list, (n - 1) as nat);
        let member = list[n - 1];
        let flag = profiles::bare_flag(member.0);
        refused_and_admitted_flags(expose, flag);
        match profiles::member_args(expose, known, list, (n - 1) as nat) {
            Err(e) => seq![],
            Ok(earlier) => {
                match profiles::member_args(expose, known, list, n) {
                    Err(e) => {
                        assert(!may_stand(expose, list[n - 1].0));
                        assert(refused_for(list[n - 1].0, e));
                        seq![]
                    },
                    Ok(args) => {
                        let cuts = before.push(args.len() as int);
                        lemma_says(flag, member.1);
                        let words = args.subrange(cuts[n - 1], cuts[n as int]);
                        assert(args.take(earlier.len() as int) =~= earlier);
                        if in_turn(member.0) && profiles::is_known(known, flag) {
                            assert(words =~= profiles::flag_args(flag, member.1));
                        } else {
                            assert(words =~= seq![]);
                        }
                        assert(stands_for(words, list[n - 1], known));
                        assert forall|k: int| 0 <= k < n implies stands_for(
                            args.subrange(cuts[k], cuts[k + 1]),
                            #[trigger] list[k],
                            known,
                        ) by {
                            if k < n - 1 {
                                assert(before[k] <= before[k + 1] <= earlier.len());
                                assert(args.subrange(cuts[k], cuts[k + 1]) =~= earlier.subrange(
                                    before[k],
                                    before[k + 1],
                                ));
                            }
                        }
                        assert forall|k: int| 0 <= k < n implies 0 <= #[trigger] cuts[k] <= cuts[k
                            + 1] <= args.len() by {
                            if k < n - 1 {
                                assert(cuts[k] == before[k] && cuts[k + 1] == before[k + 1]);
                            }
                        }
                        cuts
                    },
                }
            },
        }
    }
}

/// Whether places are those of all texts among some items, in order.
pub open spec fn text_places(items: Seq<Json>, at: Seq<int>) -> bool {
    &&& forall|k: int| 0 <= k < at.len() ==> 0 <= #[trigger] at[k] < items.len() && items[at[k]] is Text
    &&& forall|k: int, l: int| 0 <= k < l < at.len() ==> #[trigger] at[k] < #[trigger] at[l]
    &&& forall|j: int| 0 <= j < items.len() && #[trigger] items[j] is Text ==> at.contains(j)
}

proof fn lemma_texts(items: Seq<Json>, n: nat) -> (at: Seq<int>)
    requires
        n <= items.len(),
    ensures
        text_places(items.take(n as int), at),
        profiles::texts_in(items, n).len() == at.len(),
        forall|k: int|
            0 <= k < at.len() ==> items[#[trigger] at[k]] == Json::Text(
                profiles::texts_in(items, n)[k],
            ),
    decreases n,
{
    if n == 0 {
        seq![]
    } else {
        let before = lemma_texts(items, (n - 1) as nat);
        let part = items.take(n as int);
        let less = items.take(n - 1);
        let at = match items[n - 1] {
            Json::Text(_) => before.push(n - 1),
            _ => before,
        };
        assert forall|j: int| 0 <= j < part.len() && #[trigger] part[j] is Text implies at.contains(j) by {
            if j < n - 1 {
                assert(less[j] is Text);
                let k = choose|k: int| 0 <= k < before.len() && before[k] == j;
                assert(at[k] == j);
            } else {
                assert(at[at.len() - 1] == j);
            }
        }
        assert forall|k: int| 0 <= k < at.len() implies 0 <= #[trigger] at[k] < part.len()
            && part[at[k]] is Text by {
            if k < before.len() {
                assert(at[k] == before[k]);
                assert(less[before[k]] is Text);
            }
        }
        at
    }
}

/// The texts of a list are picked out in order, and nothing else is.
pub proof fn texts_are_picked_in_order(items: Seq<Json>) -> (at: Seq<int>)
    ensures
        text_places(items, at),
        profiles::texts_in(items, items.len()).len() == at.len(),
        forall|k: int|
            0 <= k < at.len() ==> items[#[trigger] at[k]] == Json::Text(
                profiles::texts_in(items, items.len())[k],
            ),
{
    assert(items.take(items.len() as int) =~= items);
    lemma_texts(items, items.len())
}

/// Whether an extra argument may be handed on: it starts with no two hyphens, or the name
/// behind them, up to an equals sign, is not set elsewhere, is admitted and known.
pub open spec fn may_pass(
    expose: Seq<Seq<char>>,
    known: Option<Seq<Seq<char>>>,
    token: Seq<char>,
) -> bool {
    forall|flag: Seq<char>| #[trigger]
        names_flag(token, flag) ==> !set_elsewhere().contains(flag) && open_to(expose, flag) && (
        known matches Some(flags) ==> flags.contains(flag))
}

/// Whether an extra argument names a flag.
pub open spec fn names_flag(token: Seq<char>, flag: Seq<char>) -> bool {
    &&& token.len() >= 2 + flag.len()
    &&& token[0] == '-'
    &&& token[1] == '-'
    &&& token.subrange(2, 2 + flag.len() as int) == flag
    &&& !texts::occurs(flag, '=')
    &&& token.len() == 2 + flag.len() || token[2 + flag.len() as int] == '='
}

proof fn lemma_token(expose: Seq<Seq<char>>, known: Option<Seq<Seq<char>>>, token: Seq<char>)
    ensures
        profiles::token_error(expose, known, token) is None <==> may_pass(expose, known, token),
        profiles::token_flag(token) matches Some(flag) ==> names_flag(token, flag),
        forall|flag: Seq<char>| #[trigger]
            names_flag(token, flag) ==> profiles::token_flag(token) == Some(flag),
{
    reveal_strlit("--");
    let pre = "--"@;
    if pre.is_prefix_of(token) {
        assert(token[0] == pre[0] && token[1] == pre[1]);
        let rest = token.skip(2);
        text::lemma_run(rest, text::other_than('='));
        let n = text::find_of(rest, '=') as int;
        let flag = rest.take(n);
        assert(token.subrange(2, 2 + n) =~= flag);
        if texts::occurs(flag, '=') {
            let k = choose|k: int| 0 <= k < flag.len() && #[trigger] flag[k] == '=';
            assert(text::other_than('=')(rest[k]));
        }
        if n < rest.len() {
            assert(!text::other_than('=')(rest[n]));
            assert(token[2 + n] == rest[n]);
        }
        assert(names_flag(token, flag));
        refused_and_admitted_flags(expose, flag);
    }
    assert forall|flag: Seq<char>| #[trigger] names_flag(token, flag) implies profiles::token_flag(
        token,
    ) == Some(flag) by {
        assert(pre =~= token.take(2));
        assert(pre.is_prefix_of(token));
        let rest = token.skip(2);
        let m = flag.len() as int;
        assert forall|i: int| 0 <= i < m implies text::other_than('=')(#[trigger] rest[i]) by {
            assert(rest[i] == flag[i]);
            if rest[i] == '=' {
                assert(texts::occurs(flag, '='));
            }
        }
        if m < rest.len() {
            assert(rest[m] == token[2 + m]);
        }
        text::lemma_run_unique(rest, text::other_than('='), m);
        assert(rest.take(m) =~= flag);
    }
}

/// Whether arguments are what the profile says of the flag `key` in front of the others.
pub open spec fn led_by(words: Seq<Seq<char>>, list: Members, key: Seq<char>) -> bool {
    match table::lookup(list, key) {
        Some(value) => says(words, key, value),
        None => words.len() == 0,
    }
}

/// Whether the arguments are those of a profile, cut in this way: first what `jinja` and
/// `no-jinja` say, then what each member says, then the texts of `_extra_args`.
pub open spec fn cut_of(
    args: Seq<Seq<char>>,
    cuts: Seq<int>,
    expose: Seq<Seq<char>>,
    known: Option<Seq<Seq<char>>>,
    list: Members,
) -> bool {
    let n = list.len() as int;
    let extra = args.skip(cuts[n + 2]);
    &&& cuts.len() == n + 3
    &&& cuts[0] == 0
    &&& forall|k: int| 0 <= k < n + 2 ==> 0 <= #[trigger] cuts[k] <= cuts[k + 1] <= args.len()
    &&& led_by(args.subrange(cuts[0], cuts[1]), list, "jinja"@)
    &&& led_by(args.subrange(cuts[1], cuts[2]), list, "no-jinja"@)
    &&& forall|k: int|
        0 <= k < n ==> stands_for(
            args.subrange(cuts[k + 2], cuts[k + 3]),
            #[trigger] list[k],
            known,
        )
    &&& forall|k: int| 0 <= k < n ==> may_stand(expose, (#[trigger] list[k]).0)
    &&& forall|k: int| 0 <= k < extra.len() ==> may_pass(expose, known, #[trigger] extra[k])
    &&& match table::lookup(list, "_extra_args"@) {
        Some(Json::Array(items)) => extra == profiles::texts_in(items, items.len()),
        _ => extra.len() == 0,
    }
}

/// Whether an error names the first member that may not stand in a profile.
pub open spec fn names_member(e: ProfileErrorView, expose: Seq<Seq<char>>, list: Members) -> bool {
    exists|k: int|
        0 <= k < list.len() && !may_stand(expose, (#[trigger] list[k]).0) && refused_for(
            list[k].0,
            e,
        ) && forall|j: int| 0 <= j < k ==> may_stand(expose, (#[trigger] list[j]).0)
}

/// Whether an error names the first extra argument that may not be handed on.
pub open spec fn names_token(
    e: ProfileErrorView,
    expose: Seq<Seq<char>>,
    known: Option<Seq<Seq<char>>>,
    list: Members,
) -> bool {
    match table::lookup(list, "_extra_args"@) {
        Some(Json::Array(items)) => {
            let tokens = profiles::texts_in(items, items.len());
            exists|k: int, flag: Seq<char>|
                0 <= k < tokens.len() && #[trigger] names_flag(tokens[k], flag) && !may_pass(
                    expose,
                    known,
                    tokens[k],
                ) && (forall|j: int| 0 <= j < k ==> may_pass(expose, known, #[trigger] tokens[j]))
                    && e == if set_elsewhere().contains(flag) {
                    ProfileErrorView::Managed(flag)
                } else if !open_to(expose, flag) {
                    ProfileErrorView::NotExposed(flag)
                } else {
                    ProfileErrorView::UnknownFlag(flag)
                }
        },
        _ => false,
    }
}

/// The arguments of a profile are what `jinja` and `no-jinja` say, then what each member says
/// in its turn, then the texts of `_extra_args`, and nothing else. There are none where the
/// profile is not there, where a flag in it is set elsewhere or not admitted, or an extra
/// argument may not be handed on: the first such is named.
pub proof fn arguments_follow_the_profile(
    p: ProfilesView,
    name: Seq<char>,
    known: Option<Seq<Seq<char>>>,
) -> (cuts: Seq<int>)
    ensures
        match table::lookup(p.profiles, name) {
            None => profiles::profile_args(p, name, known) == Err::<Seq<Seq<char>>, ProfileErrorView>(
                ProfileErrorView::Unknown,
            ),
            Some(list) => match profiles::profile_args(p, name, known) {
                Ok(args) => cut_of(args, cuts, p.expose, known, list),
                Err(e) => {
                    ||| names_member(e, p.expose, list)
                    ||| {
                        &&& forall|k: int|
                            0 <= k < list.len() ==> may_stand(p.expose, (#[trigger] list[k]).0)
                        &&& names_token(e, p.expose, known, list)
                    }
                },
            },
        },
{
    match table::lookup(p.profiles, name) {
        None => seq![],
        Some(list) => {
            let own = lemma_members(p.expose, known, list, list.len());
            match profiles::member_args(p.expose, known, list, list.len()) {
                Err(e) => {
                    assert(names_member(e, p.expose, list));
                    seq![]
                },
                Ok(flags) => {
                    lemma_extra(p.expose, known, list);
                    match profiles::extra_args(p.expose, known, list) {
                        Err(e) => seq![],
                        Ok(extra) => lemma_cut(p.expose, known, list, own, flags, extra),
                    }
                },
            }
        },
    }
}

#[verifier::rlimit(50)]
#[verifier::spinoff_prover]
proof fn lemma_cut(
    expose: Seq<Seq<char>>,
    known: Option<Seq<Seq<char>>>,
    list: Members,
    own: Seq<int>,
    flags: Seq<Seq<char>>,
    extra: Seq<Seq<char>>,
) -> (cuts: Seq<int>)
    requires
        own.len() == list.len() + 1,
        own[0] == 0,
        own[list.len() as int] == flags.len(),
        forall|k: int|
            0 <= k < list.len() ==> 0 <= #[trigger] own[k] <= own[k + 1] <= flags.len(),
        forall|k: int|
            0 <= k < list.len() ==> stands_for(
                flags.subrange(own[k], own[k + 1]),
                #[trigger] list[k],
                known,
            ),
        forall|k: int| 0 <= k < list.len() ==> may_stand(expose, (#[trigger] list[k]).0),
        forall|k: int| 0 <= k < extra.len() ==> may_pass(expose, known, #[trigger] extra[k]),
        match table::lookup(list, "_extra_args"@) {
            Some(Json::Array(items)) => extra == profiles::texts_in(items, items.len()),
            _ => extra.len() == 0,
        },
    ensures
        cut_of(
            profiles::leading_args(list, "jinja"@) + profiles::leading_args(list, "no-jinja"@)
                + flags + extra,
            cuts,
            expose,
            known,
            list,
        ),
{
    let one = profiles::leading_args(list, "jinja"@);
    let two = profiles::leading_args(list, "no-jinja"@);
    lemma_led(list, "jinja"@);
    lemma_led(list, "no-jinja"@);
    let args = one + two + flags + extra;
    let off = (one.len() + two.len()) as int;
    let n = list.len() as int;
    let cuts = Seq::new(
        (n + 3) as nat,
        |i: int|
            if i == 0 {
                0
            } else if i == 1 {
                one.len() as int
            } else {
                off + own[i - 2]
            },
    );
    assert(args.subrange(cuts[0], cuts[1]) =~= one);
    assert(args.subrange(cuts[1], cuts[2]) =~= two);
    assert forall|k: int| 0 <= k < n + 2 implies 0 <= #[trigger] cuts[k] <= cuts[k + 1]
        <= args.len() by {
        if k >= 2 {
            assert(0 <= own[k - 2] <= own[k - 2 + 1] <= flags.len());
        }
    }
    assert forall|k: int| 0 <= k < n implies stands_for(
        args.subrange(cuts[k + 2], cuts[k + 3]),
        #[trigger] list[k],
        known,
    ) by {
        assert(0 <= own[k] <= own[k + 1] <= flags.len());
        assert(cuts[k + 2] == off + own[k] && cuts[k + 3] == off + own[k + 1]);
        assert(args.subrange(cuts[k + 2], cuts[k + 3]) =~= flags.subrange(own[k], own[k + 1]));
    }
    assert(args.skip(cuts[n + 2]) =~= extra);
    cuts
}

proof fn lemma_led(list: Members, key: Seq<char>)
    ensures
        led_by(profiles::leading_args(list, key), list, key),
{
    match table::lookup(list, key) {
        Some(v) => {
            lemma_says(key, v);
        },
        None => {},
    }
}

proof fn lemma_extra(expose: Seq<Seq<char>>, known: Option<Seq<Seq<char>>>, list: Members)
    ensures
        match profiles::extra_args(expose, known, list) {
            Ok(extra) => {
                &&& forall|k: int| 0 <= k < extra.len() ==> may_pass(expose, known, #[trigger] extra[k])
                &&& match table::lookup(list, "_extra_args"@) {
                    Some(Json::Array(items)) => extra == profiles::texts_in(items, items.len()),
                    _ => extra.len() == 0,
                }
            },
            Err(e) => names_token(e, expose, known, list),
        },
{
    match table::lookup(list, "_extra_args"@) {
        Some(Json::Array(items)) => {
            let tokens = profiles::texts_in(items, items.len());
            let fine = profiles::fine_token(expose, known);
            text::lemma_run(tokens, fine);
            let at = text::run(tokens, fine) as int;
            assert forall|j: int| 0 <= j < at implies may_pass(expose, known, #[trigger] tokens[j]) by {
                assert(fine(tokens[j]));
                lemma_token(expose, known, tokens[j]);
            }
            if at < tokens.len() {
                assert(!fine(tokens[at]));
                lemma_token(expose, known, tokens[at]);
                let flag = profiles::token_flag(tokens[at])->0;
                refused_and_admitted_flags(expose, flag);
                assert(names_flag(tokens[at], flag));
            }
        },
        _ => {},
    }
}

/// A flag in its turn whose value is a number or a text stands in the arguments with two
/// hyphens in front, and the value directly behind it.
pub proof fn numbers_and_texts_stand_behind_their_flag(
    p: ProfilesView,
    name: Seq<char>,
    known: Option<Seq<Seq<char>>>,
    k: int,
)
    requires
        table::lookup(p.profiles, name) is Some,
        0 <= k < table::lookup(p.profiles, name)->0.len(),
        profiles::profile_args(p, name, known) is Ok,
        in_turn(table::lookup(p.profiles, name)->0[k].0),
        known matches Some(flags) ==> flags.contains(
            profiles::bare_flag(table::lookup(p.profiles, name)->0[k].0),
        ),
    ensures
        ({
            let args = profiles::profile_args(p, name, known)->Ok_0;
            let flag = profiles::bare_flag(table::lookup(p.profiles, name)->0[k].0);
            match table::lookup(p.profiles, name)->0[k].1 {
                Json::Text(s) => exists|i: int|
                    0 <= i && i + 1 < args.len() && #[trigger] args[i] == "--"@ + flag && args[i + 1]
                        == s,
                Json::Float(s) => exists|i: int|
                    0 <= i && i + 1 < args.len() && #[trigger] args[i] == "--"@ + flag && args[i + 1]
                        == s,
                Json::Unsigned(n) => exists|i: int|
                    0 <= i && i + 1 < args.len() && #[trigger] args[i] == "--"@ + flag && args[i + 1]
                        == text::decimal_of(n as nat),
                Json::Negative(n) => n < 0 ==> exists|i: int|
                    0 <= i && i + 1 < args.len() && #[trigger] args[i] == "--"@ + flag && args[i + 1]
                        == seq!['-'] + text::decimal_of((-n) as nat),
                Json::Bool(true) => exists|i: int|
                    0 <= i < args.len() && #[trigger] args[i] == "--"@ + flag,
                _ => true,
            }
        }),
{
    let list = table::lookup(p.profiles, name)->0;
    let args = profiles::profile_args(p, name, known)->Ok_0;
    let flag = profiles::bare_flag(list[k].0);
    let cuts = arguments_follow_the_profile(p, name, known);
    let words = args.subrange(cuts[k + 2], cuts[k + 3]);
    assert(stands_for(words, list[k], known));
    assert(0 <= cuts[k + 2] <= cuts[k + 2 + 1] <= args.len());
    let i = cuts[k + 2];
    if words.len() >= 1 {
        assert(args[i] == words[0]);
    }
    if words.len() == 2 {
        assert(args[i + 1] == words[1]);
    }
    match list[k].1 {
        Json::Negative(n) => {
            if n < 0 {
                assert(words[1] =~= seq!['-'] + words[1].skip(1));
            }
        },
        _ => {},
    }
}

} // verus!
