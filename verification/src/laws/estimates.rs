//! Laws of estimates: what the arguments and the metadata say of the memory that a model
//! takes.
use vstd::prelude::*;

use crate::laws::texts;
use crate::metadata;
use crate::metadata::GgufView;
use crate::pattern;
use crate::process;
use crate::text;

verus! {

/// Whether one of some flags stands at a place in front of another argument.
pub open spec fn stands_at(args: Seq<Seq<char>>, flags: Seq<Seq<char>>, i: int) -> bool {
    0 <= i && i + 1 < args.len() && exists|k: int| 0 <= k < flags.len() && args[i] == #[trigger] flags[k]
}

/// Whether one of some flags stands at a place in front of another argument, and none of them
/// does later.
pub open spec fn last_at(args: Seq<Seq<char>>, flags: Seq<Seq<char>>, i: int) -> bool {
    stands_at(args, flags, i) && forall|j: int| j > i ==> !#[trigger] stands_at(args, flags, j)
}

/// Whether none of some flags stands in front of another argument.
pub open spec fn not_given(args: Seq<Seq<char>>, flags: Seq<Seq<char>>) -> bool {
    forall|i: int| !#[trigger] stands_at(args, flags, i)
}

pub proof fn lemma_value_after(args: Seq<Seq<char>>, flags: Seq<Seq<char>>, n: nat)
    requires
        n <= args.len(),
    ensures
        match process::value_after(args, flags, n) {
            Some(v) => exists|i: int|
                i + 1 < n && #[trigger] stands_at(args, flags, i) && v == args[i + 1] && forall|j: int|
                    i < j && j + 1 < n ==> !#[trigger] stands_at(args, flags, j),
            None => forall|j: int| j + 1 < n ==> !#[trigger] stands_at(args, flags, j),
        },
    decreases n,
{
    if n >= 2 {
        let i = n - 2;
        if flags.contains(args[i]) {
            let k = choose|k: int| 0 <= k < flags.len() && flags[k] == args[i];
            assert(args[i] == flags[k]);
            assert(stands_at(args, flags, i));
        } else {
            assert(!stands_at(args, flags, i)) by {
                if stands_at(args, flags, i) {
                    let k = choose|k: int| 0 <= k < flags.len() && args[i] == #[trigger] flags[k];
                    assert(flags.contains(args[i]));
                }
            }
            lemma_value_after(args, flags, (n - 1) as nat);
        }
    }
}

/// What counts of several values is the one behind the last flag.
pub proof fn the_last_flag_counts(args: Seq<Seq<char>>, flags: Seq<Seq<char>>)
    ensures
        forall|i: int| #[trigger]
            last_at(args, flags, i) ==> process::value_after(args, flags, args.len()) == Some(
                args[i + 1],
            ),
        not_given(args, flags) ==> process::value_after(args, flags, args.len()) is None,
        process::value_after(args, flags, args.len()) is None ==> not_given(args, flags),
{
    lemma_value_after(args, flags, args.len());
    assert forall|i: int| #[trigger] last_at(args, flags, i) implies process::value_after(
        args,
        flags,
        args.len(),
    ) == Some(args[i + 1]) by {
        assert(stands_at(args, flags, i));
        let v = process::value_after(args, flags, args.len());
        match v {
            Some(w) => {
                let j = choose|j: int|
                    j + 1 < args.len() && #[trigger] stands_at(args, flags, j) && w == args[j + 1]
                        && forall|k: int|
                        j < k && k + 1 < args.len() ==> !#[trigger] stands_at(args, flags, k);
                assert(stands_at(args, flags, j));
                if j < i {
                    assert(!stands_at(args, flags, i));
                }
                if i < j {
                    assert(!stands_at(args, flags, j));
                }
            },
            None => {},
        }
    }
    match process::value_after(args, flags, args.len()) {
        Some(w) => {
            let j = choose|j: int|
                j + 1 < args.len() && #[trigger] stands_at(args, flags, j) && w == args[j + 1]
                    && forall|k: int|
                    j < k && k + 1 < args.len() ==> !#[trigger] stands_at(args, flags, k);
            assert(stands_at(args, flags, j));
        },
        None => {
            assert forall|i: int| !#[trigger] stands_at(args, flags, i) by {}
        },
    }
}

/// Whether a text is no number that can be held.
pub open spec fn no_number(s: Seq<char>) -> bool {
    let digits = if s.len() > 0 && s[0] == '+' {
        s.skip(1)
    } else {
        s
    };
    digits.len() == 0 || !texts::only_digits(digits) || texts::worth(digits) > u64::MAX
}

/// Whether a number is what the arguments give behind some flags: behind the last of them
/// stand the digits of the number, or there is none of them or no number behind the last and
/// the number is what holds without it.
pub open spec fn taken(args: Seq<Seq<char>>, flags: Seq<Seq<char>>, n: u64, otherwise: u64) -> bool {
    &&& forall|i: int, m: u64|
        #![trigger last_at(args, flags, i), text::decimal_of(m as nat)]
        last_at(args, flags, i) && args[i + 1] == text::decimal_of(m as nat) ==> n == m
    &&& forall|i: int| #[trigger]
        last_at(args, flags, i) && no_number(args[i + 1]) ==> n == otherwise
    &&& not_given(args, flags) ==> n == otherwise
}

proof fn lemma_taken(args: Seq<Seq<char>>, flags: Seq<Seq<char>>, otherwise: u64)
    ensures
        taken(
            args,
            flags,
            metadata::number_or(metadata::given(args, flags), otherwise),
            otherwise,
        ),
{
    the_last_flag_counts(args, flags);
    let n = metadata::number_or(metadata::given(args, flags), otherwise);
    assert forall|i: int, m: u64|
        #![trigger last_at(args, flags, i), text::decimal_of(m as nat)]
        last_at(args, flags, i) && args[i + 1] == text::decimal_of(m as nat) implies n == m by {
        texts::decimals_read_back(m);
    }
    assert forall|i: int| #[trigger]
        last_at(args, flags, i) && no_number(args[i + 1]) implies n == otherwise by {
        texts::numbers_are_read_by_their_worth(args[i + 1]);
    }
}

/// The layers on the accelerator are as many as the last of `-ngl`, `--gpu-layers` and
/// `--n-gpu-layers` says, and one more than the model has only where none is given or no
/// number is.
pub proof fn layers_go_where_the_flag_says(meta: Option<GgufView>, args: Seq<Seq<char>>)
    requires
        metadata::layers_in(meta) < u64::MAX,
    ensures
        ({
            let plan = metadata::plan_of(meta, args);
            &&& match meta {
                Some(m) => match m.block_count {
                    Some(n) => plan.layers == n,
                    None => plan.layers == 1,
                },
                None => plan.layers == 1,
            }
            &&& taken(
                args,
                seq!["-ngl"@, "--gpu-layers"@, "--n-gpu-layers"@],
                plan.ngl,
                (plan.layers + 1) as u64,
            )
        }),
{
    lemma_taken(
        args,
        seq!["-ngl"@, "--gpu-layers"@, "--n-gpu-layers"@],
        (metadata::layers_in(meta) + 1) as u64,
    );
}

/// The context is as long as the last of `-c` and `--ctx-size` says, else as the model's own,
/// else 4096.
pub proof fn the_context_is_what_the_flag_says(meta: Option<GgufView>, args: Seq<Seq<char>>)
    ensures
        ({
            let plan = metadata::plan_of(meta, args);
            let flags = seq!["-c"@, "--ctx-size"@];
            match meta {
                Some(m) => match m.context_length {
                    Some(n) => taken(args, flags, plan.ctx, n),
                    None => taken(args, flags, plan.ctx, 4096),
                },
                None => taken(args, flags, plan.ctx, 4096),
            }
        }),
{
    let flags = seq!["-c"@, "--ctx-size"@];
    match meta {
        Some(m) => match m.context_length {
            Some(n) => {
                lemma_taken(args, flags, n);
            },
            None => {
                lemma_taken(args, flags, 4096);
            },
        },
        None => {
            lemma_taken(args, flags, 4096);
        },
    }
}

/// The layers whose experts stay with the processor are all of them where the last of
/// `-ncmoe` and `--n-cpu-moe` says `all` or `max`, in letters of any case; a number counts up
/// to the number of layers, and there are none without a flag or with no number.
pub proof fn experts_stay_where_the_flag_says(meta: Option<GgufView>, args: Seq<Seq<char>>, i: int)
    ensures
        ({
            let plan = metadata::plan_of(meta, args);
            let flags = seq!["-ncmoe"@, "--n-cpu-moe"@];
            &&& plan.ncmoe <= plan.layers
            &&& not_given(args, flags) ==> plan.ncmoe == 0
            &&& last_at(args, flags, i) ==> {
                let v = args[i + 1];
                &&& (text::lower_of(v) == "all"@ || text::lower_of(v) == "max"@ ==> plan.ncmoe
                    == plan.layers)
                &&& (no_number(v) && text::lower_of(v) != "all"@ && text::lower_of(v) != "max"@
                    ==> plan.ncmoe == 0)
                &&& forall|n: u64|
                    v == #[trigger] text::decimal_of(n as nat) ==> plan.ncmoe == if n
                        <= plan.layers {
                        n
                    } else {
                        plan.layers
                    }
            }
        }),
{
    let flags = seq!["-ncmoe"@, "--n-cpu-moe"@];
    the_last_flag_counts(args, flags);
    let plan = metadata::plan_of(meta, args);
    if last_at(args, flags, i) {
        let v = args[i + 1];
        texts::numbers_are_read_by_their_worth(v);
        assert forall|n: u64| v == #[trigger] text::decimal_of(n as nat) implies plan.ncmoe == if n
            <= plan.layers {
            n
        } else {
            plan.layers
        } by {
            texts::decimals_read_back(n);
            texts::decimals_are_worth_their_number(n as nat);
            let low = text::lower_of(v);
            texts::letters_change_their_case(v, 0);
            assert('0' <= v[0] && v[0] <= '9');
            assert(low[0] == v[0]);
            reveal_strlit("all");
            reveal_strlit("max");
            assert(low != "all"@ && low != "max"@);
        }
    }
}

/// A batch is no longer than the context, than the last of `-b` and `--batch-size` and than
/// the last of `-ub` and `--ubatch-size` say, each 512 without a number, and as long as the
/// shortest of the three; it has at least one token.
pub proof fn batches_are_as_short_as_the_flags_say(meta: Option<GgufView>, args: Seq<Seq<char>>)
    ensures
        ({
            let plan = metadata::plan_of(meta, args);
            let long = seq!["-b"@, "--batch-size"@];
            let short = seq!["-ub"@, "--ubatch-size"@];
            exists|b: u64, u: u64| #[trigger]
                taken(args, long, b, 512) && #[trigger] taken(args, short, u, 512) && {
                    &&& plan.batch >= 1
                    &&& plan.batch <= plan.ctx || plan.ctx == 0
                    &&& plan.batch <= b || b == 0
                    &&& plan.batch <= u || u == 0
                    &&& plan.batch == plan.ctx || plan.batch == b || plan.batch == u || (plan.batch
                        == 1 && (plan.ctx == 0 || b == 0 || u == 0))
                }
        }),
{
    let long = seq!["-b"@, "--batch-size"@];
    let short = seq!["-ub"@, "--ubatch-size"@];
    lemma_taken(args, long, 512);
    lemma_taken(args, short, 512);
    let b = metadata::number_or(metadata::given(args, long), 512);
    let u = metadata::number_or(metadata::given(args, short), 512);
    assert(taken(args, long, b, 512) && taken(args, short, u, 512));
}

/// The cache is held once, unless the arguments part it: they hold `--no-kv-unified` and not
/// `--kv-unified`. It is then held as often as the last of `-np` and `--parallel` says.
pub proof fn a_parted_cache_is_held_for_each_slot(meta: Option<GgufView>, args: Seq<Seq<char>>)
    ensures
        ({
            let plan = metadata::plan_of(meta, args);
            let parted = (exists|i: int| 0 <= i < args.len() && #[trigger] args[i] == "--no-kv-unified"@)
                && forall|i: int| 0 <= i < args.len() ==> #[trigger] args[i] != "--kv-unified"@;
            &&& !parted ==> plan.multiplier == 1
            &&& parted ==> taken(args, seq!["-np"@, "--parallel"@], plan.multiplier, 1)
        }),
{
    lemma_taken(args, seq!["-np"@, "--parallel"@], 1);
    if args.contains("--no-kv-unified"@) {
        let i = choose|i: int| 0 <= i < args.len() && args[i] == "--no-kv-unified"@;
        assert(args[i] == "--no-kv-unified"@);
    }
    if args.contains("--kv-unified"@) {
        let i = choose|i: int| 0 <= i < args.len() && args[i] == "--kv-unified"@;
        assert(args[i] == "--kv-unified"@);
    }
}

/// Whether a number of sixteenths of a byte is what a cached number of a type takes: four
/// bytes where it is whole, two where it is half, else the bytes of a block over its numbers.
pub open spec fn takes(kind: Seq<char>, sixteenths: u64) -> bool {
    &&& kind == "f32"@ ==> sixteenths == 4 * 16
    &&& kind == "f16"@ || kind == "bf16"@ ==> sixteenths == 2 * 16
    &&& kind == "q8_0"@ ==> sixteenths * 32 == 34 * 16
    &&& kind == "q5_1"@ ==> sixteenths * 32 == 24 * 16
    &&& kind == "q5_0"@ ==> sixteenths * 32 == 22 * 16
    &&& kind == "q4_1"@ ==> sixteenths * 32 == 20 * 16
    &&& kind == "q4_0"@ ==> sixteenths * 32 == 18 * 16
    &&& kind == "iq4_nl"@ ==> sixteenths * 32 == 18 * 16
}

proof fn lemma_takes(kind: Seq<char>)
    ensures
        takes(kind, metadata::sixteenths_of(Some(kind))),
        takes(kind, 32) || metadata::sixteenths_of(Some(kind)) != 32,
{
    reveal_strlit("f32");
    reveal_strlit("f16");
    reveal_strlit("bf16");
    reveal_strlit("q8_0");
    reveal_strlit("q5_1");
    reveal_strlit("q5_0");
    reveal_strlit("q4_1");
    reveal_strlit("q4_0");
    reveal_strlit("iq4_nl");
    assert("f32"@.len() == 3 && "f16"@.len() == 3 && "bf16"@.len() == 4 && "iq4_nl"@.len() == 6);
    assert("f32"@[1] == '3' && "f16"@[1] == '1');
    assert("bf16"@[0] == 'b');
    assert("q8_0"@[1] == '8' && "q5_1"@[1] == '5' && "q5_0"@[1] == '5' && "q4_1"@[1] == '4'
        && "q4_0"@[1] == '4');
    assert("q8_0"@[0] == 'q' && "q5_1"@[0] == 'q' && "q5_0"@[0] == 'q' && "q4_1"@[0] == 'q'
        && "q4_0"@[0] == 'q');
    assert("q5_1"@[3] == '1' && "q5_0"@[3] == '0' && "q4_1"@[3] == '1' && "q4_0"@[3] == '0');
}

/// The keys are cached in the type that the last of `-ctk` and `--cache-type-k` names and the
/// values in that of the last of `-ctv` and `--cache-type-v`, in half precision without one.
pub proof fn caches_take_what_their_type_does(
    meta: Option<GgufView>,
    args: Seq<Seq<char>>,
    i: int,
    j: int,
)
    ensures
        ({
            let plan = metadata::plan_of(meta, args);
            let keys = seq!["-ctk"@, "--cache-type-k"@];
            let values = seq!["-ctv"@, "--cache-type-v"@];
            &&& last_at(args, keys, i) ==> takes(args[i + 1], plan.key_sixteenths)
            &&& last_at(args, values, j) ==> takes(args[j + 1], plan.value_sixteenths)
            &&& not_given(args, keys) ==> takes("f16"@, plan.key_sixteenths)
            &&& not_given(args, values) ==> takes("f16"@, plan.value_sixteenths)
        }),
{
    let keys = seq!["-ctk"@, "--cache-type-k"@];
    let values = seq!["-ctv"@, "--cache-type-v"@];
    the_last_flag_counts(args, keys);
    the_last_flag_counts(args, values);
    lemma_takes("f16"@);
    lemma_takes(args[i + 1]);
    lemma_takes(args[j + 1]);
    reveal_strlit("f32");
    reveal_strlit("f16");
    assert("f32"@[1] == '3' && "f16"@[1] == '1');
}

/// Flash attention is on, unless the arguments hold `--no-flash-attn` and do not ask for it by
/// a value of the last `--flash-attn` other than `off`.
pub proof fn flash_attention_is_on_unless_refused(
    meta: Option<GgufView>,
    args: Seq<Seq<char>>,
    i: int,
)
    ensures
        ({
            let plan = metadata::plan_of(meta, args);
            let flag = seq!["--flash-attn"@];
            let refused = exists|k: int| 0 <= k < args.len() && #[trigger] args[k] == "--no-flash-attn"@;
            &&& !refused ==> plan.flash
            &&& refused && not_given(args, flag) ==> !plan.flash
            &&& refused && last_at(args, flag, i) ==> plan.flash == (args[i + 1] != "off"@)
        }),
{
    the_last_flag_counts(args, seq!["--flash-attn"@]);
    if args.contains("--no-flash-attn"@) {
        let k = choose|k: int| 0 <= k < args.len() && args[k] == "--no-flash-attn"@;
        assert(args[k] == "--no-flash-attn"@);
    }
}

/// The draft model is the one that the last of `-md`, `--model-draft` and
/// `--spec-draft-model` names, if one of them is given.
pub proof fn the_draft_is_the_last_one_named(meta: Option<GgufView>, args: Seq<Seq<char>>, i: int)
    ensures
        ({
            let plan = metadata::plan_of(meta, args);
            let flags = seq!["-md"@, "--model-draft"@, "--spec-draft-model"@];
            &&& last_at(args, flags, i) ==> plan.draft == Some(args[i + 1])
            &&& not_given(args, flags) ==> plan.draft is None
        }),
{
    the_last_flag_counts(args, seq!["-md"@, "--model-draft"@, "--spec-draft-model"@]);
}

/// Width and heads are the model's own where it states them, else 4096 and 32; no heads count
/// as one.
pub proof fn width_and_heads_are_the_models_own(meta: Option<GgufView>, args: Seq<Seq<char>>)
    ensures
        ({
            let plan = metadata::plan_of(meta, args);
            &&& plan.heads >= 1
            &&& (meta matches Some(m) ==> {
                &&& (m.embedding_length matches Some(n) ==> plan.embedding == n)
                &&& (m.embedding_length is None ==> plan.embedding == 4096)
                &&& (m.attention_heads matches Some(n) ==> n > 0 ==> plan.heads == n)
                &&& (m.attention_heads matches Some(n) ==> n == 0 ==> plan.heads == 1)
                &&& (m.attention_heads is None ==> plan.heads == 32)
            })
            &&& (meta is None ==> plan.embedding == 4096 && plan.heads == 32)
        }),
{
}

/// Each layer has a cache: of the heads, the keys and the values that the model states for it,
/// or for its first layer, else of all heads and an equal part of the width; as long as the
/// context, or as the window where that is shorter and the layer sees no more: where the
/// pattern, over and over, has no nought for it, without a pattern all but every sixth.
pub proof fn caches_are_per_layer(meta: Option<GgufView>, args: Seq<Seq<char>>, i: int)
    requires
        0 <= i < metadata::plan_of(meta, args).layers,
    ensures
        ({
            let plan = metadata::plan_of(meta, args);
            let cache = plan.caches[i];
            let part = plan.embedding as int / plan.heads as int;
            &&& plan.caches.len() == plan.layers
            &&& (meta is None ==> {
                &&& cache.kv_heads == plan.heads
                &&& cache.key == part
                &&& cache.value == part
                &&& cache.context == plan.ctx
            })
            &&& (meta matches Some(m) ==> {
                &&& own_or_first(m.kv_heads, i, cache.kv_heads as int, plan.heads as int)
                &&& own_or_first(m.key_length, i, cache.key as int, part)
                &&& own_or_first(m.value_length, i, cache.value as int, part)
                &&& (m.sliding_window is None ==> cache.context == plan.ctx)
                &&& (m.sliding_window matches Some(w) ==> {
                    let p = m.sliding_pattern;
                    &&& cache.context == plan.ctx || (cache.context == w && w < plan.ctx)
                    &&& forall|k: int, r: int|
                        #![trigger p[k], p.len() * r]
                        0 <= k < p.len() && i == p.len() * r + k && p[k] != 0 ==> cache.context <= w
                    &&& forall|k: int, r: int|
                        #![trigger p[k], p.len() * r]
                        0 <= k < p.len() && i == p.len() * r + k && p[k] == 0 ==> cache.context
                            == plan.ctx
                    &&& p.len() == 0 && i % 6 == 5 ==> cache.context == plan.ctx
                    &&& p.len() == 0 && i % 6 != 5 ==> cache.context <= w
                })
            })
        }),
{
    let plan = metadata::plan_of(meta, args);
    let part = plan.embedding as int / plan.heads as int;
    assert(0 <= part <= plan.embedding) by (nonlinear_arith)
        requires
            part == plan.embedding as int / plan.heads as int,
            plan.heads >= 1,
    ;
    match meta {
        Some(m) => match m.sliding_window {
            Some(w) => {
                let p = m.sliding_pattern;
                let n = p.len() as int;
                assert forall|k: int, r: int|
                    #![trigger p[k], p.len() * r]
                    0 <= k < p.len() && i == p.len() * r + k implies i % n == k by {
                    vstd::arithmetic::div_mod::lemma_fundamental_div_mod_converse(i, n, r, k);
                }
            },
            None => {},
        },
        None => {},
    }
}

/// Whether a number is the entry of a list for a layer: its own, else the first, and without
/// a list the other number.
pub open spec fn own_or_first(list: Seq<u64>, i: int, n: int, otherwise: int) -> bool {
    &&& i < list.len() ==> n == list[i]
    &&& 0 < list.len() <= i ==> n == list[0]
    &&& list.len() == 0 ==> n == otherwise
}

/// Each item between the commas of the last of `-ot` and `--override-tensor` that has an
/// equals sign behind a pattern that can be read states an override, in order, and nothing
/// else does: of what the pattern matches, trimmed, to the processor where the trimmed rest
/// starts with `cpu` in letters of any case.
pub proof fn overrides_are_the_items_of_the_flag(
    meta: Option<GgufView>,
    args: Seq<Seq<char>>,
    i: int,
)
    ensures
        ({
            let plan = metadata::plan_of(meta, args);
            let flags = seq!["-ot"@, "--override-tensor"@];
            &&& not_given(args, flags) ==> plan.overrides.len() == 0
            &&& last_at(args, flags, i) ==> {
                let items = text::split_of(args[i + 1], ',');
                exists|at: Seq<int>|
                    #[trigger] at.len() == plan.overrides.len() && picks(items, at) && forall|k: int|
                        0 <= k < at.len() ==> #[trigger] states(items[at[k]], plan.overrides[k])
            }
        }),
{
    let flags = seq!["-ot"@, "--override-tensor"@];
    the_last_flag_counts(args, flags);
    if last_at(args, flags, i) {
        let items = text::split_of(args[i + 1], ',');
        let at = lemma_overrides(items, items.len());
        assert(at.len() == metadata::plan_of(meta, args).overrides.len());
    }
}

/// Whether an item states an override.
pub open spec fn states(item: Seq<char>, o: (Seq<char>, bool)) -> bool {
    exists|a: Seq<char>, b: Seq<char>|
        #![trigger text::trim_of(a), text::trim_of(b)]
        {
            &&& item == a + seq!['='] + b
            &&& !texts::occurs(a, '=')
            &&& o.0 == text::trim_of(a)
            &&& pattern::captured(text::trim_of(a), seq![]) is Some
            &&& o.1 == "cpu"@.is_prefix_of(text::lower_of(text::trim_of(b)))
        }
}

/// Whether places are those of all items that state an override, in order.
pub open spec fn picks(items: Seq<Seq<char>>, at: Seq<int>) -> bool {
    &&& forall|k: int| 0 <= k < at.len() ==> 0 <= #[trigger] at[k] < items.len()
    &&& forall|k: int, l: int| 0 <= k < l < at.len() ==> #[trigger] at[k] < #[trigger] at[l]
    &&& forall|j: int, o: (Seq<char>, bool)|
        0 <= j < items.len() && #[trigger] states(items[j], o) ==> at.contains(j)
}

proof fn lemma_overrides(items: Seq<Seq<char>>, n: nat) -> (at: Seq<int>)
    requires
        n <= items.len(),
    ensures
        at.len() == metadata::overrides_in(items, n).len(),
        forall|k: int| 0 <= k < at.len() ==> 0 <= #[trigger] at[k] < n,
        forall|k: int, l: int| 0 <= k < l < at.len() ==> #[trigger] at[k] < #[trigger] at[l],
        forall|j: int, o: (Seq<char>, bool)|
            0 <= j < n && #[trigger] states(items[j], o) ==> at.contains(j),
        forall|k: int|
            0 <= k < at.len() ==> #[trigger] states(items[at[k]], metadata::overrides_in(items, n)[k]),
    decreases n,
{
    if n == 0 {
        seq![]
    } else {
        let before = lemma_overrides(items, (n - 1) as nat);
        let earlier = metadata::overrides_in(items, (n - 1) as nat);
        let item = items[n - 1];
        lemma_states(item);
        match metadata::override_of(item) {
            Some(o) => {
                let at = before.push(n - 1);
                let list = metadata::overrides_in(items, n);
                assert forall|j: int, p: (Seq<char>, bool)|
                    0 <= j < n && #[trigger] states(items[j], p) implies at.contains(j) by {
                    if j < n - 1 {
                        assert(before.contains(j));
                        let k = choose|k: int| 0 <= k < before.len() && before[k] == j;
                        assert(at[k] == j);
                    } else {
                        assert(at[at.len() - 1] == j);
                    }
                }
                assert forall|k: int| 0 <= k < at.len() implies #[trigger] states(items[at[k]], list[k]) by {
                    if k < before.len() {
                        assert(at[k] == before[k]);
                        assert(list[k] == earlier[k]);
                        assert(states(items[before[k]], earlier[k]));
                    }
                }
                at
            },
            None => {
                assert forall|j: int, p: (Seq<char>, bool)|
                    0 <= j < n && #[trigger] states(items[j], p) implies before.contains(j) by {
                    if j == n - 1 {
                        assert(states(item, p));
                    }
                }
                before
            },
        }
    }
}

proof fn lemma_states(item: Seq<char>)
    ensures
        match metadata::override_of(item) {
            Some(o) => states(item, o),
            None => forall|o: (Seq<char>, bool)| !#[trigger] states(item, o),
        },
{
    texts::texts_part_at_the_first_separator(item, '=');
    match metadata::override_of(item) {
        Some(o) => {
            let (a, b) = text::split_once_of(item, '=')->0;
            assert(item == a + seq!['='] + b);
            assert(o.0 == text::trim_of(a));
            assert(o.1 == "cpu"@.is_prefix_of(text::lower_of(text::trim_of(b))));
        },
        None => {
            assert forall|o: (Seq<char>, bool)| !#[trigger] states(item, o) by {
                if states(item, o) {
                    let (a, b) = choose|a: Seq<char>, b: Seq<char>|
                        #![trigger text::trim_of(a), text::trim_of(b)]
                        {
                            &&& item == a + seq!['='] + b
                            &&& !texts::occurs(a, '=')
                            &&& o.0 == text::trim_of(a)
                            &&& pattern::captured(text::trim_of(a), seq![]) is Some
                            &&& o.1 == "cpu"@.is_prefix_of(text::lower_of(text::trim_of(b)))
                        };
                    assert(item[a.len() as int] == '=');
                    assert(texts::occurs(item, '='));
                    let (c, d) = text::split_once_of(item, '=')->0;
                    lemma_parts_unique(a, b, c, d, '=');
                }
            }
        },
    }
}

pub proof fn lemma_parts_unique(a: Seq<char>, b: Seq<char>, c: Seq<char>, d: Seq<char>, sep: char)
    requires
        a + seq![sep] + b == c + seq![sep] + d,
        !texts::occurs(a, sep),
        !texts::occurs(c, sep),
    ensures
        a == c,
        b == d,
{
    let s = a + seq![sep] + b;
    if a.len() < c.len() {
        assert(s[a.len() as int] == sep);
        assert(c[a.len() as int] == sep);
        assert(texts::occurs(c, sep));
    } else if c.len() < a.len() {
        assert((c + seq![sep] + d)[c.len() as int] == sep);
        assert(a[c.len() as int] == sep);
        assert(texts::occurs(a, sep));
    }
    assert(a =~= s.take(a.len() as int));
    assert(c =~= s.take(a.len() as int));
    assert(b =~= s.skip(a.len() as int + 1));
    assert(d =~= s.skip(a.len() as int + 1));
}

} // verus!
