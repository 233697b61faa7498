//! Laws of tensors: how large they are and where they go.
use vstd::prelude::*;
use vstd::utf8::*;

use crate::gguf;
use crate::laws::files;
use crate::laws::texts;
use crate::metadata;
use crate::metadata::{Fault, TensorInfoView, Vote};
use crate::text;

verus! {

/// A tensor that is written for a layer stands in it: `blk.`, the number of the layer, a dot.
pub proof fn tensors_name_their_layer(n: u64, rest: Seq<char>)
    requires
        n <= usize::MAX,
    ensures
        metadata::layer_of("blk."@ + text::decimal_of(n as nat) + seq!['.'] + rest) == Some(n as usize),
{
    let digits = text::decimal_of(n as nat);
    let name = "blk."@ + digits + seq!['.'] + rest;
    texts::decimals_are_worth_their_number(n as nat);
    texts::decimals_read_back(n);
    assert("blk."@ =~= name.take("blk."@.len() as int));
    assert("blk."@.is_prefix_of(name));
    let tail = name.skip("blk."@.len() as int);
    assert(tail =~= digits + seq!['.'] + rest);
    let k = digits.len() as int;
    assert forall|i: int| 0 <= i < k implies metadata::digits()(#[trigger] tail[i]) by {
        assert(tail[i] == digits[i]);
    }
    assert(tail[k] == '.');
    text::lemma_run_unique(tail, metadata::digits(), k);
    assert(tail.take(k) =~= digits);
}

/// A tensor whose name does not start with `blk.` and a digit belongs to no layer.
pub proof fn other_tensors_have_no_layer(name: Seq<char>)
    requires
        !("blk."@.is_prefix_of(name) && name.len() > 4 && '0' <= name[4] && name[4] <= '9'),
    ensures
        metadata::layer_of(name) is None,
{
    reveal_strlit("blk.");
    if "blk."@.is_prefix_of(name) {
        let rest = name.skip(4);
        let digits = metadata::digits();
        text::lemma_run(rest, digits);
        if text::run(rest, digits) > 0 {
            assert(digits(rest[0]));
            assert(rest[0] == name[4]);
        }
        assert(text::run(rest, digits) == 0);
        assert(rest.take(0) =~= seq![]);
    }
}

/// So many elements take as many bytes as their whole blocks do; those of a type that is not
/// known, or more than can be counted, none.
pub proof fn elements_take_whole_blocks(elements: u64, t: u32)
    ensures
        ({
            let size = metadata::size_of_elements(elements, t);
            match metadata::type_size_of(t) {
                Some((block, bytes)) => {
                    &&& block > 0
                    &&& elements * bytes <= u64::MAX ==> size * block <= elements * bytes < (size + 1)
                        * block
                    &&& elements * bytes > u64::MAX ==> size == 0
                },
                None => size == 0,
            }
        }),
{
    match metadata::type_size_of(t) {
        Some((block, bytes)) => {
            if elements * bytes <= u64::MAX {
                let x = elements * bytes;
                let b = block as int;
                let q = x / b;
                assert(b > 0);
                assert(0 <= x) by (nonlinear_arith)
                    requires
                        x == elements * bytes,
                        elements >= 0,
                        bytes >= 0,
                ;
                vstd::arithmetic::div_mod::lemma_fundamental_div_mod(x, b);
                assert(q * b == b * q) by (nonlinear_arith);
                assert((q + 1) * b == q * b + b) by (nonlinear_arith);
                assert(0 <= q <= x) by (nonlinear_arith)
                    requires
                        0 <= x,
                        b > 0,
                        q == x / b,
                ;
            }
        },
        None => {},
    }
}

/// Whether an override is the last that matches a name.
pub open spec fn last_match(overrides: Seq<(Seq<char>, bool)>, name: Seq<char>, i: int) -> bool {
    &&& 0 <= i < overrides.len()
    &&& metadata::matched(overrides[i].0, name)
    &&& forall|j: int| i < j < overrides.len() ==> !metadata::matched((#[trigger] overrides[j]).0, name)
}

/// A tensor goes where the last override that matches its name sends it. Without one it goes to
/// the accelerator where its layer is below the boundary, or it has none and every layer goes
/// there; experts of the first layers that keep theirs stay.
pub proof fn tensors_go_where_they_are_sent(
    t: TensorInfoView,
    layers: nat,
    boundary: nat,
    moe: nat,
    overrides: Seq<(Seq<char>, bool)>,
)
    ensures
        ({
            let gpu = metadata::goes_to_gpu(t, layers, boundary, moe, overrides);
            let expert = exists|i: int| #[trigger] text::at_position(t.0, "_exps"@, i);
            &&& forall|i: int| #[trigger] last_match(overrides, t.0, i) ==> gpu == !overrides[i].1
            &&& (forall|i: int|
                0 <= i < overrides.len() ==> !metadata::matched((#[trigger] overrides[i]).0, t.0))
                ==> match t.1 {
                Some(l) => gpu == (l < boundary && !(expert && l < moe)),
                None => gpu == (boundary > layers),
            }
        }),
{
    let by_layer = match t.1 {
        Some(l) => l < boundary,
        None => boundary > layers,
    };
    let stays = metadata::is_expert(t.0) && (t.1 matches Some(l) && l < moe);
    lemma_overridden(overrides, overrides.len(), t.0, by_layer && !stays);
}

proof fn lemma_overridden(overrides: Seq<(Seq<char>, bool)>, n: nat, name: Seq<char>, gpu: bool)
    requires
        n <= overrides.len(),
    ensures
        forall|i: int|
            0 <= i < n && metadata::matched((#[trigger] overrides[i]).0, name) && (forall|j: int|
                i < j < n ==> !metadata::matched((#[trigger] overrides[j]).0, name))
                ==> metadata::overridden(overrides, n, name, gpu) == !overrides[i].1,
        (forall|i: int| 0 <= i < n ==> !metadata::matched((#[trigger] overrides[i]).0, name))
            ==> metadata::overridden(overrides, n, name, gpu) == gpu,
    decreases n,
{
    if n > 0 {
        lemma_overridden(overrides, (n - 1) as nat, name, gpu);
        assert forall|i: int|
            0 <= i < n && metadata::matched((#[trigger] overrides[i]).0, name) && (forall|j: int|
                i < j < n ==> !metadata::matched((#[trigger] overrides[j]).0, name)) implies metadata::overridden(
            overrides,
            n,
            name,
            gpu,
        ) == !overrides[i].1 by {
            if i < n - 1 {
                assert(!metadata::matched(overrides[n - 1].0, name));
            }
        }
    }
}

/// What a tensor is known by when it is placed: its layer and size, where it goes, and whether
/// its name is that of experts or of attention.
pub proof fn votes_are_those_of_the_tensors(
    tensors: Seq<TensorInfoView>,
    layers: nat,
    boundary: nat,
    moe: nat,
    overrides: Seq<(Seq<char>, bool)>,
    i: int,
)
    requires
        0 <= i < tensors.len(),
    ensures
        ({
            let votes = metadata::votes_of(tensors, layers, boundary, moe, overrides);
            let t = tensors[i];
            &&& votes.len() == tensors.len()
            &&& votes[i].layer == t.1
            &&& votes[i].size == t.2
            &&& votes[i].gpu == metadata::goes_to_gpu(t, layers, boundary, moe, overrides)
            &&& votes[i].expert <==> exists|k: int| #[trigger] text::at_position(t.0, "_exps"@, k)
            &&& votes[i].attention <==> {
                ||| exists|k: int| #[trigger] text::at_position(t.0, "attn_"@, k)
                ||| exists|k: int| #[trigger] text::at_position(t.0, ".attention"@, k)
                ||| exists|k: int| #[trigger] text::at_position(t.0, "_attention"@, k)
            }
        }),
{
}

/// The sizes of those tensors that are meant, and nought for the others.
pub open spec fn sizes_where(votes: Seq<Vote>, n: nat, meant: spec_fn(Vote) -> bool) -> Seq<int> {
    Seq::new(
        n,
        |i: int|
            if meant(votes[i]) {
                votes[i].size as int
            } else {
                0
            },
    )
}

proof fn lemma_tally(
    votes: Seq<Vote>,
    n: nat,
    layer: Option<usize>,
    attention: bool,
    gpu: bool,
    meant: spec_fn(Vote) -> bool,
)
    requires
        n <= votes.len(),
        forall|v: Vote| #[trigger] meant(v) <==> metadata::counts(v, layer, attention, gpu),
    ensures
        metadata::tally_of(votes, n, layer, attention, gpu) == texts::sum(
            sizes_where(votes, n, meant),
        ),
    decreases n,
{
    let list = sizes_where(votes, n, meant);
    if n > 0 {
        lemma_tally(votes, (n - 1) as nat, layer, attention, gpu, meant);
        let less = sizes_where(votes, (n - 1) as nat, meant);
        let v = votes[n - 1];
        let last = if meant(v) {
            v.size as int
        } else {
            0
        };
        texts::lemma_sum_push(less, last);
        assert(list =~= less.push(last));
    }
}

/// What lies on the accelerator are the sizes of the tensors that go there, and all of them is
/// the sum of all.
pub proof fn placements_add_up(votes: Seq<Vote>)
    ensures
        metadata::total_of(votes) == texts::sum(
            sizes_where(votes, votes.len(), |v: Vote| true),
        ),
        metadata::tally_of(votes, votes.len(), None, false, true) == texts::sum(
            sizes_where(votes, votes.len(), |v: Vote| v.gpu),
        ),
{
    lemma_tally(votes, votes.len(), None, false, false, |v: Vote| true);
    lemma_tally(votes, votes.len(), None, false, true, |v: Vote| v.gpu);
}

/// The cache of a layer lies on the accelerator where at least half of the layer's attention
/// does; where it has none, at least half of what it has other than experts; where it has
/// nothing, where it is below the boundary.
pub proof fn caches_follow_the_attention(votes: Seq<Vote>, i: usize, boundary: nat)
    ensures
        ({
            let n = votes.len();
            let own = |v: Vote| v.layer == Some(i) && !v.expert;
            let attention = texts::sum(
                sizes_where(votes, n, |v: Vote| v.layer == Some(i) && !v.expert && v.attention),
            );
            let there = texts::sum(
                sizes_where(
                    votes,
                    n,
                    |v: Vote| v.layer == Some(i) && !v.expert && v.attention && v.gpu,
                ),
            );
            let all = texts::sum(sizes_where(votes, n, own));
            let part = texts::sum(
                sizes_where(votes, n, |v: Vote| v.layer == Some(i) && !v.expert && v.gpu),
            );
            metadata::layer_on_gpu(votes, i, boundary) <==> if attention > 0 {
                2 * there >= attention
            } else if all > 0 {
                2 * part >= all
            } else {
                i < boundary
            }
        }),
{
    let n = votes.len();
    lemma_tally(
        votes,
        n,
        Some(i),
        true,
        false,
        |v: Vote| v.layer == Some(i) && !v.expert && v.attention,
    );
    lemma_tally(
        votes,
        n,
        Some(i),
        true,
        true,
        |v: Vote| v.layer == Some(i) && !v.expert && v.attention && v.gpu,
    );
    lemma_tally(votes, n, Some(i), false, false, |v: Vote| v.layer == Some(i) && !v.expert);
    lemma_tally(
        votes,
        n,
        Some(i),
        false,
        true,
        |v: Vote| v.layer == Some(i) && !v.expert && v.gpu,
    );
}

/// The product of some numbers.
pub open spec fn product(list: Seq<u64>) -> int
    decreases list.len(),
{
    if list.len() == 0 {
        1
    } else {
        product(list.drop_last()) * list.last()
    }
}

/// Whether the products of the first numbers can all be held.
pub open spec fn holdable(list: Seq<u64>) -> bool {
    forall|n: int| 0 <= n <= list.len() ==> product(#[trigger] list.take(n)) <= u64::MAX
}

/// A tensor as it is written: its name behind its length, the number of its dimensions and
/// each of them, its type, and where its data lies.
pub open spec fn tensor_bytes(name: Seq<char>, dims: Seq<u64>, t: u32, offset: u64) -> Seq<u8> {
    gguf::le_bytes(encode_utf8(name).len(), 8) + encode_utf8(name) + gguf::le_bytes(dims.len(), 4)
        + files::list_bytes(dims, 8) + gguf::le_bytes(t as nat, 4) + gguf::le_bytes(
        offset as nat,
        8,
    )
}

proof fn lemma_product_nonnegative(list: Seq<u64>)
    ensures
        product(list) >= 0,
    decreases list.len(),
{
    if list.len() > 0 {
        lemma_product_nonnegative(list.drop_last());
        let a = product(list.drop_last());
        let b = list.last() as int;
        assert(a * b >= 0) by (nonlinear_arith)
            requires
                a >= 0,
                b >= 0,
        ;
    }
}

proof fn lemma_elements(data: Seq<u8>, pos: int, dims: Seq<u64>)
    requires
        files::lies(data, pos, files::list_bytes(dims, 8)),
        holdable(dims),
    ensures
        files::list_bytes(dims, 8).len() == 8 * dims.len(),
        metadata::elements_at(data, pos, dims.len()) == Ok::<u64, Fault>(product(dims) as u64),
        0 <= product(dims) <= u64::MAX,
    decreases dims.len(),
{
    lemma_product_nonnegative(dims);
    assert(dims.take(dims.len() as int) =~= dims);
    if dims.len() > 0 {
        let less = dims.drop_last();
        let last = dims.last();
        files::lemma_powers();
        files::lemma_le(last as nat, 8);
        files::lemma_lies(data, pos, files::list_bytes(less, 8), gguf::le_bytes(last as nat, 8));
        assert forall|n: int| 0 <= n <= less.len() implies product(#[trigger] less.take(n)) <= u64::MAX by {
            assert(less.take(n) =~= dims.take(n));
        }
        lemma_elements(data, pos, less);
        files::lemma_uint(data, pos + 8 * (dims.len() - 1), last as nat, 8);
        lemma_product_nonnegative(less);
    }
}

/// A tensor that was written is read back with its name, the layer that the name gives and the
/// bytes that the product of its dimensions takes in its type.
pub proof fn written_tensors_are_read_back(
    data: Seq<u8>,
    pos: int,
    name: Seq<char>,
    dims: Seq<u64>,
    t: u32,
    offset: u64,
)
    requires
        files::lies(data, pos, tensor_bytes(name, dims, t, offset)),
        encode_utf8(name).len() <= u64::MAX,
        dims.len() <= u32::MAX,
        holdable(dims),
    ensures
        metadata::tensor_info_at(data, pos) == Ok::<(TensorInfoView, int), Fault>(
            (
                (
                    name,
                    metadata::layer_of(name),
                    metadata::size_of_elements(product(dims) as u64, t),
                ),
                pos + tensor_bytes(name, dims, t, offset).len(),
            ),
        ),
{
    let one = gguf::le_bytes(encode_utf8(name).len(), 8) + encode_utf8(name);
    let two = gguf::le_bytes(dims.len(), 4);
    let three = files::list_bytes(dims, 8);
    let four = gguf::le_bytes(t as nat, 4);
    let five = gguf::le_bytes(offset as nat, 8);
    files::lemma_powers();
    files::lemma_le(encode_utf8(name).len(), 8);
    files::lemma_le(dims.len(), 4);
    files::lemma_le(t as nat, 4);
    files::lemma_le(offset as nat, 8);
    files::lemma_lies(data, pos, one + two + three + four, five);
    files::lemma_lies(data, pos, one + two + three, four);
    files::lemma_lies(data, pos, one + two, three);
    files::lemma_lies(data, pos, one, two);
    files::lemma_string(data, pos, name);
    let at = pos + one.len();
    files::lemma_uint(data, at, dims.len(), 4);
    lemma_elements(data, at + 4, dims);
    let then = at + 4 + 8 * dims.len();
    files::lemma_uint(data, then, t as nat, 4);
    files::lemma_uint(data, then + 4, offset as nat, 8);
}

} // verus!
