//! Laws of grafts: which tensors of the donor are taken, and when a graft is refused.
use vstd::prelude::*;

use crate::gguf;
use crate::gguf::{GraftError, Header, MetaView};
use crate::text;

verus! {

/// Whether entry `i` is the first one with a key.
pub open spec fn first_with(meta: Seq<MetaView>, key: Seq<char>, i: int) -> bool {
    0 <= i < meta.len() && meta[i].key == key && forall|j: int|
        0 <= j < i ==> (#[trigger] meta[j]).key != key
}

/// The first entry with a key counts, and there is none only where no entry has the key.
pub proof fn the_first_entry_of_a_header_counts(meta: Seq<MetaView>, key: Seq<char>)
    ensures
        forall|i: int| #[trigger] first_with(meta, key, i) ==> gguf::meta_of(meta, key) == Some(meta[i]),
        gguf::meta_of(meta, key) is None <==> forall|i: int|
            0 <= i < meta.len() ==> (#[trigger] meta[i]).key != key,
{
    let other = gguf::other_key(key);
    text::lemma_run(meta, other);
    let at = text::run(meta, other) as int;
    assert forall|i: int| #[trigger] first_with(meta, key, i) implies gguf::meta_of(meta, key) == Some(
        meta[i],
    ) by {
        if i < at {
            assert(other(meta[i]));
        }
        if at < i {
            assert(!other(meta[at]));
        }
    }
    if at < meta.len() {
        assert(!other(meta[at]));
        assert(meta[at].key == key);
    } else {
        assert forall|i: int| 0 <= i < meta.len() implies (#[trigger] meta[i]).key != key by {
            assert(other(meta[i]));
        }
    }
}

/// Whether tensor `i` is one of a block: its name is `blk.`, the block's number, a dot and more.
pub open spec fn of_block(h: Header, block: u64, i: int) -> bool {
    0 <= i < h.tensors@.len() && exists|rest: Seq<char>|
        h.tensors@[i].name@ == #[trigger] ("blk."@ + text::decimal_of(block as nat) + "."@ + rest)
}

/// Whether a name holds `.nextn.`.
pub open spec fn predicts(name: Seq<char>) -> bool {
    exists|a: Seq<char>, b: Seq<char>| name == #[trigger] (a + ".nextn."@ + b)
}

/// Whether a header has a tensor with this name.
pub open spec fn names(h: Header, name: Seq<char>) -> bool {
    exists|i: int| 0 <= i < h.tensors@.len() && (#[trigger] h.tensors@[i]).name@ == name
}

/// Whether tensor `i` is the last one with its name.
pub open spec fn last_one(h: Header, i: int, name: Seq<char>) -> bool {
    0 <= i < h.tensors@.len() && h.tensors@[i].name@ == name && forall|j: int|
        i < j < h.tensors@.len() ==> (#[trigger] h.tensors@[j]).name@ != name
}

/// Whether the data of tensor `i` is `size` bytes from `start` on: up to that of the next
/// tensor, or up to the end of the file.
pub open spec fn data_of(h: Header, i: int, start: int, size: int) -> bool {
    &&& start == h.data_start + h.tensors@[i].offset
    &&& i + 1 < h.tensors@.len() ==> start + size == h.data_start + h.tensors@[i + 1].offset
    &&& i + 1 == h.tensors@.len() ==> start + size == h.file_size
}

proof fn lemma_of_block(h: Header, block: u64, i: int)
    requires
        0 <= i < h.tensors@.len(),
    ensures
        of_block(h, block, i) <==> gguf::block_prefix(block).is_prefix_of(h.tensors@[i].name@),
{
    let p = gguf::block_prefix(block);
    let name = h.tensors@[i].name@;
    if p.is_prefix_of(name) {
        let rest = name.skip(p.len() as int);
        assert(name =~= "blk."@ + text::decimal_of(block as nat) + "."@ + rest);
    }
    if of_block(h, block, i) {
        let rest = choose|rest: Seq<char>|
            name == #[trigger] ("blk."@ + text::decimal_of(block as nat) + "."@ + rest);
        assert(name.take(p.len() as int) =~= p);
    }
}

proof fn lemma_predicts(name: Seq<char>)
    ensures
        predicts(name) <==> text::holds(name, ".nextn."@),
{
    let piece = ".nextn."@;
    if predicts(name) {
        let (a, b) = choose|a: Seq<char>, b: Seq<char>| name == #[trigger] (a + piece + b);
        assert(name.subrange(a.len() as int, (a.len() + piece.len()) as int) =~= piece);
        assert(text::at_position(name, piece, a.len() as int));
    }
    if text::holds(name, piece) {
        let at = choose|at: int| text::at_position(name, piece, at);
        let a = name.take(at);
        let b = name.skip(at + piece.len());
        assert forall|k: int| at <= k < at + piece.len() implies name[k] == piece[k - at] by {
            assert(name.subrange(at, at + piece.len())[k - at] == name[k]);
        }
        assert(name =~= a + piece + b);
    }
}

proof fn lemma_last(names: Seq<Seq<char>>, name: Seq<char>, n: nat, i: int)
    requires
        0 <= i < n <= names.len(),
        names[i] == name,
    ensures
        ({
            let at = gguf::last_named(names, name, n);
            &&& 0 <= at < n
            &&& names[at] == name
            &&& forall|j: int| at < j < n ==> #[trigger] names[j] != name
        }),
    decreases n,
{
    if names[n - 1] != name {
        lemma_last(names, name, (n - 1) as nat, i);
    }
}

/// Whether `at` holds, in order, the tensors of a block among the first `n`.
pub open spec fn taken(h: Header, block: u64, n: int, at: Seq<int>) -> bool {
    &&& forall|k: int| 0 <= k < at.len() ==> of_block(h, block, #[trigger] at[k]) && at[k] < n
    &&& forall|k: int, l: int| 0 <= k < l < at.len() ==> #[trigger] at[k] < #[trigger] at[l]
    &&& forall|i: int| #[trigger] of_block(h, block, i) && i < n ==> at.contains(i)
}

proof fn lemma_taken(h: Header, block: u64, n: nat)
    requires
        n <= h.tensors@.len(),
    ensures
        taken(h, block, n as int, gguf::picks(gguf::names_of(h), gguf::block_prefix(block), n)),
    decreases n,
{
    let all = gguf::names_of(h);
    let p = gguf::block_prefix(block);
    let at = gguf::picks(all, p, n);
    if n > 0 {
        let less = gguf::picks(all, p, (n - 1) as nat);
        lemma_taken(h, block, (n - 1) as nat);
        lemma_of_block(h, block, n - 1);
        assert(all[n - 1] == h.tensors@[n - 1].name@);
        assert forall|i: int| #[trigger] of_block(h, block, i) && i < n implies at.contains(i) by {
            if i < n - 1 {
                assert(less.contains(i));
                let k = choose|k: int| 0 <= k < less.len() && less[k] == i;
                assert(at[k] == i);
            } else {
                assert(at[at.len() - 1] == i);
            }
        }
        assert forall|k: int| 0 <= k < at.len() implies of_block(h, block, #[trigger] at[k]) && at[k] < n by {
            if k < less.len() {
                assert(at[k] == less[k]);
            }
        }
        assert forall|k: int, l: int| 0 <= k < l < at.len() implies #[trigger] at[k] < #[trigger] at[l] by {
            assert(at[k] == less[k]);
            if l < less.len() {
                assert(at[l] == less[l]);
            }
        }
    }
}

/// Whether two files can be held against each other: they have the same architecture, the
/// target tells its blocks, and the donor its blocks and its prediction layers.
pub open spec fn comparable(t: Header, d: Header, arch: Seq<char>, blocks: u64, d_blocks: u64, layers: u64) -> bool {
    let tm = gguf::meta_views(t.meta@);
    let dm = gguf::meta_views(d.meta@);
    &&& gguf::meta_string_of(tm, "general.architecture"@) == Ok::<Seq<char>, gguf::MetaError>(arch)
    &&& gguf::meta_string_of(dm, "general.architecture"@) == Ok::<Seq<char>, gguf::MetaError>(arch)
    &&& gguf::meta_u64_of(tm, arch + ".block_count"@) == Ok::<u64, gguf::MetaError>(blocks)
    &&& gguf::meta_u64_of(dm, arch + ".block_count"@) == Ok::<u64, gguf::MetaError>(d_blocks)
    &&& gguf::meta_u64_of(dm, arch + ".nextn_predict_layers"@) == Ok::<u64, gguf::MetaError>(layers)
}

/// A graft is refused where the donor has no prediction layers, no tensor of the block behind
/// the target's last, none of them that predicts, or one whose name the target has; the first
/// of these decides, and otherwise there is a graft.
pub proof fn grafts_are_refused_for_a_reason(
    t: Header,
    d: Header,
    arch: Seq<char>,
    blocks: u64,
    d_blocks: u64,
    layers: u64,
)
    requires
        comparable(t, d, arch, blocks, d_blocks, layers),
        d.tensors@.len() <= usize::MAX,
    ensures
        ({
            let g = gguf::graft_of(t, d);
            let some = exists|i: int| #[trigger] of_block(d, blocks, i);
            let mtp = exists|i: int| #[trigger] of_block(d, blocks, i) && predicts(d.tensors@[i].name@);
            let clash = exists|i: int| #[trigger] of_block(d, blocks, i) && names(t, d.tensors@[i].name@);
            &&& g == Err::<gguf::GraftView, GraftError>(GraftError::NoNextn) <==> layers == 0
            &&& g == Err::<gguf::GraftView, GraftError>(GraftError::NoTensors) <==> layers > 0 && !some
            &&& g == Err::<gguf::GraftView, GraftError>(GraftError::NotMtp) <==> layers > 0 && some && !mtp
            &&& g is Ok <==> layers > 0 && mtp && !clash
            &&& g matches Err(GraftError::Present(i)) ==> of_block(d, blocks, i as int) && names(
                t,
                d.tensors@[i as int].name@,
            ) && forall|j: int| #[trigger] of_block(d, blocks, j) && j < i ==> !names(t, d.tensors@[j].name@)
            &&& layers > 0 && mtp && clash ==> g matches Err(GraftError::Present(_))
        }),
{
    let n = d.tensors@.len();
    let extra = gguf::picks(gguf::names_of(d), gguf::block_prefix(blocks), n);
    lemma_taken(d, blocks, n);
    let lone = gguf::absent(t, d);
    text::lemma_run(extra, lone);
    let clear = text::run(extra, lone) as int;
    assert forall|i: int| #![trigger lone(i)] lone(i) <==> !names(t, d.tensors@[i].name@) by {
        let name = d.tensors@[i].name@;
        let all = gguf::names_of(t);
        if all.contains(name) {
            let k = choose|k: int| 0 <= k < all.len() && all[k] == name;
            assert(t.tensors@[k].name@ == name);
        }
        if names(t, name) {
            let k = choose|k: int| 0 <= k < t.tensors@.len() && (#[trigger] t.tensors@[k]).name@ == name;
            assert(all[k] == name);
        }
    }
    assert forall|i: int| #[trigger] of_block(d, blocks, i) implies exists|k: int|
        0 <= k < extra.len() && #[trigger] extra[k] == i by {
        assert(extra.contains(i));
    }
    assert forall|k: int| 0 <= k < extra.len() implies (predicts(d.tensors@[#[trigger] extra[k]].name@)
        <==> text::holds(d.tensors@[extra[k]].name@, ".nextn."@)) by {
        lemma_predicts(d.tensors@[extra[k]].name@);
    }
    if extra.len() > 0 {
        assert(of_block(d, blocks, extra[0]));
    }
    if clear < extra.len() {
        assert(of_block(d, blocks, extra[clear]));
        assert(!lone(extra[clear]));
        assert forall|j: int| #[trigger] of_block(d, blocks, j) && j < extra[clear] implies !names(
            t,
            d.tensors@[j].name@,
        ) by {
            let k = choose|k: int| 0 <= k < extra.len() && #[trigger] extra[k] == j;
            if k > clear {
                assert(extra[clear] < extra[k]);
            }
            assert(lone(extra[k]));
        }
    } else {
        assert forall|i: int| #[trigger] of_block(d, blocks, i) implies !names(t, d.tensors@[i].name@) by {
            let k = choose|k: int| 0 <= k < extra.len() && #[trigger] extra[k] == i;
            assert(lone(extra[k]));
        }
    }
}

/// A graft has the target's tensors with their data, and behind them, in order, the donor's
/// tensors of the block behind the target's last, each with the data of the last tensor that has
/// its name.
pub proof fn grafts_add_the_block_behind_the_last(
    t: Header,
    d: Header,
    arch: Seq<char>,
    blocks: u64,
    d_blocks: u64,
    layers: u64,
) -> (at: Seq<int>)
    requires
        comparable(t, d, arch, blocks, d_blocks, layers),
        gguf::ascending(t),
        gguf::ascending(d),
        gguf::graft_of(t, d) is Ok,
    ensures
        taken(d, blocks, d.tensors@.len() as int, at),
        ({
            let v = gguf::graft_of(t, d)->Ok_0;
            let n = t.tensors@.len() as int;
            &&& v.grafted_tensors == at.len()
            &&& v.block_count == d_blocks
            &&& v.nextn_layers == layers
            &&& v.parts.len() == n + at.len()
            &&& forall|i: int|
                0 <= i < n ==> {
                    &&& (#[trigger] v.parts[i]).entry == t.tensors@[i]@
                    &&& !v.parts[i].from_donor
                    &&& data_of(t, i, v.parts[i].start, v.parts[i].size as int)
                }
            &&& forall|k: int, j: int|
                #![trigger at[k], d.tensors@[j]]
                0 <= k < at.len() ==> {
                    &&& v.parts[n + k].entry == d.tensors@[at[k]]@
                    &&& v.parts[n + k].from_donor
                    &&& last_one(d, j, d.tensors@[at[k]].name@) ==> data_of(
                        d,
                        j,
                        v.parts[n + k].start,
                        v.parts[n + k].size as int,
                    )
                }
        }),
{
    let n = t.tensors@.len() as int;
    let all = gguf::names_of(d);
    let v = gguf::graft_of(t, d)->Ok_0;
    let at = gguf::picks(all, gguf::block_prefix(blocks), d.tensors@.len());
    lemma_taken(d, blocks, d.tensors@.len());
    assert forall|i: int| 0 <= i < n implies {
        &&& (#[trigger] v.parts[i]).entry == t.tensors@[i]@
        &&& !v.parts[i].from_donor
        &&& data_of(t, i, v.parts[i].start, v.parts[i].size as int)
    } by {
        lemma_data(t, i);
    }
    assert forall|k: int, j: int| #![trigger at[k], d.tensors@[j]] 0 <= k < at.len() implies {
        &&& v.parts[n + k].entry == d.tensors@[at[k]]@
        &&& v.parts[n + k].from_donor
        &&& last_one(d, j, d.tensors@[at[k]].name@) ==> data_of(
            d,
            j,
            v.parts[n + k].start,
            v.parts[n + k].size as int,
        )
    } by {
        let name = d.tensors@[at[k]].name@;
        assert(of_block(d, blocks, at[k]));
        assert(all[at[k]] == name);
        lemma_last(all, name, d.tensors@.len(), at[k]);
        let l = gguf::last_named(all, name, d.tensors@.len());
        assert(v.parts[n + k] == gguf::donor_part(d, at[k]));
        assert(all[l] == d.tensors@[l].name@);
        lemma_data(d, l);
        if last_one(d, j, name) {
            assert(all[j] == name);
            if j < l {
                assert(d.tensors@[l].name@ != name);
            }
            assert(j == l);
        }
    }
    at
}

proof fn lemma_data(h: Header, i: int)
    requires
        gguf::ascending(h),
        0 <= i < h.tensors@.len(),
    ensures
        data_of(h, i, gguf::start_of(h, i), gguf::sizes_of(h)[i] as int),
{
    assert(gguf::start_of(h, i) <= gguf::stop_of(h, i));
    if i + 1 < h.tensors@.len() {
        assert(gguf::start_of(h, i + 1) <= u64::MAX);
    }
}

} // verus!
