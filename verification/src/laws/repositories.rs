//! Laws of repositories: which models they offer.
use vstd::prelude::*;

use crate::huggingface;
use crate::huggingface::{ArtifactView, NodeView, RemoteView};
use crate::laws::files;
use crate::laws::texts;
use crate::table;
use crate::text;

verus! {

/// Whether an entry is a model file of the kind that is looked for: a file whose path ends in
/// `.gguf`, capital letters aside, and that is a projector or is not.
pub open spec fn looked_for(node: NodeView, projectors: bool) -> bool {
    &&& node.kind == "file"@ || node.kind == "blob"@
    &&& files::ends_in(text::lower_of(node.path), ".gguf"@)
    &&& huggingface::is_projector(node.path) == projectors
}

/// The model files of a repository are all its files of that kind, in their order; a file whose
/// path is not safe refuses it, the first one by its path.
pub proof fn model_files_are_those_of_their_kind(nodes: Seq<NodeView>, n: nat, projectors: bool) -> (at: Seq<int>)
    requires
        n <= nodes.len(),
    ensures
        match huggingface::model_files(nodes, n, projectors) {
            Ok(list) => {
                &&& texts::chosen(nodes.take(n as int), |e: NodeView| looked_for(e, projectors), at)
                &&& list.len() == at.len()
                &&& forall|k: int|
                    0 <= k < at.len() ==> list[k] == huggingface::remote_of(nodes[#[trigger] at[k]])
                &&& forall|i: int|
                    0 <= i < n && huggingface::is_file(#[trigger] nodes[i]) ==> huggingface::is_safe(
                        nodes[i].path,
                    )
            },
            Err(path) => exists|i: int|
                0 <= i < n && huggingface::is_file(#[trigger] nodes[i]) && !huggingface::is_safe(
                    nodes[i].path,
                ) && path == nodes[i].path && forall|j: int|
                    0 <= j < i && huggingface::is_file(#[trigger] nodes[j]) ==> huggingface::is_safe(
                        nodes[j].path,
                    ),
        },
    decreases n,
{
    let meant = |e: NodeView| looked_for(e, projectors);
    if n == 0 {
        seq![]
    } else {
        let before = model_files_are_those_of_their_kind(nodes, (n - 1) as nat, projectors);
        let node = nodes[n - 1];
        files::lemma_suffix(text::lower_of(node.path), ".gguf"@);
        match huggingface::model_files(nodes, (n - 1) as nat, projectors) {
            Err(_) => seq![],
            Ok(less) => {
                match huggingface::model_files(nodes, n, projectors) {
                    Err(path) => {
                        assert(huggingface::is_file(nodes[n - 1]) && !huggingface::is_safe(
                            nodes[n - 1].path,
                        ));
                        seq![]
                    },
                    Ok(all) => {
                        texts::lemma_chosen(nodes, n - 1, meant, before);
                        if meant(node) {
                            let at = before.push(n - 1);
                            assert forall|k: int| 0 <= k < at.len() implies all[k]
                                == huggingface::remote_of(nodes[#[trigger] at[k]]) by {
                                if k < before.len() {
                                    assert(at[k] == before[k]);
                                    assert(all[k] == less[k]);
                                }
                            }
                            at
                        } else {
                            before
                        }
                    },
                }
            },
        }
    }
}

/// A file has the path of its entry, the size of the large file that it points to, where that is
/// known, else its own; its digest is its own, where it has one, else that of the large file,
/// else its name there.
pub proof fn files_are_as_large_as_what_they_point_to(node: NodeView)
    ensures
        ({
            let f = huggingface::remote_of(node);
            &&& f.path == node.path
            &&& node.lfs is None ==> f.size == node.size
            &&& node.lfs matches Some(l) ==> (l.size > 0 ==> f.size == l.size) && (l.size == 0
                ==> f.size == node.size)
            &&& node.sha256.len() > 0 ==> f.sha256 == Some(node.sha256)
            &&& node.sha256.len() == 0 && node.lfs is None ==> f.sha256 is None
            &&& node.lfs matches Some(l) ==> {
                &&& node.sha256.len() == 0 && l.sha256.len() > 0 ==> f.sha256 == Some(l.sha256)
                &&& node.sha256.len() == 0 && l.sha256.len() == 0 && l.oid.len() > 0 ==> f.sha256
                    == Some(l.oid)
                &&& node.sha256.len() == 0 && l.sha256.len() == 0 && l.oid.len() == 0
                    ==> f.sha256 is None
            }
        }),
{
}

/// The path that the parts of a model share with a file.
pub open spec fn shared_path(f: RemoteView) -> Seq<char> {
    huggingface::group_key_from(
        f.path,
        huggingface::match_of(huggingface::shard_expression(), huggingface::name_in(f.path)),
    )
}

/// Files make one model exactly where they share a path; each stands in it once, in order.
pub proof fn files_are_grouped_by_their_shared_path(list: Seq<RemoteView>, n: nat, key: Seq<char>)
    requires
        n <= list.len(),
        list.len() <= usize::MAX,
    ensures
        table::ordered(huggingface::by_group(list, n)),
        match table::lookup(huggingface::by_group(list, n), key) {
            Some(places) => {
                &&& places.len() > 0
                &&& forall|k: int|
                    0 <= k < places.len() ==> (#[trigger] places[k]) < n && shared_path(
                        list[places[k] as int],
                    ) == key
                &&& forall|k: int, l: int|
                    0 <= k < l < places.len() ==> #[trigger] places[k] < #[trigger] places[l]
                &&& forall|i: int|
                    0 <= i < n && shared_path(#[trigger] list[i]) == key ==> places.contains(
                        i as usize,
                    )
            },
            None => forall|i: int| 0 <= i < n ==> shared_path(#[trigger] list[i]) != key,
        },
    decreases n,
{
    if n > 0 {
        files_are_grouped_by_their_shared_path(list, (n - 1) as nat, key);
        let earlier = huggingface::by_group(list, (n - 1) as nat);
        let own = shared_path(list[n - 1]);
        let held = match table::lookup(earlier, own) {
            Some(places) => places,
            None => seq![],
        };
        let new = held.push((n - 1) as usize);
        table::put_keeps_order(earlier, own, new);
        table::put_then_lookup(earlier, own, new, key);
        if own == key {
            assert(new[held.len() as int] == (n - 1) as usize);
            assert forall|k: int| 0 <= k < new.len() implies (#[trigger] new[k]) < n && shared_path(
                list[new[k] as int],
            ) == key by {
                if k < held.len() {
                    assert(new[k] == held[k]);
                }
            }
            assert forall|i: int| 0 <= i < n && shared_path(#[trigger] list[i]) == key implies new.contains(
                i as usize,
            ) by {
                if i < n - 1 {
                    assert(held.contains(i as usize));
                    let k = choose|k: int| 0 <= k < held.len() && held[k] == i as usize;
                    assert(new[k] == i as usize);
                }
            }
            assert forall|k: int, l: int| 0 <= k < l < new.len() implies #[trigger] new[k]
                < #[trigger] new[l] by {
                if l < held.len() {
                    assert(held[k] < held[l]);
                } else {
                    assert(held[k] < n - 1);
                }
            }
        }
    }
}

/// The files of a model are ordered by their paths, and none is lost or added.
pub proof fn parts_are_ordered_by_path(list: Seq<RemoteView>, places: Seq<usize>, n: nat)
    requires
        n <= places.len(),
    ensures
        ({
            let out = huggingface::by_path(list, places, n);
            &&& out.to_multiset() == places.take(n as int).to_multiset()
            &&& out.len() == n
            &&& forall|i: int, j: int|
                #![trigger out[i], out[j]]
                0 <= i < j < out.len() ==> !text::before(
                    list[out[j] as int].path,
                    list[out[i] as int].path,
                )
        }),
    decreases n,
{
    let new = huggingface::by_path(list, places, n);
    if n == 0 {
        assert(new =~= places.take(0));
    } else {
        parts_are_ordered_by_path(list, places, (n - 1) as nat);
        let earlier = huggingface::by_path(list, places, (n - 1) as nat);
        let p = places[n - 1];
        let path = list[p as int].path;
        let fine = huggingface::path_not_after(list, path);
        text::lemma_run(earlier, fine);
        let at = text::run(earlier, fine) as int;
        new.to_multiset_ensures();
        assert(new[at] == p);
        assert(new.remove(at) =~= earlier);
        assert(new.to_multiset() =~= earlier.to_multiset().insert(p));
        assert(places.take(n as int) =~= places.take(n - 1).push(p));
        vstd::seq_lib::to_multiset_build(places.take(n - 1), p);
        assert forall|i: int, j: int|
            #![trigger new[i], new[j]]
            0 <= i < j < new.len() implies !text::before(
            list[new[j] as int].path,
            list[new[i] as int].path,
        ) by {
            let a = if i < at { i } else { i - 1 };
            let b = if j < at { j } else { j - 1 };
            if i != at && j != at {
                assert(new[i] == earlier[a] && new[j] == earlier[b]);
            } else if j == at {
                assert(fine(earlier[i]));
                assert(new[i] == earlier[i]);
            } else {
                assert(!fine(earlier[at]));
                assert(new[j] == earlier[b]);
                let x = list[earlier[at] as int].path;
                let y = list[earlier[b] as int].path;
                assert(text::before(path, x));
                if text::before(y, path) {
                    text::lemma_before_transitive(y, path, x);
                    if b > at {
                        assert(!text::before(y, x));
                    } else {
                        text::lemma_before_irreflexive(x);
                    }
                }
            }
        }
    }
}

proof fn lemma_size(list: Seq<RemoteView>, n: nat)
    requires
        n <= list.len(),
    ensures
        huggingface::size_of(list, n) == texts::sum(Seq::new(n, |i: int| list[i].size as int)),
    decreases n,
{
    let all = Seq::new(n, |i: int| list[i].size as int);
    if n > 0 {
        lemma_size(list, (n - 1) as nat);
        let less = Seq::new((n - 1) as nat, |i: int| list[i].size as int);
        texts::lemma_sum_push(less, list[n - 1].size as int);
        assert(all =~= less.push(list[n - 1].size as int));
    }
}

/// A model that can be fetched has its files and, last, the projector where there is one; it is
/// as large as all of them together, complete where it has as many files as the first one's
/// name says, one where it says nothing, labelled by its quantization, and recommended where
/// that is the usual one.
pub proof fn artifacts_hold_all_their_files(list: Seq<RemoteView>, projector: Option<RemoteView>)
    requires
        list.len() > 0,
    ensures
        ({
            let a = huggingface::artifact_of(list, projector);
            let part = huggingface::match_of(
                huggingface::shard_expression(),
                huggingface::name_in(list[0].path),
            );
            &&& a.files.take(list.len() as int) == list
            &&& projector matches Some(p) ==> a.files.len() == list.len() + 1 && a.files.last() == p
            &&& projector is None ==> a.files.len() == list.len()
            &&& a.has_mmproj <==> projector is Some
            &&& a.size == texts::sum(Seq::new(a.files.len(), |i: int| a.files[i].size as int))
            &&& a.complete <==> list.len() == a.shard_count
            &&& huggingface::parts_from(part) is None ==> a.shard_count == 1
            &&& huggingface::parts_from(part) matches Some(numbers) ==> a.shard_count == numbers.1
            &&& huggingface::quantization_of(list[0].path) matches Some(q) ==> a.label == q
            &&& huggingface::quantization_of(list[0].path) is None ==> a.label == "UNKNOWN"@
            &&& a.recommended <==> a.label == "Q4_K_M"@
            &&& a.quality == huggingface::quality_of(a.label)
            &&& a.description == huggingface::description_of(a.label)
        }),
{
    let a = huggingface::artifact_of(list, projector);
    assert(a.files.take(list.len() as int) =~= list);
    lemma_size(a.files, a.files.len());
}

/// A recommended model is listed before the others, a better one before a worse one, of equally
/// good ones the smaller before the larger.
pub proof fn better_models_are_listed_first(a: ArtifactView, b: ArtifactView)
    ensures
        a.recommended && !b.recommended ==> huggingface::listed_before(a, b)
            && !huggingface::listed_before(b, a),
        a.recommended == b.recommended && a.quality > b.quality ==> huggingface::listed_before(a, b)
            && !huggingface::listed_before(b, a),
        a.recommended == b.recommended && a.quality == b.quality && a.size < b.size
            ==> huggingface::listed_before(a, b) && !huggingface::listed_before(b, a),
        a.recommended == b.recommended && a.quality == b.quality && a.size == b.size
            && text::before(a.label, b.label) ==> huggingface::listed_before(a, b),
{
}

} // verus!
