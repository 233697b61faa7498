//! Versions of the server: which release fits, how it is built, and which versions are
//! kept.
use vstd::prelude::*;

use crate::json;
use crate::json::{Json, JsonValue};
use crate::process;
use crate::text;

verus! {

/// A file of a release.
pub struct Asset {
    pub name: String,
    pub browser_download_url: String,
}

/// The names of some files.
pub open spec fn asset_names(assets: Seq<Asset>) -> Seq<Seq<char>> {
    assets.map_values(|a: Asset| a.name@)
}

/// What the name of the file for a backend holds.
pub open spec fn marker_of(backend: Seq<char>) -> Seq<char> {
    if backend == "cpu"@ {
        "bin-ubuntu-x64.tar.gz"@
    } else {
        "bin-ubuntu-"@ + backend
    }
}

/// Not being the file for a backend, as a function.
pub open spec fn other_asset(backend: Seq<char>) -> spec_fn(Seq<char>) -> bool {
    |name: Seq<char>|
        !(text::holds(name, marker_of(backend)) && "x64.tar.gz"@.is_suffix_of(name))
}

/// The place of the file for a backend: the first that fits.
pub open spec fn llama_asset_of(names: Seq<Seq<char>>, backend: Seq<char>) -> Option<int> {
    let at = text::run(names, other_asset(backend)) as int;
    if at < names.len() {
        Some(at)
    } else {
        None
    }
}

pub fn llama_asset(assets: &Vec<Asset>, backend: &str) -> (out: Option<usize>)
    ensures
        match (out, llama_asset_of(asset_names(assets@), backend@)) {
            (Some(i), Some(j)) => i == j,
            (None, None) => true,
            _ => false,
        },
{
    let ghost all = asset_names(assets@);
    let mut marker: String = "bin-ubuntu-".to_owned();
    if text::same(backend, "cpu") {
        marker = "bin-ubuntu-x64.tar.gz".to_owned();
    } else {
        marker.append(backend);
    }
    let mut i: usize = 0;
    while i < assets.len()
        invariant
            i <= assets@.len(),
            all == asset_names(assets@),
            marker@ == marker_of(backend@),
            forall|j: int| 0 <= j < i ==> other_asset(backend@)(#[trigger] all[j]),
        decreases assets@.len() - i,
    {
        proof {
            assert(all[i as int] == assets@[i as int].name@);
        }
        let name: &str = assets[i].name.as_str();
        if text::contains(name, marker.as_str()) && text::ends_with(name, "x64.tar.gz") {
            proof {
                text::lemma_run_unique(all, other_asset(backend@), i as int);
            }
            return Some(i);
        }
        i += 1;
    }
    proof {
        text::lemma_run_unique(all, other_asset(backend@), i as int);
    }
    None
}

/// Not being the scheduler's file, as a function.
pub open spec fn no_swap_asset() -> spec_fn(Seq<char>) -> bool {
    |name: Seq<char>| !text::holds(name, "linux_amd64.tar.gz"@)
}

/// The place of the scheduler's file: the first that fits.
pub fn swap_asset(assets: &Vec<Asset>) -> (out: Option<usize>)
    ensures
        ({
            let names = asset_names(assets@);
            let at = text::run(names, no_swap_asset()) as int;
            match out {
                Some(i) => i == at && at < names.len(),
                None => at >= names.len(),
            }
        }),
{
    let ghost all = asset_names(assets@);
    let mut i: usize = 0;
    while i < assets.len()
        invariant
            i <= assets@.len(),
            all == asset_names(assets@),
            forall|j: int| 0 <= j < i ==> no_swap_asset()(#[trigger] all[j]),
        decreases assets@.len() - i,
    {
        proof {
            assert(all[i as int] == assets@[i as int].name@);
        }
        if text::contains(assets[i].name.as_str(), "linux_amd64.tar.gz") {
            proof {
                text::lemma_run_unique(all, no_swap_asset(), i as int);
            }
            return Some(i);
        }
        i += 1;
    }
    proof {
        text::lemma_run_unique(all, no_swap_asset(), i as int);
    }
    None
}

/// What the build of the server is told for a backend.
pub open spec fn cmake_flags_of(backend: Seq<char>) -> Option<Seq<Seq<char>>> {
    let front = seq!["-DGGML_NATIVE=ON"@];
    if backend == "cuda"@ {
        Some(
            front + seq![
                "-DGGML_CUDA=ON"@,
                "-DGGML_CUDA_NCCL=ON"@,
                "-DGGML_CUDA_FA_ALL_QUANTS=ON"@,
            ],
        )
    } else if backend == "vulkan"@ {
        Some(front + seq!["-DGGML_VULKAN=ON"@])
    } else if backend == "rocm"@ {
        Some(front + seq!["-DGGML_HIP=ON"@])
    } else if backend == "sycl-fp16"@ {
        Some(front + seq!["-DGGML_SYCL=ON"@, "-DGGML_SYCL_F16=ON"@])
    } else if backend == "sycl-fp32"@ {
        Some(front + seq!["-DGGML_SYCL=ON"@, "-DGGML_SYCL_F16=OFF"@])
    } else if backend == "openvino"@ {
        Some(front + seq!["-DGGML_OPENVINO=ON"@])
    } else if backend == "cpu"@ {
        Some(front)
    } else {
        None
    }
}

pub fn cmake_flags(backend: &str) -> (out: Option<Vec<String>>)
    ensures
        match (out, cmake_flags_of(backend@)) {
            (Some(a), Some(b)) => text::views(a@) == b,
            (None, None) => true,
            _ => false,
        },
{
    let mut out: Vec<String> = Vec::new();
    proof {
        assert(text::views(out@) =~= seq![]);
    }
    process::add(&mut out, "-DGGML_NATIVE=ON");
    if text::same(backend, "cuda") {
        process::add(&mut out, "-DGGML_CUDA=ON");
        process::add(&mut out, "-DGGML_CUDA_NCCL=ON");
        process::add(&mut out, "-DGGML_CUDA_FA_ALL_QUANTS=ON");
    } else if text::same(backend, "vulkan") {
        process::add(&mut out, "-DGGML_VULKAN=ON");
    } else if text::same(backend, "rocm") {
        process::add(&mut out, "-DGGML_HIP=ON");
    } else if text::same(backend, "sycl-fp16") {
        process::add(&mut out, "-DGGML_SYCL=ON");
        process::add(&mut out, "-DGGML_SYCL_F16=ON");
    } else if text::same(backend, "sycl-fp32") {
        process::add(&mut out, "-DGGML_SYCL=ON");
        process::add(&mut out, "-DGGML_SYCL_F16=OFF");
    } else if text::same(backend, "openvino") {
        process::add(&mut out, "-DGGML_OPENVINO=ON");
    } else if !text::same(backend, "cpu") {
        return None;
    }
    proof {
        assert(text::views(out@) =~= cmake_flags_of(backend@)->Some_0);
    }
    Some(out)
}

/// Whether a version is one of a release: its name is the tag, or the tag and a
/// backend.
pub open spec fn is_version_of(tag: Seq<char>, name: Seq<char>) -> bool {
    name == tag || (tag + "-"@).is_prefix_of(name)
}

/// Whether a release is among the versions that are there.
pub fn is_installed(tag: &str, names: &Vec<String>) -> (yes: bool)
    ensures
        yes == (exists|i: int|
            0 <= i < names@.len() && is_version_of(tag@, #[trigger] text::views(names@)[i])),
{
    let ghost all = text::views(names@);
    let mut front: String = tag.to_owned();
    front.append("-");
    let mut i: usize = 0;
    while i < names.len()
        invariant
            i <= names@.len(),
            all == text::views(names@),
            front@ == tag@ + "-"@,
            forall|j: int| 0 <= j < i ==> !is_version_of(tag@, #[trigger] all[j]),
        decreases names@.len() - i,
    {
        proof {
            assert(all[i as int] == names@[i as int]@);
        }
        if text::same(names[i].as_str(), tag) || text::starts_with(
            names[i].as_str(),
            front.as_str(),
        ) {
            return true;
        }
        i += 1;
    }
    false
}

/// The directory of a version.
pub fn version_name(tag: &str, backend: &str) -> (out: String)
    ensures
        out@ == tag@ + "-"@ + backend@,
        is_version_of(tag@, out@),
{
    let mut out: String = tag.to_owned();
    out.append("-");
    out.append(backend);
    proof {
        let front = tag@ + "-"@;
        assert(front =~= out@.take(front.len() as int));
    }
    out
}

/// What the description of a build says: its backend, and whether it is pinned. `about` is
/// the description, where it can be read.
pub open spec fn build_facts_of(about: Option<Json>) -> (Seq<char>, bool) {
    match about {
        Some(value) => (
            match json::member_in(value, "backend"@) {
                Some(Json::Text(backend)) => backend,
                _ => "unknown"@,
            },
            json::member_in(value, "pinned"@) == Some(Json::Bool(true)),
        ),
        None => ("unknown"@, false),
    }
}

/// What a description that was read says of a build.
pub fn described_build(about: &Option<JsonValue>) -> (out: (String, bool))
    ensures
        (out.0@, out.1) == build_facts_of(
            match *about {
                Some(value) => Some(value@),
                None => None,
            },
        ),
{
    match about {
        Some(value) => {
            let backend: String = match value.get("backend") {
                Some(JsonValue::String(s)) => s.clone(),
                _ => "unknown".to_owned(),
            };
            let pinned: bool = match value.get("pinned") {
                Some(JsonValue::Bool(b)) => *b,
                _ => false,
            };
            (backend, pinned)
        },
        None => ("unknown".to_owned(), false),
    }
}

/// Reads the backend of a build and whether it is pinned from the text of its description;
/// an empty text stands for one that is not there.
pub fn build_facts(manifest: &str) -> (out: (String, bool))
    ensures
        (out.0@, out.1) == build_facts_of(json::parsed(manifest@)),
{
    described_build(&json::parse(manifest))
}

/// A version that is there: its backend, when it was changed, and whether it is pinned
/// or in use.
pub struct Version {
    pub backend: String,
    pub modified: Option<u64>,
    pub pinned: bool,
    pub active: bool,
}

pub ghost struct VersionView {
    pub backend: Seq<char>,
    pub modified: Option<u64>,
    pub pinned: bool,
    pub active: bool,
}

impl View for Version {
    type V = VersionView;

    open spec fn view(&self) -> VersionView {
        VersionView {
            backend: self.backend@,
            modified: self.modified,
            pinned: self.pinned,
            active: self.active,
        }
    }
}

pub open spec fn version_views(list: Seq<Version>) -> Seq<VersionView> {
    list.map_values(|v: Version| v@)
}

/// Whether a time is later than another; one that is not known is the earliest.
pub open spec fn later(a: Option<u64>, b: Option<u64>) -> bool {
    match (a, b) {
        (Some(x), Some(y)) => x > y,
        (Some(_), None) => true,
        _ => false,
    }
}

/// Whether a version comes before another of its backend: it is newer, or as new and
/// listed earlier.
pub open spec fn precedes(list: Seq<VersionView>, j: int, i: int) -> bool {
    list[j].backend == list[i].backend && (later(list[j].modified, list[i].modified) || (
    list[j].modified == list[i].modified && j < i))
}

/// How many of the first `n` versions come before one.
pub open spec fn rank(list: Seq<VersionView>, i: int, n: nat) -> nat
    decreases n,
{
    if n == 0 {
        0
    } else {
        rank(list, i, (n - 1) as nat) + if precedes(list, n - 1, i) {
            1nat
        } else {
            0
        }
    }
}

/// Whether a version goes: as many newer ones of its backend are there as are kept, and
/// it is neither pinned nor in use. At least one is kept.
pub open spec fn is_old(list: Seq<VersionView>, i: int, keep: nat) -> bool {
    let kept = if keep == 0 {
        1
    } else {
        keep
    };
    rank(list, i, list.len()) >= kept && !list[i].pinned && !list[i].active
}

/// The places of the versions that go, among the first `n`.
pub open spec fn old_places(list: Seq<VersionView>, keep: nat, n: nat) -> Seq<usize>
    decreases n,
{
    if n == 0 {
        seq![]
    } else {
        let earlier = old_places(list, keep, (n - 1) as nat);
        if is_old(list, n - 1, keep) {
            earlier.push((n - 1) as usize)
        } else {
            earlier
        }
    }
}

fn comes_before(list: &Vec<Version>, j: usize, i: usize) -> (yes: bool)
    requires
        i < list@.len(),
        j < list@.len(),
    ensures
        yes == precedes(version_views(list@), j as int, i as int),
{
    if !text::same(list[j].backend.as_str(), list[i].backend.as_str()) {
        return false;
    }
    match (list[j].modified, list[i].modified) {
        (Some(a), Some(b)) => a > b || (a == b && j < i),
        (Some(_), None) => true,
        (None, Some(_)) => false,
        (None, None) => j < i,
    }
}

/// Finds the versions that go; of each backend the newest `keep` stay.
pub fn prune_versions(list: &Vec<Version>, keep: usize) -> (out: Vec<usize>)
    ensures
        out@ == old_places(version_views(list@), keep as nat, list@.len()),
{
    let ghost all = version_views(list@);
    let kept: usize = if keep == 0 {
        1
    } else {
        keep
    };
    let mut out: Vec<usize> = Vec::new();
    let mut i: usize = 0;
    proof {
        assert(out@ =~= seq![]);
    }
    while i < list.len()
        invariant
            i <= list@.len(),
            all == version_views(list@),
            kept == (if keep == 0 {
                1
            } else {
                keep
            }),
            out@ == old_places(all, keep as nat, i as nat),
        decreases list@.len() - i,
    {
        let mut count: usize = 0;
        let mut j: usize = 0;
        while j < list.len()
            invariant
                i < list@.len(),
                j <= list@.len(),
                all == version_views(list@),
                count <= j,
                count == rank(all, i as int, j as nat),
            decreases list@.len() - j,
        {
            if comes_before(list, j, i) {
                count += 1;
            }
            j += 1;
        }
        proof {
            assert(all[i as int] == list@[i as int]@);
        }
        if count >= kept && !list[i].pinned && !list[i].active {
            out.push(i);
        }
        i += 1;
    }
    out
}

proof fn lemma_rank_bound(list: Seq<VersionView>, i: int, n: nat)
    requires
        n <= list.len(),
    ensures
        rank(list, i, n) <= n,
        (forall|j: int| 0 <= j < n ==> !precedes(list, j, i)) ==> rank(list, i, n) == 0,
    decreases n,
{
    if n > 0 {
        lemma_rank_bound(list, i, (n - 1) as nat);
    }
}

/// A version goes only if it is neither pinned nor in use and another of its backend
/// is newer or listed before it; so the newest of each backend stays.
pub proof fn newest_stays(list: Seq<VersionView>, i: int, keep: nat)
    requires
        0 <= i < list.len(),
        is_old(list, i, keep),
    ensures
        !list[i].pinned,
        !list[i].active,
        exists|j: int| 0 <= j < list.len() && #[trigger] precedes(list, j, i),
{
    if forall|j: int| 0 <= j < list.len() ==> !precedes(list, j, i) {
        lemma_rank_bound(list, i, list.len());
    }
}

} // verus!
