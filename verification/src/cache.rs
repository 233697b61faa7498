//! What is kept of the metadata of files that were read before.
use vstd::prelude::*;

use crate::config;
use crate::metadata;
use crate::metadata::{GgufMetadata, GgufView, TokenizerMetadata};
use crate::text;

verus! {

/// How long a file is and when it was changed.
#[derive(Clone, Copy, Debug, PartialEq, Eq, Structural)]
pub struct FileStamp {
    pub len: u64,
    pub modified: Option<u64>,
}

/// What is kept of a file: its metadata without the names of tensors, and with them where
/// they were asked for.
pub struct CachedMetadata {
    pub stamp: FileStamp,
    pub basic: GgufMetadata,
    pub full: Option<GgufMetadata>,
}

#[verifier::ext_equal]
pub ghost struct CachedView {
    pub stamp: FileStamp,
    pub basic: GgufView,
    pub full: Option<GgufView>,
}

pub open spec fn full_view(full: Option<GgufMetadata>) -> Option<GgufView> {
    match full {
        Some(m) => Some(m@),
        None => None,
    }
}

impl View for CachedMetadata {
    type V = CachedView;

    open spec fn view(&self) -> CachedView {
        CachedView { stamp: self.stamp, basic: self.basic@, full: full_view(self.full) }
    }
}

pub open spec fn cached_view(entry: Option<CachedMetadata>) -> Option<CachedView> {
    match entry {
        Some(c) => Some(c@),
        None => None,
    }
}

/// What is known of a file: nothing where it was changed, or where the names of tensors are
/// asked for and were not read.
pub open spec fn known(entry: Option<CachedView>, stamp: FileStamp, markers: bool) -> Option<GgufView> {
    match entry {
        Some(c) => if c.stamp != stamp {
            None
        } else if markers {
            c.full
        } else {
            Some(c.basic)
        },
        None => None,
    }
}

/// What is kept of a file after it was read.
pub open spec fn kept(
    entry: Option<CachedView>,
    stamp: FileStamp,
    parsed: GgufView,
    markers: bool,
) -> CachedView {
    CachedView {
        stamp,
        basic: if markers {
            GgufView { mtp_markers: seq![], ..parsed }
        } else {
            parsed
        },
        full: if markers {
            Some(parsed)
        } else {
            match entry {
                Some(c) => if c.stamp == stamp {
                    c.full
                } else {
                    None
                },
                None => None,
            }
        },
    }
}

fn copy_numbers(list: &Vec<u64>) -> (out: Vec<u64>)
    ensures
        out@ == list@,
{
    let mut out: Vec<u64> = Vec::new();
    let mut i: usize = 0;
    while i < list.len()
        invariant
            i <= list@.len(),
            out@ == list@.take(i as int),
        decreases list@.len() - i,
    {
        out.push(list[i]);
        proof {
            assert(list@.take(i + 1) =~= list@.take(i as int).push(list@[i as int]));
        }
        i += 1;
    }
    proof {
        assert(list@.take(list@.len() as int) =~= list@);
    }
    out
}

fn copy_tokenizer(t: &TokenizerMetadata) -> (out: TokenizerMetadata)
    ensures
        out@ == t@,
{
    let ghost all = metadata::hash_views(t.prefix_hashes@);
    let mut hashes: Vec<(u64, String)> = Vec::new();
    let mut i: usize = 0;
    proof {
        assert(metadata::hash_views(hashes@) =~= all.take(0));
    }
    while i < t.prefix_hashes.len()
        invariant
            i <= t.prefix_hashes@.len(),
            all == metadata::hash_views(t.prefix_hashes@),
            all.len() == t.prefix_hashes@.len(),
            metadata::hash_views(hashes@) == all.take(i as int),
        decreases t.prefix_hashes@.len() - i,
    {
        let ghost before = metadata::hash_views(hashes@);
        let entry: (u64, String) = (t.prefix_hashes[i].0, t.prefix_hashes[i].1.clone());
        hashes.push(entry);
        proof {
            assert(metadata::hash_views(hashes@) =~= before.push((entry.0, entry.1@)));
            assert(all.take(i + 1) =~= all.take(i as int).push(all[i as int]));
        }
        i += 1;
    }
    proof {
        assert(all.take(all.len() as int) =~= all);
    }
    TokenizerMetadata {
        token_count: t.token_count,
        prefix_hashes: hashes,
        bos_token_id: t.bos_token_id,
        eos_token_id: t.eos_token_id,
        add_bos_token: t.add_bos_token,
        add_eos_token: t.add_eos_token,
    }
}

/// Copies metadata.
pub fn copy_metadata(m: &GgufMetadata) -> (out: GgufMetadata)
    ensures
        out@ == m@,
{
    GgufMetadata {
        context_length: m.context_length,
        block_count: m.block_count,
        embedding_length: m.embedding_length,
        attention_heads: m.attention_heads,
        kv_heads: copy_numbers(&m.kv_heads),
        key_length: copy_numbers(&m.key_length),
        value_length: copy_numbers(&m.value_length),
        sliding_window: m.sliding_window,
        sliding_pattern: copy_numbers(&m.sliding_pattern),
        pooling_type: m.pooling_type,
        nextn_layers: m.nextn_layers,
        mtp_markers: config::copy_texts(&m.mtp_markers),
        tokenizer: match &m.tokenizer {
            Some(t) => Some(copy_tokenizer(t)),
            None => None,
        },
    }
}

/// What is known of a file that has a stamp. With `markers` the names of tensors are asked
/// for.
pub fn find(entry: &Option<CachedMetadata>, stamp: FileStamp, markers: bool) -> (out: Option<
    GgufMetadata,
>)
    ensures
        full_view(out) == known(cached_view(*entry), stamp, markers),
{
    match entry {
        Some(c) => if c.stamp != stamp {
            None
        } else if markers {
            match &c.full {
                Some(m) => Some(copy_metadata(m)),
                None => None,
            }
        } else {
            Some(copy_metadata(&c.basic))
        },
        None => None,
    }
}

/// Keeps what was read of a file.
pub fn keep(
    entry: Option<CachedMetadata>,
    stamp: FileStamp,
    parsed: &GgufMetadata,
    markers: bool,
) -> (out: CachedMetadata)
    ensures
        out@ == kept(cached_view(entry), stamp, parsed@, markers),
{
    let mut basic: GgufMetadata = copy_metadata(parsed);
    if markers {
        basic.mtp_markers = Vec::new();
        proof {
            assert(text::views(basic.mtp_markers@) =~= seq![]);
        }
        return CachedMetadata { stamp, basic, full: Some(copy_metadata(parsed)) };
    }
    let full: Option<GgufMetadata> = match entry {
        Some(c) => if c.stamp == stamp {
            c.full
        } else {
            None
        },
        None => None,
    };
    CachedMetadata { stamp, basic, full }
}

/// What was kept of a file is known of it while it does not change.
pub proof fn kept_is_known(
    entry: Option<CachedView>,
    stamp: FileStamp,
    parsed: GgufView,
    markers: bool,
)
    ensures
        known(Some(kept(entry, stamp, parsed, markers)), stamp, markers) == Some(parsed),
{
}

/// Nothing is known of a file that was changed.
pub proof fn changed_files_are_unknown(
    entry: Option<CachedView>,
    stamp: FileStamp,
    parsed: GgufView,
    markers: bool,
    later: FileStamp,
)
    requires
        later != stamp,
    ensures
        known(Some(kept(entry, stamp, parsed, markers)), later, markers) is None,
{
}

/// Reading a file without the names of its tensors does not lose the names that were read
/// before.
pub proof fn names_are_not_lost(
    entry: CachedView,
    parsed: GgufView,
)
    ensures
        known(Some(kept(Some(entry), entry.stamp, parsed, false)), entry.stamp, true) == known(
            Some(entry),
            entry.stamp,
            true,
        ),
{
}

} // verus!
