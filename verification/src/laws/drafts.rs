//! Laws of draft models: when two vocabularies go together.
use vstd::prelude::*;

use crate::laws::texts;
use crate::metadata::TokenizerView;
use crate::models;
use crate::models::CompatibilityView;
use crate::text;

verus! {

/// Whether a digest is the first that a list keeps for a count.
pub open spec fn kept(list: Seq<(u64, Seq<char>)>, count: u64, digest: Seq<char>) -> bool {
    exists|i: int|
        0 <= i < list.len() && #[trigger] list[i] == (count, digest) && forall|j: int|
            0 <= j < i ==> (#[trigger] list[j]).0 != count
}

/// Whether a list keeps no digest for a count.
pub open spec fn none_kept(list: Seq<(u64, Seq<char>)>, count: u64) -> bool {
    forall|i: int| 0 <= i < list.len() ==> (#[trigger] list[i]).0 != count
}

proof fn lemma_kept(list: Seq<(u64, Seq<char>)>, count: u64)
    ensures
        match models::hash_for(list, count) {
            Some(d) => kept(list, count, d) && !none_kept(list, count),
            None => none_kept(list, count),
        },
        forall|d: Seq<char>| #[trigger] kept(list, count, d) ==> models::hash_for(list, count) == Some(d),
{
    let other = models::other_count(count);
    text::lemma_run(list, other);
    let at = text::run(list, other) as int;
    assert forall|j: int| 0 <= j < at implies (#[trigger] list[j]).0 != count by {
        assert(other(list[j]));
    }
    if at < list.len() {
        assert(!other(list[at]));
        assert(list[at] == (count, list[at].1));
    }
    assert forall|d: Seq<char>| #[trigger] kept(list, count, d) implies models::hash_for(list, count)
        == Some(d) by {
        let i = choose|i: int|
            0 <= i < list.len() && #[trigger] list[i] == (count, d) && forall|j: int|
                0 <= j < i ==> (#[trigger] list[j]).0 != count;
        assert(list[i].0 == count);
        if i < at {
            assert(list[i].0 != count);
        }
        if at < i {
            assert(list[at].0 != count);
        }
    }
}

/// Whether two vocabularies are at odds over a special token: both say whether they add it and
/// do not say the same, or both add it and it is not the same.
pub open spec fn at_odds(
    add: Option<bool>,
    other_add: Option<bool>,
    id: Option<u64>,
    other_id: Option<u64>,
) -> bool {
    match (add, other_add) {
        (Some(a), Some(b)) => a != b || (a && b && match (id, other_id) {
            (Some(i), Some(j)) => i != j,
            _ => false,
        }),
        _ => false,
    }
}

/// The smaller of the two counts of tokens.
pub open spec fn shared(main: TokenizerView, draft: TokenizerView) -> u64 {
    if main.token_count <= draft.token_count {
        main.token_count
    } else {
        draft.token_count
    }
}

/// Vocabularies go together only where their sizes differ by at most 128, they are not at odds
/// over the tokens that start and end a text, and both keep the same digest of as many tokens
/// as the smaller one has. There they do; where the digests differ they do not, and where one
/// is missing it is not known.
pub proof fn compatible_vocabularies_share_their_tokens(main: TokenizerView, draft: TokenizerView)
    ensures
        ({
            let answer = models::vocabularies_agree(main, draft);
            let n = shared(main, draft);
            let apart = main.token_count - draft.token_count > 128 || draft.token_count
                - main.token_count > 128;
            let bos = at_odds(
                main.add_bos_token,
                draft.add_bos_token,
                main.bos_token_id,
                draft.bos_token_id,
            );
            let eos = at_odds(
                main.add_eos_token,
                draft.add_eos_token,
                main.eos_token_id,
                draft.eos_token_id,
            );
            &&& answer is Compatible <==> !bos && !eos && !apart && exists|d: Seq<char>|
                kept(main.prefix_hashes, n, d) && #[trigger] kept(draft.prefix_hashes, n, d)
            &&& answer is Unknown <==> !bos && !eos && !apart && (none_kept(main.prefix_hashes, n)
                || none_kept(draft.prefix_hashes, n))
            &&& (bos || eos || apart ==> answer is Incompatible)
            &&& forall|d: Seq<char>, e: Seq<char>|
                #![trigger kept(main.prefix_hashes, n, d), kept(draft.prefix_hashes, n, e)]
                kept(main.prefix_hashes, n, d) && kept(draft.prefix_hashes, n, e) && d != e
                    ==> answer is Incompatible
        }),
{
    let n = shared(main, draft);
    lemma_kept(main.prefix_hashes, n);
    lemma_kept(draft.prefix_hashes, n);
    match (models::hash_for(main.prefix_hashes, n), models::hash_for(draft.prefix_hashes, n)) {
        (Some(a), Some(b)) => {
            if a == b {
                assert(kept(main.prefix_hashes, n, a) && kept(draft.prefix_hashes, n, a));
            }
        },
        _ => {},
    }
    let answer = models::vocabularies_agree(main, draft);
    assert forall|d: Seq<char>, e: Seq<char>|
        #![trigger kept(main.prefix_hashes, n, d), kept(draft.prefix_hashes, n, e)]
        kept(main.prefix_hashes, n, d) && kept(draft.prefix_hashes, n, e) && d != e implies answer is Incompatible by {}
    if exists|d: Seq<char>| kept(main.prefix_hashes, n, d) && #[trigger] kept(draft.prefix_hashes, n, d) {
        let d = choose|d: Seq<char>|
            kept(main.prefix_hashes, n, d) && #[trigger] kept(draft.prefix_hashes, n, d);
        assert(models::hash_for(main.prefix_hashes, n) == Some(d));
    }
}

/// Whether both vocabularies say whether they add a token, and do not say the same.
pub open spec fn unlike(add: Option<bool>, other_add: Option<bool>) -> bool {
    add is Some && other_add is Some && add->0 != other_add->0
}

/// The reason names the first thing on which the vocabularies differ: the token that starts a
/// text, the one that ends it, their sizes, both of which it tells, or their tokens.
pub proof fn reasons_name_the_first_difference(main: TokenizerView, draft: TokenizerView)
    ensures
        ({
            let bos = at_odds(
                main.add_bos_token,
                draft.add_bos_token,
                main.bos_token_id,
                draft.bos_token_id,
            );
            let eos = at_odds(
                main.add_eos_token,
                draft.add_eos_token,
                main.eos_token_id,
                draft.eos_token_id,
            );
            let apart = main.token_count - draft.token_count > 128 || draft.token_count
                - main.token_count > 128;
            match models::vocabularies_agree(main, draft) {
                CompatibilityView::Compatible => true,
                CompatibilityView::Unknown(reason) => reason == "tokenizer prefix hash unavailable"@,
                CompatibilityView::Incompatible(reason) => {
                    &&& unlike(main.add_bos_token, draft.add_bos_token) ==> reason
                        == "BOS tokenizer add settings differ"@
                    &&& bos && !unlike(main.add_bos_token, draft.add_bos_token) ==> reason
                        == "BOS tokenizer token IDs differ"@
                    &&& !bos && unlike(main.add_eos_token, draft.add_eos_token) ==> reason
                        == "EOS tokenizer add settings differ"@
                    &&& !bos && eos && !unlike(main.add_eos_token, draft.add_eos_token) ==> reason
                        == "EOS tokenizer token IDs differ"@
                    &&& !bos && !eos && apart ==> exists|a: Seq<char>, b: Seq<char>|
                        #![trigger texts::worth(a), texts::worth(b)]
                        texts::worth(a) == main.token_count && texts::worth(b) == draft.token_count
                            && texts::only_digits(a) && texts::only_digits(b) && reason
                            == "vocabulary sizes differ by more than 128 ("@ + a + " vs "@ + b + ")"@
                    &&& !bos && !eos && !apart ==> reason == "tokenizer vocabulary prefixes differ"@
                },
            }
        }),
{
    reveal_strlit("BOS");
    reveal_strlit("EOS");
    reveal_strlit(" tokenizer add settings differ");
    reveal_strlit(" tokenizer token IDs differ");
    reveal_strlit("BOS tokenizer add settings differ");
    reveal_strlit("BOS tokenizer token IDs differ");
    reveal_strlit("EOS tokenizer add settings differ");
    reveal_strlit("EOS tokenizer token IDs differ");
    assert("BOS"@ + " tokenizer add settings differ"@ =~= "BOS tokenizer add settings differ"@);
    assert("BOS"@ + " tokenizer token IDs differ"@ =~= "BOS tokenizer token IDs differ"@);
    assert("EOS"@ + " tokenizer add settings differ"@ =~= "EOS tokenizer add settings differ"@);
    assert("EOS"@ + " tokenizer token IDs differ"@ =~= "EOS tokenizer token IDs differ"@);
    texts::decimals_are_worth_their_number(main.token_count as nat);
    texts::decimals_are_worth_their_number(draft.token_count as nat);
}

} // verus!
