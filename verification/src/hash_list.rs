//! Lists of blob hashes in ascending order.

use vstd::prelude::*;

use crate::byte_order::{
    lemma_lex_asymmetric, lemma_lex_transitive, lex_less, locate_bytes, Position,
};
use crate::types::{lemma_hash_extensional, BlobHash};

verus! {

/// Whether `hashes` holds exactly the hashes of `set`, each once, in ascending
/// dictionary order of their bytes.
pub open spec fn lists_hashes(hashes: Seq<BlobHash>, set: Set<BlobHash>) -> bool {
    &&& forall|i: int, j: int|
        0 <= i < j < hashes.len() ==> lex_less(#[trigger] hashes[i]@, #[trigger] hashes[j]@)
    &&& hashes.to_set() == set
}

/// A list of hashes in ascending order holds none of them twice.
pub proof fn law_hashes_listed_once(hashes: Seq<BlobHash>, set: Set<BlobHash>)
    requires
        lists_hashes(hashes, set),
    ensures
        hashes.no_duplicates(),
        set.finite(),
        set.len() == hashes.len(),
{
    assert forall|i: int, j: int| 0 <= i < hashes.len() && 0 <= j < hashes.len() && i
        != j implies hashes[i] != hashes[j] by {
        if i < j {
            lemma_lex_asymmetric(hashes[i]@, hashes[j]@);
        } else {
            lemma_lex_asymmetric(hashes[j]@, hashes[i]@);
        }
    }
    hashes.unique_seq_to_set();
    vstd::seq_lib::seq_to_set_is_finite(hashes);
}

/// Adds `hash` to an ascending list, unless the list has it.
pub(crate) fn add_hash(hashes: &mut Vec<BlobHash>, hash: BlobHash)
    requires
        lists_hashes(old(hashes)@, old(hashes)@.to_set()),
    ensures
        lists_hashes(final(hashes)@, old(hashes)@.to_set().insert(hash)),
{
    let ghost before = hashes@;
    let mut low: usize = 0;
    let mut high: usize = hashes.len();
    while low < high
        invariant
            hashes@ == before,
            low <= high <= before.len(),
            lists_hashes(before, before.to_set()),
            forall|i: int| 0 <= i < low ==> lex_less(#[trigger] before[i]@, hash@),
            forall|i: int| high <= i < before.len() ==> lex_less(hash@, #[trigger] before[i]@),
        decreases high - low,
    {
        let middle: usize = low + (high - low) / 2;
        let ghost at = middle as int;
        match locate_bytes(hashes[middle].as_bytes().as_slice(), hash.as_bytes().as_slice()) {
            Position::Before => {
                proof {
                    assert forall|i: int| 0 <= i < middle + 1 implies lex_less(
                        #[trigger] before[i]@,
                        hash@,
                    ) by {
                        if i < at {
                            lemma_lex_transitive(before[i]@, before[at]@, hash@);
                        }
                    }
                }
                low = middle + 1;
            },
            Position::Same => {
                proof {
                    lemma_hash_extensional(before[at], hash);
                    assert(before.to_set().contains(hash));
                    assert(before.to_set().insert(hash) =~= before.to_set());
                }
                return ;
            },
            Position::After => {
                proof {
                    assert forall|i: int| middle <= i < before.len() implies lex_less(
                        hash@,
                        #[trigger] before[i]@,
                    ) by {
                        if at < i {
                            lemma_lex_transitive(hash@, before[at]@, before[i]@);
                        }
                    }
                }
                high = middle;
            },
        }
    }
    hashes.insert(low, hash);
    proof {
        let after = hashes@;
        let at = low as int;
        assert forall|i: int, j: int| 0 <= i < j < after.len() implies lex_less(
            #[trigger] after[i]@,
            #[trigger] after[j]@,
        ) by {
            let old_i = if i < at { i } else { i - 1 };
            let old_j = if j < at { j } else { j - 1 };
            if i != at && j != at {
                assert(lex_less(before[old_i]@, before[old_j]@));
            } else if i == at {
                assert(lex_less(hash@, before[old_j]@));
            } else {
                assert(lex_less(before[old_i]@, hash@));
            }
        }
        assert forall|h: BlobHash| after.to_set().contains(h) == before.to_set().insert(
            hash,
        ).contains(h) by {
            if h == hash {
                assert(after[at] == h);
            }
            if before.contains(h) {
                let i = choose|i: int| 0 <= i < before.len() && before[i] == h;
                let new_i = if i < at { i } else { i + 1 };
                assert(after[new_i] == h);
            }
            if after.contains(h) {
                let i = choose|i: int| 0 <= i < after.len() && after[i] == h;
                if i != at {
                    let old_i = if i < at { i } else { i - 1 };
                    assert(before[old_i] == h);
                }
            }
        }
        assert(after.to_set() =~= before.to_set().insert(hash));
    }
}

} // verus!
