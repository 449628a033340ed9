//! Laws of the selection engine, proved once over any selection that
//! meets `valid_selection`: conservation of transactions, the fate of
//! oversize transactions, when full placement is owed, and when a pool
//! must split across blocks.

use vstd::prelude::*;

use crate::miner::{lemma_flatten_contains, stuck_justified, valid_selection};
use crate::tx::{
    blocked_ids, has_cycle, has_id, lemma_cycle_lift, lemma_member_weight_le_total,
    lemma_totals_permutation, total_weight, unique_ids, TxModel,
};

verus! {

broadcast use
    vstd::multiset::group_multiset_axioms,
    vstd::seq_lib::group_to_multiset_ensures;

/// Conservation: each transaction's occurrences split exactly between the
/// finalized blocks and the stuck set — never both, never neither.  Over
/// a pool with unique ids each count is at most one.
pub proof fn lemma_conservation(
    input: Seq<TxModel>,
    max: int,
    blocks: Seq<Seq<TxModel>>,
    stuck: Seq<TxModel>,
    t: TxModel,
)
    requires
        valid_selection(input, max, blocks, stuck),
    ensures
        blocks.flatten().to_multiset().count(t) + stuck.to_multiset().count(t)
            == input.to_multiset().count(t),
        unique_ids(input) ==> input.to_multiset().count(t) <= 1,
{
    assert(blocks.flatten().to_multiset().add(stuck.to_multiset()).count(t)
        == blocks.flatten().to_multiset().count(t) + stuck.to_multiset().count(t));
    if unique_ids(input) {
        assert(input.no_duplicates()) by {
            assert forall|a: int, b: int|
                0 <= a < input.len() && 0 <= b < input.len() && a != b implies input[a]
                != input[b] by {
                if a < b {
                    assert(input[a].txid != input[b].txid);
                } else {
                    assert(input[b].txid != input[a].txid);
                }
            }
        }
        input.lemma_multiset_has_no_duplicates();
    }
}

/// An oversize transaction is always reported stuck and never appears in
/// any finalized block.
pub proof fn lemma_oversize_never_placed(
    input: Seq<TxModel>,
    max: int,
    blocks: Seq<Seq<TxModel>>,
    stuck: Seq<TxModel>,
    t: TxModel,
)
    requires
        valid_selection(input, max, blocks, stuck),
        input.to_multiset().count(t) > 0,
        t.weight > max,
    ensures
        forall|b: int| 0 <= b < blocks.len() ==> !(#[trigger] blocks[b]).contains(t),
        stuck.to_multiset().count(t) == input.to_multiset().count(t),
        has_id(stuck, t.txid),
{
    assert forall|b: int| 0 <= b < blocks.len() implies !(#[trigger] blocks[b]).contains(t) by {
        if blocks[b].contains(t) {
            let k = choose|k: int| 0 <= k < blocks[b].len() && blocks[b][k] == t;
            lemma_member_weight_le_total(blocks[b], k);
            assert(total_weight(blocks[b]) <= max);
            assert(false);
        }
    }
    lemma_flatten_contains(blocks, t);
    if blocks.flatten().to_multiset().count(t) > 0 {
        assert(blocks.flatten().contains(t));
        assert(false);
    }
    assert(blocks.flatten().to_multiset().add(stuck.to_multiset()).count(t)
        == blocks.flatten().to_multiset().count(t) + stuck.to_multiset().count(t));
    assert(stuck.to_multiset().count(t) > 0);
    assert(stuck.contains(t));
    let k = choose|k: int| 0 <= k < stuck.len() && stuck[k] == t;
    assert(stuck[k].txid == t.txid);
}

/// Success is owed: over an acyclic pool with unique ids and no oversize
/// transaction, the stuck set is empty — everything is placed.
pub proof fn lemma_full_placement(
    input: Seq<TxModel>,
    max: int,
    blocks: Seq<Seq<TxModel>>,
    stuck: Seq<TxModel>,
)
    requires
        valid_selection(input, max, blocks, stuck),
        unique_ids(input),
        !has_cycle(input),
        forall|k: int| 0 <= k < input.len() ==> (#[trigger] input[k]).weight <= max,
    ensures
        stuck.len() == 0,
{
    if stuck.len() > 0 {
        // the stuck set is part of the input
        assert(stuck.to_multiset().subset_of(input.to_multiset())) by {
            assert forall|x: TxModel|
                stuck.to_multiset().count(x) <= input.to_multiset().count(x) by {
                assert(blocks.flatten().to_multiset().add(stuck.to_multiset()).count(x)
                    == blocks.flatten().to_multiset().count(x) + stuck.to_multiset().count(x));
            }
        }
        // no stuck transaction is oversize, so each has a stuck parent
        assert forall|k: int| 0 <= k < stuck.len() implies (#[trigger] stuck[k]).weight
            <= max by {
            assert(stuck.contains(stuck[k]));
            assert(stuck.to_multiset().count(stuck[k]) > 0);
            assert(input.to_multiset().count(stuck[k]) > 0);
            assert(input.contains(stuck[k]));
            let j = choose|j: int| 0 <= j < input.len() && input[j] == stuck[k];
            assert(input[j].weight <= max);
        }
        // the stuck ids form a blocked set: a cycle of the input
        let s = Set::new(
            |id: Seq<char>| exists|k: int| 0 <= k < stuck.len() && stuck[k].txid == id,
        );
        assert(s.contains(stuck[0].txid));
        assert forall|id: Seq<char>| #[trigger] s.contains(id) implies exists|k: int|
            0 <= k < stuck.len() && stuck[k].txid == id && exists|m: int|
                0 <= m < stuck[k].parents.len() && s.contains(stuck[k].parents[m]) by {
            let k = choose|k: int| 0 <= k < stuck.len() && stuck[k].txid == id;
            assert(stuck_justified(stuck, max));
            assert(!(stuck[k].weight > max));
            let m = choose|m: int|
                0 <= m < stuck[k].parents.len() && has_id(stuck, #[trigger] stuck[k].parents[m]);
            let k2 = choose|k2: int|
                0 <= k2 < stuck.len() && stuck[k2].txid == stuck[k].parents[m];
            assert(s.contains(stuck[k].parents[m]));
            assert(0 <= m < stuck[k].parents.len() && s.contains(stuck[k].parents[m]));
        }
        assert(blocked_ids(stuck, s));
        assert(has_cycle(stuck));
        lemma_cycle_lift(stuck, input);
        assert(false);
    }
}

/// A fully placed pool whose total weight exceeds one cap spans at least
/// two blocks.
pub proof fn lemma_multi_block(
    input: Seq<TxModel>,
    max: int,
    blocks: Seq<Seq<TxModel>>,
    stuck: Seq<TxModel>,
)
    requires
        valid_selection(input, max, blocks, stuck),
        stuck.len() == 0,
        total_weight(input) > max,
        max >= 0,
    ensures
        blocks.len() >= 2,
{
    assert(stuck =~= Seq::<TxModel>::empty());
    assert(blocks.flatten().to_multiset() =~= input.to_multiset()) by {
        assert forall|x: TxModel|
            blocks.flatten().to_multiset().count(x) == input.to_multiset().count(x) by {
            assert(blocks.flatten().to_multiset().add(stuck.to_multiset()).count(x)
                == blocks.flatten().to_multiset().count(x) + stuck.to_multiset().count(x));
            assert(stuck.to_multiset().len() == 0);
        }
    }
    lemma_totals_permutation(blocks.flatten(), input);
    if blocks.len() == 0 {
        assert(blocks.flatten() =~= Seq::<TxModel>::empty());
        assert(total_weight(blocks.flatten()) == 0);
        assert(false);
    }
    if blocks.len() == 1 {
        assert(blocks.flatten() == blocks.first() + blocks.drop_first().flatten());
        assert(blocks.drop_first().len() == 0);
        assert(blocks.drop_first().flatten() =~= Seq::<TxModel>::empty());
        assert(blocks.flatten() =~= blocks[0]);
        assert(total_weight(blocks[0]) <= max);
        assert(false);
    }
}

} // verus!
