//! The block partitioner and the `Miner` that owns the pool.  Each round it
//! recomputes package metrics over the shrunken pool, ranks the pool,
//! admits one block, confirms the block's ids, and rolls the deferred
//! residue into the next round's pool.  It stops when the pool is drained
//! or when a round admits nothing, in which case the residue is reported
//! as the stuck set beside the finalized blocks.

use vstd::prelude::*;
use vstd::multiset::Multiset;

use crate::admission::{admit_block, admissible, block_ordered, still_blocked};
use crate::ancestry::package_metrics;
use crate::errors::SelectError;
use crate::rank::{carried, rank, ranked_views};
use crate::tx::{
    has_cycle, has_id, id_views, lemma_cycle_lift, lemma_has_id_lift, lemma_prefix_monotone,
    lemma_prefix_fee_is_total, lemma_prefix_weight_is_total, lemma_sub_pool_wf,
    lemma_totals_subset, positive_weights, prefix_fee, prefix_weight, total_fee, total_weight,
    unique_ids, views_of, Transaction, TxModel,
};
use crate::MAX_BLOCK_TX_WEIGHT;

verus! {

broadcast use
    vstd::multiset::group_multiset_axioms,
    vstd::seq_lib::group_to_multiset_ensures,
    vstd::seq_lib::lemma_multiset_commutative;

/// The id occurs in a block before block `b`, or in block `b` before
/// position `i`.
pub open spec fn placed_in_prefix(
    blocks: Seq<Seq<TxModel>>,
    b: int,
    i: int,
    id: Seq<char>,
) -> bool {
    (exists|b2: int| 0 <= b2 < b && b2 < blocks.len() && #[trigger] has_id(blocks[b2], id)) || (
    0 <= b < blocks.len() && exists|i2: int|
        0 <= i2 < i && i2 < blocks[b].len() && (#[trigger] blocks[b][i2]).txid == id)
}

/// Every pool-resident parent of every placed transaction is placed
/// strictly before it, in the same block or an earlier one.
pub open spec fn parents_ordered(input: Seq<TxModel>, blocks: Seq<Seq<TxModel>>) -> bool {
    forall|b: int, i: int, m: int|
        0 <= b < blocks.len() && 0 <= i < blocks[b].len() && 0 <= m < blocks[b][i].parents.len()
            && has_id(input, #[trigger] blocks[b][i].parents[m]) ==> placed_in_prefix(
            blocks,
            b,
            i,
            blocks[b][i].parents[m],
        )
}

/// Every stuck transaction is oversize for the cap, or depends on a
/// pool-resident parent that is itself stuck.
pub open spec fn stuck_justified(stuck: Seq<TxModel>, max: int) -> bool {
    forall|k: int|
        0 <= k < stuck.len() ==> (#[trigger] stuck[k]).weight > max || exists|m: int|
            0 <= m < stuck[k].parents.len() && has_id(stuck, #[trigger] stuck[k].parents[m])
}

/// The ids of a pool, in pool order.
pub open spec fn ids_of(pool: Seq<TxModel>) -> Seq<Seq<char>> {
    pool.map_values(|t: TxModel| t.txid)
}

/// The pool snapshot from which block `b` was built: everything that ends
/// in block `b` or a later one, or in the stuck set.
pub open spec fn round_pool(
    blocks: Seq<Seq<TxModel>>,
    stuck: Seq<TxModel>,
    b: int,
) -> Seq<TxModel> {
    blocks.skip(b).flatten() + stuck
}

/// Earlier blocks are filled maximally before later ones receive
/// overflow: when block `b` was finalized, every transaction that ended
/// in a later block or in the stuck set was still blocked for it — it no
/// longer fit the block's residual weight budget, or a parent resident in
/// that round's pool was neither confirmed nor inside the block.
pub open spec fn blocks_maximal(
    max: int,
    blocks: Seq<Seq<TxModel>>,
    stuck: Seq<TxModel>,
) -> bool {
    forall|b: int, t: TxModel|
        0 <= b < blocks.len() && #[trigger] round_pool(blocks, stuck, b + 1).to_multiset().count(t)
            > 0 ==> still_blocked(
            round_pool(blocks, stuck, b),
            ids_of(blocks.subrange(0, b).flatten()),
            blocks[b],
            max,
            t,
        )
}

/// What a finished selection promises: every block within the weight cap
/// and nonempty; the blocks and the stuck set together carry exactly the
/// input transactions; parents placed before their dependents; every
/// block filled maximally before the next began; and every stuck
/// transaction genuinely unplaceable.
pub open spec fn valid_selection(
    input: Seq<TxModel>,
    max: int,
    blocks: Seq<Seq<TxModel>>,
    stuck: Seq<TxModel>,
) -> bool {
    &&& forall|b: int| 0 <= b < blocks.len() ==> total_weight(#[trigger] blocks[b]) <= max
    &&& forall|b: int| 0 <= b < blocks.len() ==> (#[trigger] blocks[b]).len() > 0
    &&& blocks.flatten().to_multiset().add(stuck.to_multiset()) == input.to_multiset()
    &&& parents_ordered(input, blocks)
    &&& blocks_maximal(max, blocks, stuck)
    &&& stuck_justified(stuck, max)
}

/// `still_blocked` depends on the round pool only through id residency
/// and on the confirmed list only through membership, so both may be
/// exchanged for equivalents.
proof fn lemma_still_blocked_swap(
    p1: Seq<TxModel>,
    p2: Seq<TxModel>,
    c1: Seq<Seq<char>>,
    c2: Seq<Seq<char>>,
    block: Seq<TxModel>,
    max: int,
    t: TxModel,
)
    requires
        p1.to_multiset() == p2.to_multiset(),
        forall|id: Seq<char>| #[trigger] c1.contains(id) <==> c2.contains(id),
        still_blocked(p1, c1, block, max, t),
    ensures
        still_blocked(p2, c2, block, max, t),
{
    if !(total_weight(block) + t.weight > max) {
        let m = choose|m: int|
            0 <= m < t.parents.len() && has_id(p1, #[trigger] t.parents[m]) && !c1.contains(
                t.parents[m],
            ) && !has_id(block, t.parents[m]);
        assert(p1.to_multiset().subset_of(p2.to_multiset()));
        crate::tx::lemma_has_id_lift(p1, p2, t.parents[m]);
        assert(has_id(p2, t.parents[m]) && !c2.contains(t.parents[m]) && !has_id(
            block,
            t.parents[m],
        ));
    }
}

/// Membership among a pool's ids is residency in the pool.
proof fn lemma_ids_of_contains(pool: Seq<TxModel>, id: Seq<char>)
    ensures
        ids_of(pool).contains(id) <==> has_id(pool, id),
{
    if ids_of(pool).contains(id) {
        let k = choose|k: int| 0 <= k < ids_of(pool).len() && ids_of(pool)[k] == id;
        assert(pool[k].txid == id);
    }
    if has_id(pool, id) {
        let k = choose|k: int| 0 <= k < pool.len() && pool[k].txid == id;
        assert(ids_of(pool)[k] == id);
    }
}

/// The views of a finalized block list.
pub open spec fn block_views(blocks: Seq<Vec<Transaction>>) -> Seq<Seq<TxModel>> {
    blocks.map_values(|b: Vec<Transaction>| views_of(b@))
}

/// An empty pool has no cycle.
proof fn lemma_empty_no_cycle(pool: Seq<TxModel>)
    requires
        pool.len() == 0,
    ensures
        !has_cycle(pool),
{
    if has_cycle(pool) {
        let (s, id) = choose|s: Set<Seq<char>>, id: Seq<char>|
            s.contains(id) && crate::tx::blocked_ids(pool, s);
        assert(s.contains(id));
        let k = choose|k: int| 0 <= k < pool.len() && pool[k].txid == id;
        assert(false);
    }
}

/// An id is resident in a flattened block list exactly when it is
/// resident in one of its blocks.
proof fn lemma_flatten_has_id(bs: Seq<Seq<TxModel>>, p: Seq<char>)
    ensures
        has_id(bs.flatten(), p) <==> exists|b2: int|
            0 <= b2 < bs.len() && has_id(#[trigger] bs[b2], p),
{
    if has_id(bs.flatten(), p) {
        let k = choose|k: int| 0 <= k < bs.flatten().len() && bs.flatten()[k].txid == p;
        let x = bs.flatten()[k];
        assert(bs.flatten().contains(x));
        lemma_flatten_contains(bs, x);
        let b2 = choose|b2: int| 0 <= b2 < bs.len() && bs[b2].contains(x);
        let k2 = choose|k2: int| 0 <= k2 < bs[b2].len() && bs[b2][k2] == x;
        assert(has_id(bs[b2], p));
    }
    if exists|b2: int| 0 <= b2 < bs.len() && has_id(#[trigger] bs[b2], p) {
        let b2 = choose|b2: int| 0 <= b2 < bs.len() && has_id(bs[b2], p);
        let k = choose|k: int| 0 <= k < bs[b2].len() && bs[b2][k].txid == p;
        let x = bs[b2][k];
        assert(bs[b2].contains(x));
        lemma_flatten_contains(bs, x);
        assert(bs.flatten().contains(x));
        let k2 = choose|k2: int| 0 <= k2 < bs.flatten().len() && bs.flatten()[k2] == x;
        assert(has_id(bs.flatten(), p));
    }
}

/// Membership in a flattened block list is membership in one of its blocks.
pub proof fn lemma_flatten_contains(bs: Seq<Seq<TxModel>>, x: TxModel)
    ensures
        bs.flatten().contains(x) <==> exists|b: int|
            0 <= b < bs.len() && #[trigger] bs[b].contains(x),
    decreases bs.len(),
{
    if bs.len() == 0 {
    } else {
        lemma_flatten_contains(bs.drop_first(), x);
        assert(bs.flatten() == bs.first() + bs.drop_first().flatten());
        if bs.flatten().contains(x) {
            let p = choose|p: int| 0 <= p < bs.flatten().len() && bs.flatten()[p] == x;
            if p < bs.first().len() {
                assert(bs[0].contains(x));
            } else {
                assert(bs.drop_first().flatten()[p - bs.first().len()] == x);
                assert(bs.drop_first().flatten().contains(x));
                let b = choose|b: int|
                    0 <= b < bs.drop_first().len() && bs.drop_first()[b].contains(x);
                assert(bs[b + 1].contains(x));
            }
        }
        if exists|b: int| 0 <= b < bs.len() && #[trigger] bs[b].contains(x) {
            let b = choose|b: int| 0 <= b < bs.len() && bs[b].contains(x);
            if b == 0 {
                let i = choose|i: int| 0 <= i < bs[0].len() && bs[0][i] == x;
                assert(bs.flatten()[i] == x);
            } else {
                assert(bs.drop_first()[b - 1].contains(x));
                assert(bs.drop_first().flatten().contains(x));
                let p = choose|p: int|
                    0 <= p < bs.drop_first().flatten().len() && bs.drop_first().flatten()[p] == x;
                assert(bs.flatten()[p + bs.first().len()] == x);
            }
        }
    }
}

/// Clones a pool, value for value.
pub fn clone_txs(v: &Vec<Transaction>) -> (r: Vec<Transaction>)
    ensures
        views_of(r@) == views_of(v@),
{
    let mut r: Vec<Transaction> = Vec::new();
    let mut i: usize = 0;
    while i < v.len()
        invariant
            i <= v@.len(),
            r@.len() == i,
            forall|k: int| 0 <= k < i ==> views_of(r@)[k] == views_of(v@)[k],
        decreases v@.len() - i,
    {
        let ghost old_r = r@;
        r.push(v[i].clone());
        proof {
            assert forall|k: int| 0 <= k < i + 1 implies views_of(r@)[k] == views_of(v@)[k] by {
                assert(views_of(r@)[k] == r@[k]@);
                if k < i {
                    assert(r@[k] == old_r[k]);
                    assert(views_of(old_r)[k] == old_r[k]@);
                }
            }
        }
        i = i + 1;
    }
    proof {
        assert(views_of(r@) =~= views_of(v@));
    }
    r
}

/// Drains the pool into weight-capped, dependency-ordered blocks plus the
/// unplaceable residue, or reports a dependency cycle.
#[verifier::rlimit(100)]
pub fn select_blocks(pool_in: Vec<Transaction>, max_weight: u32) -> (r: Result<
    (Vec<Vec<Transaction>>, Vec<Transaction>),
    SelectError,
>)
    requires
        unique_ids(views_of(pool_in@)),
        positive_weights(views_of(pool_in@)),
        total_fee(views_of(pool_in@)) <= u64::MAX,
        total_weight(views_of(pool_in@)) <= u64::MAX,
    ensures
        match r {
            Ok(sel) => !has_cycle(views_of(pool_in@)) && valid_selection(
                views_of(pool_in@),
                max_weight as int,
                block_views(sel.0@),
                views_of(sel.1@),
            ),
            Err(e) => has_cycle(views_of(pool_in@)) && match e {
                SelectError::Cycle { txid } => has_id(views_of(pool_in@), txid@),
                _ => false,
            },
        },
{
    let ghost input = views_of(pool_in@);
    let mut pool = pool_in;
    let mut blocks: Vec<Vec<Transaction>> = Vec::new();
    let mut confirmed: Vec<String> = Vec::new();
    proof {
        assert(block_views(blocks@) =~= Seq::<Seq<TxModel>>::empty());
        assert(block_views(blocks@).flatten() =~= Seq::<TxModel>::empty());
        assert(block_views(blocks@).flatten().to_multiset().add(
            views_of(pool@).to_multiset(),
        ) =~= views_of(pool@).to_multiset());
    }
    loop
        invariant
            input == views_of(pool_in@),
            unique_ids(input),
            positive_weights(input),
            total_fee(input) <= u64::MAX,
            total_weight(input) <= u64::MAX,
            block_views(blocks@).flatten().to_multiset().add(views_of(pool@).to_multiset())
                == input.to_multiset(),
            forall|b: int|
                0 <= b < blocks@.len() ==> total_weight(#[trigger] block_views(blocks@)[b])
                    <= max_weight as int,
            forall|b: int|
                0 <= b < blocks@.len() ==> (#[trigger] block_views(blocks@)[b]).len() > 0,
            parents_ordered(input, block_views(blocks@)),
            // each finalized block was filled maximally against what remained
            forall|b: int, t: TxModel|
                0 <= b < blocks@.len() && #[trigger] (block_views(blocks@).skip(b + 1).flatten()
                    + views_of(pool@)).to_multiset().count(t) > 0 ==> still_blocked(
                    block_views(blocks@).skip(b).flatten() + views_of(pool@),
                    ids_of(block_views(blocks@).subrange(0, b).flatten()),
                    block_views(blocks@)[b],
                    max_weight as int,
                    t,
                ),
            forall|p: Seq<char>|
                #[trigger] id_views(confirmed@).contains(p) <==> exists|b2: int|
                    0 <= b2 < blocks@.len() && has_id(#[trigger] block_views(blocks@)[b2], p),
            blocks@.len() == 0 ==> views_of(pool@) == input,
            blocks@.len() > 0 ==> !has_cycle(input),
        decreases views_of(pool@).len(),
    {
        let ghost bm = block_views(blocks@);
        let ghost pv = views_of(pool@);
        let ghost cids = id_views(confirmed@);
        if pool.len() == 0 {
            let stuck: Vec<Transaction> = Vec::new();
            proof {
                if blocks@.len() == 0 {
                    lemma_empty_no_cycle(input);
                }
                assert(views_of(stuck@) =~= pv);
                assert(bm.flatten().to_multiset().add(views_of(stuck@).to_multiset())
                    == input.to_multiset());
                assert(views_of(stuck@).len() == 0);
                assert(stuck_justified(views_of(stuck@), max_weight as int));
                assert forall|b: int, t: TxModel|
                    0 <= b < bm.len() && #[trigger] round_pool(
                        bm,
                        views_of(stuck@),
                        b + 1,
                    ).to_multiset().count(t) > 0 implies still_blocked(
                    round_pool(bm, views_of(stuck@), b),
                    ids_of(bm.subrange(0, b).flatten()),
                    bm[b],
                    max_weight as int,
                    t,
                ) by {
                    assert(views_of(stuck@) == pv);
                    assert((bm.skip(b + 1).flatten() + pv).to_multiset().count(t) > 0);
                }
                assert(blocks_maximal(max_weight as int, bm, views_of(stuck@)));
            }
            return Ok((blocks, stuck));
        }
        proof {
            assert(pv.to_multiset().subset_of(input.to_multiset())) by {
                assert forall|x: TxModel|
                    pv.to_multiset().count(x) <= input.to_multiset().count(x) by {
                    assert(bm.flatten().to_multiset().count(x) + pv.to_multiset().count(x)
                        == input.to_multiset().count(x));
                }
            }
            lemma_sub_pool_wf(pv, input);
            lemma_totals_subset(pv, input);
        }
        let metrics = match package_metrics(&pool) {
            Ok(m) => m,
            Err(e) => {
                proof {
                    lemma_cycle_lift(pv, input);
                    if let SelectError::Cycle { txid } = &e {
                        lemma_has_id_lift(pv, input, txid@);
                    }
                    if blocks@.len() > 0 {
                        assert(false);
                    }
                }
                return Err(e);
            },
        };
        proof {
            assert forall|i: int| 0 <= i < metrics@.len() implies #[trigger] metrics@[i].weight
                >= 1 by {
                assert(pv[i].fee <= metrics@[i].fee);
                assert(pv[i].weight >= 1);
            }
        }
        let ranked = rank(pool, &metrics);
        let ghost rpool = carried(ranked_views(ranked@));
        proof {
            assert(rpool.to_multiset() == pv.to_multiset());
        }
        let admitted = admit_block(ranked, &confirmed, max_weight);
        let block = admitted.0;
        let deferred = admitted.1;
        let ghost bv = views_of(block@);
        let ghost dv = views_of(deferred@);
        proof {
            assert(bv.to_multiset().add(dv.to_multiset()) == pv.to_multiset());
        }
        if block.len() == 0 {
            proof {
                assert(bv.to_multiset() =~= Multiset::<TxModel>::empty());
                assert(dv.to_multiset() =~= pv.to_multiset());
                if blocks@.len() == 0 {
                    assert(pv == input);
                }
                // every deferred transaction is oversize or blocked by a
                // stuck parent
                assert forall|k: int| 0 <= k < dv.len() implies (#[trigger] dv[k]).weight
                    > max_weight as int || exists|m: int|
                    0 <= m < dv[k].parents.len() && has_id(dv, #[trigger] dv[k].parents[m]) by {
                    assert(still_blocked(rpool, cids, bv, max_weight as int, dv[k]));
                    assert(total_weight(bv) == 0);
                    if !(dv[k].weight > max_weight as int) {
                        let m = choose|m: int|
                            0 <= m < dv[k].parents.len() && has_id(
                                rpool,
                                #[trigger] dv[k].parents[m],
                            ) && !cids.contains(dv[k].parents[m]) && !has_id(
                                bv,
                                dv[k].parents[m],
                            );
                        assert(rpool.to_multiset().subset_of(dv.to_multiset()));
                        lemma_has_id_lift(rpool, dv, dv[k].parents[m]);
                    }
                }
                assert(stuck_justified(dv, max_weight as int));
                assert(bm.flatten().to_multiset().add(dv.to_multiset()) == input.to_multiset());
                assert(!has_cycle(input));
                assert forall|b: int, t: TxModel|
                    0 <= b < bm.len() && #[trigger] round_pool(bm, dv, b + 1).to_multiset().count(
                        t,
                    ) > 0 implies still_blocked(
                    round_pool(bm, dv, b),
                    ids_of(bm.subrange(0, b).flatten()),
                    bm[b],
                    max_weight as int,
                    t,
                ) by {
                    // the deferred residue carries the same transactions as
                    // this round's pool, so the loop's form applies
                    assert((bm.skip(b + 1).flatten() + dv).to_multiset() == bm.skip(
                        b + 1,
                    ).flatten().to_multiset().add(dv.to_multiset()));
                    assert((bm.skip(b + 1).flatten() + pv).to_multiset() == bm.skip(
                        b + 1,
                    ).flatten().to_multiset().add(pv.to_multiset()));
                    assert((bm.skip(b + 1).flatten() + pv).to_multiset().count(t) > 0);
                    assert(still_blocked(
                        bm.skip(b).flatten() + pv,
                        ids_of(bm.subrange(0, b).flatten()),
                        bm[b],
                        max_weight as int,
                        t,
                    ));
                    assert((bm.skip(b).flatten() + dv).to_multiset() == bm.skip(
                        b,
                    ).flatten().to_multiset().add(dv.to_multiset()));
                    assert((bm.skip(b).flatten() + pv).to_multiset() == bm.skip(
                        b,
                    ).flatten().to_multiset().add(pv.to_multiset()));
                    assert((bm.skip(b).flatten() + pv).to_multiset() =~= (bm.skip(b).flatten()
                        + dv).to_multiset());
                    lemma_still_blocked_swap(
                        bm.skip(b).flatten() + pv,
                        bm.skip(b).flatten() + dv,
                        ids_of(bm.subrange(0, b).flatten()),
                        ids_of(bm.subrange(0, b).flatten()),
                        bm[b],
                        max_weight as int,
                        t,
                    );
                }
                assert(blocks_maximal(max_weight as int, bm, dv));
            }
            return Ok((blocks, deferred));
        }
        // confirm the block's ids
        let ghost old_cids = id_views(confirmed@);
        let mut bi: usize = 0;
        while bi < block.len()
            invariant
                bv == views_of(block@),
                bi <= block@.len(),
                id_views(confirmed@).len() == old_cids.len() + bi,
                forall|k: int| 0 <= k < old_cids.len() ==> id_views(confirmed@)[k] == old_cids[k],
                forall|k: int|
                    0 <= k < bi ==> id_views(confirmed@)[old_cids.len() + k] == bv[k].txid,
            decreases block@.len() - bi,
        {
            let ghost oc = confirmed@;
            confirmed.push(block[bi].txid.clone());
            proof {
                assert forall|k: int| 0 <= k < oc.len() implies id_views(confirmed@)[k]
                    == id_views(oc)[k] by {
                    assert(confirmed@[k] == oc[k]);
                }
                assert(id_views(confirmed@)[oc.len() as int] == bv[bi as int].txid);
            }
            bi = bi + 1;
        }
        proof {
            // confirmed ids now mean: placed in some block, the new one included
            assert forall|p: Seq<char>| #[trigger]
                id_views(confirmed@).contains(p) <==> old_cids.contains(p) || has_id(bv, p) by {
                let nc = id_views(confirmed@);
                if nc.contains(p) {
                    let k = choose|k: int| 0 <= k < nc.len() && nc[k] == p;
                    if k < old_cids.len() {
                        assert(old_cids[k] == p);
                        assert(old_cids.contains(p));
                    } else {
                        assert(bv[k - old_cids.len()].txid == p);
                    }
                }
                if old_cids.contains(p) {
                    let k = choose|k: int| 0 <= k < old_cids.len() && old_cids[k] == p;
                    assert(nc[k] == p);
                }
                if has_id(bv, p) {
                    let k = choose|k: int| 0 <= k < bv.len() && bv[k].txid == p;
                    assert(nc[old_cids.len() + k] == p);
                }
            }
        }
        let ghost old_bm = block_views(blocks@);
        blocks.push(block);
        pool = deferred;
        proof {
            let nbm = block_views(blocks@);
            assert(nbm =~= old_bm.push(bv));
            old_bm.lemma_flatten_push(bv);
            assert(nbm.flatten() =~= old_bm.flatten() + bv);
            // conservation carries over
            assert(nbm.flatten().to_multiset().add(dv.to_multiset()) =~= input.to_multiset());
            // weight caps and nonemptiness
            assert forall|b: int| 0 <= b < nbm.len() implies total_weight(#[trigger] nbm[b])
                <= max_weight as int && nbm[b].len() > 0 by {
                if b < old_bm.len() {
                    assert(nbm[b] == old_bm[b]);
                } else {
                    assert(nbm[b] == bv);
                }
            }
            // parent ordering carries over and holds of the new block
            assert forall|b: int, i: int, m: int|
                0 <= b < nbm.len() && 0 <= i < nbm[b].len() && 0 <= m < nbm[b][i].parents.len()
                    && has_id(input, #[trigger] nbm[b][i].parents[m]) implies placed_in_prefix(
                nbm,
                b,
                i,
                nbm[b][i].parents[m],
            ) by {
                let p = nbm[b][i].parents[m];
                if b < old_bm.len() {
                    assert(nbm[b] == old_bm[b]);
                    assert(placed_in_prefix(old_bm, b, i, p));
                    if exists|b2: int|
                        0 <= b2 < b && b2 < old_bm.len() && #[trigger] has_id(old_bm[b2], p) {
                        let b2 = choose|b2: int|
                            0 <= b2 < b && b2 < old_bm.len() && #[trigger] has_id(old_bm[b2], p);
                        assert(has_id(nbm[b2], p));
                    }
                } else {
                    assert(nbm[b] == bv);
                    assert(block_ordered(rpool, old_cids, bv));
                    assert(admissible(rpool, old_cids, bv.subrange(0, i), bv[i]));
                    if old_cids.contains(p) {
                        let b2 = choose|b2: int|
                            0 <= b2 < old_bm.len() && has_id(#[trigger] old_bm[b2], p);
                        assert(has_id(nbm[b2], p));
                    } else if has_id(bv.subrange(0, i), p) {
                        let i2 = choose|i2: int|
                            0 <= i2 < i && bv.subrange(0, i)[i2].txid == p;
                        assert(nbm[b][i2].txid == p);
                    } else {
                        // the parent is resident in the input but no longer in
                        // this round's pool, so it sits in an earlier block
                        assert(!has_id(rpool, p));
                        assert(pv.to_multiset().subset_of(rpool.to_multiset()));
                        let k = choose|k: int| 0 <= k < input.len() && input[k].txid == p;
                        let x = input[k];
                        assert(input.contains(x));
                        assert(input.to_multiset().count(x) > 0);
                        assert(old_bm.flatten().to_multiset().count(x) + pv.to_multiset().count(
                            x,
                        ) == input.to_multiset().count(x));
                        if pv.to_multiset().count(x) > 0 {
                            assert(pv.contains(x));
                            let k2 = choose|k2: int| 0 <= k2 < pv.len() && pv[k2] == x;
                            lemma_has_id_lift(pv, rpool, p);
                            assert(false);
                        }
                        assert(old_bm.flatten().contains(x));
                        lemma_flatten_contains(old_bm, x);
                        let b2 = choose|b2: int|
                            0 <= b2 < old_bm.len() && #[trigger] old_bm[b2].contains(x);
                        let k3 = choose|k3: int| 0 <= k3 < old_bm[b2].len() && old_bm[b2][k3] == x;
                        assert(has_id(nbm[b2], p));
                    }
                }
            }
            // the confirmed-id invariant in its new shape
            assert forall|p: Seq<char>|
                #[trigger] id_views(confirmed@).contains(p) <==> exists|b2: int|
                    0 <= b2 < blocks@.len() && has_id(#[trigger] nbm[b2], p) by {
                if id_views(confirmed@).contains(p) {
                    if old_cids.contains(p) {
                        let b2 = choose|b2: int|
                            0 <= b2 < old_bm.len() && has_id(#[trigger] old_bm[b2], p);
                        assert(has_id(nbm[b2], p));
                    } else {
                        assert(has_id(bv, p));
                        assert(has_id(nbm[old_bm.len() as int], p));
                    }
                }
                if exists|b2: int| 0 <= b2 < blocks@.len() && has_id(#[trigger] nbm[b2], p) {
                    let b2 = choose|b2: int| 0 <= b2 < blocks@.len() && has_id(#[trigger] nbm[b2], p);
                    if b2 < old_bm.len() {
                        assert(has_id(old_bm[b2], p));
                        assert(old_cids.contains(p));
                    } else {
                        assert(has_id(bv, p));
                    }
                }
            }
            // no cycle once a block exists
            if old_bm.len() == 0 {
                assert(pv == input);
            }
            // each block, the new one included, was filled maximally
            assert forall|b: int, t: TxModel|
                0 <= b < blocks@.len() && #[trigger] (block_views(blocks@).skip(b + 1).flatten()
                    + views_of(pool@)).to_multiset().count(t) > 0 implies still_blocked(
                block_views(blocks@).skip(b).flatten() + views_of(pool@),
                ids_of(block_views(blocks@).subrange(0, b).flatten()),
                block_views(blocks@)[b],
                max_weight as int,
                t,
            ) by {
                let cur = block_views(blocks@);
                assert(views_of(pool@) == dv);
                assert(bv.to_multiset().add(dv.to_multiset()) == pv.to_multiset());
                if b < old_bm.len() {
                    assert(cur.skip(b + 1) =~= old_bm.skip(b + 1).push(bv));
                    old_bm.skip(b + 1).lemma_flatten_push(bv);
                    assert(cur.skip(b + 1).flatten() == old_bm.skip(b + 1).flatten() + bv);
                    assert(((old_bm.skip(b + 1).flatten() + bv) + dv).to_multiset() == (old_bm.skip(
                        b + 1,
                    ).flatten() + bv).to_multiset().add(dv.to_multiset()));
                    assert((old_bm.skip(b + 1).flatten() + bv).to_multiset() == old_bm.skip(
                        b + 1,
                    ).flatten().to_multiset().add(bv.to_multiset()));
                    assert((old_bm.skip(b + 1).flatten() + pv).to_multiset() == old_bm.skip(
                        b + 1,
                    ).flatten().to_multiset().add(pv.to_multiset()));
                    assert((old_bm.skip(b + 1).flatten() + pv).to_multiset().count(t) > 0);
                    assert(still_blocked(
                        old_bm.skip(b).flatten() + pv,
                        ids_of(old_bm.subrange(0, b).flatten()),
                        old_bm[b],
                        max_weight as int,
                        t,
                    ));
                    assert(cur.skip(b) =~= old_bm.skip(b).push(bv));
                    old_bm.skip(b).lemma_flatten_push(bv);
                    assert(cur.skip(b).flatten() == old_bm.skip(b).flatten() + bv);
                    assert(((old_bm.skip(b).flatten() + bv) + dv).to_multiset() == (old_bm.skip(
                        b,
                    ).flatten() + bv).to_multiset().add(dv.to_multiset()));
                    assert((old_bm.skip(b).flatten() + bv).to_multiset() == old_bm.skip(
                        b,
                    ).flatten().to_multiset().add(bv.to_multiset()));
                    assert((old_bm.skip(b).flatten() + pv).to_multiset() == old_bm.skip(
                        b,
                    ).flatten().to_multiset().add(pv.to_multiset()));
                    assert((old_bm.skip(b).flatten() + pv).to_multiset() =~= (cur.skip(b).flatten()
                        + dv).to_multiset());
                    assert(cur.subrange(0, b) =~= old_bm.subrange(0, b));
                    lemma_still_blocked_swap(
                        old_bm.skip(b).flatten() + pv,
                        cur.skip(b).flatten() + dv,
                        ids_of(old_bm.subrange(0, b).flatten()),
                        ids_of(cur.subrange(0, b).flatten()),
                        old_bm[b],
                        max_weight as int,
                        t,
                    );
                    assert(cur[b] == old_bm[b]);
                } else {
                    assert(b == old_bm.len());
                    assert(cur[b] == bv);
                    assert(cur.skip(b + 1) =~= Seq::<Seq<TxModel>>::empty());
                    assert(cur.skip(b + 1).flatten() =~= Seq::<TxModel>::empty());
                    assert((cur.skip(b + 1).flatten() + dv) =~= dv);
                    assert(dv.to_multiset().count(t) > 0);
                    assert(dv.contains(t));
                    let k = choose|k: int| 0 <= k < dv.len() && dv[k] == t;
                    assert(still_blocked(rpool, cids, bv, max_weight as int, dv[k]));
                    assert(cur.skip(b) =~= Seq::<Seq<TxModel>>::empty().push(bv));
                    Seq::<Seq<TxModel>>::empty().lemma_flatten_push(bv);
                    assert(Seq::<Seq<TxModel>>::empty().flatten() =~= Seq::<TxModel>::empty());
                    assert(cur.skip(b).flatten() =~= bv);
                    assert(cur.subrange(0, b) =~= old_bm);
                    assert forall|id: Seq<char>| #[trigger] cids.contains(id) <==> ids_of(
                        cur.subrange(0, b).flatten(),
                    ).contains(id) by {
                        lemma_ids_of_contains(old_bm.flatten(), id);
                        lemma_flatten_has_id(old_bm, id);
                    }
                    assert((bv + dv).to_multiset() =~= rpool.to_multiset()) by {
                        assert((bv + dv).to_multiset() == bv.to_multiset().add(dv.to_multiset()));
                        assert(rpool.to_multiset() == pv.to_multiset());
                    }
                    lemma_still_blocked_swap(
                        rpool,
                        bv + dv,
                        cids,
                        ids_of(cur.subrange(0, b).flatten()),
                        bv,
                        max_weight as int,
                        t,
                    );
                    assert(cur.skip(b).flatten() + dv == bv + dv);
                }
            }
            // the pool strictly shrank
            assert(bv.to_multiset().len() + dv.to_multiset().len() == pv.to_multiset().len());
            assert(dv.len() < pv.len());
        }
    }
}

/// The selection engine's owner: the pending pool, the finalized blocks,
/// and the stuck residue of the last run.
pub struct Miner {
    mempool: Vec<Transaction>,
    finalized: Vec<Vec<Transaction>>,
    stuck: Vec<Transaction>,
}

impl Miner {
    /// The model of the pending pool.
    pub closed spec fn pool_model(&self) -> Seq<TxModel> {
        views_of(self.mempool@)
    }

    /// The model of the finalized block list.
    pub closed spec fn blocks_model(&self) -> Seq<Seq<TxModel>> {
        block_views(self.finalized@)
    }

    /// The model of the stuck residue.
    pub closed spec fn stuck_model(&self) -> Seq<TxModel> {
        views_of(self.stuck@)
    }

    /// A well-formed pool: unique ids, strictly positive weights, and
    /// totals the engine's 64-bit package arithmetic can carry.
    pub open spec fn wf(&self) -> bool {
        &&& unique_ids(self.pool_model())
        &&& positive_weights(self.pool_model())
        &&& total_fee(self.pool_model()) <= u64::MAX
        &&& total_weight(self.pool_model()) <= u64::MAX
    }

    /// Ingests a pool, rejecting duplicate ids, zero weights, and totals
    /// beyond the engine's arithmetic range.
    pub fn from_transactions(txs: Vec<Transaction>) -> (r: Result<Miner, SelectError>)
        ensures
            match r {
                Ok(m) => {
                    &&& m.wf()
                    &&& m.pool_model() == views_of(txs@)
                    &&& m.blocks_model().len() == 0
                    &&& m.stuck_model().len() == 0
                },
                Err(e) => match e {
                    SelectError::DuplicateId { txid } => !unique_ids(views_of(txs@)) && has_id(
                        views_of(txs@),
                        txid@,
                    ),
                    SelectError::InvalidWeight { txid } => !positive_weights(views_of(txs@))
                        && has_id(views_of(txs@), txid@),
                    SelectError::Overflow => total_fee(views_of(txs@)) > u64::MAX || total_weight(
                        views_of(txs@),
                    ) > u64::MAX,
                    SelectError::Cycle { .. } => false,
                },
            },
    {
        let ghost pv = views_of(txs@);
        let n = txs.len();
        let mut i: usize = 0;
        while i < n
            invariant
                pv == views_of(txs@),
                txs@.len() == n,
                i <= n,
                forall|a: int, b: int| 0 <= a < b < i ==> pv[a].txid != pv[b].txid,
                forall|k: int| 0 <= k < i ==> pv[k].weight >= 1,
            decreases n - i,
        {
            if txs[i].weight == 0 {
                proof {
                    assert(pv[i as int].weight == 0);
                }
                return Err(SelectError::InvalidWeight { txid: txs[i].txid.clone() });
            }
            let mut j: usize = 0;
            while j < i
                invariant
                    pv == views_of(txs@),
                    txs@.len() == n,
                    j <= i < n,
                    forall|b: int| 0 <= b < j ==> pv[b].txid != pv[i as int].txid,
                decreases i - j,
            {
                if txs[j].txid == txs[i].txid {
                    proof {
                        assert(pv[j as int].txid == pv[i as int].txid);
                    }
                    return Err(SelectError::DuplicateId { txid: txs[i].txid.clone() });
                }
                j = j + 1;
            }
            i = i + 1;
        }
        // totals must fit the package arithmetic
        let mut fee_acc: u64 = 0;
        let mut weight_acc: u64 = 0;
        let mut k: usize = 0;
        proof {
            lemma_prefix_fee_is_total(pv);
            lemma_prefix_weight_is_total(pv);
        }
        while k < n
            invariant
                pv == views_of(txs@),
                txs@.len() == n,
                k <= n,
                fee_acc == prefix_fee(pv, k as int),
                weight_acc == prefix_weight(pv, k as int),
                prefix_fee(pv, n as int) == total_fee(pv),
                prefix_weight(pv, n as int) == total_weight(pv),
            decreases n - k,
        {
            let f = txs[k].fee;
            let w = txs[k].weight as u64;
            if f > u64::MAX - fee_acc {
                proof {
                    lemma_prefix_monotone(pv, k as int + 1, n as int);
                }
                return Err(SelectError::Overflow);
            }
            fee_acc = fee_acc + f;
            if w > u64::MAX - weight_acc {
                proof {
                    lemma_prefix_monotone(pv, k as int + 1, n as int);
                }
                return Err(SelectError::Overflow);
            }
            weight_acc = weight_acc + w;
            k = k + 1;
        }
        Ok(Miner { mempool: txs, finalized: Vec::new(), stuck: Vec::new() })
    }

    /// The pending pool.
    pub fn mempool(&self) -> (r: &Vec<Transaction>)
        ensures
            views_of(r@) == self.pool_model(),
    {
        &self.mempool
    }

    /// The finalized blocks of the last run.
    pub fn blocks(&self) -> (r: &Vec<Vec<Transaction>>)
        ensures
            block_views(r@) == self.blocks_model(),
    {
        &self.finalized
    }

    /// The stuck residue of the last run.
    pub fn stuck(&self) -> (r: &Vec<Transaction>)
        ensures
            views_of(r@) == self.stuck_model(),
    {
        &self.stuck
    }

    /// Runs the partitioner over the pool with the given weight cap.  On
    /// success the pool is drained; the run's blocks are appended to the
    /// finalized list and its unplaceable residue to the stuck list, both
    /// of which are append-only across runs.  On a cycle nothing changes.
    pub fn mine_with_limit(&mut self, max_weight: u32) -> (r: Result<(), SelectError>)
        requires
            old(self).wf(),
        ensures
            match r {
                Ok(()) => {
                    &&& !has_cycle(old(self).pool_model())
                    &&& final(self).pool_model().len() == 0
                    &&& old(self).blocks_model().is_prefix_of(final(self).blocks_model())
                    &&& old(self).stuck_model().is_prefix_of(final(self).stuck_model())
                    &&& valid_selection(
                        old(self).pool_model(),
                        max_weight as int,
                        final(self).blocks_model().skip(old(self).blocks_model().len() as int),
                        final(self).stuck_model().skip(old(self).stuck_model().len() as int),
                    )
                },
                Err(e) => {
                    &&& has_cycle(old(self).pool_model())
                    &&& *final(self) == *old(self)
                    &&& match e {
                        SelectError::Cycle { txid } => has_id(old(self).pool_model(), txid@),
                        _ => false,
                    }
                },
            },
    {
        let pool = clone_txs(&self.mempool);
        match select_blocks(pool, max_weight) {
            Ok(sel) => {
                let mut new_blocks = sel.0;
                let mut new_stuck = sel.1;
                let ghost nb = new_blocks@;
                let ghost ns = new_stuck@;
                self.mempool = Vec::new();
                self.finalized.append(&mut new_blocks);
                self.stuck.append(&mut new_stuck);
                proof {
                    assert(final(self).pool_model() =~= Seq::<TxModel>::empty());
                    assert(final(self).blocks_model() =~= old(self).blocks_model() + block_views(
                        nb,
                    ));
                    assert(final(self).stuck_model() =~= old(self).stuck_model() + views_of(ns));
                    assert(final(self).blocks_model().skip(
                        old(self).blocks_model().len() as int,
                    ) =~= block_views(nb));
                    assert(final(self).stuck_model().skip(old(self).stuck_model().len() as int)
                        =~= views_of(ns));
                    assert(old(self).blocks_model() =~= final(self).blocks_model().subrange(
                        0,
                        old(self).blocks_model().len() as int,
                    ));
                    assert(old(self).stuck_model() =~= final(self).stuck_model().subrange(
                        0,
                        old(self).stuck_model().len() as int,
                    ));
                }
                Ok(())
            },
            Err(e) => Err(e),
        }
    }

    /// Runs the partitioner with the configured maximum block weight.
    pub fn mine(&mut self) -> (r: Result<(), SelectError>)
        requires
            old(self).wf(),
        ensures
            match r {
                Ok(()) => {
                    &&& !has_cycle(old(self).pool_model())
                    &&& final(self).pool_model().len() == 0
                    &&& old(self).blocks_model().is_prefix_of(final(self).blocks_model())
                    &&& old(self).stuck_model().is_prefix_of(final(self).stuck_model())
                    &&& valid_selection(
                        old(self).pool_model(),
                        MAX_BLOCK_TX_WEIGHT as int,
                        final(self).blocks_model().skip(old(self).blocks_model().len() as int),
                        final(self).stuck_model().skip(old(self).stuck_model().len() as int),
                    )
                },
                Err(e) => {
                    &&& has_cycle(old(self).pool_model())
                    &&& *final(self) == *old(self)
                    &&& match e {
                        SelectError::Cycle { txid } => has_id(old(self).pool_model(), txid@),
                        _ => false,
                    }
                },
            },
    {
        self.mine_with_limit(MAX_BLOCK_TX_WEIGHT)
    }
}

impl Default for Miner {
    /// An empty miner: no pool, no blocks, no residue.
    fn default() -> (r: Self)
        ensures
            r.pool_model().len() == 0,
            r.blocks_model().len() == 0,
            r.stuck_model().len() == 0,
            r.wf(),
    {
        Miner { mempool: Vec::new(), finalized: Vec::new(), stuck: Vec::new() }
    }
}

} // verus!
