//! The admission engine: walks one ranked pool snapshot and fills one
//! block.  A transaction is admitted when its weight still fits the cap
//! and every pool-resident parent is already confirmed or admitted earlier
//! into this block; otherwise it is deferred.  The engine repeats passes
//! over the deferred set until a whole pass admits nothing, so a deferred
//! transaction is retried once a blocking parent lands.  Each pass runs
//! in rank order, and a retried transaction is admitted after everything
//! the earlier passes admitted: a deferred dependent joins the block
//! behind the transactions that were admissible before it became so.

use vstd::prelude::*;

use crate::rank::{carried, ranked_views, Ranked};
use crate::tx::{has_id, id_views, total_weight, views_of, Transaction, TxModel};

verus! {

broadcast use
    vstd::multiset::group_multiset_axioms,
    vstd::seq_lib::group_to_multiset_ensures,
    vstd::seq_lib::lemma_multiset_commutative;

/// Every pool-resident parent of `t` is confirmed or already placed.
/// A parent id absent from the pool snapshot is treated as externally
/// confirmed and is always satisfied.
pub open spec fn admissible(
    pool0: Seq<TxModel>,
    confirmed: Seq<Seq<char>>,
    placed: Seq<TxModel>,
    t: TxModel,
) -> bool {
    forall|m: int|
        0 <= m < t.parents.len() ==> confirmed.contains(#[trigger] t.parents[m]) || has_id(
            placed,
            t.parents[m],
        ) || !has_id(pool0, t.parents[m])
}

/// Every member of the block was admissible against the confirmed set and
/// the block prefix before it.
pub open spec fn block_ordered(
    pool0: Seq<TxModel>,
    confirmed: Seq<Seq<char>>,
    block: Seq<TxModel>,
) -> bool {
    forall|i: int|
        0 <= i < block.len() ==> admissible(
            pool0,
            confirmed,
            block.subrange(0, i),
            #[trigger] block[i],
        )
}

/// `t` cannot join the finished block: it no longer fits the weight cap,
/// or some pool-resident parent is neither confirmed nor in the block.
pub open spec fn still_blocked(
    pool0: Seq<TxModel>,
    confirmed: Seq<Seq<char>>,
    block: Seq<TxModel>,
    max: int,
    t: TxModel,
) -> bool {
    total_weight(block) + t.weight > max || exists|m: int|
        0 <= m < t.parents.len() && has_id(pool0, #[trigger] t.parents[m]) && !confirmed.contains(
            t.parents[m],
        ) && !has_id(block, t.parents[m])
}

/// Whether some entry of `v` equals the given id.
pub fn contains_str(v: &Vec<String>, id: &String) -> (r: bool)
    ensures
        r == id_views(v@).contains(id@),
{
    let mut i: usize = 0;
    while i < v.len()
        invariant
            i <= v@.len(),
            forall|k: int| 0 <= k < i ==> id_views(v@)[k] != id@,
        decreases v@.len() - i,
    {
        if v[i] == *id {
            assert(id_views(v@)[i as int] == id@);
            return true;
        }
        i = i + 1;
    }
    false
}

/// Whether some transaction of `v` carries the given id.
pub fn contains_tx_id(v: &Vec<Transaction>, id: &String) -> (r: bool)
    ensures
        r == has_id(views_of(v@), id@),
{
    let mut i: usize = 0;
    while i < v.len()
        invariant
            i <= v@.len(),
            forall|k: int| 0 <= k < i ==> views_of(v@)[k].txid != id@,
        decreases v@.len() - i,
    {
        if v[i].txid == *id {
            assert(views_of(v@)[i as int].txid == id@);
            return true;
        }
        i = i + 1;
    }
    false
}

/// Builds one block from the ranked pool snapshot.  Returns the admitted
/// block, in admission order, and the deferred residue.  Together they
/// carry exactly the snapshot's transactions; the block respects the
/// weight cap and its internal parent order; and every deferred
/// transaction is genuinely unable to join the finished block.
pub fn admit_block(ranked: Vec<Ranked>, confirmed: &Vec<String>, max_weight: u32) -> (r: (
    Vec<Transaction>,
    Vec<Transaction>,
))
    ensures
        views_of(r.0@).to_multiset().add(views_of(r.1@).to_multiset()) == carried(
            ranked_views(ranked@),
        ).to_multiset(),
        total_weight(views_of(r.0@)) <= max_weight,
        block_ordered(carried(ranked_views(ranked@)), id_views(confirmed@), views_of(r.0@)),
        forall|k: int|
            0 <= k < r.1@.len() ==> still_blocked(
                carried(ranked_views(ranked@)),
                id_views(confirmed@),
                views_of(r.0@),
                max_weight as int,
                #[trigger] views_of(r.1@)[k],
            ),
{
    let ghost pool0 = carried(ranked_views(ranked@));
    let ghost cids = id_views(confirmed@);

    // the snapshot's resident ids, for the pool-resident test
    let mut pool_ids: Vec<String> = Vec::new();
    let mut q: usize = 0;
    while q < ranked.len()
        invariant
            pool0 == carried(ranked_views(ranked@)),
            q <= ranked@.len(),
            pool_ids@.len() == q,
            forall|k: int| 0 <= k < q ==> id_views(pool_ids@)[k] == pool0[k].txid,
        decreases ranked@.len() - q,
    {
        let ghost old_ids = pool_ids@;
        pool_ids.push(ranked[q].tx.txid.clone());
        proof {
            assert forall|k: int| 0 <= k < q + 1 implies id_views(pool_ids@)[k] == pool0[k].txid by {
                assert(id_views(pool_ids@)[k] == pool_ids@[k]@);
                if k < q {
                    assert(pool_ids@[k] == old_ids[k]);
                    assert(id_views(old_ids)[k] == old_ids[k]@);
                } else {
                    assert(pool_ids@[k]@ == ranked@[q as int].tx.txid@);
                    assert(pool0[q as int].txid == ranked@[q as int].tx.txid@);
                }
            }
        }
        q = q + 1;
    }
    proof {
        assert forall|p: Seq<char>| id_views(pool_ids@).contains(p) == has_id(pool0, p) by {
            if id_views(pool_ids@).contains(p) {
                let k = choose|k: int| 0 <= k < id_views(pool_ids@).len() && id_views(pool_ids@)[k] == p;
                assert(pool0[k].txid == p);
            }
            if has_id(pool0, p) {
                let k = choose|k: int| 0 <= k < pool0.len() && pool0[k].txid == p;
                assert(id_views(pool_ids@)[k] == p);
            }
        }
    }

    let mut pending = ranked;
    let mut block: Vec<Transaction> = Vec::new();
    let mut bw: u32 = 0;
    let mut again = true;
    proof {
        assert(views_of(block@) =~= Seq::<TxModel>::empty());
        assert(views_of(block@).to_multiset().add(carried(ranked_views(pending@)).to_multiset())
            =~= carried(ranked_views(pending@)).to_multiset());
    }
    while again
        invariant
            cids == id_views(confirmed@),
            pool_ids@.len() == pool0.len(),
            forall|k: int| 0 <= k < pool0.len() ==> id_views(pool_ids@)[k] == pool0[k].txid,
            forall|p: Seq<char>| id_views(pool_ids@).contains(p) == has_id(pool0, p),
            bw == total_weight(views_of(block@)),
            bw <= max_weight,
            views_of(block@).to_multiset().add(carried(ranked_views(pending@)).to_multiset())
                == pool0.to_multiset(),
            block_ordered(pool0, cids, views_of(block@)),
            !again ==> forall|k: int|
                0 <= k < pending@.len() ==> still_blocked(
                    pool0,
                    cids,
                    views_of(block@),
                    max_weight as int,
                    #[trigger] ranked_views(pending@)[k].tx,
                ),
        decreases pending@.len() + if again { 1int } else { 0int },
    {
        again = false;
        let mut next: Vec<Ranked> = Vec::new();
        let ghost passes = pending@.len();
        while pending.len() > 0
            invariant
                cids == id_views(confirmed@),
                pool_ids@.len() == pool0.len(),
                forall|k: int| 0 <= k < pool0.len() ==> id_views(pool_ids@)[k] == pool0[k].txid,
                forall|p: Seq<char>| id_views(pool_ids@).contains(p) == has_id(pool0, p),
                bw == total_weight(views_of(block@)),
                bw <= max_weight,
                views_of(block@).to_multiset().add(
                    carried(ranked_views(next@)).to_multiset(),
                ).add(carried(ranked_views(pending@)).to_multiset()) == pool0.to_multiset(),
                block_ordered(pool0, cids, views_of(block@)),
                next@.len() + pending@.len() <= passes,
                again ==> next@.len() + pending@.len() < passes,
                !again ==> forall|k: int|
                    0 <= k < next@.len() ==> still_blocked(
                        pool0,
                        cids,
                        views_of(block@),
                        max_weight as int,
                        #[trigger] ranked_views(next@)[k].tx,
                    ),
            decreases pending@.len(),
        {
            let ghost pend_before = pending@;
            let item = pending.remove(0);
            let ghost t = item@.tx;
            proof {
                // removing the head splits the pending multiset
                assert(pend_before =~= seq![pend_before[0]] + pending@);
                assert(carried(ranked_views(pend_before)) =~= seq![t] + carried(
                    ranked_views(pending@),
                ));
                assert(carried(ranked_views(pend_before)).to_multiset() == seq![t]
                    .to_multiset().add(carried(ranked_views(pending@)).to_multiset()));
            }
            let fits = (bw as u64) + (item.tx.weight as u64) <= (max_weight as u64);
            let mut sat = true;
            let mut m: usize = 0;
            let ghost np = t.parents.len();
            while m < item.tx.parent_txids.len()
                invariant
                    cids == id_views(confirmed@),
                    forall|p: Seq<char>| id_views(pool_ids@).contains(p) == has_id(pool0, p),
                    t == item@.tx,
                    np == t.parents.len(),
                    m <= np,
                    sat ==> forall|m1: int|
                        0 <= m1 < m ==> cids.contains(#[trigger] t.parents[m1]) || has_id(
                            views_of(block@),
                            t.parents[m1],
                        ) || !has_id(pool0, t.parents[m1]),
                    !sat ==> exists|m1: int|
                        0 <= m1 < np && has_id(pool0, #[trigger] t.parents[m1])
                            && !cids.contains(t.parents[m1]) && !has_id(
                            views_of(block@),
                            t.parents[m1],
                        ),
                decreases np - m,
            {
                proof {
                    assert(t.parents[m as int] == item.tx.parent_txids@[m as int]@);
                }
                let p = &item.tx.parent_txids[m];
                if contains_str(&pool_ids, p) && !contains_str(confirmed, p) && !contains_tx_id(
                    &block,
                    p,
                ) {
                    sat = false;
                }
                m = m + 1;
            }
            if fits && sat {
                proof {
                    assert(admissible(pool0, cids, views_of(block@), t));
                }
                let ghost old_block = views_of(block@);
                bw = bw + item.tx.weight;
                block.push(item.tx);
                again = true;
                proof {
                    let nb = views_of(block@);
                    assert(nb =~= old_block + seq![t]);
                    assert(nb.drop_last() =~= old_block);
                    assert(total_weight(nb) == total_weight(old_block) + t.weight);
                    // each earlier member keeps its admissibility prefix
                    assert forall|i: int| 0 <= i < nb.len() implies admissible(
                        pool0,
                        cids,
                        nb.subrange(0, i),
                        nb[i],
                    ) by {
                        if i < old_block.len() {
                            assert(nb.subrange(0, i) =~= old_block.subrange(0, i));
                            assert(nb[i] == old_block[i]);
                        } else {
                            assert(nb.subrange(0, i) =~= old_block);
                        }
                    }
                }
            } else {
                let ghost old_next = next@;
                next.push(item);
                proof {
                    assert(ranked_views(next@) =~= ranked_views(old_next).push(item@));
                    assert(carried(ranked_views(next@)) =~= carried(ranked_views(old_next))
                        + seq![t]);
                    if !fits {
                        assert(total_weight(views_of(block@)) + t.weight > max_weight as int);
                    }
                    assert(still_blocked(pool0, cids, views_of(block@), max_weight as int, t));
                }
            }
            proof {
                // the three parts still partition the snapshot
                assert(views_of(block@).to_multiset().add(
                    carried(ranked_views(next@)).to_multiset(),
                ).add(carried(ranked_views(pending@)).to_multiset()) =~= pool0.to_multiset());
            }
        }
        pending = next;
    }

    // strip the metrics from the deferred residue
    let mut deferred: Vec<Transaction> = Vec::new();
    let ghost residue = pending@;
    let mut i: usize = 0;
    while i < pending.len()
        invariant
            pending@ == residue,
            i <= residue.len(),
            deferred@.len() == i,
            forall|k: int| 0 <= k < i ==> views_of(deferred@)[k] == ranked_views(residue)[k].tx,
        decreases residue.len() - i,
    {
        let ghost old_def = deferred@;
        let item_tx = pending[i].tx.clone();
        deferred.push(item_tx);
        proof {
            assert forall|k: int| 0 <= k < i + 1 implies views_of(deferred@)[k] == ranked_views(
                residue,
            )[k].tx by {
                assert(views_of(deferred@)[k] == deferred@[k]@);
                assert(ranked_views(residue)[k].tx == residue[k].tx@);
                if k < i {
                    assert(deferred@[k] == old_def[k]);
                    assert(views_of(old_def)[k] == old_def[k]@);
                } else {
                    assert(deferred@[k]@ == residue[i as int].tx@);
                }
            }
        }
        i = i + 1;
    }
    proof {
        assert(views_of(deferred@) =~= carried(ranked_views(residue)));
    }
    (block, deferred)
}

} // verus!
