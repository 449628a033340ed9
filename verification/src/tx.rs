//! The transaction record and the specification-level model of a pool:
//! views of transactions, id lookup, weight and fee totals, and the
//! characterization of a dependency cycle.

use vstd::prelude::*;

verus! {

broadcast use
    vstd::multiset::group_multiset_axioms,
    vstd::seq_lib::group_to_multiset_ensures;

/// One unit of candidate work: an id, a fee, a resource cost (weight),
/// and the ids of its prerequisite transactions.
pub struct Transaction {
    pub txid: String,
    pub fee: u64,
    pub weight: u32,
    pub parent_txids: Vec<String>,
}

/// The mathematical value of a `Transaction`.
pub struct TxModel {
    pub txid: Seq<char>,
    pub fee: u64,
    pub weight: u32,
    pub parents: Seq<Seq<char>>,
}

impl View for Transaction {
    type V = TxModel;

    open spec fn view(&self) -> TxModel {
        TxModel {
            txid: self.txid@,
            fee: self.fee,
            weight: self.weight,
            parents: self.parent_txids@.map_values(|p: String| p@),
        }
    }
}

impl Clone for Transaction {
    fn clone(&self) -> (r: Self)
        ensures
            r@ == self@,
    {
        let mut parents: Vec<String> = Vec::new();
        let mut i: usize = 0;
        while i < self.parent_txids.len()
            invariant
                i <= self.parent_txids.len(),
                parents@.len() == i as int,
                forall|k: int| 0 <= k < i ==> parents@[k]@ == self.parent_txids@[k]@,
            decreases self.parent_txids.len() - i,
        {
            parents.push(self.parent_txids[i].clone());
            i = i + 1;
        }
        let r = Transaction {
            txid: self.txid.clone(),
            fee: self.fee,
            weight: self.weight,
            parent_txids: parents,
        };
        proof {
            assert(r@.parents =~= self@.parents);
        }
        r
    }
}

/// The views of a sequence of transactions.
pub open spec fn views_of(s: Seq<Transaction>) -> Seq<TxModel> {
    s.map_values(|t: Transaction| t@)
}

/// The views of a sequence of id strings.
pub open spec fn id_views(s: Seq<String>) -> Seq<Seq<char>> {
    s.map_values(|p: String| p@)
}

/// Whether some transaction of the pool carries the given id
/// (the id is "pool-resident").
pub open spec fn has_id(pool: Seq<TxModel>, id: Seq<char>) -> bool {
    exists|k: int| 0 <= k < pool.len() && pool[k].txid == id
}

/// Whether no two transactions of the pool share an id.
pub open spec fn unique_ids(pool: Seq<TxModel>) -> bool {
    forall|i: int, j: int| 0 <= i < j < pool.len() ==> pool[i].txid != pool[j].txid
}

/// The sum of all fees in the pool.
pub open spec fn total_fee(pool: Seq<TxModel>) -> int
    decreases pool.len(),
{
    if pool.len() == 0 {
        0
    } else {
        total_fee(pool.drop_last()) + pool.last().fee
    }
}

/// The sum of all weights in the pool.
pub open spec fn total_weight(pool: Seq<TxModel>) -> int
    decreases pool.len(),
{
    if pool.len() == 0 {
        0
    } else {
        total_weight(pool.drop_last()) + pool.last().weight
    }
}

/// Whether every transaction of the pool has a strictly positive weight.
pub open spec fn positive_weights(pool: Seq<TxModel>) -> bool {
    forall|i: int| 0 <= i < pool.len() ==> pool[i].weight >= 1
}

/// A set of ids every member of which is carried by some pool transaction
/// that in turn has a parent inside the set.  A nonempty such set is
/// exactly a witness that the parent relation, restricted to pool-resident
/// ids, contains a directed cycle: each member can be left only by stepping
/// to another member, and the pool is finite.
pub open spec fn blocked_ids(pool: Seq<TxModel>, s: Set<Seq<char>>) -> bool {
    forall|id: Seq<char>| #[trigger] s.contains(id) ==> exists|k: int|
        0 <= k < pool.len() && pool[k].txid == id && exists|m: int|
            0 <= m < pool[k].parents.len() && s.contains(pool[k].parents[m])
}

/// Whether the parent relation, restricted to pool-resident ids,
/// contains a directed cycle: some id belongs to a nonempty blocked set.
pub open spec fn has_cycle(pool: Seq<TxModel>) -> bool {
    exists|s: Set<Seq<char>>, id: Seq<char>| s.contains(id) && blocked_ids(pool, s)
}

/// Total fee and weight of a pool both restated as sums over a prefix,
/// so loops can accumulate them from the left.
pub open spec fn prefix_fee(pool: Seq<TxModel>, k: int) -> int
    decreases k,
{
    if k <= 0 {
        0
    } else {
        prefix_fee(pool, k - 1) + pool[k - 1].fee
    }
}

pub open spec fn prefix_weight(pool: Seq<TxModel>, k: int) -> int
    decreases k,
{
    if k <= 0 {
        0
    } else {
        prefix_weight(pool, k - 1) + pool[k - 1].weight
    }
}

pub proof fn lemma_prefix_fee_is_total(pool: Seq<TxModel>)
    ensures
        prefix_fee(pool, pool.len() as int) == total_fee(pool),
    decreases pool.len(),
{
    if pool.len() > 0 {
        let n = pool.len() as int;
        lemma_prefix_fee_is_total(pool.drop_last());
        lemma_prefix_fee_agrees(pool, n - 1);
        assert(prefix_fee(pool, n) == prefix_fee(pool, n - 1) + pool[n - 1].fee);
        assert(total_fee(pool) == total_fee(pool.drop_last()) + pool.last().fee);
    }
}

proof fn lemma_prefix_fee_agrees(pool: Seq<TxModel>, k: int)
    requires
        0 <= k <= pool.len() - 1,
    ensures
        prefix_fee(pool.drop_last(), k) == prefix_fee(pool, k),
    decreases k,
{
    if k > 0 {
        lemma_prefix_fee_agrees(pool, k - 1);
    }
}

pub proof fn lemma_prefix_weight_is_total(pool: Seq<TxModel>)
    ensures
        prefix_weight(pool, pool.len() as int) == total_weight(pool),
    decreases pool.len(),
{
    if pool.len() > 0 {
        let n = pool.len() as int;
        lemma_prefix_weight_is_total(pool.drop_last());
        lemma_prefix_weight_agrees(pool, n - 1);
        assert(prefix_weight(pool, n) == prefix_weight(pool, n - 1) + pool[n - 1].weight);
        assert(total_weight(pool) == total_weight(pool.drop_last()) + pool.last().weight);
    }
}

proof fn lemma_prefix_weight_agrees(pool: Seq<TxModel>, k: int)
    requires
        0 <= k <= pool.len() - 1,
    ensures
        prefix_weight(pool.drop_last(), k) == prefix_weight(pool, k),
    decreases k,
{
    if k > 0 {
        lemma_prefix_weight_agrees(pool, k - 1);
    }
}

pub proof fn lemma_prefix_monotone(pool: Seq<TxModel>, a: int, b: int)
    requires
        0 <= a <= b <= pool.len(),
    ensures
        prefix_fee(pool, a) <= prefix_fee(pool, b),
        prefix_weight(pool, a) <= prefix_weight(pool, b),
    decreases b - a,
{
    if a < b {
        lemma_prefix_monotone(pool, a, b - 1);
    }
}

pub proof fn lemma_totals_nonneg(pool: Seq<TxModel>)
    ensures
        total_fee(pool) >= 0,
        total_weight(pool) >= 0,
    decreases pool.len(),
{
    if pool.len() > 0 {
        lemma_totals_nonneg(pool.drop_last());
    }
}

/// Removing one transaction lowers the totals by exactly its fee and weight.
pub proof fn lemma_totals_remove(s: Seq<TxModel>, j: int)
    requires
        0 <= j < s.len(),
    ensures
        total_fee(s.remove(j)) == total_fee(s) - s[j].fee,
        total_weight(s.remove(j)) == total_weight(s) - s[j].weight,
    decreases s.len(),
{
    if j == s.len() - 1 {
        assert(s.remove(j) =~= s.drop_last());
    } else {
        assert(s.remove(j).drop_last() =~= s.drop_last().remove(j));
        lemma_totals_remove(s.drop_last(), j);
        assert(s.remove(j).last() == s.last());
    }
}

/// A member's weight never exceeds the pool total.
pub proof fn lemma_member_weight_le_total(s: Seq<TxModel>, k: int)
    requires
        0 <= k < s.len(),
    ensures
        s[k].weight <= total_weight(s),
{
    lemma_totals_remove(s, k);
    lemma_totals_nonneg(s.remove(k));
}

/// A sub-multiset of a pool sums to no more than the pool.
pub proof fn lemma_totals_subset(sub: Seq<TxModel>, sup: Seq<TxModel>)
    requires
        sub.to_multiset().subset_of(sup.to_multiset()),
    ensures
        total_fee(sub) <= total_fee(sup),
        total_weight(sub) <= total_weight(sup),
    decreases sub.len(),
{
    if sub.len() == 0 {
        lemma_totals_nonneg(sup);
    } else {
        let x = sub.last();
        let n = sub.len() as int;
        assert(sub.contains(x));
        assert(sub.to_multiset().count(x) > 0);
        assert(sup.to_multiset().count(x) > 0);
        assert(sup.contains(x));
        let j = choose|j: int| 0 <= j < sup.len() && sup[j] == x;
        let sub2 = sub.drop_last();
        let sup2 = sup.remove(j);
        assert(sub2 =~= sub.remove(n - 1));
        assert(sub2.to_multiset() == sub.to_multiset().remove(x));
        assert(sup2.to_multiset() == sup.to_multiset().remove(x));
        assert(sub2.to_multiset().subset_of(sup2.to_multiset())) by {
            assert forall|y: TxModel|
                sub2.to_multiset().count(y) <= sup2.to_multiset().count(y) by {
                assert(sub.to_multiset().count(y) <= sup.to_multiset().count(y));
            }
        }
        lemma_totals_subset(sub2, sup2);
        lemma_totals_remove(sup, j);
    }
}

/// Pools that hold the same transactions sum to the same totals.
pub proof fn lemma_totals_permutation(a: Seq<TxModel>, b: Seq<TxModel>)
    requires
        a.to_multiset() == b.to_multiset(),
    ensures
        total_fee(a) == total_fee(b),
        total_weight(a) == total_weight(b),
{
    assert(a.to_multiset().subset_of(b.to_multiset()));
    assert(b.to_multiset().subset_of(a.to_multiset()));
    lemma_totals_subset(a, b);
    lemma_totals_subset(b, a);
}

/// A resident id of a sub-pool is resident in the enclosing pool.
pub proof fn lemma_has_id_lift(sub: Seq<TxModel>, sup: Seq<TxModel>, id: Seq<char>)
    requires
        sub.to_multiset().subset_of(sup.to_multiset()),
        has_id(sub, id),
    ensures
        has_id(sup, id),
{
    let k = choose|k: int| 0 <= k < sub.len() && sub[k].txid == id;
    let x = sub[k];
    assert(sub.contains(x));
    assert(sub.to_multiset().count(x) > 0);
    assert(sup.to_multiset().count(x) > 0);
    assert(sup.contains(x));
    let j = choose|j: int| 0 <= j < sup.len() && sup[j] == x;
    assert(sup[j].txid == id);
}

/// A blocked id set of a sub-pool is blocked in the enclosing pool, so a
/// cycle in a sub-pool is a cycle of the pool it came from.
/// Each sub-pool member occurs somewhere in the enclosing pool.
proof fn lemma_member_lift(sub: Seq<TxModel>, sup: Seq<TxModel>, k: int)
    requires
        sub.to_multiset().subset_of(sup.to_multiset()),
        0 <= k < sub.len(),
    ensures
        exists|j: int| 0 <= j < sup.len() && sup[j] == sub[k],
{
    let x = sub[k];
    assert(sub.contains(x));
    assert(sub.to_multiset().count(x) > 0);
    assert(sup.to_multiset().count(x) > 0);
    assert(sup.contains(x));
}

#[verifier::rlimit(100)]
#[verifier::spinoff_prover]
pub proof fn lemma_cycle_lift(sub: Seq<TxModel>, sup: Seq<TxModel>)
    requires
        sub.to_multiset().subset_of(sup.to_multiset()),
        has_cycle(sub),
    ensures
        has_cycle(sup),
{
    let (s, id0) = choose|s: Set<Seq<char>>, id0: Seq<char>|
        s.contains(id0) && blocked_ids(sub, s);
    assert forall|id: Seq<char>| #[trigger] s.contains(id) implies exists|k: int|
        0 <= k < sup.len() && sup[k].txid == id && exists|m: int|
            0 <= m < sup[k].parents.len() && s.contains(sup[k].parents[m]) by {
        let k = choose|k: int|
            0 <= k < sub.len() && sub[k].txid == id && exists|m: int|
                0 <= m < sub[k].parents.len() && s.contains(sub[k].parents[m]);
        lemma_member_lift(sub, sup, k);
        let j = choose|j: int| 0 <= j < sup.len() && sup[j] == sub[k];
        let m = choose|m: int| 0 <= m < sub[k].parents.len() && s.contains(sub[k].parents[m]);
        assert(0 <= m < sup[j].parents.len() && s.contains(sup[j].parents[m]));
    }
    assert(blocked_ids(sup, s));
    assert(s.contains(id0));
}

/// A sub-pool of a well-formed pool keeps unique ids and positive weights.
pub proof fn lemma_sub_pool_wf(sub: Seq<TxModel>, sup: Seq<TxModel>)
    requires
        sub.to_multiset().subset_of(sup.to_multiset()),
        unique_ids(sup),
    ensures
        unique_ids(sub),
        positive_weights(sup) ==> positive_weights(sub),
{
    // every element of the sub-pool occurs in the pool
    assert forall|k: int| 0 <= k < sub.len() implies sup.contains(sub[k]) by {
        assert(sub.contains(sub[k]));
        assert(sub.to_multiset().count(sub[k]) > 0);
        assert(sup.to_multiset().count(sub[k]) > 0);
    }
    if positive_weights(sup) {
        assert forall|k: int| 0 <= k < sub.len() implies sub[k].weight >= 1 by {
            let j = choose|j: int| 0 <= j < sup.len() && sup[j] == sub[k];
        }
    }
    assert forall|i: int, j: int| 0 <= i < j < sub.len() implies sub[i].txid != sub[j].txid by {
        let x = sub[i];
        let y = sub[j];
        if x == y {
            // the element would occur twice in the sub-pool, hence twice in
            // the pool, whose ids are unique
            assert(sub.remove(i)[j - 1] == y);
            assert(sub.remove(i).contains(y));
            assert(sub.remove(i).to_multiset() == sub.to_multiset().remove(x));
            assert(sub.remove(i).to_multiset().count(x) > 0);
            assert(sub.to_multiset().remove(x).count(x) == sub.to_multiset().count(x) - 1);
            assert(sub.to_multiset().count(x) >= 2);
            assert(sup.to_multiset().count(x) >= 2);
            assert(sup.no_duplicates()) by {
                assert forall|a: int, b: int|
                    0 <= a < sup.len() && 0 <= b < sup.len() && a != b implies sup[a]
                    != sup[b] by {
                    if a < b {
                        assert(sup[a].txid != sup[b].txid);
                    } else {
                        assert(sup[b].txid != sup[a].txid);
                    }
                }
            }
            sup.lemma_multiset_has_no_duplicates();
            assert(false);
        } else if x.txid == y.txid {
            assert(sup.contains(x));
            assert(sup.contains(y));
            let a = choose|a: int| 0 <= a < sup.len() && sup[a] == x;
            let b = choose|b: int| 0 <= b < sup.len() && sup[b] == y;
            assert(a != b);
            if a < b {
                assert(sup[a].txid != sup[b].txid);
            } else {
                assert(sup[b].txid != sup[a].txid);
            }
            assert(false);
        }
    }
}

} // verus!
