//! The ancestor aggregator: for a pool snapshot it computes, per transaction,
//! the package fee and package weight (own cost plus the cost of every
//! pool-resident ancestor, each counted once), and it detects dependency
//! cycles while doing so.
//!
//! The traversal is a topological sweep: a transaction is resolved once all
//! of its pool-resident parents are resolved, and its ancestor set is the
//! union of each parent's ancestor set with the parent itself.  When no
//! unresolved transaction can be resolved, the residue is a blocked set,
//! which is exactly a cycle witness.

use vstd::prelude::*;

use crate::errors::SelectError;
use crate::tx::{
    blocked_ids, has_cycle, has_id, prefix_fee, prefix_weight, lemma_prefix_fee_is_total,
    lemma_prefix_weight_is_total, total_fee, total_weight, unique_ids, views_of, Transaction,
    TxModel,
};

verus! {

/// Package metrics of one transaction for one pool snapshot: its own fee
/// and weight plus those of all of its still-unconfirmed ancestors.
#[derive(Clone, Copy, PartialEq, Eq, Structural, Debug)]
pub struct PackageMetrics {
    pub fee: u64,
    pub weight: u64,
}

/// Parent `m` of transaction `i` is satisfied: every pool transaction
/// carrying that parent id is already resolved.
pub open spec fn par_satisfied(pool: Seq<TxModel>, done: Seq<bool>, i: int, m: int) -> bool {
    forall|k: int| 0 <= k < pool.len() && pool[k].txid == pool[i].parents[m] ==> done[k]
}

/// Every pool-resident parent of transaction `i` is resolved.
pub open spec fn eligible(pool: Seq<TxModel>, done: Seq<bool>, i: int) -> bool {
    forall|m: int| 0 <= m < pool[i].parents.len() ==> par_satisfied(pool, done, i, m)
}

/// Transaction `i` has some pool-resident parent that is not resolved.
pub open spec fn blocked_now(pool: Seq<TxModel>, done: Seq<bool>, i: int) -> bool {
    exists|m: int|
        0 <= m < pool[i].parents.len() && exists|k: int|
            0 <= k < pool.len() && #[trigger] pool[k].txid == #[trigger] pool[i].parents[m]
                && !done[k]
}

/// No member of any blocked id set has been resolved.  This is the key
/// safety invariant of the sweep: members of a cycle are never resolved.
pub open spec fn no_blocked_done(pool: Seq<TxModel>, done: Seq<bool>) -> bool {
    forall|s: Set<Seq<char>>, k: int|
        #![trigger s.contains(pool[k].txid), blocked_ids(pool, s)]
        blocked_ids(pool, s) && 0 <= k < pool.len() && k < done.len() && s.contains(pool[k].txid)
            ==> !done[k]
}

/// The number of unresolved entries.
pub open spec fn count_false(s: Seq<bool>) -> int
    decreases s.len(),
{
    if s.len() == 0 {
        0
    } else {
        count_false(s.drop_last()) + if s.last() {
            0int
        } else {
            1int
        }
    }
}

/// The fee sum of the selected transactions among the first `k`.
pub open spec fn sel_fee(pool: Seq<TxModel>, sel: Seq<bool>, k: int) -> int
    decreases k,
{
    if k <= 0 {
        0
    } else {
        sel_fee(pool, sel, k - 1) + if sel[k - 1] {
            pool[k - 1].fee as int
        } else {
            0int
        }
    }
}

/// The weight sum of the selected transactions among the first `k`.
pub open spec fn sel_weight(pool: Seq<TxModel>, sel: Seq<bool>, k: int) -> int
    decreases k,
{
    if k <= 0 {
        0
    } else {
        sel_weight(pool, sel, k - 1) + if sel[k - 1] {
            pool[k - 1].weight as int
        } else {
            0int
        }
    }
}

/// A parent edge within the pool: `b` carries an id that `a` lists as a
/// parent.
pub open spec fn edge(pool: Seq<TxModel>, a: int, b: int) -> bool {
    0 <= a < pool.len() && 0 <= b < pool.len() && pool[a].parents.contains(pool[b].txid)
}

/// `p` is a chain of parent edges leading from `i` to `j`.
pub open spec fn path_connects(pool: Seq<TxModel>, p: Seq<int>, i: int, j: int) -> bool {
    &&& p.len() >= 2
    &&& p[0] == i
    &&& p[p.len() - 1] == j
    &&& forall|q: int| 0 <= q < p.len() - 1 ==> edge(pool, #[trigger] p[q], p[q + 1])
}

/// `j` is an ancestor of `i`: some chain of parent edges within the pool
/// leads from `i` to `j`.
pub open spec fn is_ancestor(pool: Seq<TxModel>, i: int, j: int) -> bool {
    exists|p: Seq<int>| path_connects(pool, p, i, j)
}

/// The fee sum of `i`'s ancestors among the first `k` pool entries.
pub open spec fn anc_fee(pool: Seq<TxModel>, i: int, k: int) -> int
    decreases k,
{
    if k <= 0 {
        0
    } else {
        anc_fee(pool, i, k - 1) + if is_ancestor(pool, i, k - 1) {
            pool[k - 1].fee as int
        } else {
            0int
        }
    }
}

/// The weight sum of `i`'s ancestors among the first `k` pool entries.
pub open spec fn anc_weight(pool: Seq<TxModel>, i: int, k: int) -> int
    decreases k,
{
    if k <= 0 {
        0
    } else {
        anc_weight(pool, i, k - 1) + if is_ancestor(pool, i, k - 1) {
            pool[k - 1].weight as int
        } else {
            0int
        }
    }
}

proof fn lemma_edge_is_ancestor(pool: Seq<TxModel>, i: int, a: int)
    requires
        edge(pool, i, a),
    ensures
        is_ancestor(pool, i, a),
{
    let p = seq![i, a];
    assert(p[0] == i && p[p.len() - 1] == a);
    assert forall|q: int| 0 <= q < p.len() - 1 implies edge(pool, #[trigger] p[q], p[q + 1]) by {
        assert(q == 0);
    }
    assert(path_connects(pool, p, i, a));
}

proof fn lemma_ancestor_prepend(pool: Seq<TxModel>, i: int, a: int, j: int)
    requires
        edge(pool, i, a),
        is_ancestor(pool, a, j),
    ensures
        is_ancestor(pool, i, j),
{
    let pth = choose|pth: Seq<int>| path_connects(pool, pth, a, j);
    let p2 = seq![i] + pth;
    assert(p2[0] == i);
    assert(p2.len() == pth.len() + 1);
    assert(p2[p2.len() - 1] == pth[pth.len() - 1]);
    assert forall|q: int| 0 <= q < p2.len() - 1 implies edge(pool, #[trigger] p2[q], p2[q + 1]) by {
        if q == 0 {
            assert(p2[0] == i && p2[1] == pth[0]);
        } else {
            assert(p2[q] == pth[q - 1] && p2[q + 1] == pth[q]);
            assert(edge(pool, pth[q - 1], pth[q - 1 + 1]));
        }
    }
    assert(path_connects(pool, p2, i, j));
}

/// An ancestor is reached by one parent edge, or through an ancestor of a
/// parent.
proof fn lemma_ancestor_step(pool: Seq<TxModel>, i: int, j: int)
    requires
        is_ancestor(pool, i, j),
    ensures
        edge(pool, i, j) || exists|a: int| edge(pool, i, a) && is_ancestor(pool, a, j),
{
    let p = choose|p: Seq<int>| path_connects(pool, p, i, j);
    if p.len() == 2 {
        assert(edge(pool, p[0], p[1]));
    } else {
        let a = p[1];
        assert(edge(pool, p[0], p[1]));
        let tail = p.skip(1);
        assert(tail[0] == a);
        assert(tail[tail.len() - 1] == p[p.len() - 1]);
        assert forall|q: int| 0 <= q < tail.len() - 1 implies edge(
            pool,
            #[trigger] tail[q],
            tail[q + 1],
        ) by {
            assert(tail[q] == p[q + 1] && tail[q + 1] == p[q + 2]);
            assert(edge(pool, p[q + 1], p[q + 1 + 1]));
        }
        assert(path_connects(pool, tail, a, j));
        assert(edge(pool, i, a) && is_ancestor(pool, a, j));
    }
}

/// A selection that marks exactly the ancestors of `i` sums to the
/// ancestor totals.
proof fn lemma_sel_matches_anc(pool: Seq<TxModel>, sel: Seq<bool>, i: int, k: int)
    requires
        0 <= k <= sel.len(),
        forall|j: int| 0 <= j < k ==> (sel[j] <==> is_ancestor(pool, i, j)),
    ensures
        sel_fee(pool, sel, k) == anc_fee(pool, i, k),
        sel_weight(pool, sel, k) == anc_weight(pool, i, k),
    decreases k,
{
    if k > 0 {
        lemma_sel_matches_anc(pool, sel, i, k - 1);
    }
}

proof fn lemma_count_false_update(s: Seq<bool>, i: int)
    requires
        0 <= i < s.len(),
        !s[i],
    ensures
        count_false(s.update(i, true)) == count_false(s) - 1,
    decreases s.len(),
{
    let t = s.update(i, true);
    if i == s.len() - 1 {
        assert(t.drop_last() =~= s.drop_last());
    } else {
        assert(t.drop_last() =~= s.drop_last().update(i, true));
        lemma_count_false_update(s.drop_last(), i);
    }
}

proof fn lemma_count_false_nonneg(s: Seq<bool>)
    ensures
        count_false(s) >= 0,
    decreases s.len(),
{
    if s.len() > 0 {
        lemma_count_false_nonneg(s.drop_last());
    }
}

proof fn lemma_sel_fee_nonneg(pool: Seq<TxModel>, sel: Seq<bool>, k: int)
    ensures
        sel_fee(pool, sel, k) >= 0,
    decreases k,
{
    if k > 0 {
        lemma_sel_fee_nonneg(pool, sel, k - 1);
    }
}

proof fn lemma_sel_weight_nonneg(pool: Seq<TxModel>, sel: Seq<bool>, k: int)
    ensures
        sel_weight(pool, sel, k) >= 0,
    decreases k,
{
    if k > 0 {
        lemma_sel_weight_nonneg(pool, sel, k - 1);
    }
}

proof fn lemma_sel_fee_monotone(pool: Seq<TxModel>, sel: Seq<bool>, a: int, b: int)
    requires
        a <= b,
    ensures
        sel_fee(pool, sel, a) <= sel_fee(pool, sel, b),
    decreases b - a,
{
    if a < b {
        lemma_sel_fee_monotone(pool, sel, a, b - 1);
    }
}

proof fn lemma_sel_weight_monotone(pool: Seq<TxModel>, sel: Seq<bool>, a: int, b: int)
    requires
        a <= b,
    ensures
        sel_weight(pool, sel, a) <= sel_weight(pool, sel, b),
    decreases b - a,
{
    if a < b {
        lemma_sel_weight_monotone(pool, sel, a, b - 1);
    }
}

/// A selection that excludes `i` sums, together with `i`'s own fee, to at
/// most the prefix total.
proof fn lemma_own_plus_sel_fee(pool: Seq<TxModel>, sel: Seq<bool>, i: int, k: int)
    requires
        0 <= i < pool.len(),
        k <= pool.len(),
        !sel[i],
    ensures
        pool[i].fee + sel_fee(pool, sel, k) <= prefix_fee(pool, k) + if i >= k {
            pool[i].fee as int
        } else {
            0int
        },
    decreases k,
{
    if k > 0 {
        lemma_own_plus_sel_fee(pool, sel, i, k - 1);
    }
}

proof fn lemma_own_plus_sel_weight(pool: Seq<TxModel>, sel: Seq<bool>, i: int, k: int)
    requires
        0 <= i < pool.len(),
        k <= pool.len(),
        !sel[i],
    ensures
        pool[i].weight + sel_weight(pool, sel, k) <= prefix_weight(pool, k) + if i >= k {
            pool[i].weight as int
        } else {
            0int
        },
    decreases k,
{
    if k > 0 {
        lemma_own_plus_sel_weight(pool, sel, i, k - 1);
    }
}

/// Resolving a transaction whose pool-resident parents are all resolved
/// keeps every blocked id unresolved.
proof fn lemma_no_blocked_done_update(pool: Seq<TxModel>, done: Seq<bool>, i: int)
    requires
        unique_ids(pool),
        done.len() == pool.len(),
        0 <= i < pool.len(),
        no_blocked_done(pool, done),
        eligible(pool, done, i),
    ensures
        no_blocked_done(pool, done.update(i, true)),
{
    let done2 = done.update(i, true);
    assert forall|s: Set<Seq<char>>, k: int|
        blocked_ids(pool, s) && 0 <= k < pool.len() && k < done2.len() && s.contains(
            pool[k].txid,
        ) implies !done2[k] by {
        if k == i {
            // i's id is in a blocked set: some pool entry with the same id has a
            // parent inside the set; by uniqueness that entry is i itself, and
            // that parent is pool-resident and unresolved, contradicting
            // eligibility.
            let id = pool[i].txid;
            let k0 = choose|k0: int|
                0 <= k0 < pool.len() && pool[k0].txid == id && exists|m: int|
                    0 <= m < pool[k0].parents.len() && s.contains(pool[k0].parents[m]);
            assert(k0 == i);
            let m = choose|m: int|
                0 <= m < pool[i].parents.len() && s.contains(pool[i].parents[m]);
            let p = pool[i].parents[m];
            let k1 = choose|k1: int|
                0 <= k1 < pool.len() && pool[k1].txid == p && exists|m1: int|
                    0 <= m1 < pool[k1].parents.len() && s.contains(pool[k1].parents[m1]);
            assert(s.contains(pool[k1].txid));
            assert(!done[k1]);
            assert(par_satisfied(pool, done, i, m));
            assert(false);
        }
    }
}

/// If the sweep resolved everything, no blocked set can be inhabited,
/// so the pool is acyclic.
proof fn lemma_all_done_no_cycle(pool: Seq<TxModel>, done: Seq<bool>)
    requires
        done.len() == pool.len(),
        no_blocked_done(pool, done),
        forall|i: int| 0 <= i < done.len() ==> done[i],
    ensures
        !has_cycle(pool),
{
    if has_cycle(pool) {
        let (s, id) = choose|s: Set<Seq<char>>, id: Seq<char>|
            s.contains(id) && blocked_ids(pool, s);
        let k = choose|k: int|
            0 <= k < pool.len() && pool[k].txid == id && exists|m: int|
                0 <= m < pool[k].parents.len() && s.contains(pool[k].parents[m]);
        assert(s.contains(pool[k].txid));
        assert(!done[k]);
        assert(false);
    }
}

/// If every unresolved transaction has an unresolved pool-resident parent,
/// the unresolved ids form a blocked set: the pool has a cycle.
proof fn lemma_stuck_has_cycle(pool: Seq<TxModel>, done: Seq<bool>, i0: int)
    requires
        done.len() == pool.len(),
        0 <= i0 < pool.len(),
        !done[i0],
        forall|i: int| 0 <= i < pool.len() && !done[i] ==> blocked_now(pool, done, i),
    ensures
        has_cycle(pool),
{
    let s = Set::new(
        |id: Seq<char>|
            exists|k: int| 0 <= k < pool.len() && !done[k] && pool[k].txid == id,
    );
    assert(s.contains(pool[i0].txid));
    assert forall|id: Seq<char>| s.contains(id) implies exists|k: int|
        0 <= k < pool.len() && pool[k].txid == id && exists|m: int|
            0 <= m < pool[k].parents.len() && s.contains(pool[k].parents[m]) by {
        let k = choose|k: int| 0 <= k < pool.len() && !done[k] && pool[k].txid == id;
        assert(blocked_now(pool, done, k));
        let m = choose|m: int|
            0 <= m < pool[k].parents.len() && exists|k1: int|
                0 <= k1 < pool.len() && #[trigger] pool[k1].txid == #[trigger] pool[k].parents[m]
                    && !done[k1];
        let k1 = choose|k1: int|
            0 <= k1 < pool.len() && pool[k1].txid == pool[k].parents[m] && !done[k1];
        assert(s.contains(pool[k1].txid));
        assert(s.contains(pool[k].parents[m]));
        assert(0 <= m < pool[k].parents.len() && s.contains(pool[k].parents[m]));
    }
    assert(blocked_ids(pool, s));
}

/// The index of some pool transaction carrying the given id, if any.
pub fn find_index(pool: &Vec<Transaction>, id: &String) -> (r: Option<usize>)
    ensures
        match r {
            Some(k) => k < pool@.len() && views_of(pool@)[k as int].txid == id@,
            None => !has_id(views_of(pool@), id@),
        },
{
    let mut i: usize = 0;
    while i < pool.len()
        invariant
            i <= pool.len(),
            forall|k: int| 0 <= k < i ==> views_of(pool@)[k].txid != id@,
        decreases pool.len() - i,
    {
        if pool[i].txid == *id {
            assert(views_of(pool@)[i as int].txid == id@);
            return Some(i);
        }
        i = i + 1;
    }
    None
}

/// Computes the package metrics of every pool transaction, or reports a
/// dependency cycle.  Ancestor sums range over the transitive parent
/// closure restricted to pool-resident ids, each ancestor counted once;
/// ids absent from the pool are treated as already confirmed and
/// contribute nothing.
pub fn package_metrics(pool: &Vec<Transaction>) -> (r: Result<Vec<PackageMetrics>, SelectError>)
    requires
        unique_ids(views_of(pool@)),
        total_fee(views_of(pool@)) <= u64::MAX,
        total_weight(views_of(pool@)) <= u64::MAX,
    ensures
        match r {
            Ok(m) => {
                &&& !has_cycle(views_of(pool@))
                &&& m@.len() == pool@.len()
                &&& forall|i: int|
                    0 <= i < pool@.len() ==> views_of(pool@)[i].fee <= #[trigger] m@[i].fee
                        <= total_fee(views_of(pool@)) && views_of(pool@)[i].weight
                        <= m@[i].weight <= total_weight(views_of(pool@))
                &&& forall|i: int|
                    0 <= i < pool@.len() ==> #[trigger] m@[i].fee == views_of(pool@)[i].fee
                        + anc_fee(views_of(pool@), i, pool@.len() as int) && m@[i].weight
                        == views_of(pool@)[i].weight + anc_weight(
                        views_of(pool@),
                        i,
                        pool@.len() as int,
                    )
            },
            Err(e) => {
                &&& has_cycle(views_of(pool@))
                &&& match e {
                    SelectError::Cycle { txid } => has_id(views_of(pool@), txid@),
                    _ => false,
                }
            },
        },
{
    let ghost pv = views_of(pool@);
    let n = pool.len();
    let mut done: Vec<bool> = Vec::new();
    while done.len() < n
        invariant
            done@.len() <= n,
            forall|k: int| 0 <= k < done@.len() ==> !done@[k],
        decreases n - done@.len(),
    {
        done.push(false);
    }
    let mut anc: Vec<Vec<bool>> = Vec::new();
    while anc.len() < n
        invariant
            anc@.len() <= n,
            forall|k: int| 0 <= k < anc@.len() ==> anc@[k]@.len() == n,
        decreases n - anc@.len(),
    {
        let mut row: Vec<bool> = Vec::new();
        while row.len() < n
            invariant
                row@.len() <= n,
            decreases n - row@.len(),
        {
            row.push(false);
        }
        anc.push(row);
    }
    proof {
        assert(no_blocked_done(pv, done@));
    }

    let mut progress = true;
    while progress
        invariant
            pool@.len() == n,
            pv == views_of(pool@),
            unique_ids(pv),
            done@.len() == n,
            anc@.len() == n,
            forall|i: int| 0 <= i < n ==> #[trigger] anc@[i]@.len() == n,
            no_blocked_done(pv, done@),
            // resolved rows cover only resolved entries and never the row's own index
            forall|i: int, j: int|
                0 <= i < n && 0 <= j < n && done@[i] && #[trigger] anc@[i]@[j] ==> done@[j],
            forall|i: int| 0 <= i < n && done@[i] ==> !(#[trigger] anc@[i]@[i]),
            // a resolved row marks exactly the ancestors
            forall|i: int, j: int|
                #![trigger anc@[i]@[j]]
                #![trigger is_ancestor(pv, i, j)]
                0 <= i < n && 0 <= j < n && done@[i] ==> (anc@[i]@[j] <==> is_ancestor(pv, i, j)),
            // once a whole pass admits nothing, every unresolved entry is blocked
            !progress ==> forall|ii: int|
                0 <= ii < n && !done@[ii] ==> blocked_now(pv, done@, ii),
        decreases count_false(done@) + if progress { 1int } else { 0int },
    {
        let ghost done_at_start = done@;
        progress = false;
        let mut i: usize = 0;
        while i < n
            invariant
                pool@.len() == n,
                pv == views_of(pool@),
                unique_ids(pv),
                done@.len() == n,
                anc@.len() == n,
                forall|ii: int| 0 <= ii < n ==> #[trigger] anc@[ii]@.len() == n,
                no_blocked_done(pv, done@),
                forall|ii: int, j: int|
                    0 <= ii < n && 0 <= j < n && done@[ii] && #[trigger] anc@[ii]@[j]
                        ==> done@[j],
                forall|ii: int| 0 <= ii < n && done@[ii] ==> !(#[trigger] anc@[ii]@[ii]),
                forall|ii: int, j: int|
                    #![trigger anc@[ii]@[j]]
                    #![trigger is_ancestor(pv, ii, j)]
                    0 <= ii < n && 0 <= j < n && done@[ii] ==> (anc@[ii]@[j] <==> is_ancestor(
                        pv,
                        ii,
                        j,
                    )),
                i <= n,
                // a pass that has admitted nothing so far leaves done untouched and
                // has found every inspected unresolved entry blocked
                !progress ==> done@ == done_at_start,
                !progress ==> forall|ii: int|
                    0 <= ii < i && !done@[ii] ==> blocked_now(pv, done@, ii),
                progress ==> count_false(done@) < count_false(done_at_start),
            decreases n - i,
        {
            if !done[i] {
                // test whether every pool-resident parent is resolved
                let mut ok = true;
                let mut m: usize = 0;
                let ghost np = pv[i as int].parents.len();
                while m < pool[i].parent_txids.len()
                    invariant
                        pool@.len() == n,
                        pv == views_of(pool@),
                        unique_ids(pv),
                        done@.len() == n,
                        0 <= i < n,
                        np == pv[i as int].parents.len(),
                        m <= np,
                        ok ==> forall|m1: int|
                            0 <= m1 < m ==> par_satisfied(pv, done@, i as int, m1),
                        !ok ==> blocked_now(pv, done@, i as int),
                    decreases np - m,
                {
                    proof {
                        assert(pv[i as int].parents[m as int] == pool@[i as int].parent_txids@[m as int]@);
                    }
                    match find_index(pool, &pool[i].parent_txids[m]) {
                        None => {
                            proof {
                                assert(par_satisfied(pv, done@, i as int, m as int));
                            }
                        },
                        Some(k) => {
                            if !done[k] {
                                proof {
                                    assert(blocked_now(pv, done@, i as int));
                                }
                                ok = false;
                            } else {
                                proof {
                                    let pid = pv[i as int].parents[m as int];
                                    assert forall|k1: int|
                                        0 <= k1 < pv.len() && pv[k1].txid == pid
                                        implies done@[k1] by {
                                        if k1 != k as int {
                                            assert(pv[k1].txid == pv[k as int].txid);
                                        }
                                    }
                                }
                            }
                        },
                    }
                    m = m + 1;
                }
                if ok {
                    // resolve i: its ancestor set is the union, over its
                    // pool-resident parents, of the parent and the parent's set
                    proof {
                        assert(eligible(pv, done@, i as int));
                    }
                    let mut row: Vec<bool> = Vec::new();
                    while row.len() < n
                        invariant
                            row@.len() <= n,
                            forall|j: int| 0 <= j < row@.len() ==> !row@[j],
                        decreases n - row@.len(),
                    {
                        row.push(false);
                    }
                    let mut m2: usize = 0;
                    while m2 < pool[i].parent_txids.len()
                        invariant
                            pool@.len() == n,
                            pv == views_of(pool@),
                            unique_ids(pv),
                            done@.len() == n,
                            anc@.len() == n,
                            forall|ii: int| 0 <= ii < n ==> #[trigger] anc@[ii]@.len() == n,
                            forall|ii: int, j: int|
                                0 <= ii < n && 0 <= j < n && done@[ii] && #[trigger] anc@[ii]@[j]
                                    ==> done@[j],
                            forall|ii: int, j: int|
                                #![trigger anc@[ii]@[j]]
                                #![trigger is_ancestor(pv, ii, j)]
                                0 <= ii < n && 0 <= j < n && done@[ii] ==> (anc@[ii]@[j]
                                    <==> is_ancestor(pv, ii, j)),
                            0 <= i < n,
                            !done@[i as int],
                            eligible(pv, done@, i as int),
                            np == pv[i as int].parents.len(),
                            m2 <= np,
                            row@.len() == n,
                            forall|j: int| 0 <= j < n && #[trigger] row@[j] ==> done@[j],
                            // what the row has gathered so far is sound ...
                            forall|j: int|
                                0 <= j < n && #[trigger] row@[j] ==> is_ancestor(pv, i as int, j),
                            // ... and covers each processed parent and its ancestors
                            forall|m1: int, k: int|
                                #![trigger pv[i as int].parents[m1], row@[k]]
                                0 <= m1 < m2 && 0 <= k < n && pv[k].txid == pv[i as int].parents[m1]
                                    ==> row@[k],
                            forall|m1: int, k: int, j: int|
                                #![trigger pv[i as int].parents[m1], anc@[k]@[j]]
                                0 <= m1 < m2 && 0 <= k < n && pv[k].txid == pv[i as int].parents[m1]
                                    && 0 <= j < n && anc@[k]@[j] ==> row@[j],
                        decreases np - m2,
                    {
                        proof {
                            assert(pv[i as int].parents[m2 as int] == pool@[i as int].parent_txids@[m2 as int]@);
                        }
                        match find_index(pool, &pool[i].parent_txids[m2]) {
                            None => {
                                proof {
                                    assert forall|k: int|
                                        0 <= k < n && pv[k].txid == pv[i as int].parents[m2 as int]
                                        implies false by {
                                        assert(has_id(pv, pv[i as int].parents[m2 as int]));
                                    }
                                }
                            },
                            Some(p) => {
                                proof {
                                    assert(par_satisfied(pv, done@, i as int, m2 as int));
                                    assert(done@[p as int]);
                                    assert(pv[i as int].parents.contains(pv[p as int].txid));
                                    assert(edge(pv, i as int, p as int));
                                    lemma_edge_is_ancestor(pv, i as int, p as int);
                                }
                                row[p] = true;
                                let mut j: usize = 0;
                                while j < n
                                    invariant
                                        pool@.len() == n,
                                        pv == views_of(pool@),
                                        done@.len() == n,
                                        anc@.len() == n,
                                        forall|ii: int| 0 <= ii < n ==> #[trigger] anc@[ii]@.len() == n,
                                        forall|ii: int, jj: int|
                                            0 <= ii < n && 0 <= jj < n && done@[ii]
                                                && #[trigger] anc@[ii]@[jj] ==> done@[jj],
                                        forall|ii: int, jj: int|
                                            #![trigger anc@[ii]@[jj]]
                                            #![trigger is_ancestor(pv, ii, jj)]
                                            0 <= ii < n && 0 <= jj < n && done@[ii] ==> (
                                            anc@[ii]@[jj] <==> is_ancestor(pv, ii, jj)),
                                        0 <= i < n,
                                        0 <= p < n,
                                        done@[p as int],
                                        edge(pv, i as int, p as int),
                                        np == pv[i as int].parents.len(),
                                        m2 < np,
                                        pv[p as int].txid == pv[i as int].parents[m2 as int],
                                        unique_ids(pv),
                                        j <= n,
                                        row@.len() == n,
                                        forall|jj: int|
                                            0 <= jj < n && #[trigger] row@[jj] ==> done@[jj],
                                        forall|jj: int|
                                            0 <= jj < n && #[trigger] row@[jj] ==> is_ancestor(
                                                pv,
                                                i as int,
                                                jj,
                                            ),
                                        row@[p as int],
                                        forall|jj: int|
                                            0 <= jj < j && #[trigger] anc@[p as int]@[jj]
                                                ==> row@[jj],
                                        forall|m1: int, k: int|
                                            #![trigger pv[i as int].parents[m1], row@[k]]
                                            0 <= m1 < m2 && 0 <= k < n && pv[k].txid == pv[i as int].parents[m1] ==> row@[k],
                                        forall|m1: int, k: int, jj: int|
                                            #![trigger pv[i as int].parents[m1], anc@[k]@[jj]]
                                            0 <= m1 < m2 && 0 <= k < n && pv[k].txid == pv[i as int].parents[m1] && 0 <= jj < n
                                                && anc@[k]@[jj] ==> row@[jj],
                                    decreases n - j,
                                {
                                    if anc[p][j] {
                                        proof {
                                            assert(is_ancestor(pv, p as int, j as int));
                                            lemma_ancestor_prepend(
                                                pv,
                                                i as int,
                                                p as int,
                                                j as int,
                                            );
                                        }
                                        row[j] = true;
                                    }
                                    j = j + 1;
                                }
                                proof {
                                    // parent m2 and its ancestors are now covered
                                    assert forall|k: int|
                                        0 <= k < n && pv[k].txid == pv[i as int].parents[m2 as int]
                                        implies row@[k] by {
                                        if k != p as int {
                                            assert(pv[k].txid == pv[p as int].txid);
                                        }
                                    }
                                    assert forall|k: int, jj: int|
                                        0 <= k < n && pv[k].txid == pv[i as int].parents[m2 as int]
                                            && 0 <= jj < n && anc@[k]@[jj] implies row@[jj] by {
                                        if k != p as int {
                                            assert(pv[k].txid == pv[p as int].txid);
                                        }
                                    }
                                }
                            },
                        }
                        m2 = m2 + 1;
                    }
                    proof {
                        assert(!row@[i as int]);
                        // the row is complete: every ancestor of i is marked
                        assert forall|j: int|
                            0 <= j < n && is_ancestor(pv, i as int, j) implies row@[j] by {
                            lemma_ancestor_step(pv, i as int, j);
                            if edge(pv, i as int, j) {
                                let mm = choose|mm: int|
                                    0 <= mm < pv[i as int].parents.len() && pv[i as int].parents[mm]
                                        == pv[j].txid;
                                assert(pv[j].txid == pv[i as int].parents[mm]);
                                assert(row@[j]);
                            } else {
                                let a = choose|a: int|
                                    edge(pv, i as int, a) && is_ancestor(pv, a, j);
                                let mm = choose|mm: int|
                                    0 <= mm < pv[i as int].parents.len() && pv[i as int].parents[mm]
                                        == pv[a].txid;
                                assert(pv[a].txid == pv[i as int].parents[mm]);
                                assert(row@[a]);
                                assert(par_satisfied(pv, done@, i as int, mm));
                                assert(done@[a]);
                                assert(anc@[a]@[j]);
                                assert(row@[j]);
                            }
                        }
                        lemma_no_blocked_done_update(pv, done@, i as int);
                        lemma_count_false_update(done@, i as int);
                    }
                    let ghost row_model = row@;
                    anc[i] = row;
                    done[i] = true;
                    progress = true;
                    proof {
                        assert forall|ii: int, j: int|
                            0 <= ii < n && 0 <= j < n && done@[ii] implies (#[trigger] anc@[ii]@[j]
                            <==> #[trigger] is_ancestor(pv, ii, j)) by {
                            if ii == i as int {
                                assert(anc@[ii]@[j] == row_model[j]);
                            }
                        }
                    }
                }
            }
            i = i + 1;
        }
        proof {
            lemma_count_false_nonneg(done@);
        }
    }

    // every transaction resolved, or a cycle found
    let mut i: usize = 0;
    while i < n
        invariant
            pool@.len() == n,
            pv == views_of(pool@),
            done@.len() == n,
            i <= n,
            forall|k: int| 0 <= k < i ==> done@[k],
            forall|k: int| 0 <= k < n && !done@[k] ==> blocked_now(pv, done@, k),
            no_blocked_done(pv, done@),
            anc@.len() == n,
            forall|ii: int| 0 <= ii < n ==> #[trigger] anc@[ii]@.len() == n,
            forall|ii: int, j: int|
                0 <= ii < n && 0 <= j < n && done@[ii] && #[trigger] anc@[ii]@[j] ==> done@[j],
            forall|ii: int| 0 <= ii < n && done@[ii] ==> !(#[trigger] anc@[ii]@[ii]),
        decreases n - i,
    {
        if !done[i] {
            proof {
                lemma_stuck_has_cycle(pv, done@, i as int);
            }
            return Err(SelectError::Cycle { txid: pool[i].txid.clone() });
        }
        i = i + 1;
    }
    proof {
        lemma_all_done_no_cycle(pv, done@);
        lemma_prefix_fee_is_total(pv);
        lemma_prefix_weight_is_total(pv);
        assert forall|ii: int, j: int|
            0 <= ii < n && 0 <= j < n implies (#[trigger] anc@[ii]@[j] <==> #[trigger] is_ancestor(
            pv,
            ii,
            j,
        )) by {
            assert(done@[ii]);
        }
    }

    // sum each resolved ancestor set
    let mut metrics: Vec<PackageMetrics> = Vec::new();
    let mut i: usize = 0;
    while i < n
        invariant
            pool@.len() == n,
            pv == views_of(pool@),
            total_fee(pv) <= u64::MAX,
            total_weight(pv) <= u64::MAX,
            prefix_fee(pv, n as int) == total_fee(pv),
            prefix_weight(pv, n as int) == total_weight(pv),
            anc@.len() == n,
            forall|ii: int| 0 <= ii < n ==> #[trigger] anc@[ii]@.len() == n,
            forall|ii: int| 0 <= ii < n ==> !(#[trigger] anc@[ii]@[ii]),
            forall|ii: int, j: int|
                #![trigger anc@[ii]@[j]]
                #![trigger is_ancestor(pv, ii, j)]
                0 <= ii < n && 0 <= j < n ==> (anc@[ii]@[j] <==> is_ancestor(pv, ii, j)),
            i <= n,
            metrics@.len() == i,
            forall|k: int|
                0 <= k < i ==> pv[k].fee <= #[trigger] metrics@[k].fee <= total_fee(pv)
                    && pv[k].weight <= metrics@[k].weight <= total_weight(pv),
            forall|k: int|
                0 <= k < i ==> #[trigger] metrics@[k].fee == pv[k].fee + anc_fee(pv, k, n as int)
                    && metrics@[k].weight == pv[k].weight + anc_weight(pv, k, n as int),
        decreases n - i,
    {
        let ghost row = anc@[i as int]@;
        let mut pf: u64 = pool[i].fee;
        let mut pw: u64 = pool[i].weight as u64;
        let mut j: usize = 0;
        proof {
            lemma_own_plus_sel_fee(pv, row, i as int, n as int);
            lemma_own_plus_sel_weight(pv, row, i as int, n as int);
        }
        while j < n
            invariant
                pool@.len() == n,
                pv == views_of(pool@),
                anc@.len() == n,
                0 <= i < n,
                row == anc@[i as int]@,
                row.len() == n,
                !row[i as int],
                j <= n,
                pf == pv[i as int].fee + sel_fee(pv, row, j as int),
                pw == pv[i as int].weight + sel_weight(pv, row, j as int),
                pv[i as int].fee + sel_fee(pv, row, n as int) <= total_fee(pv) <= u64::MAX,
                pv[i as int].weight + sel_weight(pv, row, n as int) <= total_weight(pv)
                    <= u64::MAX,
            decreases n - j,
        {
            if anc[i][j] {
                proof {
                    lemma_sel_fee_monotone(pv, row, j + 1, n as int);
                    lemma_sel_weight_monotone(pv, row, j + 1, n as int);
                    lemma_sel_fee_nonneg(pv, row, j as int);
                    lemma_sel_weight_nonneg(pv, row, j as int);
                }
                pf = pf + pool[j].fee;
                pw = pw + pool[j].weight as u64;
            }
            j = j + 1;
        }
        proof {
            lemma_sel_fee_nonneg(pv, row, n as int);
            lemma_sel_weight_nonneg(pv, row, n as int);
            assert forall|j: int| 0 <= j < n implies (row[j] <==> is_ancestor(pv, i as int, j)) by {
                assert(row[j] == anc@[i as int]@[j]);
            }
            lemma_sel_matches_anc(pv, row, i as int, n as int);
        }
        metrics.push(PackageMetrics { fee: pf, weight: pw });
        i = i + 1;
    }
    Ok(metrics)
}

} // verus!
