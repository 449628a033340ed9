//! The priority ranker: a total order over pool transactions by descending
//! package fee-rate, with a deterministic tie-break — smaller package
//! weight first, then lexicographically smaller id.  Fee-rates are compared
//! as exact rationals by cross-multiplication, never by truncated division.

use vstd::prelude::*;
use vstd::string::StrSliceExecFns;

use crate::ancestry::PackageMetrics;
use crate::tx::{views_of, Transaction, TxModel};

verus! {

/// A pool transaction paired with its package metrics for this snapshot.
pub struct Ranked {
    pub tx: Transaction,
    pub fee: u64,
    pub weight: u64,
}

/// The mathematical value of a `Ranked`.
pub struct RankedModel {
    pub tx: TxModel,
    pub fee: u64,
    pub weight: u64,
}

impl View for Ranked {
    type V = RankedModel;

    open spec fn view(&self) -> RankedModel {
        RankedModel { tx: self.tx@, fee: self.fee, weight: self.weight }
    }
}

/// The ranked views of a sequence of ranked transactions.
pub open spec fn ranked_views(s: Seq<Ranked>) -> Seq<RankedModel> {
    s.map_values(|x: Ranked| x@)
}

/// The transaction views carried by a sequence of ranked transactions.
pub open spec fn carried(s: Seq<RankedModel>) -> Seq<TxModel> {
    s.map_values(|x: RankedModel| x.tx)
}

/// Lexicographic order on ids, by code point.
pub open spec fn lex_le(a: Seq<char>, b: Seq<char>) -> bool
    decreases a.len(),
{
    if a.len() == 0 {
        true
    } else if b.len() == 0 {
        false
    } else if a[0] != b[0] {
        (a[0] as u32) < (b[0] as u32)
    } else {
        lex_le(a.skip(1), b.skip(1))
    }
}

pub proof fn lemma_lex_le_total(a: Seq<char>, b: Seq<char>)
    ensures
        lex_le(a, b) || lex_le(b, a),
    decreases a.len(),
{
    if a.len() == 0 || b.len() == 0 {
    } else if a[0] != b[0] {
        vstd::utf8::char_u32_cast(a[0], a[0] as u32);
        vstd::utf8::char_u32_cast(b[0], b[0] as u32);
        assert((a[0] as u32) != (b[0] as u32));
        assert(lex_le(a, b) == ((a[0] as u32) < (b[0] as u32)));
        assert(lex_le(b, a) == ((b[0] as u32) < (a[0] as u32)));
    } else {
        lemma_lex_le_total(a.skip(1), b.skip(1));
    }
}

pub proof fn lemma_lex_le_trans(a: Seq<char>, b: Seq<char>, c: Seq<char>)
    requires
        lex_le(a, b),
        lex_le(b, c),
    ensures
        lex_le(a, c),
    decreases a.len(),
{
    if a.len() > 0 && b.len() > 0 && c.len() > 0 && a[0] == b[0] && b[0] == c[0] {
        lemma_lex_le_trans(a.skip(1), b.skip(1), c.skip(1));
    }
}

pub proof fn lemma_lex_le_antisym(a: Seq<char>, b: Seq<char>)
    requires
        lex_le(a, b),
        lex_le(b, a),
    ensures
        a == b,
    decreases a.len(),
{
    if a.len() == 0 {
        assert(b.len() == 0);
        assert(a =~= b);
    } else {
        assert(a[0] == b[0]);
        lemma_lex_le_antisym(a.skip(1), b.skip(1));
        assert(a =~= seq![a[0]] + a.skip(1));
        assert(b =~= seq![b[0]] + b.skip(1));
    }
}

/// `a` ranks no later than `b`: strictly greater package fee-rate first;
/// at equal rate the smaller package weight; at equal weight the
/// lexicographically smaller id.
pub open spec fn rank_le(a: RankedModel, b: RankedModel) -> bool {
    let ab = (a.fee as int) * (b.weight as int);
    let ba = (b.fee as int) * (a.weight as int);
    if ab != ba {
        ab > ba
    } else if a.weight != b.weight {
        a.weight < b.weight
    } else {
        lex_le(a.tx.txid, b.tx.txid)
    }
}

/// Sortedness by rank.
pub open spec fn sorted_by_rank(s: Seq<RankedModel>) -> bool {
    forall|i: int, j: int| 0 <= i < j < s.len() ==> rank_le(s[i], s[j])
}

/// Cross-multiplied rate comparisons chain, as rationals do, because
/// package weights are strictly positive.
proof fn lemma_rate_chain(af: int, aw: int, bf: int, bw: int, cf: int, cw: int)
    requires
        aw >= 1,
        bw >= 1,
        cw >= 1,
        af * bw >= bf * aw,
        bf * cw >= cf * bw,
    ensures
        af * cw >= cf * aw,
        af * bw > bf * aw || bf * cw > cf * bw ==> af * cw > cf * aw,
{
    assert(af * cw >= cf * aw && (af * bw > bf * aw || bf * cw > cf * bw ==> af * cw > cf * aw))
        by (nonlinear_arith)
        requires
            aw >= 1,
            bw >= 1,
            cw >= 1,
            af * bw >= bf * aw,
            bf * cw >= cf * bw,
    ;
}

pub proof fn lemma_rank_le_total(a: RankedModel, b: RankedModel)
    ensures
        rank_le(a, b) || rank_le(b, a),
{
    lemma_lex_le_total(a.tx.txid, b.tx.txid);
}

pub proof fn lemma_rank_le_trans(a: RankedModel, b: RankedModel, c: RankedModel)
    requires
        a.weight >= 1,
        b.weight >= 1,
        c.weight >= 1,
        rank_le(a, b),
        rank_le(b, c),
    ensures
        rank_le(a, c),
{
    lemma_rate_chain(
        a.fee as int,
        a.weight as int,
        b.fee as int,
        b.weight as int,
        c.fee as int,
        c.weight as int,
    );
    if (a.fee as int) * (b.weight as int) == (b.fee as int) * (a.weight as int) && (b.fee as int)
        * (c.weight as int) == (c.fee as int) * (b.weight as int) {
        lemma_rate_chain(
            c.fee as int,
            c.weight as int,
            b.fee as int,
            b.weight as int,
            a.fee as int,
            a.weight as int,
        );
        if a.weight == b.weight && b.weight == c.weight {
            lemma_lex_le_trans(a.tx.txid, b.tx.txid, c.tx.txid);
        }
    }
}

/// Two transactions that rank no later than each other agree on package
/// metrics and id.
pub proof fn lemma_rank_le_antisym(a: RankedModel, b: RankedModel)
    requires
        a.weight >= 1,
        b.weight >= 1,
        rank_le(a, b),
        rank_le(b, a),
    ensures
        a.tx.txid == b.tx.txid,
        a.weight == b.weight,
        a.fee == b.fee,
{
    assert(a.weight == b.weight);
    assert((a.fee as int) * (b.weight as int) == (b.fee as int) * (a.weight as int));
    assert(a.fee == b.fee) by (nonlinear_arith)
        requires
            a.weight == b.weight,
            a.weight >= 1,
            (a.fee as int) * (b.weight as int) == (b.fee as int) * (a.weight as int),
    ;
    lemma_lex_le_antisym(a.tx.txid, b.tx.txid);
}

/// Lexicographic comparison of two ids.
fn lex_le_exec(a: &String, b: &String) -> (r: bool)
    ensures
        r == lex_le(a@, b@),
{
    let alen = a.as_str().unicode_len();
    let blen = b.as_str().unicode_len();
    let mut i: usize = 0;
    proof {
        assert(a@.skip(0) =~= a@);
        assert(b@.skip(0) =~= b@);
    }
    while i < alen && i < blen
        invariant
            alen == a@.len(),
            blen == b@.len(),
            i <= alen,
            i <= blen,
            lex_le(a@, b@) == lex_le(a@.skip(i as int), b@.skip(i as int)),
            lex_le(b@, a@) == lex_le(b@.skip(i as int), a@.skip(i as int)),
        decreases alen - i,
    {
        let ca = a.as_str().get_char(i);
        let cb = b.as_str().get_char(i);
        proof {
            assert(a@.skip(i as int)[0] == a@[i as int]);
            assert(b@.skip(i as int)[0] == b@[i as int]);
        }
        if ca != cb {
            return (ca as u32) < (cb as u32);
        }
        proof {
            assert(a@.skip(i as int).skip(1) =~= a@.skip(i as int + 1));
            assert(b@.skip(i as int).skip(1) =~= b@.skip(i as int + 1));
        }
        i = i + 1;
    }
    proof {
        if i >= alen {
            assert(a@.skip(i as int).len() == 0);
        } else {
            assert(b@.skip(i as int).len() == 0);
            assert(a@.skip(i as int).len() > 0);
        }
    }
    i >= alen
}

/// Whether `a` ranks no later than `b`.
fn rank_le_exec(a: &Ranked, b: &Ranked) -> (r: bool)
    ensures
        r == rank_le(a@, b@),
{
    proof {
        assert((a.fee as int) * (b.weight as int) <= (u64::MAX as int) * (u64::MAX as int))
            by (nonlinear_arith)
            requires
                a.fee <= u64::MAX,
                b.weight <= u64::MAX,
        ;
        assert((b.fee as int) * (a.weight as int) <= (u64::MAX as int) * (u64::MAX as int))
            by (nonlinear_arith)
            requires
                b.fee <= u64::MAX,
                a.weight <= u64::MAX,
        ;
    }
    let ab = (a.fee as u128) * (b.weight as u128);
    let ba = (b.fee as u128) * (a.weight as u128);
    if ab != ba {
        ab > ba
    } else if a.weight != b.weight {
        a.weight < b.weight
    } else {
        lex_le_exec(&a.tx.txid, &b.tx.txid)
    }
}

/// The ranked order is unique: any two rank-sorted arrangements of the
/// same pool snapshot are identical, because the id breaks every tie.
/// With the ranker's other contracts this pins the engine's ordering:
/// repeated runs over identical input see the identical sequence.
pub proof fn lemma_rank_order_unique(s1: Seq<RankedModel>, s2: Seq<RankedModel>)
    requires
        s1.to_multiset() == s2.to_multiset(),
        sorted_by_rank(s1),
        sorted_by_rank(s2),
        forall|k: int| 0 <= k < s1.len() ==> (#[trigger] s1[k]).weight >= 1,
        forall|i: int, j: int| 0 <= i < j < s1.len() ==> s1[i].tx.txid != s1[j].tx.txid,
    ensures
        s1 == s2,
    decreases s1.len(),
{
    broadcast use vstd::multiset::group_multiset_axioms;
    broadcast use vstd::seq_lib::group_to_multiset_ensures;

    assert(s1.len() == s1.to_multiset().len());
    assert(s2.len() == s2.to_multiset().len());
    assert(s1.len() == s2.len());
    if s1.len() == 0 {
        assert(s1 =~= s2);
    } else {
        assert(s2.contains(s2[0]));
        assert(s2.to_multiset().count(s2[0]) > 0);
        assert(s1.to_multiset().count(s2[0]) > 0);
        assert(s1.contains(s2[0]));
        let i = choose|i: int| 0 <= i < s1.len() && s1[i] == s2[0];
        assert(s1.contains(s1[0]));
        assert(s1.to_multiset().count(s1[0]) > 0);
        assert(s2.to_multiset().count(s1[0]) > 0);
        assert(s2.contains(s1[0]));
        let j = choose|j: int| 0 <= j < s2.len() && s2[j] == s1[0];
        if i != 0 {
            assert(rank_le(s1[0], s1[i]));
            assert(rank_le(s2[0], s2[j]));
            lemma_rank_le_antisym(s1[0], s2[0]);
            assert(s1[i].tx.txid == s1[0].tx.txid);
            assert(false);
        }
        assert(s1[0] == s2[0]);
        let t1 = s1.drop_first();
        let t2 = s2.drop_first();
        assert(t1 =~= s1.remove(0));
        assert(t2 =~= s2.remove(0));
        assert(t1.to_multiset() == s1.to_multiset().remove(s1[0]));
        assert(t2.to_multiset() == s2.to_multiset().remove(s2[0]));
        assert(t1.to_multiset() == t2.to_multiset());
        assert forall|a: int, b: int| 0 <= a < b < t1.len() implies rank_le(t1[a], t1[b]) by {
            assert(t1[a] == s1[a + 1] && t1[b] == s1[b + 1]);
        }
        assert forall|a: int, b: int| 0 <= a < b < t2.len() implies rank_le(t2[a], t2[b]) by {
            assert(t2[a] == s2[a + 1] && t2[b] == s2[b + 1]);
        }
        assert forall|k: int| 0 <= k < t1.len() implies (#[trigger] t1[k]).weight >= 1 by {
            assert(t1[k] == s1[k + 1]);
        }
        assert forall|a: int, b: int| 0 <= a < b < t1.len() implies t1[a].tx.txid
            != t1[b].tx.txid by {
            assert(t1[a] == s1[a + 1] && t1[b] == s1[b + 1]);
        }
        lemma_rank_order_unique(t1, t2);
        assert forall|k: int| 0 <= k < s1.len() implies s1[k] == s2[k] by {
            if k > 0 {
                assert(t1[k - 1] == t2[k - 1]);
            }
        }
        assert(s1 =~= s2);
    }
}

/// The pool transactions paired with their metrics, in pool order.
pub open spec fn zipped(pool: Seq<TxModel>, ms: Seq<PackageMetrics>) -> Seq<RankedModel> {
    Seq::new(pool.len(), |i: int| RankedModel { tx: pool[i], fee: ms[i].fee, weight: ms[i].weight })
}

/// Orders the pool by rank: the result carries the same transactions with
/// the same package metrics, sorted by `rank_le`.  Because `rank_le` is a
/// total order that two distinct pool members cannot tie on completely
/// (the id breaks every tie), this ordering is unique: repeated runs on
/// the same pool produce the same sequence.
pub fn rank(pool: Vec<Transaction>, metrics: &Vec<PackageMetrics>) -> (r: Vec<Ranked>)
    requires
        metrics@.len() == pool@.len(),
        forall|i: int| 0 <= i < metrics@.len() ==> #[trigger] metrics@[i].weight >= 1,
    ensures
        ranked_views(r@).to_multiset() == zipped(views_of(pool@), metrics@).to_multiset(),
        carried(ranked_views(r@)).to_multiset() == views_of(pool@).to_multiset(),
        sorted_by_rank(ranked_views(r@)),
        forall|k: int| 0 <= k < r@.len() ==> #[trigger] ranked_views(r@)[k].weight >= 1,
{
    let ghost pv = views_of(pool@);
    let ghost zs = zipped(pv, metrics@);
    let n = pool.len();
    let mut rest = pool;
    let mut out: Vec<Ranked> = Vec::new();
    let mut i: usize = 0;
    proof {
        assert(ranked_views(out@) =~= zs.take(0));
        assert(carried(ranked_views(out@)) =~= pv.take(0));
    }
    while i < n
        invariant
            pv.len() == n,
            metrics@.len() == n,
            zs == zipped(pv, metrics@),
            forall|k: int| 0 <= k < n ==> #[trigger] metrics@[k].weight >= 1,
            i <= n,
            rest@.len() == n - i,
            forall|k: int| 0 <= k < rest@.len() ==> #[trigger] rest@[k]@ == pv[k + i],
            ranked_views(out@).to_multiset() == zs.take(i as int).to_multiset(),
            carried(ranked_views(out@)).to_multiset() == pv.take(i as int).to_multiset(),
            sorted_by_rank(ranked_views(out@)),
            forall|k: int| 0 <= k < out@.len() ==> #[trigger] ranked_views(out@)[k].weight >= 1,
        decreases n - i,
    {
        let tx = rest.remove(0);
        let item = Ranked { tx, fee: metrics[i].fee, weight: metrics[i].weight };
        proof {
            assert(item@ == zs[i as int]);
            assert(item@.tx == pv[i as int]);
            assert forall|k: int| 0 <= k < rest@.len() implies #[trigger] rest@[k]@ == pv[
                k + i + 1
            ] by {}
        }
        // find the insertion point that keeps the prefix sorted
        let mut j: usize = 0;
        let mut scanning = true;
        while scanning
            invariant
                j <= out@.len(),
                forall|k: int| 0 <= k < j ==> rank_le(#[trigger] ranked_views(out@)[k], item@),
                !scanning ==> j == out@.len() || !rank_le(ranked_views(out@)[j as int], item@),
            decreases out@.len() - j + if scanning { 1int } else { 0int },
        {
            if j < out.len() {
                if rank_le_exec(&out[j], &item) {
                    j = j + 1;
                } else {
                    scanning = false;
                }
            } else {
                scanning = false;
            }
        }
        proof {
            let ov = ranked_views(out@);
            if (j as int) < ov.len() {
                lemma_rank_le_total(ov[j as int], item@);
            }
            // item goes before every suffix element
            assert forall|k: int| j <= k < ov.len() implies rank_le(item@, ov[k]) by {
                if k > j {
                    lemma_rank_le_trans(item@, ov[j as int], ov[k]);
                }
            }
        }
        let ghost old_out = out@;
        out.insert(j, item);
        proof {
            let ov_new = ranked_views(out@);
            let ov_old = ranked_views(old_out);
            assert(ov_new =~= ov_old.insert(j as int, item@));
            assert(carried(ov_new) =~= carried(ov_old).insert(j as int, item@.tx));
            vstd::seq_lib::to_multiset_insert(ov_old, j as int, item@);
            vstd::seq_lib::to_multiset_insert(carried(ov_old), j as int, item@.tx);
            vstd::seq_lib::to_multiset_build(zs.take(i as int), zs[i as int]);
            vstd::seq_lib::to_multiset_build(pv.take(i as int), pv[i as int]);
            assert(zs.take(i as int).push(zs[i as int]) =~= zs.take(i as int + 1));
            assert(pv.take(i as int).push(pv[i as int]) =~= pv.take(i as int + 1));
            // sortedness with the new element spliced in
            assert forall|x: int, y: int| 0 <= x < y < ov_new.len() implies rank_le(
                ov_new[x],
                ov_new[y],
            ) by {
                if x < j && y == j {
                } else if x == j && y > j {
                } else if x < j && y > j {
                    assert(rank_le(ov_old[x], ov_old[y - 1]));
                } else if x != j && y != j {
                    assert(rank_le(ov_old[if x < j { x } else { x - 1 }], ov_old[if y < j { y } else { y - 1 }]));
                }
            }
        }
        i = i + 1;
    }
    proof {
        assert(zs.take(n as int) =~= zs);
        assert(pv.take(n as int) =~= pv);
    }
    out
}

} // verus!
