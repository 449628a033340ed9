//! Decoding of the textual record format: one record per line,
//! `id,fee,weight[,parent;parent;...]`.  The id must be nonempty, fee and
//! weight must be decimal numerals in range, the weight strictly positive;
//! a record with any other shape is rejected, never repaired.

use vstd::prelude::*;
use vstd::string::StrSliceExecFns;

use crate::errors::ParseError;
use crate::tx::Transaction;

verus! {

/// A decimal digit.
pub open spec fn is_digit(c: char) -> bool {
    48 <= (c as u32) && (c as u32) <= 57
}

/// A whitespace character: the code points that `str::trim` strips.
pub open spec fn is_space(c: char) -> bool {
    let u = c as u32;
    ||| u == 0x20
    ||| (0x09 <= u && u <= 0x0D)
    ||| u == 0x85
    ||| u == 0xA0
    ||| u == 0x1680
    ||| (0x2000 <= u && u <= 0x200A)
    ||| u == 0x2028
    ||| u == 0x2029
    ||| u == 0x202F
    ||| u == 0x205F
    ||| u == 0x3000
}

/// The string with leading and trailing whitespace removed.
pub open spec fn trim_of(s: Seq<char>) -> Seq<char>
    decreases s.len(),
{
    if s.len() == 0 {
        s
    } else if is_space(s[0]) {
        trim_of(s.skip(1))
    } else if is_space(s.last()) {
        trim_of(s.drop_last())
    } else {
        s
    }
}

fn is_space_char(c: char) -> (r: bool)
    ensures
        r == is_space(c),
{
    let u = c as u32;
    u == 0x20 || (0x09 <= u && u <= 0x0D) || u == 0x85 || u == 0xA0 || u == 0x1680 || (0x2000 <= u
        && u <= 0x200A) || u == 0x2028 || u == 0x2029 || u == 0x202F || u == 0x205F || u == 0x3000
}

/// Shrinks `[from, to)` to the whitespace-trimmed core of that span.
fn trim_span(value: &str, from: usize, to: usize) -> (r: (usize, usize))
    requires
        from <= to <= value@.len(),
    ensures
        from <= r.0 <= r.1 <= to,
        value@.subrange(r.0 as int, r.1 as int) == trim_of(
            value@.subrange(from as int, to as int),
        ),
{
    let mut a = from;
    let mut b = to;
    let mut scanning = true;
    while scanning
        invariant
            from <= a <= b <= to <= value@.len(),
            b == to,
            trim_of(value@.subrange(from as int, to as int)) == trim_of(
                value@.subrange(a as int, b as int),
            ),
            !scanning ==> a == b || !is_space(value@[a as int]),
        decreases b - a + if scanning { 1int } else { 0int },
    {
        if a < b {
            let c = value.get_char(a);
            if is_space_char(c) {
                proof {
                    let seg = value@.subrange(a as int, b as int);
                    assert(seg[0] == value@[a as int]);
                    assert(seg.skip(1) =~= value@.subrange(a as int + 1, b as int));
                }
                a = a + 1;
            } else {
                scanning = false;
            }
        } else {
            scanning = false;
        }
    }
    let mut shrinking = true;
    while shrinking
        invariant
            from <= a <= b <= to <= value@.len(),
            trim_of(value@.subrange(from as int, to as int)) == trim_of(
                value@.subrange(a as int, b as int),
            ),
            a < b ==> !is_space(value@[a as int]),
            !shrinking ==> a == b || !is_space(value@[b - 1]),
        decreases b - a + if shrinking { 1int } else { 0int },
    {
        if b > a {
            let c = value.get_char(b - 1);
            if is_space_char(c) {
                proof {
                    let seg = value@.subrange(a as int, b as int);
                    assert(seg[0] == value@[a as int]);
                    assert(seg.last() == value@[b - 1]);
                    assert(seg.drop_last() =~= value@.subrange(a as int, b as int - 1));
                }
                b = b - 1;
            } else {
                shrinking = false;
            }
        } else {
            shrinking = false;
        }
    }
    proof {
        let seg = value@.subrange(a as int, b as int);
        if a < b {
            assert(seg[0] == value@[a as int]);
            assert(seg.last() == value@[b - 1]);
            assert(trim_of(seg) == seg);
        } else {
            assert(seg.len() == 0);
        }
    }
    (a, b)
}

pub open spec fn all_digits(s: Seq<char>) -> bool {
    forall|i: int| 0 <= i < s.len() ==> is_digit(#[trigger] s[i])
}

/// The value of a decimal numeral.
pub open spec fn dec_value(s: Seq<char>) -> int
    decreases s.len(),
{
    if s.len() == 0 {
        0
    } else {
        dec_value(s.drop_last()) * 10 + ((s.last() as u32) - 48)
    }
}

/// The separator positions among the first `k` characters.
pub open spec fn seps_upto(s: Seq<char>, sep: char, k: int) -> Seq<int>
    decreases k,
{
    if k <= 0 {
        Seq::empty()
    } else if s[k - 1] == sep {
        seps_upto(s, sep, k - 1).push(k - 1)
    } else {
        seps_upto(s, sep, k - 1)
    }
}

/// All separator positions of the string.
pub open spec fn seps(s: Seq<char>, sep: char) -> Seq<int> {
    seps_upto(s, sep, s.len() as int)
}

/// The number of separated fields: one more than the separators.
pub open spec fn n_fields(s: Seq<char>, sep: char) -> int {
    seps(s, sep).len() as int + 1
}

pub open spec fn field_start(s: Seq<char>, sep: char, k: int) -> int {
    if k == 0 {
        0
    } else {
        seps(s, sep)[k - 1] + 1
    }
}

pub open spec fn field_end(s: Seq<char>, sep: char, k: int) -> int {
    if k == seps(s, sep).len() {
        s.len() as int
    } else {
        seps(s, sep)[k]
    }
}

/// Field `k` of the string: the span between separators `k-1` and `k`.
pub open spec fn field(s: Seq<char>, sep: char, k: int) -> Seq<char> {
    s.subrange(field_start(s, sep, k), field_end(s, sep, k))
}

/// The first `k` fields, each whitespace-trimmed, with the ones left
/// empty dropped.
pub open spec fn nonempty_upto(t: Seq<char>, sep: char, k: int) -> Seq<Seq<char>>
    decreases k,
{
    if k <= 0 {
        Seq::empty()
    } else {
        let prev = nonempty_upto(t, sep, k - 1);
        if trim_of(field(t, sep, k - 1)).len() > 0 {
            prev.push(trim_of(field(t, sep, k - 1)))
        } else {
            prev
        }
    }
}

/// The record's parent ids: the semicolon-separated entries of the fourth
/// field, each whitespace-trimmed, the empty ones dropped; an absent
/// fourth field means no parents.
pub open spec fn parent_list(s: Seq<char>) -> Seq<Seq<char>> {
    if n_fields(s, ',') == 4 {
        nonempty_upto(field(s, ',', 3), ';', seps(field(s, ',', 3), ';').len() as int + 1)
    } else {
        Seq::empty()
    }
}

pub open spec fn field_count_ok(s: Seq<char>) -> bool {
    n_fields(s, ',') == 3 || n_fields(s, ',') == 4
}

/// The trimmed fee field is a numeral that fits the fee type.
pub open spec fn fee_field_ok(s: Seq<char>) -> bool {
    let f = trim_of(field(s, ',', 1));
    f.len() > 0 && all_digits(f) && dec_value(f) <= u64::MAX
}

/// The trimmed weight field is a numeral that fits the weight type.
pub open spec fn weight_numeral_ok(s: Seq<char>) -> bool {
    let f = trim_of(field(s, ',', 2));
    f.len() > 0 && all_digits(f) && dec_value(f) <= u32::MAX
}

/// A well-formed record: three or four fields that, once trimmed, hold a
/// nonempty id, a fee numeral in range, and a strictly positive weight
/// numeral in range.
pub open spec fn record_valid(s: Seq<char>) -> bool {
    &&& field_count_ok(s)
    &&& trim_of(field(s, ',', 0)).len() > 0
    &&& fee_field_ok(s)
    &&& weight_numeral_ok(s)
    &&& dec_value(trim_of(field(s, ',', 2))) >= 1
}

proof fn lemma_dec_nonneg(seg: Seq<char>, a: int)
    requires
        all_digits(seg),
        0 <= a <= seg.len(),
    ensures
        dec_value(seg.subrange(0, a)) >= 0,
    decreases a,
{
    if a > 0 {
        lemma_dec_nonneg(seg, a - 1);
        assert(seg.subrange(0, a).drop_last() =~= seg.subrange(0, a - 1));
        assert(seg.subrange(0, a).last() == seg[a - 1]);
        assert(is_digit(seg[a - 1]));
    }
}

proof fn lemma_dec_monotone(seg: Seq<char>, a: int, b: int)
    requires
        all_digits(seg),
        0 <= a <= b <= seg.len(),
    ensures
        dec_value(seg.subrange(0, a)) <= dec_value(seg.subrange(0, b)),
    decreases b - a,
{
    if a < b {
        lemma_dec_monotone(seg, a, b - 1);
        lemma_dec_nonneg(seg, b - 1);
        assert(seg.subrange(0, b).drop_last() =~= seg.subrange(0, b - 1));
        assert(seg.subrange(0, b).last() == seg[b - 1]);
        assert(is_digit(seg[b - 1]));
    }
}

/// Reads the decimal numeral in `value[from..to]`, refusing an empty
/// span, a non-digit, and a value beyond the accumulator's range.
fn parse_num(value: &str, from: usize, to: usize) -> (r: Option<u64>)
    requires
        from <= to <= value@.len(),
    ensures
        ({
            let seg = value@.subrange(from as int, to as int);
            match r {
                Some(v) => from < to && all_digits(seg) && dec_value(seg) <= u64::MAX && v
                    == dec_value(seg),
                None => !(from < to && all_digits(seg) && dec_value(seg) <= u64::MAX),
            }
        }),
{
    let ghost seg = value@.subrange(from as int, to as int);
    if from >= to {
        return None;
    }
    let mut acc: u64 = 0;
    let mut i = from;
    proof {
        assert(seg.subrange(0, 0) =~= Seq::<char>::empty());
    }
    while i < to
        invariant
            from <= i <= to <= value@.len(),
            seg == value@.subrange(from as int, to as int),
            all_digits(seg.subrange(0, i - from)),
            acc == dec_value(seg.subrange(0, i - from)),
        decreases to - i,
    {
        let c = value.get_char(i);
        let ghost j = i - from;
        proof {
            assert(seg[j as int] == value@[i as int]);
        }
        let u = c as u32;
        if u < 48 || u > 57 {
            proof {
                assert(!is_digit(seg[j as int]));
            }
            return None;
        }
        let d = (u - 48) as u64;
        if acc > 1_844_674_407_370_955_161u64 {
            proof {
                if all_digits(seg) {
                    assert(seg.subrange(0, j as int + 1).drop_last() =~= seg.subrange(
                        0,
                        j as int,
                    ));
                    assert(seg.subrange(0, j as int + 1).last() == seg[j as int]);
                    assert(dec_value(seg.subrange(0, j as int + 1)) > u64::MAX);
                    lemma_dec_monotone(seg, j as int + 1, seg.len() as int);
                    assert(seg.subrange(0, seg.len() as int) =~= seg);
                }
            }
            return None;
        }
        let next = acc * 10;
        if d > u64::MAX - next {
            proof {
                if all_digits(seg) {
                    assert(seg.subrange(0, j as int + 1).drop_last() =~= seg.subrange(
                        0,
                        j as int,
                    ));
                    assert(seg.subrange(0, j as int + 1).last() == seg[j as int]);
                    assert(dec_value(seg.subrange(0, j as int + 1)) > u64::MAX);
                    lemma_dec_monotone(seg, j as int + 1, seg.len() as int);
                    assert(seg.subrange(0, seg.len() as int) =~= seg);
                }
            }
            return None;
        }
        acc = next + d;
        proof {
            assert(seg.subrange(0, j as int + 1).drop_last() =~= seg.subrange(0, j as int));
            assert(seg.subrange(0, j as int + 1).last() == seg[j as int]);
        }
        i = i + 1;
    }
    proof {
        assert(seg.subrange(0, (to - from) as int) =~= seg);
    }
    Some(acc)
}

/// Collects the separator positions of `value[base..base+len]`, relative
/// to `base`.
fn scan_seps(value: &str, base: usize, len: usize, sep: char) -> (r: Vec<usize>)
    requires
        base + len <= value@.len(),
        base + len <= usize::MAX,
    ensures
        ({
            let t = value@.subrange(base as int, (base + len) as int);
            let sp = seps_upto(t, sep, len as int);
            &&& r@.len() == sp.len()
            &&& r@.len() <= len
            &&& forall|k: int| 0 <= k < r@.len() ==> r@[k] as int == sp[k]
            &&& forall|k: int| 0 <= k < r@.len() ==> 0 <= #[trigger] r@[k] < len && t[r@[k] as int] == sep
            &&& forall|k1: int, k2: int| 0 <= k1 < k2 < r@.len() ==> r@[k1] < r@[k2]
        }),
{
    let ghost t = value@.subrange(base as int, (base + len) as int);
    let mut out: Vec<usize> = Vec::new();
    let mut j: usize = 0;
    while j < len
        invariant
            base + len <= value@.len(),
            base + len <= usize::MAX,
            t == value@.subrange(base as int, (base + len) as int),
            j <= len,
            out@.len() <= j,
            out@.len() == seps_upto(t, sep, j as int).len(),
            forall|k: int| 0 <= k < out@.len() ==> out@[k] as int == seps_upto(t, sep, j as int)[k],
            forall|k: int| 0 <= k < out@.len() ==> 0 <= #[trigger] out@[k] < j && t[out@[k] as int] == sep,
            forall|k1: int, k2: int| 0 <= k1 < k2 < out@.len() ==> out@[k1] < out@[k2],
        decreases len - j,
    {
        let c = value.get_char(base + j);
        proof {
            assert(t[j as int] == value@[(base + j) as int]);
        }
        if c == sep {
            out.push(j);
        }
        j = j + 1;
    }
    out
}

impl Transaction {
    /// Decodes one record of the form `id,fee,weight[,parent;...]`,
    /// trimming whitespace around every field as the canonical reader
    /// does.  Success is owed exactly to well-formed records, and the
    /// decoded transaction carries the record's trimmed fields verbatim.
    pub fn parser(value: &str) -> (r: Result<Transaction, ParseError>)
        ensures
            match r {
                Ok(t) => {
                    &&& record_valid(value@)
                    &&& t@.txid == trim_of(field(value@, ',', 0))
                    &&& t@.fee == dec_value(trim_of(field(value@, ',', 1)))
                    &&& t@.weight == dec_value(trim_of(field(value@, ',', 2)))
                    &&& t@.parents == parent_list(value@)
                },
                Err(e) => {
                    &&& !record_valid(value@)
                    &&& match e {
                        ParseError::WrongFieldCount => !field_count_ok(value@),
                        ParseError::EmptyId => field_count_ok(value@) && trim_of(
                            field(value@, ',', 0),
                        ).len() == 0,
                        ParseError::BadFee => field_count_ok(value@) && trim_of(
                            field(value@, ',', 0),
                        ).len() > 0 && !fee_field_ok(value@),
                        ParseError::BadWeight => field_count_ok(value@) && trim_of(
                            field(value@, ',', 0),
                        ).len() > 0 && fee_field_ok(value@) && !weight_numeral_ok(value@),
                        ParseError::ZeroWeight => field_count_ok(value@) && trim_of(
                            field(value@, ',', 0),
                        ).len() > 0 && fee_field_ok(value@) && weight_numeral_ok(value@)
                            && dec_value(trim_of(field(value@, ',', 2))) == 0,
                    }
                },
            },
    {
        let n = value.unicode_len();
        let commas = scan_seps(value, 0, n, ',');
        let ghost s = value@;
        let ghost cs = seps(s, ',');
        proof {
            assert(s.subrange(0, n as int) =~= s);
            assert(cs == seps_upto(s, ',', n as int));
            assert forall|k: int| 0 <= k < commas@.len() implies commas@[k] as int == cs[k] by {}
        }
        if !(commas.len() == 2 || commas.len() == 3) {
            return Err(ParseError::WrongFieldCount);
        }
        let e0 = commas[0];
        let s1 = e0 + 1;
        let e1 = commas[1];
        let s2 = e1 + 1;
        let e2 = if commas.len() == 3 {
            commas[2]
        } else {
            n
        };
        proof {
            assert(field_start(s, ',', 0) == 0 && field_end(s, ',', 0) == e0 as int);
            assert(field_start(s, ',', 1) == s1 as int && field_end(s, ',', 1) == e1 as int);
            assert(field_start(s, ',', 2) == s2 as int && field_end(s, ',', 2) == e2 as int);
        }
        let id_span = trim_span(value, 0, e0);
        proof {
            assert(trim_of(field(s, ',', 0)) == s.subrange(id_span.0 as int, id_span.1 as int));
        }
        if id_span.1 == id_span.0 {
            return Err(ParseError::EmptyId);
        }
        let txid = value.substring_char(id_span.0, id_span.1).to_owned();
        proof {
            assert(txid@ == trim_of(field(s, ',', 0)));
        }
        let fee_span = trim_span(value, s1, e1);
        proof {
            assert(field(s, ',', 1) == s.subrange(s1 as int, e1 as int));
            assert(trim_of(field(s, ',', 1)) == s.subrange(fee_span.0 as int, fee_span.1 as int));
        }
        let fee = match parse_num(value, fee_span.0, fee_span.1) {
            Some(v) => v,
            None => {
                return Err(ParseError::BadFee);
            },
        };
        let weight_span = trim_span(value, s2, e2);
        proof {
            assert(field(s, ',', 2) == s.subrange(s2 as int, e2 as int));
            assert(trim_of(field(s, ',', 2)) == s.subrange(
                weight_span.0 as int,
                weight_span.1 as int,
            ));
        }
        let w64 = match parse_num(value, weight_span.0, weight_span.1) {
            Some(v) => v,
            None => {
                return Err(ParseError::BadWeight);
            },
        };
        if w64 > 0xFFFF_FFFFu64 {
            return Err(ParseError::BadWeight);
        }
        if w64 == 0 {
            return Err(ParseError::ZeroWeight);
        }
        let weight = w64 as u32;

        // the optional fourth field: semicolon-separated parent ids
        let mut parents: Vec<String> = Vec::new();
        if commas.len() == 3 {
            let p3 = commas[2] + 1;
            let flen = n - p3;
            let ghost f3 = s.subrange(p3 as int, n as int);
            proof {
                assert(field_start(s, ',', 3) == p3 as int && field_end(s, ',', 3) == n as int);
                assert(field(s, ',', 3) == f3);
            }
            let semis = scan_seps(value, p3, flen, ';');
            let ghost sm = seps(f3, ';');
            proof {
                assert(f3.subrange(0, flen as int) =~= f3);
                assert(sm == seps_upto(f3, ';', flen as int));
            }
            let total = semis.len() + 1;
            let mut k: usize = 0;
            while k < total
                invariant
                    p3 + flen == n <= value@.len(),
                    s == value@,
                    f3 == s.subrange(p3 as int, n as int),
                    sm == seps(f3, ';'),
                    sm.len() == semis@.len(),
                    f3.len() == flen,
                    semis@.len() + 1 == total,
                    forall|q: int| 0 <= q < semis@.len() ==> semis@[q] as int == sm[q],
                    forall|q: int|
                        0 <= q < semis@.len() ==> 0 <= #[trigger] semis@[q] < flen && f3[semis@[q] as int]
                            == ';',
                    forall|q1: int, q2: int| 0 <= q1 < q2 < semis@.len() ==> semis@[q1] < semis@[q2],
                    k <= total,
                    parents@.map_values(|p: String| p@) == nonempty_upto(f3, ';', k as int),
                decreases total - k,
            {
                let rs = if k == 0 {
                    0
                } else {
                    semis[k - 1] + 1
                };
                let re = if k == semis.len() {
                    flen
                } else {
                    semis[k]
                };
                proof {
                    assert(field_start(f3, ';', k as int) == rs as int);
                    assert(field_end(f3, ';', k as int) == re as int);
                    if k > 0 && k < semis@.len() {
                        assert(semis@[k as int - 1] < semis@[k as int]);
                    }
                }
                let ghost old_parents = parents@;
                let seg_span = trim_span(value, p3 + rs, p3 + re);
                proof {
                    assert(f3.subrange(rs as int, re as int) =~= s.subrange(
                        (p3 + rs) as int,
                        (p3 + re) as int,
                    ));
                    assert(field(f3, ';', k as int) == f3.subrange(rs as int, re as int));
                    assert(trim_of(field(f3, ';', k as int)) == s.subrange(
                        seg_span.0 as int,
                        seg_span.1 as int,
                    ));
                }
                if seg_span.1 > seg_span.0 {
                    let p = value.substring_char(seg_span.0, seg_span.1).to_owned();
                    proof {
                        assert(p@ == trim_of(field(f3, ';', k as int)));
                    }
                    parents.push(p);
                    proof {
                        assert(parents@.map_values(|p: String| p@) =~= old_parents.map_values(
                            |p: String| p@,
                        ).push(trim_of(field(f3, ';', k as int))));
                    }
                } else {
                    proof {
                        assert(trim_of(field(f3, ';', k as int)).len() == 0);
                    }
                }
                k = k + 1;
            }
        }
        let t = Transaction { txid, fee, weight, parent_txids: parents };
        proof {
            assert(t@.parents == parent_list(s));
        }
        Ok(t)
    }
}

} // verus!
