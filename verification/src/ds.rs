//! The array of symbol slots and the frequency-bucketed lists of pair
//! records that an incremental RePair works on. Records live in an arena
//! (`Vec<Record>`) and refer to each other by index.
use vstd::prelude::*;
use std::collections::HashMap;
use crate::module::comp;

verus! {

broadcast use vstd::std_specs::hash::group_hash_axioms;

/// A pair of adjacent symbols.
#[derive(Debug, Clone, Copy, PartialEq, Eq, Structural, Hash)]
pub struct Bigram {
    pub left: u32,
    pub right: u32,
}

/// One slot of the symbol array: the symbol there (`None` once the slot has
/// been merged into its left neighbour) and two links to other slots.
#[derive(Debug, Clone, Copy)]
pub struct Bucket {
    pub val: Option<u32>,
    pub prev: Option<usize>,
    pub next: Option<usize>,
}

/// A pair record: the slot where its occurrence list starts, the number of
/// occurrences, and its neighbours in the list of records of equal
/// frequency.
#[derive(Debug, Clone, Copy)]
pub struct Record {
    pub loc: usize,
    pub freq: usize,
    pub prev: Option<usize>,
    pub next: Option<usize>,
}

/// The first and last record of a list of records.
#[derive(Debug, Clone, Copy)]
pub struct List {
    pub head: Option<usize>,
    pub tail: Option<usize>,
}

/// The slot to the right of slot `i`: for an emptied slot its `next` link,
/// else `i + 1` if that exists.
pub open spec fn rgh_pos_of(a: Seq<Bucket>, i: int) -> Option<usize> {
    if a[i].val is None {
        a[i].next
    } else if i + 1 < a.len() {
        Some((i + 1) as usize)
    } else {
        None
    }
}

/// The slot to the left of slot `i`: for an emptied slot its `prev` link,
/// else `i - 1` if that exists.
pub open spec fn lft_pos_of(a: Seq<Bucket>, i: int) -> Option<usize> {
    if a[i].val is None {
        a[i].prev
    } else if i > 0 {
        Some((i - 1) as usize)
    } else {
        None
    }
}

/// The pair that starts at slot `i`, if both it and its right slot hold symbols.
pub open spec fn rgh_bg_of(a: Seq<Bucket>, i: int) -> Option<Bigram> {
    match rgh_pos_of(a, i) {
        Some(j) => match (a[i].val, a[j as int].val) {
            (Some(x), Some(y)) => Some(Bigram { left: x, right: y }),
            _ => None,
        },
        None => None,
    }
}

/// The pair that ends at slot `i`, if both it and its left slot hold symbols.
pub open spec fn lft_bg_of(a: Seq<Bucket>, i: int) -> Option<Bigram> {
    match lft_pos_of(a, i) {
        Some(j) => match (a[j as int].val, a[i].val) {
            (Some(x), Some(y)) => Some(Bigram { left: x, right: y }),
            _ => None,
        },
        None => None,
    }
}

/// Between two filled neighbouring slots no link is read: the pair seen
/// rightwards from the first is the pair seen leftwards from the second.
pub proof fn lemma_adjacent_pair(a: Seq<Bucket>, i: int)
    requires
        0 <= i,
        i + 1 < a.len(),
        a.len() <= usize::MAX,
        a[i].val is Some,
        a[i + 1].val is Some,
    ensures
        rgh_pos_of(a, i) == Some((i + 1) as usize),
        lft_pos_of(a, i + 1) == Some(i as usize),
        rgh_bg_of(a, i) == Some(Bigram { left: a[i].val.unwrap(), right: a[i + 1].val.unwrap() }),
        rgh_bg_of(a, i) == lft_bg_of(a, i + 1),
{
    assert(((i + 1) as usize) as int == i + 1);
    assert((i as usize) as int == i);
}

/// A link that, if present, points below `n`.
pub open spec fn link_below(link: Option<usize>, n: nat) -> bool {
    link matches Some(j) ==> j < n
}



/// The pair at position `k` of `seq` is `(l, r)`.
pub open spec fn pair_is(seq: Seq<u32>, k: int, l: u32, r: u32) -> bool {
    0 <= k < seq.len() - 1 && seq[k] == l && seq[k + 1] == r
}

/// The first position at or after `j` where the pair `(l, r)` starts.
pub open spec fn occ_from(seq: Seq<u32>, l: u32, r: u32, j: int) -> Option<int>
    decreases seq.len() - j,
{
    if j < 0 || j >= seq.len() - 1 {
        None
    } else if seq[j] == l && seq[j + 1] == r {
        Some(j)
    } else {
        occ_from(seq, l, r, j + 1)
    }
}

/// The last position before `j` where the pair `(l, r)` starts.
pub open spec fn occ_before(seq: Seq<u32>, l: u32, r: u32, j: int) -> Option<int>
    decreases j,
{
    if j <= 0 {
        None
    } else if j < seq.len() && seq[j - 1] == l && seq[j] == r {
        Some(j - 1)
    } else {
        occ_before(seq, l, r, j - 1)
    }
}

/// The number of positions at or after `j` where the pair `(l, r)` starts.
pub open spec fn count_from(seq: Seq<u32>, l: u32, r: u32, j: int) -> nat
    decreases seq.len() - j,
{
    if j < 0 || j >= seq.len() - 1 {
        0
    } else {
        (if seq[j] == l && seq[j + 1] == r {
            1nat
        } else {
            0nat
        }) + count_from(seq, l, r, j + 1)
    }
}

/// The key under which the pair at position `k` is recorded.
pub open spec fn key_at(seq: Seq<u32>, k: int) -> u64 {
    comp::pair_key(seq[k], seq[k + 1]) as u64
}

/// The record that describes the pairs `(l, r)` at or after `j`.
pub open spec fn record_from(seq: Seq<u32>, l: u32, r: u32, j: int) -> Record {
    Record { loc: occ_from(seq, l, r, j).unwrap() as usize, freq: count_from(seq, l, r, j) as usize, prev: None, next: None }
}

/// The slots after preparation from `old` for the symbols `ids`, with the
/// occurrence lists built from position `cur` on: every slot holds its
/// symbol; a pair position from `cur` on links forward to the next position
/// of the same pair; a pair position links back to the previous position of
/// the same pair when that lies at or after `cur`; other links are as in
/// `old`.
pub open spec fn slots_from(fin: Seq<Bucket>, old: Seq<Bucket>, ids: Seq<u32>, cur: int) -> bool {
    &&& fin.len() == old.len()
    &&& ids.len() == old.len()
    &&& forall|k: int|
        #![trigger fin[k]]
        0 <= k < fin.len() ==> {
            &&& fin[k].val == Some(ids[k])
            &&& fin[k].next == if cur <= k < ids.len() - 1 && occ_from(ids, ids[k], ids[k + 1], k + 1) is Some {
                Some(occ_from(ids, ids[k], ids[k + 1], k + 1).unwrap() as usize)
            } else {
                old[k].next
            }
            &&& fin[k].prev == if k < ids.len() - 1 && occ_before(ids, ids[k], ids[k + 1], k) is Some
                && occ_before(ids, ids[k], ids[k + 1], k).unwrap() >= cur {
                Some(occ_before(ids, ids[k], ids[k + 1], k).unwrap() as usize)
            } else {
                old[k].prev
            }
        }
}

/// The table `hm` and the arena `recs` describe the pairs of `ids` at or
/// after `cur`: each such pair has a record with its first position and
/// count there, and there is nothing else.
pub open spec fn records_from(hm: Map<u64, usize>, recs: Seq<Record>, ids: Seq<u32>, cur: int) -> bool {
    &&& forall|k: int|
        #![trigger key_at(ids, k)]
        cur <= k < ids.len() - 1 ==> {
            &&& hm.contains_key(key_at(ids, k))
            &&& hm[key_at(ids, k)] < recs.len()
            &&& recs[hm[key_at(ids, k)] as int] == record_from(ids, ids[k], ids[k + 1], cur)
        }
    &&& forall|key: u64| #[trigger] hm.contains_key(key) ==> exists|k: int| cur <= k < ids.len() - 1 && key == key_at(ids, k)
    &&& forall|r: int| 0 <= r < recs.len() ==> #[trigger] record_owned(hm, ids, cur, r)
}

/// Some pair position at or after `cur` is recorded at index `r`.
pub open spec fn record_owned(hm: Map<u64, usize>, ids: Seq<u32>, cur: int, r: int) -> bool {
    exists|k: int| cur <= k < ids.len() - 1 && #[trigger] hm[key_at(ids, k)] == r
}

/// `f` is the largest count of a pair of `ids` at or after `cur`, or `1`.
pub open spec fn max_count_from(f: int, ids: Seq<u32>, cur: int) -> bool {
    &&& f >= 1
    &&& forall|k: int| cur <= k < ids.len() - 1 ==> #[trigger] pos_count(ids, k, cur) <= f
    &&& f == 1 || exists|k: int| cur <= k < ids.len() - 1 && #[trigger] pos_count(ids, k, cur) == f
}

/// The count, at or after `cur`, of the pair at position `k`.
pub open spec fn pos_count(ids: Seq<u32>, k: int, cur: int) -> nat {
    count_from(ids, ids[k], ids[k + 1], cur)
}

/// `occ_from` finds the first occurrence at or after `j`.
proof fn lemma_occ_from(seq: Seq<u32>, l: u32, r: u32, j: int, m: int)
    requires
        0 <= j,
    ensures
        occ_from(seq, l, r, j) == Some(m) <==> (j <= m && pair_is(seq, m, l, r) && forall|t: int|
            j <= t < m ==> !#[trigger] pair_is(seq, t, l, r)),
    decreases seq.len() - j,
{
    if j >= seq.len() - 1 {
    } else if seq[j] == l && seq[j + 1] == r {
        assert(pair_is(seq, j, l, r));
    } else {
        assert(!pair_is(seq, j, l, r));
        lemma_occ_from(seq, l, r, j + 1, m);
    }
}

/// `occ_from` finds nothing exactly when no occurrence lies at or after `j`.
proof fn lemma_occ_from_none(seq: Seq<u32>, l: u32, r: u32, j: int)
    requires
        0 <= j,
    ensures
        occ_from(seq, l, r, j) is None <==> forall|t: int| j <= t ==> !#[trigger] pair_is(seq, t, l, r),
    decreases seq.len() - j,
{
    if j >= seq.len() - 1 {
    } else if seq[j] == l && seq[j + 1] == r {
        assert(pair_is(seq, j, l, r));
    } else {
        assert(!pair_is(seq, j, l, r));
        lemma_occ_from_none(seq, l, r, j + 1);
        if forall|t: int| j + 1 <= t ==> !#[trigger] pair_is(seq, t, l, r) {
            assert forall|t: int| j <= t implies !#[trigger] pair_is(seq, t, l, r) by {
                if t > j {
                    assert(j + 1 <= t);
                }
            }
        }
    }
}

/// `occ_before` finds the last occurrence before `j`.
proof fn lemma_occ_before(seq: Seq<u32>, l: u32, r: u32, j: int, m: int)
    requires
        j < seq.len(),
    ensures
        occ_before(seq, l, r, j) == Some(m) <==> (m < j && pair_is(seq, m, l, r) && forall|t: int|
            m < t < j ==> !#[trigger] pair_is(seq, t, l, r)),
    decreases j,
{
    if j <= 0 {
    } else if j < seq.len() && seq[j - 1] == l && seq[j] == r {
        assert(pair_is(seq, j - 1, l, r));
    } else {
        assert(!pair_is(seq, j - 1, l, r));
        lemma_occ_before(seq, l, r, j - 1, m);
    }
}

/// With no occurrence at or after `j` the count from `j` is zero.
proof fn lemma_count_from_zero(seq: Seq<u32>, l: u32, r: u32, j: int)
    requires
        0 <= j,
        forall|t: int| j <= t ==> !#[trigger] pair_is(seq, t, l, r),
    ensures
        count_from(seq, l, r, j) == 0,
    decreases seq.len() - j,
{
    if j < seq.len() - 1 {
        assert(!pair_is(seq, j, l, r));
        lemma_count_from_zero(seq, l, r, j + 1);
    }
}

/// The count from `j` is at most the number of positions left.
proof fn lemma_count_from_bound(seq: Seq<u32>, l: u32, r: u32, j: int)
    requires
        0 <= j < seq.len(),
    ensures
        count_from(seq, l, r, j) <= seq.len() - 1 - j,
    decreases seq.len() - j,
{
    if j < seq.len() - 1 {
        lemma_count_from_bound(seq, l, r, j + 1);
    }
}

/// Equal keys mean equal pairs.
proof fn lemma_key_at(seq: Seq<u32>, k1: int, k2: int)
    requires
        0 <= k1 < seq.len() - 1,
        0 <= k2 < seq.len() - 1,
    ensures
        key_at(seq, k1) == key_at(seq, k2) <==> (seq[k1] == seq[k2] && seq[k1 + 1] == seq[k2 + 1]),
{
    let a = comp::pair_key(seq[k1], seq[k1 + 1]);
    let b = comp::pair_key(seq[k2], seq[k2 + 1]);
    assert(0 <= a < 0x1_0000_0000_0000_0000);
    assert(0 <= b < 0x1_0000_0000_0000_0000);
    if key_at(seq, k1) == key_at(seq, k2) {
        assert(a == b);
        comp::lemma_pair_key_injective(seq[k1], seq[k1 + 1], seq[k2], seq[k2 + 1]);
    }
}

/// Before the backward pass every slot holds its symbol and keeps its links.
proof fn lemma_slots_start(a: Seq<Bucket>, old: Seq<Bucket>, ids: Seq<u32>)
    requires
        a.len() == old.len() == ids.len() >= 1,
        forall|t: int| 0 <= t < a.len() ==> #[trigger] a[t] == (Bucket { val: Some(ids[t]), ..old[t] }),
    ensures
        slots_from(a, old, ids, ids.len() - 1),
{
    assert forall|k: int| 0 <= k < a.len() implies {
        &&& a[k].val == Some(ids[k])
        &&& a[k].next == if ids.len() - 1 <= k < ids.len() - 1 && occ_from(ids, ids[k], ids[k + 1], k + 1) is Some {
            Some(occ_from(ids, ids[k], ids[k + 1], k + 1).unwrap() as usize)
        } else {
            old[k].next
        }
        &&& a[k].prev == if k < ids.len() - 1 && occ_before(ids, ids[k], ids[k + 1], k) is Some
            && occ_before(ids, ids[k], ids[k + 1], k).unwrap() >= ids.len() - 1 {
            Some(occ_before(ids, ids[k], ids[k + 1], k).unwrap() as usize)
        } else {
            old[k].prev
        }
    } by {
        assert(a[k] == (Bucket { val: Some(ids[k]), ..old[k] }));
        if k < ids.len() - 1 {
            if let Some(m) = occ_before(ids, ids[k], ids[k + 1], k) {
                lemma_occ_before(ids, ids[k], ids[k + 1], k, m);
            }
        }
    }
}

/// One step of the backward pass over the pair positions, for the slots:
/// when the pair at `i` occurs again from `i + 1` on, at `j`, slot `i`
/// links forward to `j` and slot `j` back to `i`; otherwise nothing changes.
proof fn lemma_slots_step(a0: Seq<Bucket>, a1: Seq<Bucket>, old: Seq<Bucket>, ids: Seq<u32>, i: int)
    requires
        0 <= i < ids.len() - 1,
        slots_from(a0, old, ids, i + 1),
        ({
            let nx = occ_from(ids, ids[i], ids[i + 1], i + 1);
            match nx {
                Some(j) => a1 == a0.update(i, Bucket { next: Some(j as usize), ..a0[i] }).update(
                    j,
                    Bucket { prev: Some(i as usize), ..a0[j] },
                ),
                None => a1 == a0,
            }
        }),
    ensures
        slots_from(a1, old, ids, i),
{
    let l = ids[i];
    let r = ids[i + 1];
    let nx = occ_from(ids, l, r, i + 1);
    assert(pair_is(ids, i, l, r));
    if let Some(j) = nx {
        lemma_occ_from(ids, l, r, i + 1, j);
        assert(i < j);
    }
    assert forall|k: int| 0 <= k < a1.len() implies {
        &&& a1[k].val == Some(ids[k])
        &&& a1[k].next == if i <= k < ids.len() - 1 && occ_from(ids, ids[k], ids[k + 1], k + 1) is Some {
            Some(occ_from(ids, ids[k], ids[k + 1], k + 1).unwrap() as usize)
        } else {
            old[k].next
        }
        &&& a1[k].prev == if k < ids.len() - 1 && occ_before(ids, ids[k], ids[k + 1], k) is Some
            && occ_before(ids, ids[k], ids[k + 1], k).unwrap() >= i {
            Some(occ_before(ids, ids[k], ids[k + 1], k).unwrap() as usize)
        } else {
            old[k].prev
        }
    } by {
        assert(a0[k] == a0[k]);
        if k < ids.len() - 1 {
            let ob = occ_before(ids, ids[k], ids[k + 1], k);
            if ob == Some(i) {
                lemma_occ_before(ids, ids[k], ids[k + 1], k, i);
                assert(pair_is(ids, k, ids[k], ids[k + 1]));
                lemma_occ_from(ids, l, r, i + 1, k);
                assert(forall|t: int| i + 1 <= t < k ==> !#[trigger] pair_is(ids, t, l, r));
                assert(nx == Some(k));
            }
            if let Some(j) = nx {
                if k == j {
                    assert(pair_is(ids, j, l, r));
                    lemma_occ_before(ids, l, r, j, i);
                    assert(ob == Some(i));
                }
            }
        }
    }
}

/// One step of the backward pass over the pair positions, for the records
/// and the largest count: the record of the pair at `i` moves its start to
/// `i` and counts one more, or a record with start `i` and count `1` is
/// added.
proof fn lemma_records_step(
    hm0: Map<u64, usize>,
    recs0: Seq<Record>,
    f0: int,
    hm1: Map<u64, usize>,
    recs1: Seq<Record>,
    f1: int,
    ids: Seq<u32>,
    i: int,
)
    requires
        0 <= i < ids.len() - 1,
        ids.len() <= usize::MAX,
        records_from(hm0, recs0, ids, i + 1),
        max_count_from(f0, ids, i + 1),
        ({
            let key = key_at(ids, i);
            if hm0.contains_key(key) {
                let r = hm0[key] as int;
                let rec = recs0[r];
                &&& hm1 == hm0
                &&& recs1 == recs0.update(r, Record { loc: i as usize, freq: (rec.freq + 1) as usize, ..rec })
                &&& f1 == if f0 < rec.freq + 1 { rec.freq + 1 } else { f0 }
                &&& rec.freq + 1 <= usize::MAX
            } else {
                &&& hm1 == hm0.insert(key, recs0.len() as usize)
                &&& recs1 == recs0.push(Record { loc: i as usize, freq: 1, prev: None, next: None })
                &&& f1 == f0
                &&& recs0.len() <= usize::MAX
            }
        }),
    ensures
        records_from(hm1, recs1, ids, i),
        max_count_from(f1, ids, i),
        hm0.contains_key(key_at(ids, i)) ==> occ_from(ids, ids[i], ids[i + 1], i + 1) is Some
            && recs0[hm0[key_at(ids, i)] as int].loc == occ_from(ids, ids[i], ids[i + 1], i + 1).unwrap(),
        !hm0.contains_key(key_at(ids, i)) ==> occ_from(ids, ids[i], ids[i + 1], i + 1) is None,
{
    let l = ids[i];
    let r = ids[i + 1];
    let key = key_at(ids, i);
    let cur = i + 1;
    assert(pair_is(ids, i, l, r));
    lemma_count_from_bound(ids, l, r, cur);
    lemma_count_from_bound(ids, l, r, i);
    // the pair at `i` from `cur` on
    let found = hm0.contains_key(key);
    if found {
        let k0 = choose|k: int| cur <= k < ids.len() - 1 && key == key_at(ids, k);
        lemma_key_at(ids, i, k0);
        assert(pair_is(ids, k0, l, r));
        lemma_occ_from_none(ids, l, r, cur);
        assert(occ_from(ids, l, r, cur) is Some);
        lemma_occ_from(ids, l, r, cur, occ_from(ids, l, r, cur).unwrap());
        assert(key_at(ids, k0) == key);
        assert(recs0[hm0[key] as int] == record_from(ids, l, r, cur));
    } else {
        assert forall|t: int| cur <= t implies !#[trigger] pair_is(ids, t, l, r) by {
            if pair_is(ids, t, l, r) {
                lemma_key_at(ids, i, t);
                assert(hm0.contains_key(key_at(ids, t)));
            }
        }
        lemma_occ_from_none(ids, l, r, cur);
        lemma_count_from_zero(ids, l, r, cur);
    }
    // counts and starts at `i` against those at `cur`
    assert forall|k: int|
        #![trigger pos_count(ids, k, i)]
        #![trigger key_at(ids, k)]
        i <= k < ids.len() - 1 implies {
        &&& (ids[k] == l && ids[k + 1] == r) ==> pos_count(ids, k, i) == count_from(ids, l, r, cur) + 1
            && occ_from(ids, ids[k], ids[k + 1], i) == Some(i)
        &&& !(ids[k] == l && ids[k + 1] == r) ==> pos_count(ids, k, i) == pos_count(ids, k, cur)
            && record_from(ids, ids[k], ids[k + 1], i) == record_from(ids, ids[k], ids[k + 1], cur)
    } by {
        lemma_count_from_bound(ids, ids[k], ids[k + 1], cur);
        lemma_count_from_bound(ids, ids[k], ids[k + 1], i);
    }
    // records
    assert forall|k: int|
        #![trigger key_at(ids, k)]
        i <= k < ids.len() - 1 implies {
            &&& hm1.contains_key(key_at(ids, k))
            &&& hm1[key_at(ids, k)] < recs1.len()
            &&& recs1[hm1[key_at(ids, k)] as int] == record_from(ids, ids[k], ids[k + 1], i)
        } by {
        lemma_key_at(ids, i, k);
        if ids[k] == l && ids[k + 1] == r {
            assert(key_at(ids, k) == key);
        } else {
            assert(k != i);
            assert(key_at(ids, k) != key);
            assert(hm0.contains_key(key_at(ids, k)));
            if found {
                let rk = hm0[key_at(ids, k)] as int;
                let rr = hm0[key] as int;
                if rk == rr {
                    let k0 = choose|k: int| cur <= k < ids.len() - 1 && key == key_at(ids, k);
                    lemma_key_at(ids, i, k0);
                    assert(recs0[rr] == record_from(ids, l, r, cur));
                    assert(recs0[rk] == record_from(ids, ids[k], ids[k + 1], cur));
                    let m1 = occ_from(ids, l, r, cur).unwrap();
                    lemma_occ_from(ids, l, r, cur, m1);
                    assert(occ_from(ids, ids[k], ids[k + 1], cur) is Some) by {
                        lemma_occ_from_none(ids, ids[k], ids[k + 1], cur);
                        assert(pair_is(ids, k, ids[k], ids[k + 1]));
                    }
                    let m2 = occ_from(ids, ids[k], ids[k + 1], cur).unwrap();
                    lemma_occ_from(ids, ids[k], ids[k + 1], cur, m2);
                    assert(m1 as usize == m2 as usize);
                    assert(m1 == m2);
                    assert(false);
                }
            }
        }
    }
    assert forall|kk: u64| #[trigger] hm1.contains_key(kk) implies exists|k: int| i <= k < ids.len() - 1 && kk == key_at(ids, k) by {
        if kk == key {
        } else {
            assert(hm0.contains_key(kk));
            let k = choose|k: int| cur <= k < ids.len() - 1 && kk == key_at(ids, k);
            assert(i <= k < ids.len() - 1 && kk == key_at(ids, k));
        }
    }
    assert forall|rx: int| 0 <= rx < recs1.len() implies #[trigger] record_owned(hm1, ids, i, rx) by {
        if !found && rx == recs0.len() {
            assert(hm1[key_at(ids, i)] == rx);
        } else {
            assert(record_owned(hm0, ids, cur, rx));
            let k = choose|k: int| cur <= k < ids.len() - 1 && #[trigger] hm0[key_at(ids, k)] == rx;
            assert(hm0.contains_key(key_at(ids, k)));
            if !found {
                assert(key_at(ids, k) != key);
            }
            assert(hm1[key_at(ids, k)] == rx);
        }
    }
    // the largest count
    let c = count_from(ids, l, r, i);
    assert forall|k: int| i <= k < ids.len() - 1 implies #[trigger] pos_count(ids, k, i) <= f1 by {
        if !(ids[k] == l && ids[k + 1] == r) {
            assert(pos_count(ids, k, cur) <= f0);
        }
        if found {
            let k0 = choose|k: int| cur <= k < ids.len() - 1 && key == key_at(ids, k);
            lemma_key_at(ids, i, k0);
            assert(recs0[hm0[key] as int] == record_from(ids, l, r, cur));
        }
    }
    if f1 != 1 {
        if found {
            let k0 = choose|k: int| cur <= k < ids.len() - 1 && key == key_at(ids, k);
            lemma_key_at(ids, i, k0);
            assert(recs0[hm0[key] as int] == record_from(ids, l, r, cur));
        }
        if f1 == c {
            assert(pos_count(ids, i, i) == f1);
        } else {
            assert(f1 == f0);
            let k = choose|k: int| cur <= k < ids.len() - 1 && #[trigger] pos_count(ids, k, cur) == f0;
            if ids[k] == l && ids[k + 1] == r {
                assert(c == f0 + 1);
                assert(false);
            }
            assert(pos_count(ids, k, i) == f1);
        }
    }
}

/// Navigation in the symbol array.
pub trait PairArray {
    /// The slots.
    spec fn slots(&self) -> Seq<Bucket>;

    /// The slot to the right of slot `i`.
    fn rgh_pos(&self, i: usize) -> (r: Option<usize>)
        requires
            i < self.slots().len(),
        ensures
            r == rgh_pos_of(self.slots(), i as int),
    ;

    /// The slot to the left of slot `i`.
    fn lft_pos(&self, i: usize) -> (r: Option<usize>)
        requires
            i < self.slots().len(),
        ensures
            r == lft_pos_of(self.slots(), i as int),
    ;

    /// The pair that starts at slot `i`.
    fn rgh_bg(&self, i: usize) -> (r: Option<Bigram>)
        requires
            i < self.slots().len(),
            rgh_pos_of(self.slots(), i as int) matches Some(j) ==> j < self.slots().len(),
        ensures
            r == rgh_bg_of(self.slots(), i as int),
    ;

    /// The pair that ends at slot `i`.
    fn lft_bg(&self, i: usize) -> (r: Option<Bigram>)
        requires
            i < self.slots().len(),
            lft_pos_of(self.slots(), i as int) matches Some(j) ==> j < self.slots().len(),
        ensures
            r == lft_bg_of(self.slots(), i as int),
    ;

    /// Prepares the slots for the first bytes of `s` (as many as there are
    /// slots): appends their distinct bytes to `z` in the order of their
    /// first occurrence, gives every slot the symbol of its byte, links the
    /// positions of each pair into a list, and records for each pair its
    /// first position and its count (keyed by `comp::pair_key`). Returns the
    /// largest count, or `1`.
    fn create(&mut self, h: &mut HashMap<u64, usize>, recs: &mut Vec<Record>, z: &mut Vec<u8>, s: &Vec<u8>) -> (f: usize)
        requires
            old(self).slots().len() <= s@.len(),
            old(h)@ == Map::<u64, usize>::empty(),
            old(recs)@.len() == 0,
        ensures
            ({
                let t = s@.take(old(self).slots().len() as int);
                &&& final(z)@ == old(z)@ + comp::first_occurrences(t)
                &&& slots_from(final(self).slots(), old(self).slots(), comp::initial_symbols(t), 0)
                &&& records_from(final(h)@, final(recs)@, comp::initial_symbols(t), 0)
                &&& max_count_from(f as int, comp::initial_symbols(t), 0)
            }),
    ;
}

impl PairArray for Vec<Bucket> {
    open spec fn slots(&self) -> Seq<Bucket> {
        self@
    }

    fn rgh_pos(&self, i: usize) -> (r: Option<usize>) {
        if self[i].val.is_none() {
            self[i].next
        } else if i < self.len() - 1 {
            Some(i + 1)
        } else {
            None
        }
    }

    fn lft_pos(&self, i: usize) -> (r: Option<usize>) {
        if self[i].val.is_none() {
            self[i].prev
        } else if i > 0 {
            Some(i - 1)
        } else {
            None
        }
    }

    fn rgh_bg(&self, i: usize) -> (r: Option<Bigram>) {
        assert(self.slots() == self@);
        if let Some(rgh) = self.rgh_pos(i) {
            match (self[i].val, self[rgh].val) {
                (Some(x), Some(y)) => Some(Bigram { left: x, right: y }),
                _ => None,
            }
        } else {
            None
        }
    }

    fn lft_bg(&self, i: usize) -> (r: Option<Bigram>) {
        assert(self.slots() == self@);
        if let Some(lft) = self.lft_pos(i) {
            match (self[lft].val, self[i].val) {
                (Some(x), Some(y)) => Some(Bigram { left: x, right: y }),
                _ => None,
            }
        } else {
            None
        }
    }

    fn create(&mut self, h: &mut HashMap<u64, usize>, recs: &mut Vec<Record>, z: &mut Vec<u8>, s: &Vec<u8>) -> (f: usize) {
        let ghost a_old = self@;
        let n = self.len();
        let mut prefix: Vec<u8> = Vec::new();
        let mut c: usize = 0;
        while c < n
            invariant
                n <= s@.len(),
                c <= n,
                prefix@ == s@.take(c as int),
            decreases n - c,
        {
            prefix.push(s[c]);
            assert(prefix@ =~= s@.take(c + 1));
            c = c + 1;
        }
        let mut fresh: Vec<u8> = Vec::new();
        let ids = comp::initial_symbols_of(&prefix, &mut fresh);
        let ghost z0 = z@;
        let ghost fz = fresh@;
        z.append(&mut fresh);
        assert(z@ == z0 + fz);
        let mut k: usize = 0;
        while k < n
            invariant
                n == self@.len() == ids@.len() == a_old.len(),
                k <= n,
                forall|t: int| 0 <= t < k ==> #[trigger] self@[t] == (Bucket { val: Some(ids@[t]), ..a_old[t] }),
                forall|t: int| k <= t < n ==> #[trigger] self@[t] == a_old[t],
            decreases n - k,
        {
            let mut bk = self[k];
            bk.val = Some(ids[k]);
            self.set(k, bk);
            k = k + 1;
        }
        let mut f: usize = 1;
        if n == 0 {
            return f;
        }
        let mut cur: usize = n - 1;
        proof {
            lemma_slots_start(self@, a_old, ids@);
        }
        while cur > 0
            invariant
                n == self@.len() == ids@.len() == a_old.len(),
                1 <= n,
                cur <= n - 1,
                slots_from(self@, a_old, ids@, cur as int),
                records_from(h@, recs@, ids@, cur as int),
                max_count_from(f as int, ids@, cur as int),
                recs@.len() <= n - 1 - cur,
            decreases cur,
        {
            let i = cur - 1;
            let l = ids[i];
            let r = ids[i + 1];
            let key: u64 = (l as u64) * 0x1_0000_0000u64 + (r as u64);
            assert(key == key_at(ids@, i as int));
            let found: Option<usize> = match h.get(&key) {
                Some(x) => Some(*x),
                None => None,
            };
            let ghost a0 = self@;
            let ghost hm0 = h@;
            let ghost recs0 = recs@;
            let ghost f0 = f as int;
            proof {
                lemma_count_from_bound(ids@, l, r, cur as int);
            }
            match found {
                Some(ri) => {
                    let ghost kw = choose|k: int| cur <= k < ids@.len() - 1 && #[trigger] key_at(ids@, k) == key;
                    assert(key_at(ids@, kw) == key);
                    assert(ri < recs@.len());
                    let rec = recs[ri];
                    proof {
                        lemma_key_at(ids@, i as int, kw);
                        assert(rec == record_from(ids@, l, r, cur as int));
                        lemma_occ_from_none(ids@, l, r, cur as int);
                        assert(pair_is(ids@, kw, l, r));
                        lemma_occ_from(ids@, l, r, cur as int, occ_from(ids@, l, r, cur as int).unwrap());
                    }
                    let j = rec.loc;
                    let mut bi = self[i];
                    bi.next = Some(j);
                    self.set(i, bi);
                    let mut bj = self[j];
                    bj.prev = Some(i);
                    self.set(j, bj);
                    let mut rr = rec;
                    rr.loc = i;
                    rr.freq = rec.freq + 1;
                    recs.set(ri, rr);
                    if f < rr.freq {
                        f = rr.freq;
                    }
                },
                None => {
                    let idx = recs.len();
                    recs.push(Record { loc: i, freq: 1, prev: None, next: None });
                    h.insert(key, idx);
                },
            }
            proof {
                lemma_records_step(hm0, recs0, f0, h@, recs@, f as int, ids@, i as int);
                lemma_slots_step(a0, self@, a_old, ids@, i as int);
            }
            cur = i;
        }
        f
    }
}

/// Record links and list ends stay inside the arena.
pub open spec fn records_linked(q: Seq<List>, recs: Seq<Record>) -> bool {
    &&& forall|f: int| 0 <= f < q.len() ==> link_below((#[trigger] q[f]).head, recs.len()) && link_below(q[f].tail, recs.len())
    &&& forall|r: int| 0 <= r < recs.len() ==> link_below((#[trigger] recs[r]).prev, recs.len()) && link_below(recs[r].next, recs.len())
}


/// Appending record `r` to the list of its frequency: the old tail (if any)
/// links forward to `r` and `r` back to it, and `r` becomes the tail (and
/// the head of an empty list).
pub open spec fn enqueued(q: Seq<List>, recs: Seq<Record>, r: int) -> (Seq<List>, Seq<Record>) {
    let f = recs[r].freq as int;
    let l = q[f];
    let q2 = q.update(f, List { head: if l.tail is Some { l.head } else { Some(r as usize) }, tail: Some(r as usize) });
    match l.tail {
        Some(t) => {
            let recs1 = recs.update(t as int, Record { next: Some(r as usize), ..recs[t as int] });
            (q2, recs1.update(r, Record { prev: Some(t), ..recs1[r] }))
        },
        None => (q2, recs),
    }
}

/// Taking record `r` out of the list of its frequency: its neighbours are
/// linked to each other (or become the list's ends), and its links are
/// cleared.
pub open spec fn dequeued(q: Seq<List>, recs: Seq<Record>, r: int) -> (Seq<List>, Seq<Record>) {
    let f = recs[r].freq as int;
    let l = q[f];
    let rec = recs[r];
    let linked = match (rec.prev, rec.next) {
        (Some(x), Some(y)) => {
            let recs1 = recs.update(x as int, Record { next: Some(y), ..recs[x as int] });
            recs1.update(y as int, Record { prev: Some(x), ..recs1[y as int] })
        },
        (Some(x), None) => recs.update(x as int, Record { next: None, ..recs[x as int] }),
        (None, Some(y)) => recs.update(y as int, Record { prev: None, ..recs[y as int] }),
        (None, None) => recs,
    };
    let q2 = match (rec.prev, rec.next) {
        (Some(x), Some(y)) => q,
        (Some(x), None) => q.update(f, List { head: l.head, tail: Some(x) }),
        (None, Some(y)) => q.update(f, List { head: Some(y), tail: l.tail }),
        (None, None) => q.update(f, List { head: None, tail: None }),
    };
    (q2, linked.update(r, Record { prev: None, next: None, ..linked[r] }))
}

/// Entries `i` and `i + 1` of `xs` are linked to each other, forward and back.
pub open spec fn linked_at(recs: Seq<Record>, xs: Seq<usize>, i: int) -> bool {
    &&& recs[xs[i] as int].next == Some(xs[i + 1])
    &&& recs[xs[i + 1] as int].prev == Some(xs[i])
}

/// The list `l` of frequency `f` runs through the records `xs` in order:
/// its ends are the first and last of them, neighbours link to each other
/// both ways, the ends link outwards to nothing, no record occurs twice,
/// and every record in it has frequency `f`.
pub open spec fn list_spells(l: List, recs: Seq<Record>, xs: Seq<usize>, f: int) -> bool {
    &&& xs.len() == 0 ==> l.head is None && l.tail is None
    &&& xs.len() > 0 ==> {
        &&& l.head == Some(xs[0])
        &&& l.tail == Some(xs.last())
        &&& recs[xs[0] as int].prev is None
        &&& recs[xs.last() as int].next is None
    }
    &&& forall|i: int| 0 <= i < xs.len() ==> (#[trigger] xs[i]) < recs.len() && recs[xs[i] as int].freq == f
    &&& forall|i: int| 0 <= i < xs.len() - 1 ==> #[trigger] linked_at(recs, xs, i)
    &&& forall|i: int, j: int| 0 <= i < j < xs.len() ==> #[trigger] xs[i] != #[trigger] xs[j]
}

/// Every list of the table runs through the records of `ls` at its
/// frequency (so no record is in two lists).
pub open spec fn table_spells(q: Seq<List>, recs: Seq<Record>, ls: Seq<Seq<usize>>) -> bool {
    &&& ls.len() == q.len()
    &&& forall|f: int| 0 <= f < q.len() ==> list_spells(#[trigger] q[f], recs, ls[f], f)
}

/// Lists whose records all keep their links and frequencies keep spelling
/// the same records.
proof fn lemma_list_spells_frame(l: List, recs: Seq<Record>, recs2: Seq<Record>, xs: Seq<usize>, f: int)
    requires
        list_spells(l, recs, xs, f),
        recs2.len() == recs.len(),
        forall|i: int| 0 <= i < xs.len() ==> recs2[(#[trigger] xs[i]) as int] == recs[xs[i] as int],
    ensures
        list_spells(l, recs2, xs, f),
{
    if xs.len() > 0 {
        assert(recs2[xs[0] as int] == recs[xs[0] as int]);
        assert(recs2[xs.last() as int] == recs[xs.last() as int]);
    }
    assert forall|i: int| 0 <= i < xs.len() - 1 implies #[trigger] linked_at(recs2, xs, i) by {
        assert(linked_at(recs, xs, i));
        assert(recs2[xs[i] as int] == recs[xs[i] as int]);
        assert(recs2[xs[i + 1] as int] == recs[xs[i + 1] as int]);
    }
}

/// The other lists of the table are untouched by a change of records that
/// only touches records of frequency `f`.
proof fn lemma_table_frame(
    q: Seq<List>,
    q2: Seq<List>,
    recs: Seq<Record>,
    recs2: Seq<Record>,
    ls: Seq<Seq<usize>>,
    f: int,
    g: int,
)
    requires
        table_spells(q, recs, ls),
        0 <= g < q.len(),
        g != f,
        q2[g] == q[g],
        recs2.len() == recs.len(),
        forall|k: int| 0 <= k < recs.len() && recs[k].freq != f ==> #[trigger] recs2[k] == recs[k],
    ensures
        list_spells(q2[g], recs2, ls[g], g),
{
    assert(list_spells(q[g], recs, ls[g], g));
    assert forall|k: int| 0 <= k < ls[g].len() implies recs2[(#[trigger] ls[g][k]) as int] == recs[ls[g][k] as int] by {
        assert(recs[ls[g][k] as int].freq == g);
    }
    lemma_list_spells_frame(q[g], recs, recs2, ls[g], g);
}

/// Linking `r` after the last record `t` of a list.
#[verifier::rlimit(60)]
proof fn lemma_append_list(l: List, recs: Seq<Record>, xs: Seq<usize>, f: int, r: int, recs2: Seq<Record>)
    requires
        list_spells(l, recs, xs, f),
        xs.len() > 0,
        0 <= r < recs.len(),
        r <= usize::MAX,
        recs[r].freq == f,
        recs[r].next is None,
        forall|i: int| 0 <= i < xs.len() ==> xs[i] != r,
        recs2.len() == recs.len(),
        forall|k: int| 0 <= k < recs.len() && k != r && k != xs.last() ==> #[trigger] recs2[k] == recs[k],
        recs2[xs.last() as int] == (Record { next: Some(r as usize), ..recs[xs.last() as int] }),
        recs2[r] == (Record { prev: Some(xs.last()), ..recs[r] }),
    ensures
        list_spells(List { head: l.head, tail: Some(r as usize) }, recs2, xs.push(r as usize), f),
{
    let n = xs.len() as int;
    let t = xs[n - 1] as int;
    let ys = xs.push(r as usize);
    assert(t != r);
    assert forall|i: int| 0 <= i < ys.len() implies (#[trigger] ys[i]) < recs2.len() && recs2[ys[i] as int].freq == f by {
        if i < n {
            assert(ys[i] == xs[i]);
            assert(recs2[xs[i] as int].freq == recs[xs[i] as int].freq);
        } else {
            assert(ys[i] == r as usize);
        }
    }
    assert forall|i: int| 0 <= i < ys.len() - 1 implies #[trigger] linked_at(recs2, ys, i) by {
        assert(ys[i] == xs[i]);
        if i < n - 1 {
            assert(linked_at(recs, xs, i));
            assert(ys[i + 1] == xs[i + 1]);
            assert(xs[i] != xs[n - 1]);
            assert(xs[i + 1] as int != r);
            assert(recs2[xs[i] as int] == recs[xs[i] as int]);
            if i + 1 != n - 1 {
                assert(recs2[xs[i + 1] as int] == recs[xs[i + 1] as int]);
            }
        } else {
            assert(ys[i + 1] == r as usize);
        }
    }
    assert forall|a: int, b: int| 0 <= a < b < ys.len() implies #[trigger] ys[a] != #[trigger] ys[b] by {
        assert(ys[a] == xs[a]);
        if b < n {
            assert(ys[b] == xs[b]);
        }
    }
    assert(ys[0] == xs[0]);
    if n > 1 {
        assert(xs[0] != xs[n - 1]);
        assert(recs2[xs[0] as int] == recs[xs[0] as int]);
    }
    assert(ys.last() == r as usize);
}

/// Appending a record that is in no list keeps the table well formed: the
/// list of its frequency then runs through one more record, at its end.
pub proof fn lemma_enqueue_spells(q: Seq<List>, recs: Seq<Record>, ls: Seq<Seq<usize>>, r: int)
    requires
        table_spells(q, recs, ls),
        0 <= r < recs.len(),
        r <= usize::MAX,
        recs[r].freq < q.len(),
        recs[r].prev is None,
        recs[r].next is None,
        forall|i: int| 0 <= i < ls[recs[r].freq as int].len() ==> ls[recs[r].freq as int][i] != r,
    ensures
        ({
            let f = recs[r].freq as int;
            let e = enqueued(q, recs, r);
            &&& table_spells(e.0, e.1, ls.update(f, ls[f].push(r as usize)))
            &&& e.1.len() == recs.len()
        }),
{
    let f = recs[r].freq as int;
    let e = enqueued(q, recs, r);
    let xs = ls[f];
    let ls2 = ls.update(f, xs.push(r as usize));
    assert(list_spells(q[f], recs, xs, f));
    if xs.len() == 0 {
        assert(e.1 == recs);
        assert(list_spells(e.0[f], e.1, ls2[f], f)) by {
            assert(ls2[f].len() == 1);
            assert(ls2[f][0] == r as usize);
            assert(e.0[f] == List { head: Some(r as usize), tail: Some(r as usize) });
        }
    } else {
        let t = xs.last() as int;
        assert(q[f].tail == Some(t as usize));
        assert(recs[t].freq == f);
        assert forall|k: int| 0 <= k < recs.len() && k != r && k != t implies #[trigger] e.1[k] == recs[k] by {}
        lemma_append_list(q[f], recs, xs, f, r, e.1);
    }
    assert forall|g: int| 0 <= g < e.0.len() implies list_spells(#[trigger] e.0[g], e.1, ls2[g], g) by {
        if g != f {
            lemma_table_frame(q, e.0, recs, e.1, ls, f, g);
        }
    }
}

/// The entry at position `k` of `xs`, if there is one.
pub open spec fn seq_opt(xs: Seq<usize>, k: int) -> Option<usize> {
    if 0 <= k < xs.len() {
        Some(xs[k])
    } else {
        None
    }
}

/// The ends of list `l`, which runs through `xs`, once position `i` is taken out.
pub open spec fn list_without(l: List, xs: Seq<usize>, i: int) -> List {
    List {
        head: if i == 0 {
            seq_opt(xs, 1)
        } else {
            l.head
        },
        tail: if i == xs.len() - 1 {
            seq_opt(xs, i - 1)
        } else {
            l.tail
        },
    }
}

/// Unlinking the record at position `i` of a list.
proof fn lemma_remove_list(l: List, recs: Seq<Record>, xs: Seq<usize>, f: int, i: int, l2: List, recs2: Seq<Record>)
    requires
        list_spells(l, recs, xs, f),
        0 <= i < xs.len(),
        recs2.len() == recs.len(),
        forall|k: int|
            0 <= k < xs.len() && k != i - 1 && k != i + 1 && k != i ==> #[trigger] recs2[xs[k] as int] == recs[xs[k] as int],
        i > 0 ==> recs2[xs[i - 1] as int] == (Record { next: seq_opt(xs, i + 1), ..recs[xs[i - 1] as int] }),
        i + 1 < xs.len() ==> recs2[xs[i + 1] as int] == (Record { prev: seq_opt(xs, i - 1), ..recs[xs[i + 1] as int] }),
        l2 == list_without(l, xs, i),
    ensures
        list_spells(l2, recs2, xs.remove(i), f),
{
    let ys = xs.remove(i);
    let n = xs.len() as int;
    assert forall|k: int| 0 <= k < ys.len() implies (#[trigger] ys[k]) < recs2.len() && recs2[ys[k] as int].freq == f by {
        let k2 = if k < i { k } else { k + 1 };
        assert(ys[k] == xs[k2]);
        assert(recs2[xs[k2] as int].freq == recs[xs[k2] as int].freq);
    }
    assert forall|k: int| 0 <= k < ys.len() - 1 implies #[trigger] linked_at(recs2, ys, k) by {
        if k + 1 < i {
            assert(linked_at(recs, xs, k));
            assert(ys[k] == xs[k] && ys[k + 1] == xs[k + 1]);
            assert(recs2[xs[k + 1] as int].prev == recs[xs[k + 1] as int].prev);
            if k != i - 1 {
                assert(recs2[xs[k] as int].next == recs[xs[k] as int].next);
            }
        } else if k + 1 == i {
            assert(ys[k] == xs[i - 1] && ys[k + 1] == xs[i + 1]);
        } else {
            assert(linked_at(recs, xs, k + 1));
            assert(ys[k] == xs[k + 1] && ys[k + 1] == xs[k + 2]);
            assert(recs2[xs[k + 1] as int].next == recs[xs[k + 1] as int].next);
            if k + 2 != i + 1 {
                assert(recs2[xs[k + 2] as int].prev == recs[xs[k + 2] as int].prev);
            }
        }
    }
    assert forall|a: int, b: int| 0 <= a < b < ys.len() implies #[trigger] ys[a] != #[trigger] ys[b] by {
        let a2 = if a < i { a } else { a + 1 };
        let b2 = if b < i { b } else { b + 1 };
        assert(ys[a] == xs[a2] && ys[b] == xs[b2]);
    }
    if ys.len() > 0 {
        let a0 = if i == 0 { 1int } else { 0int };
        assert(ys[0] == xs[a0]);
        assert(recs2[xs[a0] as int].prev == recs[xs[a0] as int].prev || (i == 0 && a0 == 1) || (a0 == i + 1));
        let z0 = if i == n - 1 { n - 2 } else { n - 1 };
        assert(ys.last() == xs[z0]);
    }
}

/// The records below `n`, each in the list of its frequency, in order.
pub open spec fn lists_upto(recs: Seq<Record>, m: nat, n: int) -> Seq<Seq<usize>>
    decreases n,
{
    if n <= 0 {
        Seq::new(m, |f: int| Seq::<usize>::empty())
    } else {
        let ls = lists_upto(recs, m, n - 1);
        let f = recs[n - 1].freq as int;
        ls.update(f, ls[f].push((n - 1) as usize))
    }
}

/// Appending the first `n` records, none of them in a list, to empty lists
/// gives a well-formed table: the list of each frequency runs through its
/// records in order, and the other records are untouched.
pub proof fn lemma_create_spells(q: Seq<List>, recs: Seq<Record>, n: int)
    requires
        0 <= n <= recs.len(),
        recs.len() <= usize::MAX,
        forall|f: int| 0 <= f < q.len() ==> (#[trigger] q[f]).head is None && q[f].tail is None,
        forall|r: int|
            0 <= r < recs.len() ==> (#[trigger] recs[r]).freq < q.len() && recs[r].prev is None && recs[r].next is None,
    ensures
        ({
            let e = enqueued_upto(q, recs, n);
            let ls = lists_upto(recs, q.len(), n);
            &&& table_spells(e.0, e.1, ls)
            &&& ls.len() == q.len()
            &&& e.0.len() == q.len()
            &&& e.1.len() == recs.len()
            &&& forall|k: int| n <= k < recs.len() ==> #[trigger] e.1[k] == recs[k]
            &&& forall|f: int, i: int| 0 <= f < ls.len() && 0 <= i < ls[f].len() ==> #[trigger] ls[f][i] < n
        }),
    decreases n,
{
    let ls = lists_upto(recs, q.len(), n);
    let e = enqueued_upto(q, recs, n);
    if n == 0 {
        assert forall|f: int| 0 <= f < q.len() implies list_spells(#[trigger] q[f], recs, ls[f], f) by {
            assert(ls[f].len() == 0);
        }
    } else {
        lemma_create_spells(q, recs, n - 1);
        let p = enqueued_upto(q, recs, n - 1);
        let ls1 = lists_upto(recs, q.len(), n - 1);
        let r = n - 1;
        let f = recs[r].freq as int;
        assert(p.1[r] == recs[r]);
        assert forall|i: int| 0 <= i < ls1[f].len() implies ls1[f][i] != r by {
            assert(ls1[f][i] < n - 1);
        }
        lemma_enqueue_spells(p.0, p.1, ls1, r);
        assert(ls == ls1.update(f, ls1[f].push(r as usize)));
        if ls1[f].len() > 0 {
            assert(list_spells(p.0[f], p.1, ls1[f], f));
            assert(ls1[f][ls1[f].len() - 1] < n - 1);
        }
        assert forall|k: int| n <= k < recs.len() implies #[trigger] e.1[k] == recs[k] by {
            assert(p.1[k] == recs[k]);
        }
        assert forall|g: int, i: int| 0 <= g < ls.len() && 0 <= i < ls[g].len() implies #[trigger] ls[g][i] < n by {
            if g != f {
                assert(ls[g] == ls1[g]);
            } else if i < ls1[f].len() {
                assert(ls[g][i] == ls1[f][i]);
            }
        }
    }
}

/// Taking a record out of its list keeps the table well formed: the list of
/// its frequency then runs through the same records but that one, and the
/// record is left in no list.
pub proof fn lemma_dequeue_spells(q: Seq<List>, recs: Seq<Record>, ls: Seq<Seq<usize>>, r: int, i: int)
    requires
        table_spells(q, recs, ls),
        0 <= r < recs.len(),
        recs[r].freq < q.len(),
        0 <= i < ls[recs[r].freq as int].len(),
        ls[recs[r].freq as int][i] == r,
    ensures
        ({
            let f = recs[r].freq as int;
            let d = dequeued(q, recs, r);
            &&& table_spells(d.0, d.1, ls.update(f, ls[f].remove(i)))
            &&& d.1.len() == recs.len()
            &&& d.1[r].prev is None
            &&& d.1[r].next is None
            &&& d.1[r].freq == recs[r].freq
        }),
{
    let f = recs[r].freq as int;
    let d = dequeued(q, recs, r);
    let xs = ls[f];
    let n = xs.len() as int;
    let l = q[f];
    assert(list_spells(l, recs, xs, f));
    if i > 0 {
        assert(linked_at(recs, xs, i - 1));
        assert(xs[i - 1] != xs[i]);
    }
    if i + 1 < n {
        assert(linked_at(recs, xs, i));
        assert(xs[i + 1] != xs[i]);
    }
    if i > 0 && i + 1 < n {
        assert(xs[i - 1] != xs[i + 1]);
    }
    assert(recs[r].prev == seq_opt(xs, i - 1));
    assert(recs[r].next == seq_opt(xs, i + 1));
    let ls2 = ls.update(f, xs.remove(i));
    assert forall|k: int|
        0 <= k < xs.len() && k != i - 1 && k != i + 1 && k != i implies #[trigger] d.1[xs[k] as int] == recs[xs[k] as int] by {
        assert(xs[k] != xs[i]);
        if i > 0 {
            assert(xs[k] != xs[i - 1]);
        }
        if i + 1 < n {
            assert(xs[k] != xs[i + 1]);
        }
    }
    lemma_remove_list(l, recs, xs, f, i, d.0[f], d.1);
    assert forall|k: int| 0 <= k < recs.len() && recs[k].freq != f implies #[trigger] d.1[k] == recs[k] by {
        if i > 0 {
            assert(recs[xs[i - 1] as int].freq == f);
        }
        if i + 1 < n {
            assert(recs[xs[i + 1] as int].freq == f);
        }
    }
    assert forall|g: int| 0 <= g < d.0.len() implies list_spells(#[trigger] d.0[g], d.1, ls2[g], g) by {
        if g != f {
            lemma_table_frame(q, d.0, recs, d.1, ls, f, g);
        }
    }
}

/// Appending a record that is in no list and at once taking it out again
/// leaves every list and every record as it was, when the list's tail ends
/// it and an empty list has no head.
pub proof fn lemma_enqueue_dequeue(q: Seq<List>, recs: Seq<Record>, r: int)
    requires
        0 <= r < recs.len(),
        recs[r].freq < q.len(),
        records_linked(q, recs),
        recs[r].prev is None,
        recs[r].next is None,
        q[recs[r].freq as int].tail matches Some(t) ==> t != r && recs[t as int].next is None,
        q[recs[r].freq as int].tail is None ==> q[recs[r].freq as int].head is None,
    ensures
        ({
            let e = enqueued(q, recs, r);
            dequeued(e.0, e.1, r) == (q, recs)
        }),
{
    let f = recs[r].freq as int;
    let e = enqueued(q, recs, r);
    let d = dequeued(e.0, e.1, r);
    assert(e.1[r].freq == recs[r].freq);
    match q[f].tail {
        Some(t) => {
            assert(d.0 =~= q);
            assert(d.1 =~= recs);
        },
        None => {
            assert(d.0 =~= q);
            assert(d.1 =~= recs);
        },
    }
}


/// Appending records `0..n` in order.
pub open spec fn enqueued_upto(q: Seq<List>, recs: Seq<Record>, n: int) -> (Seq<List>, Seq<Record>)
    decreases n,
{
    if n <= 0 {
        (q, recs)
    } else {
        let p = enqueued_upto(q, recs, n - 1);
        enqueued(p.0, p.1, n - 1)
    }
}

/// Appending keeps the lists, the records' number and frequencies, and the
/// links inside the arena.
pub proof fn lemma_enqueued_keeps(q: Seq<List>, recs: Seq<Record>, r: int)
    requires
        0 <= r < recs.len(),
        recs[r].freq < q.len(),
        records_linked(q, recs),
    ensures
        ({
            let e = enqueued(q, recs, r);
            &&& e.0.len() == q.len()
            &&& e.1.len() == recs.len()
            &&& forall|k: int| 0 <= k < recs.len() ==> (#[trigger] e.1[k]).freq == recs[k].freq
            &&& records_linked(e.0, e.1)
        }),
{
    let e = enqueued(q, recs, r);
    assert forall|k: int| 0 <= k < e.0.len() implies link_below((#[trigger] e.0[k]).head, e.1.len()) && link_below(e.0[k].tail, e.1.len()) by {
        assert(link_below(q[k].head, recs.len()));
    }
    assert forall|k: int| 0 <= k < e.1.len() implies link_below((#[trigger] e.1[k]).prev, e.1.len()) && link_below(e.1[k].next, e.1.len()) by {
        assert(link_below(recs[k].prev, recs.len()) && link_below(recs[k].next, recs.len()));
        assert(link_below(q[recs[r].freq as int].tail, recs.len()));
    }
}

proof fn lemma_enqueued_upto_keeps(q: Seq<List>, recs: Seq<Record>, n: int)
    requires
        0 <= n <= recs.len(),
        records_linked(q, recs),
        forall|r: int| 0 <= r < recs.len() ==> (#[trigger] recs[r]).freq < q.len(),
    ensures
        ({
            let e = enqueued_upto(q, recs, n);
            &&& e.0.len() == q.len()
            &&& e.1.len() == recs.len()
            &&& forall|k: int| 0 <= k < recs.len() ==> (#[trigger] e.1[k]).freq == recs[k].freq
            &&& records_linked(e.0, e.1)
        }),
    decreases n,
{
    if n > 0 {
        lemma_enqueued_upto_keeps(q, recs, n - 1);
        let p = enqueued_upto(q, recs, n - 1);
        assert(p.1[n - 1].freq == recs[n - 1].freq);
        lemma_enqueued_keeps(p.0, p.1, n - 1);
    }
}

/// Record `r` is in no list: it has no links, and the list of its
/// frequency does not run through it.
pub open spec fn free_record(recs: Seq<Record>, ls: Seq<Seq<usize>>, r: int) -> bool {
    &&& recs[r].prev is None
    &&& recs[r].next is None
    &&& forall|i: int| 0 <= i < ls[recs[r].freq as int].len() ==> ls[recs[r].freq as int][i] != r
}

/// Every list is empty and no record has links.
pub open spec fn all_free(q: Seq<List>, recs: Seq<Record>) -> bool {
    &&& forall|f: int| 0 <= f < q.len() ==> (#[trigger] q[f]).head is None && q[f].tail is None
    &&& forall|r: int| 0 <= r < recs.len() ==> (#[trigger] recs[r]).prev is None && recs[r].next is None
}

/// Lists of pair records, one per frequency.
pub trait FreqTable {
    /// The lists, indexed by frequency.
    spec fn lists(&self) -> Seq<List>;

    /// The first record of frequency `f`.
    fn top(&self, f: usize) -> (r: Option<usize>)
        requires
            f < self.lists().len(),
        ensures
            r == self.lists()[f as int].head,
    ;

    /// Appends record `r` to the list of its frequency.
    fn enqueue(&mut self, recs: &mut Vec<Record>, r: usize)
        requires
            r < old(recs)@.len(),
            old(recs)@[r as int].freq < old(self).lists().len(),
            records_linked(old(self).lists(), old(recs)@),
        ensures
            (final(self).lists(), final(recs)@) == enqueued(old(self).lists(), old(recs)@, r as int),
            forall|ls: Seq<Seq<usize>>|
                #[trigger] table_spells(old(self).lists(), old(recs)@, ls) && free_record(old(recs)@, ls, r as int)
                    ==> table_spells(
                    final(self).lists(),
                    final(recs)@,
                    ls.update(old(recs)@[r as int].freq as int, ls[old(recs)@[r as int].freq as int].push(r)),
                ),
    ;

    /// Takes record `r` out of the list of its frequency and clears its links.
    fn dequeue(&mut self, recs: &mut Vec<Record>, r: usize)
        requires
            r < old(recs)@.len(),
            old(recs)@[r as int].freq < old(self).lists().len(),
            records_linked(old(self).lists(), old(recs)@),
        ensures
            (final(self).lists(), final(recs)@) == dequeued(old(self).lists(), old(recs)@, r as int),
            forall|ls: Seq<Seq<usize>>, i: int|
                #[trigger] table_spells(old(self).lists(), old(recs)@, ls) && 0 <= i < ls[old(
                    recs,
                )@[r as int].freq as int].len() && #[trigger] ls[old(recs)@[r as int].freq as int][i] == r ==> table_spells(
                    final(self).lists(),
                    final(recs)@,
                    ls.update(old(recs)@[r as int].freq as int, ls[old(recs)@[r as int].freq as int].remove(i)),
                ),
    ;

    /// Appends every record of the arena, in order, to the list of its
    /// frequency.
    fn create(&mut self, recs: &mut Vec<Record>)
        requires
            records_linked(old(self).lists(), old(recs)@),
            forall|r: int| 0 <= r < old(recs)@.len() ==> (#[trigger] old(recs)@[r]).freq < old(self).lists().len(),
        ensures
            (final(self).lists(), final(recs)@) == enqueued_upto(old(self).lists(), old(recs)@, old(recs)@.len() as int),
            all_free(old(self).lists(), old(recs)@) ==> table_spells(
                final(self).lists(),
                final(recs)@,
                lists_upto(old(recs)@, old(self).lists().len(), old(recs)@.len() as int),
            ),
    ;
}

impl FreqTable for Vec<List> {
    open spec fn lists(&self) -> Seq<List> {
        self@
    }

    fn create(&mut self, recs: &mut Vec<Record>) {
        let ghost q0 = self@;
        let ghost r0 = recs@;
        let n = recs.len();
        proof {
            if all_free(q0, r0) {
                lemma_create_spells(q0, r0, n as int);
            }
        }
        let mut r: usize = 0;
        while r < n
            invariant
                n == r0.len(),
                r <= n,
                records_linked(q0, r0),
                forall|k: int| 0 <= k < r0.len() ==> (#[trigger] r0[k]).freq < q0.len(),
                (self@, recs@) == enqueued_upto(q0, r0, r as int),
            decreases n - r,
        {
            proof {
                lemma_enqueued_upto_keeps(q0, r0, r as int);
                assert(recs@[r as int].freq == r0[r as int].freq);
            }
            self.enqueue(recs, r);
            r = r + 1;
        }
    }

    fn top(&self, f: usize) -> (r: Option<usize>) {
        self[f].head
    }

    fn enqueue(&mut self, recs: &mut Vec<Record>, r: usize) {
        let ghost q0 = self@;
        let ghost r0 = recs@;
        proof {
            assert forall|ls: Seq<Seq<usize>>|
                #[trigger] table_spells(q0, r0, ls) && free_record(r0, ls, r as int) implies table_spells(
                enqueued(q0, r0, r as int).0,
                enqueued(q0, r0, r as int).1,
                ls.update(r0[r as int].freq as int, ls[r0[r as int].freq as int].push(r)),
            ) by {
                lemma_enqueue_spells(q0, r0, ls, r as int);
            }
        }
        let f = recs[r].freq;
        if let Some(tail) = self[f].tail {
            let mut t = recs[tail];
            t.next = Some(r);
            recs.set(tail, t);
            let mut rr = recs[r];
            rr.prev = Some(tail);
            recs.set(r, rr);
            let head = self[f].head;
            self.set(f, List { head, tail: Some(r) });
        } else {
            self.set(f, List { head: Some(r), tail: Some(r) });
        }
    }

    fn dequeue(&mut self, recs: &mut Vec<Record>, r: usize) {
        let ghost q0 = self@;
        let ghost r0 = recs@;
        proof {
            assert forall|ls: Seq<Seq<usize>>, i: int|
                #[trigger] table_spells(q0, r0, ls) && 0 <= i < ls[r0[r as int].freq as int].len()
                    && #[trigger] ls[r0[r as int].freq as int][i] == r implies table_spells(
                dequeued(q0, r0, r as int).0,
                dequeued(q0, r0, r as int).1,
                ls.update(r0[r as int].freq as int, ls[r0[r as int].freq as int].remove(i)),
            ) by {
                lemma_dequeue_spells(q0, r0, ls, r as int, i);
            }
        }
        let f = recs[r].freq;
        let rec = recs[r];
        match (rec.prev, rec.next) {
            (Some(x), Some(y)) => {
                let mut rx = recs[x];
                rx.next = Some(y);
                recs.set(x, rx);
                let mut ry = recs[y];
                ry.prev = Some(x);
                recs.set(y, ry);
            },
            (Some(x), None) => {
                let mut rx = recs[x];
                rx.next = None;
                recs.set(x, rx);
                let head = self[f].head;
                self.set(f, List { head, tail: Some(x) });
            },
            (None, Some(y)) => {
                let mut ry = recs[y];
                ry.prev = None;
                recs.set(y, ry);
                let tail = self[f].tail;
                self.set(f, List { head: Some(y), tail });
            },
            (None, None) => {
                self.set(f, List { head: None, tail: None });
            },
        }
        let mut rr = recs[r];
        rr.prev = None;
        rr.next = None;
        recs.set(r, rr);
    }
}

} // verus!
