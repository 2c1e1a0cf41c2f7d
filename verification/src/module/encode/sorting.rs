//! The sorting encoding: a length-prefixed block of terminals, the rule
//! streams packed into one list of numbers (itself a length-prefixed block),
//! the length-prefixed flags of which symbol of each rule is larger, and the
//! sequence. Terminals, the packed list and the sequence are compressed by
//! number codes of their own; this module holds the parts around them.
use vstd::prelude::*;
use bit_vec::BitVec;
use crate::bits;
use crate::bits::{bv_get, bv_len, copy_part, push_block, read_part};
use crate::module::encode;
use crate::module::encode::{DeltasView, RuleDeltas};

verus! {

/// The list of numbers that carries the streams: the number of deltas and of
/// starting values, then the deltas, the starting values, the starting points
/// and the minimum differences.
pub open spec fn packed(d: DeltasView) -> Seq<u32> {
    seq![d.deltas.len() as u32, d.starting_values.len() as u32] + d.deltas + d.starting_values
        + d.starting_points + d.deltas_minimums
}

/// Packs the streams (their flags aside) into one list.
pub fn pack_deltas(d: &RuleDeltas) -> (v: Vec<u32>)
    requires
        d.deltas@.len() <= u32::MAX,
        d.starting_values@.len() <= u32::MAX,
    ensures
        v@ == packed(d.view_streams()),
{
    let mut v: Vec<u32> = Vec::new();
    v.push(d.deltas.len() as u32);
    v.push(d.starting_values.len() as u32);
    append_u32s(&mut v, &d.deltas);
    append_u32s(&mut v, &d.starting_values);
    append_u32s(&mut v, &d.starting_points);
    append_u32s(&mut v, &d.deltas_minimums);
    assert(v@ =~= packed(d.view_streams()));
    v
}

fn append_u32s(v: &mut Vec<u32>, xs: &Vec<u32>)
    ensures
        final(v)@ == old(v)@ + xs@,
{
    let ghost v0 = v@;
    let mut k: usize = 0;
    while k < xs.len()
        invariant
            k <= xs@.len(),
            v@ == v0 + xs@.take(k as int),
        decreases xs@.len() - k,
    {
        v.push(xs[k]);
        assert(xs@.take(k + 1) =~= xs@.take(k as int).push(xs@[k as int]));
        assert(v@ =~= v0 + xs@.take(k + 1));
        k = k + 1;
    }
    assert(xs@.take(xs@.len() as int) =~= xs@);
}

/// The four streams read back from a packed list `v`: after the two counts,
/// the deltas, the starting values, as many starting points, and the rest as
/// minimum differences (each cut short where `v` ends).
pub open spec fn unpacked(v: Seq<u32>) -> (Seq<u32>, Seq<u32>, Seq<u32>, Seq<u32>) {
    let len = v.len() as int;
    let dl = v[0] as int;
    let il = v[1] as int;
    let e1 = bits::clamp(2 + dl, len);
    let e2 = bits::clamp(2 + dl + il, len);
    let e3 = bits::clamp(2 + dl + 2 * il, len);
    (v.subrange(2, e1), v.subrange(e1, e2), v.subrange(e2, e3), v.subrange(e3, len))
}

/// Splits a packed list into the deltas, starting values, starting points
/// and minimum differences.
pub fn unpack_deltas(v: &Vec<u32>) -> (r: (Vec<u32>, Vec<u32>, Vec<u32>, Vec<u32>))
    requires
        v@.len() >= 2,
    ensures
        (r.0@, r.1@, r.2@, r.3@) == unpacked(v@),
{
    let ghost u = unpacked(v@);
    let dl = v[0] as u64;
    let il = v[1] as u64;
    let n = v.len();
    let mut deltas: Vec<u32> = Vec::new();
    let mut sv: Vec<u32> = Vec::new();
    let mut sp: Vec<u32> = Vec::new();
    let mut dm: Vec<u32> = Vec::new();
    let ghost e1 = bits::clamp(2 + dl, n as int);
    let ghost e2 = bits::clamp(2 + dl + il, n as int);
    let ghost e3 = bits::clamp(2 + dl + 2 * il, n as int);
    let mut i: usize = 2;
    while i < n
        invariant
            n == v@.len(),
            2 <= i <= n,
            dl == v@[0],
            il == v@[1],
            e1 == bits::clamp(2 + dl, n as int),
            e2 == bits::clamp(2 + dl + il, n as int),
            e3 == bits::clamp(2 + dl + 2 * il, n as int),
            deltas@ == v@.subrange(2, bits::clamp(e1, i as int)),
            sv@ == v@.subrange(bits::clamp(e1, i as int), bits::clamp(e2, i as int)),
            sp@ == v@.subrange(bits::clamp(e2, i as int), bits::clamp(e3, i as int)),
            dm@ == v@.subrange(bits::clamp(e3, i as int), i as int),
        decreases n - i,
    {
        let x = v[i];
        let iu = i as u64;
        if iu < 2 + dl {
            deltas.push(x);
        } else if iu < 2 + dl + il {
            sv.push(x);
        } else if iu < 2 + dl + il * 2 {
            sp.push(x);
        } else {
            dm.push(x);
        }
        assert(deltas@ =~= v@.subrange(2, bits::clamp(e1, i + 1)));
        assert(sv@ =~= v@.subrange(bits::clamp(e1, i + 1), bits::clamp(e2, i + 1)));
        assert(sp@ =~= v@.subrange(bits::clamp(e2, i + 1), bits::clamp(e3, i + 1)));
        assert(dm@ =~= v@.subrange(bits::clamp(e3, i + 1), i + 1));
        i = i + 1;
    }
    (deltas, sv, sp, dm)
}

/// The state of the rule rebuilder: the rules so far, the current larger
/// symbol, the position where the next run starts, and how many deltas and
/// starting values were used.
pub struct RebuildState {
    pub rules: Seq<Seq<u32>>,
    pub last_max: int,
    pub start_pos: int,
    pub di: int,
    pub ii: int,
}

/// Rebuilding the first `n` rules from the streams and the flags `mf`: at a
/// run start the larger symbol is the next starting value (and the next
/// starting point is added to the run start); elsewhere the next delta is
/// added to it. Without any starting point no rule starts a run. `None`
/// where a stream runs out or a number leaves its type.
pub open spec fn rebuild_run(
    deltas: Seq<u32>,
    sv: Seq<u32>,
    sp: Seq<u32>,
    dm: Seq<u32>,
    mf: Seq<bool>,
    n: int,
) -> Option<RebuildState>
    decreases n,
{
    if n <= 0 {
        Some(
            RebuildState {
                rules: Seq::empty(),
                last_max: 0,
                start_pos: if sp.len() == 0 {
                    usize::MAX as int
                } else {
                    sp[0] as int
                },
                di: 0,
                ii: 0,
            },
        )
    } else {
        match rebuild_run(deltas, sv, sp, dm, mf, n - 1) {
            None => None,
            Some(st) => {
                let i = n - 1;
                let moved: Option<RebuildState> = if i == st.start_pos {
                    if st.ii < sv.len() {
                        let ii2 = st.ii + 1;
                        if ii2 < sp.len() {
                            Some(RebuildState { last_max: sv[st.ii] as int, start_pos: st.start_pos + sp[ii2], ii: ii2, ..st })
                        } else {
                            Some(RebuildState { last_max: sv[st.ii] as int, ii: ii2, ..st })
                        }
                    } else {
                        Some(st)
                    }
                } else if st.di < deltas.len() {
                    Some(RebuildState { last_max: st.last_max + deltas[st.di], di: st.di + 1, ..st })
                } else {
                    None
                };
                match moved {
                    None => None,
                    Some(m) => {
                        if m.last_max > u32::MAX || m.start_pos > usize::MAX || i >= mf.len() || i >= dm.len()
                            || dm[i] > m.last_max {
                            None
                        } else {
                            let lm = m.last_max as u32;
                            let lo = (m.last_max - dm[i]) as u32;
                            Some(
                                RebuildState {
                                    rules: m.rules.push(if mf[i] {
                                        seq![lm, lo]
                                    } else {
                                        seq![lo, lm]
                                    }),
                                    ..m
                                },
                            )
                        }
                    },
                }
            },
        }
    }
}

/// Rebuilds `dlen` rules from the streams and the flags and appends them to
/// `rules`. Returns whether that succeeded; where it does not (a stream runs
/// out or a number leaves its type), `rules` is
/// left as it was.
pub fn rebuild_rules(
    deltas: &Vec<u32>,
    sv: &Vec<u32>,
    sp: &Vec<u32>,
    dm: &Vec<u32>,
    max_first: &BitVec,
    dlen: usize,
    rules: &mut Vec<Vec<u32>>,
) -> (ok: bool)
    ensures
        ok == rebuild_run(deltas@, sv@, sp@, dm@, bits::bits_of(*max_first), dlen as int) is Some,
        ok ==> final(rules)@.map_values(|r: Vec<u32>| r@) == old(rules)@.map_values(|r: Vec<u32>| r@) + rebuild_run(
            deltas@,
            sv@,
            sp@,
            dm@,
            bits::bits_of(*max_first),
            dlen as int,
        ).unwrap().rules,
        !ok ==> final(rules)@ == old(rules)@,
{
    let ghost mf = bits::bits_of(*max_first);
    let mut out: Vec<Vec<u32>> = Vec::new();
    let mut last_max: u32 = 0;
    let mut start_pos: usize = if sp.len() == 0 {
        usize::MAX
    } else {
        sp[0] as usize
    };
    let mut deltas_i: usize = 0;
    let mut incr_i: usize = 0;
    let mut i: usize = 0;
    let ndl = deltas.len();
    let nmf = bv_len(max_first);
    while i < dlen
        invariant
            ndl == deltas@.len(),
            nmf == mf.len(),
            mf == bits::bits_of(*max_first),
            i <= dlen,
            rebuild_run(deltas@, sv@, sp@, dm@, mf, i as int) is Some,
            ({
                let st = rebuild_run(deltas@, sv@, sp@, dm@, mf, i as int).unwrap();
                &&& st.last_max == last_max
                &&& st.start_pos == start_pos
                &&& st.di == deltas_i
                &&& st.ii == incr_i
                &&& out@.map_values(|r: Vec<u32>| r@) == st.rules
            }),
        decreases dlen - i,
    {
        let ghost st2 = rebuild_run(deltas@, sv@, sp@, dm@, mf, i + 1);
        let mut lm: u64 = last_max as u64;
        if i == start_pos {
            if incr_i < sv.len() {
                lm = sv[incr_i] as u64;
                incr_i = incr_i + 1;
                if incr_i < sp.len() {
                    match start_pos.checked_add(sp[incr_i] as usize) {
                        Some(p) => {
                            start_pos = p;
                        },
                        None => {
                            proof {
                                lemma_rebuild_none_stays(deltas@, sv@, sp@, dm@, mf, i + 1, dlen as int);
                            }
                            return false;
                        },
                    }
                }
            }
        } else if deltas_i < ndl {
            lm = lm + deltas[deltas_i] as u64;
            deltas_i = deltas_i + 1;
        } else {
            proof {
                lemma_rebuild_none_stays(deltas@, sv@, sp@, dm@, mf, i + 1, dlen as int);
            }
            return false;
        }
        if lm > u32::MAX as u64 || i >= nmf || i >= dm.len() || dm[i] as u64 > lm {
            proof {
                lemma_rebuild_none_stays(deltas@, sv@, sp@, dm@, mf, i + 1, dlen as int);
            }
            return false;
        }
        last_max = lm as u32;
        let lo = last_max - dm[i];
        let pair: Vec<u32> = if bv_get(max_first, i) {
            vec![last_max, lo]
        } else {
            vec![lo, last_max]
        };
        let ghost before = out@;
        assert(pair@ =~= st2.unwrap().rules.last());
        out.push(pair);
        assert(out@.map_values(|r: Vec<u32>| r@) =~= before.map_values(|r: Vec<u32>| r@).push(pair@));
        i = i + 1;
    }
    let ghost r0 = rules@;
    let ghost o = out@;
    rules.append(&mut out);
    assert(rules@.map_values(|r: Vec<u32>| r@) =~= r0.map_values(|r: Vec<u32>| r@) + o.map_values(|r: Vec<u32>| r@));
    true
}

/// A run that fails on `n` rules fails on more.
proof fn lemma_rebuild_none_stays(
    deltas: Seq<u32>,
    sv: Seq<u32>,
    sp: Seq<u32>,
    dm: Seq<u32>,
    mf: Seq<bool>,
    n: int,
    m: int,
)
    requires
        0 <= n <= m,
        rebuild_run(deltas, sv, sp, dm, mf, n) is None,
    ensures
        rebuild_run(deltas, sv, sp, dm, mf, m) is None,
    decreases m,
{
    if n < m {
        lemma_rebuild_none_stays(deltas, sv, sp, dm, mf, n, m - 1);
    }
}


/// The pieces of a sorting code (after its 8-bit prefix): the terminal block,
/// the block of the packed streams, the number of rules, their flags, and
/// the rest, which holds the sequence.
pub struct SortingParts {
    pub z: BitVec,
    pub vbits: BitVec,
    pub dlen: u64,
    pub max_first: BitVec,
    pub s: BitVec,
}

/// Where the pieces of a sorting code lie: 32-bit lengths before the
/// terminal block, the packed block and the flags, each piece cut short
/// where the bits end.
pub open spec fn sorting_layout(b: Seq<bool>) -> (Seq<bool>, Seq<bool>, nat, Seq<bool>, Seq<bool>) {
    let zl = bits::part_value(b, 8, 32) as int;
    let vl = bits::part_value(b, 40 + zl, 32) as int;
    let dl = bits::part_value(b, 72 + zl + vl, 32) as int;
    let m = 104 + zl + vl;
    (
        bits::part(b, 40, 40 + zl),
        bits::part(b, 72 + zl, 72 + zl + vl),
        dl as nat,
        bits::part(b, m, m + dl),
        bits::part(b, m + dl, b.len() as int),
    )
}

/// Cuts a sorting code into its pieces.
pub fn split_sorting(bv: &BitVec) -> (p: SortingParts)
    ensures
        (bits::bits_of(p.z), bits::bits_of(p.vbits), p.dlen as nat, bits::bits_of(p.max_first), bits::bits_of(p.s))
            == sorting_layout(bits::bits_of(*bv)),
{
    let zl = read_part(bv, 8, 32);
    let z = copy_part(bv, 40, 40 + zl);
    let vl = read_part(bv, 40 + zl, 32);
    let vbits = copy_part(bv, 72 + zl, 72 + zl + vl);
    let dl = read_part(bv, 72 + zl + vl, 32);
    let m = 104 + zl + vl;
    let max_first = copy_part(bv, m, m + dl);
    let len = bv_len(bv) as u64;
    let s = copy_part(bv, m + dl, len);
    SortingParts { z, vbits, dlen: dl, max_first, s }
}

/// The blocks of a sorting code after its prefix: the coded terminals, the
/// coded packed streams and the flags, each behind its length in 32 bits.
pub open spec fn sorting_blocks(z: Seq<bool>, v: Seq<bool>, mf: Seq<bool>) -> Seq<bool> {
    bits::field_bits(z.len(), 32) + z + bits::field_bits(v.len(), 32) + v + bits::field_bits(mf.len(), 32) + mf
}

/// Writes the three blocks of a sorting code, in their order.
pub fn write_sorting_blocks(z: &BitVec, vbits: &BitVec, max_first: &BitVec, bv: &mut BitVec)
    requires
        bits::bits_of(*old(bv)).len() + 96 + bits::bits_of(*z).len() + bits::bits_of(*vbits).len() + bits::bits_of(
            *max_first,
        ).len() < usize::MAX,
    ensures
        bits::bits_of(*final(bv)) == bits::bits_of(*old(bv)) + sorting_blocks(
            bits::bits_of(*z),
            bits::bits_of(*vbits),
            bits::bits_of(*max_first),
        ),
{
    let ghost b0 = bits::bits_of(*bv);
    proof {
        bits::lemma_field_len(bits::bits_of(*z).len(), 32);
        bits::lemma_field_len(bits::bits_of(*vbits).len(), 32);
    }
    push_block(z, bv);
    push_block(vbits, bv);
    push_block(max_first, bv);
    assert(bits::bits_of(*bv) =~= b0 + sorting_blocks(bits::bits_of(*z), bits::bits_of(*vbits), bits::bits_of(*max_first)));
}

/// Drops a last symbol `0`, the padding of the sequence's number code.
pub fn drop_zero_padding(seq: &mut Vec<u32>)
    ensures
        final(seq)@ == if old(seq)@.len() > 0 && old(seq)@.last() == 0 {
            old(seq)@.drop_last()
        } else {
            old(seq)@
        },
{
    let n = seq.len();
    if n > 0 && seq[n - 1] == 0 {
        seq.pop();
        assert(seq@ =~= old(seq)@.drop_last());
    }
}


/// Where the rebuilder stands after the last run start: the last rule that
/// starts a run, or `usize::MAX` (no position) when none does.
pub open spec fn drop_fallback(rules: Seq<Seq<u32>>) -> int {
    let ld = encode::last_drop(rules, rules.len() as int);
    if ld == 0 {
        usize::MAX as int
    } else {
        ld
    }
}

/// The first position at or after `n` whose rule starts a new run; when no
/// later rule does, `drop_fallback`.
pub open spec fn next_drop(rules: Seq<Seq<u32>>, n: int) -> int
    decreases rules.len() - n,
{
    if n < 0 || n >= rules.len() {
        drop_fallback(rules)
    } else if !encode::rises(rules, n) {
        n
    } else {
        next_drop(rules, n + 1)
    }
}

/// The streams of fewer rules are prefixes of those of more.
proof fn lemma_deltas_prefix(rules: Seq<Seq<u32>>, bias: int, n: int, m: int)
    requires
        0 <= n <= m,
    ensures
        ({
            let a = encode::deltas_upto(rules, bias, n);
            let b = encode::deltas_upto(rules, bias, m);
            &&& a.deltas == b.deltas.take(a.deltas.len() as int)
            &&& a.starting_values == b.starting_values.take(a.starting_values.len() as int)
            &&& a.starting_points == b.starting_points.take(a.starting_points.len() as int)
            &&& a.deltas_minimums == b.deltas_minimums.take(n)
            &&& a.max_first == b.max_first.take(n)
            &&& a.deltas.len() <= b.deltas.len()
            &&& a.starting_values.len() <= b.starting_values.len()
            &&& a.starting_values.len() == a.starting_points.len()
            &&& b.deltas.len() + b.starting_values.len() == m
            &&& b.starting_values.len() == b.starting_points.len()
            &&& b.deltas_minimums.len() == m
            &&& b.max_first.len() == m
        }),
    decreases m,
{
    if m > 0 {
        if n < m {
            lemma_deltas_prefix(rules, bias, n, m - 1);
        } else {
            lemma_deltas_prefix(rules, bias, n - 1, m - 1);
        }
        let a = encode::deltas_upto(rules, bias, m - 1);
        let b = encode::deltas_upto(rules, bias, m);
        assert(a.deltas =~= b.deltas.take(a.deltas.len() as int));
        assert(a.starting_values =~= b.starting_values.take(a.starting_values.len() as int));
        assert(a.starting_points =~= b.starting_points.take(a.starting_points.len() as int));
        assert(a.deltas_minimums =~= b.deltas_minimums.take(m - 1));
        assert(a.max_first =~= b.max_first.take(m - 1));
        assert(b.deltas =~= b.deltas.take(b.deltas.len() as int));
        assert(b.starting_values =~= b.starting_values.take(b.starting_values.len() as int));
        assert(b.starting_points =~= b.starting_points.take(b.starting_points.len() as int));
        assert(b.deltas_minimums =~= b.deltas_minimums.take(m));
        assert(b.max_first =~= b.max_first.take(m));
    } else {
        let b = encode::deltas_upto(rules, bias, 0);
        assert(b.deltas =~= b.deltas.take(0));
        assert(b.starting_values =~= b.starting_values.take(0));
        assert(b.starting_points =~= b.starting_points.take(0));
        assert(b.deltas_minimums =~= b.deltas_minimums.take(0));
        assert(b.max_first =~= b.max_first.take(0));
    }
}

/// The last run start before `q` is `n` when `n` starts a run and no rule
/// between them does.
proof fn lemma_last_drop(rules: Seq<Seq<u32>>, n: int, q: int)
    requires
        0 <= q <= rules.len(),
        0 <= n < q,
        !encode::rises(rules, n),
        forall|t: int| n < t < q ==> #[trigger] encode::rises(rules, t),
    ensures
        encode::last_drop(rules, q) == n,
    decreases q,
{
    if q - 1 > n {
        assert(encode::rises(rules, q - 1));
        lemma_last_drop(rules, n, q - 1);
    }
}

/// The last run start before `q` is `0` when no rule before `q` starts a run.
proof fn lemma_no_drop_before(rules: Seq<Seq<u32>>, q: int)
    requires
        0 <= q <= rules.len(),
        forall|t: int| 0 <= t < q ==> #[trigger] encode::rises(rules, t),
    ensures
        encode::last_drop(rules, q) == 0,
    decreases q,
{
    if q > 0 {
        assert(encode::rises(rules, q - 1));
        lemma_no_drop_before(rules, q - 1);
    }
}

/// The last run start of all the rules starts a run, when some rule does.
proof fn lemma_last_drop_is_drop(rules: Seq<Seq<u32>>, q: int)
    requires
        0 <= q <= rules.len(),
        exists|k: int| 0 <= k < q && !encode::rises(rules, k),
    ensures
        0 <= encode::last_drop(rules, q) < q,
        !encode::rises(rules, encode::last_drop(rules, q)),
    decreases q,
{
    if encode::rises(rules, q - 1) {
        let k = choose|k: int| 0 <= k < q && !encode::rises(rules, k);
        assert(k != q - 1);
        lemma_last_drop_is_drop(rules, q - 1);
    }
}

/// Where the next run start lies, and how many runs start before it.
proof fn lemma_next_drop(rules: Seq<Seq<u32>>, n: int)
    requires
        0 <= n <= rules.len(),
    ensures
        ({
            let q = next_drop(rules, n);
            let len = rules.len() as int;
            ||| (n <= q < len && !encode::rises(rules, q) && (forall|t: int| n <= t < q ==> #[trigger] encode::rises(rules, t))
                && encode::deltas_upto(rules, 0, q).starting_values.len() == encode::deltas_upto(rules, 0, n).starting_values.len())
            ||| ((forall|t: int| n <= t < len ==> #[trigger] encode::rises(rules, t)) && q == drop_fallback(rules)
                && encode::deltas_upto(rules, 0, len).starting_values.len() == encode::deltas_upto(rules, 0, n).starting_values.len())
        }),
    decreases rules.len() - n,
{
    if n < rules.len() && encode::rises(rules, n) {
        lemma_next_drop(rules, n + 1);
        assert(encode::deltas_upto(rules, 0, n + 1).starting_values == encode::deltas_upto(rules, 0, n).starting_values);
    }
}

/// Decoding what the sorting encoder writes gives back the rules: the
/// streams of binary rules (computed without bias), packed into one list,
/// unpacked again and rebuilt with the flags, yield the rules, when their
/// number fits in `u32`.
pub proof fn lemma_sorting_roundtrip(rules: Seq<Seq<u32>>)
    requires
        rules.len() <= u32::MAX,
        forall|k: int| 0 <= k < rules.len() ==> (#[trigger] rules[k]).len() == 2,
    ensures
        ({
            let d = encode::deltas_upto(rules, 0, rules.len() as int);
            let u = unpacked(packed(d));
            &&& rebuild_run(u.0, u.1, u.2, u.3, d.max_first, rules.len() as int) is Some
            &&& rebuild_run(u.0, u.1, u.2, u.3, d.max_first, rules.len() as int).unwrap().rules == rules
        }),
{
    let len = rules.len() as int;
    let d = encode::deltas_upto(rules, 0, len);
    lemma_deltas_prefix(rules, 0, len, len);
    let v = packed(d);
    let dl = d.deltas.len() as int;
    let il = d.starting_values.len() as int;
    assert(v[0] == dl);
    assert(v[1] == il);
    assert(v.len() == 2 + dl + 2 * il + len);
    assert(unpacked(v).0 =~= d.deltas);
    assert(unpacked(v).1 =~= d.starting_values);
    assert(unpacked(v).2 =~= d.starting_points);
    assert(unpacked(v).3 =~= d.deltas_minimums);
    lemma_sorting_rebuild(rules, len);
    assert(rules.take(len) =~= rules);
}

proof fn lemma_sorting_rebuild(rules: Seq<Seq<u32>>, n: int)
    requires
        rules.len() <= u32::MAX,
        forall|k: int| 0 <= k < rules.len() ==> (#[trigger] rules[k]).len() == 2,
        0 <= n <= rules.len(),
    ensures
        ({
            let d = encode::deltas_upto(rules, 0, rules.len() as int);
            let dn = encode::deltas_upto(rules, 0, n);
            rebuild_run(d.deltas, d.starting_values, d.starting_points, d.deltas_minimums, d.max_first, n) == Some(
                RebuildState {
                    rules: rules.take(n),
                    last_max: encode::prev_max(rules, n),
                    start_pos: next_drop(rules, n),
                    di: dn.deltas.len() as int,
                    ii: dn.starting_values.len() as int,
                },
            )
        }),
    decreases n,
{
    let len = rules.len() as int;
    let d = encode::deltas_upto(rules, 0, len);
    let some_drop = exists|k: int| 0 <= k < rules.len() && !encode::rises(rules, k);
    if some_drop {
        lemma_last_drop_is_drop(rules, len);
    } else {
        lemma_no_drop_before(rules, len);
    }
    if n == 0 && !some_drop {
        lemma_next_drop(rules, 0);
        lemma_deltas_prefix(rules, 0, 0, len);
        assert(d.starting_points.len() == 0);
        assert(rules.take(0) =~= Seq::<Seq<u32>>::empty());
    } else if n == 0 {
        lemma_next_drop(rules, 0);
        let q = next_drop(rules, 0);
        lemma_deltas_prefix(rules, 0, q + 1, len);
        lemma_deltas_prefix(rules, 0, q, q);
        assert(encode::rises(rules, 0));
        lemma_no_drop_before(rules, q);
        let dq = encode::deltas_upto(rules, 0, q);
        let dq1 = encode::deltas_upto(rules, 0, q + 1);
        assert(dq1.starting_points == dq.starting_points.push((q - encode::last_drop(rules, q)) as u32));
        assert(encode::last_drop(rules, q) == 0);
        assert(dq.starting_points.len() == 0);
        assert(d.starting_points[0] == dq1.starting_points[0]);
        assert(d.starting_points[0] == q);
        assert(rules.take(0) =~= Seq::<Seq<u32>>::empty());
    } else {
        let i = n - 1;
        lemma_sorting_rebuild(rules, i);
        let di = encode::deltas_upto(rules, 0, i);
        let dn = encode::deltas_upto(rules, 0, n);
        lemma_deltas_prefix(rules, 0, n, len);
        lemma_deltas_prefix(rules, 0, i, n);
        lemma_deltas_prefix(rules, 0, i, i);
        lemma_next_drop(rules, i);
        lemma_next_drop(rules, n);
        let r = rules[i];
        let a = encode::rule_max(r);
        assert(r.len() == 2);
        assert(rules.take(n) =~= rules.take(i).push(r));
        assert(d.max_first[i] == dn.max_first[i]);
        assert(d.deltas_minimums[i] == dn.deltas_minimums[i]);
        let lo = encode::rule_min(r);
        if a == r[0] {
            assert(r =~= seq![a, lo]);
        } else {
            assert(r =~= seq![lo, a]);
        }
        if encode::rises(rules, i) {
            assert(d.deltas[di.deltas.len() as int] == dn.deltas[di.deltas.len() as int]);
            assert(encode::prev_max(rules, i) <= a);
            assert(next_drop(rules, i) != i);
            assert(next_drop(rules, i) == next_drop(rules, n));
        } else {
            assert(d.starting_values[di.starting_values.len() as int] == dn.starting_values[di.starting_values.len() as int]);
            let q = next_drop(rules, n);
            if n <= q < len && !encode::rises(rules, q) {
                lemma_deltas_prefix(rules, 0, q + 1, len);
                lemma_deltas_prefix(rules, 0, q, q);
                lemma_deltas_prefix(rules, 0, n, q);
                lemma_last_drop(rules, i, q);
                let dq = encode::deltas_upto(rules, 0, q);
                let dq1 = encode::deltas_upto(rules, 0, q + 1);
                assert(dq1.starting_points == dq.starting_points.push((q - encode::last_drop(rules, q)) as u32));
                assert(encode::last_drop(rules, q) == i);
                assert(dq.starting_points.len() == dn.starting_values.len());
                assert(d.starting_points[dn.starting_values.len() as int] == dq1.starting_points[dn.starting_values.len() as int]);
                assert(d.starting_points[dn.starting_values.len() as int] == (q - i) as u32);
                assert(dn.starting_values.len() < d.starting_points.len());
                assert(next_drop(rules, i) == i);
            } else {
                lemma_last_drop(rules, i, len);
                assert(encode::rises(rules, 0));
                assert(d.starting_points.len() == dn.starting_values.len());
                assert(next_drop(rules, n) == i);
            }
        }
    }
}


/// Cutting a written sorting code (behind an 8-bit prefix) gives back its
/// pieces: the terminal block, the block of the packed streams, the number
/// of flags, the flags, and the rest.
pub proof fn lemma_sorting_layout(head: Seq<bool>, z: Seq<bool>, v: Seq<bool>, mf: Seq<bool>, rest: Seq<bool>)
    requires
        head.len() == 8,
        z.len() < 0x1_0000_0000,
        v.len() < 0x1_0000_0000,
        mf.len() < 0x1_0000_0000,
    ensures
        sorting_layout(head + sorting_blocks(z, v, mf) + rest) == (z, v, mf.len(), mf, rest),
{
    bits::lemma_two_to_values();
    bits::lemma_field_roundtrip(z.len(), 32);
    bits::lemma_field_roundtrip(v.len(), 32);
    bits::lemma_field_roundtrip(mf.len(), 32);
    let b = head + sorting_blocks(z, v, mf) + rest;
    assert(b =~= head + bits::field_bits(z.len(), 32) + z + bits::field_bits(v.len(), 32) + v + bits::field_bits(mf.len(), 32)
        + mf + rest);
    let zl = z.len() as int;
    let vl = v.len() as int;
    let dl = mf.len() as int;
    assert(bits::part(b, 8, 40) =~= bits::field_bits(z.len(), 32));
    assert(bits::part(b, 40, 40 + zl) =~= z);
    assert(bits::part(b, 40 + zl, 72 + zl) =~= bits::field_bits(v.len(), 32));
    assert(bits::part(b, 72 + zl, 72 + zl + vl) =~= v);
    assert(bits::part(b, 72 + zl + vl, 104 + zl + vl) =~= bits::field_bits(mf.len(), 32));
    assert(bits::part(b, 104 + zl + vl, 104 + zl + vl + dl) =~= mf);
    assert(bits::part(b, 104 + zl + vl + dl, b.len() as int) =~= rest);
}

} // verus!
