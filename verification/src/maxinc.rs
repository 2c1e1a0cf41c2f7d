//! The run-length variant of the gamma encoding: the rules are cut into runs
//! in which the larger symbol does not fall; the code holds the symbol width
//! and the sequence length, and the number stream ends with the length of
//! every run.
use vstd::prelude::*;
use bit_vec::BitVec;
use crate::bits;
use crate::bits::{append_bits, bv_get, bv_len};
use crate::gamma;
use crate::gamma::{byte_parts, field_parts, max_streams_upto, pair_max, push_bytes, push_fields, u_to_bv, PairStreams};
use crate::module::cfg;

verus! {

/// The streams of the pair rules `g`, with the length of the last run at the
/// end of the run lengths.
pub fn maxinc_streams(g: &Vec<(u32, u32)>) -> (st: PairStreams)
    requires
        g@.len() < u32::MAX,
        forall|k: int| 0 <= k < g@.len() ==> pair_max(#[trigger] g@[k]) < u32::MAX,
    ensures
        st.v@ == max_streams_upto(g@, g@.len() as int).v,
        bits::bits_of(st.lr) == max_streams_upto(g@, g@.len() as int).lr,
        st.r@ == max_streams_upto(g@, g@.len() as int).r.push(max_streams_upto(g@, g@.len() as int).ren as u32),
        st.u@ == max_streams_upto(g@, g@.len() as int).u,
{
    let mut st = gamma::max_streams(g);
    let ren = st.ren;
    st.r.push(ren);
    st
}

/// The code before the number streams: terminal count (8 bits), terminals,
/// rule count, symbol width (32 bits each), the smaller symbols, the flags,
/// the sequence length (32 bits) and the sequence.
pub open spec fn maxinc_head(
    z: Seq<u8>,
    glen: nat,
    s: Seq<u32>,
    u: Seq<u32>,
    lr: Seq<bool>,
    sbitlen: nat,
) -> Seq<bool> {
    bits::field_bits(z.len(), 8) + bits::join(byte_parts(z)) + bits::field_bits(glen, 32) + bits::field_bits(
        sbitlen,
        32,
    ) + bits::join(field_parts(u, sbitlen)) + lr + bits::field_bits(s.len(), 32) + bits::join(
        field_parts(s, sbitlen),
    )
}

/// Writes the code before the number streams.
pub fn write_maxinc(
    z: &Vec<u8>,
    glen: usize,
    s: &Vec<u32>,
    u: &Vec<u32>,
    lr: &BitVec,
    sbitlen: u32,
    bv: &mut BitVec,
)
    requires
        sbitlen <= 32,
        z@.len() <= u32::MAX,
        glen <= u32::MAX,
        s@.len() <= u32::MAX,
        bits::bits_of(*old(bv)).len() + 104 + 8 * z@.len() + 32 * u@.len() + bits::bits_of(*lr).len() + 32
            * s@.len() < usize::MAX,
    ensures
        bits::bits_of(*final(bv)) == bits::bits_of(*old(bv)) + maxinc_head(
            z@,
            glen as nat,
            s@,
            u@,
            bits::bits_of(*lr),
            sbitlen as nat,
        ),
{
    let ghost b0 = bits::bits_of(*bv);
    proof {
        bits::lemma_field_len(z@.len(), 8);
        bits::lemma_field_len(glen as nat, 32);
        bits::lemma_field_len(sbitlen as nat, 32);
        bits::lemma_field_len(s@.len(), 32);
        assert forall|i: int| 0 <= i < byte_parts(z@).len() implies (#[trigger] byte_parts(z@)[i]).len() == 8 by {
            bits::lemma_field_len(z@[i] as nat, 8);
        }
        bits::lemma_join_len(byte_parts(z@), 8);
        assert forall|i: int| 0 <= i < field_parts(u@, sbitlen as nat).len() implies (#[trigger] field_parts(
            u@,
            sbitlen as nat,
        )[i]).len() == sbitlen by {
            bits::lemma_field_len(u@[i] as nat, sbitlen as nat);
        }
        bits::lemma_join_len(field_parts(u@, sbitlen as nat), sbitlen as nat);
        assert(sbitlen * u@.len() <= 32 * u@.len()) by (nonlinear_arith)
            requires
                sbitlen <= 32,
        ;
        assert(sbitlen * s@.len() <= 32 * s@.len()) by (nonlinear_arith)
            requires
                sbitlen <= 32,
        ;
    }
    u_to_bv(z.len() as u32, 8, bv);
    push_bytes(z, bv);
    u_to_bv(glen as u32, 32, bv);
    u_to_bv(sbitlen, 32, bv);
    push_fields(u, sbitlen, bv);
    append_bits(lr, bv);
    u_to_bv(s.len() as u32, 32, bv);
    push_fields(s, sbitlen, bv);
    assert(bits::bits_of(*bv) =~= b0 + maxinc_head(z@, glen as nat, s@, u@, bits::bits_of(*lr), sbitlen as nat));
}

/// The state of the pair rebuilder: the rules so far, the last larger
/// symbol, the position of the current run length, and the rules left in
/// the run (plus one).
pub struct PairRebuild {
    pub g: Seq<(u32, u32)>,
    pub prev: int,
    pub rpos: int,
    pub ren: int,
}

/// Rebuilding the first `n` pair rules from the number stream `v` (rises
/// and falls, then the run lengths from position `glen`), the smaller
/// symbols `u` and the flags `lr`. `None` where a stream runs out or a
/// number leaves `u32`.
pub open spec fn rebuild_pairs_run(v: Seq<u32>, u: Seq<u32>, lr: Seq<bool>, glen: int, n: int) -> Option<PairRebuild>
    decreases n,
{
    if n <= 0 {
        if 0 <= glen < v.len() {
            Some(PairRebuild { g: Seq::empty(), prev: 0, rpos: glen, ren: v[glen] as int })
        } else {
            None
        }
    } else {
        match rebuild_pairs_run(v, u, lr, glen, n - 1) {
            None => None,
            Some(st) => {
                let i = n - 1;
                if i >= lr.len() || i >= v.len() || i >= u.len() {
                    None
                } else if st.ren > 1 {
                    let x = st.prev + v[i] - 1;
                    if st.prev + v[i] > u32::MAX || x < 0 {
                        None
                    } else {
                        let p = if lr[i] { (x as u32, u[i]) } else { (u[i], x as u32) };
                        Some(PairRebuild { g: st.g.push(p), prev: x, rpos: st.rpos, ren: st.ren - 1 })
                    }
                } else {
                    let y = st.prev - v[i] + 1;
                    if st.prev < v[i] || y > u32::MAX || st.rpos + 1 >= v.len() {
                        None
                    } else {
                        let p = if lr[i] { (y as u32, u[i]) } else { (u[i], y as u32) };
                        Some(PairRebuild { g: st.g.push(p), prev: y, rpos: st.rpos + 1, ren: v[st.rpos + 1] as int })
                    }
                }
            },
        }
    }
}


/// Rebuilds `glen` pair rules; `None` where a stream runs out or a number
/// leaves `u32`.
pub fn rebuild_pairs(v: &Vec<u32>, u: &Vec<u32>, lr: &BitVec, glen: usize) -> (g: Option<Vec<(u32, u32)>>)
    ensures
        g is Some == rebuild_pairs_run(v@, u@, bits::bits_of(*lr), glen as int, glen as int) is Some,
        g is Some ==> g.unwrap()@ == rebuild_pairs_run(v@, u@, bits::bits_of(*lr), glen as int, glen as int).unwrap().g,
{
    let ghost lrb = bits::bits_of(*lr);
    let nv = v.len();
    if glen >= nv {
        proof {
            lemma_rebuild_pairs_none_stays(v@, u@, lrb, glen as int, 0, glen as int);
        }
        return None;
    }
    let nlr = bv_len(lr);
    let mut g: Vec<(u32, u32)> = Vec::new();
    let mut prev: u32 = 0;
    let mut rpos: usize = glen;
    let mut ren: u32 = v[rpos];
    let mut i: usize = 0;
    while i < glen
        invariant
            lrb == bits::bits_of(*lr),
            nv == v@.len(),
            nlr == lrb.len(),
            i <= glen,
            rpos < nv,
            rebuild_pairs_run(v@, u@, lrb, glen as int, i as int) is Some,
            ({
                let st = rebuild_pairs_run(v@, u@, lrb, glen as int, i as int).unwrap();
                &&& st.g == g@
                &&& st.prev == prev
                &&& st.rpos == rpos
                &&& st.ren == ren
            }),
        decreases glen - i,
    {
        if i >= nlr || i >= nv || i >= u.len() {
            proof {
                lemma_rebuild_pairs_none_stays(v@, u@, lrb, glen as int, i + 1, glen as int);
            }
            return None;
        }
        let flag = bv_get(lr, i);
        if ren > 1 {
            if prev as u64 + v[i] as u64 > u32::MAX as u64 || (prev as u64 + v[i] as u64) < 1 {
                proof {
                    lemma_rebuild_pairs_none_stays(v@, u@, lrb, glen as int, i + 1, glen as int);
                }
                return None;
            }
            let x = prev + v[i] - 1;
            if flag {
                g.push((x, u[i]));
            } else {
                g.push((u[i], x));
            }
            ren = ren - 1;
            prev = x;
        } else {
            if prev < v[i] || prev - v[i] == u32::MAX || rpos + 1 >= nv {
                proof {
                    lemma_rebuild_pairs_none_stays(v@, u@, lrb, glen as int, i + 1, glen as int);
                }
                return None;
            }
            let y = prev - v[i] + 1;
            if flag {
                g.push((y, u[i]));
            } else {
                g.push((u[i], y));
            }
            rpos = rpos + 1;
            ren = v[rpos];
            prev = y;
        }
        i = i + 1;
    }
    Some(g)
}

/// A rebuild that fails on `n` rules fails on more.
proof fn lemma_rebuild_pairs_none_stays(v: Seq<u32>, u: Seq<u32>, lr: Seq<bool>, glen: int, n: int, m: int)
    requires
        0 <= n <= m,
        rebuild_pairs_run(v, u, lr, glen, n) is None,
    ensures
        rebuild_pairs_run(v, u, lr, glen, m) is None,
    decreases m,
{
    if n < m {
        lemma_rebuild_pairs_none_stays(v, u, lr, glen, n, m - 1);
    }
}

/// Appends to `w` the string that the sequence `s` of the pair grammar
/// `(z, g)` derives, when the derivation of every symbol of `s` ends (its
/// rules may refer to later rules, as long as no cycle is met); returns
/// whether it does (and leaves `w` as it was where it does not).
pub fn expand_pairs(z: &Vec<u8>, g: &Vec<(u32, u32)>, s: &Vec<u32>, w: &mut Vec<u8>) -> (ok: bool)
    ensures
        ok == gamma::pairs_expand(z@, g@, s@),
        ok ==> final(w)@ == old(w)@ + gamma::pair_expansions(z@, g@, s@),
        !ok ==> final(w)@ == old(w)@,
{
    let m = gamma::expanding_rules(z, g);
    let mut j: usize = 0;
    while j < s.len()
        invariant
            m@.len() == g@.len(),
            forall|k: int| 0 <= k < g@.len() ==> #[trigger] m@[k] == gamma::pair_expands(z@, g@, z@.len() + k + 1),
            j <= s@.len(),
            forall|jj: int| 0 <= jj < j ==> gamma::pair_expands(z@, g@, #[trigger] s@[jj] as int),
        decreases s@.len() - j,
    {
        proof {
            gamma::lemma_marked_iff(z@, g@, m@, s@[j as int] as int);
        }
        if !gamma::is_marked(z.len(), &m, s[j]) {
            return false;
        }
        j = j + 1;
    }
    let ghost w0 = w@;
    let mut k: usize = 0;
    while k < s.len()
        invariant
            gamma::pairs_expand(z@, g@, s@),
            k <= s@.len(),
            w@ == w0 + gamma::pair_expansions(z@, g@, s@.take(k as int)),
        decreases s@.len() - k,
    {
        assert(s@.take(k + 1).drop_last() =~= s@.take(k as int));
        gamma::drv(s[k], z, g, w);
        assert(w@ =~= w0 + gamma::pair_expansions(z@, g@, s@.take(k + 1)));
        k = k + 1;
    }
    assert(s@.take(s@.len() as int) =~= s@);
    true
}

/// The number of rules from `n` on, before the next fall, whose larger
/// symbol does not fall against the rule before.
pub open spec fn rises_ahead(g: Seq<(u32, u32)>, n: int) -> nat
    decreases g.len() - n,
{
    if n < 0 || n >= g.len() {
        0
    } else if max_streams_upto(g, n).prev <= pair_max(g[n]) {
        1 + rises_ahead(g, n + 1)
    } else {
        0
    }
}

/// Streams of fewer rules are prefixes of those of more.
pub(crate) proof fn lemma_streams_prefix(g: Seq<(u32, u32)>, n: int, m: int)
    requires
        0 <= n <= m <= g.len(),
    ensures
        max_streams_upto(g, n).v == max_streams_upto(g, m).v.take(n),
        max_streams_upto(g, n).lr == max_streams_upto(g, m).lr.take(n),
        max_streams_upto(g, n).u == max_streams_upto(g, m).u.take(n),
        max_streams_upto(g, m).v.len() == m,
        max_streams_upto(g, m).lr.len() == m,
        max_streams_upto(g, m).u.len() == m,
        max_streams_upto(g, n).r.len() <= max_streams_upto(g, m).r.len(),
        max_streams_upto(g, n).r == max_streams_upto(g, m).r.take(max_streams_upto(g, n).r.len() as int),
        1 <= max_streams_upto(g, m).ren <= m + 1,
    decreases m,
{
    if m > 0 {
        if n < m {
            lemma_streams_prefix(g, n, m - 1);
        } else {
            lemma_streams_prefix(g, n - 1, m - 1);
        }
        let a = max_streams_upto(g, m - 1);
        let b = max_streams_upto(g, m);
        assert(a.v =~= b.v.take(m - 1));
        assert(a.lr =~= b.lr.take(m - 1));
        assert(a.u =~= b.u.take(m - 1));
        assert(a.r =~= b.r.take(a.r.len() as int));
        assert(b.v =~= b.v.take(m));
        assert(b.lr =~= b.lr.take(m));
        assert(b.u =~= b.u.take(m));
        assert(b.r =~= b.r.take(b.r.len() as int));
    }
}

/// The run length that the streams of all rules hold for the run in which
/// rule `n` stands: the count so far plus the rises still ahead.
pub(crate) proof fn lemma_run_length_ahead(g: Seq<(u32, u32)>, n: int)
    requires
        0 <= n <= g.len(),
        g.len() < u32::MAX,
    ensures
        ({
            let full = max_streams_upto(g, g.len() as int);
            let st = max_streams_upto(g, n);
            let runs = full.r.push(full.ren as u32);
            &&& st.r.len() < runs.len()
            &&& runs[st.r.len() as int] == st.ren + rises_ahead(g, n)
        }),
    decreases g.len() - n,
{
    let full = max_streams_upto(g, g.len() as int);
    let st = max_streams_upto(g, n);
    lemma_streams_prefix(g, n, g.len() as int);
    if n < g.len() {
        lemma_run_length_ahead(g, n + 1);
        let st1 = max_streams_upto(g, n + 1);
        lemma_streams_prefix(g, n + 1, g.len() as int);
        lemma_streams_prefix(g, n, n);
        if st.prev <= pair_max(g[n]) {
        } else {
            assert(st1.r[st.r.len() as int] == st.ren as u32);
            assert(full.r[st.r.len() as int] == st1.r[st.r.len() as int]);
        }
    } else {
        lemma_streams_prefix(g, n, n);
    }
}

/// Decoding what the encoder writes gives back the rules: rebuilding the
/// rules from the number stream (rises and falls, then the run lengths with
/// the last one), the smaller symbols and the flags yields the pair rules
/// that the streams were computed from, when every larger symbol lies
/// strictly between `0` and `u32::MAX`.
pub proof fn lemma_maxinc_roundtrip(g: Seq<(u32, u32)>)
    requires
        g.len() < u32::MAX,
        forall|k: int| 0 <= k < g.len() ==> 1 <= #[trigger] pair_max(g[k]) < u32::MAX,
    ensures
        ({
            let full = max_streams_upto(g, g.len() as int);
            let v = full.v + full.r.push(full.ren as u32);
            &&& rebuild_pairs_run(v, full.u, full.lr, g.len() as int, g.len() as int) is Some
            &&& rebuild_pairs_run(v, full.u, full.lr, g.len() as int, g.len() as int).unwrap().g == g
        }),
{
    lemma_maxinc_rebuild(g, g.len() as int);
    assert(g.take(g.len() as int) =~= g);
}

proof fn lemma_maxinc_rebuild(g: Seq<(u32, u32)>, n: int)
    requires
        g.len() < u32::MAX,
        forall|k: int| 0 <= k < g.len() ==> 1 <= #[trigger] pair_max(g[k]) < u32::MAX,
        0 <= n <= g.len(),
    ensures
        ({
            let full = max_streams_upto(g, g.len() as int);
            let v = full.v + full.r.push(full.ren as u32);
            let st = max_streams_upto(g, n);
            rebuild_pairs_run(v, full.u, full.lr, g.len() as int, n) == Some(
                PairRebuild { g: g.take(n), prev: st.prev, rpos: (g.len() + st.r.len()) as int, ren: (1 + rises_ahead(g, n)) as int },
            )
        }),
    decreases n,
{
    let len = g.len() as int;
    let full = max_streams_upto(g, len);
    let runs = full.r.push(full.ren as u32);
    let v = full.v + runs;
    lemma_streams_prefix(g, 0, len);
    lemma_run_length_ahead(g, n);
    let st = max_streams_upto(g, n);
    if n == 0 {
        assert(v[len] == runs[0]);
        assert(g.take(0) =~= Seq::<(u32, u32)>::empty());
    } else {
        lemma_maxinc_rebuild(g, n - 1);
        let i = n - 1;
        let p = max_streams_upto(g, i);
        lemma_streams_prefix(g, n, len);
        lemma_streams_prefix(g, i, n);
        lemma_streams_prefix(g, i, len);
        lemma_run_length_ahead(g, i);
        let e = g[i];
        let m = pair_max(e) as int;
        assert(1 <= m < u32::MAX);
        assert(v[i] == full.v[i]);
        assert(full.v[i] == st.v[i]);
        assert(full.lr[i] == st.lr[i]);
        assert(full.u[i] == st.u[i]);
        assert(p.prev >= 0);
        assert(p.prev < u32::MAX) by {
            if i > 0 {
                assert(p.prev == pair_max(g[i - 1]));
            }
        }
        assert(g.take(n) =~= g.take(i).push(e));
        if p.prev <= m {
            assert(rises_ahead(g, i) == 1 + rises_ahead(g, n));
        } else {
            assert(rises_ahead(g, i) == 0);
            assert(v[len + p.r.len() + 1] == runs[p.r.len() as int + 1]);
        }
    }
}


/// Cutting a written run-length code into its pieces gives back the
/// terminals, the rule count, the smaller symbols, the flags, the sequence
/// and the number streams after them, when there are fewer than `256`
/// terminals, one smaller symbol and one flag per rule, the counts fit in
/// 32 bits, and every smaller symbol and sequence symbol fits in the symbol
/// width (of `1` to `32` bits).
pub proof fn lemma_maxinc_layout(
    z: Seq<u8>,
    glen: nat,
    s: Seq<u32>,
    u: Seq<u32>,
    lr: Seq<bool>,
    sbitlen: nat,
    rest: Seq<bool>,
)
    requires
        z.len() < 256,
        glen < 0x1_0000_0000,
        s.len() < 0x1_0000_0000,
        u.len() == glen,
        lr.len() == glen,
        1 <= sbitlen <= 32,
        forall|j: int| 0 <= j < u.len() ==> (u[j] as nat) < bits::two_to(sbitlen),
        forall|j: int| 0 <= j < s.len() ==> (s[j] as nat) < bits::two_to(sbitlen),
    ensures
        ({
            let b = maxinc_head(z, glen, s, u, lr, sbitlen) + rest;
            let (zl, gl, sb, sl) = crate::module::encode::header_fields(b);
            let a = 72 + 8 * zl;
            let c = a + gl * sb + gl + 32;
            &&& (zl, gl, sb, sl) == (z.len() as int, glen as int, sbitlen as int, s.len() as int)
            &&& crate::module::encode::header_fits(b)
            &&& bits::chunks(b, 8, 8, zl).map_values(|x: u32| x as u8) == z
            &&& bits::chunks(b, a, sb, gl) == u
            &&& bits::part(b, a + gl * sb, a + gl * sb + gl) == lr
            &&& bits::chunks(b, c, sb, sl) == s
            &&& bits::part(b, c + sl * sb, b.len() as int) == rest
        }),
{
    bits::lemma_two_to_values();
    let zb = bits::join(gamma::byte_parts(z));
    let ub = bits::join(gamma::field_parts(u, sbitlen));
    let sbits = bits::join(gamma::field_parts(s, sbitlen));
    let f1 = bits::field_bits(z.len(), 8);
    let f2 = bits::field_bits(glen, 32);
    let f3 = bits::field_bits(sbitlen, 32);
    let f4 = bits::field_bits(s.len(), 32);
    let b = maxinc_head(z, glen, s, u, lr, sbitlen) + rest;
    assert(b =~= f1 + zb + f2 + f3 + ub + lr + f4 + sbits + rest);
    let zs = z.map_values(|x: u8| x as u32);
    assert(gamma::field_parts(zs, 8) =~= gamma::byte_parts(z));
    assert forall|j: int| 0 <= j < zs.len() implies (zs[j] as nat) < bits::two_to(8) by {}
    let parts_z = gamma::byte_parts(z);
    assert forall|i: int| 0 <= i < parts_z.len() implies (#[trigger] parts_z[i]).len() == 8 by {
        bits::lemma_field_len(z[i] as nat, 8);
    }
    bits::lemma_join_len(parts_z, 8);
    let parts_u = gamma::field_parts(u, sbitlen);
    assert forall|i: int| 0 <= i < parts_u.len() implies (#[trigger] parts_u[i]).len() == sbitlen by {
        bits::lemma_field_len(u[i] as nat, sbitlen);
    }
    bits::lemma_join_len(parts_u, sbitlen);
    let parts_s = gamma::field_parts(s, sbitlen);
    assert forall|i: int| 0 <= i < parts_s.len() implies (#[trigger] parts_s[i]).len() == sbitlen by {
        bits::lemma_field_len(s[i] as nat, sbitlen);
    }
    bits::lemma_join_len(parts_s, sbitlen);
    bits::lemma_two_to_monotone(8, 32);
    bits::lemma_field_roundtrip(z.len(), 8);
    bits::lemma_field_roundtrip(glen, 32);
    bits::lemma_field_roundtrip(sbitlen, 32);
    bits::lemma_field_roundtrip(s.len(), 32);
    let zl = z.len() as int;
    let a = 72 + 8 * zl;
    let gs = glen * sbitlen;
    assert(sbitlen * glen == glen * sbitlen) by (nonlinear_arith);
    let c = a + gs + glen + 32;
    let ss = sbitlen * s.len();
    assert(s.len() * sbitlen == sbitlen * s.len()) by (nonlinear_arith);
    assert(bits::part(b, 0, 8) =~= f1);
    assert(bits::part(b, 8 + 8 * zl, 40 + 8 * zl) =~= f2);
    assert(bits::part(b, 40 + 8 * zl, 72 + 8 * zl) =~= f3);
    assert(bits::part(b, a + gs + glen, a + gs + glen + 32) =~= f4);
    assert(glen * sbitlen <= 0xffff_ffff * 32) by (nonlinear_arith)
        requires
            glen < 0x1_0000_0000,
            sbitlen <= 32,
    ;
    assert(sbitlen * s.len() <= 0xffff_ffff * 32) by (nonlinear_arith)
        requires
            s.len() < 0x1_0000_0000,
            sbitlen <= 32,
    ;
    assert(b.subrange(8, 8 + 8 * zl) =~= zb);
    gamma::lemma_chunks_fields_exact(b, 8, 8, zs, 0);
    assert(bits::chunks(b, 8, 8, zl).map_values(|x: u32| x as u8) =~= z);
    assert(b.subrange(a, a + gs) =~= ub);
    gamma::lemma_chunks_fields_exact(b, a, sbitlen, u, 0);
    assert(u.subrange(0, u.len() as int) =~= u);
    assert(bits::part(b, a + gs, a + gs + glen) =~= lr);
    assert(b.subrange(c, c + ss) =~= sbits);
    gamma::lemma_chunks_fields_exact(b, c, sbitlen, s, 0);
    assert(s.subrange(0, s.len() as int) =~= s);
    assert(bits::part(b, c + ss, b.len() as int) =~= rest);
}

} // verus!
