//! Bit encodings of grammars, and the streams of numbers that the encoders
//! derive from the rules: a rule `[x, y]` is described by its larger symbol
//! `a = max(x, y)`, the difference `a - min(x, y)`, and whether `a` comes
//! first; the larger symbols of consecutive rules are written as runs in
//! which they do not decrease.
pub mod u32bits;
pub mod sorting;
pub mod fble;

use vstd::prelude::*;
use bit_vec::BitVec;
use crate::bits;
use crate::gamma;
use crate::bits::{bv_new, bv_push, bv_get, copy_part, push_block, read_chunks, read_part, bv_len};
use crate::module::cfg::Grammar;

verus! {

/// The larger of the first two symbols of a rule.
pub open spec fn rule_max(r: Seq<u32>) -> u32 {
    if r[0] >= r[1] {
        r[0]
    } else {
        r[1]
    }
}

/// The smaller of the first two symbols of a rule.
pub open spec fn rule_min(r: Seq<u32>) -> u32 {
    if r[0] <= r[1] {
        r[0]
    } else {
        r[1]
    }
}

/// The larger symbol of the rule before `k` (`0` before the first rule).
pub open spec fn prev_max(rules: Seq<Seq<u32>>, k: int) -> int {
    if k == 0 {
        0
    } else {
        rule_max(rules[k - 1]) as int
    }
}

/// Rule `k` continues a run: its larger symbol is not below that of the rule before.
pub open spec fn rises(rules: Seq<Seq<u32>>, k: int) -> bool {
    rule_max(rules[k]) >= prev_max(rules, k)
}

/// The position of the last rule before `n` that starts a new run (`0` if none).
pub open spec fn last_drop(rules: Seq<Seq<u32>>, n: int) -> int
    decreases n,
{
    if n <= 0 {
        0
    } else if !rises(rules, n - 1) {
        n - 1
    } else {
        last_drop(rules, n - 1)
    }
}

/// The streams of the first `n` rules.
pub struct DeltasView {
    /// For a rule in a run: the rise of the larger symbol (plus the bias).
    pub deltas: Seq<u32>,
    /// For a rule that starts a new run: its larger symbol.
    pub starting_values: Seq<u32>,
    /// For a rule that starts a new run: its distance to the one before
    /// (to position 0 for the first).
    pub starting_points: Seq<u32>,
    /// For every rule: larger minus smaller symbol (plus the bias).
    pub deltas_minimums: Seq<u32>,
    /// For every rule: the larger symbol comes first.
    pub max_first: Seq<bool>,
}

pub open spec fn deltas_upto(rules: Seq<Seq<u32>>, bias: int, n: int) -> DeltasView
    decreases n,
{
    if n <= 0 {
        DeltasView {
            deltas: Seq::empty(),
            starting_values: Seq::empty(),
            starting_points: Seq::empty(),
            deltas_minimums: Seq::empty(),
            max_first: Seq::empty(),
        }
    } else {
        let d = deltas_upto(rules, bias, n - 1);
        let k = n - 1;
        let a = rule_max(rules[k]);
        DeltasView {
            deltas: if rises(rules, k) {
                d.deltas.push((a - prev_max(rules, k) + bias) as u32)
            } else {
                d.deltas
            },
            starting_values: if rises(rules, k) {
                d.starting_values
            } else {
                d.starting_values.push(a)
            },
            starting_points: if rises(rules, k) {
                d.starting_points
            } else {
                d.starting_points.push((k - last_drop(rules, k)) as u32)
            },
            deltas_minimums: d.deltas_minimums.push((a - rule_min(rules[k]) + bias) as u32),
            max_first: d.max_first.push(a == rules[k][0]),
        }
    }
}

/// The streams of a grammar's rules.
pub struct RuleDeltas {
    pub deltas: Vec<u32>,
    pub starting_values: Vec<u32>,
    pub starting_points: Vec<u32>,
    pub deltas_minimums: Vec<u32>,
    pub max_first: BitVec,
}

impl RuleDeltas {
    pub open spec fn view_streams(&self) -> DeltasView {
        DeltasView {
            deltas: self.deltas@,
            starting_values: self.starting_values@,
            starting_points: self.starting_points@,
            deltas_minimums: self.deltas_minimums@,
            max_first: bits::bits_of(self.max_first),
        }
    }
}

/// Computes the streams of the rules of `g` (from the first two symbols of
/// each), adding `bias` to every difference.
pub fn rule_deltas(g: &Grammar, bias: u32) -> (d: RuleDeltas)
    requires
        g@.rules_at_least_pairs(),
        g@.rule.len() < u32::MAX,
        forall|k: int| 0 <= k < g@.rule.len() ==> rule_max(#[trigger] g@.rule[k]) + bias <= u32::MAX,
    ensures
        d.view_streams() == deltas_upto(g@.rule, bias as int, g@.rule.len() as int),
{
    let ghost rules = g@.rule;
    let mut d = RuleDeltas {
        deltas: Vec::new(),
        starting_values: Vec::new(),
        starting_points: Vec::new(),
        deltas_minimums: Vec::new(),
        max_first: bv_new(),
    };
    let mut last_max: u32 = 0;
    let mut last_incr_seq: u32 = 0;
    let n = g.rule.len();
    let mut i: usize = 0;
    assert(d.view_streams() =~= deltas_upto(rules, bias as int, 0));
    while i < n
        invariant
            rules == g@.rule,
            n == rules.len(),
            n < u32::MAX,
            i <= n,
            g@.rules_at_least_pairs(),
            forall|k: int| 0 <= k < rules.len() ==> rule_max(#[trigger] rules[k]) + bias <= u32::MAX,
            last_max == prev_max(rules, i as int),
            last_incr_seq == last_drop(rules, i as int),
            last_incr_seq <= i,
            d.view_streams() == deltas_upto(rules, bias as int, i as int),
            bits::bits_of(d.max_first).len() == i,
        decreases n - i,
    {
        let ghost k = i as int;
        let ghost old_d = d.view_streams();
        assert(g.rule[k]@ == rules[k]);
        assert(rules[k].len() >= 2);
        let x = g.rule[i][0];
        let y = g.rule[i][1];
        let a = if x >= y { x } else { y };
        let mn = if x <= y { x } else { y };
        d.deltas_minimums.push(a - mn + bias);
        bv_push(&mut d.max_first, a == x);
        if a >= last_max {
            d.deltas.push(a - last_max + bias);
        } else {
            d.starting_values.push(a);
            d.starting_points.push(i as u32 - last_incr_seq);
            last_incr_seq = i as u32;
        }
        last_max = a;
        assert(d.view_streams() =~= deltas_upto(rules, bias as int, k + 1));
        i = i + 1;
    }
    d
}


/// The blocks of the rule-stream code, in their order, each behind its
/// length in 32 bits: the coded terminals, the coded rises, starting values,
/// starting points and differences, and the flags.
pub open spec fn stream_blocks(blocks: Seq<Seq<bool>>) -> Seq<bool>
    decreases blocks.len(),
{
    if blocks.len() == 0 {
        Seq::empty()
    } else {
        stream_blocks(blocks.drop_last()) + bits::field_bits(blocks.last().len(), 32) + blocks.last()
    }
}

/// Writes the six blocks of the rule-stream code in their order.
pub fn write_stream_blocks(
    z: &BitVec,
    deltas: &BitVec,
    starting_values: &BitVec,
    starting_points: &BitVec,
    deltas_minimums: &BitVec,
    max_first: &BitVec,
    bv: &mut BitVec,
)
    requires
        bits::bits_of(*old(bv)).len() + 192 + bits::bits_of(*z).len() + bits::bits_of(*deltas).len() + bits::bits_of(
            *starting_values,
        ).len() + bits::bits_of(*starting_points).len() + bits::bits_of(*deltas_minimums).len() + bits::bits_of(
            *max_first,
        ).len() < usize::MAX,
    ensures
        bits::bits_of(*final(bv)) == bits::bits_of(*old(bv)) + stream_blocks(
            seq![
                bits::bits_of(*z),
                bits::bits_of(*deltas),
                bits::bits_of(*starting_values),
                bits::bits_of(*starting_points),
                bits::bits_of(*deltas_minimums),
                bits::bits_of(*max_first),
            ],
        ),
{
    let ghost b0 = bits::bits_of(*bv);
    let ghost bl = seq![
        bits::bits_of(*z),
        bits::bits_of(*deltas),
        bits::bits_of(*starting_values),
        bits::bits_of(*starting_points),
        bits::bits_of(*deltas_minimums),
        bits::bits_of(*max_first),
    ];
    proof {
        bits::lemma_field_len(bl[0].len(), 32);
        bits::lemma_field_len(bl[1].len(), 32);
        bits::lemma_field_len(bl[2].len(), 32);
        bits::lemma_field_len(bl[3].len(), 32);
        bits::lemma_field_len(bl[4].len(), 32);
        assert(bl.take(0) =~= Seq::<Seq<bool>>::empty());
        assert(bl.take(1).drop_last() =~= bl.take(0));
        assert(bl.take(2).drop_last() =~= bl.take(1));
        assert(bl.take(3).drop_last() =~= bl.take(2));
        assert(bl.take(4).drop_last() =~= bl.take(3));
        assert(bl.take(5).drop_last() =~= bl.take(4));
        assert(bl.take(6) =~= bl);
        assert(bl.drop_last() =~= bl.take(5));
    }
    push_block(z, bv);
    assert(stream_blocks(bl.take(0)) =~= Seq::<bool>::empty());
    assert(bl.take(1).last() == bl[0]);
    assert(bits::bits_of(*bv) =~= b0 + stream_blocks(bl.take(1)));
    push_block(deltas, bv);
    assert(bits::bits_of(*bv) =~= b0 + stream_blocks(bl.take(2)));
    push_block(starting_values, bv);
    assert(bits::bits_of(*bv) =~= b0 + stream_blocks(bl.take(3)));
    push_block(starting_points, bv);
    assert(bits::bits_of(*bv) =~= b0 + stream_blocks(bl.take(4)));
    push_block(deltas_minimums, bv);
    assert(bits::bits_of(*bv) =~= b0 + stream_blocks(bl.take(5)));
    push_block(max_first, bv);
    assert(bits::bits_of(*bv) =~= b0 + stream_blocks(bl));
}

/// Reading `n` blocks from the front of `b`, each behind its length in 32
/// bits: the blocks in order and the bits after them; `None` where the bits
/// run out.
pub open spec fn cut_blocks(b: Seq<bool>, n: nat) -> Option<(Seq<Seq<bool>>, Seq<bool>)>
    decreases n,
{
    if n == 0 {
        Some((Seq::empty(), b))
    } else if b.len() < 32 {
        None
    } else {
        let len = bits::bits_value(b.subrange(0, 32)) as int;
        if b.len() < 32 + len {
            None
        } else {
            match cut_blocks(b.subrange(32 + len, b.len() as int), (n - 1) as nat) {
                Some(p) => Some((seq![b.subrange(32, 32 + len)] + p.0, p.1)),
                None => None,
            }
        }
    }
}

/// The total length of blocks.
pub open spec fn blocks_len(blocks: Seq<Seq<bool>>) -> nat
    decreases blocks.len(),
{
    if blocks.len() == 0 {
        0
    } else {
        blocks_len(blocks.drop_last()) + blocks.last().len()
    }
}

/// Writing one more block in front.
proof fn lemma_stream_blocks_front(first: Seq<bool>, more: Seq<Seq<bool>>)
    ensures
        stream_blocks(seq![first] + more) == bits::field_bits(first.len(), 32) + first + stream_blocks(more),
        blocks_len(seq![first] + more) == first.len() + blocks_len(more),
    decreases more.len(),
{
    let all = seq![first] + more;
    if more.len() == 0 {
        assert(all.drop_last() =~= Seq::<Seq<bool>>::empty());
        assert(all.last() == first);
        assert(stream_blocks(Seq::<Seq<bool>>::empty()) =~= Seq::<bool>::empty());
        assert(blocks_len(Seq::<Seq<bool>>::empty()) == 0);
        assert(blocks_len(all) == blocks_len(all.drop_last()) + first.len());
        assert(Seq::<bool>::empty() + bits::field_bits(first.len(), 32) + first =~= bits::field_bits(first.len(), 32) + first
            + Seq::<bool>::empty());
    } else {
        lemma_stream_blocks_front(first, more.drop_last());
        assert(all.drop_last() =~= seq![first] + more.drop_last());
        assert(all.last() == more.last());
        let f = bits::field_bits(first.len(), 32);
        let m = stream_blocks(more.drop_last());
        let tail = bits::field_bits(more.last().len(), 32) + more.last();
        assert(f + first + m + tail =~= f + first + (m + tail));
    }
}

/// The rule-stream code can be cut back into its blocks: reading a 32-bit
/// length and the bits it counts, block after block, gives back every block
/// in order and what follows them; the code is 32 bits per block longer
/// than its blocks together.
pub proof fn lemma_stream_blocks_cut(blocks: Seq<Seq<bool>>, rest: Seq<bool>)
    requires
        forall|i: int| 0 <= i < blocks.len() ==> (#[trigger] blocks[i]).len() < 0x1_0000_0000,
    ensures
        cut_blocks(stream_blocks(blocks) + rest, blocks.len()) == Some((blocks, rest)),
        stream_blocks(blocks).len() == 32 * blocks.len() + blocks_len(blocks),
    decreases blocks.len(),
{
    if blocks.len() == 0 {
        assert(stream_blocks(blocks) + rest =~= rest);
        assert(blocks =~= Seq::<Seq<bool>>::empty());
    } else {
        let first = blocks[0];
        let more = blocks.skip(1);
        assert(blocks =~= seq![first] + more);
        assert forall|i: int| 0 <= i < more.len() implies (#[trigger] more[i]).len() < 0x1_0000_0000 by {
            assert(more[i] == blocks[i + 1]);
        }
        lemma_stream_blocks_cut(more, rest);
        lemma_stream_blocks_front(first, more);
        bits::lemma_two_to_values();
        bits::lemma_field_roundtrip(first.len(), 32);
        let f = bits::field_bits(first.len(), 32);
        let b = stream_blocks(blocks) + rest;
        let len = first.len() as int;
        assert(b =~= f + first + (stream_blocks(more) + rest));
        assert(b.subrange(0, 32) =~= f);
        assert(b.subrange(32, 32 + len) =~= first);
        assert(b.subrange(32 + len, b.len() as int) =~= stream_blocks(more) + rest);
        let p = cut_blocks(stream_blocks(more) + rest, more.len());
        assert(seq![first] + p.unwrap().0 =~= blocks);
    }
}

/// The pieces of a code with an 8-bit terminal count: the 8-bit terminals,
/// the rule count, the width of a symbol, the smaller symbols of the rules,
/// the flags of which symbol is larger, the sequence, and the rest.
pub struct HeaderParts {
    pub terminal: Vec<u8>,
    pub glen: u64,
    pub u: Vec<u32>,
    pub lr: BitVec,
    pub sequence: Vec<u32>,
    pub d: BitVec,
}

/// The header fields of such a code: terminal count, rule count, symbol
/// width and sequence length (each as far as the bits reach).
pub open spec fn header_fields(b: Seq<bool>) -> (int, int, int, int) {
    let zl = bits::part_value(b, 0, 8) as int;
    let gl = bits::part_value(b, 8 + 8 * zl, 32) as int;
    let sb = bits::part_value(b, 40 + 8 * zl, 32) as int;
    let a = 72 + 8 * zl;
    let sl = bits::part_value(b, a + gl * sb + gl, 32) as int;
    (zl, gl, sb, sl)
}

/// The regions that the header describes end below `2^64`.
pub open spec fn header_fits(b: Seq<bool>) -> bool {
    let (zl, gl, sb, sl) = header_fields(b);
    72 + 8 * zl + gl * sb + gl + 32 + sl * sb < 0x1_0000_0000_0000_0000
}

/// Cuts a code with an 8-bit terminal count into its pieces; symbols wider
/// than 32 bits keep their last 32 bits. `None` where the regions that the
/// header describes reach `2^64`.
pub fn split_header(bv: &BitVec) -> (p: Option<HeaderParts>)
    ensures
        p is Some == header_fits(bits::bits_of(*bv)),
        p matches Some(p) ==> ({
            let b = bits::bits_of(*bv);
            let (zl, gl, sb, sl) = header_fields(b);
            let a = 72 + 8 * zl;
            let c = a + gl * sb + gl + 32;
            &&& p.terminal@ == bits::chunks(b, 8, 8, zl).map_values(|x: u32| x as u8)
            &&& p.glen == gl
            &&& p.u@ == bits::chunks(b, a, sb, gl)
            &&& bits::bits_of(p.lr) == bits::part(b, a + gl * sb, a + gl * sb + gl)
            &&& p.sequence@ == bits::chunks(b, c, sb, sl)
            &&& bits::bits_of(p.d) == bits::part(b, c + sl * sb, b.len() as int)
        }),
{
    let ghost b = bits::bits_of(*bv);
    let zl = read_part(bv, 0, 8);
    let gl = read_part(bv, 8 + 8 * zl, 32);
    let sb = read_part(bv, 40 + 8 * zl, 32);
    let a: u64 = 72 + 8 * zl;
    assert(gl * sb < 0x1_0000_0000_0000_0000) by (nonlinear_arith)
        requires
            gl < 0x1_0000_0000,
            sb < 0x1_0000_0000,
    ;
    let gs: u64 = gl * sb;
    let t1 = match a.checked_add(gs) {
        Some(x) => x,
        None => {
            return None;
        },
    };
    let t2 = match t1.checked_add(gl) {
        Some(x) => x,
        None => {
            return None;
        },
    };
    let sl = read_part(bv, t2, 32);
    assert(sl * sb < 0x1_0000_0000_0000_0000) by (nonlinear_arith)
        requires
            sl < 0x1_0000_0000,
            sb < 0x1_0000_0000,
    ;
    let c = match t2.checked_add(32) {
        Some(x) => x,
        None => {
            return None;
        },
    };
    let e = match c.checked_add(sl * sb) {
        Some(x) => x,
        None => {
            return None;
        },
    };
    let mut zs: Vec<u32> = Vec::new();
    read_chunks(bv, 8, 8, zl, &mut zs);
    let mut terminal: Vec<u8> = Vec::new();
    let mut k: usize = 0;
    while k < zs.len()
        invariant
            k <= zs@.len(),
            terminal@ == zs@.take(k as int).map_values(|x: u32| x as u8),
        decreases zs@.len() - k,
    {
        terminal.push(zs[k] as u8);
        assert(terminal@ =~= zs@.take(k + 1).map_values(|x: u32| x as u8));
        k = k + 1;
    }
    assert(zs@.take(zs@.len() as int) =~= zs@);
    let mut u: Vec<u32> = Vec::new();
    read_chunks(bv, a, sb, gl, &mut u);
    let lr = copy_part(bv, t1, t2);
    let mut sequence: Vec<u32> = Vec::new();
    read_chunks(bv, c, sb, sl, &mut sequence);
    let len = bv_len(bv) as u64;
    let d = copy_part(bv, e, len);
    Some(HeaderParts { terminal, glen: gl, u, lr, sequence, d })
}


/// The state of the rule rebuilder of this encoding: the rules so far, the
/// last larger symbol, the position of the current run length, and the
/// rules left in the run (plus one).
pub struct RunRebuild {
    pub rules: Seq<Seq<u32>>,
    pub prev: int,
    pub rpos: int,
    pub ren: int,
}

/// Rebuilding the first `n` rules from the number stream `v` (run lengths
/// from position `glen`), the minimum differences `u` and the flags `lr`: in
/// a run the larger symbol is `prev + v[i] - 1` and the smaller one
/// `prev + v[i] - u[i]`; a rule that starts a run has larger symbol `v[i]`
/// and smaller one `v[i] - u[i] + 1`. `None` where a stream runs out or a
/// number leaves `u32`.
pub open spec fn run_rebuild(v: Seq<u32>, u: Seq<u32>, lr: Seq<bool>, glen: int, n: int) -> Option<RunRebuild>
    decreases n,
{
    if n <= 0 {
        if 0 <= glen < v.len() {
            Some(RunRebuild { rules: Seq::empty(), prev: 0, rpos: glen, ren: v[glen] as int })
        } else {
            None
        }
    } else {
        match run_rebuild(v, u, lr, glen, n - 1) {
            None => None,
            Some(st) => {
                let i = n - 1;
                if i >= lr.len() || i >= v.len() || i >= u.len() {
                    None
                } else if st.ren > 1 {
                    let s = st.prev + v[i];
                    if s > u32::MAX || s < 1 || s < u[i] {
                        None
                    } else {
                        let x = (s - 1) as u32;
                        let y = (s - u[i]) as u32;
                        Some(
                            RunRebuild {
                                rules: st.rules.push(if lr[i] { seq![x, y] } else { seq![y, x] }),
                                prev: s - 1,
                                rpos: st.rpos,
                                ren: st.ren - 1,
                            },
                        )
                    }
                } else {
                    if v[i] < u[i] || v[i] - u[i] + 1 > u32::MAX || st.rpos + 1 >= v.len() {
                        None
                    } else {
                        let a = v[i];
                        let b = (v[i] - u[i] + 1) as u32;
                        Some(
                            RunRebuild {
                                rules: st.rules.push(if lr[i] { seq![a, b] } else { seq![b, a] }),
                                prev: v[i] as int,
                                rpos: st.rpos + 1,
                                ren: v[st.rpos + 1] as int,
                            },
                        )
                    }
                }
            },
        }
    }
}


/// Rebuilds `glen` rules and appends them to `rules`. Returns whether that
/// succeeded; where it does not (a stream runs out or a number leaves
/// `u32`), `rules` is left as it was.
pub fn rebuild_run_rules(v: &Vec<u32>, u: &Vec<u32>, lr: &BitVec, glen: usize, rules: &mut Vec<Vec<u32>>) -> (ok: bool)
    ensures
        ok == run_rebuild(v@, u@, bits::bits_of(*lr), glen as int, glen as int) is Some,
        ok ==> final(rules)@.map_values(|r: Vec<u32>| r@) == old(rules)@.map_values(|r: Vec<u32>| r@) + run_rebuild(
            v@,
            u@,
            bits::bits_of(*lr),
            glen as int,
            glen as int,
        ).unwrap().rules,
        !ok ==> final(rules)@ == old(rules)@,
{
    let ghost lrb = bits::bits_of(*lr);
    let nv = v.len();
    if glen >= nv {
        proof {
            lemma_run_rebuild_none_stays(v@, u@, lrb, glen as int, 0, glen as int);
        }
        return false;
    }
    let nlr = bv_len(lr);
    let mut out: Vec<Vec<u32>> = Vec::new();
    let mut prev: u32 = 0;
    let mut rpos: usize = glen;
    let mut ren: u32 = v[rpos];
    let mut i: usize = 0;
    while i < glen
        invariant
            nv == v@.len(),
            nlr == lrb.len(),
            lrb == bits::bits_of(*lr),
            i <= glen,
            rpos < nv,
            run_rebuild(v@, u@, lrb, glen as int, i as int) is Some,
            ({
                let st = run_rebuild(v@, u@, lrb, glen as int, i as int).unwrap();
                &&& out@.map_values(|r: Vec<u32>| r@) == st.rules
                &&& st.prev == prev
                &&& st.rpos == rpos
                &&& st.ren == ren
            }),
        decreases glen - i,
    {
        let ghost st2 = run_rebuild(v@, u@, lrb, glen as int, i + 1);
        if i >= nlr || i >= nv || i >= u.len() {
            proof {
                lemma_run_rebuild_none_stays(v@, u@, lrb, glen as int, i + 1, glen as int);
            }
            return false;
        }
        let flag = bv_get(lr, i);
        let pair: Vec<u32>;
        if ren > 1 {
            let s: u64 = prev as u64 + v[i] as u64;
            if s > u32::MAX as u64 || s < 1 || s < u[i] as u64 {
                proof {
                    lemma_run_rebuild_none_stays(v@, u@, lrb, glen as int, i + 1, glen as int);
                }
                return false;
            }
            let x = (s - 1) as u32;
            let y = (s - u[i] as u64) as u32;
            pair = if flag { vec![x, y] } else { vec![y, x] };
            ren = ren - 1;
            prev = x;
        } else {
            if v[i] < u[i] || v[i] as u64 - u[i] as u64 + 1 > u32::MAX as u64 || rpos + 1 >= nv {
                proof {
                    lemma_run_rebuild_none_stays(v@, u@, lrb, glen as int, i + 1, glen as int);
                }
                return false;
            }
            let b = v[i] - u[i] + 1;
            let a = v[i];
            pair = if flag { vec![a, b] } else { vec![b, a] };
            rpos = rpos + 1;
            ren = v[rpos];
            prev = a;
        }
        let ghost before = out@;
        assert(pair@ =~= st2.unwrap().rules.last());
        out.push(pair);
        assert(out@.map_values(|r: Vec<u32>| r@) =~= before.map_values(|r: Vec<u32>| r@).push(pair@));
        i = i + 1;
    }
    let ghost r0 = rules@;
    let ghost o = out@;
    rules.append(&mut out);
    assert(rules@.map_values(|r: Vec<u32>| r@) =~= r0.map_values(|r: Vec<u32>| r@) + o.map_values(|r: Vec<u32>| r@));
    true
}

/// A rebuild that fails on `n` rules fails on more.
proof fn lemma_run_rebuild_none_stays(v: Seq<u32>, u: Seq<u32>, lr: Seq<bool>, glen: int, n: int, m: int)
    requires
        0 <= n <= m,
        run_rebuild(v, u, lr, glen, n) is None,
    ensures
        run_rebuild(v, u, lr, glen, m) is None,
    decreases m,
{
    if n < m {
        lemma_run_rebuild_none_stays(v, u, lr, glen, n, m - 1);
    }
}

/// The larger symbol of the pair rule before rule `k` (`0` before the first).
pub open spec fn pair_prev_max(g: Seq<(u32, u32)>, k: int) -> int {
    if k <= 0 {
        0
    } else {
        gamma::pair_max(g[k - 1]) as int
    }
}

/// The number of pair rule `k` in the number stream of this encoding: the
/// rise of its larger symbol plus one where it does not fall against the
/// rule before, else its larger symbol itself (it starts a new run).
pub open spec fn run_number(g: Seq<(u32, u32)>, k: int) -> u32 {
    let m = gamma::pair_max(g[k]) as int;
    let p = pair_prev_max(g, k);
    if p <= m {
        (m - p + 1) as u32
    } else {
        m as u32
    }
}

/// The number stream of this encoding for the pair rules `g`: one number
/// per rule, then the length of every run (with the last one) as the
/// streams of `gamma` count them.
pub open spec fn run_numbers(g: Seq<(u32, u32)>) -> Seq<u32> {
    let full = gamma::max_streams_upto(g, g.len() as int);
    Seq::new(g.len(), |k: int| run_number(g, k)) + full.r.push(full.ren as u32)
}

/// For every pair rule, its larger symbol less its smaller one, plus one.
pub open spec fn run_differences(g: Seq<(u32, u32)>) -> Seq<u32> {
    Seq::new(g.len(), |k: int| (gamma::pair_max(g[k]) - gamma::pair_min(g[k]) + 1) as u32)
}

/// For every pair rule, whether its first symbol is the larger one.
pub open spec fn run_flags(g: Seq<(u32, u32)>) -> Seq<bool> {
    Seq::new(g.len(), |k: int| g[k].0 >= g[k].1)
}

/// Rebuilding the rules from the streams that this encoding writes for a
/// list of pair rules gives back those rules, when every symbol lies
/// strictly between `0` and `u32::MAX`: a rule in a run rises from the
/// larger symbol of the rule before it, a rule that starts a run has its
/// own larger symbol.
pub proof fn lemma_run_rules_roundtrip(g: Seq<(u32, u32)>)
    requires
        g.len() < u32::MAX,
        forall|k: int| 0 <= k < g.len() ==> 1 <= gamma::pair_min(#[trigger] g[k]) && gamma::pair_max(g[k]) < u32::MAX,
    ensures
        run_rebuild(run_numbers(g), run_differences(g), run_flags(g), g.len() as int, g.len() as int) is Some,
        run_rebuild(run_numbers(g), run_differences(g), run_flags(g), g.len() as int, g.len() as int).unwrap().rules
            == gamma::pair_rules(g),
{
    lemma_run_rules_rebuild(g, g.len() as int);
    assert(g.take(g.len() as int) =~= g);
}

proof fn lemma_run_rules_rebuild(g: Seq<(u32, u32)>, n: int)
    requires
        g.len() < u32::MAX,
        forall|k: int| 0 <= k < g.len() ==> 1 <= gamma::pair_min(#[trigger] g[k]) && gamma::pair_max(g[k]) < u32::MAX,
        0 <= n <= g.len(),
    ensures
        ({
            let st = gamma::max_streams_upto(g, n);
            run_rebuild(run_numbers(g), run_differences(g), run_flags(g), g.len() as int, n) == Some(
                RunRebuild {
                    rules: gamma::pair_rules(g.take(n)),
                    prev: pair_prev_max(g, n),
                    rpos: (g.len() + st.r.len()) as int,
                    ren: (1 + crate::maxinc::rises_ahead(g, n)) as int,
                },
            )
        }),
    decreases n,
{
    let len = g.len() as int;
    let full = gamma::max_streams_upto(g, len);
    let runs = full.r.push(full.ren as u32);
    let v = run_numbers(g);
    let u = run_differences(g);
    let lr = run_flags(g);
    crate::maxinc::lemma_streams_prefix(g, 0, len);
    crate::maxinc::lemma_run_length_ahead(g, n);
    let st = gamma::max_streams_upto(g, n);
    if n == 0 {
        assert(v[len] == runs[0]);
        assert(gamma::pair_rules(g.take(0)) =~= Seq::<Seq<u32>>::empty());
    } else {
        lemma_run_rules_rebuild(g, n - 1);
        let i = n - 1;
        let p = gamma::max_streams_upto(g, i);
        crate::maxinc::lemma_streams_prefix(g, n, len);
        crate::maxinc::lemma_streams_prefix(g, i, n);
        crate::maxinc::lemma_streams_prefix(g, i, len);
        crate::maxinc::lemma_run_length_ahead(g, i);
        let e = g[i];
        let m = gamma::pair_max(e) as int;
        let mn = gamma::pair_min(e) as int;
        assert(1 <= mn <= m < u32::MAX);
        assert(p.prev == pair_prev_max(g, i)) by {
            if i > 0 {
                assert(p.prev == gamma::pair_max(g[i - 1]));
            }
        }
        assert(0 <= p.prev < u32::MAX) by {
            if i > 0 {
                assert(p.prev == gamma::pair_max(g[i - 1]));
            }
        }
        assert(v[i] == run_number(g, i));
        assert(u[i] == (m - mn + 1) as u32);
        assert(lr[i] == (e.0 >= e.1));
        assert(st.prev == m);
        assert(pair_prev_max(g, n) == m);
        assert(gamma::pair_rules(g.take(n)) =~= gamma::pair_rules(g.take(i)).push(seq![e.0, e.1]));
        if p.prev <= m {
            assert(crate::maxinc::rises_ahead(g, i) == 1 + crate::maxinc::rises_ahead(g, n));
        } else {
            assert(crate::maxinc::rises_ahead(g, i) == 0);
            assert(v[len + p.r.len() + 1] == runs[p.r.len() as int + 1]);
        }
    }
}

} // verus!
