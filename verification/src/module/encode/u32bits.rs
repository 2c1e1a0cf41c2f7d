//! The plain encoding: counts in 32 bits, terminals in 8 bits, every rule
//! symbol and sequence symbol in 32 bits. A decoder expects the code behind
//! an 8-bit prefix that names the encoding.
use vstd::prelude::*;
use bit_vec::BitVec;
use crate::bits::{bv_len, push_field, read_field};
use crate::bits;
use crate::module::cfg::{Grammar, GrammarView};
use crate::module::comp;

verus! {

/// The code of a grammar whose rules have at least two symbols (the first
/// two of each are written).
pub open spec fn u32bits_code(g: GrammarView) -> Seq<bool> {
    bits::field_bits(g.terminal.len(), 32) + bits::join(terminal_parts(g.terminal)) + bits::field_bits(
        g.rule.len(),
        32,
    ) + bits::join(rule_parts(g.rule)) + bits::join(symbol_parts(g.sequence))
}

pub open spec fn terminal_parts(z: Seq<u8>) -> Seq<Seq<bool>> {
    z.map_values(|b: u8| bits::field_bits(b as nat, 8))
}

pub open spec fn rule_parts(rules: Seq<Seq<u32>>) -> Seq<Seq<bool>> {
    rules.map_values(|r: Seq<u32>| bits::field_bits(r[0] as nat, 32) + bits::field_bits(r[1] as nat, 32))
}

pub open spec fn symbol_parts(xs: Seq<u32>) -> Seq<Seq<bool>> {
    xs.map_values(|x: u32| bits::field_bits(x as nat, 32))
}

pub open spec fn min(a: int, b: int) -> int {
    if a <= b {
        a
    } else {
        b
    }
}

/// What the decoder reads from `b` (prefix included): the terminal count at
/// bit 8, then complete 8-bit terminals, the rule count, complete 64-bit
/// rules, and every complete 32-bit symbol after the rules.
pub open spec fn u32bits_decoded(b: Seq<bool>) -> GrammarView {
    let len = b.len() as int;
    if len < 40 {
        GrammarView { terminal: Seq::empty(), rule: Seq::empty(), sequence: Seq::empty() }
    } else {
        let zl = bits::field_at(b, 8, 32) as int;
        let nt = min(zl, (len - 40) / 8);
        let z = Seq::new(nt as nat, |k: int| bits::field_at(b, 40 + 8 * k, 8) as u8);
        let a = 72 + 8 * zl;
        if len < a {
            GrammarView { terminal: z, rule: Seq::empty(), sequence: Seq::empty() }
        } else {
            let rl = bits::field_at(b, 40 + 8 * zl, 32) as int;
            let nr = min(rl, (len - a) / 64);
            let rules = Seq::new(
                nr as nat,
                |k: int|
                    seq![bits::field_at(b, a + 64 * k, 32) as u32, bits::field_at(b, a + 64 * k + 32, 32) as u32],
            );
            let c = a + 64 * rl;
            let ns = if len < c {
                0
            } else {
                (len - c) / 32
            };
            let sq = Seq::new(ns as nat, |k: int| bits::field_at(b, c + 32 * k, 32) as u32);
            GrammarView { terminal: z, rule: rules, sequence: sq }
        }
    }
}

/// Appends the code of `g` to `bv`.
pub fn encode(g: &Grammar, bv: &mut BitVec)
    requires
        g@.rules_at_least_pairs(),
        g@.terminal.len() <= u32::MAX,
        g@.rule.len() <= u32::MAX,
        bits::bits_of(*old(bv)).len() + 64 + 8 * g@.terminal.len() + 64 * g@.rule.len() + 32
            * g@.sequence.len() < usize::MAX,
    ensures
        bits::bits_of(*final(bv)) == bits::bits_of(*old(bv)) + u32bits_code(g@),
{
    let ghost gv = g@;
    let ghost b0 = bits::bits_of(*bv);
    let ghost tp = terminal_parts(gv.terminal);
    let ghost rp = rule_parts(gv.rule);
    let ghost sp = symbol_parts(gv.sequence);
    proof {
        bits::lemma_field_len(gv.terminal.len(), 32);
        bits::lemma_field_len(gv.rule.len(), 32);
    }
    push_field(g.terminal.len() as u64, 32, bv);
    let ghost h0 = bits::bits_of(*bv);
    let mut k: usize = 0;
    assert(tp.take(0) =~= Seq::<Seq<bool>>::empty());
    while k < g.terminal.len()
        invariant
            gv == g@,
            k <= gv.terminal.len(),
            h0 == b0 + bits::field_bits(gv.terminal.len(), 32),
            h0.len() == b0.len() + 32,
            b0.len() + 64 + 8 * gv.terminal.len() + 64 * gv.rule.len() + 32 * gv.sequence.len() < usize::MAX,
            tp == terminal_parts(gv.terminal),
            bits::bits_of(*bv) == h0 + bits::join(tp.take(k as int)),
            bits::join(tp.take(k as int)).len() == 8 * k,
        decreases gv.terminal.len() - k,
    {
        proof {
            bits::lemma_join_take(tp, k as int);
            bits::lemma_field_len(gv.terminal[k as int] as nat, 8);
        }
        push_field(g.terminal[k] as u64, 8, bv);
        assert(bits::bits_of(*bv) =~= h0 + bits::join(tp.take(k + 1)));
        k = k + 1;
    }
    assert(tp.take(gv.terminal.len() as int) =~= tp);
    let ghost h1 = bits::bits_of(*bv);
    push_field(g.rule.len() as u64, 32, bv);
    let ghost h2 = bits::bits_of(*bv);
    let mut k: usize = 0;
    assert(rp.take(0) =~= Seq::<Seq<bool>>::empty());
    while k < g.rule.len()
        invariant
            gv == g@,
            gv.rules_at_least_pairs(),
            k <= gv.rule.len(),
            h2.len() == b0.len() + 64 + 8 * gv.terminal.len(),
            b0.len() + 64 + 8 * gv.terminal.len() + 64 * gv.rule.len() + 32 * gv.sequence.len() < usize::MAX,
            rp == rule_parts(gv.rule),
            bits::bits_of(*bv) == h2 + bits::join(rp.take(k as int)),
            bits::join(rp.take(k as int)).len() == 64 * k,
        decreases gv.rule.len() - k,
    {
        let ghost rk = gv.rule[k as int];
        assert(rk.len() >= 2);
        assert(g.rule[k as int]@ == rk);
        proof {
            bits::lemma_join_take(rp, k as int);
            bits::lemma_field_len(rk[0] as nat, 32);
            bits::lemma_field_len(rk[1] as nat, 32);
        }
        push_field(g.rule[k][0] as u64, 32, bv);
        push_field(g.rule[k][1] as u64, 32, bv);
        assert(bits::bits_of(*bv) =~= h2 + bits::join(rp.take(k + 1)));
        k = k + 1;
    }
    assert(rp.take(gv.rule.len() as int) =~= rp);
    let ghost h3 = bits::bits_of(*bv);
    let mut k: usize = 0;
    assert(sp.take(0) =~= Seq::<Seq<bool>>::empty());
    while k < g.sequence.len()
        invariant
            gv == g@,
            k <= gv.sequence.len(),
            h3.len() == b0.len() + 64 + 8 * gv.terminal.len() + 64 * gv.rule.len(),
            b0.len() + 64 + 8 * gv.terminal.len() + 64 * gv.rule.len() + 32 * gv.sequence.len() < usize::MAX,
            sp == symbol_parts(gv.sequence),
            bits::bits_of(*bv) == h3 + bits::join(sp.take(k as int)),
            bits::join(sp.take(k as int)).len() == 32 * k,
        decreases gv.sequence.len() - k,
    {
        proof {
            bits::lemma_join_take(sp, k as int);
            bits::lemma_field_len(gv.sequence[k as int] as nat, 32);
        }
        push_field(g.sequence[k] as u64, 32, bv);
        assert(bits::bits_of(*bv) =~= h3 + bits::join(sp.take(k + 1)));
        k = k + 1;
    }
    assert(sp.take(gv.sequence.len() as int) =~= sp);
    assert(bits::bits_of(*bv) =~= b0 + u32bits_code(gv));
}


/// Appends the complete 8-bit terminals from bit 40 on, at most `zl`.
fn decode_terminals(bv: &BitVec, zl: u64, z: &mut Vec<u8>)
    requires
        zl < 0x1_0000_0000,
        40 <= bits::bits_of(*bv).len(),
    ensures
        final(z)@ == old(z)@ + Seq::new(
            min(zl as int, (bits::bits_of(*bv).len() - 40) / 8) as nat,
            |i: int| bits::field_at(bits::bits_of(*bv), 40 + 8 * i, 8) as u8,
        ),
{
    let ghost b = bits::bits_of(*bv);
    let ghost z0 = z@;
    let len64 = bv_len(bv) as u64;
    proof {
        bits::lemma_two_to_values();
    }
    let mut k: u64 = 0;
    while k < zl && 48 + 8 * k <= len64
        invariant
            b == bits::bits_of(*bv),
            len64 == b.len(),
            len64 <= usize::MAX,
            bits::two_to(8) == 256,
            bits::two_to(32) == 0x1_0000_0000,
            40 <= len64,
            zl < 0x1_0000_0000,
            k <= zl,
            40 + 8 * k <= len64,
            z@ == z0 + Seq::new(k as nat, |i: int| bits::field_at(b, 40 + 8 * i, 8) as u8),
        decreases zl - k,
    {
        let t = read_field(bv, (40 + 8 * k) as usize, 8);
        z.push(t as u8);
        assert(z@ =~= z0 + Seq::new((k + 1) as nat, |i: int| bits::field_at(b, 40 + 8 * i, 8) as u8));
        k = k + 1;
    }
    assert(k == min(zl as int, (b.len() - 40) / 8));
}

/// Appends the complete 64-bit rules from bit `a` on, at most `rl`.
fn decode_rules(bv: &BitVec, a: u64, rl: u64, rules: &mut Vec<Vec<u32>>)
    requires
        rl < 0x1_0000_0000,
        a < 0x10_0000_0000,
        a <= bits::bits_of(*bv).len(),
    ensures
        final(rules)@.map_values(|r: Vec<u32>| r@) == old(rules)@.map_values(|r: Vec<u32>| r@) + Seq::new(
            min(rl as int, (bits::bits_of(*bv).len() - a) / 64) as nat,
            |i: int|
                seq![
                    bits::field_at(bits::bits_of(*bv), a + 64 * i, 32) as u32,
                    bits::field_at(bits::bits_of(*bv), a + 64 * i + 32, 32) as u32,
                ],
        ),
{
    let ghost b = bits::bits_of(*bv);
    let ghost r0s = rules@.map_values(|r: Vec<u32>| r@);
    let ghost rules_of = |i: int|
        seq![bits::field_at(b, a + 64 * i, 32) as u32, bits::field_at(b, a + 64 * i + 32, 32) as u32];
    let len64 = bv_len(bv) as u64;
    proof {
        bits::lemma_two_to_values();
    }
    let mut k: u64 = 0;
    while k < rl && len64 - a - 64 * k >= 64
        invariant
            b == bits::bits_of(*bv),
            len64 == b.len(),
            len64 <= usize::MAX,
            bits::two_to(8) == 256,
            bits::two_to(32) == 0x1_0000_0000,
            rl < 0x1_0000_0000,
            a < 0x10_0000_0000,
            k <= rl,
            a + 64 * k <= len64,
            rules_of == (|i: int|
                seq![bits::field_at(b, a + 64 * i, 32) as u32, bits::field_at(b, a + 64 * i + 32, 32) as u32]),
            rules@.map_values(|r: Vec<u32>| r@) == r0s + Seq::new(k as nat, rules_of),
        decreases rl - k,
    {
        let x0 = read_field(bv, (a + 64 * k) as usize, 32);
        let x1 = read_field(bv, (a + 64 * k + 32) as usize, 32);
        let pair: Vec<u32> = vec![x0 as u32, x1 as u32];
        assert(pair@ =~= rules_of(k as int));
        let ghost before = rules@;
        rules.push(pair);
        assert(rules@ == before.push(pair));
        assert(rules@.map_values(|r: Vec<u32>| r@) =~= before.map_values(|r: Vec<u32>| r@).push(pair@));
        assert(rules@.map_values(|r: Vec<u32>| r@) =~= r0s + Seq::new((k + 1) as nat, rules_of));
        k = k + 1;
    }
    assert(k == min(rl as int, (b.len() - a) / 64));
}

/// Appends every complete 32-bit symbol from bit `c` on.
fn decode_symbols(bv: &BitVec, c: u64, xs: &mut Vec<u32>)
    requires
        c <= bits::bits_of(*bv).len(),
    ensures
        final(xs)@ == old(xs)@ + Seq::new(
            ((bits::bits_of(*bv).len() - c) / 32) as nat,
            |i: int| bits::field_at(bits::bits_of(*bv), c + 32 * i, 32) as u32,
        ),
{
    let ghost b = bits::bits_of(*bv);
    let ghost x0 = xs@;
    let len64 = bv_len(bv) as u64;
    proof {
        bits::lemma_two_to_values();
    }
    let mut k: u64 = 0;
    while len64 - c - 32 * k >= 32
        invariant
            b == bits::bits_of(*bv),
            len64 == b.len(),
            len64 <= usize::MAX,
            bits::two_to(8) == 256,
            bits::two_to(32) == 0x1_0000_0000,
            c + 32 * k <= len64,
            xs@ == x0 + Seq::new(k as nat, |i: int| bits::field_at(b, c + 32 * i, 32) as u32),
        decreases len64 - c - 32 * k,
    {
        let x = read_field(bv, (c + 32 * k) as usize, 32);
        xs.push(x as u32);
        assert(xs@ =~= x0 + Seq::new((k + 1) as nat, |i: int| bits::field_at(b, c + 32 * i, 32) as u32));
        k = k + 1;
    }
}

/// Reads a grammar from `bv` (after its 8-bit prefix) and appends its
/// terminals, rules and sequence to those of `g`.
pub fn decode(bv: &BitVec, g: &mut Grammar)
    ensures
        final(g)@.terminal == old(g)@.terminal + u32bits_decoded(bits::bits_of(*bv)).terminal,
        final(g)@.rule == old(g)@.rule + u32bits_decoded(bits::bits_of(*bv)).rule,
        final(g)@.sequence == old(g)@.sequence + u32bits_decoded(bits::bits_of(*bv)).sequence,
{
    let ghost b = bits::bits_of(*bv);
    let ghost dec = u32bits_decoded(b);
    let len = bv_len(bv);
    let len64 = len as u64;
    if len < 40 {
        assert(g@.terminal =~= old(g)@.terminal + dec.terminal);
        assert(g@.rule =~= old(g)@.rule + dec.rule);
        assert(g@.sequence =~= old(g)@.sequence + dec.sequence);
        return ;
    }
    let zl = read_field(bv, 8, 32);
    proof {
        bits::lemma_two_to_values();
    }
    decode_terminals(bv, zl, &mut g.terminal);
    assert(g@.terminal =~= old(g)@.terminal + dec.terminal);
    let a: u64 = 72 + 8 * zl;
    if len64 < a {
        assert(g@.rule =~= old(g)@.rule + dec.rule);
        assert(g@.sequence =~= old(g)@.sequence + dec.sequence);
        return ;
    }
    let rl = read_field(bv, (40 + 8 * zl) as usize, 32);
    decode_rules(bv, a, rl, &mut g.rule);
    assert(g@.rule =~= old(g)@.rule + dec.rule);
    let c: u64 = a + 64 * rl;
    if len64 >= c {
        decode_symbols(bv, c, &mut g.sequence);
    }
    assert(g@.sequence =~= old(g)@.sequence + dec.sequence);
}


proof fn lemma_sub_left(x: Seq<bool>, y: Seq<bool>, i: int, j: int)
    requires
        0 <= i <= j <= x.len(),
    ensures
        (x + y).subrange(i, j) == x.subrange(i, j),
{
    assert((x + y).subrange(i, j) =~= x.subrange(i, j));
}

proof fn lemma_sub_right(x: Seq<bool>, y: Seq<bool>, i: int, j: int)
    requires
        0 <= i <= j <= y.len(),
    ensures
        (x + y).subrange(x.len() + i, x.len() + j) == y.subrange(i, j),
{
    assert((x + y).subrange(x.len() + i, x.len() + j) =~= y.subrange(i, j));
}

/// Decoding the code of a grammar with binary rules, behind any 8-bit
/// prefix and followed by fewer than 32 further bits (the padding to whole
/// bytes), gives the grammar back.
pub proof fn lemma_u32bits_roundtrip(head: Seq<bool>, g: GrammarView, pad: Seq<bool>)
    requires
        head.len() == 8,
        g.binary(),
        g.terminal.len() < 0x1_0000_0000,
        g.rule.len() < 0x1_0000_0000,
        pad.len() < 32,
    ensures
        u32bits_decoded(head + u32bits_code(g) + pad) == g,
{
    bits::lemma_two_to_values();
    let tl = g.terminal.len() as int;
    let rl = g.rule.len() as int;
    let sl = g.sequence.len() as int;
    let f1 = bits::field_bits(tl as nat, 32);
    let f2 = bits::field_bits(rl as nat, 32);
    let tp = terminal_parts(g.terminal);
    let rp = rule_parts(g.rule);
    let sp = symbol_parts(g.sequence);
    let t = bits::join(tp);
    let r = bits::join(rp);
    let sq = bits::join(sp);
    bits::lemma_field_roundtrip(tl as nat, 32);
    bits::lemma_field_roundtrip(rl as nat, 32);
    assert forall|i: int| 0 <= i < tp.len() implies (#[trigger] tp[i]).len() == 8 by {
        bits::lemma_field_len(g.terminal[i] as nat, 8);
    }
    assert forall|i: int| 0 <= i < rp.len() implies (#[trigger] rp[i]).len() == 64 by {
        bits::lemma_field_len(g.rule[i][0] as nat, 32);
        bits::lemma_field_len(g.rule[i][1] as nat, 32);
    }
    assert forall|i: int| 0 <= i < sp.len() implies (#[trigger] sp[i]).len() == 32 by {
        bits::lemma_field_len(g.sequence[i] as nat, 32);
    }
    bits::lemma_join_len(tp, 8);
    bits::lemma_join_len(rp, 64);
    bits::lemma_join_len(sp, 32);
    let p0 = head + f1;
    let p1 = p0 + t;
    let p2 = p1 + f2;
    let p3 = p2 + r;
    let b = head + u32bits_code(g) + pad;
    assert(b =~= p3 + sq + pad);
    let len = b.len() as int;
    assert(len == 72 + 8 * tl + 64 * rl + 32 * sl + pad.len());
    // the terminal count
    lemma_sub_left(p3 + sq, pad, 8, 40);
    lemma_sub_left(p3, sq, 8, 40);
    lemma_sub_left(p2, r, 8, 40);
    lemma_sub_left(p1, f2, 8, 40);
    lemma_sub_left(p0, t, 8, 40);
    lemma_sub_right(head, f1, 0, 32);
    assert(f1.subrange(0, 32) =~= f1);
    assert(bits::field_at(b, 8, 32) == tl);
    let dec = u32bits_decoded(b);
    // the terminals
    assert forall|k: int| 0 <= k < tl implies bits::field_at(b, 40 + 8 * k, 8) as u8 == #[trigger] g.terminal[k] by {
        bits::lemma_join_uniform(tp, 8, k);
        lemma_sub_left(p3 + sq, pad, 40 + 8 * k, 48 + 8 * k);
        lemma_sub_left(p3, sq, 40 + 8 * k, 48 + 8 * k);
        lemma_sub_left(p2, r, 40 + 8 * k, 48 + 8 * k);
        lemma_sub_left(p1, f2, 40 + 8 * k, 48 + 8 * k);
        lemma_sub_right(p0, t, 8 * k, 8 * k + 8);
        bits::lemma_field_roundtrip(g.terminal[k] as nat, 8);
    }
    assert(dec.terminal =~= g.terminal);
    // the rule count
    let a = 72 + 8 * tl;
    lemma_sub_left(p3 + sq, pad, 40 + 8 * tl, a);
    lemma_sub_left(p3, sq, 40 + 8 * tl, a);
    lemma_sub_left(p2, r, 40 + 8 * tl, a);
    lemma_sub_right(p1, f2, 0, 32);
    assert(f2.subrange(0, 32) =~= f2);
    assert(bits::field_at(b, 40 + 8 * tl, 32) == rl);
    // the rules
    assert forall|k: int| 0 <= k < rl implies (#[trigger] dec.rule[k]) == g.rule[k] by {
        bits::lemma_join_uniform(rp, 64, k);
        let rk = g.rule[k];
        let part = rp[k];
        bits::lemma_field_len(rk[0] as nat, 32);
        bits::lemma_field_len(rk[1] as nat, 32);
        lemma_sub_left(p3 + sq, pad, a + 64 * k, a + 64 * k + 32);
        lemma_sub_left(p3, sq, a + 64 * k, a + 64 * k + 32);
        lemma_sub_right(p2, r, 64 * k, 64 * k + 32);
        assert(r.subrange(64 * k, 64 * k + 32) =~= part.subrange(0, 32));
        assert(part.subrange(0, 32) =~= bits::field_bits(rk[0] as nat, 32));
        lemma_sub_left(p3 + sq, pad, a + 64 * k + 32, a + 64 * k + 64);
        lemma_sub_left(p3, sq, a + 64 * k + 32, a + 64 * k + 64);
        lemma_sub_right(p2, r, 64 * k + 32, 64 * k + 64);
        assert(r.subrange(64 * k + 32, 64 * k + 64) =~= part.subrange(32, 64));
        assert(part.subrange(32, 64) =~= bits::field_bits(rk[1] as nat, 32));
        bits::lemma_field_roundtrip(rk[0] as nat, 32);
        bits::lemma_field_roundtrip(rk[1] as nat, 32);
        assert(dec.rule[k] =~= seq![rk[0], rk[1]]);
        assert(rk =~= seq![rk[0], rk[1]]);
    }
    assert(dec.rule =~= g.rule);
    // the sequence
    let c = a + 64 * rl;
    assert forall|k: int| 0 <= k < sl implies bits::field_at(b, c + 32 * k, 32) as u32 == #[trigger] g.sequence[k] by {
        bits::lemma_join_uniform(sp, 32, k);
        lemma_sub_left(p3 + sq, pad, c + 32 * k, c + 32 * k + 32);
        lemma_sub_right(p3, sq, 32 * k, 32 * k + 32);
        bits::lemma_field_roundtrip(g.sequence[k] as nat, 32);
    }
    assert(dec.sequence =~= g.sequence);
}


/// Compressing a text and reading back the code of its grammar (behind any
/// 8-bit prefix, followed by fewer than 32 padding bits) gives a grammar
/// that derives the text, when the counts fit in 32 bits.
pub proof fn lemma_u32bits_text_roundtrip(head: Seq<bool>, s: Seq<u8>, minfreq: int, sorting: bool, pad: Seq<bool>)
    requires
        head.len() == 8,
        pad.len() < 32,
        comp::repair_grammar(s, minfreq, sorting).terminal.len() < 0x1_0000_0000,
        comp::repair_grammar(s, minfreq, sorting).rule.len() < 0x1_0000_0000,
    ensures
        u32bits_decoded(head + u32bits_code(comp::repair_grammar(s, minfreq, sorting)) + pad).derived() == s,
{
    comp::lemma_repair_lossless(s, minfreq, sorting);
    lemma_u32bits_roundtrip(head, comp::repair_grammar(s, minfreq, sorting), pad);
}

} // verus!
