//! The fixed-length encoding: the terminal and rule counts in 32 bits, then
//! one list of all numbers of the grammar (terminals, the two symbols of each
//! rule, the sequence) as a length-prefixed block written by a number code of
//! its own.
use vstd::prelude::*;
use bit_vec::BitVec;
use crate::bits;
use crate::bits::{copy_part, push_block, push_field, read_part};
use crate::module::cfg::{Grammar, GrammarView};
use crate::module::comp;

verus! {

/// The symbols of the rules, two by two.
pub open spec fn rule_symbols(rules: Seq<Seq<u32>>) -> Seq<u32>
    decreases rules.len(),
{
    if rules.len() == 0 {
        Seq::empty()
    } else {
        rule_symbols(rules.drop_last()) + seq![rules.last()[0], rules.last()[1]]
    }
}

/// All numbers of a grammar, the first two symbols of each rule, in one
/// list.
pub open spec fn flattened(g: GrammarView) -> Seq<u32> {
    g.terminal.map_values(|b: u8| b as u32) + rule_symbols(g.rule) + g.sequence
}

/// Lists the numbers of a grammar whose rules have at least two symbols.
pub fn flatten(g: &Grammar) -> (v: Vec<u32>)
    requires
        g@.rules_at_least_pairs(),
    ensures
        v@ == flattened(g@),
{
    let ghost gv = g@;
    let mut v: Vec<u32> = Vec::new();
    let mut k: usize = 0;
    while k < g.terminal.len()
        invariant
            gv == g@,
            k <= gv.terminal.len(),
            v@ == gv.terminal.take(k as int).map_values(|b: u8| b as u32),
        decreases gv.terminal.len() - k,
    {
        v.push(g.terminal[k] as u32);
        assert(v@ =~= gv.terminal.take(k + 1).map_values(|b: u8| b as u32));
        k = k + 1;
    }
    assert(gv.terminal.take(gv.terminal.len() as int) =~= gv.terminal);
    let ghost v1 = v@;
    let mut k: usize = 0;
    while k < g.rule.len()
        invariant
            gv == g@,
            gv.rules_at_least_pairs(),
            k <= gv.rule.len(),
            v@ == v1 + rule_symbols(gv.rule.take(k as int)),
        decreases gv.rule.len() - k,
    {
        assert(g.rule[k as int]@ == gv.rule[k as int]);
        assert(gv.rule.take(k + 1).drop_last() =~= gv.rule.take(k as int));
        v.push(g.rule[k][0]);
        v.push(g.rule[k][1]);
        assert(v@ =~= v1 + rule_symbols(gv.rule.take(k + 1)));
        k = k + 1;
    }
    assert(gv.rule.take(gv.rule.len() as int) =~= gv.rule);
    let ghost v2 = v@;
    let mut k: usize = 0;
    while k < g.sequence.len()
        invariant
            gv == g@,
            k <= gv.sequence.len(),
            v@ == v2 + gv.sequence.take(k as int),
        decreases gv.sequence.len() - k,
    {
        v.push(g.sequence[k]);
        assert(v@ =~= v2 + gv.sequence.take(k + 1));
        k = k + 1;
    }
    assert(gv.sequence.take(gv.sequence.len() as int) =~= gv.sequence);
    assert(v@ =~= flattened(gv));
    v
}

/// Writes the code: the counts, then the coded list `tbv` as a
/// length-prefixed block.
pub fn write_fble(g: &Grammar, tbv: &BitVec, bv: &mut BitVec)
    requires
        g@.terminal.len() <= u32::MAX,
        g@.rule.len() <= u32::MAX,
        bits::bits_of(*old(bv)).len() + 96 + bits::bits_of(*tbv).len() < usize::MAX,
    ensures
        bits::bits_of(*final(bv)) == bits::bits_of(*old(bv)) + bits::field_bits(g@.terminal.len(), 32)
            + bits::field_bits(g@.rule.len(), 32) + bits::field_bits(bits::bits_of(*tbv).len(), 32)
            + bits::bits_of(*tbv),
{
    proof {
        bits::lemma_field_len(g@.terminal.len(), 32);
        bits::lemma_field_len(g@.rule.len(), 32);
    }
    push_field(g.terminal.len() as u64, 32, bv);
    push_field(g.rule.len() as u64, 32, bv);
    push_block(tbv, bv);
}

/// Where the pieces of a fixed-length code lie (after its 8-bit prefix): the
/// terminal count, the rule count, the length of the coded list, and the
/// coded list, each cut short where the bits end.
pub open spec fn fble_layout(b: Seq<bool>) -> (nat, nat, Seq<bool>) {
    let dl = bits::part_value(b, 72, 32) as int;
    (bits::part_value(b, 8, 32), bits::part_value(b, 40, 32), bits::part(b, 104, 104 + dl))
}

/// Cuts a fixed-length code into the two counts and the coded list.
pub fn split_fble(bv: &BitVec) -> (r: (u64, u64, BitVec))
    ensures
        (r.0 as nat, r.1 as nat, bits::bits_of(r.2)) == fble_layout(bits::bits_of(*bv)),
{
    let zlen = read_part(bv, 8, 32);
    let rlen = read_part(bv, 40, 32);
    let dlen = read_part(bv, 72, 32);
    let d = copy_part(bv, 104, 104 + dlen);
    (zlen, rlen, d)
}

/// The grammar that a list of numbers spells: the first `zl` numbers are the
/// terminals (as bytes), the next `2 * rl` are the rules two by two, the rest
/// is the sequence (each part cut short where the list ends).
pub open spec fn unflattened(v: Seq<u32>, zl: int, rl: int) -> GrammarView {
    let len = v.len() as int;
    let e1 = bits::clamp(zl, len);
    let e2 = bits::clamp(zl + 2 * rl, len);
    GrammarView {
        terminal: v.subrange(0, e1).map_values(|x: u32| x as u8),
        rule: Seq::new(((e2 - e1 + 1) / 2) as nat, |k: int| seq![v[e1 + 2 * k], v[e1 + 2 * k + 1]]),
        sequence: v.subrange(e2, len),
    }
}

/// The list `v` holds whole rules after its `zl` terminals, as far as the
/// `rl` rules reach.
pub open spec fn splits_evenly(v: Seq<u32>, zl: int, rl: int) -> bool {
    let len = v.len() as int;
    (bits::clamp(zl + 2 * rl, len) - bits::clamp(zl, len)) % 2 == 0
}

/// Appends to `g` the grammar that the list `v` spells with `zl` terminals
/// and `rl` rules, when `v` holds whole rules; returns whether it does (and
/// leaves `g` as it was where it does not).
pub fn unflatten(v: &Vec<u32>, zl: u64, rl: u64, g: &mut Grammar) -> (ok: bool)
    requires
        zl < 0x1_0000_0000,
        rl < 0x1_0000_0000,
    ensures
        ok == splits_evenly(v@, zl as int, rl as int),
        ok ==> final(g)@.terminal == old(g)@.terminal + unflattened(v@, zl as int, rl as int).terminal,
        ok ==> final(g)@.rule == old(g)@.rule + unflattened(v@, zl as int, rl as int).rule,
        ok ==> final(g)@.sequence == old(g)@.sequence + unflattened(v@, zl as int, rl as int).sequence,
        !ok ==> final(g)@ == old(g)@,
{
    let len = v.len() as u64;
    let e1 = if zl < len { zl } else { len };
    let e2 = if zl + 2 * rl < len { zl + 2 * rl } else { len };
    assert(e1 == bits::clamp(zl as int, len as int));
    assert(e2 == bits::clamp(zl + 2 * rl, len as int));
    if (e2 - e1) % 2 != 0 {
        return false;
    }
    unflatten_into(v, zl, rl, g);
    true
}

fn unflatten_into(v: &Vec<u32>, zl: u64, rl: u64, g: &mut Grammar)
    requires
        zl < 0x1_0000_0000,
        rl < 0x1_0000_0000,
        splits_evenly(v@, zl as int, rl as int),
    ensures
        final(g)@.terminal == old(g)@.terminal + unflattened(v@, zl as int, rl as int).terminal,
        final(g)@.rule == old(g)@.rule + unflattened(v@, zl as int, rl as int).rule,
        final(g)@.sequence == old(g)@.sequence + unflattened(v@, zl as int, rl as int).sequence,
{
    let ghost u = unflattened(v@, zl as int, rl as int);
    let ghost g0 = g@;
    let n = v.len();
    let ghost len = n as int;
    let ghost e1 = bits::clamp(zl as int, len);
    let ghost e2 = bits::clamp(zl + 2 * rl, len);
    let mut i: usize = 0;
    while i < n
        invariant
            n == v@.len(),
            len == n,
            zl < 0x1_0000_0000,
            rl < 0x1_0000_0000,
            e1 == bits::clamp(zl as int, len),
            e2 == bits::clamp(zl + 2 * rl, len),
            (e2 - e1) % 2 == 0,
            u == unflattened(v@, zl as int, rl as int),
            i <= n,
            i <= e1 || e1 == zl,
            e1 <= i < e2 ==> (i - e1) % 2 == 0,
            g@.terminal == g0.terminal + v@.subrange(0, bits::clamp(e1, i as int)).map_values(|x: u32| x as u8),
            g@.rule == g0.rule + Seq::new(
                ((bits::clamp(e2, i as int) - bits::clamp(e1, i as int) + 1) / 2) as nat,
                |k: int| seq![v@[e1 + 2 * k], v@[e1 + 2 * k + 1]],
            ),
            g@.sequence == g0.sequence + v@.subrange(bits::clamp(e2, i as int), i as int),
        decreases n - i,
    {
        let iu = i as u64;
        if iu < zl {
            g.terminal.push(v[i] as u8);
            assert(g@.terminal =~= g0.terminal + v@.subrange(0, bits::clamp(e1, i + 1)).map_values(|x: u32| x as u8));
            assert(g@.rule =~= g0.rule + Seq::new(
                ((bits::clamp(e2, i + 1) - bits::clamp(e1, i + 1) + 1) / 2) as nat,
                |k: int| seq![v@[e1 + 2 * k], v@[e1 + 2 * k + 1]],
            ));
            i = i + 1;
        } else if iu < zl + rl * 2 {
            let pair: Vec<u32> = vec![v[i], v[i + 1]];
            let ghost before = g.rule@;
            g.rule.push(pair);
            assert(g@.rule =~= before.map_values(|r: Vec<u32>| r@).push(pair@));
            assert(g@.rule =~= g0.rule + Seq::new(
                ((bits::clamp(e2, i + 2) - bits::clamp(e1, i + 2) + 1) / 2) as nat,
                |k: int| seq![v@[e1 + 2 * k], v@[e1 + 2 * k + 1]],
            ));
            assert(g@.terminal =~= g0.terminal + v@.subrange(0, bits::clamp(e1, i + 2)).map_values(|x: u32| x as u8));
            assert(g@.sequence =~= g0.sequence + v@.subrange(bits::clamp(e2, i + 2), i + 2));
            i = i + 2;
        } else {
            g.sequence.push(v[i]);
            assert(g@.sequence =~= g0.sequence + v@.subrange(bits::clamp(e2, i + 1), i + 1));
            assert(g@.rule =~= g0.rule + Seq::new(
                ((bits::clamp(e2, i + 1) - bits::clamp(e1, i + 1) + 1) / 2) as nat,
                |k: int| seq![v@[e1 + 2 * k], v@[e1 + 2 * k + 1]],
            ));
            assert(g@.terminal =~= g0.terminal + v@.subrange(0, bits::clamp(e1, i + 1)).map_values(|x: u32| x as u8));
            i = i + 1;
        }
    }
    assert(g@.terminal =~= g0.terminal + u.terminal);
    assert(g@.rule =~= g0.rule + u.rule);
    assert(g@.sequence =~= g0.sequence + u.sequence);
}


proof fn lemma_rule_symbols(rules: Seq<Seq<u32>>)
    requires
        forall|k: int| 0 <= k < rules.len() ==> (#[trigger] rules[k]).len() == 2,
    ensures
        rule_symbols(rules).len() == 2 * rules.len(),
        forall|k: int|
            0 <= k < rules.len() ==> rule_symbols(rules)[2 * k] == (#[trigger] rules[k])[0] && rule_symbols(
                rules,
            )[2 * k + 1] == rules[k][1],
    decreases rules.len(),
{
    if rules.len() > 0 {
        let p = rules.drop_last();
        lemma_rule_symbols(p);
        assert forall|k: int| 0 <= k < rules.len() implies rule_symbols(rules)[2 * k] == (#[trigger] rules[k])[0]
            && rule_symbols(rules)[2 * k + 1] == rules[k][1] by {
            if k < rules.len() - 1 {
                assert(p[k] == rules[k]);
            }
        }
    }
}

/// Spelling out the numbers of a grammar with binary rules and reading
/// them back with its counts gives the grammar back.
pub proof fn lemma_flatten_roundtrip(g: GrammarView)
    requires
        g.binary(),
    ensures
        unflattened(flattened(g), g.terminal.len() as int, g.rule.len() as int) == g,
{
    lemma_rule_symbols(g.rule);
    let v = flattened(g);
    let tl = g.terminal.len() as int;
    let rl = g.rule.len() as int;
    let t = g.terminal.map_values(|b: u8| b as u32);
    let rs = rule_symbols(g.rule);
    assert(v.len() == tl + 2 * rl + g.sequence.len());
    let u = unflattened(v, tl, rl);
    assert(u.terminal =~= g.terminal) by {
        assert forall|i: int| 0 <= i < tl implies #[trigger] u.terminal[i] == g.terminal[i] by {
            assert(v[i] == t[i]);
        }
    }
    assert(u.rule =~= g.rule) by {
        assert forall|k: int| 0 <= k < rl implies #[trigger] u.rule[k] == g.rule[k] by {
            assert(v[tl + 2 * k] == rs[2 * k]);
            assert(v[tl + 2 * k + 1] == rs[2 * k + 1]);
            assert(g.rule[k] =~= seq![g.rule[k][0], g.rule[k][1]]);
        }
    }
    assert(u.sequence =~= g.sequence);
}

/// Cutting a written fixed-length code (behind an 8-bit prefix, followed by
/// any further bits such as the padding to whole bytes) gives back the
/// counts and the coded list.
pub proof fn lemma_fble_layout(head: Seq<bool>, tl: nat, rl: nat, d: Seq<bool>, rest: Seq<bool>)
    requires
        head.len() == 8,
        tl < 0x1_0000_0000,
        rl < 0x1_0000_0000,
        d.len() < 0x1_0000_0000,
    ensures
        fble_layout(
            head + bits::field_bits(tl, 32) + bits::field_bits(rl, 32) + bits::field_bits(d.len(), 32) + d + rest,
        ) == (tl, rl, d),
{
    bits::lemma_two_to_values();
    bits::lemma_field_roundtrip(tl, 32);
    bits::lemma_field_roundtrip(rl, 32);
    bits::lemma_field_roundtrip(d.len(), 32);
    let b = head + bits::field_bits(tl, 32) + bits::field_bits(rl, 32) + bits::field_bits(d.len(), 32) + d + rest;
    assert(bits::part(b, 8, 40) =~= bits::field_bits(tl, 32));
    assert(bits::part(b, 40, 72) =~= bits::field_bits(rl, 32));
    assert(bits::part(b, 72, 104) =~= bits::field_bits(d.len(), 32));
    assert(bits::part(b, 104, 104 + d.len() as int) =~= d);
}

/// Compressing a text, listing the numbers of its grammar and reading them
/// back with its counts gives a grammar that derives the text.
pub proof fn lemma_fble_text_roundtrip(s: Seq<u8>, minfreq: int, sorting: bool)
    ensures
        ({
            let g = comp::repair_grammar(s, minfreq, sorting);
            unflattened(flattened(g), g.terminal.len() as int, g.rule.len() as int).derived() == s
        }),
{
    comp::lemma_repair_lossless(s, minfreq, sorting);
    lemma_flatten_roundtrip(comp::repair_grammar(s, minfreq, sorting));
}

} // verus!
