//! An encoding of grammars whose rules are pairs: terminals in 8 bits, the
//! larger symbol of each rule as a rise or fall against the rule before
//! (numbers written by an outside number code), the smaller symbols and the
//! sequence in a fixed width. Also the pieces that the run-length variant in
//! `maxinc` shares.
use vstd::prelude::*;
use bit_vec::BitVec;
use crate::bits;
use crate::bits::{bv_new, bv_push, bv_len, push_field, append_bits, read_part, copy_part};
use crate::module::cfg;
use crate::module::cfg::Grammar;
use crate::module::encode::fble;

verus! {

/// Pair rules read as two-symbol rules.
pub open spec fn pair_rules(g: Seq<(u32, u32)>) -> Seq<Seq<u32>> {
    g.map_values(|p: (u32, u32)| seq![p.0, p.1])
}

/// The number of bits needed to write `n`.
pub open spec fn bit_length(n: nat) -> nat
    decreases n,
{
    if n == 0 {
        0
    } else {
        1 + bit_length(n / 2)
    }
}

/// A number below `2^k` needs at most `k` bits.
pub proof fn lemma_bit_length_below(t: nat, k: nat)
    requires
        t < bits::two_to(k),
    ensures
        bit_length(t) <= k,
    decreases k,
{
    if t > 0 {
        if k == 0 {
            assert(bits::two_to(0) == 1);
        } else {
            lemma_bit_length_below(t / 2, (k - 1) as nat);
        }
    }
}

/// The number of bits needed to write `n` (`usize::BITS` minus its leading zeros).
pub fn bit_length_of(n: usize) -> (b: u32)
    ensures
        b as nat == bit_length(n as nat),
        b <= 64,
{
    proof {
        bits::lemma_two_to_values();
        lemma_bit_length_below(n as nat, 64);
    }
    let mut t: usize = n;
    let mut b: u32 = 0;
    while t > 0
        invariant
            bit_length(n as nat) == b + bit_length(t as nat),
            bit_length(n as nat) <= 64,
        decreases t,
    {
        t = t / 2;
        b = b + 1;
    }
    b
}


/// Appends the low `logn` bits of `x` to `bv`, most significant first.
pub fn u_to_bv(x: u32, logn: u32, bv: &mut BitVec)
    requires
        logn <= 32,
        bits::bits_of(*old(bv)).len() + logn < usize::MAX,
    ensures
        bits::bits_of(*final(bv)) == bits::bits_of(*old(bv)) + bits::field_bits(x as nat, logn as nat),
{
    push_field(x as u64, logn as usize, bv);
}

/// The parts that write the numbers `xs` in `w` bits each.
pub open spec fn field_parts(xs: Seq<u32>, w: nat) -> Seq<Seq<bool>> {
    xs.map_values(|x: u32| bits::field_bits(x as nat, w))
}

/// The parts that write the bytes `z` in 8 bits each.
pub open spec fn byte_parts(z: Seq<u8>) -> Seq<Seq<bool>> {
    z.map_values(|b: u8| bits::field_bits(b as nat, 8))
}

/// Reading `count` fields of one width back from where they were written.
#[verifier::spinoff_prover]
#[verifier::rlimit(30)]
pub proof fn lemma_chunks_fields_exact(bits: Seq<bool>, start: int, w: nat, xs: Seq<u32>, k: int)
    requires
        0 <= start,
        1 <= w <= 32,
        0 <= k <= xs.len(),
        start + w * xs.len() <= bits.len(),
        bits.subrange(start, start + w * xs.len()) == bits::join(field_parts(xs, w)),
        forall|j: int| 0 <= j < xs.len() ==> (xs[j] as nat) < bits::two_to(w),
    ensures
        bits::chunks(bits, start + w * k, w as int, xs.len() - k) == xs.subrange(k, xs.len() as int),
    decreases xs.len() - k,
{
    let parts = field_parts(xs, w);
    assert forall|i: int| 0 <= i < parts.len() implies (#[trigger] parts[i]).len() == w by {
        bits::lemma_field_len(xs[i] as nat, w);
    }
    bits::lemma_join_len(parts, w);
    let at = start + w * k;
    if k == xs.len() {
        assert(xs.subrange(k, xs.len() as int) =~= Seq::<u32>::empty());
    } else {
        assert(w * k + w <= w * xs.len()) by (nonlinear_arith)
            requires
                k + 1 <= xs.len(),
        ;
        assert(w * (k + 1) == w * k + w) by (nonlinear_arith);
        bits::lemma_join_uniform(parts, w, k);
        assert(bits.subrange(at, at + w) =~= bits.subrange(start, start + w * xs.len()).subrange(w * k, w * k + w));
        bits::lemma_field_roundtrip(xs[k] as nat, w);
        assert(bits::part(bits, at, at + w) =~= bits.subrange(at, at + w));
        lemma_chunks_fields_exact(bits, start, w, xs, k + 1);
        assert(xs.subrange(k, xs.len() as int) =~= seq![xs[k]] + xs.subrange(k + 1, xs.len() as int));
    }
}

/// Appends every number of `xs` in `logn` bits.
pub fn push_fields(xs: &Vec<u32>, logn: u32, bv: &mut BitVec)
    requires
        logn <= 32,
        bits::bits_of(*old(bv)).len() + logn * xs@.len() < usize::MAX,
    ensures
        bits::bits_of(*final(bv)) == bits::bits_of(*old(bv)) + bits::join(field_parts(xs@, logn as nat)),
{
    let ghost b0 = bits::bits_of(*bv);
    let ghost ps = field_parts(xs@, logn as nat);
    let mut k: usize = 0;
    assert(ps.take(0) =~= Seq::<Seq<bool>>::empty());
    while k < xs.len()
        invariant
            logn <= 32,
            k <= xs@.len(),
            b0.len() + logn * xs@.len() < usize::MAX,
            ps == field_parts(xs@, logn as nat),
            bits::bits_of(*bv) == b0 + bits::join(ps.take(k as int)),
            bits::join(ps.take(k as int)).len() == logn * k,
        decreases xs@.len() - k,
    {
        proof {
            bits::lemma_join_take(ps, k as int);
            bits::lemma_field_len(xs@[k as int] as nat, logn as nat);
            assert(logn * k + logn <= logn * xs@.len()) by (nonlinear_arith)
                requires
                    k < xs@.len(),
            ;
            assert(logn * (k + 1) == logn * k + logn) by (nonlinear_arith);
        }
        push_field(xs[k] as u64, logn as usize, bv);
        assert(bits::bits_of(*bv) =~= b0 + bits::join(ps.take(k + 1)));
        k = k + 1;
    }
    assert(ps.take(xs@.len() as int) =~= ps);
}

/// Appends every byte of `z` in 8 bits.
pub fn push_bytes(z: &Vec<u8>, bv: &mut BitVec)
    requires
        bits::bits_of(*old(bv)).len() + 8 * z@.len() < usize::MAX,
    ensures
        bits::bits_of(*final(bv)) == bits::bits_of(*old(bv)) + bits::join(byte_parts(z@)),
{
    let ghost b0 = bits::bits_of(*bv);
    let ghost ps = byte_parts(z@);
    let mut k: usize = 0;
    assert(ps.take(0) =~= Seq::<Seq<bool>>::empty());
    while k < z.len()
        invariant
            k <= z@.len(),
            b0.len() + 8 * z@.len() < usize::MAX,
            ps == byte_parts(z@),
            bits::bits_of(*bv) == b0 + bits::join(ps.take(k as int)),
            bits::join(ps.take(k as int)).len() == 8 * k,
        decreases z@.len() - k,
    {
        proof {
            bits::lemma_join_take(ps, k as int);
            bits::lemma_field_len(z@[k as int] as nat, 8);
        }
        push_field(z[k] as u64, 8, bv);
        assert(bits::bits_of(*bv) =~= b0 + bits::join(ps.take(k + 1)));
        k = k + 1;
    }
    assert(ps.take(z@.len() as int) =~= ps);
}

/// The streams of the first `n` pair rules: for each rule the rise
/// (`m - prev + 1`) or fall (`prev - m + 1`) of its larger symbol `m`
/// against the larger symbol `prev` of the rule before, the flag whether the
/// first symbol is the larger one, and the smaller symbol; for each fall the
/// number of rules since the last fall, plus one; the count since the last
/// fall, plus one; and the last larger symbol.
pub struct MaxStreams {
    pub v: Seq<u32>,
    pub lr: Seq<bool>,
    pub r: Seq<u32>,
    pub u: Seq<u32>,
    pub ren: int,
    pub prev: int,
}

pub open spec fn pair_max(p: (u32, u32)) -> u32 {
    if p.0 >= p.1 {
        p.0
    } else {
        p.1
    }
}

pub open spec fn pair_min(p: (u32, u32)) -> u32 {
    if p.0 <= p.1 {
        p.0
    } else {
        p.1
    }
}

pub open spec fn max_streams_upto(g: Seq<(u32, u32)>, n: int) -> MaxStreams
    decreases n,
{
    if n <= 0 {
        MaxStreams { v: Seq::empty(), lr: Seq::empty(), r: Seq::empty(), u: Seq::empty(), ren: 1, prev: 0 }
    } else {
        let st = max_streams_upto(g, n - 1);
        let e = g[n - 1];
        let m = pair_max(e) as int;
        let rises = st.prev <= m;
        MaxStreams {
            v: st.v.push((if rises { m - st.prev + 1 } else { st.prev - m + 1 }) as u32),
            lr: st.lr.push(e.0 >= e.1),
            r: if rises { st.r } else { st.r.push(st.ren as u32) },
            u: st.u.push(pair_min(e)),
            ren: if rises { st.ren + 1 } else { 1 },
            prev: m,
        }
    }
}

/// The streams of pair rules, as vectors.
pub struct PairStreams {
    pub v: Vec<u32>,
    pub lr: BitVec,
    pub r: Vec<u32>,
    pub u: Vec<u32>,
    pub ren: u32,
}

/// Computes the streams of the pair rules `g`.
pub fn max_streams(g: &Vec<(u32, u32)>) -> (st: PairStreams)
    requires
        g@.len() < u32::MAX,
        forall|k: int| 0 <= k < g@.len() ==> pair_max(#[trigger] g@[k]) < u32::MAX,
    ensures
        st.v@ == max_streams_upto(g@, g@.len() as int).v,
        bits::bits_of(st.lr) == max_streams_upto(g@, g@.len() as int).lr,
        st.r@ == max_streams_upto(g@, g@.len() as int).r,
        st.u@ == max_streams_upto(g@, g@.len() as int).u,
        st.ren as int == max_streams_upto(g@, g@.len() as int).ren,
{
    let mut v: Vec<u32> = Vec::new();
    let mut lr = bv_new();
    let mut r: Vec<u32> = Vec::new();
    let mut u: Vec<u32> = Vec::new();
    let mut prev: u32 = 0;
    let mut ren: u32 = 1;
    let mut i: usize = 0;
    while i < g.len()
        invariant
            g@.len() < u32::MAX,
            forall|k: int| 0 <= k < g@.len() ==> pair_max(#[trigger] g@[k]) < u32::MAX,
            i <= g@.len(),
            v@ == max_streams_upto(g@, i as int).v,
            bits::bits_of(lr) == max_streams_upto(g@, i as int).lr,
            bits::bits_of(lr).len() == i,
            r@ == max_streams_upto(g@, i as int).r,
            u@ == max_streams_upto(g@, i as int).u,
            ren as int == max_streams_upto(g@, i as int).ren,
            prev as int == max_streams_upto(g@, i as int).prev,
            1 <= ren <= i + 1,
        decreases g@.len() - i,
    {
        let e = g[i];
        assert(pair_max(g@[i as int]) < u32::MAX);
        let m = if e.0 >= e.1 { e.0 } else { e.1 };
        if prev <= m {
            v.push(m - prev + 1);
            ren = ren + 1;
        } else {
            v.push(prev - m + 1);
            r.push(ren);
            ren = 1;
        }
        bv_push(&mut lr, e.0 >= e.1);
        prev = m;
        u.push(if e.0 <= e.1 { e.0 } else { e.1 });
        i = i + 1;
    }
    PairStreams { v, lr, r, u, ren }
}

/// What symbol `x` of the pair grammar with terminals `z` and rules `g`
/// stands for, where its derivation ends within `d` nested rules: `None`
/// where it meets an undefined symbol or goes deeper.
pub open spec fn pair_expand(z: Seq<u8>, g: Seq<(u32, u32)>, x: int, d: nat) -> Option<Seq<u8>>
    decreases d,
{
    if 1 <= x <= z.len() {
        Some(seq![z[x - 1]])
    } else if z.len() < x <= z.len() + g.len() && d > 0 {
        let bg = g[x - z.len() - 1];
        let a = pair_expand(z, g, bg.0 as int, (d - 1) as nat);
        let b = pair_expand(z, g, bg.1 as int, (d - 1) as nat);
        if a is Some && b is Some {
            Some(a.unwrap() + b.unwrap())
        } else {
            None
        }
    } else {
        None
    }
}

/// The derivation of symbol `x` ends: it meets no undefined symbol and no
/// cycle of rules.
pub open spec fn pair_expands(z: Seq<u8>, g: Seq<(u32, u32)>, x: int) -> bool {
    exists|d: nat| #[trigger] pair_expand(z, g, x, d) is Some
}

/// The string that symbol `x` derives, where its derivation ends.
pub open spec fn pair_expansion(z: Seq<u8>, g: Seq<(u32, u32)>, x: int) -> Seq<u8> {
    pair_expand(z, g, x, choose|d: nat| #[trigger] pair_expand(z, g, x, d) is Some).unwrap()
}

/// Every symbol of `s` derives a finite string.
pub open spec fn pairs_expand(z: Seq<u8>, g: Seq<(u32, u32)>, s: Seq<u32>) -> bool {
    forall|j: int| 0 <= j < s.len() ==> pair_expands(z, g, #[trigger] s[j] as int)
}

/// The strings of the symbols `s`, one after another.
pub open spec fn pair_expansions(z: Seq<u8>, g: Seq<(u32, u32)>, s: Seq<u32>) -> Seq<u8>
    decreases s.len(),
{
    if s.len() == 0 {
        Seq::empty()
    } else {
        pair_expansions(z, g, s.drop_last()) + pair_expansion(z, g, s.last() as int)
    }
}

/// A derivation that ends within `d` rules ends the same within more.
pub proof fn lemma_pair_expand_mono(z: Seq<u8>, g: Seq<(u32, u32)>, x: int, d: nat, e: nat)
    requires
        pair_expand(z, g, x, d) is Some,
        d <= e,
    ensures
        pair_expand(z, g, x, e) == pair_expand(z, g, x, d),
    decreases d,
{
    if !(1 <= x <= z.len()) {
        let bg = g[x - z.len() - 1];
        lemma_pair_expand_mono(z, g, bg.0 as int, (d - 1) as nat, (e - 1) as nat);
        lemma_pair_expand_mono(z, g, bg.1 as int, (d - 1) as nat, (e - 1) as nat);
    }
}

/// A derivation that ends within some depth gives the string of the symbol.
pub proof fn lemma_pair_expansion(z: Seq<u8>, g: Seq<(u32, u32)>, x: int, d: nat)
    requires
        pair_expand(z, g, x, d) is Some,
    ensures
        pair_expands(z, g, x),
        pair_expansion(z, g, x) == pair_expand(z, g, x, d).unwrap(),
{
    assert(pair_expand(z, g, x, d) is Some);
    let c = choose|c: nat| #[trigger] pair_expand(z, g, x, c) is Some;
    if c <= d {
        lemma_pair_expand_mono(z, g, x, c, d);
    } else {
        lemma_pair_expand_mono(z, g, x, d, c);
    }
}

/// In a pair grammar whose rules refer to earlier symbols, every defined
/// symbol derives the string that `cfg::expand_symbol` gives.
pub proof fn lemma_ordered_pair_expansion(z: Seq<u8>, g: Seq<(u32, u32)>, x: int)
    requires
        cfg::rules_wf(z.len(), pair_rules(g)),
        1 <= x <= z.len() + g.len(),
    ensures
        pair_expand(z, g, x, x as nat) == Some(cfg::expand_symbol(z, pair_rules(g), x)),
        pair_expands(z, g, x),
        pair_expansion(z, g, x) == cfg::expand_symbol(z, pair_rules(g), x),
    decreases x,
{
    let rules = pair_rules(g);
    if x > z.len() {
        let k = x - z.len() - 1;
        let bg = g[k];
        assert(rules[k] == seq![bg.0, bg.1]);
        assert(1 <= rules[k][0] <= z.len() + k);
        assert(1 <= rules[k][1] <= z.len() + k);
        lemma_ordered_pair_expansion(z, g, bg.0 as int);
        lemma_ordered_pair_expansion(z, g, bg.1 as int);
        lemma_pair_expand_mono(z, g, bg.0 as int, bg.0 as nat, (x - 1) as nat);
        lemma_pair_expand_mono(z, g, bg.1 as int, bg.1 as nat, (x - 1) as nat);
        crate::module::comp::lemma_expand_pair(z, rules, bg.0, bg.1, x);
    }
    lemma_pair_expansion(z, g, x, x as nat);
}

/// Appends to `w` what symbol `x` stands for, given a depth within which
/// its derivation ends.
fn drv_within(x: u32, z: &Vec<u8>, g: &Vec<(u32, u32)>, w: &mut Vec<u8>, d: Ghost<nat>)
    requires
        pair_expand(z@, g@, x as int, d@) is Some,
    ensures
        final(w)@ == old(w)@ + pair_expand(z@, g@, x as int, d@).unwrap(),
    decreases d@,
{
    let xi = x as usize;
    if xi <= z.len() {
        w.push(z[xi - 1]);
    } else {
        let k = xi - z.len() - 1;
        let bg = g[k];
        let ghost w0 = w@;
        drv_within(bg.0, z, g, w, Ghost((d@ - 1) as nat));
        drv_within(bg.1, z, g, w, Ghost((d@ - 1) as nat));
        assert(w@ =~= w0 + pair_expand(z@, g@, x as int, d@).unwrap());
    }
}

/// Appends to `w` the bytes that symbol `x` of the pair grammar `(z, g)`
/// stands for; its rules may refer to any symbols, as long as the
/// derivation of `x` ends.
pub fn drv(x: u32, z: &Vec<u8>, g: &Vec<(u32, u32)>, w: &mut Vec<u8>)
    requires
        pair_expands(z@, g@, x as int),
    ensures
        final(w)@ == old(w)@ + pair_expansion(z@, g@, x as int),
{
    let ghost d = choose|d: nat| #[trigger] pair_expand(z@, g@, x as int, d) is Some;
    proof {
        lemma_pair_expansion(z@, g@, x as int, d);
    }
    drv_within(x, z, g, w, Ghost(d));
}

/// Symbol `c` is a terminal or a rule that `m` marks.
pub open spec fn marked_symbol(zl: nat, m: Seq<bool>, c: int) -> bool {
    (1 <= c <= zl) || (zl < c <= zl + m.len() && m[c - zl - 1])
}

/// Every marked rule derives a finite string.
pub open spec fn marks_sound(z: Seq<u8>, g: Seq<(u32, u32)>, m: Seq<bool>) -> bool {
    forall|k: int| 0 <= k < m.len() && #[trigger] m[k] ==> pair_expands(z, g, z.len() + k + 1)
}

/// Every rule whose two symbols are marked is marked itself.
pub open spec fn marks_closed(zl: nat, g: Seq<(u32, u32)>, m: Seq<bool>) -> bool {
    forall|k: int|
        0 <= k < m.len() ==> #[trigger] m[k] || !(marked_symbol(zl, m, g[k].0 as int) && marked_symbol(zl, m, g[k].1 as int))
}

/// The number of marks among the first `n` entries.
pub open spec fn true_count(m: Seq<bool>, n: int) -> nat
    decreases n,
{
    if n <= 0 {
        0
    } else {
        true_count(m, n - 1) + if m[n - 1] {
            1nat
        } else {
            0nat
        }
    }
}

pub(crate) proof fn lemma_true_count_update(m: Seq<bool>, n: int, k: int)
    requires
        0 <= n <= m.len(),
        0 <= k < m.len(),
        !m[k],
    ensures
        true_count(m.update(k, true), n) == true_count(m, n) + if k < n {
            1nat
        } else {
            0nat
        },
    decreases n,
{
    if n > 0 {
        lemma_true_count_update(m, n - 1, k);
    }
}

pub(crate) proof fn lemma_true_count_le(m: Seq<bool>, n: int)
    requires
        0 <= n <= m.len(),
    ensures
        true_count(m, n) <= n,
    decreases n,
{
    if n > 0 {
        lemma_true_count_le(m, n - 1);
    }
}

/// A marked symbol derives a finite string, when the marks are sound.
proof fn lemma_marked_expands(z: Seq<u8>, g: Seq<(u32, u32)>, m: Seq<bool>, c: int)
    requires
        m.len() == g.len(),
        marks_sound(z, g, m),
        marked_symbol(z.len(), m, c),
    ensures
        pair_expands(z, g, c),
{
    if 1 <= c <= z.len() {
        assert(pair_expand(z, g, c, 0) is Some);
    } else {
        assert(m[c - z.len() - 1]);
    }
}

/// A rule whose two symbols derive finite strings does too.
proof fn lemma_rule_expands(z: Seq<u8>, g: Seq<(u32, u32)>, k: int)
    requires
        0 <= k < g.len(),
        pair_expands(z, g, g[k].0 as int),
        pair_expands(z, g, g[k].1 as int),
    ensures
        pair_expands(z, g, z.len() + k + 1),
{
    let da = choose|d: nat| #[trigger] pair_expand(z, g, g[k].0 as int, d) is Some;
    let db = choose|d: nat| #[trigger] pair_expand(z, g, g[k].1 as int, d) is Some;
    let e: nat = if da <= db { db } else { da };
    lemma_pair_expand_mono(z, g, g[k].0 as int, da, e);
    lemma_pair_expand_mono(z, g, g[k].1 as int, db, e);
    assert(pair_expand(z, g, z.len() + k + 1, e + 1) is Some);
}

/// Closed marks hold every symbol whose derivation ends.
proof fn lemma_closed_complete(z: Seq<u8>, g: Seq<(u32, u32)>, m: Seq<bool>, x: int, d: nat)
    requires
        m.len() == g.len(),
        marks_closed(z.len(), g, m),
        pair_expand(z, g, x, d) is Some,
    ensures
        marked_symbol(z.len(), m, x),
    decreases d,
{
    if !(1 <= x <= z.len()) {
        let k = x - z.len() - 1;
        lemma_closed_complete(z, g, m, g[k].0 as int, (d - 1) as nat);
        lemma_closed_complete(z, g, m, g[k].1 as int, (d - 1) as nat);
        assert(m[k]);
    }
}

/// With marks that tell exactly which rules derive finite strings, a symbol
/// is marked exactly when its derivation ends.
pub(crate) proof fn lemma_marked_iff(z: Seq<u8>, g: Seq<(u32, u32)>, m: Seq<bool>, c: int)
    requires
        m.len() == g.len(),
        forall|k: int| 0 <= k < g.len() ==> #[trigger] m[k] == pair_expands(z, g, z.len() + k + 1),
    ensures
        marked_symbol(z.len(), m, c) == pair_expands(z, g, c),
{
    if 1 <= c <= z.len() {
        assert(pair_expand(z, g, c, 0) is Some);
    } else if z.len() < c <= z.len() + g.len() {
        assert(m[c - z.len() - 1] == pair_expands(z, g, c));
    } else {
        assert forall|d: nat| !(#[trigger] pair_expand(z, g, c, d) is Some) by {}
    }
}

/// Whether symbol `c` is a terminal or a marked rule.
pub(crate) fn is_marked(zl: usize, m: &Vec<bool>, c: u32) -> (b: bool)
    ensures
        b == marked_symbol(zl as nat, m@, c as int),
{
    let c64 = c as u64;
    let z64 = zl as u64;
    let n64 = m.len() as u64;
    if c64 >= 1 && c64 <= z64 {
        true
    } else if c64 > z64 && c64 - z64 <= n64 {
        m[(c64 - z64 - 1) as usize]
    } else {
        false
    }
}

/// Marks the rules of the pair grammar `(z, g)` whose derivations end (they
/// meet no undefined symbol and no cycle of rules), by marking, pass after
/// pass, every rule whose two symbols are terminals or marked rules, until a
/// pass marks nothing more.
pub(crate) fn expanding_rules(z: &Vec<u8>, g: &Vec<(u32, u32)>) -> (m: Vec<bool>)
    ensures
        m@.len() == g@.len(),
        forall|k: int| 0 <= k < g@.len() ==> #[trigger] m@[k] == pair_expands(z@, g@, z@.len() + k + 1),
{
    let n = g.len();
    let zl = z.len();
    let mut m: Vec<bool> = Vec::new();
    let mut t: usize = 0;
    while t < n
        invariant
            t <= n,
            m@.len() == t,
            forall|k: int| 0 <= k < t ==> !#[trigger] m@[k],
        decreases n - t,
    {
        m.push(false);
        t = t + 1;
    }
    let mut changed = true;
    while changed
        invariant
            n == g@.len(),
            zl == z@.len(),
            m@.len() == n,
            marks_sound(z@, g@, m@),
            !changed ==> marks_closed(zl as nat, g@, m@),
        decreases 2 * (n - true_count(m@, n as int)) + if changed {
            1int
        } else {
            0int
        },
    {
        proof {
            lemma_true_count_le(m@, n as int);
        }
        changed = false;
        let ghost m0 = m@;
        let mut k: usize = 0;
        while k < n
            invariant
                n == g@.len(),
                zl == z@.len(),
                m@.len() == n,
                k <= n,
                m0.len() == n,
                marks_sound(z@, g@, m@),
                !changed ==> m@ == m0,
                changed ==> true_count(m@, n as int) > true_count(m0, n as int),
                true_count(m@, n as int) >= true_count(m0, n as int),
                !changed ==> forall|kk: int|
                    0 <= kk < k ==> #[trigger] m@[kk] || !(marked_symbol(zl as nat, m@, g@[kk].0 as int) && marked_symbol(
                        zl as nat,
                        m@,
                        g@[kk].1 as int,
                    )),
            decreases n - k,
        {
            if !m[k] {
                let e = g[k];
                if is_marked(zl, &m, e.0) && is_marked(zl, &m, e.1) {
                    proof {
                        lemma_marked_expands(z@, g@, m@, e.0 as int);
                        lemma_marked_expands(z@, g@, m@, e.1 as int);
                        lemma_rule_expands(z@, g@, k as int);
                        lemma_true_count_update(m@, n as int, k as int);
                    }
                    let ghost mb = m@;
                    m.set(k, true);
                    assert forall|kk: int| 0 <= kk < m@.len() && #[trigger] m@[kk] implies pair_expands(
                        z@,
                        g@,
                        z@.len() + kk + 1,
                    ) by {
                        if kk != k {
                            assert(mb[kk]);
                        }
                    }
                    changed = true;
                }
            }
            k = k + 1;
        }
        proof {
            lemma_true_count_le(m@, n as int);
        }
    }
    proof {
        assert forall|k: int| 0 <= k < g@.len() implies #[trigger] m@[k] == pair_expands(z@, g@, z@.len() + k + 1) by {
            if !m@[k] && pair_expands(z@, g@, z@.len() + k + 1) {
                let d = choose|d: nat| #[trigger] pair_expand(z@, g@, z@.len() + k + 1, d) is Some;
                lemma_closed_complete(z@, g@, m@, z@.len() + k + 1, d);
            }
        }
    }
    m
}

/// Writes the terminal count in 8 bits, the terminals, and the rule count in
/// 32 bits.
pub fn write_gamma_head(z: &Vec<u8>, glen: usize, bv: &mut BitVec)
    requires
        z@.len() <= u32::MAX,
        glen <= u32::MAX,
        bits::bits_of(*old(bv)).len() + 40 + 8 * z@.len() < usize::MAX,
    ensures
        bits::bits_of(*final(bv)) == bits::bits_of(*old(bv)) + bits::field_bits(z@.len(), 8) + bits::join(
            byte_parts(z@),
        ) + bits::field_bits(glen as nat, 32),
{
    proof {
        bits::lemma_field_len(z@.len(), 8);
        assert forall|i: int| 0 <= i < byte_parts(z@).len() implies (#[trigger] byte_parts(z@)[i]).len() == 8 by {
            bits::lemma_field_len(z@[i] as nat, 8);
        }
        bits::lemma_join_len(byte_parts(z@), 8);
    }
    u_to_bv(z.len() as u32, 8, bv);
    push_bytes(z, bv);
    u_to_bv(glen as u32, 32, bv);
}

/// Writes the smaller symbols in `sbitlen` bits, the flags, and the number
/// of falls in 32 bits.
pub fn write_gamma_mid(u: &Vec<u32>, lr: &BitVec, rlen: usize, sbitlen: u32, bv: &mut BitVec)
    requires
        sbitlen <= 32,
        rlen <= u32::MAX,
        bits::bits_of(*old(bv)).len() + 32 * u@.len() + bits::bits_of(*lr).len() + 32 < usize::MAX,
    ensures
        bits::bits_of(*final(bv)) == bits::bits_of(*old(bv)) + bits::join(field_parts(u@, sbitlen as nat))
            + bits::bits_of(*lr) + bits::field_bits(rlen as nat, 32),
{
    proof {
        assert(sbitlen * u@.len() <= 32 * u@.len()) by (nonlinear_arith)
            requires
                sbitlen <= 32,
        ;
        assert forall|i: int| 0 <= i < field_parts(u@, sbitlen as nat).len() implies (#[trigger] field_parts(
            u@,
            sbitlen as nat,
        )[i]).len() == sbitlen by {
            bits::lemma_field_len(u@[i] as nat, sbitlen as nat);
        }
        bits::lemma_join_len(field_parts(u@, sbitlen as nat), sbitlen as nat);
    }
    push_fields(u, sbitlen, bv);
    append_bits(lr, bv);
    u_to_bv(rlen as u32, 32, bv);
}

/// Cuts a gamma code into the terminal count (8 bits), the rule count
/// (32 bits) and the rest.
pub fn split_gamma(bv: &BitVec) -> (r: (u64, u64, BitVec))
    ensures
        r.0 as nat == bits::part_value(bits::bits_of(*bv), 0, 8),
        r.1 as nat == bits::part_value(bits::bits_of(*bv), 8, 32),
        bits::bits_of(r.2) == bits::part(bits::bits_of(*bv), 40, bits::bits_of(*bv).len() as int),
{
    let zlen = read_part(bv, 0, 8);
    let glen = read_part(bv, 8, 32);
    let len = bv_len(bv) as u64;
    let d = copy_part(bv, 40, len);
    (zlen, glen, d)
}

/// Two-symbol rules read as pairs.
pub open spec fn rule_pairs(rules: Seq<Seq<u32>>) -> Seq<(u32, u32)> {
    rules.map_values(|r: Seq<u32>| (r[0], r[1]))
}

/// Appends to `w` the string of the pair grammar that the list `v` spells
/// with `zl` terminals and `gl` rules (see `fble::unflattened`), when the
/// list holds whole rules and the derivation of every sequence symbol ends;
/// returns whether it does (and leaves `w` as it was where it does not).
pub fn expand_gamma(v: &Vec<u32>, zl: u64, gl: u64, w: &mut Vec<u8>) -> (ok: bool)
    requires
        zl < 0x1_0000_0000,
        gl < 0x1_0000_0000,
    ensures
        ({
            let h = fble::unflattened(v@, zl as int, gl as int);
            &&& ok == (fble::splits_evenly(v@, zl as int, gl as int) && pairs_expand(
                h.terminal,
                rule_pairs(h.rule),
                h.sequence,
            ))
            &&& ok ==> final(w)@ == old(w)@ + pair_expansions(h.terminal, rule_pairs(h.rule), h.sequence)
            &&& !ok ==> final(w)@ == old(w)@
        }),
{
    let ghost h = fble::unflattened(v@, zl as int, gl as int);
    let mut g = Grammar::new();
    if !fble::unflatten(v, zl, gl, &mut g) {
        return false;
    }
    assert(g@.terminal =~= h.terminal);
    assert(g@.rule =~= h.rule);
    assert(g@.sequence =~= h.sequence);
    let mut pairs: Vec<(u32, u32)> = Vec::new();
    let n = g.rule.len();
    let mut k: usize = 0;
    while k < n
        invariant
            n == g@.rule.len(),
            g@.rule == h.rule,
            h == fble::unflattened(v@, zl as int, gl as int),
            k <= n,
            pairs@ == rule_pairs(h.rule).take(k as int),
        decreases n - k,
    {
        proof {
            let e1 = bits::clamp(zl as int, v@.len() as int);
            assert(h.rule[k as int] == seq![v@[e1 + 2 * k], v@[e1 + 2 * k + 1]]);
        }
        let p = (g.rule[k][0], g.rule[k][1]);
        pairs.push(p);
        assert(pairs@ =~= rule_pairs(h.rule).take(k + 1));
        k = k + 1;
    }
    assert(pairs@ =~= rule_pairs(h.rule));
    crate::maxinc::expand_pairs(&g.terminal, &pairs, &g.sequence, w)
}

} // verus!
