//! A self-contained encoding of pair grammars as post-order partial parse
//! trees: the tree bits (closed by one more inner-node bit), the terminals
//! in 8 bits ended by a zero byte, the label width in 8 bits, and the leaf
//! labels in that width. Terminals are leaves labelled by their own symbol;
//! a rule is written in full at its first use and as a leaf labelled with its
//! tree variable afterwards.
use vstd::prelude::*;
use bit_vec::BitVec;
use crate::bits;
use crate::bits::{append_bits, bv_get, bv_len, bv_new, bv_push, copy_part, read_chunks, read_field, read_part};
use crate::gamma;
use crate::gamma::{bit_length_of, push_bytes, push_fields, u_to_bv};
use crate::module::cfg;

verus! {

/// The state of the tree writer: tree bits, leaf labels, the tree variable
/// of each rule already written, and the next tree variable.
pub struct CodeState {
    pub b: Seq<bool>,
    pub l: Seq<u32>,
    pub f: Seq<Option<u32>>,
    pub i: int,
}

/// Writing symbol `x` of a pair grammar with `zlen` terminals, going at
/// most `depth` rules deep.
pub open spec fn code_symbol(zlen: nat, g: Seq<(u32, u32)>, x: int, depth: nat, st: CodeState) -> CodeState
    decreases depth,
{
    if x <= zlen {
        CodeState { b: st.b.push(false), l: st.l.push(x as u32), ..st }
    } else if x - zlen - 1 >= st.f.len() || x - zlen - 1 >= g.len() {
        st
    } else {
        match st.f[x - zlen - 1] {
            Some(y) => CodeState { b: st.b.push(false), l: st.l.push(y), ..st },
            None => {
                let bg = g[x - zlen - 1];
                if depth == 0 {
                    st
                } else {
                    let s1 = code_symbol(zlen, g, bg.0 as int, (depth - 1) as nat, st);
                    let s2 = code_symbol(zlen, g, bg.1 as int, (depth - 1) as nat, s1);
                    CodeState {
                        b: s2.b.push(true),
                        l: s2.l,
                        f: s2.f.update(x - zlen - 1, Some(s2.i as u32)),
                        i: s2.i + 1,
                    }
                }
            },
        }
    }
}

/// Writing the first `n` sequence symbols, each after the first joined to
/// the tree before it by an inner node that takes the next tree variable.
pub open spec fn code_sequence(zlen: nat, g: Seq<(u32, u32)>, s: Seq<u32>, n: int, depth: nat, st: CodeState) -> CodeState
    decreases n,
{
    if n <= 0 {
        st
    } else {
        let s1 = code_symbol(zlen, g, s[n - 1] as int, depth, code_sequence(zlen, g, s, n - 1, depth, st));
        if n > 1 {
            CodeState { b: s1.b.push(true), i: s1.i + 1, ..s1 }
        } else {
            s1
        }
    }
}

/// The writer state at the start.
pub open spec fn code_start(zlen: nat, glen: nat) -> CodeState {
    CodeState { b: Seq::empty(), l: Seq::empty(), f: Seq::new(glen, |k: int| None::<u32>), i: zlen as int + 1 }
}

/// The writer's recursion from symbol `x` ends within `depth` nested
/// rules: symbols up to `zl` are leaves, and every rule on the way is
/// defined.
pub open spec fn code_depth_ok(zl: nat, g: Seq<(u32, u32)>, x: int, depth: nat) -> bool
    decreases depth,
{
    if x <= zl {
        true
    } else if x <= zl + g.len() && depth > 0 {
        &&& code_depth_ok(zl, g, g[x - zl - 1].0 as int, (depth - 1) as nat)
        &&& code_depth_ok(zl, g, g[x - zl - 1].1 as int, (depth - 1) as nat)
    } else {
        false
    }
}

/// The writer's recursion from symbol `x` ends: it meets no undefined
/// symbol and no cycle of rules.
pub open spec fn code_ends(zl: nat, g: Seq<(u32, u32)>, x: int) -> bool {
    exists|depth: nat| #[trigger] code_depth_ok(zl, g, x, depth)
}

/// The recursion from every symbol of `s` ends within `depth` rules.
pub open spec fn fuel_ok(zl: nat, g: Seq<(u32, u32)>, s: Seq<u32>, depth: nat) -> bool {
    forall|j: int| 0 <= j < s.len() ==> #[trigger] code_depth_ok(zl, g, s[j] as int, depth)
}

/// A depth within which the recursion from every symbol of `s` ends, where
/// there is one.
pub open spec fn tree_fuel(zl: nat, g: Seq<(u32, u32)>, s: Seq<u32>) -> nat {
    choose|depth: nat| #[trigger] fuel_ok(zl, g, s, depth)
}

/// What ends within some depth ends within more.
pub proof fn lemma_code_depth_mono(zl: nat, g: Seq<(u32, u32)>, x: int, d: nat, e: nat)
    requires
        code_depth_ok(zl, g, x, d),
        d <= e,
    ensures
        code_depth_ok(zl, g, x, e),
    decreases d,
{
    if x > zl {
        lemma_code_depth_mono(zl, g, g[x - zl - 1].0 as int, (d - 1) as nat, (e - 1) as nat);
        lemma_code_depth_mono(zl, g, g[x - zl - 1].1 as int, (d - 1) as nat, (e - 1) as nat);
    }
}

/// One depth serves the first `n` symbols of `s` when each of them ends.
proof fn lemma_common_fuel(zl: nat, g: Seq<(u32, u32)>, s: Seq<u32>, n: int) -> (d: nat)
    requires
        0 <= n <= s.len(),
        forall|j: int| 0 <= j < s.len() ==> code_ends(zl, g, #[trigger] s[j] as int),
    ensures
        forall|j: int| 0 <= j < n ==> #[trigger] code_depth_ok(zl, g, s[j] as int, d),
    decreases n,
{
    if n == 0 {
        0
    } else {
        let d0 = lemma_common_fuel(zl, g, s, n - 1);
        assert(code_ends(zl, g, s[n - 1] as int));
        let d1 = choose|depth: nat| #[trigger] code_depth_ok(zl, g, s[n - 1] as int, depth);
        let e: nat = if d0 <= d1 { d1 } else { d0 };
        assert forall|j: int| 0 <= j < n implies #[trigger] code_depth_ok(zl, g, s[j] as int, e) by {
            if j < n - 1 {
                lemma_code_depth_mono(zl, g, s[j] as int, d0, e);
            } else {
                lemma_code_depth_mono(zl, g, s[j] as int, d1, e);
            }
        }
        e
    }
}

/// When the recursion from every symbol of `s` ends, the tree's depth serves
/// all of them.
pub proof fn lemma_tree_fuel(zl: nat, g: Seq<(u32, u32)>, s: Seq<u32>)
    requires
        forall|j: int| 0 <= j < s.len() ==> code_ends(zl, g, #[trigger] s[j] as int),
    ensures
        fuel_ok(zl, g, s, tree_fuel(zl, g, s)),
{
    let d = lemma_common_fuel(zl, g, s, s.len() as int);
    assert(fuel_ok(zl, g, s, d));
}

/// A symbol whose derivation ends within some depth leads the writer's
/// recursion to end within it too.
pub proof fn lemma_expand_depth_ok(z: Seq<u8>, g: Seq<(u32, u32)>, x: int, d: nat)
    requires
        gamma::pair_expand(z, g, x, d) is Some,
    ensures
        code_depth_ok(z.len(), g, x, d),
    decreases d,
{
    if x > z.len() {
        lemma_expand_depth_ok(z, g, g[x - z.len() - 1].0 as int, (d - 1) as nat);
        lemma_expand_depth_ok(z, g, g[x - z.len() - 1].1 as int, (d - 1) as nat);
    }
}

/// Where the derivation of `x` ends, it ends within every depth within
/// which the writer's recursion from `x` ends.
pub proof fn lemma_expand_at_depth(z: Seq<u8>, g: Seq<(u32, u32)>, x: int, d: nat, e: nat)
    requires
        gamma::pair_expand(z, g, x, d) is Some,
        code_depth_ok(z.len(), g, x, e),
    ensures
        gamma::pair_expand(z, g, x, e) is Some,
    decreases e,
{
    if x > z.len() {
        lemma_expand_at_depth(z, g, g[x - z.len() - 1].0 as int, (d - 1) as nat, (e - 1) as nat);
        lemma_expand_at_depth(z, g, g[x - z.len() - 1].1 as int, (d - 1) as nat, (e - 1) as nat);
    }
}

/// When the derivation of every symbol of `s` ends, it ends within the
/// tree's depth.
proof fn lemma_expanding_fuel(z: Seq<u8>, g: Seq<(u32, u32)>, s: Seq<u32>)
    requires
        gamma::pairs_expand(z, g, s),
    ensures
        fuel_ok(z.len(), g, s, tree_fuel(z.len(), g, s)),
        forall|j: int| 0 <= j < s.len() ==> (#[trigger] gamma::pair_expand(z, g, s[j] as int, tree_fuel(z.len(), g, s))) is Some,
{
    assert forall|j: int| 0 <= j < s.len() implies code_ends(z.len(), g, #[trigger] s[j] as int) by {
        assert(gamma::pair_expands(z, g, s[j] as int));
        let d = choose|d: nat| #[trigger] gamma::pair_expand(z, g, s[j] as int, d) is Some;
        lemma_expand_depth_ok(z, g, s[j] as int, d);
    }
    lemma_tree_fuel(z.len(), g, s);
    let e = tree_fuel(z.len(), g, s);
    assert forall|j: int| 0 <= j < s.len() implies (#[trigger] gamma::pair_expand(z, g, s[j] as int, e)) is Some by {
        assert(gamma::pair_expands(z, g, s[j] as int));
        let d = choose|d: nat| #[trigger] gamma::pair_expand(z, g, s[j] as int, d) is Some;
        assert(code_depth_ok(z.len(), g, s[j] as int, e));
        lemma_expand_at_depth(z, g, s[j] as int, d, e);
    }
}

/// The tree of the pair grammar `(z, g)` with sequence `s`, before its
/// closing bit.
pub open spec fn tree_of(zlen: nat, g: Seq<(u32, u32)>, s: Seq<u32>) -> CodeState {
    code_sequence(zlen, g, s, s.len() as int, tree_fuel(zlen, g, s), code_start(zlen, g.len()))
}

/// `b` continues `a`: the bits and labels of `a` stay at the front, the
/// table keeps its size, and the variables only grow.
pub open spec fn code_continues(b: CodeState, a: CodeState) -> bool {
    &&& a.b.len() <= b.b.len()
    &&& b.b.subrange(0, a.b.len() as int) == a.b
    &&& a.l.len() <= b.l.len()
    &&& b.l.subrange(0, a.l.len() as int) == a.l
    &&& b.f.len() == a.f.len()
    &&& a.i <= b.i
}

/// Continuing is transitive.
pub proof fn lemma_code_continues_trans(a: CodeState, b: CodeState, c: CodeState)
    requires
        code_continues(b, a),
        code_continues(c, b),
    ensures
        code_continues(c, a),
{
    assert(c.b.subrange(0, a.b.len() as int) =~= b.b.subrange(0, a.b.len() as int));
    assert(c.l.subrange(0, a.l.len() as int) =~= b.l.subrange(0, a.l.len() as int));
}

/// Every state continues itself.
pub proof fn lemma_code_continues_refl(a: CodeState)
    ensures
        code_continues(a, a),
{
    assert(a.b.subrange(0, a.b.len() as int) =~= a.b);
    assert(a.l.subrange(0, a.l.len() as int) =~= a.l);
}

/// Writing a symbol only adds.
pub proof fn lemma_code_symbol_continues(zlen: nat, g: Seq<(u32, u32)>, x: int, depth: nat, st: CodeState)
    ensures
        code_continues(code_symbol(zlen, g, x, depth, st), st),
    decreases depth,
{
    let r = code_symbol(zlen, g, x, depth, st);
    lemma_code_continues_refl(st);
    if x <= zlen {
        assert(r.b.subrange(0, st.b.len() as int) =~= st.b);
        assert(r.l.subrange(0, st.l.len() as int) =~= st.l);
    } else if x - zlen - 1 < st.f.len() && x - zlen - 1 < g.len() {
        match st.f[x - zlen - 1] {
            Some(y) => {
                assert(r.b.subrange(0, st.b.len() as int) =~= st.b);
                assert(r.l.subrange(0, st.l.len() as int) =~= st.l);
            },
            None => {
                let bg = g[x - zlen - 1];
                if depth > 0 {
                    let s1 = code_symbol(zlen, g, bg.0 as int, (depth - 1) as nat, st);
                    let s2 = code_symbol(zlen, g, bg.1 as int, (depth - 1) as nat, s1);
                    lemma_code_symbol_continues(zlen, g, bg.0 as int, (depth - 1) as nat, st);
                    lemma_code_symbol_continues(zlen, g, bg.1 as int, (depth - 1) as nat, s1);
                    lemma_code_continues_trans(st, s1, s2);
                    assert(code_continues(r, s2)) by {
                        assert(r.b.subrange(0, s2.b.len() as int) =~= s2.b);
                        assert(r.l.subrange(0, s2.l.len() as int) =~= s2.l);
                    }
                    lemma_code_continues_trans(st, s2, r);
                }
            },
        }
    }
}

/// Writing more of the sequence continues writing less of it.
pub proof fn lemma_code_sequence_continues(zlen: nat, g: Seq<(u32, u32)>, s: Seq<u32>, n: int, k: int, depth: nat, st: CodeState)
    requires
        0 <= k <= n,
    ensures
        code_continues(code_sequence(zlen, g, s, n, depth, st), code_sequence(zlen, g, s, k, depth, st)),
    decreases n,
{
    if k < n {
        let p = code_sequence(zlen, g, s, n - 1, depth, st);
        let s1 = code_symbol(zlen, g, s[n - 1] as int, depth, p);
        let r = code_sequence(zlen, g, s, n, depth, st);
        lemma_code_sequence_continues(zlen, g, s, n - 1, k, depth, st);
        lemma_code_symbol_continues(zlen, g, s[n - 1] as int, depth, p);
        assert(code_continues(r, s1)) by {
            assert(r.b.subrange(0, s1.b.len() as int) =~= s1.b);
            assert(r.l.subrange(0, s1.l.len() as int) =~= s1.l);
        }
        lemma_code_continues_trans(p, s1, r);
        lemma_code_continues_trans(code_sequence(zlen, g, s, k, depth, st), p, r);
    } else {
        lemma_code_continues_refl(code_sequence(zlen, g, s, n, depth, st));
    }
}

/// The writer state that a bit vector, labels, table and counter hold.
pub open spec fn code_state(b: BitVec, l: Seq<u32>, f: Seq<Option<u32>>, i: usize) -> CodeState {
    CodeState { b: bits::bits_of(b), l: l, f: f, i: i as int }
}

/// Writes symbol `x` into the tree held by `b`, `l`, `f` and `i`, given a
/// depth within which the writer's recursion from `x` ends.
fn code_symbol_into(
    x: u32,
    zlen: usize,
    g: &Vec<(u32, u32)>,
    b: &mut BitVec,
    l: &mut Vec<u32>,
    f: &mut Vec<Option<u32>>,
    i: &mut usize,
    depth: Ghost<nat>,
)
    requires
        code_depth_ok(zlen as nat, g@, x as int, depth@),
        old(f)@.len() == g@.len(),
        ({
            let fin = code_symbol(
                zlen as nat,
                g@,
                x as int,
                depth@,
                code_state(*old(b), old(l)@, old(f)@, *old(i)),
            );
            &&& fin.i <= u32::MAX
            &&& fin.b.len() < usize::MAX
        }),
    ensures
        code_state(*final(b), final(l)@, final(f)@, *final(i)) == code_symbol(
            zlen as nat,
            g@,
            x as int,
            depth@,
            code_state(*old(b), old(l)@, old(f)@, *old(i)),
        ),
    decreases depth@,
{
    let ghost st0 = code_state(*b, l@, f@, *i);
    let ghost fin = code_symbol(zlen as nat, g@, x as int, depth@, st0);
    proof {
        lemma_code_symbol_continues(zlen as nat, g@, x as int, depth@, st0);
    }
    let xu = x as usize;
    if xu <= zlen {
        l.push(x);
        bv_push(b, false);
    } else {
        let k = xu - zlen - 1;
        if let Some(y) = f[k] {
            l.push(y);
            bv_push(b, false);
        } else {
            let bg = g[k];
            let ghost s1 = code_symbol(zlen as nat, g@, bg.0 as int, (depth@ - 1) as nat, st0);
            proof {
                lemma_code_symbol_continues(zlen as nat, g@, bg.0 as int, (depth@ - 1) as nat, st0);
                lemma_code_symbol_continues(zlen as nat, g@, bg.1 as int, (depth@ - 1) as nat, s1);
            }
            code_symbol_into(bg.0, zlen, g, b, l, f, i, Ghost((depth@ - 1) as nat));
            code_symbol_into(bg.1, zlen, g, b, l, f, i, Ghost((depth@ - 1) as nat));
            f.set(k, Some(*i as u32));
            *i = *i + 1;
            bv_push(b, true);
        }
    }
    assert(code_state(*b, l@, f@, *i) =~= fin);
}

/// The code of the pair grammar `(z, g)` with sequence `s`: the tree bits
/// and a closing inner-node bit, the terminals in 8 bits, a zero byte, the
/// label width in 8 bits, and the labels in that width.
pub open spec fn poppt_code(z: Seq<u8>, g: Seq<(u32, u32)>, s: Seq<u32>) -> Seq<bool> {
    let t = tree_of(z.len(), g, s);
    let logn = gamma::bit_length(t.l.len());
    t.b.push(true) + bits::join(gamma::byte_parts(z)) + bits::field_bits(0, 8) + bits::field_bits(logn, 8)
        + bits::join(gamma::field_parts(t.l, logn))
}

/// Appends the code of the pair grammar `(z, g)` with sequence `s` to `bv`
/// and returns the number of tree bits, the number of labels and the label
/// width. Rules may refer to later rules, as long as the writer's recursion
/// from every sequence symbol ends.
pub fn encode(z: &Vec<u8>, g: &Vec<(u32, u32)>, s: &Vec<u32>, bv: &mut BitVec) -> (stats: (usize, usize, u32))
    requires
        forall|k: int| 0 <= k < s@.len() ==> code_ends(z@.len(), g@, #[trigger] s@[k] as int),
        ({
            let t = tree_of(z@.len(), g@, s@);
            &&& t.i <= u32::MAX
            &&& t.l.len() < 0x1_0000_0000
            &&& bits::bits_of(*old(bv)).len() + t.b.len() + 1 + 8 * z@.len() + 16 + 32 * t.l.len() < usize::MAX
        }),
    ensures
        bits::bits_of(*final(bv)) == bits::bits_of(*old(bv)) + poppt_code(z@, g@, s@),
        stats.0 == tree_of(z@.len(), g@, s@).b.len() + 1,
        stats.1 == tree_of(z@.len(), g@, s@).l.len(),
        stats.2 == gamma::bit_length(tree_of(z@.len(), g@, s@).l.len()),
{
    let ghost zlen = z@.len();
    let ghost st0 = code_start(zlen, g@.len());
    let ghost fin = tree_of(zlen, g@, s@);
    let ghost depth = tree_fuel(zlen, g@, s@);
    proof {
        lemma_tree_fuel(zlen, g@, s@);
    }
    let ghost b0 = bits::bits_of(*bv);
    let mut b = bv_new();
    let mut l: Vec<u32> = Vec::new();
    let mut f: Vec<Option<u32>> = Vec::new();
    let mut t: usize = 0;
    while t < g.len()
        invariant
            t <= g@.len(),
            f@.len() == t,
            forall|k: int| 0 <= k < t ==> f@[k] == None::<u32>,
        decreases g@.len() - t,
    {
        f.push(None);
        t = t + 1;
    }
    let zl = z.len();
    proof {
        lemma_code_sequence_continues(zlen, g@, s@, s@.len() as int, 0, depth, st0);
    }
    let mut i: usize = zl + 1;
    assert(f@ =~= st0.f);
    assert(bits::bits_of(b) =~= st0.b);
    assert(l@ =~= st0.l);
    let mut c: usize = 0;
    while c < s.len()
        invariant
            zl == zlen,
            zlen == z@.len(),
            depth == tree_fuel(zlen, g@, s@),
            fuel_ok(zlen, g@, s@, depth),
            c <= s@.len(),
            f@.len() == g@.len(),
            fin == tree_of(zlen, g@, s@),
            st0 == code_start(zlen, g@.len()),
            fin.i <= u32::MAX,
            fin.b.len() + 1 < usize::MAX,
            code_state(b, l@, f@, i) == code_sequence(zlen, g@, s@, c as int, depth, st0),
        decreases s@.len() - c,
    {
        proof {
            lemma_code_sequence_continues(zlen, g@, s@, s@.len() as int, c + 1, depth, st0);
            lemma_code_symbol_continues(zlen, g@, s@[c as int] as int, depth, code_sequence(zlen, g@, s@, c as int, depth, st0));
            let mid = code_symbol(zlen, g@, s@[c as int] as int, depth, code_sequence(zlen, g@, s@, c as int, depth, st0));
            let nxt = code_sequence(zlen, g@, s@, c + 1, depth, st0);
            assert(mid.i <= nxt.i && mid.b.len() <= nxt.b.len());
            assert(c > 0 ==> mid.b.len() < nxt.b.len());
        }
        assert(code_depth_ok(zlen, g@, s@[c as int] as int, depth));
        code_symbol_into(s[c], zl, g, &mut b, &mut l, &mut f, &mut i, Ghost(depth));
        if c > 0 {
            bv_push(&mut b, true);
            i = i + 1;
        }
        assert(code_state(b, l@, f@, i) =~= code_sequence(zlen, g@, s@, c + 1, depth, st0));
        c = c + 1;
    }
    bv_push(&mut b, true);
    let logn = bit_length_of(l.len());
    proof {
        bits::lemma_two_to_values();
        gamma::lemma_bit_length_below(l@.len(), 32);
        bits::lemma_field_len(0, 8);
        bits::lemma_field_len(logn as nat, 8);
        assert forall|k: int| 0 <= k < gamma::byte_parts(z@).len() implies (#[trigger] gamma::byte_parts(z@)[k]).len() == 8 by {
            bits::lemma_field_len(z@[k] as nat, 8);
        }
        bits::lemma_join_len(gamma::byte_parts(z@), 8);
        assert(logn * l@.len() <= 32 * l@.len()) by (nonlinear_arith)
            requires
                logn <= 32,
        ;
    }
    append_bits(&b, bv);
    push_bytes(z, bv);
    u_to_bv(0, 8, bv);
    u_to_bv(logn, 8, bv);
    push_fields(&l, logn, bv);
    assert(bits::bits_of(*bv) =~= b0 + poppt_code(z@, g@, s@));
    (bv_len(&b), l.len(), logn)
}


/// Where the tree bits end: after the first bit at which the tree has as
/// many inner-node bits as leaves (the closing bit), or at the end.
pub open spec fn balance_end(bits: Seq<bool>, k: int, t: int) -> int
    decreases bits.len() - k,
{
    if k < 0 || k >= bits.len() {
        bits.len() as int
    } else {
        let t2 = if bits[k] {
            t - 1
        } else {
            t + 1
        };
        if t2 == 0 {
            k + 1
        } else {
            balance_end(bits, k + 1, t2)
        }
    }
}

/// The bytes from `pos` up to a zero byte, where the bytes after it start,
/// and whether the zero byte was there.
pub open spec fn zero_ended(bits: Seq<bool>, pos: int) -> (Seq<u8>, int, bool)
    decreases bits.len() - pos,
{
    if pos < 0 || pos + 8 > bits.len() {
        (Seq::empty(), bits.len() as int, false)
    } else {
        let c = bits::field_at(bits, pos, 8);
        if c == 0 {
            (Seq::empty(), pos + 8, true)
        } else {
            let r = zero_ended(bits, pos + 8);
            (seq![c as u8] + r.0, r.1, r.2)
        }
    }
}

/// The pieces of a tree code: the tree bits, the terminals, and the labels.
pub struct PopptParts {
    pub tree: BitVec,
    pub terms: Vec<u8>,
    pub labels: Vec<u32>,
}

/// The pieces that a tree code holds: the tree bits up to the closing bit,
/// the terminals up to the zero byte, and after the label width (a width of
/// `0` reads one bit per label) the labels, each kept to its last 32 bits.
pub open spec fn poppt_parts(bits: Seq<bool>) -> (Seq<bool>, Seq<u8>, Seq<u32>) {
    let p1 = balance_end(bits, 0, 0);
    let zr = zero_ended(bits, p1);
    if !zr.2 {
        (bits.take(p1), zr.0, Seq::empty())
    } else {
        let logn = bits::part_value(bits, zr.1, 8) as int;
        let w = if logn == 0 {
            1
        } else {
            logn
        };
        (bits.take(p1), zr.0, bits::chunks(bits, zr.1 + 8, w, bits.len() as int))
    }
}

/// Cuts a tree code into its pieces.
pub fn split_poppt(bv: &BitVec) -> (p: PopptParts)
    requires
        bits::bits_of(*bv).len() <= i32::MAX,
    ensures
        (bits::bits_of(p.tree), p.terms@, p.labels@) == poppt_parts(bits::bits_of(*bv)),
{
    let ghost bb = bits::bits_of(*bv);
    let n = bv_len(bv);
    let mut k: usize = 0;
    let mut t: i32 = 0;
    let mut done = false;
    while k < n && !done
        invariant
            n == bb.len(),
            bb == bits::bits_of(*bv),
            n <= i32::MAX,
            k <= n,
            -(k as int) <= t <= k,
            done ==> balance_end(bb, 0, 0) == k,
            !done ==> balance_end(bb, 0, 0) == balance_end(bb, k as int, t as int),
            !done ==> (k == 0 || t != 0),
        decreases n - k + (if done { 0int } else { 1int }),
    {
        if bv_get(bv, k) {
            t = t - 1;
        } else {
            t = t + 1;
        }
        k = k + 1;
        if t == 0 {
            done = true;
        }
    }
    let tree = copy_part(bv, 0, k as u64);
    assert(bits::part(bb, 0, k as int) =~= bb.take(k as int));
    let mut terms: Vec<u8> = Vec::new();
    let mut pos: u64 = k as u64;
    let mut found = false;
    proof {
        bits::lemma_two_to_values();
    }
    while !found && n as u64 >= 8 && pos <= n as u64 - 8
        invariant
            n == bb.len(),
            bb == bits::bits_of(*bv),
            bits::two_to(8) == 256,
            k <= pos <= n || (pos == k && k <= n),
            !found ==> zero_ended(bb, k as int) == (terms@ + zero_ended(bb, pos as int).0, zero_ended(bb, pos as int).1, zero_ended(bb, pos as int).2),
            found ==> zero_ended(bb, k as int) == (terms@, pos as int, true),
        decreases n - pos + (if found { 0int } else { 1int }),
    {
        let c = read_field(bv, pos as usize, 8);
        if c == 0 {
            found = true;
            assert(terms@ + Seq::<u8>::empty() =~= terms@);
        } else {
            let ghost r = zero_ended(bb, pos + 8);
            terms.push(c as u8);
            assert(terms@.drop_last() + (seq![c as u8] + r.0) =~= terms@ + r.0);
        }
        pos = pos + 8;
    }
    if !found {
        assert(terms@ + Seq::<u8>::empty() =~= terms@);
        return PopptParts { tree, terms, labels: Vec::new() };
    }
    let logn = read_part(bv, pos, 8);
    let w: u64 = if logn == 0 { 1 } else { logn };
    let mut labels: Vec<u32> = Vec::new();
    read_chunks(bv, pos + 8, w, n as u64, &mut labels);
    assert(labels@ =~= Seq::<u32>::empty() + bits::chunks(bb, pos + 8, w as int, n as int));
    PopptParts { tree, terms, labels }
}


/// The state of the tree reader: the pair rules read, the stack of
/// symbols, the labels used, the next variable, and the bytes written.
pub struct DecodeState {
    pub g: Seq<(u32, u32)>,
    pub stack: Seq<u32>,
    pub di: int,
    pub x: int,
    pub out: Seq<u8>,
}

/// Reading the first `n` tree bits: a leaf takes the next label, writes its
/// expansion and pushes it; an inner node pops two symbols (if there are
/// two) into a new pair rule and pushes the next variable. `None` where a
/// label is missing or names no defined symbol, a rule would refer to an
/// undefined symbol, or the variables pass `u32::MAX`.
pub open spec fn tree_decode(tree: Seq<bool>, labels: Seq<u32>, z: Seq<u8>, n: int) -> Option<DecodeState>
    decreases n,
{
    if n <= 0 {
        if z.len() + 1 > u32::MAX {
            None
        } else {
            Some(DecodeState { g: Seq::empty(), stack: Seq::empty(), di: 0, x: z.len() as int + 1, out: Seq::empty() })
        }
    } else {
        match tree_decode(tree, labels, z, n - 1) {
            None => None,
            Some(st) => {
                if tree[n - 1] {
                    let k = st.stack.len() as int;
                    if st.x >= u32::MAX {
                        None
                    } else if k >= 2 {
                        let lt = st.stack[k - 2];
                        let rt = st.stack[k - 1];
                        if lt < 1 || rt < 1 || lt > z.len() + st.g.len() || rt > z.len() + st.g.len() {
                            None
                        } else {
                            Some(
                                DecodeState {
                                    g: st.g.push((lt, rt)),
                                    stack: st.stack.subrange(0, k - 2).push(st.x as u32),
                                    x: st.x + 1,
                                    ..st
                                },
                            )
                        }
                    } else {
                        Some(DecodeState { stack: seq![st.x as u32], x: st.x + 1, ..st })
                    }
                } else {
                    if st.di >= labels.len() {
                        None
                    } else {
                        let lab = labels[st.di];
                        if lab < 1 || lab > z.len() + st.g.len() {
                            None
                        } else {
                            Some(
                                DecodeState {
                                    out: st.out + cfg::expand_symbol(z, gamma::pair_rules(st.g), lab as int),
                                    stack: st.stack.push(lab),
                                    di: st.di + 1,
                                    ..st
                                },
                            )
                        }
                    }
                }
            },
        }
    }
}

/// A reading that succeeds on `n` bits succeeds on fewer.
pub proof fn lemma_tree_decode_prefix(tree: Seq<bool>, labels: Seq<u32>, z: Seq<u8>, n: int, k: int)
    requires
        0 <= k <= n,
        tree_decode(tree, labels, z, n) is Some,
    ensures
        tree_decode(tree, labels, z, k) is Some,
    decreases n,
{
    if k < n {
        lemma_tree_decode_prefix(tree, labels, z, n - 1, k);
    }
}

/// The rules read so far refer only to terminals and earlier rules.
pub proof fn lemma_tree_decode_wf(tree: Seq<bool>, labels: Seq<u32>, z: Seq<u8>, n: int)
    requires
        tree_decode(tree, labels, z, n) is Some,
    ensures
        cfg::rules_wf(z.len(), gamma::pair_rules(tree_decode(tree, labels, z, n).unwrap().g)),
    decreases n,
{
    if n > 0 {
        lemma_tree_decode_wf(tree, labels, z, n - 1);
        let st = tree_decode(tree, labels, z, n - 1).unwrap();
        let st2 = tree_decode(tree, labels, z, n).unwrap();
        let r = gamma::pair_rules(st2.g);
        assert forall|k: int, j: int| 0 <= k < r.len() && 0 <= j < r[k].len() implies 1 <= #[trigger] r[k][j] <= z.len() + k by {
            if k < st.g.len() {
                assert(st2.g[k] == st.g[k]);
                assert(r[k] == gamma::pair_rules(st.g)[k]);
            }
        }
    }
}

/// Reads the tree and writes the bytes of every leaf, in order, to `w`.
pub fn decode_tree(tree: &BitVec, labels: &Vec<u32>, z: &Vec<u8>, w: &mut Vec<u8>)
    requires
        tree_decode(bits::bits_of(*tree), labels@, z@, bits::bits_of(*tree).len() as int) is Some,
    ensures
        final(w)@ == old(w)@ + tree_decode(bits::bits_of(*tree), labels@, z@, bits::bits_of(*tree).len() as int).unwrap().out,
{
    let ghost tb = bits::bits_of(*tree);
    let ghost w0 = w@;
    let n = bv_len(tree);
    proof {
        lemma_tree_decode_prefix(tb, labels@, z@, n as int, 0);
    }
    let mut dec_g: Vec<(u32, u32)> = Vec::new();
    let mut stack: Vec<u32> = Vec::new();
    let mut dec_x: u32 = z.len() as u32 + 1;
    let mut dec_i: usize = 0;
    let nl = labels.len();
    let mut k: usize = 0;
    while k < n
        invariant
            tb == bits::bits_of(*tree),
            n == tb.len(),
            nl == labels@.len(),
            k <= n,
            tree_decode(tb, labels@, z@, n as int) is Some,
            tree_decode(tb, labels@, z@, k as int) is Some,
            ({
                let st = tree_decode(tb, labels@, z@, k as int).unwrap();
                &&& st.g == dec_g@
                &&& st.stack == stack@
                &&& st.di == dec_i
                &&& st.x == dec_x
                &&& w@ == w0 + st.out
            }),
        decreases n - k,
    {
        proof {
            lemma_tree_decode_prefix(tb, labels@, z@, n as int, k + 1);
            lemma_tree_decode_wf(tb, labels@, z@, k as int);
        }
        let ghost st = tree_decode(tb, labels@, z@, k as int).unwrap();
        let ghost st2 = tree_decode(tb, labels@, z@, k + 1).unwrap();
        if bv_get(tree, k) {
            if let Some(rt) = stack.pop() {
                if let Some(lt) = stack.pop() {
                    dec_g.push((lt, rt));
                }
            }
            stack.push(dec_x);
            dec_x = dec_x + 1;
            assert(stack@ =~= st2.stack);
            assert(dec_g@ =~= st2.g);
        } else {
            let lab = labels[dec_i];
            stack.push(lab);
            proof {
                gamma::lemma_ordered_pair_expansion(z@, dec_g@, lab as int);
            }
            gamma::drv(lab, z, &dec_g, w);
            dec_i = dec_i + 1;
            assert(w@ =~= w0 + st2.out);
        }
        k = k + 1;
    }
}

/// Reads a tree code and appends the string of its grammar to `w`.
pub fn decode(bv: &BitVec, w: &mut Vec<u8>)
    requires
        bits::bits_of(*bv).len() <= i32::MAX,
        ({
            let p = poppt_parts(bits::bits_of(*bv));
            tree_decode(p.0, p.2, p.1, p.0.len() as int) is Some
        }),
    ensures
        ({
            let p = poppt_parts(bits::bits_of(*bv));
            final(w)@ == old(w)@ + tree_decode(p.0, p.2, p.1, p.0.len() as int).unwrap().out
        }),
{
    let parts = split_poppt(bv);
    decode_tree(&parts.tree, &parts.labels, &parts.terms, w);
}


/// A reader `d` of what the writer `st` wrote of the pair grammar `(z, g)`:
/// it used every label, built one rule for each tree variable, its rules
/// refer to earlier symbols, and the tree variable of each rule written so
/// far expands to the same bytes as the rule.
pub open spec fn decodes(z: Seq<u8>, g: Seq<(u32, u32)>, st: CodeState, d: DecodeState) -> bool {
    &&& d.di == st.l.len()
    &&& d.x == st.i
    &&& d.g.len() + z.len() + 1 == st.i
    &&& st.f.len() == g.len()
    &&& cfg::rules_wf(z.len(), gamma::pair_rules(d.g))
    &&& forall|k: int|
        0 <= k < st.f.len() && (#[trigger] st.f[k]) is Some ==> {
            &&& z.len() < st.f[k].unwrap() < st.i
            &&& cfg::expand_symbol(z, gamma::pair_rules(d.g), st.f[k].unwrap() as int) == gamma::pair_expansion(z, g, z.len() + 1 + k)
        }
}

/// `more` holds the pair rules `g` and perhaps more after them.
pub open spec fn pairs_extend(more: Seq<(u32, u32)>, g: Seq<(u32, u32)>) -> bool {
    &&& more.len() >= g.len()
    &&& forall|k: int| 0 <= k < g.len() ==> more[k] == g[k]
}

/// Adding pair rules keeps the expansion of every symbol defined before.
proof fn lemma_pairs_extend_symbol(z: Seq<u8>, g: Seq<(u32, u32)>, more: Seq<(u32, u32)>, x: int)
    requires
        cfg::rules_wf(z.len(), gamma::pair_rules(g)),
        pairs_extend(more, g),
        x <= z.len() + g.len(),
    ensures
        cfg::expand_symbol(z, gamma::pair_rules(more), x) == cfg::expand_symbol(z, gamma::pair_rules(g), x),
{
    assert forall|k: int| 0 <= k < gamma::pair_rules(g).len() implies gamma::pair_rules(more)[k] == gamma::pair_rules(
        g,
    )[k] by {
        assert(more[k] == g[k]);
    }
    crate::module::comp::lemma_extend_symbol(z, gamma::pair_rules(g), gamma::pair_rules(more), x);
}

/// The tracked tree variables keep their expansions when rules are added.
proof fn lemma_decodes_extend(z: Seq<u8>, g: Seq<(u32, u32)>, st: CodeState, d: DecodeState, more: Seq<(u32, u32)>)
    requires
        decodes(z, g, st, d),
        pairs_extend(more, d.g),
    ensures
        forall|k: int|
            0 <= k < st.f.len() && (#[trigger] st.f[k]) is Some ==> cfg::expand_symbol(
                z,
                gamma::pair_rules(more),
                st.f[k].unwrap() as int,
            ) == gamma::pair_expansion(z, g, z.len() + 1 + k),
{
    assert forall|k: int| 0 <= k < st.f.len() && (#[trigger] st.f[k]) is Some implies cfg::expand_symbol(
        z,
        gamma::pair_rules(more),
        st.f[k].unwrap() as int,
    ) == gamma::pair_expansion(z, g, z.len() + 1 + k) by {
        lemma_pairs_extend_symbol(z, d.g, more, st.f[k].unwrap() as int);
    }
}

/// Reading the bits that writing symbol `x` adds writes the bytes of `x`
/// and pushes one symbol that expands as `x` does.
#[verifier::spinoff_prover]
#[verifier::rlimit(40)]
proof fn lemma_decode_symbol(
    z: Seq<u8>,
    g: Seq<(u32, u32)>,
    tb: Seq<bool>,
    lb: Seq<u32>,
    x: int,
    depth: nat,
    st: CodeState,
    d: DecodeState,
) -> (y: u32)
    requires
        gamma::pair_expand(z, g, x, depth) is Some,
        ({
            let st2 = code_symbol(z.len(), g, x, depth, st);
            &&& st2.b.len() <= tb.len()
            &&& tb.subrange(0, st2.b.len() as int) == st2.b
            &&& st2.l.len() <= lb.len()
            &&& lb.subrange(0, st2.l.len() as int) == st2.l
            &&& st2.i <= u32::MAX
        }),
        tree_decode(tb, lb, z, st.b.len() as int) == Some(d),
        decodes(z, g, st, d),
    ensures
        ({
            let st2 = code_symbol(z.len(), g, x, depth, st);
            let d2 = tree_decode(tb, lb, z, st2.b.len() as int);
            &&& d2 is Some
            &&& d2.unwrap().stack == d.stack.push(y)
            &&& d2.unwrap().out == d.out + gamma::pair_expansion(z, g, x)
            &&& pairs_extend(d2.unwrap().g, d.g)
            &&& decodes(z, g, st2, d2.unwrap())
            &&& 1 <= y < st2.i
            &&& cfg::expand_symbol(z, gamma::pair_rules(d2.unwrap().g), y as int) == gamma::pair_expansion(z, g, x)
        }),
    decreases depth,
{
    gamma::lemma_pair_expansion(z, g, x, depth);
    let zlen = z.len();
    let st2 = code_symbol(zlen, g, x, depth, st);
    let n0 = st.b.len() as int;
    if x <= zlen {
        assert(st2.b.subrange(0, n0) =~= st.b);
        assert(tb[n0] == st2.b[n0]);
        assert(lb[d.di] == st2.l[st.l.len() as int]);
        let d2 = tree_decode(tb, lb, z, n0 + 1).unwrap();
        assert(d2.g =~= d.g);
        x as u32
    } else {
        let k = x - zlen - 1;
        match st.f[k] {
            Some(yy) => {
                assert(tb[n0] == st2.b[n0]);
                assert(lb[d.di] == st2.l[st.l.len() as int]);
                let d2 = tree_decode(tb, lb, z, n0 + 1).unwrap();
                assert(d2.g =~= d.g);
                yy
            },
            None => {
                let bg = g[k];
                gamma::lemma_pair_expansion(z, g, bg.0 as int, (depth - 1) as nat);
                gamma::lemma_pair_expansion(z, g, bg.1 as int, (depth - 1) as nat);
                let s1 = code_symbol(zlen, g, bg.0 as int, (depth - 1) as nat, st);
                let s2 = code_symbol(zlen, g, bg.1 as int, (depth - 1) as nat, s1);
                lemma_code_symbol_continues(zlen, g, bg.0 as int, (depth - 1) as nat, st);
                lemma_code_symbol_continues(zlen, g, bg.1 as int, (depth - 1) as nat, s1);
                assert(code_continues(st2, s2)) by {
                    assert(st2.b.subrange(0, s2.b.len() as int) =~= s2.b);
                    assert(st2.l.subrange(0, s2.l.len() as int) =~= s2.l);
                }
                lemma_code_continues_trans(s1, s2, st2);
                assert(tb.subrange(0, s1.b.len() as int) =~= st2.b.subrange(0, s1.b.len() as int));
                assert(lb.subrange(0, s1.l.len() as int) =~= st2.l.subrange(0, s1.l.len() as int));
                assert(tb.subrange(0, s2.b.len() as int) =~= st2.b.subrange(0, s2.b.len() as int));
                assert(lb.subrange(0, s2.l.len() as int) =~= st2.l.subrange(0, s2.l.len() as int));
                let y1 = lemma_decode_symbol(z, g, tb, lb, bg.0 as int, (depth - 1) as nat, st, d);
                let d1 = tree_decode(tb, lb, z, s1.b.len() as int).unwrap();
                let y2 = lemma_decode_symbol(z, g, tb, lb, bg.1 as int, (depth - 1) as nat, s1, d1);
                let d2s = tree_decode(tb, lb, z, s2.b.len() as int).unwrap();
                let m = s2.b.len() as int;
                assert(tb[m] == st2.b[m]);
                let d2 = tree_decode(tb, lb, z, m + 1).unwrap();
                let kk = d2s.stack.len() as int;
                assert(d2s.stack[kk - 2] == y1 && d2s.stack[kk - 1] == y2);
                assert(d2.g == d2s.g.push((y1, y2)));
                assert(d2.stack =~= d.stack.push(s2.i as u32));
                assert(pairs_extend(d2.g, d2s.g));
                assert(cfg::rules_wf(zlen, gamma::pair_rules(d2.g))) by {
                    let r = gamma::pair_rules(d2.g);
                    assert forall|a: int, j: int| 0 <= a < r.len() && 0 <= j < r[a].len() implies 1 <= #[trigger] r[a][j]
                        <= zlen + a by {
                        if a < d2s.g.len() {
                            assert(d2.g[a] == d2s.g[a]);
                            assert(r[a] == gamma::pair_rules(d2s.g)[a]);
                        }
                    }
                }
                lemma_pairs_extend_symbol(z, d1.g, d2s.g, y1 as int);
                lemma_pairs_extend_symbol(z, d2s.g, d2.g, y1 as int);
                lemma_pairs_extend_symbol(z, d2s.g, d2.g, y2 as int);
                let v = s2.i;
                assert(gamma::pair_rules(d2.g)[v - zlen - 1] == seq![y1, y2]);
                assert(cfg::expand_symbol(z, gamma::pair_rules(d2.g), v) == cfg::expand_symbols(
                    z,
                    gamma::pair_rules(d2.g),
                    seq![y1, y2],
                    v,
                ));
                crate::module::comp::lemma_expand_pair(z, gamma::pair_rules(d2.g), y1, y2, v);
                assert(gamma::pair_expansion(z, g, x) == gamma::pair_expansion(z, g, bg.0 as int) + gamma::pair_expansion(
                    z,
                    g,
                    bg.1 as int,
                ));
                lemma_decodes_extend(z, g, s2, d2s, d2.g);
                assert(decodes(z, g, st2, d2)) by {
                    assert forall|a: int| 0 <= a < st2.f.len() && (#[trigger] st2.f[a]) is Some implies {
                        &&& zlen < st2.f[a].unwrap() < st2.i
                        &&& cfg::expand_symbol(z, gamma::pair_rules(d2.g), st2.f[a].unwrap() as int) == gamma::pair_expansion(z, g, zlen + 1 + a)
                    } by {
                        if a != k {
                            assert(st2.f[a] == s2.f[a]);
                        }
                    }
                }
                assert(d2.out =~= d.out + gamma::pair_expansion(z, g, x));
                assert(pairs_extend(d2.g, d.g));
                v as u32
            },
        }
    }
}

/// Reading the bits of the first `n` sequence symbols writes their bytes and
/// leaves one symbol on the stack.
proof fn lemma_decode_sequence(
    z: Seq<u8>,
    g: Seq<(u32, u32)>,
    s: Seq<u32>,
    tb: Seq<bool>,
    lb: Seq<u32>,
    n: int,
    depth: nat,
) -> (y: u32)
    requires
        forall|j: int| 0 <= j < s.len() ==> (#[trigger] gamma::pair_expand(z, g, s[j] as int, depth)) is Some,
        1 <= n <= s.len(),
        z.len() + 1 <= u32::MAX,
        ({
            let cn = code_sequence(z.len(), g, s, n, depth, code_start(z.len(), g.len()));
            &&& cn.b.len() <= tb.len()
            &&& tb.subrange(0, cn.b.len() as int) == cn.b
            &&& cn.l.len() <= lb.len()
            &&& lb.subrange(0, cn.l.len() as int) == cn.l
            &&& cn.i <= u32::MAX
        }),
    ensures
        ({
            let cn = code_sequence(z.len(), g, s, n, depth, code_start(z.len(), g.len()));
            let d = tree_decode(tb, lb, z, cn.b.len() as int);
            &&& d is Some
            &&& d.unwrap().stack == seq![y]
            &&& decodes(z, g, cn, d.unwrap())
            &&& 1 <= y < cn.i
            &&& d.unwrap().out == gamma::pair_expansions(z, g, s.take(n))
        }),
    decreases n,
{
    let zlen = z.len();
    let st0 = code_start(zlen, g.len());
    let p = code_sequence(zlen, g, s, n - 1, depth, st0);
    let x = s[n - 1];
    assert(gamma::pair_expand(z, g, s[n - 1] as int, depth) is Some);
    let s1 = code_symbol(zlen, g, x as int, depth, p);
    let cn = code_sequence(zlen, g, s, n, depth, st0);
    lemma_code_symbol_continues(zlen, g, x as int, depth, p);
    assert(code_continues(cn, s1)) by {
        assert(cn.b.subrange(0, s1.b.len() as int) =~= s1.b);
        assert(cn.l.subrange(0, s1.l.len() as int) =~= s1.l);
    }
    assert(tb.subrange(0, s1.b.len() as int) =~= cn.b.subrange(0, s1.b.len() as int));
    assert(lb.subrange(0, s1.l.len() as int) =~= cn.l.subrange(0, s1.l.len() as int));
    lemma_code_continues_trans(p, s1, cn);
    assert(tb.subrange(0, p.b.len() as int) =~= cn.b.subrange(0, p.b.len() as int));
    assert(lb.subrange(0, p.l.len() as int) =~= cn.l.subrange(0, p.l.len() as int));
    assert(tb.subrange(0, p.b.len() as int) =~= p.b);
    assert(lb.subrange(0, p.l.len() as int) =~= p.l);
    assert(s.take(n).drop_last() =~= s.take(n - 1));
    if n == 1 {
        let d0 = tree_decode(tb, lb, z, 0).unwrap();
        assert(p == st0);
        assert(decodes(z, g, st0, d0)) by {
            assert(gamma::pair_rules(d0.g) =~= Seq::<Seq<u32>>::empty());
        }
        let y = lemma_decode_symbol(z, g, tb, lb, x as int, depth, st0, d0);
        assert(s.take(1) =~= seq![x]);
        assert(seq![x].drop_last() =~= Seq::<u32>::empty());
        assert(d0.out =~= Seq::<u8>::empty());
        let d1 = tree_decode(tb, lb, z, cn.b.len() as int).unwrap();
        assert(d1.stack =~= seq![y]);
        assert(d1.out =~= gamma::pair_expansion(z, g, x as int));
        assert(gamma::pair_expansions(z, g, Seq::<u32>::empty()) =~= Seq::<u8>::empty());
        assert(seq![x].last() == x);
        assert(d1.out =~= gamma::pair_expansions(z, g, s.take(n)));
        y
    } else {
        lemma_code_sequence_continues(zlen, g, s, n - 1, n - 1, depth, st0);
        let y1 = lemma_decode_sequence(z, g, s, tb, lb, n - 1, depth);
        let dp = tree_decode(tb, lb, z, p.b.len() as int).unwrap();
        let y2 = lemma_decode_symbol(z, g, tb, lb, x as int, depth, p, dp);
        let d1 = tree_decode(tb, lb, z, s1.b.len() as int).unwrap();
        let m = s1.b.len() as int;
        assert(tb[m] == cn.b[m]);
        let dn = tree_decode(tb, lb, z, m + 1).unwrap();
        assert(d1.stack =~= seq![y1, y2]);
        assert(dn.g == d1.g.push((y1, y2)));
        assert(dn.stack =~= seq![s1.i as u32]);
        assert(pairs_extend(dn.g, d1.g));
        assert(cfg::rules_wf(zlen, gamma::pair_rules(dn.g))) by {
            let r = gamma::pair_rules(dn.g);
            assert forall|a: int, j: int| 0 <= a < r.len() && 0 <= j < r[a].len() implies 1 <= #[trigger] r[a][j]
                <= zlen + a by {
                if a < d1.g.len() {
                    assert(dn.g[a] == d1.g[a]);
                    assert(r[a] == gamma::pair_rules(d1.g)[a]);
                }
            }
        }
        lemma_decodes_extend(z, g, s1, d1, dn.g);
        assert(decodes(z, g, cn, dn)) by {
            assert forall|a: int| 0 <= a < cn.f.len() && (#[trigger] cn.f[a]) is Some implies {
                &&& zlen < cn.f[a].unwrap() < cn.i
                &&& cfg::expand_symbol(z, gamma::pair_rules(dn.g), cn.f[a].unwrap() as int) == gamma::pair_expansion(z, g, zlen + 1 + a)
            } by {
                assert(cn.f[a] == s1.f[a]);
            }
        }
        assert(dn.out == d1.out);
        assert(d1.out =~= gamma::pair_expansions(z, g, s.take(n)));
        s1.i as u32
    }
}

/// Reading the tree that the writer produces, with its closing bit and its
/// labels, writes the string that the sequence of the pair grammar derives,
/// when the derivation of every sequence symbol ends (rules may refer to
/// later rules, as long as no cycle is met) and the tree variables stay
/// below `u32::MAX`.
pub proof fn lemma_poppt_tree_decode(z: Seq<u8>, g: Seq<(u32, u32)>, s: Seq<u32>)
    requires
        gamma::pairs_expand(z, g, s),
        s.len() >= 1,
        tree_of(z.len(), g, s).i < u32::MAX,
    ensures
        ({
            let t = tree_of(z.len(), g, s);
            let d = tree_decode(t.b.push(true), t.l, z, t.b.len() + 1 as int);
            &&& d is Some
            &&& d.unwrap().out == gamma::pair_expansions(z, g, s)
        }),
{
    let t = tree_of(z.len(), g, s);
    let tb = t.b.push(true);
    let n = s.len() as int;
    let depth = tree_fuel(z.len(), g, s);
    lemma_expanding_fuel(z, g, s);
    lemma_code_sequence_continues(z.len(), g, s, n, 0, depth, code_start(z.len(), g.len()));
    assert(tb.subrange(0, t.b.len() as int) =~= t.b);
    assert(t.l.subrange(0, t.l.len() as int) =~= t.l);
    let y = lemma_decode_sequence(z, g, s, tb, t.l, n, depth);
    let d = tree_decode(tb, t.l, z, t.b.len() as int).unwrap();
    assert(tb[t.b.len() as int]);
    assert(s.take(n) =~= s);
}


/// Leaves minus inner nodes.
pub open spec fn balance(b: Seq<bool>) -> int
    decreases b.len(),
{
    if b.len() == 0 {
        0
    } else {
        balance(b.drop_last()) + if b.last() {
            -1int
        } else {
            1int
        }
    }
}

/// The bits of one whole subtree: one more leaf than inner nodes, and more
/// leaves than inner nodes in every nonempty prefix.
pub open spec fn unit_tree(b: Seq<bool>) -> bool {
    &&& balance(b) == 1
    &&& forall|p: int| 1 <= p <= b.len() ==> balance(#[trigger] b.take(p)) >= 1
}

proof fn lemma_balance_concat(a: Seq<bool>, b: Seq<bool>)
    ensures
        balance(a + b) == balance(a) + balance(b),
    decreases b.len(),
{
    if b.len() == 0 {
        assert(a + b =~= a);
    } else {
        lemma_balance_concat(a, b.drop_last());
        assert((a + b).drop_last() =~= a + b.drop_last());
    }
}

/// Two whole subtrees joined by an inner node make a whole subtree.
proof fn lemma_unit_join(a: Seq<bool>, b: Seq<bool>)
    requires
        unit_tree(a),
        unit_tree(b),
    ensures
        unit_tree((a + b).push(true)),
{
    let c = (a + b).push(true);
    lemma_balance_concat(a, b);
    assert(c.drop_last() =~= a + b);
    assert forall|p: int| 1 <= p <= c.len() implies balance(#[trigger] c.take(p)) >= 1 by {
        if p <= a.len() {
            assert(c.take(p) =~= a.take(p));
        } else if p <= a.len() + b.len() {
            assert(c.take(p) =~= a + b.take(p - a.len()));
            lemma_balance_concat(a, b.take(p - a.len()));
        } else {
            assert(c.take(p) =~= c);
        }
    }
}

/// Writing a valid symbol adds the bits of one whole subtree.
proof fn lemma_code_symbol_unit(zlen: nat, g: Seq<(u32, u32)>, x: int, depth: nat, st: CodeState)
    requires
        code_depth_ok(zlen, g, x, depth),
        st.f.len() == g.len(),
    ensures
        ({
            let r = code_symbol(zlen, g, x, depth, st);
            &&& st.b.len() <= r.b.len()
            &&& r.b == st.b + r.b.subrange(st.b.len() as int, r.b.len() as int)
            &&& unit_tree(r.b.subrange(st.b.len() as int, r.b.len() as int))
        }),
    decreases depth,
{
    let r = code_symbol(zlen, g, x, depth, st);
    let n0 = st.b.len() as int;
    let leaf = seq![false];
    assert(balance(leaf.drop_last()) == 0) by {
        assert(leaf.drop_last() =~= Seq::<bool>::empty());
    }
    assert(unit_tree(leaf)) by {
        assert forall|p: int| 1 <= p <= leaf.len() implies balance(#[trigger] leaf.take(p)) >= 1 by {
            assert(leaf.take(p) =~= leaf);
        }
    }
    if x <= zlen || st.f[x - zlen - 1] is Some {
        assert(r.b.subrange(n0, r.b.len() as int) =~= leaf);
        assert(r.b =~= st.b + leaf);
    } else {
        let k = x - zlen - 1;
        let bg = g[k];
        let s1 = code_symbol(zlen, g, bg.0 as int, (depth - 1) as nat, st);
        lemma_code_symbol_continues(zlen, g, bg.0 as int, (depth - 1) as nat, st);
        let s2 = code_symbol(zlen, g, bg.1 as int, (depth - 1) as nat, s1);
        lemma_code_symbol_unit(zlen, g, bg.0 as int, (depth - 1) as nat, st);
        lemma_code_symbol_unit(zlen, g, bg.1 as int, (depth - 1) as nat, s1);
        let a = s1.b.subrange(n0, s1.b.len() as int);
        let b = s2.b.subrange(s1.b.len() as int, s2.b.len() as int);
        lemma_unit_join(a, b);
        assert(r.b =~= st.b + (a + b).push(true));
        assert(r.b.subrange(n0, r.b.len() as int) =~= (a + b).push(true));
    }
}

/// Writing a valid symbol writes at least one label.
proof fn lemma_code_symbol_labels(zlen: nat, g: Seq<(u32, u32)>, x: int, depth: nat, st: CodeState)
    requires
        code_depth_ok(zlen, g, x, depth),
        st.f.len() == g.len(),
    ensures
        code_symbol(zlen, g, x, depth, st).l.len() > st.l.len(),
    decreases depth,
{
    if zlen < x && st.f[x - zlen - 1] is None {
        let k = x - zlen - 1;
        let bg = g[k];
        let s1 = code_symbol(zlen, g, bg.0 as int, (depth - 1) as nat, st);
        lemma_code_symbol_labels(zlen, g, bg.0 as int, (depth - 1) as nat, st);
        lemma_code_symbol_continues(zlen, g, bg.0 as int, (depth - 1) as nat, st);
        lemma_code_symbol_continues(zlen, g, bg.1 as int, (depth - 1) as nat, s1);
    }
}

/// The tree of a nonempty sequence is one whole subtree.
proof fn lemma_code_sequence_unit(zlen: nat, g: Seq<(u32, u32)>, s: Seq<u32>, n: int, depth: nat)
    requires
        fuel_ok(zlen, g, s, depth),
        1 <= n <= s.len(),
    ensures
        unit_tree(code_sequence(zlen, g, s, n, depth, code_start(zlen, g.len())).b),
        code_sequence(zlen, g, s, n, depth, code_start(zlen, g.len())).f.len() == g.len(),
    decreases n,
{
    let st0 = code_start(zlen, g.len());
    let p = code_sequence(zlen, g, s, n - 1, depth, st0);
    lemma_code_sequence_continues(zlen, g, s, n - 1, 0, depth, st0);
    assert(code_depth_ok(zlen, g, s[n - 1] as int, depth));
    lemma_code_symbol_unit(zlen, g, s[n - 1] as int, depth, p);
    lemma_code_symbol_continues(zlen, g, s[n - 1] as int, depth, p);
    let r = code_symbol(zlen, g, s[n - 1] as int, depth, p);
    let piece = r.b.subrange(p.b.len() as int, r.b.len() as int);
    if n == 1 {
        assert(p.b =~= Seq::<bool>::empty());
        assert(r.b =~= piece);
    } else {
        lemma_code_sequence_unit(zlen, g, s, n - 1, depth);
        lemma_unit_join(p.b, piece);
        assert(code_sequence(zlen, g, s, n, depth, st0).b =~= (p.b + piece).push(true));
    }
}

/// `balance_end` stops at the first later position where the balance is zero.
proof fn lemma_balance_end(bits: Seq<bool>, k: int, t: int, len: int)
    requires
        0 <= k < len <= bits.len(),
        t == balance(bits.take(k)),
        forall|p: int| k < p < len ==> balance(#[trigger] bits.take(p)) != 0,
        balance(bits.take(len)) == 0,
    ensures
        balance_end(bits, k, t) == len,
    decreases len - k,
{
    assert(bits.take(k + 1).drop_last() =~= bits.take(k));
    if k + 1 < len {
        lemma_balance_end(bits, k + 1, balance(bits.take(k + 1)), len);
    }
}

/// Reading zero-ended bytes back.
proof fn lemma_zero_ended(bits: Seq<bool>, pos: int, z: Seq<u8>, k: int)
    requires
        0 <= pos,
        0 <= k <= z.len(),
        pos + 8 * z.len() + 8 <= bits.len(),
        bits.subrange(pos, pos + 8 * z.len() + 8) == bits::join(gamma::byte_parts(z)) + bits::field_bits(0, 8),
        forall|j: int| 0 <= j < z.len() ==> z[j] != 0,
    ensures
        zero_ended(bits, pos + 8 * k) == (z.subrange(k, z.len() as int), pos + 8 * z.len() + 8, true),
    decreases z.len() - k,
{
    bits::lemma_two_to_values();
    let parts = gamma::byte_parts(z);
    assert forall|i: int| 0 <= i < parts.len() implies (#[trigger] parts[i]).len() == 8 by {
        bits::lemma_field_len(z[i] as nat, 8);
    }
    bits::lemma_join_len(parts, 8);
    bits::lemma_field_len(0, 8);
    let at = pos + 8 * k;
    if k == z.len() {
        assert(bits.subrange(at, at + 8) =~= bits.subrange(pos, pos + 8 * z.len() + 8).subrange(8 * k, 8 * k + 8));
        assert(bits.subrange(at, at + 8) =~= bits::field_bits(0, 8));
        bits::lemma_field_roundtrip(0, 8);
        assert(z.subrange(k, z.len() as int) =~= Seq::<u8>::empty());
    } else {
        bits::lemma_join_uniform(parts, 8, k);
        assert(bits.subrange(at, at + 8) =~= bits.subrange(pos, pos + 8 * z.len() + 8).subrange(8 * k, 8 * k + 8));
        assert(bits.subrange(at, at + 8) =~= parts[k]);
        bits::lemma_field_roundtrip(z[k] as nat, 8);
        lemma_zero_ended(bits, pos, z, k + 1);
        assert(pos + 8 * (k + 1) == at + 8);
        assert(z.subrange(k, z.len() as int) =~= seq![z[k]] + z.subrange(k + 1, z.len() as int));
    }
}

/// Reading fields of one width back, as whole chunks up to the end.
proof fn lemma_chunks_fields(bits: Seq<bool>, start: int, w: nat, xs: Seq<u32>, k: int, count: int)
    requires
        0 <= start,
        1 <= w <= 32,
        0 <= k <= xs.len(),
        count >= xs.len() - k,
        bits.len() == start + w * xs.len(),
        bits.subrange(start, bits.len() as int) == bits::join(gamma::field_parts(xs, w)),
        forall|j: int| 0 <= j < xs.len() ==> (xs[j] as nat) < bits::two_to(w),
    ensures
        bits::chunks(bits, start + w * k, w as int, count) == xs.subrange(k, xs.len() as int),
    decreases xs.len() - k,
{
    let parts = gamma::field_parts(xs, w);
    assert forall|i: int| 0 <= i < parts.len() implies (#[trigger] parts[i]).len() == w by {
        bits::lemma_field_len(xs[i] as nat, w);
    }
    bits::lemma_join_len(parts, w);
    let at = start + w * k;
    if k == xs.len() {
        assert(xs.subrange(k, xs.len() as int) =~= Seq::<u32>::empty());
    } else {
        assert(w * k + w <= w * xs.len()) by (nonlinear_arith)
            requires
                k + 1 <= xs.len(),
        ;
        assert(w * (k + 1) == w * k + w) by (nonlinear_arith);
        bits::lemma_join_uniform(parts, w, k);
        assert(bits.subrange(at, at + w) =~= bits.subrange(start, bits.len() as int).subrange(w * k, w * k + w));
        bits::lemma_field_roundtrip(xs[k] as nat, w);
        assert(bits::part(bits, at, at + w) =~= bits.subrange(at, at + w));
        lemma_chunks_fields(bits, start, w, xs, k + 1, count - 1);
        assert(xs.subrange(k, xs.len() as int) =~= seq![xs[k]] + xs.subrange(k + 1, xs.len() as int));
    }
}

/// Cutting the code of a pair grammar into its pieces gives back the tree
/// with its closing bit, the terminals and the labels, when no terminal is
/// the zero byte and every label fits in the label width.
pub proof fn lemma_poppt_layout(z: Seq<u8>, g: Seq<(u32, u32)>, s: Seq<u32>)
    requires
        forall|j: int| 0 <= j < s.len() ==> code_ends(z.len(), g, #[trigger] s[j] as int),
        s.len() >= 1,
        forall|j: int| 0 <= j < z.len() ==> z[j] != 0,
        ({
            let t = tree_of(z.len(), g, s);
            &&& t.l.len() < 0x1_0000_0000
            &&& forall|j: int| 0 <= j < t.l.len() ==> (t.l[j] as nat) < bits::two_to(gamma::bit_length(t.l.len()))
        }),
    ensures
        ({
            let t = tree_of(z.len(), g, s);
            poppt_parts(poppt_code(z, g, s)) == (t.b.push(true), z, t.l)
        }),
{
    bits::lemma_two_to_values();
    let t = tree_of(z.len(), g, s);
    let logn = gamma::bit_length(t.l.len());
    let tb = t.b.push(true);
    let zb = bits::join(gamma::byte_parts(z));
    let lb = bits::join(gamma::field_parts(t.l, logn));
    let code = poppt_code(z, g, s);
    assert(code == tb + zb + bits::field_bits(0, 8) + bits::field_bits(logn, 8) + lb);
    // the tree
    let depth = tree_fuel(z.len(), g, s);
    lemma_tree_fuel(z.len(), g, s);
    lemma_code_sequence_unit(z.len(), g, s, s.len() as int, depth);
    lemma_balance_concat(t.b, seq![true]);
    assert(tb =~= t.b + seq![true]);
    assert(balance(seq![true].drop_last()) == 0) by {
        assert(seq![true].drop_last() =~= Seq::<bool>::empty());
    }
    assert forall|p: int| 0 < p < tb.len() implies balance(#[trigger] code.take(p)) != 0 by {
        assert(code.take(p) =~= t.b.take(p));
    }
    assert(code.take(tb.len() as int) =~= tb);
    assert(code.take(0) =~= Seq::<bool>::empty());
    lemma_balance_end(code, 0, 0, tb.len() as int);
    let p1 = tb.len() as int;
    assert(code.take(p1) =~= tb);
    // the terminals
    let parts = gamma::byte_parts(z);
    assert forall|i: int| 0 <= i < parts.len() implies (#[trigger] parts[i]).len() == 8 by {
        bits::lemma_field_len(z[i] as nat, 8);
    }
    bits::lemma_join_len(parts, 8);
    bits::lemma_field_len(0, 8);
    bits::lemma_field_len(logn, 8);
    let lparts = gamma::field_parts(t.l, logn);
    assert forall|i: int| 0 <= i < lparts.len() implies (#[trigger] lparts[i]).len() == logn by {
        bits::lemma_field_len(t.l[i] as nat, logn);
    }
    bits::lemma_join_len(lparts, logn);
    let zend = p1 + 8 * z.len() + 8;
    assert(code.subrange(p1, zend) =~= zb + bits::field_bits(0, 8));
    lemma_zero_ended(code, p1, z, 0);
    assert(z.subrange(0, z.len() as int) =~= z);
    // the label width and the labels
    gamma::lemma_bit_length_below(t.l.len(), 32);
    assert(logn >= 1) by {
        let st0 = code_start(z.len(), g.len());
        lemma_code_sequence_continues(z.len(), g, s, s.len() as int, 1, depth, st0);
        assert(code_depth_ok(z.len(), g, s[0] as int, depth));
        lemma_code_symbol_labels(z.len(), g, s[0] as int, depth, st0);
        assert(code_sequence(z.len(), g, s, 0, depth, st0) == st0);
        assert(code_sequence(z.len(), g, s, 1, depth, st0) == code_symbol(z.len(), g, s[0] as int, depth, st0));
    }
    assert(logn <= 32);
    bits::lemma_field_roundtrip(logn, 8);
    assert(bits::part(code, zend, zend + 8) =~= bits::field_bits(logn, 8));
    assert(code.subrange(zend + 8, code.len() as int) =~= lb);
    assert(logn * t.l.len() >= t.l.len()) by (nonlinear_arith)
        requires
            logn >= 1,
    ;
    lemma_chunks_fields(code, zend + 8, logn, t.l, 0, code.len() as int);
    assert(t.l.subrange(0, t.l.len() as int) =~= t.l);
}


/// Decoding the code of a pair grammar gives the string that its sequence
/// derives: cutting the code into its pieces and reading the tree writes
/// exactly those bytes. This holds when the sequence is nonempty and the
/// derivation of each of its symbols ends (rules may refer to later rules,
/// as long as no cycle is met), no terminal is the zero byte (which ends
/// the terminals), every
/// label fits in the label width (the bit length of the number of labels),
/// and the tree variables stay below `u32::MAX`.
pub proof fn lemma_poppt_roundtrip(z: Seq<u8>, g: Seq<(u32, u32)>, s: Seq<u32>)
    requires
        gamma::pairs_expand(z, g, s),
        s.len() >= 1,
        forall|j: int| 0 <= j < z.len() ==> z[j] != 0,
        ({
            let t = tree_of(z.len(), g, s);
            &&& t.i < u32::MAX
            &&& t.l.len() < 0x1_0000_0000
            &&& forall|j: int| 0 <= j < t.l.len() ==> (t.l[j] as nat) < bits::two_to(gamma::bit_length(t.l.len()))
        }),
    ensures
        ({
            let p = poppt_parts(poppt_code(z, g, s));
            let d = tree_decode(p.0, p.2, p.1, p.0.len() as int);
            &&& d is Some
            &&& d.unwrap().out == gamma::pair_expansions(z, g, s)
        }),
{
    lemma_expanding_fuel(z, g, s);
    assert forall|j: int| 0 <= j < s.len() implies code_ends(z.len(), g, #[trigger] s[j] as int) by {
        assert(code_depth_ok(z.len(), g, s[j] as int, tree_fuel(z.len(), g, s)));
    }
    lemma_poppt_layout(z, g, s);
    lemma_poppt_tree_decode(z, g, s);
}

} // verus!
