//! Post-order partial parse trees: a grammar written as a bit sequence
//! (`false` for a leaf, `true` for an inner node that joins the two subtrees
//! before it), the labels of the leaves in order, and the terminals.
use vstd::prelude::*;
use bit_vec::BitVec;
use crate::bits;
use crate::bits::{bv_get, bv_len, bv_new};
use crate::module::cfg;
use crate::module::cfg::{Grammar, GrammarView};
use crate::module::comp;

verus! {

#[derive(Debug)]
pub struct POPPT {
    pub bit: BitVec,
    pub label: Vec<u32>,
    pub terminal: Vec<u8>,
}

/// The state of a reader of a tree: the rules built so far, the stack of
/// symbols of the finished subtrees, the number of labels used, and the next
/// fresh variable.
pub struct ReadState {
    pub rules: Seq<Seq<u32>>,
    pub stack: Seq<u32>,
    pub used: nat,
    pub var: int,
}

/// Reading the bits `bits` with leaf labels `labels`, fresh variables
/// starting at `var0`: a leaf pushes the next label; an inner node pops two
/// symbols `a` (the top) and `b`, adds the rule `[b, a]` for a fresh variable
/// and pushes that variable. `None` when a node lacks operands, a leaf lacks
/// a label, or the variables pass `u32::MAX`.
pub open spec fn read_tree(bits: Seq<bool>, labels: Seq<u32>, var0: int) -> Option<ReadState>
    decreases bits.len(),
{
    if bits.len() == 0 {
        Some(ReadState { rules: Seq::empty(), stack: Seq::empty(), used: 0, var: var0 })
    } else {
        match read_tree(bits.drop_last(), labels, var0) {
            None => None,
            Some(st) => {
                if bits.last() {
                    if st.stack.len() < 2 || st.var >= u32::MAX {
                        None
                    } else {
                        let n = st.stack.len();
                        Some(
                            ReadState {
                                rules: st.rules.push(seq![st.stack[n - 2], st.stack[n - 1]]),
                                stack: st.stack.subrange(0, n - 2).push(st.var as u32),
                                used: st.used,
                                var: st.var + 1,
                            },
                        )
                    }
                } else {
                    if st.used >= labels.len() {
                        None
                    } else {
                        Some(
                            ReadState {
                                rules: st.rules,
                                stack: st.stack.push(labels[st.used as int]),
                                used: st.used + 1,
                                var: st.var,
                            },
                        )
                    }
                }
            },
        }
    }
}

impl POPPT {
    /// An empty tree.
    pub fn new() -> (p: Self)
        ensures
            bits::bits_of(p.bit).len() == 0,
            p.label@.len() == 0,
            p.terminal@.len() == 0,
    {
        Self { bit: bv_new(), label: Vec::new(), terminal: Vec::new() }
    }

    /// Writes the tree as a grammar: the terminals become those of `g`, the
    /// rules read from the tree are appended to those of `g`, and the
    /// sequence of `g` becomes the last variable.
    pub fn to_grammar(&self, g: &mut Grammar)
        requires
            self.terminal@.len() < u32::MAX,
            read_tree(bits::bits_of(self.bit), self.label@, self.terminal@.len() as int + 1) is Some,
        ensures
            ({
                let st = read_tree(bits::bits_of(self.bit), self.label@, self.terminal@.len() as int + 1).unwrap();
                &&& final(g)@.terminal == self.terminal@
                &&& final(g)@.rule == old(g)@.rule + st.rules
                &&& final(g)@.sequence == seq![(st.var - 1) as u32]
            }),
    {
        let ghost b = bits::bits_of(self.bit);
        let ghost r0 = g@.rule;
        let mut stack: Vec<u32> = Vec::new();
        let mut var: u32 = self.terminal.len() as u32 + 1;
        g.terminal = self.terminal.clone();
        assert(g.terminal@ =~= self.terminal@);
        let n = bv_len(&self.bit);
        let nl = self.label.len();
        let mut i: usize = 0;
        let mut k: usize = 0;
        assert(b.take(0) =~= Seq::<bool>::empty());
        assert(g@.rule.subrange(r0.len() as int, g@.rule.len() as int) =~= Seq::<Seq<u32>>::empty());
        assert(g@.rule.subrange(0, r0.len() as int) =~= r0);
        while k < n
            invariant
                b == bits::bits_of(self.bit),
                n == b.len(),
                k <= n,
                self.terminal@.len() < u32::MAX,
                read_tree(b, self.label@, self.terminal@.len() as int + 1) is Some,
                read_tree(b.take(k as int), self.label@, self.terminal@.len() as int + 1) is Some,
                read_tree(b.take(k as int), self.label@, self.terminal@.len() as int + 1).unwrap().rules
                    == g@.rule.subrange(r0.len() as int, g@.rule.len() as int),
                read_tree(b.take(k as int), self.label@, self.terminal@.len() as int + 1).unwrap().stack == stack@,
                read_tree(b.take(k as int), self.label@, self.terminal@.len() as int + 1).unwrap().used == i,
                read_tree(b.take(k as int), self.label@, self.terminal@.len() as int + 1).unwrap().var == var,
                var >= 1,
                nl == self.label@.len(),
                g@.rule.subrange(0, r0.len() as int) == r0,
                r0.len() <= g@.rule.len(),
                g@.terminal == self.terminal@,
            decreases n - k,
        {
            proof {
                lemma_read_prefix_some(b, self.label@, self.terminal@.len() as int + 1, k as int + 1);
                assert(b.take(k + 1).drop_last() =~= b.take(k as int));
            }
            let ghost rs = g@.rule;
            let bit = bv_get(&self.bit, k);
            if bit {
                let a = stack.pop().unwrap();
                let c = stack.pop().unwrap();
                let pair: Vec<u32> = vec![c, a];
                assert(pair@ =~= seq![c, a]);
                g.rule.push(pair);
                assert(g@.rule =~= rs.push(seq![c, a]));
                assert(g@.rule.subrange(0, r0.len() as int) =~= r0);
                assert(g@.rule.subrange(r0.len() as int, g@.rule.len() as int) =~= rs.subrange(r0.len() as int, rs.len() as int).push(seq![c, a]));
                stack.push(var);
                var = var + 1;
            } else {
                stack.push(self.label[i]);
                i = i + 1;
            }
            k = k + 1;
        }
        assert(b.take(n as int) =~= b);
        assert(g@.rule =~= r0 + g@.rule.subrange(r0.len() as int, g@.rule.len() as int));
        g.sequence = vec![var - 1];
        assert(g.sequence@ =~= seq![(var - 1) as u32]);
    }
}

/// Every rule that reading a tree builds has two symbols.
pub proof fn lemma_read_tree_pairs(bits: Seq<bool>, labels: Seq<u32>, var0: int)
    requires
        read_tree(bits, labels, var0) is Some,
    ensures
        forall|k: int|
            0 <= k < read_tree(bits, labels, var0).unwrap().rules.len() ==> (#[trigger] read_tree(
                bits,
                labels,
                var0,
            ).unwrap().rules[k]).len() == 2,
    decreases bits.len(),
{
    if bits.len() > 0 {
        lemma_read_tree_pairs(bits.drop_last(), labels, var0);
        let st = read_tree(bits.drop_last(), labels, var0).unwrap();
        let st2 = read_tree(bits, labels, var0).unwrap();
        assert forall|k: int| 0 <= k < st2.rules.len() implies (#[trigger] st2.rules[k]).len() == 2 by {
            if k < st.rules.len() {
                assert(st2.rules[k] == st.rules[k]);
            }
        }
    }
}

/// A successful reading succeeds on every prefix.
pub proof fn lemma_read_prefix_some(bits: Seq<bool>, labels: Seq<u32>, var0: int, k: int)
    requires
        0 <= k <= bits.len(),
        read_tree(bits, labels, var0) is Some,
    ensures
        read_tree(bits.take(k), labels, var0) is Some,
    decreases bits.len(),
{
    if k < bits.len() {
        lemma_read_prefix_some(bits.drop_last(), labels, var0, k);
        assert(bits.drop_last().take(k) =~= bits.take(k));
    } else {
        assert(bits.take(k) =~= bits);
    }
}


/// The state of a writer of a tree: bits, leaf labels and terminals written
/// so far, the symbol of the tree for each grammar symbol already written
/// (`memo[x - 1]` for symbol `x`), and the next fresh variable.
pub struct WriteState {
    pub bits: Seq<bool>,
    pub labels: Seq<u32>,
    pub terms: Seq<u8>,
    pub memo: Seq<Option<u32>>,
    pub var: int,
}

/// Writing symbol `x` of the grammar with terminals `z` and rules `rules`: a
/// symbol written before becomes a leaf with its tree symbol; a new terminal
/// becomes a leaf with a new tree terminal; a new rule writes its symbols in
/// order, then an inner node, and takes the next fresh variable.
pub open spec fn write_symbol(z: Seq<u8>, rules: Seq<Seq<u32>>, x: int, st: WriteState) -> WriteState
    decreases x, 1int, 0int,
{
    if !(1 <= x <= st.memo.len()) {
        st
    } else {
        match st.memo[x - 1] {
            Some(y) => WriteState { bits: st.bits.push(false), labels: st.labels.push(y), ..st },
            None => {
                if x <= z.len() {
                    let t = (st.terms.len() + 1) as u32;
                    WriteState {
                        bits: st.bits.push(false),
                        labels: st.labels.push(t),
                        terms: st.terms.push(z[x - 1]),
                        memo: st.memo.update(x - 1, Some(t)),
                        var: st.var,
                    }
                } else if x - z.len() - 1 < rules.len() {
                    let st2 = write_symbols(z, rules, rules[x - z.len() - 1], x, st);
                    WriteState {
                        bits: st2.bits.push(true),
                        memo: st2.memo.update(x - 1, Some(st2.var as u32)),
                        var: st2.var + 1,
                        ..st2
                    }
                } else {
                    st
                }
            },
        }
    }
}

/// Writing the symbols `xs` in order (those at or above `bound` are skipped).
pub open spec fn write_symbols(z: Seq<u8>, rules: Seq<Seq<u32>>, xs: Seq<u32>, bound: int, st: WriteState) -> WriteState
    decreases bound, 0int, xs.len(),
{
    if xs.len() == 0 {
        st
    } else {
        let st1 = write_symbols(z, rules, xs.drop_last(), bound, st);
        if (xs.last() as int) < bound {
            write_symbol(z, rules, xs.last() as int, st1)
        } else {
            st1
        }
    }
}

/// Writing the first `n` symbols of the sequence of `g`: each one after the
/// first is joined to the tree before it by an inner node, which takes the
/// next fresh variable.
pub open spec fn write_sequence(g: GrammarView, n: int, st: WriteState) -> WriteState
    decreases n,
{
    if n <= 0 {
        st
    } else if n == 1 {
        write_symbol(g.terminal, g.rule, g.sequence[0] as int, st)
    } else {
        let st1 = write_sequence(g, n - 1, st);
        let st2 = write_symbol(g.terminal, g.rule, g.sequence[n - 1] as int, st1);
        WriteState { bits: st2.bits.push(true), var: st2.var + 1, ..st2 }
    }
}

/// `st2` continues `st1`: what was written stays, the table keeps its size,
/// and the variables only grow.
pub open spec fn continues(st2: WriteState, st1: WriteState) -> bool {
    &&& st1.bits.len() <= st2.bits.len()
    &&& st2.bits.subrange(0, st1.bits.len() as int) == st1.bits
    &&& st1.labels.len() <= st2.labels.len()
    &&& st2.labels.subrange(0, st1.labels.len() as int) == st1.labels
    &&& st1.terms.len() <= st2.terms.len()
    &&& st2.terms.subrange(0, st1.terms.len() as int) == st1.terms
    &&& st2.memo.len() == st1.memo.len()
    &&& st1.var <= st2.var
}

/// Continuing is transitive.
pub proof fn lemma_continues_trans(a: WriteState, b: WriteState, c: WriteState)
    requires
        continues(b, a),
        continues(c, b),
    ensures
        continues(c, a),
{
    assert(c.bits.subrange(0, a.bits.len() as int) =~= b.bits.subrange(0, a.bits.len() as int));
    assert(c.labels.subrange(0, a.labels.len() as int) =~= b.labels.subrange(0, a.labels.len() as int));
    assert(c.terms.subrange(0, a.terms.len() as int) =~= b.terms.subrange(0, a.terms.len() as int));
}

/// Every state continues itself.
pub proof fn lemma_continues_refl(a: WriteState)
    ensures
        continues(a, a),
{
    assert(a.bits.subrange(0, a.bits.len() as int) =~= a.bits);
    assert(a.labels.subrange(0, a.labels.len() as int) =~= a.labels);
    assert(a.terms.subrange(0, a.terms.len() as int) =~= a.terms);
}

/// Writing only adds.
pub proof fn lemma_write_symbol_continues(z: Seq<u8>, rules: Seq<Seq<u32>>, x: int, st: WriteState)
    ensures
        continues(write_symbol(z, rules, x, st), st),
    decreases x, 1int, 0int,
{
    lemma_continues_refl(st);
    if 1 <= x <= st.memo.len() {
        match st.memo[x - 1] {
            Some(y) => {
                let r = write_symbol(z, rules, x, st);
                assert(r.bits.subrange(0, st.bits.len() as int) =~= st.bits);
                assert(r.labels.subrange(0, st.labels.len() as int) =~= st.labels);
            },
            None => {
                let r = write_symbol(z, rules, x, st);
                if x <= z.len() {
                    assert(r.bits.subrange(0, st.bits.len() as int) =~= st.bits);
                    assert(r.labels.subrange(0, st.labels.len() as int) =~= st.labels);
                    assert(r.terms.subrange(0, st.terms.len() as int) =~= st.terms);
                } else if x - z.len() - 1 < rules.len() {
                    let st2 = write_symbols(z, rules, rules[x - z.len() - 1], x, st);
                    lemma_write_symbols_continues(z, rules, rules[x - z.len() - 1], x, st);
                    assert(continues(r, st2)) by {
                        assert(r.bits.subrange(0, st2.bits.len() as int) =~= st2.bits);
                        assert(r.labels.subrange(0, st2.labels.len() as int) =~= st2.labels);
                        assert(r.terms.subrange(0, st2.terms.len() as int) =~= st2.terms);
                    }
                    lemma_continues_trans(st, st2, r);
                }
            },
        }
    }
}

/// Writing a list of symbols only adds.
pub proof fn lemma_write_symbols_continues(z: Seq<u8>, rules: Seq<Seq<u32>>, xs: Seq<u32>, bound: int, st: WriteState)
    ensures
        continues(write_symbols(z, rules, xs, bound, st), st),
    decreases bound, 0int, xs.len(),
{
    if xs.len() == 0 {
        lemma_continues_refl(st);
    } else {
        let st1 = write_symbols(z, rules, xs.drop_last(), bound, st);
        lemma_write_symbols_continues(z, rules, xs.drop_last(), bound, st);
        if (xs.last() as int) < bound {
            lemma_write_symbol_continues(z, rules, xs.last() as int, st1);
            lemma_continues_trans(st, st1, write_symbol(z, rules, xs.last() as int, st1));
        }
    }
}

/// Writing the sequence only adds.
pub proof fn lemma_write_sequence_continues(g: GrammarView, n: int, st: WriteState)
    ensures
        continues(write_sequence(g, n, st), st),
    decreases n,
{
    if n <= 0 {
        lemma_continues_refl(st);
    } else if n == 1 {
        lemma_write_symbol_continues(g.terminal, g.rule, g.sequence[0] as int, st);
    } else {
        let st1 = write_sequence(g, n - 1, st);
        let st2 = write_symbol(g.terminal, g.rule, g.sequence[n - 1] as int, st1);
        let st3 = write_sequence(g, n, st);
        lemma_write_sequence_continues(g, n - 1, st);
        lemma_write_symbol_continues(g.terminal, g.rule, g.sequence[n - 1] as int, st1);
        assert(continues(st3, st2)) by {
            assert(st3.bits.subrange(0, st2.bits.len() as int) =~= st2.bits);
            assert(st3.labels.subrange(0, st2.labels.len() as int) =~= st2.labels);
            assert(st3.terms.subrange(0, st2.terms.len() as int) =~= st2.terms);
        }
        lemma_continues_trans(st, st1, st2);
        lemma_continues_trans(st, st2, st3);
    }
}


/// Writing a list continues writing any prefix of it.
pub proof fn lemma_write_symbols_prefix(z: Seq<u8>, rules: Seq<Seq<u32>>, xs: Seq<u32>, bound: int, k: int, st: WriteState)
    requires
        0 <= k <= xs.len(),
    ensures
        continues(write_symbols(z, rules, xs, bound, st), write_symbols(z, rules, xs.take(k), bound, st)),
    decreases xs.len(),
{
    if k == xs.len() {
        assert(xs.take(k) =~= xs);
        lemma_continues_refl(write_symbols(z, rules, xs, bound, st));
    } else {
        lemma_write_symbols_prefix(z, rules, xs.drop_last(), bound, k, st);
        assert(xs.drop_last().take(k) =~= xs.take(k));
        let st1 = write_symbols(z, rules, xs.drop_last(), bound, st);
        if (xs.last() as int) < bound {
            lemma_write_symbol_continues(z, rules, xs.last() as int, st1);
            lemma_continues_trans(
                write_symbols(z, rules, xs.take(k), bound, st),
                st1,
                write_symbols(z, rules, xs, bound, st),
            );
        }
    }
}

/// Writing the first `n` sequence symbols continues writing the first `k`.
pub proof fn lemma_write_sequence_prefix(g: GrammarView, n: int, k: int, st: WriteState)
    requires
        0 <= k <= n,
    ensures
        continues(write_sequence(g, n, st), write_sequence(g, k, st)),
    decreases n,
{
    if k == n {
        lemma_continues_refl(write_sequence(g, n, st));
    } else {
        lemma_write_sequence_prefix(g, n - 1, k, st);
        lemma_write_sequence_continues(g, n, write_sequence(g, 0, st));
        if n == 1 {
        } else {
            let st1 = write_sequence(g, n - 1, st);
            let st2 = write_symbol(g.terminal, g.rule, g.sequence[n - 1] as int, st1);
            let st3 = write_sequence(g, n, st);
            lemma_write_symbol_continues(g.terminal, g.rule, g.sequence[n - 1] as int, st1);
            assert(continues(st3, st2)) by {
                assert(st3.bits.subrange(0, st2.bits.len() as int) =~= st2.bits);
                assert(st3.labels.subrange(0, st2.labels.len() as int) =~= st2.labels);
                assert(st3.terms.subrange(0, st2.terms.len() as int) =~= st2.terms);
            }
            lemma_continues_trans(st1, st2, st3);
            lemma_continues_trans(write_sequence(g, k, st), st1, st3);
        }
    }
}


/// The writer's state before anything of the grammar `g` is written.
pub open spec fn empty_tree_state(g: GrammarView) -> WriteState {
    WriteState {
        bits: Seq::empty(),
        labels: Seq::empty(),
        terms: Seq::empty(),
        memo: Seq::new(g.num_symbols(), |i: int| None::<u32>),
        var: g.terminal.len() as int + 1,
    }
}

/// `more` holds the rules `rules` and perhaps more after them.
pub open spec fn extends(more: Seq<Seq<u32>>, rules: Seq<Seq<u32>>) -> bool {
    &&& more.len() >= rules.len()
    &&& forall|k: int| 0 <= k < rules.len() ==> more[k] == rules[k]
}

/// A reader `r` of what the writer `w` of the grammar `g` wrote: it used
/// every label, built one rule for each fresh variable, its rules refer to
/// earlier symbols, and every grammar symbol written so far stands for a
/// tree symbol that expands, with the terminals `zf`, to the same bytes.
pub open spec fn tracks(g: GrammarView, zf: Seq<u8>, w: WriteState, r: ReadState) -> bool {
    &&& r.used == w.labels.len()
    &&& r.var == w.var
    &&& r.rules.len() + g.terminal.len() + 1 == w.var
    &&& w.memo.len() == g.num_symbols()
    &&& cfg::rules_wf(g.terminal.len(), r.rules)
    &&& forall|x: int|
        1 <= x <= w.memo.len() && (#[trigger] w.memo[x - 1]) is Some ==> {
            &&& 1 <= w.memo[x - 1].unwrap() < w.var
            &&& cfg::expand_symbol(zf, r.rules, w.memo[x - 1].unwrap() as int) == cfg::expand_symbol(
                g.terminal,
                g.rule,
                x,
            )
        }
}

/// The tracked symbols keep their expansions when rules are added.
proof fn lemma_tracks_extend(g: GrammarView, zf: Seq<u8>, w: WriteState, r: ReadState, more: Seq<Seq<u32>>)
    requires
        zf.len() == g.terminal.len(),
        tracks(g, zf, w, r),
        extends(more, r.rules),
    ensures
        forall|x: int|
            1 <= x <= w.memo.len() && (#[trigger] w.memo[x - 1]) is Some ==> cfg::expand_symbol(
                zf,
                more,
                w.memo[x - 1].unwrap() as int,
            ) == cfg::expand_symbol(g.terminal, g.rule, x),
{
    assert forall|x: int| 1 <= x <= w.memo.len() && (#[trigger] w.memo[x - 1]) is Some implies cfg::expand_symbol(
        zf,
        more,
        w.memo[x - 1].unwrap() as int,
    ) == cfg::expand_symbol(g.terminal, g.rule, x) by {
        comp::lemma_extend_symbol(zf, r.rules, more, w.memo[x - 1].unwrap() as int);
    }
}

/// Reading the bits that writing symbol `x` adds pushes one tree symbol that
/// expands as `x` does.
proof fn lemma_tree_symbol(g: GrammarView, fin: WriteState, x: int, w: WriteState, r: ReadState) -> (y: u32)
    requires
        g.wf(),
        g.binary(),
        fin.terms.len() == g.terminal.len(),
        fin.var <= u32::MAX,
        1 <= x <= g.num_symbols(),
        continues(fin, write_symbol(g.terminal, g.rule, x, w)),
        read_tree(w.bits, fin.labels, g.terminal.len() as int + 1) == Some(r),
        tracks(g, fin.terms, w, r),
    ensures
        ({
            let w2 = write_symbol(g.terminal, g.rule, x, w);
            let r2 = read_tree(w2.bits, fin.labels, g.terminal.len() as int + 1);
            &&& r2 is Some
            &&& r2.unwrap().stack == r.stack.push(y)
            &&& extends(r2.unwrap().rules, r.rules)
            &&& tracks(g, fin.terms, w2, r2.unwrap())
            &&& 1 <= y < w2.var
            &&& cfg::expand_symbol(fin.terms, r2.unwrap().rules, y as int) == cfg::expand_symbol(g.terminal, g.rule, x)
            &&& w.memo[x - 1] is None && x > g.terminal.len() ==> y == w2.var - 1
            &&& w.memo[x - 1] is None && x <= g.terminal.len() ==> y == w.terms.len() + 1 && w2.var == w.var
                && w2.terms.len() == w.terms.len() + 1
        }),
    decreases x, 1int, 0int,
{
    let z = g.terminal;
    let rules = g.rule;
    let t = z.len() as int;
    let lf = fin.labels;
    let zf = fin.terms;
    let w2 = write_symbol(z, rules, x, w);
    lemma_write_symbol_continues(z, rules, x, w);
    lemma_continues_trans(w, w2, fin);
    match w.memo[x - 1] {
        Some(yy) => {
            assert(w2.bits.drop_last() =~= w.bits);
            assert(lf.subrange(0, w2.labels.len() as int)[w.labels.len() as int] == yy);
            let r2 = read_tree(w2.bits, lf, t + 1).unwrap();
            assert(r2.rules =~= r.rules);
            assert(r2.stack =~= r.stack.push(yy));
            yy
        },
        None => {
            if x <= t {
                let tt = (w.terms.len() + 1) as u32;
                assert(w2.bits.drop_last() =~= w.bits);
                assert(lf.subrange(0, w2.labels.len() as int)[w.labels.len() as int] == tt);
                assert(zf.subrange(0, w2.terms.len() as int)[w.terms.len() as int] == z[x - 1]);
                let r2 = read_tree(w2.bits, lf, t + 1).unwrap();
                assert(r2.rules =~= r.rules);
                assert(tt as int <= zf.len());
                assert(cfg::expand_symbol(zf, r2.rules, tt as int) =~= seq![z[x - 1]]);
                assert forall|x2: int| 1 <= x2 <= w2.memo.len() && (#[trigger] w2.memo[x2 - 1]) is Some implies {
                    &&& 1 <= w2.memo[x2 - 1].unwrap() < w2.var
                    &&& cfg::expand_symbol(zf, r2.rules, w2.memo[x2 - 1].unwrap() as int) == cfg::expand_symbol(
                        z,
                        rules,
                        x2,
                    )
                } by {
                    if x2 != x {
                        assert(w2.memo[x2 - 1] == w.memo[x2 - 1]);
                    }
                }
                tt
            } else {
                let k = x - t - 1;
                let xs = rules[k];
                assert(xs.len() == 2);
                assert(1 <= xs[0] <= t + k && 1 <= xs[1] <= t + k);
                let st2 = write_symbols(z, rules, xs, x, w);
                lemma_write_symbols_continues(z, rules, xs, x, w);
                assert(w2 == WriteState {
                    bits: st2.bits.push(true),
                    memo: st2.memo.update(x - 1, Some(st2.var as u32)),
                    var: st2.var + 1,
                    ..st2
                });
                assert(continues(w2, st2)) by {
                    assert(w2.bits.subrange(0, st2.bits.len() as int) =~= st2.bits);
                    assert(w2.labels.subrange(0, st2.labels.len() as int) =~= st2.labels);
                    assert(w2.terms.subrange(0, st2.terms.len() as int) =~= st2.terms);
                }
                lemma_continues_trans(st2, w2, fin);
                let ys = lemma_tree_symbols(g, fin, xs, x, w, r);
                let r2s = read_tree(st2.bits, lf, t + 1).unwrap();
                let y1 = ys[0];
                let y2 = ys[1];
                let v = st2.var;
                assert(w2.bits.drop_last() =~= st2.bits);
                let r2 = read_tree(w2.bits, lf, t + 1).unwrap();
                let n = r2s.stack.len() as int;
                assert(r2s.stack[n - 2] == y1 && r2s.stack[n - 1] == y2);
                assert(r2.rules == r2s.rules.push(seq![y1, y2]));
                assert(r2.stack =~= r.stack.push(v as u32));
                assert(extends(r2.rules, r2s.rules));
                assert(cfg::rules_wf(t as nat, r2.rules)) by {
                    assert forall|kk: int, j: int| 0 <= kk < r2.rules.len() && 0 <= j < r2.rules[kk].len() implies 1
                        <= #[trigger] r2.rules[kk][j] <= t + kk by {
                        if kk < r2s.rules.len() {
                            assert(r2.rules[kk] == r2s.rules[kk]);
                        }
                    }
                }
                comp::lemma_extend_symbol(zf, r2s.rules, r2.rules, y1 as int);
                comp::lemma_extend_symbol(zf, r2s.rules, r2.rules, y2 as int);
                let e = cfg::expand_symbol(zf, r2.rules, v);
                assert(v - t - 1 == r2s.rules.len());
                assert(r2.rules[v - t - 1] == seq![y1, y2]);
                assert(e == cfg::expand_symbols(zf, r2.rules, seq![y1, y2], v));
                comp::lemma_expand_pair(zf, r2.rules, y1, y2, v);
                assert(xs =~= seq![xs[0], xs[1]]);
                assert(cfg::expand_symbol(z, rules, x) == cfg::expand_symbols(z, rules, seq![xs[0], xs[1]], x));
                comp::lemma_expand_pair(z, rules, xs[0], xs[1], x);
                lemma_tracks_extend(g, zf, st2, r2s, r2.rules);
                assert forall|x2: int| 1 <= x2 <= w2.memo.len() && (#[trigger] w2.memo[x2 - 1]) is Some implies {
                    &&& 1 <= w2.memo[x2 - 1].unwrap() < w2.var
                    &&& cfg::expand_symbol(zf, r2.rules, w2.memo[x2 - 1].unwrap() as int) == cfg::expand_symbol(
                        z,
                        rules,
                        x2,
                    )
                } by {
                    if x2 != x {
                        assert(w2.memo[x2 - 1] == st2.memo[x2 - 1]);
                    }
                }
                assert(extends(r2.rules, r.rules));
                v as u32
            }
        },
    }
}

/// Reading the bits that writing the symbols `xs` adds pushes one tree
/// symbol for each, expanding as it does.
proof fn lemma_tree_symbols(g: GrammarView, fin: WriteState, xs: Seq<u32>, bound: int, w: WriteState, r: ReadState) -> (ys: Seq<u32>)
    requires
        g.wf(),
        g.binary(),
        fin.terms.len() == g.terminal.len(),
        fin.var <= u32::MAX,
        forall|j: int| 0 <= j < xs.len() ==> 1 <= #[trigger] xs[j] < bound && xs[j] <= g.num_symbols(),
        continues(fin, write_symbols(g.terminal, g.rule, xs, bound, w)),
        read_tree(w.bits, fin.labels, g.terminal.len() as int + 1) == Some(r),
        tracks(g, fin.terms, w, r),
    ensures
        ({
            let w2 = write_symbols(g.terminal, g.rule, xs, bound, w);
            let r2 = read_tree(w2.bits, fin.labels, g.terminal.len() as int + 1);
            &&& r2 is Some
            &&& ys.len() == xs.len()
            &&& r2.unwrap().stack == r.stack + ys
            &&& extends(r2.unwrap().rules, r.rules)
            &&& tracks(g, fin.terms, w2, r2.unwrap())
            &&& forall|j: int|
                0 <= j < ys.len() ==> 1 <= #[trigger] ys[j] < w2.var && cfg::expand_symbol(
                    fin.terms,
                    r2.unwrap().rules,
                    ys[j] as int,
                ) == cfg::expand_symbol(g.terminal, g.rule, xs[j] as int)
        }),
    decreases bound, 0int, xs.len(),
{
    let z = g.terminal;
    let rules = g.rule;
    let t = z.len() as int;
    let lf = fin.labels;
    let zf = fin.terms;
    if xs.len() == 0 {
        assert(r.stack + Seq::<u32>::empty() =~= r.stack);
        Seq::empty()
    } else {
        let xs1 = xs.drop_last();
        let x = xs.last();
        let st1 = write_symbols(z, rules, xs1, bound, w);
        let w2 = write_symbols(z, rules, xs, bound, w);
        assert(w2 == write_symbol(z, rules, x as int, st1));
        lemma_write_symbol_continues(z, rules, x as int, st1);
        lemma_continues_trans(st1, w2, fin);
        let ys1 = lemma_tree_symbols(g, fin, xs1, bound, w, r);
        let r1 = read_tree(st1.bits, lf, t + 1).unwrap();
        let y = lemma_tree_symbol(g, fin, x as int, st1, r1);
        let r2 = read_tree(w2.bits, lf, t + 1).unwrap();
        let ys = ys1.push(y);
        assert(r2.stack =~= r.stack + ys);
        assert forall|j: int| 0 <= j < ys.len() implies 1 <= #[trigger] ys[j] < w2.var && cfg::expand_symbol(
            zf,
            r2.rules,
            ys[j] as int,
        ) == cfg::expand_symbol(z, rules, xs[j] as int) by {
            if j < ys1.len() {
                assert(ys[j] == ys1[j]);
                assert(xs[j] == xs1[j]);
                comp::lemma_extend_symbol(zf, r1.rules, r2.rules, ys1[j] as int);
            }
        }
        ys
    }
}

/// Reading the bits of the first `n` sequence symbols leaves one tree
/// symbol, which expands as those symbols do.
proof fn lemma_tree_sequence(g: GrammarView, fin: WriteState, n: int) -> (y: u32)
    requires
        g.wf(),
        g.binary(),
        1 <= n <= g.sequence.len(),
        fin.terms.len() == g.terminal.len(),
        fin.var <= u32::MAX,
        continues(fin, write_sequence(g, n, empty_tree_state(g))),
    ensures
        ({
            let wn = write_sequence(g, n, empty_tree_state(g));
            let rn = read_tree(wn.bits, fin.labels, g.terminal.len() as int + 1);
            &&& rn is Some
            &&& rn.unwrap().stack == seq![y]
            &&& tracks(g, fin.terms, wn, rn.unwrap())
            &&& 1 <= y < wn.var
            &&& cfg::expand_symbol(fin.terms, rn.unwrap().rules, y as int) == cfg::expand_symbols(
                g.terminal,
                g.rule,
                g.sequence.take(n),
                g.num_symbols() as int + 1,
            )
            &&& (n >= 2 || g.sequence[0] > g.terminal.len()) ==> y == wn.var - 1
            &&& (n == 1 && g.sequence[0] <= g.terminal.len()) ==> y == 1 && wn.var == g.terminal.len() + 1
                && wn.terms.len() == 1
        }),
    decreases n,
{
    let z = g.terminal;
    let rules = g.rule;
    let t = z.len() as int;
    let lf = fin.labels;
    let zf = fin.terms;
    let bound = g.num_symbols() as int + 1;
    let w0 = empty_tree_state(g);
    if n == 1 {
        let r0 = read_tree(w0.bits, lf, t + 1).unwrap();
        assert(r0.rules =~= Seq::<Seq<u32>>::empty());
        assert(r0.stack =~= Seq::<u32>::empty());
        let x = g.sequence[0];
        let y = lemma_tree_symbol(g, fin, x as int, w0, r0);
        assert(g.sequence.take(1) =~= seq![x]);
        comp::lemma_expand_single(z, rules, x, bound);
        assert(seq![y] =~= r0.stack.push(y));
        y
    } else {
        let y1 = lemma_tree_sequence_step(g, fin, n);
        y1
    }
}

proof fn lemma_tree_sequence_step(g: GrammarView, fin: WriteState, n: int) -> (y: u32)
    requires
        g.wf(),
        g.binary(),
        2 <= n <= g.sequence.len(),
        fin.terms.len() == g.terminal.len(),
        fin.var <= u32::MAX,
        continues(fin, write_sequence(g, n, empty_tree_state(g))),
    ensures
        ({
            let wn = write_sequence(g, n, empty_tree_state(g));
            let rn = read_tree(wn.bits, fin.labels, g.terminal.len() as int + 1);
            &&& rn is Some
            &&& rn.unwrap().stack == seq![y]
            &&& tracks(g, fin.terms, wn, rn.unwrap())
            &&& 1 <= y < wn.var
            &&& cfg::expand_symbol(fin.terms, rn.unwrap().rules, y as int) == cfg::expand_symbols(
                g.terminal,
                g.rule,
                g.sequence.take(n),
                g.num_symbols() as int + 1,
            )
            &&& y == wn.var - 1
        }),
    decreases n, 0int,
{
    let z = g.terminal;
    let rules = g.rule;
    let t = z.len() as int;
    let lf = fin.labels;
    let zf = fin.terms;
    let bound = g.num_symbols() as int + 1;
    let w0 = empty_tree_state(g);
    let st1 = write_sequence(g, n - 1, w0);
    let x = g.sequence[n - 1];
    let st2 = write_symbol(z, rules, x as int, st1);
    let wn = write_sequence(g, n, w0);
    assert(continues(wn, st2)) by {
        assert(wn.bits.subrange(0, st2.bits.len() as int) =~= st2.bits);
        assert(wn.labels.subrange(0, st2.labels.len() as int) =~= st2.labels);
        assert(wn.terms.subrange(0, st2.terms.len() as int) =~= st2.terms);
    }
    lemma_continues_trans(st2, wn, fin);
    lemma_write_symbol_continues(z, rules, x as int, st1);
    lemma_continues_trans(st1, st2, fin);
    let y1 = lemma_tree_sequence(g, fin, n - 1);
    let r1 = read_tree(st1.bits, lf, t + 1).unwrap();
    let y2 = lemma_tree_symbol(g, fin, x as int, st1, r1);
    let r2 = read_tree(st2.bits, lf, t + 1).unwrap();
    assert(wn.bits.drop_last() =~= st2.bits);
    let rn = read_tree(wn.bits, lf, t + 1).unwrap();
    let v = st2.var;
    assert(r2.stack =~= seq![y1, y2]);
    assert(rn.rules == r2.rules.push(seq![y1, y2]));
    assert(rn.stack =~= seq![v as u32]);
    assert(extends(rn.rules, r2.rules));
    assert(cfg::rules_wf(t as nat, rn.rules)) by {
        assert forall|kk: int, j: int| 0 <= kk < rn.rules.len() && 0 <= j < rn.rules[kk].len() implies 1
            <= #[trigger] rn.rules[kk][j] <= t + kk by {
            if kk < r2.rules.len() {
                assert(rn.rules[kk] == r2.rules[kk]);
            }
        }
    }
    comp::lemma_extend_symbol(zf, r1.rules, r2.rules, y1 as int);
    comp::lemma_extend_symbol(zf, r2.rules, rn.rules, y1 as int);
    comp::lemma_extend_symbol(zf, r2.rules, rn.rules, y2 as int);
    lemma_tracks_extend(g, zf, st2, r2, rn.rules);
    assert(rn.rules[v - t - 1] == seq![y1, y2]);
    assert(cfg::expand_symbol(zf, rn.rules, v) == cfg::expand_symbols(zf, rn.rules, seq![y1, y2], v));
    comp::lemma_expand_pair(zf, rn.rules, y1, y2, v);
    assert(g.sequence.take(n).drop_last() =~= g.sequence.take(n - 1));
    assert(g.sequence.take(n).last() == x);
    assert(tracks(g, zf, wn, rn)) by {
        assert forall|x2: int| 1 <= x2 <= wn.memo.len() && (#[trigger] wn.memo[x2 - 1]) is Some implies {
            &&& 1 <= wn.memo[x2 - 1].unwrap() < wn.var
            &&& cfg::expand_symbol(zf, rn.rules, wn.memo[x2 - 1].unwrap() as int) == cfg::expand_symbol(z, rules, x2)
        } by {
            assert(wn.memo[x2 - 1] == st2.memo[x2 - 1]);
        }
    }
    v as u32
}

/// The number of leaves (`false` bits) among tree bits.
pub open spec fn leaf_bits(bits: Seq<bool>) -> nat
    decreases bits.len(),
{
    if bits.len() == 0 {
        0
    } else {
        leaf_bits(bits.drop_last()) + if bits.last() {
            0nat
        } else {
            1nat
        }
    }
}

/// The number of inner nodes (`true` bits) among tree bits.
pub open spec fn node_bits(bits: Seq<bool>) -> nat
    decreases bits.len(),
{
    if bits.len() == 0 {
        0
    } else {
        node_bits(bits.drop_last()) + if bits.last() {
            1nat
        } else {
            0nat
        }
    }
}

/// The counts of a pushed bit.
proof fn lemma_bits_push(bits: Seq<bool>, b: bool)
    ensures
        leaf_bits(bits.push(b)) == leaf_bits(bits) + if b {
            0nat
        } else {
            1nat
        },
        node_bits(bits.push(b)) == node_bits(bits) + if b {
            1nat
        } else {
            0nat
        },
{
    assert(bits.push(b).drop_last() =~= bits);
}

/// Writing one symbol of a grammar with pair rules adds one leaf more than
/// inner nodes, and one label for each leaf.
proof fn lemma_write_symbol_balance(z: Seq<u8>, rules: Seq<Seq<u32>>, x: int, st: WriteState)
    requires
        cfg::rules_wf(z.len(), rules),
        forall|k: int| 0 <= k < rules.len() ==> (#[trigger] rules[k]).len() == 2,
        st.memo.len() == z.len() + rules.len(),
        1 <= x <= st.memo.len(),
    ensures
        ({
            let r = write_symbol(z, rules, x, st);
            &&& leaf_bits(r.bits) == leaf_bits(st.bits) + (node_bits(r.bits) - node_bits(st.bits)) + 1
            &&& r.labels.len() - st.labels.len() == leaf_bits(r.bits) - leaf_bits(st.bits)
            &&& r.memo.len() == st.memo.len()
        }),
    decreases x, 1int, 0int,
{
    match st.memo[x - 1] {
        Some(y) => {
            lemma_bits_push(st.bits, false);
        },
        None => {
            if x <= z.len() {
                lemma_bits_push(st.bits, false);
            } else {
                let k = x - z.len() - 1;
                let xs = rules[k];
                assert forall|i: int| 0 <= i < xs.len() implies 1 <= #[trigger] xs[i] < x by {
                    assert(1 <= rules[k][i] <= z.len() + k);
                }
                lemma_write_symbols_balance(z, rules, xs, x, st);
                let st2 = write_symbols(z, rules, xs, x, st);
                lemma_bits_push(st2.bits, true);
            }
        },
    }
}

/// Writing symbols of a grammar with pair rules adds as many more leaves
/// than inner nodes as there are symbols, and one label for each leaf.
proof fn lemma_write_symbols_balance(z: Seq<u8>, rules: Seq<Seq<u32>>, xs: Seq<u32>, bound: int, st: WriteState)
    requires
        cfg::rules_wf(z.len(), rules),
        forall|k: int| 0 <= k < rules.len() ==> (#[trigger] rules[k]).len() == 2,
        st.memo.len() == z.len() + rules.len(),
        bound <= st.memo.len() + 1,
        forall|i: int| 0 <= i < xs.len() ==> 1 <= #[trigger] xs[i] < bound,
    ensures
        ({
            let r = write_symbols(z, rules, xs, bound, st);
            &&& leaf_bits(r.bits) == leaf_bits(st.bits) + (node_bits(r.bits) - node_bits(st.bits)) + xs.len()
            &&& r.labels.len() - st.labels.len() == leaf_bits(r.bits) - leaf_bits(st.bits)
            &&& r.memo.len() == st.memo.len()
        }),
    decreases bound, 0int, xs.len(),
{
    if xs.len() > 0 {
        let ys = xs.drop_last();
        assert forall|i: int| 0 <= i < ys.len() implies 1 <= #[trigger] ys[i] < bound by {
            assert(ys[i] == xs[i]);
        }
        lemma_write_symbols_balance(z, rules, ys, bound, st);
        let st1 = write_symbols(z, rules, ys, bound, st);
        assert(1 <= xs[xs.len() - 1] < bound);
        lemma_write_symbol_balance(z, rules, xs.last() as int, st1);
    }
}

/// Writing the sequence of a well-formed grammar with pair rules adds to a
/// tree one leaf more than inner nodes, and one label for each leaf: what
/// `to_poppt` appends is a single tree.
pub proof fn lemma_tree_balance(g: GrammarView, st: WriteState)
    requires
        g.wf(),
        g.binary(),
        g.sequence.len() >= 1,
        st.memo.len() == g.num_symbols(),
    ensures
        ({
            let fin = write_sequence(g, g.sequence.len() as int, st);
            &&& leaf_bits(fin.bits) == leaf_bits(st.bits) + (node_bits(fin.bits) - node_bits(st.bits)) + 1
            &&& fin.labels.len() - st.labels.len() == leaf_bits(fin.bits) - leaf_bits(st.bits)
        }),
{
    lemma_sequence_balance(g, g.sequence.len() as int, st);
}

/// The first `n` symbols of the sequence make one tree.
proof fn lemma_sequence_balance(g: GrammarView, n: int, st: WriteState)
    requires
        g.wf(),
        g.binary(),
        1 <= n <= g.sequence.len(),
        st.memo.len() == g.num_symbols(),
    ensures
        ({
            let fin = write_sequence(g, n, st);
            &&& leaf_bits(fin.bits) == leaf_bits(st.bits) + (node_bits(fin.bits) - node_bits(st.bits)) + 1
            &&& fin.labels.len() - st.labels.len() == leaf_bits(fin.bits) - leaf_bits(st.bits)
            &&& fin.memo.len() == st.memo.len()
        }),
    decreases n,
{
    assert(1 <= g.sequence[n - 1] <= g.num_symbols());
    if n == 1 {
        lemma_write_symbol_balance(g.terminal, g.rule, g.sequence[0] as int, st);
    } else {
        lemma_sequence_balance(g, n - 1, st);
        let st1 = write_sequence(g, n - 1, st);
        lemma_write_symbol_balance(g.terminal, g.rule, g.sequence[n - 1] as int, st1);
        let st2 = write_symbol(g.terminal, g.rule, g.sequence[n - 1] as int, st1);
        lemma_bits_push(st2.bits, true);
    }
}

/// Byte `b` is that of a terminal that the table marks as written.
pub open spec fn seen_byte(z: Seq<u8>, memo: Seq<Option<u32>>, b: u8) -> bool {
    exists|t: int| 1 <= t <= z.len() && #[trigger] memo[t - 1] is Some && z[t - 1] == b
}

/// Every byte of `bytes` is that of a terminal that the table marks as written.
pub open spec fn covered(z: Seq<u8>, memo: Seq<Option<u32>>, bytes: Seq<u8>) -> bool {
    forall|i: int| 0 <= i < bytes.len() ==> seen_byte(z, memo, #[trigger] bytes[i])
}

/// Every symbol written so far expands to bytes of terminals written so far.
pub open spec fn visit_inv(z: Seq<u8>, rules: Seq<Seq<u32>>, st: WriteState) -> bool {
    forall|y: int|
        1 <= y <= st.memo.len() && (#[trigger] st.memo[y - 1]) is Some ==> covered(z, st.memo, cfg::expand_symbol(z, rules, y))
}

/// The number of the first `n` table entries that are marked as written.
pub open spec fn marked_count(memo: Seq<Option<u32>>, n: int) -> nat
    decreases n,
{
    if n <= 0 {
        0
    } else {
        marked_count(memo, n - 1) + if memo[n - 1] is Some {
            1nat
        } else {
            0nat
        }
    }
}

/// `memo2` keeps every mark of `memo`.
pub open spec fn keeps_marks(memo2: Seq<Option<u32>>, memo: Seq<Option<u32>>) -> bool {
    &&& memo2.len() == memo.len()
    &&& forall|y: int| 0 <= y < memo.len() && (#[trigger] memo[y]) is Some ==> memo2[y] is Some
}

/// Marking an entry that was not marked counts once if it is among the
/// first `n`.
proof fn lemma_marked_count_update(memo: Seq<Option<u32>>, n: int, x: int, v: u32)
    requires
        0 <= n <= memo.len(),
        0 <= x < memo.len(),
        memo[x] is None,
    ensures
        marked_count(memo.update(x, Some(v)), n) == marked_count(memo, n) + if x < n {
            1nat
        } else {
            0nat
        },
    decreases n,
{
    if n > 0 {
        lemma_marked_count_update(memo, n - 1, x, v);
    }
}

/// With every one of the first `n` entries marked, the count is `n`.
proof fn lemma_marked_count_all(memo: Seq<Option<u32>>, n: int)
    requires
        0 <= n <= memo.len(),
        forall|t: int| 0 <= t < n ==> (#[trigger] memo[t]) is Some,
    ensures
        marked_count(memo, n) == n,
    decreases n,
{
    if n > 0 {
        lemma_marked_count_all(memo, n - 1);
    }
}

/// Covered bytes stay covered when marks are kept.
proof fn lemma_covered_keeps(z: Seq<u8>, memo: Seq<Option<u32>>, memo2: Seq<Option<u32>>, bytes: Seq<u8>)
    requires
        z.len() <= memo.len(),
        keeps_marks(memo2, memo),
        covered(z, memo, bytes),
    ensures
        covered(z, memo2, bytes),
{
    assert forall|i: int| 0 <= i < bytes.len() implies seen_byte(z, memo2, #[trigger] bytes[i]) by {
        let t = choose|t: int| 1 <= t <= z.len() && #[trigger] memo[t - 1] is Some && z[t - 1] == bytes[i];
        assert(memo2[t - 1] is Some);
    }
}

/// Symbols that are all marked expand to covered bytes.
proof fn lemma_covered_symbols(z: Seq<u8>, rules: Seq<Seq<u32>>, xs: Seq<u32>, bound: int, st: WriteState)
    requires
        visit_inv(z, rules, st),
        forall|i: int| 0 <= i < xs.len() ==> 1 <= #[trigger] xs[i] <= st.memo.len() && st.memo[xs[i] - 1] is Some,
    ensures
        covered(z, st.memo, cfg::expand_symbols(z, rules, xs, bound)),
    decreases xs.len(),
{
    if xs.len() > 0 {
        let ys = xs.drop_last();
        assert forall|i: int| 0 <= i < ys.len() implies 1 <= #[trigger] ys[i] <= st.memo.len() && st.memo[ys[i] - 1] is Some by {
            assert(ys[i] == xs[i]);
        }
        lemma_covered_symbols(z, rules, ys, bound, st);
        let a = cfg::expand_symbols(z, rules, ys, bound);
        let x = xs[xs.len() - 1] as int;
        let b = if x < bound {
            cfg::expand_symbol(z, rules, x)
        } else {
            Seq::<u8>::empty()
        };
        assert(st.memo[x - 1] is Some);
        assert(covered(z, st.memo, b));
        let e = cfg::expand_symbols(z, rules, xs, bound);
        assert(e == a + b);
        assert forall|i: int| 0 <= i < e.len() implies seen_byte(z, st.memo, #[trigger] e[i]) by {
            if i < a.len() {
                assert(e[i] == a[i]);
            } else {
                assert(e[i] == b[i - a.len()]);
            }
        }
    }
}

/// Writing symbol `x` marks it, keeps every mark, keeps the invariant, and
/// adds one terminal to the tree for each terminal it marks.
proof fn lemma_write_symbol_marks(z: Seq<u8>, rules: Seq<Seq<u32>>, x: int, st: WriteState)
    requires
        cfg::rules_wf(z.len(), rules),
        st.memo.len() == z.len() + rules.len(),
        1 <= x <= st.memo.len(),
        visit_inv(z, rules, st),
        st.terms.len() == marked_count(st.memo, z.len() as int),
    ensures
        ({
            let r = write_symbol(z, rules, x, st);
            &&& r.memo[x - 1] is Some
            &&& keeps_marks(r.memo, st.memo)
            &&& visit_inv(z, rules, r)
            &&& r.terms.len() == marked_count(r.memo, z.len() as int)
        }),
    decreases x, 1int, 0int,
{
    let r = write_symbol(z, rules, x, st);
    match st.memo[x - 1] {
        Some(y) => {
            assert(r.memo == st.memo);
        },
        None => {
            if x <= z.len() {
                let t = (st.terms.len() + 1) as u32;
                lemma_marked_count_update(st.memo, z.len() as int, x - 1, t);
                assert forall|y: int| 0 <= y < r.memo.len() && (#[trigger] r.memo[y]) is Some && y != x - 1 implies st.memo[y] is Some by {}
                assert forall|y: int| 1 <= y <= r.memo.len() && (#[trigger] r.memo[y - 1]) is Some implies covered(
                    z,
                    r.memo,
                    cfg::expand_symbol(z, rules, y),
                ) by {
                    if y == x {
                        let e = cfg::expand_symbol(z, rules, y);
                        assert(e == seq![z[x - 1]]);
                        assert forall|i: int| 0 <= i < e.len() implies seen_byte(z, r.memo, #[trigger] e[i]) by {
                            assert(r.memo[x - 1] is Some);
                        }
                    } else {
                        assert(st.memo[y - 1] is Some);
                        lemma_covered_keeps(z, st.memo, r.memo, cfg::expand_symbol(z, rules, y));
                    }
                }
            } else {
                let k = x - z.len() - 1;
                let xs = rules[k];
                assert forall|i: int| 0 <= i < xs.len() implies 1 <= #[trigger] xs[i] < x by {
                    assert(1 <= rules[k][i] <= z.len() + k);
                }
                lemma_write_symbols_marks(z, rules, xs, x, st);
                let st2 = write_symbols(z, rules, xs, x, st);
                lemma_write_symbols_continues(z, rules, xs, x, st);
                assert(st2.memo[x - 1] is None) by {
                    lemma_write_symbols_unmarked(z, rules, xs, x, st, x - 1);
                }
                lemma_marked_count_update(st2.memo, z.len() as int, x - 1, st2.var as u32);
                assert forall|y: int| 1 <= y <= r.memo.len() && (#[trigger] r.memo[y - 1]) is Some implies covered(
                    z,
                    r.memo,
                    cfg::expand_symbol(z, rules, y),
                ) by {
                    if y == x {
                        lemma_covered_symbols(z, rules, xs, x, st2);
                        lemma_covered_keeps(z, st2.memo, r.memo, cfg::expand_symbols(z, rules, xs, x));
                    } else {
                        assert(st2.memo[y - 1] is Some);
                        lemma_covered_keeps(z, st2.memo, r.memo, cfg::expand_symbol(z, rules, y));
                    }
                }
            }
        },
    }
}

/// Writing symbols below `bound` leaves the entries at or above it unmarked
/// where they were.
proof fn lemma_write_symbols_unmarked(
    z: Seq<u8>,
    rules: Seq<Seq<u32>>,
    xs: Seq<u32>,
    bound: int,
    st: WriteState,
    e: int,
)
    requires
        bound - 1 <= e < st.memo.len(),
        st.memo[e] is None,
    ensures
        write_symbols(z, rules, xs, bound, st).memo[e] is None,
    decreases bound, 0int, xs.len(),
{
    lemma_write_symbols_continues(z, rules, xs, bound, st);
    if xs.len() > 0 {
        lemma_write_symbols_unmarked(z, rules, xs.drop_last(), bound, st, e);
        let st1 = write_symbols(z, rules, xs.drop_last(), bound, st);
        lemma_write_symbols_continues(z, rules, xs.drop_last(), bound, st);
        if (xs.last() as int) < bound {
            lemma_write_symbol_unmarked(z, rules, xs.last() as int, st1, e);
        }
    }
}

/// Writing symbol `x` leaves the entries from `x` on unmarked where they were.
proof fn lemma_write_symbol_unmarked(z: Seq<u8>, rules: Seq<Seq<u32>>, x: int, st: WriteState, e: int)
    requires
        x <= e < st.memo.len(),
        st.memo[e] is None,
    ensures
        write_symbol(z, rules, x, st).memo[e] is None,
    decreases x, 1int, 0int,
{
    if 1 <= x <= st.memo.len() && st.memo[x - 1] is None && x > z.len() && x - z.len() - 1 < rules.len() {
        lemma_write_symbols_unmarked(z, rules, rules[x - z.len() - 1], x, st, e);
        lemma_write_symbols_continues(z, rules, rules[x - z.len() - 1], x, st);
    }
}

/// Writing symbols marks each of them, keeps every mark and the invariant,
/// and adds one terminal to the tree for each terminal it marks.
proof fn lemma_write_symbols_marks(z: Seq<u8>, rules: Seq<Seq<u32>>, xs: Seq<u32>, bound: int, st: WriteState)
    requires
        cfg::rules_wf(z.len(), rules),
        st.memo.len() == z.len() + rules.len(),
        bound <= st.memo.len() + 1,
        forall|i: int| 0 <= i < xs.len() ==> 1 <= #[trigger] xs[i] < bound,
        visit_inv(z, rules, st),
        st.terms.len() == marked_count(st.memo, z.len() as int),
    ensures
        ({
            let r = write_symbols(z, rules, xs, bound, st);
            &&& forall|i: int| 0 <= i < xs.len() ==> r.memo[#[trigger] xs[i] - 1] is Some
            &&& keeps_marks(r.memo, st.memo)
            &&& visit_inv(z, rules, r)
            &&& r.terms.len() == marked_count(r.memo, z.len() as int)
        }),
    decreases bound, 0int, xs.len(),
{
    if xs.len() > 0 {
        let ys = xs.drop_last();
        assert forall|i: int| 0 <= i < ys.len() implies 1 <= #[trigger] ys[i] < bound by {
            assert(ys[i] == xs[i]);
        }
        lemma_write_symbols_marks(z, rules, ys, bound, st);
        let st1 = write_symbols(z, rules, ys, bound, st);
        let x = xs[xs.len() - 1] as int;
        assert(1 <= x < bound);
        lemma_write_symbol_marks(z, rules, x, st1);
        let r = write_symbols(z, rules, xs, bound, st);
        assert(r == write_symbol(z, rules, x, st1));
        assert forall|i: int| 0 <= i < xs.len() implies r.memo[#[trigger] xs[i] - 1] is Some by {
            if i < ys.len() {
                assert(ys[i] == xs[i]);
                assert(st1.memo[ys[i] - 1] is Some);
            }
        }
    }
}

/// Writing the first `n` symbols of the sequence marks each of them, keeps
/// every mark and the invariant, and adds one terminal to the tree for each
/// terminal it marks.
proof fn lemma_write_sequence_marks(g: GrammarView, n: int, st: WriteState)
    requires
        g.wf(),
        0 <= n <= g.sequence.len(),
        st.memo.len() == g.num_symbols(),
        visit_inv(g.terminal, g.rule, st),
        st.terms.len() == marked_count(st.memo, g.terminal.len() as int),
    ensures
        ({
            let r = write_sequence(g, n, st);
            &&& forall|j: int| 0 <= j < n ==> r.memo[#[trigger] g.sequence[j] - 1] is Some
            &&& keeps_marks(r.memo, st.memo)
            &&& visit_inv(g.terminal, g.rule, r)
            &&& r.terms.len() == marked_count(r.memo, g.terminal.len() as int)
        }),
    decreases n,
{
    if n >= 1 {
        assert(1 <= g.sequence[n - 1] <= g.num_symbols());
    }
    if n == 1 {
        lemma_write_symbol_marks(g.terminal, g.rule, g.sequence[0] as int, st);
    } else if n > 1 {
        lemma_write_sequence_marks(g, n - 1, st);
        let st1 = write_sequence(g, n - 1, st);
        lemma_write_symbol_marks(g.terminal, g.rule, g.sequence[n - 1] as int, st1);
        let st2 = write_symbol(g.terminal, g.rule, g.sequence[n - 1] as int, st1);
        let r = write_sequence(g, n, st);
        assert(r.memo == st2.memo && r.terms == st2.terms);
        assert forall|j: int| 0 <= j < n implies r.memo[#[trigger] g.sequence[j] - 1] is Some by {
            if j < n - 1 {
                assert(st1.memo[g.sequence[j] - 1] is Some);
                assert(1 <= g.sequence[j] <= g.num_symbols());
            }
        }
    }
}

/// No entry of an empty table is marked.
proof fn lemma_marked_count_none(memo: Seq<Option<u32>>, n: int)
    requires
        0 <= n <= memo.len(),
        forall|t: int| 0 <= t < memo.len() ==> (#[trigger] memo[t]) is None,
    ensures
        marked_count(memo, n) == 0,
    decreases n,
{
    if n > 0 {
        lemma_marked_count_none(memo, n - 1);
    }
}

/// When the terminals of a well-formed grammar are distinct bytes that all
/// occur in the string it derives, its tree holds every one of them.
pub proof fn lemma_tree_keeps_terminals(g: GrammarView)
    requires
        g.wf(),
        g.sequence.len() >= 1,
        forall|a: int, b: int| 0 <= a < b < g.terminal.len() ==> g.terminal[a] != g.terminal[b],
        forall|t: int| 0 <= t < g.terminal.len() ==> g.derived().contains(#[trigger] g.terminal[t]),
    ensures
        write_sequence(g, g.sequence.len() as int, empty_tree_state(g)).terms.len() == g.terminal.len(),
{
    let z = g.terminal;
    let st = empty_tree_state(g);
    let n = g.sequence.len() as int;
    lemma_marked_count_none(st.memo, z.len() as int);
    lemma_write_sequence_marks(g, n, st);
    let fin = write_sequence(g, n, st);
    assert forall|i: int| 0 <= i < n implies 1 <= #[trigger] g.sequence[i] <= fin.memo.len() && fin.memo[g.sequence[i]
        - 1] is Some by {}
    lemma_covered_symbols(z, g.rule, g.sequence, g.num_symbols() as int + 1, fin);
    let d = g.derived();
    assert forall|t: int| 0 <= t < z.len() implies (#[trigger] fin.memo[t]) is Some by {
        assert(d.contains(z[t]));
        let i = choose|i: int| 0 <= i < d.len() && d[i] == z[t];
        assert(seen_byte(z, fin.memo, d[i]));
        let t2 = choose|t2: int| 1 <= t2 <= z.len() && #[trigger] fin.memo[t2 - 1] is Some && z[t2 - 1] == d[i];
        if t2 - 1 < t {
            assert(z[t2 - 1] != z[t]);
        } else if t2 - 1 > t {
            assert(z[t] != z[t2 - 1]);
        }
    }
    lemma_marked_count_all(fin.memo, z.len() as int);
}

/// Writing a grammar as a post-order partial parse tree and reading the tree
/// back gives a well-formed grammar with pair rules that derives the same
/// string: the tree's terminals, the rules that reading builds, and as
/// sequence the last variable. This
/// holds when the tree keeps every terminal of the grammar (each of them
/// occurs in what the sequence derives) and its variables fit in `u32`.
pub proof fn lemma_tree_roundtrip(g: GrammarView)
    requires
        g.wf(),
        g.binary(),
        g.sequence.len() >= 1,
        ({
            let fin = write_sequence(g, g.sequence.len() as int, empty_tree_state(g));
            &&& fin.terms.len() == g.terminal.len()
            &&& fin.var <= u32::MAX
        }),
    ensures
        ({
            let fin = write_sequence(g, g.sequence.len() as int, empty_tree_state(g));
            let rd = read_tree(fin.bits, fin.labels, fin.terms.len() as int + 1);
            let h = GrammarView {
                terminal: fin.terms,
                rule: rd.unwrap().rules,
                sequence: seq![(rd.unwrap().var - 1) as u32],
            };
            &&& rd is Some
            &&& h.wf()
            &&& h.binary()
            &&& h.derived() == g.derived()
        }),
{
    let n = g.sequence.len() as int;
    let fin = write_sequence(g, n, empty_tree_state(g));
    lemma_continues_refl(fin);
    let y = lemma_tree_sequence(g, fin, n);
    let rd = read_tree(fin.bits, fin.labels, fin.terms.len() as int + 1).unwrap();
    let h = GrammarView { terminal: fin.terms, rule: rd.rules, sequence: seq![(rd.var - 1) as u32] };
    assert(y == rd.var - 1);
    lemma_read_tree_pairs(fin.bits, fin.labels, fin.terms.len() as int + 1);
    comp::lemma_expand_single(fin.terms, rd.rules, y, h.num_symbols() as int + 1);
    assert(g.sequence.take(n) =~= g.sequence);
}

/// A well-formed grammar with pair rules whose terminals are distinct bytes
/// that all occur in the string it derives comes back from its tree as a
/// well-formed grammar with pair rules that derives the same string, when
/// the tree's variables fit in `u32`.
pub proof fn lemma_text_tree_roundtrip(g: GrammarView)
    requires
        g.wf(),
        g.binary(),
        g.sequence.len() >= 1,
        forall|a: int, b: int| 0 <= a < b < g.terminal.len() ==> g.terminal[a] != g.terminal[b],
        forall|t: int| 0 <= t < g.terminal.len() ==> g.derived().contains(#[trigger] g.terminal[t]),
        write_sequence(g, g.sequence.len() as int, empty_tree_state(g)).var <= u32::MAX,
    ensures
        ({
            let fin = write_sequence(g, g.sequence.len() as int, empty_tree_state(g));
            let rd = read_tree(fin.bits, fin.labels, fin.terms.len() as int + 1);
            let h = GrammarView {
                terminal: fin.terms,
                rule: rd.unwrap().rules,
                sequence: seq![(rd.unwrap().var - 1) as u32],
            };
            &&& fin.terms.len() == g.terminal.len()
            &&& rd is Some
            &&& h.wf()
            &&& h.binary()
            &&& h.derived() == g.derived()
        }),
{
    lemma_tree_keeps_terminals(g);
    lemma_tree_roundtrip(g);
}

} // verus!
