//! RePair: grammar construction by repeated replacement of the most frequent
//! pair of adjacent symbols.
use vstd::prelude::*;
use std::collections::HashMap;
use crate::module::cfg;
use crate::module::cfg::{Grammar, GrammarView};

verus! {

broadcast use vstd::std_specs::hash::group_hash_axioms;

// ---------------------------------------------------------------------------
// The specification of a RePair run
// ---------------------------------------------------------------------------

/// The number under which the pair `(l, r)` is counted.
pub open spec fn pair_key(l: u32, r: u32) -> int {
    l as int * 0x1_0000_0000 + r as int
}

/// Number of positions `k` with `seq[k] == l` and `seq[k + 1] == r`;
/// overlapping occurrences all count.
pub open spec fn pair_count(seq: Seq<u32>, l: u32, r: u32) -> nat
    decreases seq.len(),
{
    if seq.len() < 2 {
        0
    } else {
        pair_count(seq.drop_last(), l, r) + (if seq[seq.len() - 2] == l && seq[seq.len() - 1] == r {
            1nat
        } else {
            0nat
        })
    }
}

/// Number of occurrences of the pair that starts at position `k`.
pub open spec fn count_at(seq: Seq<u32>, k: int) -> nat {
    pair_count(seq, seq[k], seq[k + 1])
}

/// The lexicographic order on pairs.
pub open spec fn pair_less(l1: u32, r1: u32, l2: u32, r2: u32) -> bool {
    l1 < l2 || (l1 == l2 && r1 < r2)
}

/// Position `k` wins among the first `m` pair positions: no pair there is
/// more frequent; with `sorting` no equally frequent pair is smaller; without,
/// no earlier position holds an equally frequent pair.
pub open spec fn is_choice_upto(seq: Seq<u32>, sorting: bool, k: int, m: int) -> bool {
    &&& 0 <= k < m
    &&& forall|j: int| 0 <= j < m ==> #[trigger] count_at(seq, j) <= count_at(seq, k)
    &&& sorting ==> forall|j: int|
        0 <= j < m && #[trigger] count_at(seq, j) == count_at(seq, k) ==> !pair_less(
            seq[j],
            seq[j + 1],
            seq[k],
            seq[k + 1],
        )
    &&& !sorting ==> forall|j: int| 0 <= j < k ==> #[trigger] count_at(seq, j) < count_at(seq, k)
}

/// Position `k` holds the pair that a round of RePair replaces: a most
/// frequent pair; with `sorting` the least of those, without it the one that
/// starts first.
pub open spec fn is_choice(seq: Seq<u32>, sorting: bool, k: int) -> bool {
    is_choice_upto(seq, sorting, k, seq.len() - 1)
}

/// A position that holds the pair a round replaces.
pub open spec fn chosen_position(seq: Seq<u32>, sorting: bool) -> int {
    choose|k: int| is_choice(seq, sorting, k)
}

/// Replaces the occurrences of `(l, r)` in `seq` by `v`, from left to right,
/// never two overlapping ones.
pub open spec fn replace_pair(seq: Seq<u32>, l: u32, r: u32, v: u32) -> Seq<u32>
    decreases seq.len(),
{
    if seq.len() == 0 {
        Seq::empty()
    } else if seq.len() >= 2 && seq[0] == l && seq[1] == r {
        seq![v] + replace_pair(seq.skip(2), l, r, v)
    } else {
        seq![seq[0]] + replace_pair(seq.skip(1), l, r, v)
    }
}

/// The rounds of RePair on `seq`, the next fresh symbol being `next`: the
/// rules created, in order, and the final sequence. A round replaces the
/// chosen pair if it occurs at least `minfreq` times and a symbol below
/// `u32::MAX` is still free.
pub open spec fn repair_rounds(seq: Seq<u32>, next: int, minfreq: int, sorting: bool) -> (Seq<Seq<u32>>, Seq<u32>)
    decreases u32::MAX - next,
{
    if next >= u32::MAX || seq.len() < 2 {
        (Seq::empty(), seq)
    } else {
        let k = chosen_position(seq, sorting);
        let l = seq[k];
        let r = seq[k + 1];
        if pair_count(seq, l, r) < minfreq {
            (Seq::empty(), seq)
        } else {
            let rest = repair_rounds(replace_pair(seq, l, r, next as u32), next + 1, minfreq, sorting);
            (seq![seq![l, r]] + rest.0, rest.1)
        }
    }
}

/// The distinct bytes of `s` in the order of their first occurrence.
pub open spec fn first_occurrences(s: Seq<u8>) -> Seq<u8>
    decreases s.len(),
{
    if s.len() == 0 {
        Seq::empty()
    } else {
        let z = first_occurrences(s.drop_last());
        if z.contains(s.last()) {
            z
        } else {
            z.push(s.last())
        }
    }
}

/// A position of byte `b` in `z`.
pub open spec fn byte_index(z: Seq<u8>, b: u8) -> int {
    choose|i: int| 0 <= i < z.len() && z[i] == b
}

/// `s` written with terminal symbols: byte `b` becomes one more than its
/// position among the first occurrences.
pub open spec fn initial_symbols(s: Seq<u8>) -> Seq<u32> {
    s.map_values(|b: u8| (byte_index(first_occurrences(s), b) + 1) as u32)
}

/// The grammar that RePair builds from `s`.
pub open spec fn repair_grammar(s: Seq<u8>, minfreq: int, sorting: bool) -> GrammarView {
    let z = first_occurrences(s);
    let run = repair_rounds(initial_symbols(s), z.len() as int + 1, minfreq, sorting);
    GrammarView { terminal: z, rule: run.0, sequence: run.1 }
}

// ---------------------------------------------------------------------------
// Lemmas
// ---------------------------------------------------------------------------

/// Different pairs are counted under different numbers.
pub proof fn lemma_pair_key_injective(l1: u32, r1: u32, l2: u32, r2: u32)
    requires
        pair_key(l1, r1) == pair_key(l2, r2),
    ensures
        l1 == l2 && r1 == r2,
{
    if l1 < l2 {
        assert(pair_key(l1, r1) < pair_key(l2, r2));
    } else if l2 < l1 {
        assert(pair_key(l2, r2) < pair_key(l1, r1));
    }
}

/// Counting one more position.
proof fn lemma_pair_count_step(seq: Seq<u32>, k: int, l: u32, r: u32)
    requires
        0 <= k,
        k + 1 < seq.len(),
    ensures
        pair_count(seq.take(k + 2), l, r) == pair_count(seq.take(k + 1), l, r) + (if seq[k] == l
            && seq[k + 1] == r {
            1nat
        } else {
            0nat
        }),
{
    assert(seq.take(k + 2).drop_last() =~= seq.take(k + 1));
}

/// Counting the pairs of a sequence with one more symbol in front.
proof fn lemma_pair_count_cons(a: u32, s: Seq<u32>, l: u32, r: u32)
    ensures
        pair_count(seq![a] + s, l, r) == pair_count(s, l, r) + (if s.len() > 0 && a == l && s[0] == r {
            1nat
        } else {
            0nat
        }),
    decreases s.len(),
{
    let t = seq![a] + s;
    if s.len() == 0 {
        assert(t.len() == 1);
    } else {
        let s1 = s.drop_last();
        lemma_pair_count_cons(a, s1, l, r);
        assert(t.drop_last() =~= seq![a] + s1);
        if s.len() == 1 {
            assert(t.drop_last() =~= seq![a]);
            assert(t[0] == a && t[1] == s[0]);
        } else {
            assert(t[t.len() - 2] == s[s.len() - 2]);
            assert(t[t.len() - 1] == s[s.len() - 1]);
            assert(s1[0] == s[0]);
        }
    }
}

/// A round replaces every occurrence of the chosen pair: after replacing
/// `(l, r)` by a symbol `v` that is neither `l` nor `r`, the pair occurs
/// nowhere in the sequence.
pub proof fn lemma_replace_leaves_no_pair(seq: Seq<u32>, l: u32, r: u32, v: u32)
    requires
        v != l,
        v != r,
    ensures
        pair_count(replace_pair(seq, l, r, v), l, r) == 0,
    decreases seq.len(),
{
    if seq.len() > 0 {
        if seq.len() >= 2 && seq[0] == l && seq[1] == r {
            lemma_replace_leaves_no_pair(seq.skip(2), l, r, v);
            lemma_pair_count_cons(v, replace_pair(seq.skip(2), l, r, v), l, r);
        } else {
            let s1 = seq.skip(1);
            let t = replace_pair(s1, l, r, v);
            lemma_replace_leaves_no_pair(s1, l, r, v);
            lemma_pair_count_cons(seq[0], t, l, r);
            if t.len() > 0 && seq[0] == l {
                if s1.len() >= 2 && s1[0] == l && s1[1] == r {
                    assert(t[0] == v);
                } else {
                    assert(t[0] == s1[0]);
                    assert(s1[0] == seq[1]);
                }
            }
        }
    }
}

/// Occurrences are replaced from the left: a sequence that begins with the
/// pair begins with `v` after replacing, followed by the replacement of the
/// rest; and replacing splits at a point where no occurrence crosses, that
/// is after a symbol other than `l`.
pub proof fn lemma_replace_from_left(a: Seq<u32>, b: Seq<u32>, l: u32, r: u32, v: u32)
    ensures
        replace_pair(seq![l, r] + b, l, r, v) == seq![v] + replace_pair(b, l, r, v),
        (a.len() == 0 || a.last() != l) ==> replace_pair(a + b, l, r, v) == replace_pair(a, l, r, v) + replace_pair(
            b,
            l,
            r,
            v,
        ),
    decreases a.len(),
{
    assert((seq![l, r] + b).skip(2) =~= b);
    if a.len() == 0 {
        assert(a + b =~= b);
        assert(replace_pair(a, l, r, v) =~= Seq::<u32>::empty());
        assert(Seq::<u32>::empty() + replace_pair(b, l, r, v) =~= replace_pair(b, l, r, v));
    } else if a.last() != l {
        let ab = a + b;
        if a.len() >= 2 && a[0] == l && a[1] == r {
            lemma_replace_from_left(a.skip(2), b, l, r, v);
            assert(ab.skip(2) =~= a.skip(2) + b);
            assert(ab[0] == a[0] && ab[1] == a[1]);
            if a.len() == 2 {
                assert(a.skip(2) =~= Seq::<u32>::empty());
            } else {
                assert(a.skip(2).last() == a.last());
            }
            assert(seq![v] + replace_pair(a.skip(2), l, r, v) + replace_pair(b, l, r, v) =~= seq![v] + (replace_pair(
                a.skip(2),
                l,
                r,
                v,
            ) + replace_pair(b, l, r, v)));
        } else {
            lemma_replace_from_left(a.skip(1), b, l, r, v);
            assert(ab.skip(1) =~= a.skip(1) + b);
            assert(ab[0] == a[0]);
            if a.len() == 1 {
                assert(a.skip(1) =~= Seq::<u32>::empty());
                assert(a[0] != l);
            } else {
                assert(a.skip(1).last() == a.last());
                assert(ab[1] == a[1]);
            }
            assert(seq![a[0]] + replace_pair(a.skip(1), l, r, v) + replace_pair(b, l, r, v) =~= seq![a[0]] + (
            replace_pair(a.skip(1), l, r, v) + replace_pair(b, l, r, v)));
        }
    }
}

/// Each occurrence of `v` in the replaced sequence stands for one
/// occurrence of the pair: writing `l, r` back in place of every `v` gives
/// the sequence back, when `v` does not occur in it.
pub proof fn lemma_replace_undone(seq: Seq<u32>, l: u32, r: u32, v: u32)
    requires
        forall|i: int| 0 <= i < seq.len() ==> #[trigger] seq[i] != v,
    ensures
        undo_replace(replace_pair(seq, l, r, v), l, r, v) == seq,
    decreases seq.len(),
{
    if seq.len() > 0 {
        if seq.len() >= 2 && seq[0] == l && seq[1] == r {
            let s2 = seq.skip(2);
            lemma_replace_undone(s2, l, r, v);
            lemma_undo_cons(v, replace_pair(s2, l, r, v), l, r, v);
            assert(seq =~= seq![l, r] + s2);
        } else {
            let s1 = seq.skip(1);
            lemma_replace_undone(s1, l, r, v);
            lemma_undo_cons(seq[0], replace_pair(s1, l, r, v), l, r, v);
            assert(seq =~= seq![seq[0]] + s1);
        }
    }
}

/// Writing `l, r` in place of every `v`.
pub open spec fn undo_replace(seq: Seq<u32>, l: u32, r: u32, v: u32) -> Seq<u32>
    decreases seq.len(),
{
    if seq.len() == 0 {
        Seq::empty()
    } else {
        undo_replace(seq.drop_last(), l, r, v) + if seq.last() == v {
            seq![l, r]
        } else {
            seq![seq.last()]
        }
    }
}

/// Undoing a sequence with one more symbol in front.
proof fn lemma_undo_cons(a: u32, s: Seq<u32>, l: u32, r: u32, v: u32)
    ensures
        undo_replace(seq![a] + s, l, r, v) == (if a == v {
            seq![l, r]
        } else {
            seq![a]
        }) + undo_replace(s, l, r, v),
    decreases s.len(),
{
    let t = seq![a] + s;
    if s.len() == 0 {
        assert(t.drop_last() =~= Seq::<u32>::empty());
        assert(undo_replace(Seq::<u32>::empty(), l, r, v) =~= Seq::<u32>::empty());
        assert(t.last() == a);
        let h = if a == v {
            seq![l, r]
        } else {
            seq![a]
        };
        assert(Seq::<u32>::empty() + h =~= h);
        assert(h + Seq::<u32>::empty() =~= h);
    } else {
        lemma_undo_cons(a, s.drop_last(), l, r, v);
        assert(t.drop_last() =~= seq![a] + s.drop_last());
        assert(t.last() == s.last());
        let h = if a == v {
            seq![l, r]
        } else {
            seq![a]
        };
        let tail = if s.last() == v {
            seq![l, r]
        } else {
            seq![s.last()]
        };
        assert(h + undo_replace(s.drop_last(), l, r, v) + tail =~= h + (undo_replace(s.drop_last(), l, r, v) + tail));
    }
}

/// Looking at one more position: it wins if its pair is more frequent, or,
/// with `sorting`, equally frequent and smaller.
proof fn lemma_choice_step(seq: Seq<u32>, sorting: bool, k: int, m: int)
    requires
        is_choice_upto(seq, sorting, k, m),
        m < seq.len() - 1,
    ensures
        (count_at(seq, m) > count_at(seq, k) || (sorting && count_at(seq, m) == count_at(seq, k)
            && pair_less(seq[m], seq[m + 1], seq[k], seq[k + 1]))) ==> is_choice_upto(
            seq,
            sorting,
            m,
            m + 1,
        ),
        !(count_at(seq, m) > count_at(seq, k) || (sorting && count_at(seq, m) == count_at(seq, k)
            && pair_less(seq[m], seq[m + 1], seq[k], seq[k + 1]))) ==> is_choice_upto(
            seq,
            sorting,
            k,
            m + 1,
        ),
{
    if count_at(seq, m) > count_at(seq, k) || (sorting && count_at(seq, m) == count_at(seq, k)
        && pair_less(seq[m], seq[m + 1], seq[k], seq[k + 1])) {
        assert forall|i: int| 0 <= i < m + 1 implies #[trigger] count_at(seq, i) <= count_at(seq, m) by {
            if i < m {
                assert(count_at(seq, i) <= count_at(seq, k));
            }
        }
    }
}

/// Some position is chosen among the first `m`.
proof fn lemma_choice_exists_upto(seq: Seq<u32>, sorting: bool, m: int) -> (k: int)
    requires
        1 <= m <= seq.len() - 1,
    ensures
        is_choice_upto(seq, sorting, k, m),
    decreases m,
{
    if m == 1 {
        0
    } else {
        let k0 = lemma_choice_exists_upto(seq, sorting, m - 1);
        lemma_choice_step(seq, sorting, k0, m - 1);
        let j = m - 1;
        if count_at(seq, j) > count_at(seq, k0) || (sorting && count_at(seq, j) == count_at(seq, k0)
            && pair_less(seq[j], seq[j + 1], seq[k0], seq[k0 + 1])) {
            j
        } else {
            k0
        }
    }
}

/// A choice exists when there is a pair.
proof fn lemma_choice_exists(seq: Seq<u32>, sorting: bool)
    requires
        seq.len() >= 2,
    ensures
        is_choice(seq, sorting, chosen_position(seq, sorting)),
{
    let k = lemma_choice_exists_upto(seq, sorting, seq.len() - 1);
    assert(is_choice(seq, sorting, k));
}

/// Two positions that both win hold the same pair.
proof fn lemma_choice_unique(seq: Seq<u32>, sorting: bool, k1: int, k2: int)
    requires
        is_choice(seq, sorting, k1),
        is_choice(seq, sorting, k2),
    ensures
        seq[k1] == seq[k2] && seq[k1 + 1] == seq[k2 + 1],
{
    assert(count_at(seq, k1) <= count_at(seq, k2));
    assert(count_at(seq, k2) <= count_at(seq, k1));
    if !sorting {
        if k1 < k2 {
            assert(count_at(seq, k1) < count_at(seq, k2));
        } else if k2 < k1 {
            assert(count_at(seq, k2) < count_at(seq, k1));
        }
    } else {
        assert(!pair_less(seq[k1], seq[k1 + 1], seq[k2], seq[k2 + 1]));
        assert(!pair_less(seq[k2], seq[k2 + 1], seq[k1], seq[k1 + 1]));
    }
}

/// The expansion of a concatenation.
pub proof fn lemma_expand_concat(z: Seq<u8>, rules: Seq<Seq<u32>>, a: Seq<u32>, b: Seq<u32>, bound: int)
    ensures
        cfg::expand_symbols(z, rules, a + b, bound) == cfg::expand_symbols(z, rules, a, bound)
            + cfg::expand_symbols(z, rules, b, bound),
    decreases b.len(),
{
    if b.len() == 0 {
        assert(a + b =~= a);
    } else {
        lemma_expand_concat(z, rules, a, b.drop_last(), bound);
        assert((a + b).drop_last() =~= a + b.drop_last());
        assert((a + b).last() == b.last());
    }
}

/// The bound does not matter while every symbol is below it.
pub(crate) proof fn lemma_expand_bound(z: Seq<u8>, rules: Seq<Seq<u32>>, xs: Seq<u32>, b1: int, b2: int)
    requires
        forall|i: int| 0 <= i < xs.len() ==> (xs[i] as int) < b1 && (xs[i] as int) < b2,
    ensures
        cfg::expand_symbols(z, rules, xs, b1) == cfg::expand_symbols(z, rules, xs, b2),
    decreases xs.len(),
{
    if xs.len() > 0 {
        lemma_expand_bound(z, rules, xs.drop_last(), b1, b2);
    }
}

/// Adding rules at the end keeps the expansion of every symbol defined before.
pub(crate) proof fn lemma_extend_symbol(z: Seq<u8>, rules: Seq<Seq<u32>>, more: Seq<Seq<u32>>, x: int)
    requires
        cfg::rules_wf(z.len(), rules),
        more.len() >= rules.len(),
        forall|k: int| 0 <= k < rules.len() ==> more[k] == rules[k],
        x <= z.len() + rules.len(),
    ensures
        cfg::expand_symbol(z, more, x) == cfg::expand_symbol(z, rules, x),
    decreases x, 1int, 0int,
{
    if z.len() < x <= z.len() + rules.len() {
        let k = x - z.len() - 1;
        assert(more[k] == rules[k]);
        lemma_extend_symbols(z, rules, more, rules[k], x);
    }
}

proof fn lemma_extend_symbols(z: Seq<u8>, rules: Seq<Seq<u32>>, more: Seq<Seq<u32>>, xs: Seq<u32>, bound: int)
    requires
        cfg::rules_wf(z.len(), rules),
        more.len() >= rules.len(),
        forall|k: int| 0 <= k < rules.len() ==> more[k] == rules[k],
        bound <= z.len() + rules.len() + 1,
    ensures
        cfg::expand_symbols(z, more, xs, bound) == cfg::expand_symbols(z, rules, xs, bound),
    decreases bound, 0int, xs.len(),
{
    if xs.len() > 0 {
        lemma_extend_symbols(z, rules, more, xs.drop_last(), bound);
        if (xs.last() as int) < bound {
            lemma_extend_symbol(z, rules, more, xs.last() as int);
        }
    }
}

/// The expansion of a one-symbol list.
pub(crate) proof fn lemma_expand_single(z: Seq<u8>, rules: Seq<Seq<u32>>, x: u32, bound: int)
    requires
        (x as int) < bound,
    ensures
        cfg::expand_symbols(z, rules, seq![x], bound) == cfg::expand_symbol(z, rules, x as int),
{
    assert(seq![x].drop_last() =~= Seq::<u32>::empty());
    assert(cfg::expand_symbols(z, rules, Seq::<u32>::empty(), bound) =~= Seq::<u8>::empty());
    assert(Seq::<u8>::empty() + cfg::expand_symbol(z, rules, x as int) =~= cfg::expand_symbol(z, rules, x as int));
}

/// The expansion of a two-symbol list.
pub(crate) proof fn lemma_expand_pair(z: Seq<u8>, rules: Seq<Seq<u32>>, a: u32, b: u32, bound: int)
    requires
        (a as int) < bound,
        (b as int) < bound,
    ensures
        cfg::expand_symbols(z, rules, seq![a, b], bound) == cfg::expand_symbol(z, rules, a as int) + cfg::expand_symbol(
            z,
            rules,
            b as int,
        ),
{
    assert(seq![a, b].drop_last() =~= seq![a]);
    lemma_expand_single(z, rules, a, bound);
}

/// Writing a rule's symbols in place of the rule in the sequence keeps the
/// derived string.
pub proof fn lemma_inline_rule(g: GrammarView, j: int)
    requires
        g.wf(),
        0 <= j < g.sequence.len(),
        g.sequence[j] > g.terminal.len(),
    ensures
        ({
            let x = g.sequence[j] as int;
            let body = g.rule[x - g.terminal.len() - 1];
            (GrammarView {
                sequence: g.sequence.subrange(0, j) + body + g.sequence.subrange(j + 1, g.sequence.len() as int),
                ..g
            }).derived() == g.derived()
        }),
{
    let z = g.terminal;
    let rules = g.rule;
    let bound = g.num_symbols() as int + 1;
    let x = g.sequence[j];
    let k = x - z.len() - 1;
    let body = rules[k];
    let a = g.sequence.subrange(0, j);
    let b = g.sequence.subrange(j + 1, g.sequence.len() as int);
    assert(g.sequence =~= a + seq![x] + b);
    lemma_expand_concat(z, rules, a + seq![x], b, bound);
    lemma_expand_concat(z, rules, a, seq![x], bound);
    lemma_expand_single(z, rules, x, bound);
    lemma_expand_concat(z, rules, a + body, b, bound);
    lemma_expand_concat(z, rules, a, body, bound);
    assert forall|i: int| 0 <= i < body.len() implies (body[i] as int) < x && (body[i] as int) < bound by {
        assert(1 <= rules[k][i] <= z.len() + k);
    }
    lemma_expand_bound(z, rules, body, x as int, bound);
}

/// Replacing a pair by the rule that stands for it keeps the expansion.
proof fn lemma_replace_expand(z: Seq<u8>, rules: Seq<Seq<u32>>, seq: Seq<u32>, l: u32, r: u32, v: u32, bound: int)
    requires
        v == z.len() + rules.len(),
        rules.len() >= 1,
        rules[rules.len() - 1] == seq![l, r],
        (l as int) < v,
        (r as int) < v,
        (v as int) < bound,
        forall|i: int| 0 <= i < seq.len() ==> (seq[i] as int) < bound,
    ensures
        cfg::expand_symbols(z, rules, replace_pair(seq, l, r, v), bound) == cfg::expand_symbols(
            z,
            rules,
            seq,
            bound,
        ),
    decreases seq.len(),
{
    if seq.len() == 0 {
    } else if seq.len() >= 2 && seq[0] == l && seq[1] == r {
        let rest = seq.skip(2);
        lemma_replace_expand(z, rules, rest, l, r, v, bound);
        lemma_expand_concat(z, rules, seq![v], replace_pair(rest, l, r, v), bound);
        lemma_expand_single(z, rules, v, bound);
        // the rule for v
        let pr = seq![l, r];
        assert(pr.drop_last() =~= seq![l]);
        lemma_expand_single(z, rules, l, v as int);
        assert(cfg::expand_symbol(z, rules, v as int) == cfg::expand_symbols(z, rules, pr, v as int));
        assert(cfg::expand_symbols(z, rules, pr, v as int) == cfg::expand_symbol(z, rules, l as int)
            + cfg::expand_symbol(z, rules, r as int));
        // the first two symbols of seq
        assert(seq =~= seq.take(2) + rest);
        lemma_expand_concat(z, rules, seq.take(2), rest, bound);
        assert(seq.take(2) =~= pr);
        lemma_expand_single(z, rules, l, bound);
        assert(cfg::expand_symbols(z, rules, pr, bound) == cfg::expand_symbol(z, rules, l as int)
            + cfg::expand_symbol(z, rules, r as int));
    } else {
        let rest = seq.skip(1);
        lemma_replace_expand(z, rules, rest, l, r, v, bound);
        lemma_expand_concat(z, rules, seq![seq[0]], replace_pair(rest, l, r, v), bound);
        assert(seq =~= seq![seq[0]] + rest);
        lemma_expand_concat(z, rules, seq![seq[0]], rest, bound);
    }
}

/// The symbols after a replacement are the old ones or `v`.
proof fn lemma_replace_bounds(seq: Seq<u32>, l: u32, r: u32, v: u32, lo: int, hi: int)
    requires
        forall|i: int| 0 <= i < seq.len() ==> lo <= #[trigger] seq[i] <= hi,
        lo <= v <= hi,
    ensures
        forall|i: int|
            0 <= i < replace_pair(seq, l, r, v).len() ==> lo <= #[trigger] replace_pair(seq, l, r, v)[i]
                <= hi,
        replace_pair(seq, l, r, v).len() <= seq.len(),
    decreases seq.len(),
{
    if seq.len() == 0 {
    } else if seq.len() >= 2 && seq[0] == l && seq[1] == r {
        lemma_replace_bounds(seq.skip(2), l, r, v, lo, hi);
        let t = replace_pair(seq, l, r, v);
        let u = replace_pair(seq.skip(2), l, r, v);
        assert forall|i: int| 0 <= i < t.len() implies lo <= #[trigger] t[i] <= hi by {
            if i > 0 {
                assert(t[i] == u[i - 1]);
            }
        }
    } else {
        lemma_replace_bounds(seq.skip(1), l, r, v, lo, hi);
        let t = replace_pair(seq, l, r, v);
        let u = replace_pair(seq.skip(1), l, r, v);
        assert forall|i: int| 0 <= i < t.len() implies lo <= #[trigger] t[i] <= hi by {
            if i > 0 {
                assert(t[i] == u[i - 1]);
            }
        }
    }
}

/// What holds between rounds: the rules are binary and refer backwards, the
/// sequence uses defined symbols, and it still derives `s`.
pub open spec fn round_inv(z: Seq<u8>, s: Seq<u8>, rules: Seq<Seq<u32>>, seq: Seq<u32>) -> bool {
    &&& cfg::rules_wf(z.len(), rules)
    &&& forall|k: int| 0 <= k < rules.len() ==> (#[trigger] rules[k]).len() == 2
    &&& forall|i: int| 0 <= i < seq.len() ==> 1 <= #[trigger] seq[i] <= z.len() + rules.len()
    &&& cfg::expand_symbols(z, rules, seq, z.len() as int + rules.len() + 1) == s
}

/// One round keeps the invariant.
proof fn lemma_round_step(z: Seq<u8>, s: Seq<u8>, rules: Seq<Seq<u32>>, seq: Seq<u32>, k: int)
    requires
        round_inv(z, s, rules, seq),
        0 <= k < seq.len() - 1,
        z.len() + rules.len() + 1 <= u32::MAX,
    ensures
        ({
            let v = (z.len() + rules.len() + 1) as u32;
            round_inv(
                z,
                s,
                rules.push(seq![seq[k], seq[k + 1]]),
                replace_pair(seq, seq[k], seq[k + 1], v),
            )
        }),
{
    let l = seq[k];
    let r = seq[k + 1];
    let v = (z.len() + rules.len() + 1) as u32;
    let more = rules.push(seq![l, r]);
    let t = replace_pair(seq, l, r, v);
    assert(1 <= l <= z.len() + rules.len());
    assert(1 <= r <= z.len() + rules.len());
    assert forall|kk: int, j: int|
        0 <= kk < more.len() && 0 <= j < more[kk].len() implies 1 <= #[trigger] more[kk][j] <= z.len()
        + kk by {
        if kk < rules.len() {
            assert(more[kk] == rules[kk]);
        }
    }
    lemma_replace_bounds(seq, l, r, v, 1, v as int);
    lemma_replace_expand(z, more, seq, l, r, v, v as int + 1);
    lemma_expand_bound(z, more, seq, v as int + 1, v as int);
    lemma_extend_symbols(z, rules, more, seq, v as int);
}

/// A run keeps the invariant.
proof fn lemma_rounds_inv(z: Seq<u8>, s: Seq<u8>, rules: Seq<Seq<u32>>, seq: Seq<u32>, minfreq: int, sorting: bool)
    requires
        round_inv(z, s, rules, seq),
    ensures
        ({
            let run = repair_rounds(seq, z.len() as int + rules.len() + 1, minfreq, sorting);
            round_inv(z, s, rules + run.0, run.1)
        }),
    decreases u32::MAX - (z.len() + rules.len() + 1),
{
    let next: int = z.len() as int + rules.len() + 1;
    let run = repair_rounds(seq, next, minfreq, sorting);
    if next >= u32::MAX || seq.len() < 2 {
        assert(rules + run.0 =~= rules);
    } else {
        let k = chosen_position(seq, sorting);
        lemma_choice_exists(seq, sorting);
        let l = seq[k];
        let r = seq[k + 1];
        if pair_count(seq, l, r) < minfreq {
            assert(rules + run.0 =~= rules);
        } else {
            lemma_round_step(z, s, rules, seq, k);
            let more = rules.push(seq![l, r]);
            let t = replace_pair(seq, l, r, next as u32);
            lemma_rounds_inv(z, s, more, t, minfreq, sorting);
            let rest = repair_rounds(t, next + 1, minfreq, sorting);
            assert(more.len() == rules.len() + 1);
            assert(rules + run.0 =~= more + rest.0);
        }
    }
}

/// Every byte of `s` is among its first occurrences.
proof fn lemma_first_occurrences(s: Seq<u8>)
    ensures
        forall|k: int| 0 <= k < s.len() ==> first_occurrences(s).contains(#[trigger] s[k]),
        first_occurrences(s).no_duplicates(),
        first_occurrences(s).len() <= 256,
    decreases s.len(),
{
    if s.len() > 0 {
        let p = s.drop_last();
        lemma_first_occurrences(p);
        let z = first_occurrences(p);
        assert forall|k: int| 0 <= k < s.len() implies first_occurrences(s).contains(#[trigger] s[k]) by {
            if k < s.len() - 1 {
                assert(p[k] == s[k]);
                assert(z.contains(s[k]));
                let i = choose|i: int| 0 <= i < z.len() && z[i] == s[k];
                assert(first_occurrences(s)[i] == s[k]);
            } else {
                if !z.contains(s.last()) {
                    assert(first_occurrences(s)[z.len() as int] == s.last());
                }
            }
        }
        lemma_distinct_bytes_bound(first_occurrences(s));
    }
}

/// A byte sequence without duplicates has at most 256 elements.
proof fn lemma_distinct_bytes_bound(z: Seq<u8>)
    requires
        z.no_duplicates(),
    ensures
        z.len() <= 256,
{
    let zs = z.to_set();
    z.unique_seq_to_set();
    let all = Set::new(|b: u8| 0 <= b <= 255);
    assert(zs.subset_of(all));
    lemma_byte_set_size();
    vstd::set_lib::lemma_len_subset(zs, all);
}

proof fn lemma_byte_set_size()
    ensures
        Set::new(|b: u8| 0 <= b <= 255).finite(),
        Set::new(|b: u8| 0 <= b <= 255).len() == 256,
{
    let all = Set::new(|b: u8| 0 <= b <= 255);
    let ints = vstd::set_lib::set_int_range(0, 256);
    vstd::set_lib::lemma_int_range(0, 256);
    let f = |i: int| i as u8;
    assert forall|b: u8| #[trigger] all.contains(b) == ints.map(f).contains(b) by {
        assert(ints.contains(b as int));
        assert(f(b as int) == b);
    }
    assert(all =~= ints.map(f));
    assert forall|a: int, b: int| ints.contains(a) && ints.contains(b) && #[trigger] f(a) == #[trigger] f(b) implies a == b by {}
    vstd::set_lib::lemma_map_size(ints, all, f);
}

/// The first grammar of a run derives `s`.
proof fn lemma_initial_inv(s: Seq<u8>)
    ensures
        round_inv(first_occurrences(s), s, Seq::empty(), initial_symbols(s)),
{
    let z = first_occurrences(s);
    let init = initial_symbols(s);
    let rules = Seq::<Seq<u32>>::empty();
    lemma_first_occurrences(s);
    assert forall|k: int| 0 <= k < s.len() implies 0 <= byte_index(z, #[trigger] s[k]) < z.len()
        && z[byte_index(z, s[k])] == s[k] by {
        assert(z.contains(s[k]));
    }
    assert forall|i: int| 0 <= i < init.len() implies 1 <= #[trigger] init[i] <= z.len() + rules.len() by {
        assert(0 <= byte_index(z, s[i]) < z.len());
    }
    let bound: int = z.len() as int + 1;
    assert forall|k: int| 0 <= k <= s.len() implies #[trigger] cfg::expand_symbols(z, rules, init.take(k), bound)
        == s.take(k) by {
        lemma_initial_prefix(s, k);
    }
    assert(init.take(s.len() as int) =~= init);
    assert(s.take(s.len() as int) =~= s);
}

proof fn lemma_initial_prefix(s: Seq<u8>, k: int)
    requires
        0 <= k <= s.len(),
        first_occurrences(s).len() <= 256,
        forall|j: int| 0 <= j < s.len() ==> first_occurrences(s).contains(#[trigger] s[j]),
    ensures
        cfg::expand_symbols(first_occurrences(s), Seq::empty(), initial_symbols(s).take(k), first_occurrences(s).len() as int + 1)
            == s.take(k),
    decreases k,
{
    let z = first_occurrences(s);
    let init = initial_symbols(s);
    if k == 0 {
        assert(s.take(0) =~= Seq::<u8>::empty());
    } else {
        lemma_initial_prefix(s, k - 1);
        cfg::lemma_expand_take_step(z, Seq::empty(), init, k - 1, z.len() as int + 1);
        assert(z.contains(s[k - 1]));
        let i = byte_index(z, s[k - 1]);
        assert(0 <= i < z.len() && z[i] == s[k - 1]);
        assert(init[k - 1] == (i + 1) as u32);
        assert(s.take(k) =~= s.take(k - 1).push(s[k - 1]));
    }
}

/// RePair loses nothing: the grammar it builds is well formed, its rules are
/// pairs, and it derives exactly the input.
pub proof fn lemma_repair_lossless(s: Seq<u8>, minfreq: int, sorting: bool)
    ensures
        repair_grammar(s, minfreq, sorting).wf(),
        repair_grammar(s, minfreq, sorting).binary(),
        repair_grammar(s, minfreq, sorting).derived() == s,
{
    let z = first_occurrences(s);
    lemma_initial_inv(s);
    lemma_rounds_inv(z, s, Seq::empty(), initial_symbols(s), minfreq, sorting);
    let run = repair_rounds(initial_symbols(s), z.len() as int + 1, minfreq, sorting);
    assert(Seq::<Seq<u32>>::empty() + run.0 =~= run.0);
}


/// When a run stops with symbols to spare, no pair of adjacent symbols of the
/// final sequence occurs `minfreq` times or more.
proof fn lemma_rounds_final(seq: Seq<u32>, next: int, minfreq: int, sorting: bool)
    ensures
        ({
            let run = repair_rounds(seq, next, minfreq, sorting);
            next + run.0.len() < u32::MAX ==> forall|k: int|
                0 <= k < run.1.len() - 1 ==> #[trigger] count_at(run.1, k) < minfreq
        }),
    decreases u32::MAX - next,
{
    if next >= u32::MAX || seq.len() < 2 {
    } else {
        let k = chosen_position(seq, sorting);
        lemma_choice_exists(seq, sorting);
        let l = seq[k];
        let r = seq[k + 1];
        if pair_count(seq, l, r) < minfreq {
            assert forall|j: int| 0 <= j < seq.len() - 1 implies #[trigger] count_at(seq, j) < minfreq by {
                assert(count_at(seq, j) <= count_at(seq, k));
            }
        } else {
            lemma_rounds_final(replace_pair(seq, l, r, next as u32), next + 1, minfreq, sorting);
        }
    }
}

/// RePair stops only when it must: unless the symbols below `u32::MAX` ran
/// out, no pair of adjacent symbols of the final sequence occurs `minfreq`
/// times or more.
pub proof fn lemma_repair_no_frequent_pair(s: Seq<u8>, minfreq: int, sorting: bool)
    ensures
        ({
            let g = repair_grammar(s, minfreq, sorting);
            g.terminal.len() + g.rule.len() + 1 < u32::MAX ==> forall|k: int|
                0 <= k < g.sequence.len() - 1 ==> #[trigger] pair_count(g.sequence, g.sequence[k], g.sequence[k + 1])
                    < minfreq
        }),
{
    let z = first_occurrences(s);
    lemma_rounds_final(initial_symbols(s), z.len() as int + 1, minfreq, sorting);
    let g = repair_grammar(s, minfreq, sorting);
    assert forall|k: int| 0 <= k < g.sequence.len() - 1 && g.terminal.len() + g.rule.len() + 1 < u32::MAX implies #[trigger] pair_count(
        g.sequence,
        g.sequence[k],
        g.sequence[k + 1],
    ) < minfreq by {
        assert(count_at(g.sequence, k) < minfreq);
    }
}

// ---------------------------------------------------------------------------
// The construction
// ---------------------------------------------------------------------------

/// The count that table `m` holds for the key `key`.
pub open spec fn map_count(m: Map<u64, usize>, key: int) -> nat {
    if m.contains_key(key as u64) {
        m[key as u64] as nat
    } else {
        0
    }
}

/// Counts every pair of adjacent symbols of `seq`.
fn count_pairs(seq: &Vec<u32>) -> (m: HashMap<u64, usize>)
    ensures
        forall|l: u32, r: u32| #[trigger] pair_count(seq@, l, r) == map_count(m@, pair_key(l, r)),
{
    let mut m: HashMap<u64, usize> = HashMap::new();
    let n = seq.len();
    if n < 2 {
        return m;
    }
    let mut k: usize = 0;
    while k + 1 < n
        invariant
            n == seq@.len(),
            k + 1 <= n,
            forall|l: u32, r: u32| #[trigger] pair_count(seq@.take(k + 1), l, r) == map_count(m@, pair_key(l, r)),
            forall|key: u64| m@.contains_key(key) ==> m@[key] <= k,
        decreases n - k,
    {
        let a = seq[k];
        let b = seq[k + 1];
        let key: u64 = (a as u64) * 0x1_0000_0000u64 + (b as u64);
        assert(key as int == pair_key(a, b));
        let c: usize = match m.get(&key) {
            Some(c) => *c,
            None => 0,
        };
        assert(c as nat == map_count(m@, pair_key(a, b)));
        let ghost m0 = m@;
        m.insert(key, c + 1);
        proof {
            assert forall|l: u32, r: u32| #[trigger] pair_count(seq@.take(k + 2), l, r) == map_count(m@, pair_key(l, r)) by {
                lemma_pair_count_step(seq@, k as int, l, r);
                assert(pair_count(seq@.take(k + 1), l, r) == map_count(m0, pair_key(l, r)));
                if l == a && r == b {
                } else {
                    if pair_key(l, r) == pair_key(a, b) {
                        lemma_pair_key_injective(l, r, a, b);
                    }
                    assert(pair_key(l, r) as u64 != key);
                }
            }
        }
        k = k + 1;
    }
    assert(seq@.take(n as int) =~= seq@);
    m
}

/// The count of `(l, r)` in table `m`.
fn lookup(m: &HashMap<u64, usize>, l: u32, r: u32) -> (c: usize)
    ensures
        c as nat == map_count(m@, pair_key(l, r)),
{
    let key: u64 = (l as u64) * 0x1_0000_0000u64 + (r as u64);
    assert(key as int == pair_key(l, r));
    match m.get(&key) {
        Some(c) => *c,
        None => 0,
    }
}

/// Finds the position of the pair that a round replaces, and its count.
fn choose_pair(seq: &Vec<u32>, sorting: bool) -> (res: (usize, usize))
    requires
        seq@.len() >= 2,
    ensures
        is_choice(seq@, sorting, res.0 as int),
        res.1 as nat == count_at(seq@, res.0 as int),
{
    let m = count_pairs(seq);
    let n = seq.len();
    let mut best: usize = 0;
    let mut best_cnt = lookup(&m, seq[0], seq[1]);
    assert(is_choice_upto(seq@, sorting, 0, 1));
    let mut j: usize = 1;
    while j + 1 < n
        invariant
            n == seq@.len(),
            1 <= j < n,
            is_choice_upto(seq@, sorting, best as int, j as int),
            best_cnt as nat == count_at(seq@, best as int),
            forall|l: u32, r: u32| #[trigger] pair_count(seq@, l, r) == map_count(m@, pair_key(l, r)),
        decreases n - j,
    {
        let c = lookup(&m, seq[j], seq[j + 1]);
        proof {
            lemma_choice_step(seq@, sorting, best as int, j as int);
        }
        if c > best_cnt || (sorting && c == best_cnt && (seq[j] < seq[best] || (seq[j] == seq[best]
            && seq[j + 1] < seq[best + 1]))) {
            best = j;
            best_cnt = c;
        }
        j = j + 1;
    }
    (best, best_cnt)
}

/// Replaces the occurrences of `(l, r)` by `v`, from left to right.
fn replace_pairs(seq: &Vec<u32>, l: u32, r: u32, v: u32) -> (out: Vec<u32>)
    ensures
        out@ == replace_pair(seq@, l, r, v),
{
    let mut out: Vec<u32> = Vec::new();
    let n = seq.len();
    let mut i: usize = 0;
    assert(seq@.skip(0) =~= seq@);
    while i < n
        invariant
            n == seq@.len(),
            i <= n,
            out@ + replace_pair(seq@.skip(i as int), l, r, v) == replace_pair(seq@, l, r, v),
        decreases n - i,
    {
        let ghost t = seq@.skip(i as int);
        if i + 1 < n && seq[i] == l && seq[i + 1] == r {
            assert(t.skip(2) =~= seq@.skip(i + 2));
            assert(replace_pair(t, l, r, v) == seq![v] + replace_pair(t.skip(2), l, r, v));
            assert(out@.push(v) + replace_pair(seq@.skip(i + 2), l, r, v) =~= out@ + replace_pair(t, l, r, v));
            out.push(v);
            i = i + 2;
        } else {
            assert(t.skip(1) =~= seq@.skip(i + 1));
            assert(replace_pair(t, l, r, v) == seq![seq@[i as int]] + replace_pair(t.skip(1), l, r, v));
            assert(out@.push(seq@[i as int]) + replace_pair(seq@.skip(i + 1), l, r, v) =~= out@ + replace_pair(t, l, r, v));
            out.push(seq[i]);
            i = i + 1;
        }
    }
    assert(seq@.skip(n as int) =~= Seq::<u32>::empty());
    assert(out@ + Seq::<u32>::empty() =~= out@);
    out
}

/// Appends to `z` the distinct bytes of `s` in the order of their first
/// occurrence, and returns `s` written with their symbols.
pub(crate) fn initial_symbols_of(s: &Vec<u8>, z: &mut Vec<u8>) -> (seq: Vec<u32>)
    requires
        old(z)@.len() == 0,
    ensures
        final(z)@ == first_occurrences(s@),
        seq@ == initial_symbols(s@),
{
    let mut table: Vec<u32> = Vec::new();
    let mut t: usize = 0;
    while t < 256
        invariant
            t <= 256,
            table@.len() == t,
            forall|b: int| 0 <= b < t ==> #[trigger] table@[b] == 0,
        decreases 256 - t,
    {
        table.push(0);
        t = t + 1;
    }
    let mut seq: Vec<u32> = Vec::new();
    let n = s.len();
    let mut k: usize = 0;
    assert(s@.take(0) =~= Seq::<u8>::empty());
    while k < n
        invariant
            n == s@.len(),
            k <= n,
            table@.len() == 256,
            z@ == first_occurrences(s@.take(k as int)),
            z@.len() <= 256,
            forall|b: int| 0 <= b < 256 && #[trigger] table@[b] == 0 ==> forall|i: int| 0 <= i < z@.len() ==> z@[i] != b as u8,
            forall|b: int|
                0 <= b < 256 && #[trigger] table@[b] != 0 ==> 1 <= table@[b] <= z@.len() && z@[table@[b] - 1] == b as u8,
            seq@.len() == k,
            forall|j: int| 0 <= j < k ==> 1 <= #[trigger] seq@[j] <= z@.len() && z@[seq@[j] - 1] == s@[j],
        decreases n - k,
    {
        let b = s[k];
        let bi = b as usize;
        let ghost z0 = z@;
        let ghost p = s@.take(k + 1);
        assert(p.drop_last() =~= s@.take(k as int));
        assert(p.last() == b);
        if table[bi] == 0 {
            assert(!z0.contains(b));
            z.push(b);
            proof {
                lemma_first_occurrences(p);
            }
            let id = z.len() as u32;
            table.set(bi, id);
        } else {
            assert(z0[table@[bi as int] - 1] == b);
            assert(z0.contains(b));
        }
        seq.push(table[bi]);
        k = k + 1;
    }
    proof {
        assert(s@.take(n as int) =~= s@);
        lemma_first_occurrences(s@);
        let zz = z@;
        assert forall|j: int| 0 <= j < n implies #[trigger] seq@[j] == initial_symbols(s@)[j] by {
            assert(zz.contains(s@[j]));
            let i = byte_index(zz, s@[j]);
            assert(0 <= i < zz.len() && zz[i] == s@[j]);
            assert(zz[seq@[j] - 1] == s@[j]);
            assert(i == seq@[j] - 1);
        }
        assert(seq@ =~= initial_symbols(s@));
    }
    seq
}

/// Builds into the empty grammar `g` the RePair grammar of `s`: while some
/// pair of adjacent symbols occurs at least `minfreq` times and symbols remain
/// below `u32::MAX`, the most frequent pair (the least of the most frequent
/// ones when `sorting`, else the first to occur) becomes a new rule and its
/// occurrences are replaced, from left to right, by the rule's symbol.
pub fn compression(s: &Vec<u8>, g: &mut Grammar, minfreq: usize, sorting: bool)
    requires
        old(g)@.terminal.len() == 0,
        old(g)@.rule.len() == 0,
        old(g)@.sequence.len() == 0,
        minfreq >= 1,
    ensures
        final(g)@ == repair_grammar(s@, minfreq as int, sorting),
        final(g)@.wf(),
        final(g)@.binary(),
        final(g)@.derived() == s@,
{
    let mut seq = initial_symbols_of(s, &mut g.terminal);
    proof {
        lemma_first_occurrences(s@);
        lemma_repair_lossless(s@, minfreq as int, sorting);
    }
    let ghost z = g.terminal@;
    let ghost init = seq@;
    let ghost target = repair_rounds(init, z.len() as int + 1, minfreq as int, sorting);
    let mut v: u32 = (g.terminal.len() + 1) as u32;
    assert(g@.rule + target.0 =~= target.0);
    loop
        invariant
            g.terminal@ == z,
            z.len() <= 256,
            v as int == z.len() + g@.rule.len() + 1,
            target == repair_rounds(init, z.len() as int + 1, minfreq as int, sorting),
            target.0 == g@.rule + repair_rounds(seq@, v as int, minfreq as int, sorting).0,
            target.1 == repair_rounds(seq@, v as int, minfreq as int, sorting).1,
        ensures
            g.terminal@ == z,
            target.0 == g@.rule,
            target.1 == seq@,
        decreases u32::MAX - v,
    {
        if v >= u32::MAX || seq.len() < 2 {
            assert(g@.rule + Seq::<Seq<u32>>::empty() =~= g@.rule);
            break;
        }
        let (k, c) = choose_pair(&seq, sorting);
        proof {
            lemma_choice_exists(seq@, sorting);
            lemma_choice_unique(seq@, sorting, k as int, chosen_position(seq@, sorting));
        }
        let l = seq[k];
        let r = seq[k + 1];
        if c < minfreq {
            assert(g@.rule + Seq::<Seq<u32>>::empty() =~= g@.rule);
            break;
        }
        let ghost rules0 = g@.rule;
        let ghost rest = repair_rounds(replace_pair(seq@, l, r, v), v as int + 1, minfreq as int, sorting);
        let pair: Vec<u32> = vec![l, r];
        assert(pair@ =~= seq![l, r]);
        g.rule.push(pair);
        assert(g@.rule =~= rules0.push(seq![l, r]));
        assert(rules0 + (seq![seq![l, r]] + rest.0) =~= rules0.push(seq![l, r]) + rest.0);
        seq = replace_pairs(&seq, l, r, v);
        v = v + 1;
    }
    g.sequence = seq;
}

} // verus!
