//! Straight-line grammars: terminals, binary (or longer) rules and a start
//! sequence, and the string that such a grammar derives.
use vstd::prelude::*;
use crate::bits;
use crate::bits::bv_push;
use crate::gamma;
use crate::module::poppt;
use crate::module::poppt::{POPPT, WriteState};

verus! {

/// A grammar over bytes. Symbol `x` with `1 <= x <= terminal.len()` stands for
/// the byte `terminal[x - 1]`; symbol `terminal.len() + 1 + k` stands for the
/// concatenation of the symbols of `rule[k]`. Symbol `0` is not used.
#[derive(Debug)]
pub struct Grammar {
    pub terminal: Vec<u8>,
    pub rule: Vec<Vec<u32>>,
    pub sequence: Vec<u32>,
}

/// The mathematical content of a `Grammar`.
pub struct GrammarView {
    pub terminal: Seq<u8>,
    pub rule: Seq<Seq<u32>>,
    pub sequence: Seq<u32>,
}

impl View for Grammar {
    type V = GrammarView;

    open spec fn view(&self) -> GrammarView {
        GrammarView {
            terminal: self.terminal@,
            rule: self.rule@.map_values(|r: Vec<u32>| r@),
            sequence: self.sequence@,
        }
    }
}

/// The bytes that symbol `x` stands for, given terminals `z` and rules `rules`.
pub open spec fn expand_symbol(z: Seq<u8>, rules: Seq<Seq<u32>>, x: int) -> Seq<u8>
    decreases x, 1int, 0int,
{
    if 1 <= x <= z.len() {
        seq![z[x - 1]]
    } else if z.len() < x <= z.len() + rules.len() {
        expand_symbols(z, rules, rules[x - z.len() - 1], x)
    } else {
        Seq::empty()
    }
}

/// The concatenated expansions of the symbols `xs`, each of which is below
/// `bound` in a well-formed grammar (symbols at or above it expand to nothing).
pub open spec fn expand_symbols(z: Seq<u8>, rules: Seq<Seq<u32>>, xs: Seq<u32>, bound: int) -> Seq<u8>
    decreases bound, 0int, xs.len(),
{
    if xs.len() == 0 {
        Seq::empty()
    } else {
        expand_symbols(z, rules, xs.drop_last(), bound) + (if (xs.last() as int) < bound {
            expand_symbol(z, rules, xs.last() as int)
        } else {
            Seq::empty()
        })
    }
}

/// Every symbol of rule `k` is a terminal or an earlier rule.
pub open spec fn rules_wf(zlen: nat, rules: Seq<Seq<u32>>) -> bool {
    forall|k: int, j: int|
        0 <= k < rules.len() && 0 <= j < rules[k].len() ==> 1 <= #[trigger] rules[k][j] <= zlen + k
}

impl GrammarView {
    /// Rules refer only to terminals and earlier rules, and the sequence only
    /// to defined symbols.
    pub open spec fn wf(self) -> bool {
        &&& rules_wf(self.terminal.len(), self.rule)
        &&& forall|j: int|
            0 <= j < self.sequence.len() ==> 1 <= #[trigger] self.sequence[j] <= self.terminal.len()
                + self.rule.len()
    }

    /// The number of symbols that the grammar defines.
    pub open spec fn num_symbols(self) -> nat {
        self.terminal.len() + self.rule.len()
    }

    /// The string that the grammar derives.
    pub open spec fn derived(self) -> Seq<u8> {
        expand_symbols(self.terminal, self.rule, self.sequence, self.num_symbols() as int + 1)
    }

    /// Every rule has exactly two symbols.
    pub open spec fn binary(self) -> bool {
        forall|k: int| 0 <= k < self.rule.len() ==> (#[trigger] self.rule[k]).len() == 2
    }

    /// Every rule has at least two symbols (the encoders write the first two).
    pub open spec fn rules_at_least_pairs(self) -> bool {
        forall|k: int| 0 <= k < self.rule.len() ==> (#[trigger] self.rule[k]).len() >= 2
    }
}

/// What symbol `x` stands for, where its derivation ends within `d` nested
/// rules: `None` where it meets an undefined symbol or goes deeper. Rules
/// may refer to any symbols here, later rules too.
pub open spec fn expand_within(z: Seq<u8>, rules: Seq<Seq<u32>>, x: int, d: nat) -> Option<Seq<u8>>
    decreases d, 0int, 0int,
{
    if 1 <= x <= z.len() {
        Some(seq![z[x - 1]])
    } else if z.len() < x <= z.len() + rules.len() && d > 0 {
        expand_list_within(z, rules, rules[x - z.len() - 1], (d - 1) as nat)
    } else {
        None
    }
}

/// What the symbols `xs` stand for, one after another, each within `d`
/// nested rules.
pub open spec fn expand_list_within(z: Seq<u8>, rules: Seq<Seq<u32>>, xs: Seq<u32>, d: nat) -> Option<Seq<u8>>
    decreases d, 1int, xs.len(),
{
    if xs.len() == 0 {
        Some(Seq::empty())
    } else {
        let a = expand_list_within(z, rules, xs.drop_last(), d);
        let b = expand_within(z, rules, xs.last() as int, d);
        if a is Some && b is Some {
            Some(a.unwrap() + b.unwrap())
        } else {
            None
        }
    }
}

impl GrammarView {
    /// The derivation of symbol `x` ends: it meets no undefined symbol and no
    /// cycle of rules.
    pub open spec fn symbol_ends(self, x: int) -> bool {
        exists|d: nat| #[trigger] expand_within(self.terminal, self.rule, x, d) is Some
    }

    /// The string that symbol `x` derives, where its derivation ends.
    pub open spec fn symbol_string(self, x: int) -> Seq<u8> {
        expand_within(self.terminal, self.rule, x, choose|d: nat| #[trigger] expand_within(self.terminal, self.rule, x, d) is Some).unwrap()
    }

    /// The derivation of every sequence symbol ends.
    pub open spec fn derives(self) -> bool {
        forall|j: int| 0 <= j < self.sequence.len() ==> self.symbol_ends(#[trigger] self.sequence[j] as int)
    }

    /// The strings of the symbols `xs`, one after another.
    pub open spec fn derivation_of(self, xs: Seq<u32>) -> Seq<u8>
        decreases xs.len(),
    {
        if xs.len() == 0 {
            Seq::empty()
        } else {
            self.derivation_of(xs.drop_last()) + self.symbol_string(xs.last() as int)
        }
    }

    /// The string that the sequence derives, where every derivation ends.
    pub open spec fn derivation(self) -> Seq<u8> {
        self.derivation_of(self.sequence)
    }
}

/// A derivation that ends within `d` rules ends the same within more.
pub proof fn lemma_within_mono(z: Seq<u8>, rules: Seq<Seq<u32>>, x: int, d: nat, e: nat)
    requires
        expand_within(z, rules, x, d) is Some,
        d <= e,
    ensures
        expand_within(z, rules, x, e) == expand_within(z, rules, x, d),
    decreases d, 0int, 0int,
{
    if !(1 <= x <= z.len()) {
        lemma_list_within_mono(z, rules, rules[x - z.len() - 1], (d - 1) as nat, (e - 1) as nat);
    }
}

/// Symbols whose derivations end within `d` rules end the same within more.
pub proof fn lemma_list_within_mono(z: Seq<u8>, rules: Seq<Seq<u32>>, xs: Seq<u32>, d: nat, e: nat)
    requires
        expand_list_within(z, rules, xs, d) is Some,
        d <= e,
    ensures
        expand_list_within(z, rules, xs, e) == expand_list_within(z, rules, xs, d),
    decreases d, 1int, xs.len(),
{
    if xs.len() > 0 {
        lemma_list_within_mono(z, rules, xs.drop_last(), d, e);
        lemma_within_mono(z, rules, xs.last() as int, d, e);
    }
}

/// A derivation that ends within some depth gives the string of the symbol.
pub proof fn lemma_symbol_string(g: GrammarView, x: int, d: nat)
    requires
        expand_within(g.terminal, g.rule, x, d) is Some,
    ensures
        g.symbol_ends(x),
        g.symbol_string(x) == expand_within(g.terminal, g.rule, x, d).unwrap(),
{
    assert(expand_within(g.terminal, g.rule, x, d) is Some);
    let c = choose|c: nat| #[trigger] expand_within(g.terminal, g.rule, x, c) is Some;
    if c <= d {
        lemma_within_mono(g.terminal, g.rule, x, c, d);
    } else {
        lemma_within_mono(g.terminal, g.rule, x, d, c);
    }
}

/// Where symbols end within `d` rules, so does every prefix of them and
/// every one of them.
proof fn lemma_list_within_prefix(z: Seq<u8>, rules: Seq<Seq<u32>>, xs: Seq<u32>, d: nat, j: int)
    requires
        expand_list_within(z, rules, xs, d) is Some,
        0 <= j < xs.len(),
    ensures
        expand_list_within(z, rules, xs.take(j), d) is Some,
        expand_within(z, rules, xs[j] as int, d) is Some,
    decreases xs.len(),
{
    if j == xs.len() - 1 {
        assert(xs.take(j) =~= xs.drop_last());
    } else {
        let ys = xs.drop_last();
        lemma_list_within_prefix(z, rules, ys, d, j);
        assert(ys.take(j) =~= xs.take(j));
        assert(ys[j] == xs[j]);
    }
}

/// In rules that refer only to terminals and earlier rules, every defined
/// symbol derives within its own number of rules what `expand_symbol` gives.
pub proof fn lemma_ordered_within(z: Seq<u8>, rules: Seq<Seq<u32>>, x: int)
    requires
        rules_wf(z.len(), rules),
        1 <= x <= z.len() + rules.len(),
    ensures
        expand_within(z, rules, x, x as nat) == Some(expand_symbol(z, rules, x)),
    decreases x, 1int, 0int,
{
    if x > z.len() {
        let k = x - z.len() - 1;
        assert forall|i: int| 0 <= i < rules[k].len() implies 1 <= #[trigger] rules[k][i] < x by {
            assert(1 <= rules[k][i] <= z.len() + k);
        }
        lemma_ordered_list(z, rules, rules[k], x, (x - 1) as nat);
    }
}

/// Symbols below `bound` of such rules derive within `d` rules what
/// `expand_symbols` gives, when `d` reaches `bound - 1`.
proof fn lemma_ordered_list(z: Seq<u8>, rules: Seq<Seq<u32>>, xs: Seq<u32>, bound: int, d: nat)
    requires
        rules_wf(z.len(), rules),
        bound <= z.len() + rules.len() + 1,
        bound - 1 <= d,
        forall|i: int| 0 <= i < xs.len() ==> 1 <= #[trigger] xs[i] < bound,
    ensures
        expand_list_within(z, rules, xs, d) == Some(expand_symbols(z, rules, xs, bound)),
    decreases bound, 0int, xs.len(),
{
    if xs.len() > 0 {
        let ys = xs.drop_last();
        assert forall|i: int| 0 <= i < ys.len() implies 1 <= #[trigger] ys[i] < bound by {
            assert(ys[i] == xs[i]);
        }
        lemma_ordered_list(z, rules, ys, bound, d);
        let y = xs[xs.len() - 1] as int;
        assert(1 <= y < bound);
        lemma_ordered_within(z, rules, y);
        lemma_within_mono(z, rules, y, y as nat, d);
    }
}

/// The symbols `xs` of a grammar whose rules refer only to terminals and
/// earlier rules, and that are all defined, derive what `expand_symbols`
/// gives.
proof fn lemma_ordered_derivation_of(g: GrammarView, xs: Seq<u32>)
    requires
        rules_wf(g.terminal.len(), g.rule),
        forall|i: int| 0 <= i < xs.len() ==> 1 <= #[trigger] xs[i] <= g.num_symbols(),
    ensures
        forall|i: int| 0 <= i < xs.len() ==> g.symbol_ends(#[trigger] xs[i] as int),
        g.derivation_of(xs) == expand_symbols(g.terminal, g.rule, xs, g.num_symbols() as int + 1),
    decreases xs.len(),
{
    assert forall|i: int| 0 <= i < xs.len() implies g.symbol_ends(#[trigger] xs[i] as int) by {
        lemma_ordered_within(g.terminal, g.rule, xs[i] as int);
        lemma_symbol_string(g, xs[i] as int, xs[i] as nat);
    }
    if xs.len() > 0 {
        let ys = xs.drop_last();
        assert forall|i: int| 0 <= i < ys.len() implies 1 <= #[trigger] ys[i] <= g.num_symbols() by {
            assert(ys[i] == xs[i]);
        }
        lemma_ordered_derivation_of(g, ys);
        let y = xs[xs.len() - 1] as int;
        assert(1 <= y <= g.num_symbols());
        lemma_ordered_within(g.terminal, g.rule, y);
        lemma_symbol_string(g, y, y as nat);
    }
}

/// A well-formed grammar derives, and what it derives is `derived()`.
pub proof fn lemma_wf_derives(g: GrammarView)
    requires
        g.wf(),
    ensures
        g.derives(),
        g.derivation() == g.derived(),
{
    lemma_ordered_derivation_of(g, g.sequence);
}

/// Splitting off the last symbol of a prefix.
pub proof fn lemma_expand_take_step(z: Seq<u8>, rules: Seq<Seq<u32>>, xs: Seq<u32>, k: int, bound: int)
    requires
        0 <= k < xs.len(),
    ensures
        expand_symbols(z, rules, xs.take(k + 1), bound) == expand_symbols(z, rules, xs.take(k), bound)
            + (if (xs[k] as int) < bound {
            expand_symbol(z, rules, xs[k] as int)
        } else {
            Seq::empty()
        }),
{
    assert(xs.take(k + 1).drop_last() =~= xs.take(k));
}

/// Appends to `w` the bytes that symbol `x` stands for, given a depth
/// within which its derivation ends.
fn derive_symbol(x: u32, z: &Vec<u8>, g: &Vec<Vec<u32>>, w: &mut Vec<u8>, d: Ghost<nat>)
    requires
        expand_within(z@, g@.map_values(|r: Vec<u32>| r@), x as int, d@) is Some,
    ensures
        final(w)@ == old(w)@ + expand_within(z@, g@.map_values(|r: Vec<u32>| r@), x as int, d@).unwrap(),
    decreases d@,
{
    let ghost rules = g@.map_values(|r: Vec<u32>| r@);
    let xi = x as usize;
    if xi <= z.len() {
        w.push(z[xi - 1]);
    } else {
        let rs = &g[xi - z.len() - 1];
        let ghost k0 = xi - z@.len() - 1;
        let ghost e: nat = (d@ - 1) as nat;
        assert(rules[k0] == rs@);
        let ghost w0 = w@;
        let mut j: usize = 0;
        assert(rs@.take(0) =~= Seq::<u32>::empty());
        while j < rs.len()
            invariant
                rules == g@.map_values(|r: Vec<u32>| r@),
                rules[k0] == rs@,
                0 <= k0 < g@.len(),
                e < d@,
                expand_list_within(z@, rules, rs@, e) is Some,
                j <= rs@.len(),
                expand_list_within(z@, rules, rs@.take(j as int), e) is Some,
                w@ == w0 + expand_list_within(z@, rules, rs@.take(j as int), e).unwrap(),
            decreases rs@.len() - j,
        {
            let c = rs[j];
            proof {
                lemma_list_within_prefix(z@, rules, rs@, e, j as int);
                assert(rs@.take(j + 1).drop_last() =~= rs@.take(j as int));
                assert(rs@.take(j + 1).last() == c);
            }
            derive_symbol(c, z, g, w, Ghost(e));
            assert(w@ =~= w0 + expand_list_within(z@, rules, rs@.take(j + 1), e).unwrap());
            j = j + 1;
        }
        assert(rs@.take(rs@.len() as int) =~= rs@);
    }
}

/// Marks, pass after pass, every rule whose symbols are all terminals or
/// marked rules, until a pass marks nothing more: the marked rules are then
/// those whose derivations end.
fn ending_rules(gv: Ghost<GrammarView>, zl: usize, g: &Vec<Vec<u32>>) -> (m: Vec<bool>)
    requires
        gv@.terminal.len() == zl,
        gv@.rule == g@.map_values(|r: Vec<u32>| r@),
    ensures
        m@.len() == g@.len(),
        forall|k: int| 0 <= k < g@.len() ==> #[trigger] m@[k] == gv@.symbol_ends(zl + k + 1),
{
    let n = g.len();
    let ghost rules = gv@.rule;
    let ghost z = gv@.terminal;
    let mut m: Vec<bool> = Vec::new();
    let mut t: usize = 0;
    while t < n
        invariant
            t <= n,
            m@.len() == t,
            forall|k: int| 0 <= k < t ==> !#[trigger] m@[k],
        decreases n - t,
    {
        m.push(false);
        t = t + 1;
    }
    let mut changed = true;
    while changed
        invariant
            n == g@.len(),
            rules == g@.map_values(|r: Vec<u32>| r@),
            rules == gv@.rule,
            z == gv@.terminal,
            zl == z.len(),
            m@.len() == n,
            forall|k: int| 0 <= k < n && #[trigger] m@[k] ==> gv@.symbol_ends(zl + k + 1),
            !changed ==> forall|k: int| 0 <= k < n ==> #[trigger] m@[k] || !body_marked(zl as nat, m@, rules[k]),
        decreases 2 * (n - gamma::true_count(m@, n as int)) + if changed {
            1int
        } else {
            0int
        },
    {
        proof {
            gamma::lemma_true_count_le(m@, n as int);
        }
        changed = false;
        let ghost m0 = m@;
        let mut k: usize = 0;
        while k < n
            invariant
                n == g@.len(),
                rules == g@.map_values(|r: Vec<u32>| r@),
                rules == gv@.rule,
                z == gv@.terminal,
                zl == z.len(),
                m@.len() == n,
                k <= n,
                m0.len() == n,
                forall|kk: int| 0 <= kk < n && #[trigger] m@[kk] ==> gv@.symbol_ends(zl + kk + 1),
                !changed ==> m@ == m0,
                changed ==> gamma::true_count(m@, n as int) > gamma::true_count(m0, n as int),
                gamma::true_count(m@, n as int) >= gamma::true_count(m0, n as int),
                !changed ==> forall|kk: int| 0 <= kk < k ==> #[trigger] m@[kk] || !body_marked(zl as nat, m@, rules[kk]),
            decreases n - k,
        {
            if !m[k] {
                let rs = &g[k];
                assert(rules[k as int] == rs@);
                let mut all = true;
                let mut j: usize = 0;
                while j < rs.len()
                    invariant
                        j <= rs@.len(),
                        all == forall|jj: int| 0 <= jj < j ==> gamma::marked_symbol(zl as nat, m@, #[trigger] rs@[jj] as int),
                    decreases rs@.len() - j,
                {
                    if !gamma::is_marked(zl, &m, rs[j]) {
                        all = false;
                    }
                    j = j + 1;
                }
                if all {
                    proof {
                        lemma_body_ends(gv@, m@, rs@, k as int);
                        gamma::lemma_true_count_update(m@, n as int, k as int);
                    }
                    let ghost mb = m@;
                    m.set(k, true);
                    assert forall|kk: int| 0 <= kk < n && #[trigger] m@[kk] implies gv@.symbol_ends(zl + kk + 1) by {
                        if kk != k {
                            assert(mb[kk]);
                        }
                    }
                    changed = true;
                } else {
                    assert(!body_marked(zl as nat, m@, rules[k as int]));
                }
            }
            k = k + 1;
        }
        proof {
            gamma::lemma_true_count_le(m@, n as int);
        }
    }
    proof {
        assert forall|k: int| 0 <= k < g@.len() implies #[trigger] m@[k] == gv@.symbol_ends(zl + k + 1) by {
            if !m@[k] && gv@.symbol_ends(zl + k + 1) {
                let d = choose|d: nat| #[trigger] expand_within(z, rules, zl + k + 1, d) is Some;
                lemma_closed_marks(gv@, m@, zl + k + 1, d);
            }
        }
    }
    m
}

/// Every symbol of `xs` is a terminal or a rule that `m` marks.
pub open spec fn body_marked(zl: nat, m: Seq<bool>, xs: Seq<u32>) -> bool {
    forall|i: int| 0 <= i < xs.len() ==> gamma::marked_symbol(zl, m, #[trigger] xs[i] as int)
}

/// A rule whose symbols are all terminals or rules whose derivations end
/// has a derivation that ends.
proof fn lemma_body_ends(g: GrammarView, m: Seq<bool>, xs: Seq<u32>, k: int)
    requires
        m.len() == g.rule.len(),
        0 <= k < g.rule.len(),
        g.rule[k] == xs,
        forall|kk: int| 0 <= kk < m.len() && #[trigger] m[kk] ==> g.symbol_ends(g.terminal.len() + kk + 1),
        forall|i: int| 0 <= i < xs.len() ==> gamma::marked_symbol(g.terminal.len(), m, #[trigger] xs[i] as int),
    ensures
        g.symbol_ends(g.terminal.len() + k + 1),
{
    let d = lemma_list_ends(g, m, xs);
    assert(expand_within(g.terminal, g.rule, g.terminal.len() + k + 1, d + 1) is Some);
}

/// Symbols that are all terminals or rules whose derivations end derive,
/// one after another, within a common depth.
proof fn lemma_list_ends(g: GrammarView, m: Seq<bool>, xs: Seq<u32>) -> (d: nat)
    requires
        m.len() == g.rule.len(),
        forall|kk: int| 0 <= kk < m.len() && #[trigger] m[kk] ==> g.symbol_ends(g.terminal.len() + kk + 1),
        forall|i: int| 0 <= i < xs.len() ==> gamma::marked_symbol(g.terminal.len(), m, #[trigger] xs[i] as int),
    ensures
        expand_list_within(g.terminal, g.rule, xs, d) is Some,
    decreases xs.len(),
{
    if xs.len() == 0 {
        0
    } else {
        let ys = xs.drop_last();
        assert forall|i: int| 0 <= i < ys.len() implies gamma::marked_symbol(g.terminal.len(), m, #[trigger] ys[i] as int) by {
            assert(ys[i] == xs[i]);
        }
        let d0 = lemma_list_ends(g, m, ys);
        let y = xs[xs.len() - 1] as int;
        assert(gamma::marked_symbol(g.terminal.len(), m, y));
        let d1: nat = if 1 <= y <= g.terminal.len() {
            assert(expand_within(g.terminal, g.rule, y, 0) is Some);
            0
        } else {
            assert(m[y - g.terminal.len() - 1]);
            assert(g.symbol_ends(y));
            choose|c: nat| #[trigger] expand_within(g.terminal, g.rule, y, c) is Some
        };
        let e: nat = if d0 <= d1 {
            d1
        } else {
            d0
        };
        lemma_list_within_mono(g.terminal, g.rule, ys, d0, e);
        lemma_within_mono(g.terminal, g.rule, y, d1, e);
        e
    }
}

/// Closed marks hold every symbol whose derivation ends within `d` rules.
proof fn lemma_closed_marks(g: GrammarView, m: Seq<bool>, x: int, d: nat)
    requires
        m.len() == g.rule.len(),
        forall|k: int| 0 <= k < m.len() ==> #[trigger] m[k] || !body_marked(g.terminal.len(), m, g.rule[k]),
        expand_within(g.terminal, g.rule, x, d) is Some,
    ensures
        gamma::marked_symbol(g.terminal.len(), m, x),
    decreases d, 0int, 0int,
{
    if !(1 <= x <= g.terminal.len()) {
        let k = x - g.terminal.len() - 1;
        lemma_closed_marks_list(g, m, g.rule[k], (d - 1) as nat);
        assert(m[k]);
    }
}

/// Closed marks hold every one of symbols that derive within `d` rules.
proof fn lemma_closed_marks_list(g: GrammarView, m: Seq<bool>, xs: Seq<u32>, d: nat)
    requires
        m.len() == g.rule.len(),
        forall|k: int| 0 <= k < m.len() ==> #[trigger] m[k] || !body_marked(g.terminal.len(), m, g.rule[k]),
        expand_list_within(g.terminal, g.rule, xs, d) is Some,
    ensures
        body_marked(g.terminal.len(), m, xs),
    decreases d, 1int, xs.len(),
{
    if xs.len() > 0 {
        let ys = xs.drop_last();
        lemma_closed_marks_list(g, m, ys, d);
        lemma_closed_marks(g, m, xs.last() as int, d);
        assert forall|i: int| 0 <= i < xs.len() implies gamma::marked_symbol(g.terminal.len(), m, #[trigger] xs[i] as int) by {
            if i < ys.len() {
                assert(ys[i] == xs[i]);
            }
        }
    }
}

impl Grammar {
    /// An empty grammar.
    pub fn new() -> (g: Self)
        ensures
            g@.terminal.len() == 0,
            g@.rule.len() == 0,
            g@.sequence.len() == 0,
    {
        Self { terminal: Vec::new(), rule: Vec::new(), sequence: Vec::new() }
    }

    /// Whether the rules refer only to terminals and earlier rules, and the
    /// sequence only to defined symbols (what `to_poppt` needs).
    pub fn well_formed(&self) -> (b: bool)
        ensures
            b == self@.wf(),
    {
        let ghost gv = self@;
        let zl = self.terminal.len() as u64;
        let nr = self.rule.len();
        let mut k: usize = 0;
        while k < nr
            invariant
                gv == self@,
                zl == gv.terminal.len(),
                nr == gv.rule.len(),
                k <= nr,
                forall|kk: int, j: int|
                    0 <= kk < k && 0 <= j < gv.rule[kk].len() ==> 1 <= #[trigger] gv.rule[kk][j] <= zl + kk,
            decreases nr - k,
        {
            let r = &self.rule[k];
            assert(r@ == gv.rule[k as int]);
            let mut j: usize = 0;
            while j < r.len()
                invariant
                    gv == self@,
                    r@ == gv.rule[k as int],
                    zl == gv.terminal.len(),
                    k < nr == gv.rule.len(),
                    j <= r@.len(),
                    forall|jj: int| 0 <= jj < j ==> 1 <= #[trigger] r@[jj] <= zl + k,
                decreases r@.len() - j,
            {
                let x = r[j] as u64;
                if x < 1 || (x > zl && x - zl > k as u64) {
                    return false;
                }
                j = j + 1;
            }
            k = k + 1;
        }
        let nr64 = nr as u64;
        let mut j: usize = 0;
        while j < self.sequence.len()
            invariant
                gv == self@,
                rules_wf(gv.terminal.len(), gv.rule),
                zl == gv.terminal.len(),
                nr64 == gv.rule.len(),
                j <= gv.sequence.len(),
                forall|jj: int| 0 <= jj < j ==> 1 <= #[trigger] gv.sequence[jj] <= zl + nr64,
            decreases gv.sequence.len() - j,
        {
            let x = self.sequence[j] as u64;
            if x < 1 || (x > zl && x - zl > nr64) {
                return false;
            }
            j = j + 1;
        }
        true
    }

    /// Whether the derivation of every sequence symbol ends: it meets no
    /// undefined symbol and no cycle of rules (what `derive` needs).
    pub fn derives_check(&self) -> (b: bool)
        ensures
            b == self@.derives(),
    {
        let ghost gv = self@;
        let zl = self.terminal.len();
        let m = ending_rules(Ghost(gv), zl, &self.rule);
        let mut j: usize = 0;
        while j < self.sequence.len()
            invariant
                gv == self@,
                zl == gv.terminal.len(),
                m@.len() == gv.rule.len(),
                forall|k: int| 0 <= k < gv.rule.len() ==> #[trigger] m@[k] == gv.symbol_ends(zl + k + 1),
                j <= gv.sequence.len(),
                forall|jj: int| 0 <= jj < j ==> gv.symbol_ends(#[trigger] gv.sequence[jj] as int),
            decreases gv.sequence.len() - j,
        {
            let c = self.sequence[j];
            proof {
                let x = c as int;
                if 1 <= x <= zl {
                    assert(expand_within(gv.terminal, gv.rule, x, 0) is Some);
                } else if zl < x <= zl + gv.rule.len() {
                    assert(m@[x - zl - 1] == gv.symbol_ends(x));
                } else {
                    assert forall|d: nat| !(#[trigger] expand_within(gv.terminal, gv.rule, x, d) is Some) by {}
                }
            }
            if !gamma::is_marked(zl, &m, c) {
                return false;
            }
            j = j + 1;
        }
        true
    }

    /// Appends to `w` the string that the grammar derives; its rules may
    /// refer to any symbols, later rules too, as long as the derivation of
    /// every sequence symbol ends.
    pub fn derive(&self, w: &mut Vec<u8>)
        requires
            self@.derives(),
        ensures
            final(w)@ == old(w)@ + self@.derivation(),
    {
        let ghost gv = self@;
        let ghost w0 = w@;
        let mut j: usize = 0;
        assert(gv.sequence.take(0) =~= Seq::<u32>::empty());
        while j < self.sequence.len()
            invariant
                gv == self@,
                gv.derives(),
                j <= gv.sequence.len(),
                w@ == w0 + gv.derivation_of(gv.sequence.take(j as int)),
            decreases gv.sequence.len() - j,
        {
            let c = self.sequence[j];
            let ghost d = choose|d: nat| #[trigger] expand_within(gv.terminal, gv.rule, c as int, d) is Some;
            proof {
                assert(gv.symbol_ends(gv.sequence[j as int] as int));
                lemma_symbol_string(gv, c as int, d);
                assert(gv.sequence.take(j + 1).drop_last() =~= gv.sequence.take(j as int));
                assert(gv.sequence.take(j + 1).last() == c);
            }
            derive_symbol(c, &self.terminal, &self.rule, w, Ghost(d));
            assert(w@ =~= w0 + gv.derivation_of(gv.sequence.take(j + 1)));
            j = j + 1;
        }
        assert(gv.sequence.take(gv.sequence.len() as int) =~= gv.sequence);
    }
}


/// The writer state that a tree under construction, the table of tree
/// symbols and the next fresh variable stand for.
pub open spec fn write_state(p: POPPT, m: Seq<Option<u32>>, var: u32) -> WriteState {
    WriteState { bits: bits::bits_of(p.bit), labels: p.label@, terms: p.terminal@, memo: m, var: var as int }
}

/// Writes symbol `x` into the tree `p`.
fn write_symbol_into(
    x: u32,
    z: &Vec<u8>,
    g: &Vec<Vec<u32>>,
    p: &mut POPPT,
    m: &mut Vec<Option<u32>>,
    var: &mut u32,
)
    requires
        rules_wf(z@.len(), g@.map_values(|r: Vec<u32>| r@)),
        1 <= x <= z@.len() + g@.len(),
        old(m)@.len() == z@.len() + g@.len(),
        ({
            let fin = poppt::write_symbol(
                z@,
                g@.map_values(|r: Vec<u32>| r@),
                x as int,
                write_state(*old(p), old(m)@, *old(var)),
            );
            &&& fin.var <= u32::MAX
            &&& fin.terms.len() < u32::MAX
            &&& fin.bits.len() < usize::MAX
        }),
    ensures
        final(m)@.len() == old(m)@.len(),
        write_state(*final(p), final(m)@, *final(var)) == poppt::write_symbol(
            z@,
            g@.map_values(|r: Vec<u32>| r@),
            x as int,
            write_state(*old(p), old(m)@, *old(var)),
        ),
    decreases x,
{
    let ghost rules = g@.map_values(|r: Vec<u32>| r@);
    let ghost st0 = write_state(*p, m@, *var);
    let ghost fin = poppt::write_symbol(z@, rules, x as int, st0);
    proof {
        poppt::lemma_write_symbol_continues(z@, rules, x as int, st0);
    }
    let xi = x as usize;
    match m[xi - 1] {
        Some(y) => {
            p.label.push(y);
            bv_push(&mut p.bit, false);
            assert(write_state(*p, m@, *var) =~= fin);
        },
        None => {
            if xi <= z.len() {
                let t = p.terminal.len() as u32 + 1;
                m.set(xi - 1, Some(t));
                p.label.push(t);
                bv_push(&mut p.bit, false);
                p.terminal.push(z[xi - 1]);
                assert(write_state(*p, m@, *var) =~= fin);
            } else {
                let rs = &g[xi - z.len() - 1];
                let ghost k0 = xi - z@.len() - 1;
                assert(rules[k0] == rs@);
                let ghost st2 = poppt::write_symbols(z@, rules, rs@, x as int, st0);
                let mut j: usize = 0;
                assert(rs@.take(0) =~= Seq::<u32>::empty());
                while j < rs.len()
                    invariant
                        rules == g@.map_values(|r: Vec<u32>| r@),
                        rules_wf(z@.len(), rules),
                        rules[k0] == rs@,
                        k0 == x - z@.len() - 1,
                        0 <= k0 < g@.len(),
                        j <= rs@.len(),
                        m@.len() == z@.len() + g@.len(),
                        st2 == poppt::write_symbols(z@, rules, rs@, x as int, st0),
                        st2.var < fin.var,
                        st2.bits.len() < fin.bits.len(),
                        fin.var <= u32::MAX,
                        fin.terms.len() < u32::MAX,
                        fin.bits.len() < usize::MAX,
                        st2.terms == fin.terms,
                        write_state(*p, m@, *var) == poppt::write_symbols(z@, rules, rs@.take(j as int), x as int, st0),
                    decreases rs@.len() - j,
                {
                    let e = rs[j];
                    assert(rules[k0][j as int] == e);
                    let ghost cur = write_state(*p, m@, *var);
                    proof {
                        assert(rs@.take(j + 1).drop_last() =~= rs@.take(j as int));
                        poppt::lemma_write_symbols_prefix(z@, rules, rs@, x as int, j + 1, st0);
                    }
                    write_symbol_into(e, z, g, p, m, var);
                    j = j + 1;
                }
                assert(rs@.take(rs@.len() as int) =~= rs@);
                bv_push(&mut p.bit, true);
                m.set(xi - 1, Some(*var));
                *var = *var + 1;
                assert(write_state(*p, m@, *var) =~= fin);
            }
        },
    }
}

impl Grammar {
    /// The state in which a tree is written from this grammar into `p`.
    pub open spec fn tree_start(self, p: POPPT) -> WriteState {
        WriteState {
            bits: bits::bits_of(p.bit),
            labels: p.label@,
            terms: p.terminal@,
            memo: Seq::new((self@.terminal.len() + self@.rule.len()) as nat, |i: int| None::<u32>),
            var: self@.terminal.len() as int + 1,
        }
    }

    /// Appends to `p` the post-order partial parse tree of the grammar: the
    /// sequence symbols, joined left to right by inner nodes, each written
    /// in full at its first occurrence and as a leaf afterwards.
    pub fn to_poppt(&self, p: &mut POPPT)
        requires
            self@.wf(),
            self@.sequence.len() >= 1,
            self@.terminal.len() + self@.rule.len() <= u32::MAX,
            ({
                let fin = poppt::write_sequence(self@, self@.sequence.len() as int, self.tree_start(*old(p)));
                &&& fin.var <= u32::MAX
                &&& fin.terms.len() < u32::MAX
                &&& fin.bits.len() < usize::MAX
            }),
        ensures
            ({
                let fin = poppt::write_sequence(self@, self@.sequence.len() as int, self.tree_start(*old(p)));
                &&& bits::bits_of(final(p).bit) == fin.bits
                &&& final(p).label@ == fin.labels
                &&& final(p).terminal@ == fin.terms
            }),
    {
        let ghost gv = self@;
        let ghost st0 = self.tree_start(*p);
        let ghost n = gv.sequence.len() as int;
        let ghost fin = poppt::write_sequence(gv, n, st0);
        let total = self.terminal.len() + self.rule.len();
        let mut m: Vec<Option<u32>> = Vec::new();
        let mut t: usize = 0;
        while t < total
            invariant
                t <= total,
                m@.len() == t,
                forall|i: int| 0 <= i < t ==> m@[i] == None::<u32>,
            decreases total - t,
        {
            m.push(None);
            t = t + 1;
        }
        proof {
            poppt::lemma_write_sequence_continues(gv, n, st0);
        }
        let mut var: u32 = self.terminal.len() as u32 + 1;
        assert(m@ =~= st0.memo);
        assert(write_state(*p, m@, var) == st0);
        proof {
            poppt::lemma_write_sequence_prefix(gv, n, 1, st0);
            lemma_write_sequence_bounds(gv, n, 1, st0);
        }
        write_symbol_into(self.sequence[0], &self.terminal, &self.rule, p, &mut m, &mut var);
        let mut c: usize = 1;
        while c < self.sequence.len()
            invariant
                gv == self@,
                gv.wf(),
                1 <= c <= n,
                n == gv.sequence.len(),
                m@.len() == gv.terminal.len() + gv.rule.len(),
                fin == poppt::write_sequence(gv, n, st0),
                fin.var <= u32::MAX,
                fin.terms.len() < u32::MAX,
                fin.bits.len() < usize::MAX,
                write_state(*p, m@, var) == poppt::write_sequence(gv, c as int, st0),
            decreases n - c,
        {
            proof {
                poppt::lemma_write_sequence_prefix(gv, n, c + 1, st0);
                lemma_write_sequence_bounds(gv, n, c + 1, st0);
            }
            write_symbol_into(self.sequence[c], &self.terminal, &self.rule, p, &mut m, &mut var);
            bv_push(&mut p.bit, true);
            var = var + 1;
            assert(write_state(*p, m@, var) =~= poppt::write_sequence(gv, c + 1, st0));
            c = c + 1;
        }
    }
}

/// Along a run, the symbol written last leaves room for what comes after it.
proof fn lemma_write_sequence_bounds(g: GrammarView, n: int, k: int, st: WriteState)
    requires
        1 <= k <= n,
    ensures
        ({
            let fin = poppt::write_sequence(g, n, st);
            let mid = poppt::write_symbol(g.terminal, g.rule, g.sequence[k - 1] as int, poppt::write_sequence(g, k - 1, st));
            &&& mid.var <= fin.var
            &&& mid.terms.len() <= fin.terms.len()
            &&& mid.bits.len() <= fin.bits.len()
            &&& k > 1 ==> mid.var < fin.var && mid.bits.len() < fin.bits.len()
        }),
{
    poppt::lemma_write_sequence_prefix(g, n, k, st);
    if k == 1 {
        assert(poppt::write_sequence(g, 0, st) == st);
    }
}

} // verus!
