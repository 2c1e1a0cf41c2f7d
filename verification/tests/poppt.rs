use bit_vec::BitVec;
use rp::module::cfg::Grammar;
use rp::module::comp::compression;
use rp::module::poppt::POPPT;
use rp::poppt;

fn bits(bv: &BitVec) -> Vec<bool> {
    bv.iter().collect()
}

fn derived(g: &Grammar) -> Vec<u8> {
    let mut w = Vec::new();
    g.derive(&mut w);
    w
}

fn tree_roundtrip(g: &Grammar) -> Grammar {
    let mut p = POPPT::new();
    g.to_poppt(&mut p);
    let mut h = Grammar::new();
    p.to_grammar(&mut h);
    h
}

#[test]
fn grammar_derive_exact() {
    let mut g = Grammar::new();
    g.terminal = b"ab".to_vec();
    g.rule = vec![vec![1, 2], vec![3, 1], vec![2, 4]];
    g.sequence = vec![5, 3, 1];
    assert_eq!(derived(&g), b"babaaba".to_vec());
}

#[test]
fn to_poppt_exact() {
    let mut g = Grammar::new();
    g.terminal = b"ab".to_vec();
    g.rule = vec![vec![1, 2], vec![3, 3]];
    g.sequence = vec![4, 1];
    let mut p = POPPT::new();
    g.to_poppt(&mut p);
    // 4 = (3 3), 3 = (a b): leaves a b, node, leaf 3, node, then leaf a and the join
    assert_eq!(bits(&p.bit), vec![false, false, true, false, true, false, true]);
    assert_eq!(p.label, vec![1, 2, 3, 1]);
    assert_eq!(p.terminal, b"ab".to_vec());
    let mut h = Grammar::new();
    p.to_grammar(&mut h);
    assert_eq!(h.terminal, b"ab".to_vec());
    assert_eq!(h.rule, vec![vec![1, 2], vec![3, 3], vec![4, 1]]);
    assert_eq!(h.sequence, vec![5]);
    assert_eq!(derived(&h), b"ababa".to_vec());
    assert_eq!(derived(&h), derived(&g));
}

#[test]
fn to_poppt_unreachable_terminal() {
    // the first rule gets the number after all terminals of the grammar,
    // not after the terminals that the tree keeps
    let mut g = Grammar::new();
    g.terminal = b"xab".to_vec();
    g.rule = vec![vec![2, 3], vec![4, 4]];
    g.sequence = vec![5, 2];
    let mut p = POPPT::new();
    g.to_poppt(&mut p);
    assert_eq!(bits(&p.bit), vec![false, false, true, false, true, false, true]);
    assert_eq!(p.label, vec![1, 2, 4, 1]);
    assert_eq!(p.terminal, b"ab".to_vec());
}

#[test]
fn poppt_tree_roundtrip_on_compressed_text() {
    for s in [b"abracadabra".to_vec(), b"aaaaaaaaaaaaaaaa".to_vec(), b"to be or not to be, that is".to_vec()] {
        for sorting in [false, true] {
            let mut g = Grammar::new();
            compression(&s, &mut g, 2, sorting);
            let h = tree_roundtrip(&g);
            assert_eq!(derived(&h), s);
        }
    }
}

#[test]
fn poppt_code_roundtrip() {
    let z = b"ab".to_vec();
    let g = vec![(1, 2), (3, 1), (2, 4), (5, 3), (1, 1)];
    let s = vec![7, 6, 3];
    let mut bv = BitVec::new();
    let (nb, nl, logn) = poppt::encode(&z, &g, &s, &mut bv);
    let mut w = Vec::new();
    poppt::decode(&bv, &mut w);
    assert_eq!(w, b"aababaabab".to_vec());
    assert!(nb > nl);
    assert_eq!(logn, usize::BITS - nl.leading_zeros());
}

#[test]
fn poppt_code_single_terminal() {
    let z = b"q".to_vec();
    let g: Vec<(u32, u32)> = Vec::new();
    let s = vec![1];
    let mut bv = BitVec::new();
    let (nb, nl, logn) = poppt::encode(&z, &g, &s, &mut bv);
    assert_eq!((nb, nl, logn), (2, 1, 1));
    let mut w = Vec::new();
    poppt::decode(&bv, &mut w);
    assert_eq!(w, b"q".to_vec());
}

#[test]
fn inlined_rule_keeps_derived_text() {
    let mut g = Grammar::new();
    g.terminal = b"ab".to_vec();
    g.rule = vec![vec![1, 2], vec![3, 1], vec![2, 4]];
    g.sequence = vec![5, 3, 1];
    let mut g2 = Grammar::new();
    g2.terminal = g.terminal.clone();
    g2.rule = g.rule.clone();
    // symbol 5 is the rule [2, 4]
    g2.sequence = vec![2, 4, 3, 1];
    assert_eq!(derived(&g2), derived(&g));
    let mut g3 = Grammar::new();
    g3.terminal = g.terminal.clone();
    g3.rule = g.rule.clone();
    // symbol 3 is the rule [1, 2]
    g3.sequence = vec![5, 1, 2, 1];
    assert_eq!(derived(&g3), derived(&g));
}

#[test]
fn tree_read_back_is_well_formed_with_pairs() {
    for s in [b"abracadabra".to_vec(), b"mississippi".to_vec(), b"aaaaaaaa".to_vec()] {
        let g = compress_text(&s);
        let h = tree_roundtrip(&g);
        assert!(h.well_formed());
        assert!(h.rule.iter().all(|r| r.len() == 2));
        assert_eq!(h.sequence.len(), 1);
        assert_eq!(derived(&h), s);
    }
}

#[test]
fn tree_has_one_more_leaf_than_inner_nodes() {
    for s in [b"abracadabra".to_vec(), b"a".to_vec(), b"abcabcabc".to_vec()] {
        let g = compress_text(&s);
        let mut p = POPPT::new();
        g.to_poppt(&mut p);
        let b = bits(&p.bit);
        let leaves = b.iter().filter(|x| !**x).count();
        let nodes = b.iter().filter(|x| **x).count();
        assert_eq!(leaves, nodes + 1);
        assert_eq!(p.label.len(), leaves);
    }
}

fn compress_text(s: &Vec<u8>) -> Grammar {
    let mut g = Grammar::new();
    compression(s, &mut g, 2, false);
    g
}

#[test]
fn poppt_code_forward_reference() {
    // 3 = (4, 1) refers to the later rule 4 = (1, 2)
    let z = b"ab".to_vec();
    let g = vec![(4, 1), (1, 2)];
    let s = vec![3];
    let mut bv = BitVec::new();
    let (nb, nl, logn) = poppt::encode(&z, &g, &s, &mut bv);
    assert_eq!((nb, nl, logn), (6, 3, 2));
    assert_eq!(bits(&bv)[..6].to_vec(), vec![false, false, true, false, true, true]);
    let mut w = Vec::new();
    poppt::decode(&bv, &mut w);
    assert_eq!(w, b"aba".to_vec());
}

#[test]
fn derive_follows_later_rules() {
    let mut g = Grammar::new();
    g.terminal = b"ab".to_vec();
    // 3 = [4, 1, 4] refers to the later rule 4 = [2, 1]
    g.rule = vec![vec![4, 1, 4], vec![2, 1]];
    g.sequence = vec![3, 2];
    assert!(!g.well_formed());
    assert!(g.derives_check());
    assert_eq!(derived(&g), b"baabab".to_vec());
    // a cycle that the sequence reaches
    g.rule = vec![vec![4, 1], vec![3, 2]];
    assert!(!g.derives_check());
    // an undefined symbol in the sequence, and symbol 0
    g.rule = vec![vec![1, 2]];
    g.sequence = vec![4];
    assert!(!g.derives_check());
    g.sequence = vec![0];
    assert!(!g.derives_check());
    // a cycle that the sequence never reaches
    g.rule = vec![vec![1, 2], vec![4, 4]];
    g.sequence = vec![3, 1];
    assert!(g.derives_check());
    assert_eq!(derived(&g), b"aba".to_vec());
}
