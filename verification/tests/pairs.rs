use bit_vec::BitVec;
use rp::gamma;
use rp::maxinc;
use rp::module::cfg::Grammar;
use rp::module::encode::fble;

fn bits(bv: &BitVec) -> Vec<bool> {
    bv.iter().collect()
}

fn push_bits(bv: &mut BitVec, x: u64, n: usize) {
    for k in (0..n).rev() {
        bv.push((x >> k) & 1 == 1);
    }
}

fn sample_pairs() -> Vec<(u32, u32)> {
    vec![(1, 2), (3, 1), (2, 4), (5, 3), (1, 1)]
}

#[test]
fn max_streams_exact() {
    let st = gamma::max_streams(&sample_pairs());
    assert_eq!(st.v, vec![3, 2, 2, 2, 5]);
    assert_eq!(st.r, vec![5]);
    assert_eq!(st.ren, 1);
    assert_eq!(bits(&st.lr), vec![false, true, false, true, true]);
    assert_eq!(st.u, vec![1, 1, 2, 3, 1]);
}

#[test]
fn maxinc_streams_end_with_last_run() {
    let st = maxinc::maxinc_streams(&sample_pairs());
    assert_eq!(st.r, vec![5, 1]);
    assert_eq!(st.v, vec![3, 2, 2, 2, 5]);
}

#[test]
fn maxinc_rules_roundtrip() {
    for g in [
        sample_pairs(),
        vec![(1, 1)],
        vec![(2, 1), (1, 3), (4, 2), (1, 2), (6, 5), (3, 3)],
        vec![(9, 8), (7, 6), (5, 4), (3, 2)],
    ] {
        let st = maxinc::maxinc_streams(&g);
        let mut v = st.v.clone();
        v.extend_from_slice(&st.r);
        let h = maxinc::rebuild_pairs(&v, &st.u, &st.lr, g.len());
        assert_eq!(h, Some(g));
    }
}

#[test]
fn pair_grammar_expansion() {
    let z = b"ab".to_vec();
    let g = sample_pairs();
    let mut w = Vec::new();
    gamma::drv(6, &z, &g, &mut w);
    assert_eq!(w, b"babaab".to_vec());
    let mut w = Vec::new();
    assert!(maxinc::expand_pairs(&z, &g, &vec![7, 6], &mut w));
    assert_eq!(w, b"aababaab".to_vec());
}

#[test]
fn bit_lengths() {
    assert_eq!(gamma::bit_length_of(0), 0);
    assert_eq!(gamma::bit_length_of(1), 1);
    assert_eq!(gamma::bit_length_of(5), 3);
    assert_eq!(gamma::bit_length_of(8), 4);
    assert_eq!(gamma::bit_length_of(255), 8);
}

#[test]
fn fixed_width_fields() {
    let mut bv = BitVec::new();
    gamma::u_to_bv(5, 4, &mut bv);
    assert_eq!(bits(&bv), vec![false, true, false, true]);
    let mut bv = BitVec::new();
    gamma::push_fields(&vec![1, 2], 3, &mut bv);
    assert_eq!(bits(&bv), vec![false, false, true, false, true, false]);
    let mut bv = BitVec::new();
    gamma::push_bytes(&b"a".to_vec(), &mut bv);
    assert_eq!(bits(&bv), vec![false, true, true, false, false, false, false, true]);
}

#[test]
fn gamma_head_and_middle() {
    let mut bv = BitVec::new();
    gamma::write_gamma_head(&b"ab".to_vec(), 5, &mut bv);
    assert_eq!(bv.len(), 8 + 16 + 32);
    let mut expect = BitVec::new();
    push_bits(&mut expect, 2, 8);
    push_bits(&mut expect, b'a' as u64, 8);
    push_bits(&mut expect, b'b' as u64, 8);
    push_bits(&mut expect, 5, 32);
    assert_eq!(bits(&bv), bits(&expect));

    let mut lr = BitVec::new();
    lr.push(true);
    lr.push(false);
    let mut bv = BitVec::new();
    gamma::write_gamma_mid(&vec![1, 2], &lr, 3, 2, &mut bv);
    let mut expect = BitVec::new();
    push_bits(&mut expect, 1, 2);
    push_bits(&mut expect, 2, 2);
    expect.push(true);
    expect.push(false);
    push_bits(&mut expect, 3, 32);
    assert_eq!(bits(&bv), bits(&expect));
}

#[test]
fn gamma_split_and_expand() {
    let mut bv = BitVec::new();
    push_bits(&mut bv, 7, 8);
    push_bits(&mut bv, 9, 32);
    bv.push(true);
    let (a, b, rest) = gamma::split_gamma(&bv);
    assert_eq!((a, b), (7, 9));
    assert_eq!(bits(&rest), vec![true]);

    let mut g = Grammar::new();
    g.terminal = b"ab".to_vec();
    g.rule = vec![vec![1, 2], vec![3, 3], vec![4, 1]];
    g.sequence = vec![5, 2];
    let v = fble::flatten(&g);
    let mut w = Vec::new();
    assert!(gamma::expand_gamma(&v, 2, 3, &mut w));
    assert_eq!(w, b"ababab".to_vec());
}

#[test]
fn maxinc_head_layout() {
    let mut lr = BitVec::new();
    lr.push(true);
    let mut bv = BitVec::new();
    maxinc::write_maxinc(&b"a".to_vec(), 1, &vec![2], &vec![1], &lr, 2, &mut bv);
    let mut expect = BitVec::new();
    push_bits(&mut expect, 1, 8);
    push_bits(&mut expect, b'a' as u64, 8);
    push_bits(&mut expect, 1, 32);
    push_bits(&mut expect, 2, 32);
    push_bits(&mut expect, 1, 2);
    expect.push(true);
    push_bits(&mut expect, 1, 32);
    push_bits(&mut expect, 2, 2);
    assert_eq!(bits(&bv), bits(&expect));
}

#[test]
fn malformed_pair_streams_are_refused() {
    // no run length after the rises
    let mut lr = BitVec::new();
    lr.push(false);
    assert_eq!(maxinc::rebuild_pairs(&vec![3], &vec![1], &lr, 1), None);
    // a fall below zero
    assert_eq!(maxinc::rebuild_pairs(&vec![5, 1, 1], &vec![1], &lr, 1), None);
    // a rule that refers to itself, and a sequence symbol out of range
    let z = b"ab".to_vec();
    let mut w = b"x".to_vec();
    assert!(!maxinc::expand_pairs(&z, &vec![(1, 3)], &vec![3], &mut w));
    assert!(!maxinc::expand_pairs(&z, &vec![(1, 2)], &vec![4], &mut w));
    assert_eq!(w, b"x".to_vec());
    // a list that ends inside a rule, and a rule that refers to itself
    assert!(!gamma::expand_gamma(&vec![97, 98, 1], 2, 1, &mut w));
    assert!(!gamma::expand_gamma(&vec![97, 98, 1, 3, 3], 2, 1, &mut w));
    assert_eq!(w, b"x".to_vec());
}

#[test]
fn maxinc_layout_roundtrip() {
    let z = b"ab".to_vec();
    let g = sample_pairs();
    let s = vec![7, 6];
    let st = maxinc::maxinc_streams(&g);
    let sbitlen = gamma::bit_length_of(z.len() + g.len());
    assert_eq!(sbitlen, 3);
    let mut bv = BitVec::new();
    maxinc::write_maxinc(&z, g.len(), &s, &st.u, &st.lr, sbitlen, &mut bv);
    bv.push(true);
    bv.push(false);
    let p = rp::module::encode::split_header(&bv).unwrap();
    assert_eq!(p.terminal, z);
    assert_eq!(p.glen, 5);
    assert_eq!(p.u, st.u);
    assert_eq!(bits(&p.lr), bits(&st.lr));
    assert_eq!(p.sequence, s);
    assert_eq!(bits(&p.d), vec![true, false]);
}

#[test]
fn pair_rules_may_refer_to_later_rules() {
    let z = b"ab".to_vec();
    // 3 = (4, 1), 4 = (1, 2): rule 3 refers to the later rule 4
    let g = vec![(4, 1), (1, 2)];
    let mut w = Vec::new();
    gamma::drv(3, &z, &g, &mut w);
    assert_eq!(w, b"aba".to_vec());
    let mut w = Vec::new();
    assert!(maxinc::expand_pairs(&z, &g, &vec![3, 4, 2], &mut w));
    assert_eq!(w, b"abaabb".to_vec());
    // a cycle that the sequence never reaches does not stop the expansion
    let mut w = Vec::new();
    assert!(maxinc::expand_pairs(&z, &vec![(3, 1), (1, 2)], &vec![4, 1], &mut w));
    assert_eq!(w, b"aba".to_vec());
    // a cycle through two rules that the sequence reaches does
    let mut w = Vec::new();
    assert!(!maxinc::expand_pairs(&z, &vec![(4, 1), (3, 2)], &vec![3], &mut w));
    assert!(w.is_empty());
    // the same forward reference written as a gamma number list
    let v = vec![97, 98, 4, 1, 1, 2, 3, 4, 2];
    let mut w = Vec::new();
    assert!(gamma::expand_gamma(&v, 2, 2, &mut w));
    assert_eq!(w, b"abaabb".to_vec());
    // a list that ends before its rules spells no sequence and nothing
    let mut w = Vec::new();
    assert!(gamma::expand_gamma(&vec![97, 98], 2, 3, &mut w));
    assert!(w.is_empty());
}
