use bit_vec::BitVec;
use rp::module::cfg::Grammar;
use rp::module::comp::compression;
use rp::module::encode::fble;
use rp::module::encode::sorting;
use rp::module::encode::u32bits;
use rp::module::encode::{rebuild_run_rules, rule_deltas, split_header};

fn push_bits(bv: &mut BitVec, x: u64, n: usize) {
    for k in (0..n).rev() {
        bv.push((x >> k) & 1 == 1);
    }
}

fn bits(bv: &BitVec) -> Vec<bool> {
    bv.iter().collect()
}

fn sample_grammar() -> Grammar {
    let mut g = Grammar::new();
    g.terminal = b"ab".to_vec();
    g.rule = vec![vec![1, 2], vec![3, 1], vec![2, 4], vec![5, 3], vec![1, 1]];
    g.sequence = vec![7, 6];
    g
}

#[test]
fn rule_deltas_without_bias() {
    let g = sample_grammar();
    let d = rule_deltas(&g, 0);
    assert_eq!(d.deltas, vec![2, 1, 1, 1]);
    assert_eq!(d.starting_values, vec![1]);
    assert_eq!(d.starting_points, vec![4]);
    assert_eq!(d.deltas_minimums, vec![1, 2, 2, 2, 0]);
    assert_eq!(bits(&d.max_first), vec![false, true, false, true, true]);
}

#[test]
fn rule_deltas_with_bias() {
    let g = sample_grammar();
    let d = rule_deltas(&g, 1);
    assert_eq!(d.deltas, vec![3, 2, 2, 2]);
    assert_eq!(d.starting_values, vec![1]);
    assert_eq!(d.starting_points, vec![4]);
    assert_eq!(d.deltas_minimums, vec![2, 3, 3, 3, 1]);
}

#[test]
fn sorting_pack_layout() {
    let d = rule_deltas(&sample_grammar(), 0);
    let v = sorting::pack_deltas(&d);
    assert_eq!(v, vec![4, 1, 2, 1, 1, 1, 1, 4, 1, 2, 2, 2, 0]);
    let (a, b, c, e) = sorting::unpack_deltas(&v);
    assert_eq!(a, d.deltas);
    assert_eq!(b, d.starting_values);
    assert_eq!(c, d.starting_points);
    assert_eq!(e, d.deltas_minimums);
}

fn sorting_roundtrip(g: &Grammar) {
    let d = rule_deltas(g, 0);
    let v = sorting::pack_deltas(&d);
    let (a, b, c, e) = sorting::unpack_deltas(&v);
    let mut rules: Vec<Vec<u32>> = Vec::new();
    assert!(sorting::rebuild_rules(&a, &b, &c, &e, &d.max_first, g.rule.len(), &mut rules));
    assert_eq!(rules, g.rule);
}

#[test]
fn sorting_streams_roundtrip() {
    sorting_roundtrip(&sample_grammar());
}

#[test]
fn sorting_streams_roundtrip_on_compressed_text() {
    let s = b"how much wood would a woodchuck chuck if a woodchuck could chuck wood".to_vec();
    let mut g = Grammar::new();
    compression(&s, &mut g, 2, true);
    sorting_roundtrip(&g);
}

#[test]
fn sorting_split_pieces() {
    let mut bv = BitVec::new();
    push_bits(&mut bv, 0, 8);
    push_bits(&mut bv, 3, 32);
    push_bits(&mut bv, 0b101, 3);
    push_bits(&mut bv, 2, 32);
    push_bits(&mut bv, 0b01, 2);
    push_bits(&mut bv, 1, 32);
    push_bits(&mut bv, 1, 1);
    push_bits(&mut bv, 0b10, 2);
    let p = sorting::split_sorting(&bv);
    assert_eq!(bits(&p.z), vec![true, false, true]);
    assert_eq!(bits(&p.vbits), vec![false, true]);
    assert_eq!(p.dlen, 1);
    assert_eq!(bits(&p.max_first), vec![true]);
    assert_eq!(bits(&p.s), vec![true, false]);
}

#[test]
fn sorting_drop_zero_padding() {
    let mut a = vec![4, 2, 0];
    sorting::drop_zero_padding(&mut a);
    assert_eq!(a, vec![4, 2]);
    sorting::drop_zero_padding(&mut a);
    assert_eq!(a, vec![4, 2]);
    let mut e: Vec<u32> = Vec::new();
    sorting::drop_zero_padding(&mut e);
    assert!(e.is_empty());
}

#[test]
fn fble_flatten_roundtrip() {
    let g = sample_grammar();
    let v = fble::flatten(&g);
    assert_eq!(v, vec![97, 98, 1, 2, 3, 1, 2, 4, 5, 3, 1, 1, 7, 6]);
    let mut h = Grammar::new();
    assert!(fble::unflatten(&v, 2, 5, &mut h));
    let mut e = Grammar::new();
    assert!(!fble::unflatten(&vec![97, 98, 1], 2, 1, &mut e));
    assert!(e.terminal.is_empty() && e.rule.is_empty() && e.sequence.is_empty());
    assert_eq!(h.terminal, g.terminal);
    assert_eq!(h.rule, g.rule);
    assert_eq!(h.sequence, g.sequence);
}

#[test]
fn fble_header_roundtrip() {
    let g = sample_grammar();
    let mut tbv = BitVec::new();
    push_bits(&mut tbv, 0b110, 3);
    let mut bv = BitVec::new();
    push_bits(&mut bv, 0, 8);
    fble::write_fble(&g, &tbv, &mut bv);
    assert_eq!(bv.len(), 8 + 96 + 3);
    let (zl, rl, rest) = fble::split_fble(&bv);
    assert_eq!((zl, rl), (2, 5));
    assert_eq!(bits(&rest), vec![true, true, false]);
}

#[test]
fn header_split_pieces() {
    let mut bv = BitVec::new();
    push_bits(&mut bv, 2, 8);
    push_bits(&mut bv, b'a' as u64, 8);
    push_bits(&mut bv, b'b' as u64, 8);
    push_bits(&mut bv, 1, 32);
    push_bits(&mut bv, 3, 32);
    push_bits(&mut bv, 5, 3);
    push_bits(&mut bv, 1, 1);
    push_bits(&mut bv, 2, 32);
    push_bits(&mut bv, 1, 3);
    push_bits(&mut bv, 6, 3);
    push_bits(&mut bv, 0b10, 2);
    let p = split_header(&bv).unwrap();
    assert_eq!(p.terminal, b"ab".to_vec());
    assert_eq!(p.glen, 1);
    assert_eq!(p.u, vec![5]);
    assert_eq!(bits(&p.lr), vec![true]);
    assert_eq!(p.sequence, vec![1, 6]);
    assert_eq!(bits(&p.d), vec![true, false]);
}

#[test]
fn run_rules_rebuilt() {
    let v = vec![3, 2, 1, 3, 1];
    let u = vec![2, 2, 1];
    let mut lr = BitVec::new();
    lr.push(false);
    lr.push(false);
    lr.push(true);
    let mut rules: Vec<Vec<u32>> = vec![vec![9, 9]];
    assert!(rebuild_run_rules(&v, &u, &lr, 3, &mut rules));
    assert_eq!(rules, vec![vec![9, 9], vec![1, 2], vec![2, 3], vec![1, 1]]);
}

#[test]
fn malformed_rule_streams_are_refused() {
    let mut rules: Vec<Vec<u32>> = vec![vec![1, 2]];
    let mf = BitVec::from_elem(1, false);
    // a difference larger than the symbol
    assert!(!sorting::rebuild_rules(&vec![2], &vec![1], &vec![5], &vec![3], &mf, 1, &mut rules));
    // the run lengths lie beyond the stream
    assert!(!rebuild_run_rules(&vec![3], &vec![2], &mf, 1, &mut rules));
    assert_eq!(rules, vec![vec![1, 2]]);
}

#[test]
fn grammar_well_formedness() {
    let g = sample_grammar();
    assert!(g.well_formed());
    let mut h = sample_grammar();
    h.rule[1] = vec![4, 1];
    assert!(!h.well_formed());
    let mut h = sample_grammar();
    h.sequence.push(8);
    assert!(!h.well_formed());
    let mut h = sample_grammar();
    h.sequence.push(0);
    assert!(!h.well_formed());
}

#[test]
fn sorting_layout_roundtrip() {
    let g = sample_grammar();
    let d = rule_deltas(&g, 0);
    let mut z = BitVec::new();
    push_bits(&mut z, 0b1011, 4);
    let mut v = BitVec::new();
    push_bits(&mut v, 0b01, 2);
    let mut bv = BitVec::new();
    push_bits(&mut bv, 2, 8);
    rp::bits::push_block(&z, &mut bv);
    rp::bits::push_block(&v, &mut bv);
    rp::bits::push_block(&d.max_first, &mut bv);
    push_bits(&mut bv, 0b111, 3);
    let p = sorting::split_sorting(&bv);
    assert_eq!(bits(&p.z), bits(&z));
    assert_eq!(bits(&p.vbits), bits(&v));
    assert_eq!(p.dlen, 5);
    assert_eq!(bits(&p.max_first), bits(&d.max_first));
    assert_eq!(bits(&p.s), vec![true, true, true]);
}

fn derived(g: &Grammar) -> Vec<u8> {
    let mut w = Vec::new();
    g.derive(&mut w);
    w
}

#[test]
fn fble_text_roundtrip() {
    let s = b"she sells sea shells by the sea shore".to_vec();
    for sorting in [false, true] {
        let mut g = Grammar::new();
        compression(&s, &mut g, 2, sorting);
        let v = fble::flatten(&g);
        let mut h = Grammar::new();
        assert!(fble::unflatten(&v, g.terminal.len() as u64, g.rule.len() as u64, &mut h));
        assert_eq!(derived(&h), s);
    }
}

#[test]
fn sorting_streams_without_run_start() {
    // the larger symbols never fall: no starting point at all
    for text in [b"abab".to_vec(), b"aaaa".to_vec(), b"abcabc".to_vec()] {
        let mut g = Grammar::new();
        compression(&text, &mut g, 2, true);
        assert!(!g.rule.is_empty());
        let d = rule_deltas(&g, 0);
        assert!(d.starting_points.is_empty());
        sorting_roundtrip(&g);
    }
    let mut rules: Vec<Vec<u32>> = Vec::new();
    let mf = BitVec::from_elem(1, false);
    assert!(sorting::rebuild_rules(&vec![2], &vec![], &vec![], &vec![1], &mf, 1, &mut rules));
    assert_eq!(rules, vec![vec![1, 2]]);
}

#[test]
fn longer_rules_write_their_first_pair() {
    let mut g = Grammar::new();
    g.terminal = b"ab".to_vec();
    g.rule = vec![vec![1, 2, 1], vec![3, 3]];
    g.sequence = vec![4];
    assert_eq!(fble::flatten(&g), vec![97, 98, 1, 2, 3, 3, 4]);
    let mut bv = BitVec::new();
    push_bits(&mut bv, 0, 8);
    u32bits::encode(&g, &mut bv);
    assert_eq!(bv.len(), 8 + 64 + 8 * 2 + 64 * 2 + 32);
    let mut h = Grammar::new();
    u32bits::decode(&bv, &mut h);
    assert_eq!(h.rule, vec![vec![1, 2], vec![3, 3]]);
    assert_eq!(h.sequence, vec![4]);
}
