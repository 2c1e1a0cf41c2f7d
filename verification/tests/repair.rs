use bit_vec::BitVec;
use rp::module::cfg::Grammar;
use rp::module::comp::compression;
use rp::module::encode::u32bits;

fn compress(s: &[u8], minfreq: usize, sorting: bool) -> Grammar {
    let mut g = Grammar::new();
    compression(&s.to_vec(), &mut g, minfreq, sorting);
    g
}

fn derived(g: &Grammar) -> Vec<u8> {
    let mut w = Vec::new();
    g.derive(&mut w);
    w
}

#[test]
fn compression_abracadabra() {
    let s = b"abracadabra";
    let g = compress(s, 2, false);
    assert_eq!(g.terminal, b"abrcd".to_vec());
    assert_eq!(derived(&g), s.to_vec());
    // "ab" (and others) occur twice; the first most frequent pair is (a, b)
    assert_eq!(g.rule[0], vec![1, 2]);
}

#[test]
fn compression_roundtrip_various() {
    let inputs: Vec<&[u8]> = vec![b"", b"a", b"aa", b"aaa", b"aaaa", b"abababab", b"mississippi", b"the quick brown fox jumps over the lazy dog the quick brown fox"];
    for s in inputs {
        for sorting in [false, true] {
            for minfreq in [1usize, 2, 3] {
                let g = compress(s, minfreq, sorting);
                assert_eq!(derived(&g), s.to_vec());
                for r in &g.rule {
                    assert_eq!(r.len(), 2);
                }
            }
        }
    }
}

#[test]
fn u32bits_roundtrip() {
    let g = compress(b"abababcabc", 2, false);
    let mut bv = BitVec::new();
    for _ in 0..8 {
        bv.push(false);
    }
    u32bits::encode(&g, &mut bv);
    let mut h = Grammar::new();
    u32bits::decode(&bv, &mut h);
    assert_eq!(h.terminal, g.terminal);
    assert_eq!(h.rule, g.rule);
    assert_eq!(h.sequence, g.sequence);
}

#[test]
fn u32bits_text_roundtrip() {
    let s = b"peter piper picked a peck of pickled peppers".to_vec();
    for sorting in [false, true] {
        let g = compress(&s, 2, sorting);
        let mut bv = BitVec::new();
        for _ in 0..8 {
            bv.push(true);
        }
        u32bits::encode(&g, &mut bv);
        let mut h = Grammar::new();
        u32bits::decode(&bv, &mut h);
        assert!(h.well_formed());
        assert_eq!(derived(&h), s);
    }
}

#[test]
fn compression_minfreq_stops_rounds() {
    // every pair of "abcabc" occurs at most twice: no round at minfreq 3
    let g = compress(b"abcabc", 3, false);
    assert!(g.rule.is_empty());
    assert_eq!(g.sequence, vec![1, 2, 3, 1, 2, 3]);
    let g = compress(b"abcabc", 2, false);
    assert_eq!(g.rule[0], vec![1, 2]);
    assert_eq!(derived(&g), b"abcabc".to_vec());
}

#[test]
fn compression_sorting_takes_least_pair() {
    // (c, d) and (b, e) both occur twice; sorting picks the least pair
    // (b, e) = (2, 5), otherwise the first to occur, (c, d) = (3, 4)
    let g = compress(b"abcdcdbebe", 2, true);
    assert_eq!(g.terminal, b"abcde".to_vec());
    assert_eq!(g.rule[0], vec![2, 5]);
    let g = compress(b"abcdcdbebe", 2, false);
    assert_eq!(g.rule[0], vec![3, 4]);
    assert_eq!(derived(&g), b"abcdcdbebe".to_vec());
}

#[test]
fn u32bits_roundtrip_with_trailing_bits() {
    let g = compress(b"how much wood would a woodchuck chuck", 2, true);
    for pad in [1usize, 7, 31] {
        let mut bv = BitVec::new();
        for _ in 0..8 {
            bv.push(false);
        }
        u32bits::encode(&g, &mut bv);
        for k in 0..pad {
            bv.push(k % 2 == 0);
        }
        let mut h = Grammar::new();
        u32bits::decode(&bv, &mut h);
        assert_eq!(h.terminal, g.terminal);
        assert_eq!(h.rule, g.rule);
        assert_eq!(h.sequence, g.sequence);
    }
}
