use std::collections::HashMap;

use rp::ds::{Bigram, Bucket, FreqTable, List, PairArray, Record};

fn slot(val: Option<u32>, prev: Option<usize>, next: Option<usize>) -> Bucket {
    Bucket { val, prev, next }
}

fn key(l: u32, r: u32) -> u64 {
    (l as u64) * 0x1_0000_0000 + (r as u64)
}

fn record(loc: usize, freq: usize) -> Record {
    Record { loc, freq, prev: None, next: None }
}

#[test]
fn pair_array_navigation() {
    // slot 1 was merged away: its links jump over it
    let a = vec![
        slot(Some(3), None, None),
        slot(None, Some(0), Some(2)),
        slot(Some(4), None, None),
        slot(Some(5), None, None),
    ];
    assert_eq!(a.rgh_pos(0), Some(1));
    assert_eq!(a.rgh_pos(1), Some(2));
    assert_eq!(a.rgh_pos(3), None);
    assert_eq!(a.lft_pos(0), None);
    assert_eq!(a.lft_pos(1), Some(0));
    assert_eq!(a.lft_pos(2), Some(1));
    // the pair from slot 0 reaches the emptied slot 1: no pair
    assert_eq!(a.rgh_bg(0), None);
    assert_eq!(a.rgh_bg(2), Some(Bigram { left: 4, right: 5 }));
    assert_eq!(a.rgh_bg(3), None);
    assert_eq!(a.lft_bg(3), Some(Bigram { left: 4, right: 5 }));
    assert_eq!(a.lft_bg(0), None);
    assert_eq!(a.lft_bg(2), None);
}

#[test]
fn pair_array_create_links_occurrences() {
    let s = b"abcabcab".to_vec();
    let mut a = vec![slot(None, None, None); s.len()];
    let mut h: HashMap<u64, usize> = HashMap::new();
    let mut recs: Vec<Record> = Vec::new();
    let mut z: Vec<u8> = Vec::new();
    let f = a.create(&mut h, &mut recs, &mut z, &s);
    assert_eq!(z, b"abc".to_vec());
    let ids: Vec<u32> = a.iter().map(|b| b.val.unwrap()).collect();
    assert_eq!(ids, vec![1, 2, 3, 1, 2, 3, 1, 2]);
    // (a, b) occurs at 0, 3 and 6; (b, c) at 1 and 4; (c, a) at 2 and 5
    assert_eq!(f, 3);
    assert_eq!(h.len(), 3);
    assert_eq!(recs.len(), 3);
    let ab = recs[h[&key(1, 2)]];
    assert_eq!((ab.loc, ab.freq), (0, 3));
    let bc = recs[h[&key(2, 3)]];
    assert_eq!((bc.loc, bc.freq), (1, 2));
    let ca = recs[h[&key(3, 1)]];
    assert_eq!((ca.loc, ca.freq), (2, 2));
    assert_eq!(a[0].next, Some(3));
    assert_eq!(a[3].next, Some(6));
    assert_eq!(a[6].next, None);
    assert_eq!(a[3].prev, Some(0));
    assert_eq!(a[6].prev, Some(3));
    assert_eq!(a[0].prev, None);
    assert_eq!(a[1].next, Some(4));
    assert_eq!(a[4].prev, Some(1));
    assert_eq!(a[7].next, None);
}

#[test]
fn pair_array_create_without_repeats() {
    let s = b"xyz".to_vec();
    let mut a = vec![slot(None, None, None); s.len()];
    let mut h: HashMap<u64, usize> = HashMap::new();
    let mut recs: Vec<Record> = Vec::new();
    let mut z: Vec<u8> = Vec::new();
    let f = a.create(&mut h, &mut recs, &mut z, &s);
    assert_eq!(f, 1);
    assert_eq!(z, b"xyz".to_vec());
    assert_eq!(recs.len(), 2);
    assert_eq!(recs[h[&key(1, 2)]].freq, 1);
    assert_eq!(recs[h[&key(2, 3)]].loc, 1);
    assert!(a.iter().all(|b| b.prev.is_none() && b.next.is_none()));
}

#[test]
fn pair_array_create_empty() {
    let s: Vec<u8> = Vec::new();
    let mut a: Vec<Bucket> = Vec::new();
    let mut h: HashMap<u64, usize> = HashMap::new();
    let mut recs: Vec<Record> = Vec::new();
    let mut z: Vec<u8> = Vec::new();
    assert_eq!(a.create(&mut h, &mut recs, &mut z, &s), 1);
    assert!(z.is_empty() && recs.is_empty() && h.is_empty());
}

#[test]
fn freq_table_enqueue_then_dequeue_restores() {
    let mut q = vec![List { head: None, tail: None }; 4];
    let mut recs = vec![record(0, 2), record(5, 2), record(9, 3)];
    q.enqueue(&mut recs, 0);
    assert_eq!(q.top(2), Some(0));
    let q0 = q.clone();
    let r0 = recs.clone();
    q.enqueue(&mut recs, 1);
    assert_eq!(q[2].head, Some(0));
    assert_eq!(q[2].tail, Some(1));
    assert_eq!(recs[0].next, Some(1));
    assert_eq!(recs[1].prev, Some(0));
    q.dequeue(&mut recs, 1);
    for f in 0..4 {
        assert_eq!((q[f].head, q[f].tail), (q0[f].head, q0[f].tail));
    }
    for r in 0..3 {
        assert_eq!((recs[r].prev, recs[r].next), (r0[r].prev, r0[r].next));
    }
}

#[test]
fn freq_table_dequeue_middle_and_ends() {
    let mut q = vec![List { head: None, tail: None }; 3];
    let mut recs = vec![record(0, 1), record(1, 1), record(2, 1)];
    q.create(&mut recs);
    assert_eq!(q.top(1), Some(0));
    assert_eq!(q[1].tail, Some(2));
    q.dequeue(&mut recs, 1);
    assert_eq!(recs[0].next, Some(2));
    assert_eq!(recs[2].prev, Some(0));
    assert_eq!((recs[1].prev, recs[1].next), (None, None));
    q.dequeue(&mut recs, 0);
    assert_eq!(q.top(1), Some(2));
    assert_eq!(recs[2].prev, None);
    q.dequeue(&mut recs, 2);
    assert_eq!((q[1].head, q[1].tail), (None, None));
    assert_eq!(q.top(0), None);
}

#[test]
fn adjacent_pair_needs_no_links() {
    // the links of other slots point anywhere: only slot i's neighbour is read
    let a = vec![slot(Some(7), Some(99), Some(42)), slot(Some(8), Some(57), None), slot(None, Some(500), Some(600))];
    assert_eq!(a.rgh_bg(0), Some(Bigram { left: 7, right: 8 }));
    assert_eq!(a.lft_bg(1), a.rgh_bg(0));
    assert_eq!(a.rgh_bg(1), None);
}

#[test]
fn pair_array_create_with_prefix_and_longer_text() {
    let s = b"abab-more bytes after the slots".to_vec();
    let mut a = vec![slot(None, None, None); 4];
    let mut h: HashMap<u64, usize> = HashMap::new();
    let mut recs: Vec<Record> = Vec::new();
    let mut z: Vec<u8> = b"xy".to_vec();
    let f = a.create(&mut h, &mut recs, &mut z, &s);
    assert_eq!(z, b"xyab".to_vec());
    let ids: Vec<u32> = a.iter().map(|b| b.val.unwrap()).collect();
    assert_eq!(ids, vec![1, 2, 1, 2]);
    assert_eq!(f, 2);
    assert_eq!(recs[h[&key(1, 2)]].freq, 2);
    assert_eq!(a[0].next, Some(2));
    assert_eq!(a[2].prev, Some(0));
}

#[test]
fn freq_table_create_keeps_lists_in_order() {
    let mut q = vec![List { head: None, tail: None }; 3];
    let mut recs = vec![record(0, 2), record(1, 1), record(2, 2), record(3, 0), record(4, 2)];
    q.create(&mut recs);
    // frequency 2 runs through records 0, 2, 4; frequency 1 holds record 1
    assert_eq!((q[2].head, q[2].tail), (Some(0), Some(4)));
    assert_eq!((recs[0].prev, recs[0].next), (None, Some(2)));
    assert_eq!((recs[2].prev, recs[2].next), (Some(0), Some(4)));
    assert_eq!((recs[4].prev, recs[4].next), (Some(2), None));
    assert_eq!((q[1].head, q[1].tail), (Some(1), Some(1)));
    assert_eq!((q[0].head, q[0].tail), (Some(3), Some(3)));
    // every record keeps its frequency; taking one out keeps the others linked
    q.dequeue(&mut recs, 0);
    assert_eq!((q[2].head, q[2].tail), (Some(2), Some(4)));
    assert_eq!(recs[2].prev, None);
    assert_eq!((recs[0].prev, recs[0].next, recs[0].freq), (None, None, 2));
}
