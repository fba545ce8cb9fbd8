use ember_mesh::chunker::{Assembler, Chunk};

fn data(n: usize) -> Vec<u8> {
    (0..n).map(|i| (i * 31 % 251) as u8).collect()
}

#[test]
fn split_sizes() {
    let d = data(12345);
    let cs = Assembler::split_message(9, &d);
    assert_eq!(cs.len(), 25);
    for (i, c) in cs.iter().enumerate() {
        assert_eq!(c.total, 25);
        assert_eq!(c.index as usize, i);
        assert_eq!(c.msg_id, 9);
    }
    assert_eq!(cs[24].data.len(), 345);
    assert_eq!(cs[0].data.len(), 500);
    assert_eq!(Assembler::split_message(1, &[]).len(), 0);
    assert_eq!(Assembler::split_message(1, &data(500)).len(), 1);
    assert_eq!(Assembler::split_message(1, &data(501)).len(), 2);
}

#[test]
fn reassembles_in_any_order_with_duplicates() {
    let d = data(2300);
    let cs = Assembler::split_message(77, &d);
    let order = [3usize, 0, 3, 1, 0, 4, 2];
    let mut a = Assembler::new();
    let mut out = None;
    for (k, &i) in order.iter().enumerate() {
        let r = a.add_chunk(cs[i].clone(), 0);
        if k < order.len() - 1 {
            assert!(r.is_none(), "early output at delivery {}", k);
        } else {
            out = r;
        }
    }
    assert_eq!(out, Some(d));
}

#[test]
fn out_of_range_index_is_dropped() {
    let mut a = Assembler::new();
    assert!(a.add_chunk(Chunk { msg_id: 1, total: 2, index: 0, data: vec![1] }, 0).is_none());
    assert!(a.add_chunk(Chunk { msg_id: 1, total: 5, index: 4, data: vec![9] }, 0).is_none());
    assert_eq!(a.add_chunk(Chunk { msg_id: 1, total: 5, index: 1, data: vec![2] }, 0), Some(vec![1, 2]));
}

#[test]
fn single_chunk_message_completes_at_once() {
    let mut a = Assembler::new();
    assert_eq!(a.add_chunk(Chunk { msg_id: 4, total: 1, index: 0, data: vec![5, 6] }, 0), Some(vec![5, 6]));
}

#[test]
fn stale_buffer_is_dropped() {
    let d = data(12345);
    let cs = Assembler::split_message(5, &d);
    let mut a = Assembler::new();
    for c in cs.iter().take(10) {
        assert!(a.add_chunk(c.clone(), 1_000).is_none());
    }
    a.cleanup_stale(1_000 + 65_000);
    let mut last = None;
    for c in cs.iter().skip(10) {
        last = a.add_chunk(c.clone(), 66_000);
    }
    assert!(last.is_none());
}

#[test]
fn fresh_buffer_survives_cleanup() {
    let cs = Assembler::split_message(6, &data(1200));
    let mut a = Assembler::new();
    assert!(a.add_chunk(cs[0].clone(), 1_000).is_none());
    a.cleanup_stale(1_000 + 59_999);
    assert!(a.add_chunk(cs[1].clone(), 61_000).is_none());
    assert_eq!(a.add_chunk(cs[2].clone(), 61_000), Some(data(1200)));
}
