use silica_chunks::{Chunk, Heap, MAX_CHUNK_SIZE, MIN_PAYLOAD_LEN};

fn setup(cap: usize) -> Vec<u8> {
    vec![0u8; cap]
}

#[test]
fn test_derived_sizes() {
    assert_eq!(8, Chunk::alignment());
    assert_eq!(1, Chunk::hdr_csize());
    assert_eq!(1, Chunk::to_padded_csize(1));
    assert_eq!(1, Chunk::to_padded_csize(8));
    assert_eq!(2, Chunk::to_padded_csize(9));
    assert_eq!(2, Chunk::to_csize(1));
    assert_eq!(3, Chunk::to_csize(16));
    assert_eq!(Chunk::hdr_csize() + MIN_PAYLOAD_LEN, Chunk::min_size());
    assert_eq!(MAX_CHUNK_SIZE, Chunk::max_size());
}

#[test]
fn test_split_absorb_round_trip() {
    let mut h = Heap::new(setup(Chunk::max_size() * Chunk::alignment()));
    let c0 = h.first_chunk();
    let original_size = h.chunk_at(c0).size();
    let original_count = h.chunk_count();

    let c1 = h.split(c0, 100).unwrap();
    assert_eq!(100, h.chunk_at(c0).size());
    assert_eq!(original_size - 100, h.chunk_at(c1).size());
    assert_eq!(original_count + 1, h.chunk_count());

    h.absorb_next(c0);
    assert_eq!(original_size, h.chunk_at(c0).size());
    assert_eq!(original_count, h.chunk_count());
    assert_eq!(true, h.chunk_at(c0).is_last());
    assert_eq!(false, h.chunk_at(c0).is_allocated());
}

#[test]
fn test_split_too_small_returns_none() {
    let mut h = Heap::new(setup(32 * 1024));
    let c0 = h.first_chunk();
    assert_eq!(4096, h.chunk_at(c0).size());

    // requested part under min_size()
    assert_eq!(None, h.split(c0, Chunk::min_size() - 1));
    // remaining part under min_size()
    assert_eq!(None, h.split(c0, 4096 - Chunk::min_size() + 1));
    // larger than the chunk itself
    assert_eq!(None, h.split(c0, 5000));

    assert_eq!(4096, h.chunk_at(c0).size());
    assert_eq!(1, h.chunk_count());
}

#[test]
fn test_absorb_overflow_is_noop() {
    let mut h = Heap::new(setup(Chunk::max_size() * Chunk::alignment() * 2));
    let c0 = h.first_chunk();
    assert_eq!(2, h.chunk_count());

    // both chunks have max_size(): the sum would overflow the size field.
    h.absorb_next(c0);
    assert_eq!(Chunk::max_size(), h.chunk_at(c0).size());
    assert_eq!(2, h.chunk_count());
}

#[test]
fn test_absorb_on_last_is_noop() {
    let mut h = Heap::new(setup(32 * 1024));
    let c0 = h.first_chunk();

    h.absorb_next(c0);
    assert_eq!(4096, h.chunk_at(c0).size());
    assert_eq!(1, h.chunk_count());
    assert_eq!(true, h.chunk_at(c0).is_last());
}

#[test]
fn test_init_discards_small_residual() {
    // one unit more than max_size(): too little for a second chunk.
    let h = Heap::new(setup((Chunk::max_size() + 1) * Chunk::alignment()));
    let c0 = h.first_chunk();

    assert_eq!(1, h.chunk_count());
    assert_eq!(Chunk::max_size(), h.chunk_at(c0).size());
    assert_eq!(true, h.chunk_at(c0).is_last());
}

#[test]
fn test_find_first_fit() {
    let mut h = Heap::new(setup(32 * 1024));
    let c0 = h.first_chunk();

    assert_eq!(Some(c0), h.find(4096));
    assert_eq!(None, h.find(4097));

    let c1 = h.split(c0, 16).unwrap();
    assert_eq!(Some(c0), h.find(10));

    let mut c0h = h.chunk_at(c0);
    c0h.set_is_allocated(true);
    h.store_chunk(c0, c0h);
    assert_eq!(Some(c1), h.find(10));
    assert_eq!(None, h.find(4096));
}

#[test]
fn test_chunk_list_invariants_after_ops() {
    let mut h = Heap::new(setup(512 * 1014));
    let c0 = h.first_chunk();
    h.split(c0, 2000).unwrap();
    h.absorb_next(h.find(100).unwrap());

    // walk forward: boundary tags agree, sizes in range, one LAST chunk.
    let mut forward = Vec::new();
    let mut lasts = 0;
    let mut prev_size = 0;
    let mut cur = h.first_chunk();
    loop {
        let c = h.chunk_at(cur);
        forward.push(cur);
        assert_eq!(prev_size, c.prev_size());
        assert!(Chunk::min_size() <= c.size() && c.size() <= Chunk::max_size());
        if cur == h.first_chunk() {
            assert_eq!(0, c.prev_size());
        } else {
            assert!(c.prev_size() > 0);
        }
        if c.is_last() {
            lasts += 1;
            break;
        }
        prev_size = c.size();
        cur = c.next(cur).unwrap();
    }
    assert_eq!(1, lasts);
    assert_eq!(h.chunk_count(), forward.len());

    // walk backward from the last chunk: the same offsets in reverse.
    let mut backward = Vec::new();
    loop {
        let c = h.chunk_at(cur);
        backward.push(cur);
        match c.previous(cur) {
            Some(p) => cur = p,
            None => break,
        }
    }
    backward.reverse();
    assert_eq!(forward, backward);
}
