use silica_chunks::{Chunk, Heap};
use std::cmp::min;

/// A work load of a bit more than 10MiB.
const WORK_LOAD: usize = 10 * 1024 * 1024 + 23125;

fn setup(cap: usize) -> Vec<u8> {
    vec![0u8; cap]
}

#[test]
fn test_size() {
    let mid_size = Chunk::min_size() + (Chunk::max_size() - Chunk::min_size()) / 2;
    let mut c = Chunk::new();

    c.set_size(Chunk::min_size());
    assert_eq!(Chunk::min_size(), c.size());

    c.set_size(mid_size);
    assert_eq!(mid_size, c.size());

    c.set_size(Chunk::max_size());
    assert_eq!(Chunk::max_size(), c.size());
}

#[test]
fn test_prev_size() {
    let mut c = Chunk::new();
    c.set_size(Chunk::min_size());
    c.set_prev_size(32);
    assert_eq!(32, c.prev_size());

    c.set_prev_size(Chunk::max_size());
    assert_eq!(Chunk::max_size(), c.prev_size());
}

#[test]
fn test_is_allocated() {
    let mut c = Chunk::new();
    assert_eq!(false, c.is_allocated());
    assert_eq!(0, c.size());

    c.set_is_allocated(true);
    assert_eq!(true, c.is_allocated());
    assert_eq!(0, c.size());

    c.set_is_allocated(false);
    assert_eq!(false, c.is_allocated());
    assert_eq!(0, c.size());
}

#[test]
fn test_is_last() {
    let mut c = Chunk::new();
    c.set_is_last(false);
    assert_eq!(false, c.is_last());
    assert_eq!(0, c.prev_size());

    c.set_is_last(true);
    assert_eq!(true, c.is_last());
    assert_eq!(0, c.prev_size());

    c.set_is_last(false);
    assert_eq!(false, c.is_last());
    assert_eq!(0, c.prev_size());
}

#[test]
fn test_to_ptr() {
    let h = Heap::new(setup(WORK_LOAD));
    let c0 = h.first_chunk();

    let expect = c0 + Chunk::hdr_csize();
    assert_eq!(expect, h.to_ptr(c0));
}

#[test]
fn test_from_ptr() {
    let h = Heap::new(setup(WORK_LOAD));
    let expect = h.first_chunk();

    let actual = h.from_ptr(h.to_ptr(expect));
    assert_eq!(expect, actual);
}

#[test]
fn test_previous() {
    let mut h = Heap::new(setup(Chunk::max_size() * Chunk::alignment()));
    let c0_off = h.first_chunk();
    let mut c0 = h.chunk_at(c0_off);
    c0.set_size(Chunk::min_size());
    c0.set_is_last(false);
    h.store_chunk(c0_off, c0);
    let c1_off = c0.next(c0_off).unwrap();
    let mut c1 = h.chunk_at(c1_off);
    c1.set_prev_size(Chunk::min_size());
    h.store_chunk(c1_off, c1);

    assert_eq!(c0_off, c1.previous(c1_off).unwrap());
}

#[test]
fn test_next() {
    let mut h = Heap::new(setup(Chunk::max_size() * Chunk::alignment() * 2));
    let c0_off = h.first_chunk();
    let c0 = h.chunk_at(c0_off);
    let c1_off = c0.next(c0_off).unwrap();

    assert_eq!(0, c0_off);
    assert_eq!(Chunk::max_size(), c1_off);

    let mut c1 = h.chunk_at(c1_off);
    c1.set_is_last(true);
    h.store_chunk(c1_off, c1);
    assert_eq!(None, c1.next(c1_off));
}

#[test]
fn test_split() {
    let mut h = Heap::new(setup(WORK_LOAD));
    let c0_off = h.first_chunk();
    let min_chunk_size = Chunk::min_size();
    let size = min_chunk_size * 2 - min_chunk_size / 2;
    let chunk_count = h.chunk_count();

    let mut c0 = h.chunk_at(c0_off);
    c0.set_is_last(true);
    h.store_chunk(c0_off, c0);

    // should split c0 in two free chunks.
    let c1_off = h.split(c0_off, size);
    let c0 = h.chunk_at(c0_off);
    assert_eq!(size, c0.size());
    assert_eq!(false, c0.is_allocated());
    assert_eq!(false, c0.is_last());

    assert!(None != c1_off);
    let c1_off = c1_off.unwrap();
    let c1 = h.chunk_at(c1_off);
    assert_eq!(size, c1.prev_size());
    assert_eq!(Chunk::max_size() - size, c1.size());
    assert_eq!(false, c1.is_allocated());
    assert_eq!(true, c1.is_last());

    assert_eq!(chunk_count + 1, h.chunk_count());

    // split returns None and takes no action if it would break the
    // min_size constraint.
    assert_eq!(None, h.split(c0_off, min_chunk_size));
    assert_eq!(size, h.chunk_at(c0_off).size());
    assert_eq!(chunk_count + 1, h.chunk_count());

    let mut c1 = h.chunk_at(c1_off);
    c1.set_is_allocated(true);
    h.store_chunk(c1_off, c1);
    let c2_off = h.split(c1_off, Chunk::max_size() / 2);
    let c1 = h.chunk_at(c1_off);
    assert_eq!(size, c1.prev_size());
    assert_eq!(Chunk::max_size() / 2, c1.size());
    assert_eq!(true, c1.is_allocated());
    assert_eq!(false, c1.is_last());

    assert_eq!(chunk_count + 2, h.chunk_count());

    assert!(None != c2_off);
    let c2 = h.chunk_at(c2_off.unwrap());
    assert_eq!(Chunk::max_size() / 2, c2.prev_size());
    assert_eq!(Chunk::max_size() - (size + Chunk::max_size() / 2), c2.size());
    assert_eq!(false, c2.is_allocated());
    assert_eq!(true, c2.is_last());
}

#[test]
fn test_absorb() {
    let mut h = Heap::new(setup(128 * 1024 * Chunk::alignment()));
    let c0 = h.first_chunk();
    let min_chunk_size = Chunk::min_size();

    let c1 = h.split(c0, min_chunk_size).unwrap();
    let c2 = h.split(c1, min_chunk_size).unwrap();
    let c3 = h.split(c2, min_chunk_size).unwrap();
    let c4 = h.split(c3, min_chunk_size).unwrap();
    let c5 = h.split(c4, min_chunk_size).unwrap();

    let mut c3h = h.chunk_at(c3);
    c3h.set_is_allocated(true);
    h.store_chunk(c3, c3h);
    {
        let data = h.to_ptr(c3) * Chunk::alignment();
        h.write_byte(data, 32);
        h.write_byte(data + 1, 25);
        h.write_byte(data + 2, 255);
    }
    let initial_chunk_count = h.chunk_count();

    // if the sum is > Chunk::max_size() it does nothing
    h.absorb_next(c5);
    assert_eq!(Chunk::max_size() - (5 * min_chunk_size), h.chunk_at(c5).size());
    assert_eq!(initial_chunk_count, h.chunk_count());
    // 0 1 2 3_ 4 5

    // if both are free
    h.absorb_next(c0);
    assert_eq!(2 * min_chunk_size, h.chunk_at(c0).size());
    assert_eq!(initial_chunk_count - 1, h.chunk_count());
    // 0 2 3_ 4 5

    // c3 is allocated, it stays allocated
    h.absorb_next(c3);
    assert_eq!(2 * min_chunk_size, h.chunk_at(c3).size());
    assert_eq!(false, h.chunk_at(c2).is_allocated());
    assert_eq!(true, h.chunk_at(c3).is_allocated());
    assert_eq!(false, h.chunk_at(c5).is_allocated());
    assert_eq!(initial_chunk_count - 2, h.chunk_count());
    // 0 2 3_ 5

    // c3 is allocated, allocation propagates to c2 and data are moved
    h.absorb_next(c2);
    assert_eq!(3 * min_chunk_size, h.chunk_at(c2).size());
    assert_eq!(true, h.chunk_at(c2).is_allocated());
    {
        let data = h.to_ptr(c2) * Chunk::alignment();
        assert_eq!(32, h.read_byte(data));
        assert_eq!(25, h.read_byte(data + 1));
        assert_eq!(255, h.read_byte(data + 2));
    }
    // 0 2_ 5
}

#[test]
fn test_init() {
    // small memory: 32Kib
    {
        let h = Heap::new(setup(32 * 1024));
        let c0 = h.first_chunk();

        assert_eq!(1, h.chunk_count());
        assert_eq!(0, c0);
        assert_eq!(32 * 1024 / Chunk::alignment(), h.chunk_at(c0).size());
        assert_eq!(true, h.chunk_at(c0).is_last());
    }

    // medium memory: 512Kib
    {
        let h = Heap::new(setup(512 * 1014));
        let expected_c1_size = (512 * 1014) / Chunk::alignment() - Chunk::max_size();
        let c0_off = h.first_chunk();
        let c0 = h.chunk_at(c0_off);
        let c1_off = c0.next(c0_off).unwrap();
        let c1 = h.chunk_at(c1_off);

        assert_eq!(2, h.chunk_count());
        assert_eq!(0, c0_off);
        assert_eq!(Chunk::max_size(), c0.size());
        assert_eq!(false, c0.is_allocated());
        assert_eq!(false, c0.is_last());

        assert_eq!(expected_c1_size, c1.size());
        assert_eq!(false, c1.is_allocated());
        assert_eq!(true, c1.is_last());
    }

    // large memory: 8MiB
    {
        let h = Heap::new(setup(8 * 1024 * 1024));
        let c0 = h.first_chunk();

        let alignment_unit_count = 8 * 1024 * 1024 / Chunk::alignment();
        let mut expected_count = alignment_unit_count / Chunk::max_size();
        let spare = alignment_unit_count - expected_count * Chunk::max_size();
        if spare != 0 {
            expected_count += 1;
        }

        assert_eq!(expected_count, h.chunk_count());
        assert_eq!(0, c0);

        let mut prev_size = 0;
        let mut total = alignment_unit_count;
        let mut c = c0;
        for i in 0..h.chunk_count() {
            let ch = h.chunk_at(c);
            assert_eq!(prev_size, ch.prev_size());
            assert_eq!(min(Chunk::max_size(), total), ch.size());
            assert_eq!(false, ch.is_allocated());
            assert_eq!(i == h.chunk_count() - 1, ch.is_last());

            total -= ch.size();
            prev_size = ch.size();
            if i < h.chunk_count() - 1 {
                c = ch.next(c).unwrap();
            }
        }
    }
}
