use kvlog::errors::Error;
use kvlog::freelist::{Atag, FreeList};

#[test]
fn fresh_list_is_one_extent() {
    let fl = FreeList::new(1024);
    assert_eq!(fl.get_maxfilesize(), 1024);
    assert_eq!(fl.get_freefilesize(), 1024);
    assert_eq!(fl.get_usedfilesize(), 0);
    assert_eq!(fl.get_compfilesize(), 0);
}

#[test]
fn request_serves_first_fit_from_the_front() {
    let mut fl = FreeList::new(1024);
    assert_eq!(fl.request_room(100), Ok(0));
    assert_eq!(fl.request_room(100), Ok(100));
    assert_eq!(fl.get_usedfilesize(), 200);
    assert_eq!(fl.get_freefilesize(), 824);
}

#[test]
fn free_then_request_returns_the_same_offset() {
    let mut fl = FreeList::new(1024);
    assert_eq!(fl.request_room(100), Ok(0));
    assert_eq!(fl.request_room(100), Ok(100));
    assert_eq!(fl.free_room(0, 100), Ok(()));
    assert_eq!(fl.request_room(100), Ok(0));
}

#[test]
fn freeing_everything_restores_the_fresh_list() {
    let mut fl = FreeList::new(1024);
    assert_eq!(fl.request_room(100), Ok(0));
    assert_eq!(fl.request_room(100), Ok(100));
    assert_eq!(fl.free_room(0, 100), Ok(()));
    assert_eq!(fl.free_room(100, 100), Ok(()));
    assert_eq!(fl.get_freefilesize(), 1024);
    assert_eq!(fl.get_usedfilesize(), 0);
    assert_eq!(fl.request_room(1024), Ok(0));
    assert_eq!(fl.get_freefilesize(), 0);
}

#[test]
fn double_free_is_refused() {
    let mut fl = FreeList::new(1024);
    assert_eq!(fl.request_room(64), Ok(0));
    assert_eq!(fl.free_room(0, 64), Ok(()));
    assert_eq!(fl.free_room(0, 64), Err(Error::DoubleFree));
}

#[test]
fn no_fit_fails_the_request() {
    let mut fl = FreeList::new(128);
    assert_eq!(fl.request_room(128), Ok(0));
    assert_eq!(fl.request_room(1), Err(Error::AllocateFail));
    assert_eq!(fl.free_room(0, 128), Ok(()));
    assert_eq!(fl.request_room(129), Err(Error::AllocateFail));
}

#[test]
fn coalescing_merges_both_neighbors() {
    let mut fl = FreeList::new(1024);
    assert_eq!(fl.request_room(300), Ok(0));
    // free the middle third first, then the two outer thirds
    assert_eq!(fl.free_room(100, 100), Ok(()));
    assert_eq!(fl.free_room(0, 100), Ok(()));
    assert_eq!(fl.free_room(200, 100), Ok(()));
    // everything is one extent again
    assert_eq!(fl.get_freefilesize(), 1024);
    assert_eq!(fl.request_room(1024), Ok(0));
}

#[test]
fn interior_extent_counts_as_reclaimable() {
    let mut fl = FreeList::new(1024);
    assert_eq!(fl.request_room(100), Ok(0));
    assert_eq!(fl.request_room(100), Ok(100));
    assert_eq!(fl.free_room(0, 100), Ok(()));
    // one interior extent of 100 bytes, plus the tail at 200
    assert_eq!(fl.get_compfilesize(), 100);
    assert_eq!(fl.get_usedfilesize(), 200);
    assert_eq!(fl.get_freefilesize(), 924);
}

#[test]
fn first_fit_skips_small_interior_extents() {
    let mut fl = FreeList::new(1024);
    assert_eq!(fl.request_room(64), Ok(0));
    assert_eq!(fl.request_room(64), Ok(64));
    assert_eq!(fl.free_room(0, 64), Ok(()));
    // 64 free at offset 0 is too small; the request goes to the tail
    assert_eq!(fl.request_room(128), Ok(128));
    // but a small request is served from the interior extent first
    assert_eq!(fl.request_room(16), Ok(0));
}

#[test]
fn merge_and_reduce_work_on_extents() {
    let a = Atag { off: 0, size: 16 };
    let b = Atag { off: 16, size: 32 };
    let c = Atag { off: 64, size: 16 };
    assert_eq!(a.merge(&b), Some(Atag { off: 0, size: 48 }));
    assert_eq!(b.merge(&a), Some(Atag { off: 0, size: 48 }));
    assert_eq!(a.merge(&c), None);
    assert_eq!(b.reduce(8), Ok(Atag { off: 24, size: 24 }));
    assert!(b.reduce(33).is_err());
}

#[test]
fn persistence_splits_into_chained_pages() {
    // carve out 200 interior extents so the list spans two pages
    let mut fl = FreeList::new(0x2000000);
    for i in 0..200u32 {
        assert_eq!(fl.request_room(32), Ok(i * 32));
    }
    for i in 0..200u32 {
        // free every extent; skipping neighbors prevents coalescing
        if i % 2 == 0 {
            assert_eq!(fl.free_room(i * 32, 32), Ok(()));
        }
    }
    let pages = fl.split_for_persistence();
    // 100 interior extents and the tail extent: 101 extents over one page
    assert_eq!(pages.len(), 1);
    assert_eq!(pages[0].atags.len(), 101);
    assert_eq!(pages[0].overflow_off, 0);
    assert_eq!(pages[0].capacity, 0x2000000);
    let bytes = pages[0].to_bytes();
    assert_eq!(bytes.len(), 2048);
    // first slot: extent at offset 0, 32 bytes, little-endian 64-bit fields
    assert_eq!(bytes[0], 0);
    assert_eq!(bytes[8], 32);
    assert_eq!(bytes[9], 0);
    // second slot starts at the next freed offset
    assert_eq!(bytes[16], 64);
    // the capacity sits in the last eight bytes
    assert_eq!(bytes[2040], 0);
    assert_eq!(bytes[2043], 0x02);
}

#[test]
fn an_overflowing_list_chains_a_second_page() {
    let mut fl = FreeList::new(0x2000000);
    for i in 0..300u32 {
        assert_eq!(fl.request_room(32), Ok(i * 32));
    }
    for i in 0..300u32 {
        if i % 2 == 0 {
            assert_eq!(fl.free_room(i * 32, 32), Ok(()));
        }
    }
    // 150 interior extents and the tail: 151 extents over two pages
    let pages = fl.split_for_persistence();
    assert_eq!(pages.len(), 2);
    assert_eq!(pages[0].atags.len(), 127);
    assert_eq!(pages[1].atags.len(), 24);
    assert_eq!(pages[0].overflow_off, 2048);
    assert_eq!(pages[1].overflow_off, 0);
}
