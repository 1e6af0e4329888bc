use simpledb::block_id::BlockId;
use simpledb::buffer::{Buffer, BufferPoolState, PinChoice};
use simpledb::buffer_list::BufferList;
use simpledb::page::PageError;

/// Pins a block as the buffer manager does, with a zeroed block standing for
/// what a read from disk gives; `None` where every frame is pinned.
fn pin(pool: &mut BufferPoolState, block: &BlockId) -> Option<usize> {
    match pool.choose_frame(block) {
        PinChoice::Resident(i) => {
            pool.pin(i);
            Some(i)
        }
        PinChoice::Replace(i) => {
            assert_eq!(pool.flush_lsn(i), None);
            pool.assign_and_pin(i, block, vec![0; 400]);
            Some(i)
        }
        PinChoice::NoneFree => None,
    }
}

#[test]
fn buffer_pool_exhaustion_scenario() {
    let mut pool = BufferPoolState::new(3, 400);
    let b = |n| BlockId::new("testfile", n);
    let a0 = pin(&mut pool, &b(0)).unwrap();
    let a1 = pin(&mut pool, &b(1)).unwrap();
    let a2 = pin(&mut pool, &b(2)).unwrap();
    assert!(pool.unpin(a1));
    assert_eq!(pin(&mut pool, &b(0)), Some(a0));
    let again = pin(&mut pool, &b(1)).unwrap();
    assert_eq!(again, a1);
    assert_eq!(pool.available(), 0);
    assert_eq!(pool.choose_frame(&b(3)), PinChoice::NoneFree);
    assert!(pool.unpin(a2));
    let a3 = pin(&mut pool, &b(3)).unwrap();
    assert_eq!(a3, a2);
    assert_eq!(pool.buffer(a0).block(), Some(&b(0)));
    assert_eq!(pool.buffer(again).block(), Some(&b(1)));
    assert_eq!(pool.buffer(a3).block(), Some(&b(3)));
    assert!(!pool.unpin(a0));
    assert_eq!(pool.available(), 0);
}

#[test]
fn pins_and_available_add_up() {
    let mut pool = BufferPoolState::new(4, 64);
    assert_eq!(pool.available(), 4);
    let x = pin(&mut pool, &BlockId::new("f", 0)).unwrap();
    pool.pin(x);
    let y = pin(&mut pool, &BlockId::new("f", 1)).unwrap();
    let pinned = (0..pool.size()).filter(|&i| pool.buffer(i).is_pinned()).count();
    assert_eq!(pinned + pool.available(), pool.size());
    assert_eq!(pool.available(), 2);
    assert!(!pool.unpin(x));
    assert!(pool.unpin(x));
    assert!(pool.unpin(y));
    assert_eq!(pool.available(), 4);
}

#[test]
fn dirty_frames_are_listed_and_cleaned() {
    let mut pool = BufferPoolState::new(3, 400);
    let i = pin(&mut pool, &BlockId::new("testfile", 1)).unwrap();
    pool.write_int(i, 80, 1, 5, 12).unwrap();
    assert_eq!(pool.get_int(i, 80), Ok(1));
    assert_eq!(pool.frames_modified_by(5), vec![i]);
    assert_eq!(pool.frames_modified_by(6), Vec::<usize>::new());
    assert_eq!(pool.flush_lsn(i), Some(12));
    pool.write_string(i, 40, "one", 5, -1).unwrap();
    assert_eq!(pool.get_string(i, 40), Ok("one".to_string()));
    assert_eq!(pool.buffer(i).lsn(), 12);
    pool.mark_flushed(i, 12);
    assert_eq!(pool.flush_lsn(i), None);
    assert_eq!(pool.buffer(i).modifying_tx(), -1);
    assert_eq!(pool.write_int(i, 398, 1, 5, 13), Err(PageError::BufferSizeExceeded));
    assert_eq!(pool.flush_lsn(i), None);
    pool.set_modified(i, 2, 20);
    assert_eq!(pool.frames_modified_by(2), vec![i]);
}

#[test]
fn frame_bookkeeping() {
    let mut buf = Buffer::new(16);
    assert!(!buf.is_pinned());
    assert_eq!(buf.block(), None);
    assert_eq!(buf.contents().len(), 16);
    buf.pin();
    buf.pin();
    buf.unpin();
    assert!(buf.is_pinned());
    buf.set_modified(3, 9);
    buf.set_modified(3, -1);
    assert_eq!((buf.modifying_tx(), buf.lsn()), (3, 9));
}

#[test]
fn buffer_list_releases_each_pin() {
    let mut list = BufferList::new();
    let a = BlockId::new("t", 0);
    let b = BlockId::new("t", 1);
    list.pin(&a, 2);
    list.pin(&b, 0);
    list.pin(&a, 2);
    assert_eq!(list.get_buffer_idx(&a), Some(2));
    assert_eq!(list.unpin(&a), Some(2));
    assert_eq!(list.get_buffer_idx(&a), Some(2));
    assert_eq!(list.unpin(&a), Some(2));
    assert_eq!(list.get_buffer_idx(&a), None);
    assert_eq!(list.unpin(&a), None);
    list.pin(&a, 1);
    assert_eq!(list.unpin_all(), vec![0, 1]);
    assert_eq!(list.get_buffer_idx(&b), None);
    assert_eq!(list.unpin_all(), Vec::<usize>::new());
}
