use simpledb::block_id::BlockId;
use simpledb::lock_table::{Lock, LockAbortError, LockTable};

#[test]
fn test_slocks() {
    let mut lock_table = LockTable::new();
    let block = BlockId::new("test.tbl", 1);

    assert!(lock_table.slock(&block).is_ok());
    assert!(lock_table.slock(&block).is_ok());
    assert!(matches!(lock_table.get(&block), Some(Lock::Shared(2))));

    assert!(lock_table.unlock(&block).is_ok());
    assert!(matches!(lock_table.get(&block), Some(Lock::Shared(1))));

    assert!(lock_table.unlock(&block).is_ok());
    assert!(lock_table.get(&block).is_none());
}

#[test]
fn test_xlock() {
    let mut lock_table = LockTable::new();
    let block = BlockId::new("test.tbl", 1);

    assert!(lock_table.xlock(&block).is_ok());
    assert!(matches!(lock_table.get(&block), Some(Lock::Exclusive)));

    assert!(lock_table.unlock(&block).is_ok());
    assert!(lock_table.get(&block).is_none());
}

#[test]
fn test_xlock_timeout() {
    let mut lock_table = LockTable::new();
    let block = BlockId::new("test.tbl", 1);

    assert!(lock_table.slock(&block).is_ok());
    assert!(lock_table.slock(&block).is_ok());

    assert!(lock_table.xlock(&block).is_err());
}

#[test]
fn test_slock_timeout() {
    let mut lock_table = LockTable::new();
    let block = BlockId::new("test.tbl", 1);

    assert!(lock_table.xlock(&block).is_ok());

    assert!(lock_table.slock(&block).is_err());
}

#[test]
fn lock_compatibility_scenario() {
    let mut lock_table = LockTable::new();
    let block = BlockId::new("testfile", 0);
    assert_eq!(lock_table.slock(&block), Ok(()));
    assert_eq!(lock_table.slock(&block), Ok(()));
    assert_eq!(lock_table.get(&block), Some(Lock::Shared(2)));
    assert_eq!(lock_table.xlock(&block), Err(LockAbortError));
    assert_eq!(lock_table.get(&block), Some(Lock::Shared(2)));
    lock_table.unlock(&block).unwrap();
    lock_table.unlock(&block).unwrap();
    assert_eq!(lock_table.get(&block), None);
    assert_eq!(lock_table.xlock(&block), Ok(()));
    assert_eq!(lock_table.get(&block), Some(Lock::Exclusive));
}

#[test]
fn locks_on_other_blocks_are_independent() {
    let mut lock_table = LockTable::new();
    let a = BlockId::new("a.tbl", 0);
    let b = BlockId::new("a.tbl", 1);
    let c = BlockId::new("b.tbl", 0);
    lock_table.xlock(&a).unwrap();
    assert!(lock_table.slock(&b).is_ok());
    assert!(lock_table.slock(&c).is_ok());
    assert_eq!(lock_table.get(&a), Some(Lock::Exclusive));
    assert_eq!(lock_table.get(&b), Some(Lock::Shared(1)));
    assert_eq!(lock_table.get(&c), Some(Lock::Shared(1)));
}

#[test]
fn unlock_of_an_unlocked_block_is_harmless() {
    let mut lock_table = LockTable::new();
    let block = BlockId::new("test.tbl", 3);
    assert!(lock_table.unlock(&block).is_ok());
    assert_eq!(lock_table.get(&block), None);
    assert_eq!(LockAbortError.message(), "lock abort");
}
