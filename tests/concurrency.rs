use simpledb::block_id::BlockId;
use simpledb::concurrency::{ConcurrencyManager, HeldLock};
use simpledb::lock_table::{Lock, LockTable};

#[test]
fn test_slock_idempotent() {
    let mut lock_table = LockTable::new();
    let mut manager = ConcurrencyManager::new();
    let block = BlockId::new("test.tbl", 0);

    assert!(manager.slock(&mut lock_table, &block).is_ok());
    assert!(manager.slock(&mut lock_table, &block).is_ok());
    assert!(matches!(manager.held(&block), Some(HeldLock::Shared)));
}

#[test]
fn test_xlock_idempotent() {
    let mut lock_table = LockTable::new();
    let mut manager = ConcurrencyManager::new();
    let block = BlockId::new("test.tbl", 0);

    assert!(manager.xlock(&mut lock_table, &block).is_ok());
    assert!(manager.xlock(&mut lock_table, &block).is_ok());
    assert!(matches!(manager.held(&block), Some(HeldLock::Exclusive)));
}

#[test]
fn test_xlock_after_slock() {
    let mut lock_table = LockTable::new();
    let mut manager = ConcurrencyManager::new();
    let block = BlockId::new("test.tbl", 0);

    assert!(manager.slock(&mut lock_table, &block).is_ok());
    assert!(manager.xlock(&mut lock_table, &block).is_ok());
    assert!(matches!(manager.held(&block), Some(HeldLock::Exclusive)));
}

#[test]
fn test_slock_after_xlock() {
    let mut lock_table = LockTable::new();
    let mut manager = ConcurrencyManager::new();
    let block = BlockId::new("test.tbl", 0);

    assert!(manager.xlock(&mut lock_table, &block).is_ok());
    assert!(manager.slock(&mut lock_table, &block).is_ok());
    assert!(matches!(manager.held(&block), Some(HeldLock::Exclusive)));
}

#[test]
fn test_xlock_succeeds_on_unlocked_block() {
    let mut lock_table = LockTable::new();
    let mut manager1 = ConcurrencyManager::new();
    let mut manager2 = ConcurrencyManager::new();
    let block = BlockId::new("test.tbl", 0);

    assert!(manager1.slock(&mut lock_table, &block).is_ok());
    assert!(matches!(manager1.held(&block), Some(HeldLock::Shared)));

    assert!(manager1.release(&mut lock_table).is_ok());

    assert!(manager2.xlock(&mut lock_table, &block).is_ok());
    assert!(matches!(manager2.held(&block), Some(HeldLock::Exclusive)));
}

#[test]
fn test_xlock_fails_on_locked_block() {
    let mut lock_table = LockTable::new();
    let mut manager1 = ConcurrencyManager::new();
    let mut manager2 = ConcurrencyManager::new();
    let block = BlockId::new("test.tbl", 0);

    assert!(manager1.slock(&mut lock_table, &block).is_ok());
    assert!(matches!(manager1.held(&block), Some(HeldLock::Shared)));

    assert!(manager2.xlock(&mut lock_table, &block).is_err());
}

#[test]
fn refused_upgrade_keeps_the_shared_lock() {
    let mut lock_table = LockTable::new();
    let mut manager1 = ConcurrencyManager::new();
    let mut manager2 = ConcurrencyManager::new();
    let block = BlockId::new("test.tbl", 0);

    manager1.slock(&mut lock_table, &block).unwrap();
    assert!(manager2.xlock(&mut lock_table, &block).is_err());
    assert_eq!(manager2.held(&block), Some(HeldLock::Shared));
    assert_eq!(lock_table.get(&block), Some(Lock::Shared(2)));
    manager2.release(&mut lock_table).unwrap();
    assert_eq!(lock_table.get(&block), Some(Lock::Shared(1)));
    assert_eq!(manager2.held(&block), None);
}

#[test]
fn shared_count_tracks_holding_transactions() {
    let mut lock_table = LockTable::new();
    let mut managers = vec![
        ConcurrencyManager::new(),
        ConcurrencyManager::new(),
        ConcurrencyManager::new(),
    ];
    let block = BlockId::new("test.tbl", 7);
    for m in managers.iter_mut() {
        m.slock(&mut lock_table, &block).unwrap();
        m.slock(&mut lock_table, &block).unwrap();
    }
    assert_eq!(lock_table.get(&block), Some(Lock::Shared(3)));
    managers[0].release(&mut lock_table).unwrap();
    assert_eq!(lock_table.get(&block), Some(Lock::Shared(2)));
    managers[1].release(&mut lock_table).unwrap();
    managers[2].release(&mut lock_table).unwrap();
    assert_eq!(lock_table.get(&block), None);
}

#[test]
fn release_frees_every_block_held() {
    let mut lock_table = LockTable::new();
    let mut manager = ConcurrencyManager::new();
    let a = BlockId::new("t", 0);
    let b = BlockId::new("t", 1);
    manager.slock(&mut lock_table, &a).unwrap();
    manager.xlock(&mut lock_table, &b).unwrap();
    assert_eq!(lock_table.get(&b), Some(Lock::Exclusive));
    manager.release(&mut lock_table).unwrap();
    assert_eq!(lock_table.get(&a), None);
    assert_eq!(lock_table.get(&b), None);
    assert_eq!(manager.held(&a), None);
}
