use simpledb::block_id::BlockId;
use simpledb::buffer::{BufferPoolState, PinChoice};
use simpledb::log_record::{
    CheckpointRecord, CommitRecord, LogRecord, RollbackRecord, SetIntRecord, StartRecord,
};
use simpledb::page::PageError;
use simpledb::recovery::{RecoveryError, RecoveryManager, RecoveryScan, UndoStep};

fn set_int(tx: i32) -> LogRecord {
    LogRecord::SetInt(SetIntRecord { txnum: tx, offset: 0, val: 0, block: BlockId::new("t", 0) })
}

#[test]
fn rollback_undoes_own_updates_until_start() {
    let rm = RecoveryManager::new(3);
    assert_eq!(rm.txnum(), 3);
    assert_eq!(rm.rollback_step(&set_int(3)), UndoStep::Undo);
    assert_eq!(rm.rollback_step(&set_int(4)), UndoStep::Skip);
    assert_eq!(rm.rollback_step(&LogRecord::Commit(CommitRecord { txnum: 3 })), UndoStep::Skip);
    assert_eq!(rm.rollback_step(&LogRecord::Start(StartRecord { txnum: 4 })), UndoStep::Skip);
    assert_eq!(rm.rollback_step(&LogRecord::Start(StartRecord { txnum: 3 })), UndoStep::Stop);
    assert_eq!(rm.rollback_step(&LogRecord::Checkpoint(CheckpointRecord::new())), UndoStep::Skip);
}

#[test]
fn recovery_undoes_unfinished_updates_until_checkpoint() {
    let mut scan = RecoveryScan::new();
    assert_eq!(scan.step(&set_int(5)), UndoStep::Undo);
    assert_eq!(scan.step(&LogRecord::Commit(CommitRecord { txnum: 2 })), UndoStep::Skip);
    assert_eq!(scan.step(&LogRecord::Rollback(RollbackRecord { txnum: 4 })), UndoStep::Skip);
    assert_eq!(scan.step(&set_int(2)), UndoStep::Skip);
    assert_eq!(scan.step(&set_int(4)), UndoStep::Skip);
    assert_eq!(scan.step(&set_int(5)), UndoStep::Undo);
    assert_eq!(scan.step(&LogRecord::Start(StartRecord { txnum: 5 })), UndoStep::Skip);
    assert_eq!(scan.step(&LogRecord::Checkpoint(CheckpointRecord::new())), UndoStep::Stop);
}

#[test]
fn update_records_carry_the_pre_image() {
    let mut pool = BufferPoolState::new(1, 400);
    let block = BlockId::new("testfile", 1);
    let i = match pool.choose_frame(&block) {
        PinChoice::Replace(i) => i,
        other => panic!("{:?}", other),
    };
    let rm = RecoveryManager::new(9);
    assert_eq!(rm.set_int(pool.buffer(i), 80).unwrap_err(), RecoveryError::NoBlock);
    pool.assign_and_pin(i, &block, vec![0; 400]);
    pool.write_int(i, 80, 2, 1, -1).unwrap();
    pool.write_string(i, 40, "one!", 1, -1).unwrap();

    let rec = rm.set_int(pool.buffer(i), 80).unwrap();
    assert_eq!((rec.txnum, rec.offset, rec.val), (9, 80, 2));
    assert_eq!(rec.block, block);
    let rec = rm.set_string(pool.buffer(i), 40).unwrap();
    assert_eq!((rec.txnum, rec.offset, rec.val.as_str()), (9, 40, "one!"));
    assert_eq!(
        rm.set_int(pool.buffer(i), 398).unwrap_err(),
        RecoveryError::Page(PageError::OutOfBounds)
    );
}

#[test]
fn rollback_restores_the_page() {
    let mut pool = BufferPoolState::new(1, 400);
    let block = BlockId::new("testfile", 1);
    pool.assign_and_pin(0, &block, vec![0; 400]);
    pool.write_int(0, 80, 2, 1, -1).unwrap();
    let before = pool.buffer(0).contents().contents().clone();

    let rm = RecoveryManager::new(3);
    let mut log = Vec::new();
    for v in [9999, 7] {
        let rec = rm.set_int(pool.buffer(0), 80).unwrap();
        log.push(rec);
        pool.write_int(0, 80, v, 3, log.len() as i64).unwrap();
    }
    assert_eq!(pool.get_int(0, 80), Ok(7));
    for rec in log.iter().rev() {
        assert_eq!(rm.rollback_step(&LogRecord::SetInt(SetIntRecord {
            txnum: rec.txnum,
            offset: rec.offset,
            val: rec.val,
            block: rec.block.clone(),
        })), UndoStep::Undo);
        pool.write_int(0, rec.offset, rec.val, 3, -1).unwrap();
    }
    assert_eq!(pool.get_int(0, 80), Ok(2));
    assert_eq!(pool.buffer(0).contents().contents(), &before);
}
