use simpledb::block_id::BlockId;
use simpledb::buffer::{BufferPoolState, PinChoice};
use simpledb::buffer_list::BufferList;
use simpledb::concurrency::ConcurrencyManager;
use simpledb::log_page::LogPage;
use simpledb::log_record::{create_log_record, CommitRecord, LogRecord, StartRecord};
use simpledb::lock_table::LockTable;
use simpledb::recovery::{RecoveryManager, UndoStep};

/// A transaction run on the verified parts alone, with one log block and
/// blocks that read as zeros.
struct Tx {
    rm: RecoveryManager,
    cm: ConcurrencyManager,
    buffers: BufferList,
}

impl Tx {
    fn new(txnum: i32, log: &mut LogPage) -> Tx {
        log.append(&StartRecord::encode(txnum)).unwrap();
        Tx { rm: RecoveryManager::new(txnum), cm: ConcurrencyManager::new(), buffers: BufferList::new() }
    }

    fn pin(&mut self, pool: &mut BufferPoolState, block: &BlockId) {
        let idx = match pool.choose_frame(block) {
            PinChoice::Resident(i) => {
                pool.pin(i);
                i
            }
            PinChoice::Replace(i) => {
                pool.assign_and_pin(i, block, vec![0; 400]);
                i
            }
            PinChoice::NoneFree => panic!("no frame"),
        };
        self.buffers.pin(block, idx);
    }

    fn get_int(&mut self, t: &mut LockTable, pool: &BufferPoolState, b: &BlockId, off: usize) -> i32 {
        self.cm.slock(t, b).unwrap();
        pool.get_int(self.buffers.get_buffer_idx(b).unwrap(), off).unwrap()
    }

    fn get_string(&mut self, t: &mut LockTable, pool: &BufferPoolState, b: &BlockId, off: usize) -> String {
        self.cm.slock(t, b).unwrap();
        pool.get_string(self.buffers.get_buffer_idx(b).unwrap(), off).unwrap()
    }

    fn set_int(&mut self, t: &mut LockTable, pool: &mut BufferPoolState, log: &mut LogPage, b: &BlockId, off: usize, v: i32, ok_to_log: bool) {
        self.cm.xlock(t, b).unwrap();
        let idx = self.buffers.get_buffer_idx(b).unwrap();
        let mut lsn = -1;
        if ok_to_log {
            lsn = log.append(&self.rm.set_int(pool.buffer(idx), off).unwrap().encode()).unwrap();
        }
        pool.write_int(idx, off, v, self.rm.txnum() as i64, lsn).unwrap();
    }

    fn set_string(&mut self, t: &mut LockTable, pool: &mut BufferPoolState, log: &mut LogPage, b: &BlockId, off: usize, v: &str, ok_to_log: bool) {
        self.cm.xlock(t, b).unwrap();
        let idx = self.buffers.get_buffer_idx(b).unwrap();
        let mut lsn = -1;
        if ok_to_log {
            lsn = log.append(&self.rm.set_string(pool.buffer(idx), off).unwrap().encode()).unwrap();
        }
        pool.write_string(idx, off, v, self.rm.txnum() as i64, lsn).unwrap();
    }

    fn finish(&mut self, t: &mut LockTable, pool: &mut BufferPoolState) {
        for idx in pool.frames_modified_by(self.rm.txnum() as i64) {
            pool.mark_flushed(idx, pool.buffer(idx).lsn());
        }
        self.cm.release(t).unwrap();
        for idx in self.buffers.unpin_all() {
            pool.unpin(idx);
        }
    }

    fn commit(&mut self, t: &mut LockTable, pool: &mut BufferPoolState, log: &mut LogPage) {
        log.append(&CommitRecord::encode(self.rm.txnum())).unwrap();
        self.finish(t, pool);
    }

    fn rollback(&mut self, t: &mut LockTable, pool: &mut BufferPoolState, log: &mut LogPage) {
        for bytes in log.records_newest_first() {
            let rec = create_log_record(bytes).unwrap();
            match self.rm.rollback_step(&rec) {
                UndoStep::Stop => break,
                UndoStep::Skip => {}
                UndoStep::Undo => match rec {
                    LogRecord::SetInt(r) => {
                        self.pin(pool, &r.block);
                        self.set_int(t, pool, log, &r.block, r.offset, r.val, false);
                    }
                    LogRecord::SetString(r) => {
                        self.pin(pool, &r.block);
                        self.set_string(t, pool, log, &r.block, r.offset, &r.val, false);
                    }
                    _ => {}
                },
            }
        }
        self.finish(t, pool);
    }
}

#[test]
fn transaction_lifecycle_scenario() {
    let mut pool = BufferPoolState::new(8, 400);
    let mut log = LogPage::new(400);
    let mut table = LockTable::new();
    let block = BlockId::new("testfile", 1);

    let mut tx1 = Tx::new(1, &mut log);
    tx1.pin(&mut pool, &block);
    tx1.set_int(&mut table, &mut pool, &mut log, &block, 80, 1, false);
    tx1.set_string(&mut table, &mut pool, &mut log, &block, 40, "one", false);
    tx1.commit(&mut table, &mut pool, &mut log);

    let mut tx2 = Tx::new(2, &mut log);
    tx2.pin(&mut pool, &block);
    let ival = tx2.get_int(&mut table, &pool, &block, 80);
    let sval = tx2.get_string(&mut table, &pool, &block, 40);
    assert_eq!(ival, 1, "Initial integer value should be 1");
    assert_eq!(sval, "one", "Initial string value should be 'one'");
    tx2.set_int(&mut table, &mut pool, &mut log, &block, 80, ival + 1, true);
    tx2.set_string(&mut table, &mut pool, &mut log, &block, 40, &format!("{}!", sval), true);
    tx2.commit(&mut table, &mut pool, &mut log);

    let mut tx3 = Tx::new(3, &mut log);
    tx3.pin(&mut pool, &block);
    assert_eq!(tx3.get_int(&mut table, &pool, &block, 80), 2, "Integer should be incremented to 2");
    assert_eq!(tx3.get_string(&mut table, &pool, &block, 40), "one!", "String should have exclamation mark added");
    tx3.set_int(&mut table, &mut pool, &mut log, &block, 80, 9999, true);
    assert_eq!(tx3.get_int(&mut table, &pool, &block, 80), 9999, "Value should be 9999");
    tx3.rollback(&mut table, &mut pool, &mut log);

    let mut tx4 = Tx::new(4, &mut log);
    tx4.pin(&mut pool, &block);
    assert_eq!(tx4.get_int(&mut table, &pool, &block, 80), 2, "After rollback, integer should be back to 2");
    tx4.commit(&mut table, &mut pool, &mut log);
    assert_eq!(pool.available(), 8);
    assert_eq!(table.get(&block), None);
}
