use simpledb::block_id::BlockId;
use simpledb::log_iterator::{LogIterator, LogStep};
use simpledb::log_page::{LogPage, LogPageError};
use simpledb::log_record::{
    create_log_record, CheckpointRecord, CommitRecord, LogOperation, LogRecord, LogRecordError,
    RollbackRecord, SetIntRecord, SetStringRecord, StartRecord,
};
use simpledb::page::Page;

fn make_record(s: &str, n: i32) -> Vec<u8> {
    let npos = Page::max_length(s.len());
    let mut p = Page::from_bytes(vec![0; npos + 4]);
    p.set_string(0, s).unwrap();
    p.set_int(npos, n).unwrap();
    p.contents().clone()
}

/// Appends records to a log held in memory: the saved blocks, oldest first,
/// and the current one.
fn append(saved: &mut Vec<Vec<u8>>, log: &mut LogPage, rec: &[u8]) -> i64 {
    match log.append(rec) {
        Ok(lsn) => lsn,
        Err(LogPageError::BlockFull) => {
            saved.push(log.contents().clone());
            log.mark_saved();
            log.start_block();
            log.append(rec).unwrap()
        }
        Err(e) => panic!("{:?}", e),
    }
}

fn newest_first(saved: &[Vec<u8>], log: &LogPage) -> Vec<Vec<u8>> {
    let mut all = log.records_newest_first();
    for block in saved.iter().rev() {
        let recs = LogPage::read_records(&Page::from_bytes(block.clone())).unwrap();
        all.extend(recs);
    }
    all
}

fn assert_records(all: &[Vec<u8>], start: i32) {
    let mut current = start;
    for rec in all {
        let p = Page::from_bytes(rec.clone());
        let s = p.get_string(0).unwrap();
        let val = p.get_int(Page::max_length(s.len())).unwrap();
        assert_eq!(s, format!("record{}", current));
        assert_eq!(val, current + 100);
        current -= 1;
    }
    assert_eq!(current, 0);
}

#[test]
fn log_reverse_iteration_scenario() {
    let mut saved = Vec::new();
    let mut log = LogPage::new(512);
    for i in 1..=25 {
        let lsn = append(&mut saved, &mut log, &make_record(&format!("record{}", i), i + 100));
        assert_eq!(lsn, i as i64);
    }
    assert_records(&newest_first(&saved, &log), 25);
    for i in 26..=50 {
        let lsn = append(&mut saved, &mut log, &make_record(&format!("record{}", i), i + 100));
        assert_eq!(lsn, i as i64);
    }
    assert_eq!(saved.len(), 1);
    assert_records(&newest_first(&saved, &log), 50);
}

#[test]
fn log_page_packs_right_to_left() {
    let mut log = LogPage::new(32);
    assert_eq!(Page::from_bytes(log.contents().clone()).get_int(0).unwrap(), 32);
    assert_eq!(log.append(&[7, 7]), Ok(1));
    let p = Page::from_bytes(log.contents().clone());
    assert_eq!(p.get_int(0).unwrap(), 26);
    assert_eq!(p.get_bytes(26).unwrap(), vec![7, 7]);
    assert_eq!(log.append(&[1; 10]), Ok(2));
    assert_eq!(log.records_newest_first(), vec![vec![1; 10], vec![7, 7]]);
    assert_eq!(log.append(&[1; 9]), Err(LogPageError::BlockFull));
    assert_eq!(log.append(&[1; 25]), Err(LogPageError::RecordTooLarge));
    assert_eq!(log.latest_lsn(), 2);
    assert_eq!(log.records_newest_first().len(), 2);
}

#[test]
fn log_flush_bookkeeping() {
    let mut log = LogPage::new(64);
    log.append(&[1]).unwrap();
    log.append(&[2]).unwrap();
    assert!(log.needs_flush(1));
    log.mark_saved();
    assert_eq!(log.last_saved_lsn(), 2);
    assert!(!log.needs_flush(1));
    assert!(log.needs_flush(2));
    let again = LogPage::from_block(log.contents().clone()).unwrap();
    assert_eq!(again.records_newest_first(), vec![vec![2], vec![1]]);
    assert!(LogPage::from_block(vec![0; 8]).is_none());
}

#[test]
fn update_records_round_trip() {
    let rec = SetIntRecord { txnum: 7, offset: 80, val: -5, block: BlockId::new("testfile", 1) };
    let bytes = rec.encode();
    let p = Page::from_bytes(bytes.clone());
    assert_eq!(p.get_int(0).unwrap(), 4);
    assert_eq!(p.get_int(4).unwrap(), 0);
    assert_eq!(p.get_int(8).unwrap(), 7);
    assert_eq!(p.get_string(12).unwrap(), "testfile");
    assert_eq!(p.get_int(24).unwrap(), 1);
    assert_eq!(p.get_int(28).unwrap(), 80);
    assert_eq!(p.get_int(32).unwrap(), -5);
    assert_eq!(bytes.len(), 36);
    match create_log_record(bytes).unwrap() {
        LogRecord::SetInt(r) => {
            assert_eq!((r.txnum, r.offset, r.val), (7, 80, -5));
            assert_eq!(r.block, BlockId::new("testfile", 1));
        }
        other => panic!("{:?}", other),
    }

    let rec = SetStringRecord {
        txnum: 2,
        offset: 40,
        val: "one".to_string(),
        block: BlockId::new("t", 3),
    };
    let decoded = create_log_record(rec.encode()).unwrap();
    assert_eq!(decoded.op(), LogOperation::SetString);
    assert_eq!(decoded.tx_number(), 2);
    match decoded {
        LogRecord::SetString(r) => {
            assert_eq!(r.val, "one");
            assert_eq!(r.offset, 40);
            assert_eq!(r.block, BlockId::new("t", 3));
        }
        other => panic!("{:?}", other),
    }
}

#[test]
fn small_records_round_trip() {
    let cp = create_log_record(CheckpointRecord::encode()).unwrap();
    assert_eq!(cp.op(), LogOperation::Checkpoint);
    assert_eq!(cp.tx_number(), -1);
    let start = create_log_record(StartRecord::encode(5)).unwrap();
    assert_eq!((start.op(), start.tx_number()), (LogOperation::Start, 5));
    let commit = create_log_record(CommitRecord::encode(6)).unwrap();
    assert_eq!((commit.op(), commit.tx_number()), (LogOperation::Commit, 6));
    let rb = create_log_record(RollbackRecord::encode(7)).unwrap();
    assert_eq!((rb.op(), rb.tx_number()), (LogOperation::Rollback, 7));
    assert_eq!(StartRecord::encode(5), vec![0, 0, 0, 1, 0, 0, 0, 5]);
    assert_eq!(LogRecord::Commit(CommitRecord { txnum: 6 }).encode(), CommitRecord::encode(6));
}

#[test]
fn bad_records_are_refused() {
    assert_eq!(
        create_log_record(vec![0, 0, 0, 9]).unwrap_err(),
        LogRecordError::UnknownLogOperation(9)
    );
    assert_eq!(create_log_record(vec![0, 0]).unwrap_err(), LogRecordError::Malformed);
    assert_eq!(create_log_record(vec![0, 0, 0, 1, 0]).unwrap_err(), LogRecordError::Malformed);
    let mut short = SetIntRecord { txnum: 1, offset: 0, val: 0, block: BlockId::new("f", 0) }.encode();
    short.truncate(short.len() - 1);
    assert_eq!(create_log_record(short).unwrap_err(), LogRecordError::Malformed);
    assert_eq!(LogOperation::from_code(6), None);
    assert_eq!(LogOperation::from_code(3), Some(LogOperation::Rollback));
    assert_eq!(LogOperation::SetInt.code(), 4);
}

#[test]
fn log_walk_crosses_blocks_newest_first() {
    let blocks: Vec<Vec<Vec<u8>>> = vec![vec![vec![2], vec![1]], vec![], vec![vec![4], vec![3]]];
    let top = BlockId::new("log", 2);
    let mut walk = LogIterator::new(&top, blocks[2].clone());
    let mut seen = Vec::new();
    loop {
        assert!(walk.has_next() || matches!(walk.step(), LogStep::Done));
        match walk.step() {
            LogStep::Record(r) => seen.push(r),
            LogStep::ReadBlock(b) => {
                assert_eq!(b.filename(), "log");
                walk.move_to_block(blocks[b.block_number()].clone());
            }
            LogStep::Done => break,
        }
    }
    assert_eq!(seen, vec![vec![4], vec![3], vec![2], vec![1]]);
    assert!(!walk.has_next());
}
