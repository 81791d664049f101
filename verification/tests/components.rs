use incremental_recommender::batch::BatchRow;
use incremental_recommender::{DiffStore, EngineError, InputLog, InputRow};

#[test]
fn log_batches_pending_diffs_until_flush() {
    let mut log = InputLog::new();
    assert_eq!(log.time(), 0);
    log.insert(1, 10);
    log.remove(2, 20);
    log.advance_to(1).unwrap();
    let batch = log.flush();
    assert_eq!(batch.len(), 2);
    assert_eq!(batch[0], InputRow { key: 1, item: 10, mult: 1 });
    assert_eq!(batch[1], InputRow { key: 2, item: 20, mult: -1 });
    // Flushing empties the pending diffs without moving the clock.
    let again = log.flush();
    assert_eq!(again.len(), 0);
    assert_eq!(log.time(), 1);
}

#[test]
fn log_refuses_backward_clock() {
    let mut log = InputLog::new();
    log.advance_to(5).unwrap();
    assert_eq!(log.advance_to(5), Err(EngineError::OutOfOrderTime));
    assert_eq!(log.advance_to(3), Err(EngineError::OutOfOrderTime));
    assert_eq!(log.time(), 5);
    assert_eq!(log.advance_to(6), Ok(()));
}

#[test]
fn diff_store_answers_exactly_one_time() {
    let mut store = DiffStore::new();
    let rows1 = vec![BatchRow { key: 4, val: 7, mult: 1 }];
    let rows2 = vec![
        BatchRow { key: 4, val: 7, mult: -1 },
        BatchRow { key: 4, val: 8, mult: 1 },
    ];
    store.append(1, rows1);
    store.append(2, rows2);
    let got1 = store.collect_at(1);
    assert_eq!(got1.len(), 1);
    assert_eq!(got1[0], BatchRow { key: 4, val: 7, mult: 1 });
    let got2 = store.collect_at(2);
    assert_eq!(got2.len(), 2);
    assert_eq!(store.collect_at(3).len(), 0);
}

#[test]
fn compaction_preserves_later_queries() {
    let mut store = DiffStore::new();
    store.append(1, vec![BatchRow { key: 4, val: 7, mult: 1 }]);
    store.append(
        2,
        vec![BatchRow { key: 4, val: 7, mult: -1 }, BatchRow { key: 4, val: 8, mult: 1 }],
    );
    // The collector consumed time 1 and promises never to ask for it
    // again; discarding it leaves every later query unchanged.
    let before = store.collect_at(2);
    store.advance_by(1);
    let after = store.collect_at(2);
    assert_eq!(before, after);
    assert_eq!(store.collect_at(1).len(), 0);
    // A later batch can still arrive.
    store.append(3, vec![BatchRow { key: 9, val: 1, mult: 1 }]);
    assert_eq!(store.collect_at(3).len(), 1);
}
