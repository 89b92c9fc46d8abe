//! End-to-end tests of the transaction driver against a hand-held worker
//! pool: the tests own the far ends of the command and reply channels, so
//! every message the driver sends and every reply it waits for is visible.

use crossbeam_channel::{Receiver, Sender};
use std::sync::atomic::{AtomicBool, Ordering};
use differential_datalog::ast::{CachingMode, ProgNode, Program, RecursiveRelation, Relation};
use differential_datalog::driver::RunningProgram;
use differential_datalog::msg::{Msg, Reply};
use differential_datalog::update::Update;

fn input_relation(id: usize, caching_mode: CachingMode, keyed: bool) -> Relation {
    Relation {
        name: format!("R{}", id),
        input: true,
        distinct: false,
        caching_mode,
        keyed,
        id,
        rules: Vec::new(),
        arrangements: Vec::new(),
    }
}

fn program_of(rels: Vec<Relation>) -> Program {
    Program {
        nodes: rels.into_iter().map(|rel| ProgNode::Rel { rel }).collect(),
        delayed_rels: Vec::new(),
        init_data: Vec::new(),
    }
}

struct Harness {
    rp: RunningProgram,
    cmd_rx: Vec<Receiver<Msg>>,
    reply_tx: Vec<Sender<Reply>>,
}

fn start(prog: &Program, nworkers: usize) -> Harness {
    let mut senders = Vec::new();
    let mut cmd_rx = Vec::new();
    let mut reply_tx = Vec::new();
    let mut reply_rx = Vec::new();
    for _ in 0..nworkers {
        let (s, r) = crossbeam_channel::unbounded();
        senders.push(s);
        cmd_rx.push(r);
        let (s2, r2) = crossbeam_channel::unbounded();
        reply_tx.push(s2);
        reply_rx.push(r2);
    }
    // The worker pool acknowledges the zero epoch on startup.
    for tx in &reply_tx {
        tx.send(Reply::FlushAck).unwrap();
    }
    let rp = RunningProgram::new(prog, senders, reply_rx, None, None, None).unwrap();
    Harness { rp, cmd_rx, reply_tx }
}

fn ack_all(h: &Harness) {
    for tx in &h.reply_tx {
        tx.send(Reply::FlushAck).unwrap();
    }
}

/// All update batches sent to any worker, in send order per worker.
fn drain_updates(h: &Harness) -> Vec<Vec<Update>> {
    let mut out = Vec::new();
    for rx in &h.cmd_rx {
        while let Ok(msg) = rx.try_recv() {
            if let Msg::Update { updates, .. } = msg {
                out.push(updates);
            }
        }
    }
    out
}

/// A keyed record: the key in the upper half, the payload in the lower half.
fn rec(k: u64, payload: u64) -> u64 {
    (k << 32) | payload
}

#[test]
fn flat_set_semantics() {
    let prog = program_of(vec![input_relation(0, CachingMode::CacheSet, false)]);
    let mut h = start(&prog, 1);
    let v1 = 7u64;
    h.rp.transaction_start().unwrap();
    h.rp.insert(0, v1).unwrap();
    h.rp.insert(0, v1).unwrap();
    ack_all(&h);
    h.rp.transaction_commit().unwrap();

    let data = h.rp.get_input_relation_data(0).unwrap();
    assert_eq!(data.len(), 1);
    assert!(data.contains(v1));

    // The dataflow saw the insert exactly once: the second was a no-op.
    let batches = drain_updates(&h);
    let all: Vec<Update> = batches.into_iter().flatten().collect();
    assert_eq!(all, vec![Update::Insert { relid: 0, v: v1 }]);
}

#[test]
fn flat_set_insert_of_committed_is_noop() {
    let prog = program_of(vec![input_relation(0, CachingMode::CacheSet, false)]);
    let mut h = start(&prog, 1);
    let v1 = 7u64;
    h.rp.transaction_start().unwrap();
    h.rp.insert(0, v1).unwrap();
    ack_all(&h);
    h.rp.transaction_commit().unwrap();
    drain_updates(&h);

    // Re-inserting a committed record contributes nothing: no delta, no
    // dispatch, and commit has nothing to flush.
    h.rp.transaction_start().unwrap();
    h.rp.insert(0, v1).unwrap();
    h.rp.transaction_commit().unwrap();
    assert!(drain_updates(&h).is_empty());
    assert_eq!(h.rp.get_input_relation_data(0).unwrap().len(), 1);
}

#[test]
fn flat_set_delete_of_absent_is_noop() {
    let prog = program_of(vec![input_relation(0, CachingMode::CacheSet, false)]);
    let mut h = start(&prog, 1);
    h.rp.transaction_start().unwrap();
    h.rp.delete_value(0, 99).unwrap();
    // Nothing changed, so nothing was dispatched and commit has nothing to
    // flush: no acknowledgement is needed.
    h.rp.transaction_commit().unwrap();
    assert!(drain_updates(&h).is_empty());
    assert_eq!(h.rp.get_input_relation_data(0).unwrap().len(), 0);
}

#[test]
fn indexed_replace() {
    let prog = program_of(vec![input_relation(1, CachingMode::CacheSet, true)]);
    let mut h = start(&prog, 1);
    let a = rec(1, 0xA);
    let b = rec(1, 0xB);

    h.rp.transaction_start().unwrap();
    h.rp.insert(1, a).unwrap();
    ack_all(&h);
    h.rp.transaction_commit().unwrap();
    drain_updates(&h);

    h.rp.transaction_start().unwrap();
    h.rp.insert_or_update(1, b).unwrap();
    ack_all(&h);
    h.rp.transaction_commit().unwrap();

    // The dataflow saw the replacement as a retraction plus an insertion.
    let batches = drain_updates(&h);
    let all: Vec<Update> = batches.into_iter().flatten().collect();
    assert_eq!(
        all,
        vec![Update::DeleteValue { relid: 1, v: a }, Update::Insert { relid: 1, v: b }]
    );

    let index = h.rp.get_input_relation_index(1).unwrap();
    assert_eq!(index.len(), 1);
    assert_eq!(index.get(1), Some(b));
}

#[test]
fn duplicate_key_rejection() {
    let prog = program_of(vec![input_relation(1, CachingMode::CacheSet, true)]);
    let mut h = start(&prog, 1);
    let a = rec(1, 0xA);
    let c = rec(1, 0xC);

    h.rp.transaction_start().unwrap();
    h.rp.insert(1, a).unwrap();
    let err = h.rp.insert(1, c).unwrap_err();
    assert_eq!(err, "Insert: duplicate key");

    // The transaction is still open: starting another one fails.
    assert!(h.rp.transaction_start().is_err());

    // Rollback returns the store to empty.
    ack_all(&h); // flush of the pending insert
    ack_all(&h); // flush of the inverse stream
    h.rp.transaction_rollback().unwrap();
    assert_eq!(h.rp.get_input_relation_index(1).unwrap().len(), 0);
}

#[test]
fn rollback_identity() {
    let prog = program_of(vec![input_relation(0, CachingMode::CacheSet, false)]);
    let mut h = start(&prog, 1);
    let (a, b, c) = (1u64, 2u64, 3u64);

    h.rp.transaction_start().unwrap();
    h.rp.insert(0, a).unwrap();
    h.rp.insert(0, b).unwrap();
    ack_all(&h);
    h.rp.transaction_commit().unwrap();
    drain_updates(&h);

    let clock_before = h.rp.last_commit_timestamp();
    h.rp.transaction_start().unwrap();
    h.rp.delete_value(0, a).unwrap();
    h.rp.insert(0, c).unwrap();
    ack_all(&h); // flush of the transaction's updates
    ack_all(&h); // flush of the inverse stream
    h.rp.transaction_rollback().unwrap();

    // The transactional clock is where the last commit left it.
    assert_eq!(h.rp.last_commit_timestamp(), clock_before);

    let data = h.rp.get_input_relation_data(0).unwrap();
    assert_eq!(data.len(), 2);
    assert!(data.contains(a));
    assert!(data.contains(b));
    assert!(!data.contains(c));

    // The inverse stream re-inserted a and retracted c.
    let batches = drain_updates(&h);
    let all: Vec<Update> = batches.into_iter().flatten().collect();
    assert!(all.contains(&Update::Insert { relid: 0, v: a }));
    assert!(all.contains(&Update::DeleteValue { relid: 0, v: c }));
}

#[test]
fn delete_insert_cancellation() {
    let prog = program_of(vec![input_relation(0, CachingMode::CacheSet, false)]);
    let mut h = start(&prog, 1);
    let x = 11u64;
    h.rp.transaction_start().unwrap();
    h.rp.insert(0, x).unwrap();
    h.rp.delete_value(0, x).unwrap();
    // Both changes were forwarded when they happened...
    let batches = drain_updates(&h);
    let all: Vec<Update> = batches.into_iter().flatten().collect();
    assert_eq!(
        all,
        vec![Update::Insert { relid: 0, v: x }, Update::DeleteValue { relid: 0, v: x }]
    );
    // ...but they cancel in the delta, so rolling back undoes nothing:
    // only the flush of the pending updates needs acknowledging.
    ack_all(&h);
    h.rp.transaction_rollback().unwrap();
    assert!(drain_updates(&h).iter().all(|b| b.is_empty()));
    assert_eq!(h.rp.get_input_relation_data(0).unwrap().len(), 0);
}

#[test]
fn query_merge() {
    let prog = program_of(vec![input_relation(1, CachingMode::CacheSet, true)]);
    let mut h = start(&prog, 4);
    // Each worker holds one of the keys {1,2,3,4}.
    let parts: Vec<Vec<u64>> = vec![vec![2], vec![4], vec![1], vec![3]];
    for (tx, part) in h.reply_tx.iter().zip(parts) {
        tx.send(Reply::QueryRes(Some(part))).unwrap();
    }
    let res = h.rp.dump_arrangement((1, 0)).unwrap();
    assert_eq!(res, vec![1, 2, 3, 4]);
    // Every worker was asked.
    for rx in &h.cmd_rx {
        assert!(matches!(rx.try_recv().unwrap(), Msg::Query((1, 0), None)));
    }
}

#[test]
fn query_unknown_index_consumes_all_replies() {
    let prog = program_of(vec![input_relation(1, CachingMode::CacheSet, true)]);
    let mut h = start(&prog, 3);
    h.reply_tx[0].send(Reply::QueryRes(Some(vec![1]))).unwrap();
    h.reply_tx[1].send(Reply::QueryRes(None)).unwrap();
    h.reply_tx[2].send(Reply::QueryRes(Some(vec![2]))).unwrap();
    let err = h.rp.query_arrangement((1, 0), 5).unwrap_err();
    assert_eq!(err, "query_arrangement: unknown index");
    // All three replies were consumed before failing.
    for rx in &h.reply_tx {
        assert!(rx.is_empty());
    }
}

#[test]
fn commit_advances_timestamp() {
    let prog = program_of(vec![input_relation(0, CachingMode::CacheSet, false)]);
    let mut h = start(&prog, 1);
    let t0 = h.rp.timestamp();
    h.rp.transaction_start().unwrap();
    h.rp.insert(0, 5).unwrap();
    ack_all(&h);
    h.rp.transaction_commit().unwrap();
    assert_eq!(h.rp.timestamp(), t0 + 1);

    assert_eq!(h.rp.last_commit_timestamp(), t0 + 1);

    // A transaction that dispatched nothing does not advance the clock.
    h.rp.transaction_start().unwrap();
    h.rp.transaction_commit().unwrap();
    assert_eq!(h.rp.timestamp(), t0 + 1);
    assert_eq!(h.rp.last_commit_timestamp(), t0 + 1);
}

#[test]
fn commit_waits_for_one_ack_per_worker() {
    let prog = program_of(vec![input_relation(0, CachingMode::CacheSet, false)]);
    let mut h = start(&prog, 3);
    h.rp.transaction_start().unwrap();
    h.rp.insert(0, 5).unwrap();
    ack_all(&h);
    h.rp.transaction_commit().unwrap();
    // Exactly the three preloaded acknowledgements were consumed.
    for tx in &h.reply_tx {
        assert!(tx.is_empty());
    }
    // Every worker saw the flush message.
    for rx in &h.cmd_rx {
        let mut saw_flush = false;
        while let Ok(msg) = rx.try_recv() {
            if matches!(msg, Msg::Flush { .. }) {
                saw_flush = true;
            }
        }
        assert!(saw_flush);
    }
}

#[test]
fn multiset_counts() {
    let prog = program_of(vec![input_relation(2, CachingMode::CacheMultiset, false)]);
    let mut h = start(&prog, 1);
    h.rp.transaction_start().unwrap();
    h.rp.insert(2, 5).unwrap();
    h.rp.insert(2, 5).unwrap();
    h.rp.delete_value(2, 6).unwrap();
    ack_all(&h);
    h.rp.transaction_commit().unwrap();
    let data = h.rp.get_input_multiset_data(2).unwrap();
    assert_eq!(data.get(5), Some(2));
    assert_eq!(data.get(6), Some(-1));
    // Every multiset update is forwarded, no deduplication.
    let batches = drain_updates(&h);
    let all: Vec<Update> = batches.into_iter().flatten().collect();
    assert_eq!(all.len(), 3);
}

#[test]
fn stream_updates_forwarded_without_dedup() {
    let prog = program_of(vec![input_relation(3, CachingMode::Stream, false)]);
    let mut h = start(&prog, 1);
    h.rp.transaction_start().unwrap();
    h.rp.insert(3, 9).unwrap();
    h.rp.insert(3, 9).unwrap();
    h.rp.delete_value(3, 9).unwrap();
    let err = h.rp.clear_relation(3).unwrap_err();
    assert_eq!(err, "clear_relation: operation not supported for streams");
    ack_all(&h);
    h.rp.transaction_commit().unwrap();
    let batches = drain_updates(&h);
    let all: Vec<Update> = batches.into_iter().flatten().collect();
    assert_eq!(all.len(), 3);
}

#[test]
fn clear_relation_retracts_everything() {
    let prog = program_of(vec![input_relation(1, CachingMode::CacheSet, true)]);
    let mut h = start(&prog, 1);
    let a = rec(1, 0xA);
    let b = rec(2, 0xB);
    h.rp.transaction_start().unwrap();
    h.rp.insert(1, a).unwrap();
    h.rp.insert(1, b).unwrap();
    ack_all(&h);
    h.rp.transaction_commit().unwrap();
    drain_updates(&h);

    h.rp.transaction_start().unwrap();
    h.rp.clear_relation(1).unwrap();
    ack_all(&h);
    h.rp.transaction_commit().unwrap();
    assert_eq!(h.rp.get_input_relation_index(1).unwrap().len(), 0);
    let batches = drain_updates(&h);
    let mut all: Vec<Update> = batches.into_iter().flatten().collect();
    all.sort_by_key(|u| match u {
        Update::DeleteValue { v, .. } => *v,
        _ => u64::MAX,
    });
    assert_eq!(
        all,
        vec![Update::DeleteValue { relid: 1, v: a }, Update::DeleteValue { relid: 1, v: b }]
    );
}

#[test]
fn modify_key_emits_retraction_and_insertion() {
    let prog = program_of(vec![input_relation(1, CachingMode::CacheSet, true)]);
    let mut h = start(&prog, 1);
    let a = rec(4, 10);
    let a2 = rec(4, 11);
    h.rp.transaction_start().unwrap();
    h.rp.insert(1, a).unwrap();
    ack_all(&h);
    h.rp.transaction_commit().unwrap();
    drain_updates(&h);

    h.rp.transaction_start().unwrap();
    // The mutator bumps the payload half and keeps the key half.
    h.rp.modify_key(1, 4, |v: u64| -> Result<u64, String> { Ok(v + 1) }).unwrap();
    ack_all(&h);
    h.rp.transaction_commit().unwrap();
    let index = h.rp.get_input_relation_index(1).unwrap();
    assert_eq!(index.get(4), Some(a2));
    let batches = drain_updates(&h);
    let all: Vec<Update> = batches.into_iter().flatten().collect();
    assert_eq!(
        all,
        vec![Update::DeleteValue { relid: 1, v: a }, Update::Insert { relid: 1, v: a2 }]
    );
}

#[test]
fn update_errors() {
    let prog = program_of(vec![
        input_relation(0, CachingMode::CacheSet, false),
        input_relation(1, CachingMode::CacheSet, true),
        input_relation(3, CachingMode::Stream, false),
    ]);
    let mut h = start(&prog, 1);

    // No transaction in progress.
    assert_eq!(
        h.rp.insert(0, 1).unwrap_err(),
        "apply_updates: no transaction in progress"
    );
    assert_eq!(
        h.rp.transaction_commit().unwrap_err(),
        "transaction_commit: no transaction in progress"
    );
    assert_eq!(
        h.rp.transaction_rollback().unwrap_err(),
        "transaction_rollback: no transaction in progress"
    );

    assert_eq!(
        h.rp.clear_relation(0).unwrap_err(),
        "clear_relation: no transaction in progress"
    );

    h.rp.transaction_start().unwrap();
    assert_eq!(
        h.rp.transaction_start().unwrap_err(),
        "transaction already in progress"
    );

    // Unknown relation.
    assert_eq!(
        h.rp.insert(42, 1).unwrap_err(),
        "apply_update: unknown input relation"
    );
    assert_eq!(
        h.rp.clear_relation(42).unwrap_err(),
        "clear_relation: unknown input relation"
    );
    assert_eq!(
        h.rp.modify_key(42, 1, |v: u64| -> Result<u64, String> { Ok(v) })
            .unwrap_err(),
        "apply_update: unknown input relation"
    );

    // Keyless relations reject keyed operations.
    assert_eq!(
        h.rp.insert_or_update(0, 1).unwrap_err(),
        "Cannot perform insert_or_update operation on a relation that does not have a primary key"
    );
    assert_eq!(
        h.rp.delete_key(0, 1).unwrap_err(),
        "Cannot delete by key from a relation that does not have a primary key"
    );
    assert_eq!(
        h.rp.modify_key(0, 1, |v: u64| -> Result<u64, String> { Ok(v) }).unwrap_err(),
        "Cannot modify a record in a relation that does not have a primary key"
    );
    assert_eq!(
        h.rp.insert_or_update(3, 1).unwrap_err(),
        "Cannot perform insert_or_update operation on a relation that does not have a primary key"
    );

    // Keyed relation: value mismatch and missing keys.
    let a = rec(1, 0xA);
    let other = rec(1, 0xB);
    h.rp.insert(1, a).unwrap();
    assert_eq!(
        h.rp.delete_value(1, other).unwrap_err(),
        "DeleteValue: key exists but with a different value"
    );
    assert_eq!(
        h.rp.delete_value(1, rec(9, 1)).unwrap_err(),
        "DeleteValue: key not found"
    );
    assert_eq!(h.rp.delete_key(1, 9).unwrap_err(), "DeleteKey: key not found");
    assert_eq!(
        h.rp.modify_key(1, 9, |v: u64| -> Result<u64, String> { Ok(v) }).unwrap_err(),
        "Modify: key not found"
    );
    // A failing mutator propagates its own diagnostic and changes nothing.
    assert_eq!(
        h.rp.modify_key(1, 1, |_v: u64| Err("mutator failed".to_owned()))
            .unwrap_err(),
        "mutator failed"
    );
    assert_eq!(h.rp.get_input_relation_index(1).unwrap().get(1), Some(a));
}

#[test]
fn round_robin_dispatch() {
    let prog = program_of(vec![input_relation(0, CachingMode::CacheSet, false)]);
    let mut h = start(&prog, 2);
    h.rp.transaction_start().unwrap();
    // Two small batches: each fits one chunk, so they go to workers 0 and 1
    // in turn.
    h.rp.insert(0, 1).unwrap();
    h.rp.insert(0, 2).unwrap();
    ack_all(&h);
    h.rp.transaction_commit().unwrap();
    let first: Vec<Update> = h
        .cmd_rx[0]
        .try_iter()
        .filter_map(|m| match m {
            Msg::Update { updates, .. } => Some(updates),
            _ => None,
        })
        .flatten()
        .collect();
    let second: Vec<Update> = h
        .cmd_rx[1]
        .try_iter()
        .filter_map(|m| match m {
            Msg::Update { updates, .. } => Some(updates),
            _ => None,
        })
        .flatten()
        .collect();
    assert_eq!(first, vec![Update::Insert { relid: 0, v: 1 }]);
    assert_eq!(second, vec![Update::Insert { relid: 0, v: 2 }]);
}

#[test]
fn stop_sends_stop_to_every_worker() {
    let prog = program_of(vec![input_relation(0, CachingMode::CacheSet, false)]);
    let mut h = start(&prog, 2);
    h.rp.stop().unwrap();
    for rx in &h.cmd_rx {
        assert!(matches!(rx.try_recv().unwrap(), Msg::Stop));
    }
    // Stopping twice is a no-op.
    h.rp.stop().unwrap();
    for rx in &h.cmd_rx {
        assert!(rx.try_recv().is_err());
    }
}

#[test]
fn inspect_callback_stops_the_batch() {
    let prog = program_of(vec![input_relation(0, CachingMode::CacheSet, false)]);
    let mut h = start(&prog, 1);
    h.rp.transaction_start().unwrap();
    let updates = vec![
        Update::Insert { relid: 0, v: 1 },
        Update::Insert { relid: 0, v: 2 },
        Update::Insert { relid: 0, v: 3 },
    ];
    // The inspector rejects the second update: the first stays applied, the
    // rest are never reached, and nothing is forwarded.
    let err = h
        .rp
        .apply_updates(updates, |u: Update| -> Result<(), String> {
            match u {
                Update::Insert { v: 2, .. } => Err("rejected by inspector".to_owned()),
                _ => Ok(()),
            }
        })
        .unwrap_err();
    assert_eq!(err, "rejected by inspector");
    let data = h.rp.get_input_relation_data(0).unwrap();
    assert!(data.contains(1));
    assert!(!data.contains(2));
    assert!(!data.contains(3));
    assert!(drain_updates(&h).is_empty());
}

#[test]
fn transport_failures() {
    let prog = program_of(vec![input_relation(0, CachingMode::CacheSet, false)]);

    // A dead command channel fails the dispatch.
    let mut h = start(&prog, 1);
    h.cmd_rx.clear();
    h.rp.transaction_start().unwrap();
    assert_eq!(
        h.rp.insert(0, 1).unwrap_err(),
        "failed to communicate with worker thread"
    );

    // A dead reply channel fails the flush barrier.
    let mut h2 = start(&prog, 1);
    h2.rp.transaction_start().unwrap();
    h2.rp.insert(0, 1).unwrap();
    h2.reply_tx.clear();
    assert_eq!(
        h2.rp.transaction_commit().unwrap_err(),
        "failed to receive flush ack message from worker"
    );

    // A reply of the wrong kind fails the flush barrier.
    let mut h3 = start(&prog, 1);
    h3.rp.transaction_start().unwrap();
    h3.rp.insert(0, 1).unwrap();
    h3.reply_tx[0].send(Reply::QueryRes(None)).unwrap();
    assert_eq!(
        h3.rp.transaction_commit().unwrap_err(),
        "received unexpected reply to flush request from worker"
    );

    // A flush acknowledgement in answer to a query fails the query.
    let mut h4 = start(&prog, 1);
    h4.reply_tx[0].send(Reply::FlushAck).unwrap();
    assert_eq!(
        h4.rp.dump_arrangement((0, 0)).unwrap_err(),
        "query_arrangement: unexpected reply from worker"
    );

    // A dead reply channel fails the query.
    let mut h5 = start(&prog, 1);
    h5.reply_tx.clear();
    assert_eq!(
        h5.rp.dump_arrangement((0, 0)).unwrap_err(),
        "query_arrangement: failed to receive reply from worker"
    );
}

#[test]
fn constructor_rejections() {
    // No workers.
    let prog = program_of(vec![input_relation(0, CachingMode::CacheSet, false)]);
    let err = match RunningProgram::new(&prog, Vec::new(), Vec::new(), None, None, None) {
        Ok(_) => panic!("expected a rejection"),
        Err(e) => e,
    };
    assert_eq!(err, "a worker pool needs at least one worker");

    // Two input relations under the same id.
    let prog2 = program_of(vec![
        input_relation(0, CachingMode::CacheSet, false),
        input_relation(0, CachingMode::CacheMultiset, false),
    ]);
    let (s, _r) = crossbeam_channel::unbounded();
    let (_s2, r2) = crossbeam_channel::unbounded();
    let err2 = match RunningProgram::new(&prog2, vec![s], vec![r2], None, None, None) {
        Ok(_) => panic!("expected a rejection"),
        Err(e) => e,
    };
    assert_eq!(err2, "duplicate relation id");
}

#[test]
fn input_relation_in_scc_is_rejected() {
    let mut rel = input_relation(0, CachingMode::CacheSet, false);
    rel.input = true;
    let prog = Program {
        nodes: vec![ProgNode::Scc {
            rels: vec![RecursiveRelation { rel, distinct: true }],
        }],
        delayed_rels: Vec::new(),
        init_data: Vec::new(),
    };
    let (s, _r) = crossbeam_channel::unbounded();
    let (_s2, r2) = crossbeam_channel::unbounded();
    let err = match RunningProgram::new(&prog, vec![s], vec![r2], None, None, None) {
        Ok(_) => panic!("expected a build-time rejection"),
        Err(e) => e,
    };
    assert_eq!(err, "input relation in a recursive component");
}

#[test]
fn enable_profiling_flags() {
    let prog = program_of(vec![input_relation(0, CachingMode::CacheSet, false)]);
    let cpu = triomphe::Arc::new(AtomicBool::new(false));
    let timely = triomphe::Arc::new(AtomicBool::new(false));
    let change = triomphe::Arc::new(AtomicBool::new(false));
    let (s, _r) = crossbeam_channel::unbounded();
    let (s2, r2) = crossbeam_channel::unbounded();
    s2.send(Reply::FlushAck).unwrap();
    let rp = RunningProgram::new(
        &prog,
        vec![s],
        vec![r2],
        Some(cpu.clone()),
        Some(timely.clone()),
        Some(change.clone()),
    )
    .unwrap();
    rp.enable_cpu_profiling(true);
    rp.enable_timely_profiling(true);
    rp.enable_change_profiling(true);
    assert!(cpu.load(Ordering::SeqCst));
    assert!(timely.load(Ordering::SeqCst));
    assert!(change.load(Ordering::SeqCst));
    rp.enable_cpu_profiling(false);
    assert!(!cpu.load(Ordering::SeqCst));
}
