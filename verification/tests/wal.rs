use tremor_runtime::event::{encode_event, Event};
use tremor_runtime::value::Value;
use tremor_runtime::wal::WAL;

fn event(id: u64, n: u64) -> Event {
    Event {
        id,
        ingest_ns: 100 + id,
        is_batch: false,
        kind: None,
        meta: Vec::new(),
        value: Value::UInt(n),
    }
}

fn same_event(a: &Event, b: &Event) -> bool {
    encode_event(a) == encode_event(b)
}

#[test]
fn empty_log_single_event_replays_itself() {
    let mut wal = WAL::new_temporary(5).expect("open temporary log");
    assert_eq!(wal.cursors(), (0, 1));
    let e = event(1, 7);
    let outs = wal
        .on_event("in", &mut Value::Null, event(1, 7))
        .expect("log and replay");
    assert_eq!(outs.len(), 1);
    assert_eq!(outs[0].0, "out");
    assert!(same_event(&outs[0].1, &e));
    assert_eq!(wal.cursors(), (1, 2));
}

#[test]
fn broken_mode_persists_but_withholds() {
    let mut wal = WAL::new_temporary(5).expect("open temporary log");
    wal.set_broken(true);
    let outs = wal
        .on_event("in", &mut Value::Null, event(1, 1))
        .expect("log while broken");
    assert!(outs.is_empty());
    assert_eq!(wal.cursors(), (1, 1));
    let outs = wal
        .on_event("in", &mut Value::Null, event(2, 2))
        .expect("log while broken");
    assert!(outs.is_empty());
    assert_eq!(wal.cursors(), (2, 1));
    wal.set_broken(false);
    let outs = wal
        .on_event("in", &mut Value::Null, event(3, 3))
        .expect("log and replay");
    assert_eq!(outs.len(), 3);
    for (i, (port, ev)) in outs.iter().enumerate() {
        assert_eq!(port, "out");
        assert!(same_event(ev, &event(i as u64 + 1, i as u64 + 1)));
    }
    assert_eq!(wal.cursors(), (3, 4));
}

#[test]
fn replay_is_bounded_by_read_count() {
    let mut wal = WAL::new_temporary(2).expect("open temporary log");
    wal.set_broken(true);
    for i in 1..=4u64 {
        wal.on_event("in", &mut Value::Null, event(i, i)).expect("log");
    }
    wal.set_broken(false);
    // Five unread entries; the window [1, 3) replays exactly two of them.
    let outs = wal
        .on_event("in", &mut Value::Null, event(5, 5))
        .expect("log and replay");
    assert_eq!(outs.len(), 2);
    assert!(same_event(&outs[0].1, &event(1, 1)));
    assert!(same_event(&outs[1].1, &event(2, 2)));
    assert_eq!(wal.cursors(), (5, 3));
}

#[test]
fn write_cursor_recovers_from_the_durable_log() {
    let path = "/tmp/tremor_runtime_wal_recovery_test";
    let w0 = {
        let mut wal = WAL::open(path, 5).expect("open log");
        let (w0, r0) = wal.cursors();
        assert_eq!(r0, 1);
        wal.set_broken(true);
        wal.on_event("in", &mut Value::Null, event(1, 1)).expect("log");
        assert_eq!(wal.cursors(), (w0 + 1, 1));
        w0
    };
    let wal = WAL::open(path, 5).expect("reopen log");
    assert_eq!(wal.cursors(), (w0 + 1, 1));
}
