use tremor_runtime::codec::Codec;
use tremor_runtime::dispatch::{
    fan_out, make_preprocessors, send_event, Dispatch, OnrampMsg, PipelineDest, Preproc,
};
use tremor_runtime::error::ErrorKind;
use tremor_runtime::event::{encode_event, Event};
use tremor_runtime::value::Value;

fn dest(addr: u64, input: Option<&str>) -> PipelineDest {
    PipelineDest { addr, input: input.map(|s| s.to_string()) }
}

#[test]
fn lines_preprocessor_splits_at_line_feeds() {
    let out = Preproc::Lines.process(0, &b"a\nbb\n".to_vec()).expect("lines never fail");
    assert_eq!(out, vec![b"a".to_vec(), b"bb".to_vec(), b"".to_vec()]);
    let out = Preproc::Lines.process(0, &b"abc".to_vec()).expect("lines never fail");
    assert_eq!(out, vec![b"abc".to_vec()]);
}

#[test]
fn preprocessor_lookup_knows_lines_only() {
    let ps = make_preprocessors(&vec!["lines".to_string()]).expect("known name");
    assert_eq!(ps, vec![Preproc::Lines]);
    assert_eq!(
        make_preprocessors(&vec!["gzip".to_string()]),
        Err(ErrorKind::Config)
    );
}

#[test]
fn two_destinations_receive_equal_copies() {
    // Scenario: destinations registered in order; the first receives a copy,
    // the last the original; both compare equal by content.
    let mut d = Dispatch::new(Codec::Binary, Vec::new());
    assert!(!d.on_control(OnrampMsg::Connect(vec![
        dest(1, Some("in")),
        dest(2, Some("in")),
    ])));
    let payload = Codec::Binary.encode(&Value::UInt(7));
    let outs = d.on_data(50, payload);
    assert_eq!(outs.len(), 2);
    assert_eq!(outs[0].dest, 0);
    assert_eq!(outs[1].dest, 1);
    assert_eq!(outs[0].input, "in");
    assert_eq!(outs[1].input, "in");
    assert_eq!(encode_event(&outs[0].event), encode_event(&outs[1].event));
    assert_eq!(outs[0].event.id, 0);
    assert_eq!(outs[0].event.ingest_ns, 50);
}

#[test]
fn idle_worker_discards_raw_input() {
    let mut d = Dispatch::new(Codec::Binary, Vec::new());
    let payload = Codec::Binary.encode(&Value::UInt(7));
    let outs = d.on_data(50, payload);
    assert!(outs.is_empty());
}

#[test]
fn disconnect_is_acknowledged_once() {
    let mut d = Dispatch::new(Codec::Binary, Vec::new());
    assert!(!d.on_control(OnrampMsg::Connect(vec![dest(1, Some("in"))])));
    assert!(d.on_control(OnrampMsg::Disconnect));
}

#[test]
fn destination_without_port_is_skipped() {
    let ev = Event {
        id: 3,
        ingest_ns: 9,
        is_batch: false,
        kind: None,
        meta: Vec::new(),
        value: Value::Text(b"hi".to_vec()),
    };
    let pipes = vec![dest(1, None), dest(2, Some("in")), dest(3, None)];
    let outs = fan_out(&pipes, ev);
    assert_eq!(outs.len(), 1);
    assert_eq!(outs[0].dest, 1);
}

#[test]
fn lines_then_decode_fans_out_every_value() {
    // Two encoded null values framed by a line feed: each surviving buffer
    // decodes to one envelope; the empty trailing line is skipped.
    let pipes = vec![dest(1, Some("in"))];
    let pps = vec![Preproc::Lines];
    let data = vec![0u8, 10u8, 0u8];
    let outs = send_event(&pipes, &pps, &Codec::Binary, 8, 99, data);
    assert_eq!(outs.len(), 2);
    assert!(outs[0].event.value.deep_eq(&Value::Null));
    assert!(outs[1].event.value.deep_eq(&Value::Null));
    assert_eq!(outs[0].event.id, 8);
    assert_eq!(outs[1].event.ingest_ns, 99);
}

#[test]
fn event_duplicate_preserves_content() {
    let ev = Event {
        id: 4,
        ingest_ns: 11,
        is_batch: true,
        kind: Some(2),
        meta: vec![(b"k".to_vec(), Value::UInt(1))],
        value: Value::Array(vec![Value::Text(b"v".to_vec())]),
    };
    let copy = ev.duplicate();
    assert_eq!(encode_event(&ev), encode_event(&copy));
}
