use vstd::prelude::*;
use crate::value::{pairs_model, ValModel, Value};
use crate::codec::{be8, num8, enc, enc_pairs, dec, wf, wf_pairs, lemma_num8_be8, lemma_dec_enc,
    lemma_enc_pairs_snoc, lemma_wf_pairs, decode_at, push_be8, push_bytes, read_be8};

verus! {

/// Mathematical form of an event envelope.
pub struct EventModel {
    pub id: u64,
    pub ingest_ns: u64,
    pub is_batch: bool,
    pub kind: Option<u64>,
    pub meta: Seq<(Seq<u8>, ValModel)>,
    pub value: ValModel,
}

/// The unit of data routed through the graph: a structured payload together
/// with its provenance tag, ingestion timestamp and auxiliary metadata.
pub struct Event {
    /// Provenance tag assigned once by the producing onramp; clones share it.
    pub id: u64,
    /// Nanosecond timestamp captured at first ingestion, never recomputed.
    pub ingest_ns: u64,
    /// Whether `value` is itself a sequence of sub-events.
    pub is_batch: bool,
    /// Discriminator for control or signal events; absent for ordinary data.
    pub kind: Option<u64>,
    /// Auxiliary mapping carried alongside the value, untouched by codecs.
    pub meta: Vec<(Vec<u8>, Value)>,
    /// The decoded structured payload.
    pub value: Value,
}

impl View for Event {
    type V = EventModel;

    open spec fn view(&self) -> EventModel {
        EventModel {
            id: self.id,
            ingest_ns: self.ingest_ns,
            is_batch: self.is_batch,
            kind: self.kind,
            meta: pairs_model(self.meta@),
            value: self.value@,
        }
    }
}

/// Whether the envelope's parts fit the wire format's length fields; every
/// executable `Event` satisfies this.
pub open spec fn wf_event(m: EventModel) -> bool {
    m.meta.len() <= u64::MAX && wf_pairs(m.meta) && wf(m.value)
}

/// The serialized form of an envelope: identifiers, flags, then the metadata
/// record and the payload in the value wire format.
pub open spec fn enc_event(m: EventModel) -> Seq<u8> {
    be8(m.id) + be8(m.ingest_ns) + seq![if m.is_batch { 1u8 } else { 0u8 }] + (match m.kind {
        Option::None => seq![0u8],
        Option::Some(k) => seq![1u8] + be8(k),
    }) + (seq![4u8] + be8(m.meta.len() as u64) + enc_pairs(m.meta)) + enc(m.value)
}

/// Deserialization of an envelope; `None` for anything that is not exactly
/// one serialized envelope.
pub open spec fn dec_event(s: Seq<u8>) -> Option<EventModel> {
    if s.len() < 18 {
        None
    } else {
        let id = num8(s.subrange(0, 8));
        let ingest_ns = num8(s.subrange(8, 16));
        if s[16] != 0 && s[16] != 1 {
            None
        } else {
            let is_batch = s[16] == 1;
            if s[17] == 0 {
                dec_event_rest(s, id, ingest_ns, is_batch, Option::None, 18)
            } else if s[17] == 1 && s.len() >= 26 {
                dec_event_rest(
                    s,
                    id,
                    ingest_ns,
                    is_batch,
                    Option::Some(num8(s.subrange(18, 26))),
                    26,
                )
            } else {
                None
            }
        }
    }
}

/// The metadata-and-payload tail of envelope deserialization.
pub open spec fn dec_event_rest(
    s: Seq<u8>,
    id: u64,
    ingest_ns: u64,
    is_batch: bool,
    kind: Option<u64>,
    off: int,
) -> Option<EventModel> {
    match dec(s.subrange(off, s.len() as int)) {
        Some(p1) => match p1.0 {
            ValModel::Record(meta) => match dec(p1.1) {
                Some(p2) => if p2.1.len() == 0 {
                    Some(EventModel { id, ingest_ns, is_batch, kind, meta, value: p2.0 })
                } else {
                    None
                },
                None => None,
            },
            _ => None,
        },
        None => None,
    }
}

/// Round trip: deserializing a serialized envelope yields it back.
#[verifier::rlimit(100)]
pub proof fn lemma_event_round_trip(m: EventModel)
    requires
        wf_event(m),
    ensures
        dec_event(enc_event(m)) == Some(m),
{
    let s = enc_event(m);
    let mrec = ValModel::Record(m.meta);
    let off: int = match m.kind {
        Option::None => 18,
        Option::Some(_) => 26,
    };
    assert(enc(mrec) == seq![4u8] + be8(m.meta.len() as u64) + enc_pairs(m.meta));
    assert(s.subrange(0, 8) =~= be8(m.id));
    assert(s.subrange(8, 16) =~= be8(m.ingest_ns));
    lemma_num8_be8(m.id);
    lemma_num8_be8(m.ingest_ns);
    assert(s[16] == if m.is_batch { 1u8 } else { 0u8 });
    match m.kind {
        Option::None => {
            assert(s[17] == 0);
        },
        Option::Some(k) => {
            assert(s[17] == 1);
            assert(s.subrange(18, 26) =~= be8(k));
            lemma_num8_be8(k);
        },
    }
    assert(s.subrange(off, s.len() as int) =~= enc(mrec) + enc(m.value));
    lemma_dec_enc(mrec, enc(m.value));
    assert(enc(m.value) + Seq::<u8>::empty() =~= enc(m.value));
    lemma_dec_enc(m.value, Seq::empty());
}

impl Event {
    /// An independently owned envelope with the same observable content,
    /// sharing `id` and `ingest_ns` as a clone of an event must.
    pub fn duplicate(&self) -> (r: Event)
        ensures
            r@ == self@,
    {
        let bytes = encode_event(self);
        let r = decode_event(&bytes);
        proof {
            lemma_event_round_trip(self@);
        }
        match r {
            Some(e) => e,
            None => {
                proof {
                    assert(false);
                }
                Event {
                    id: 0,
                    ingest_ns: 0,
                    is_batch: false,
                    kind: None,
                    meta: Vec::new(),
                    value: Value::Null,
                }
            },
        }
    }
}

/// Serializes an envelope into its byte form.
#[verifier::loop_isolation(false)]
#[verifier::rlimit(50)]
pub fn encode_event(e: &Event) -> (out: Vec<u8>)
    ensures
        out@ == enc_event(e@),
        wf_event(e@),
{
    let mut out: Vec<u8> = Vec::new();
    push_be8(&mut out, e.id);
    push_be8(&mut out, e.ingest_ns);
    if e.is_batch {
        out.push(1u8);
    } else {
        out.push(0u8);
    }
    match e.kind {
        Option::None => {
            out.push(0u8);
        },
        Option::Some(k) => {
            out.push(1u8);
            push_be8(&mut out, k);
        },
    }
    let ghost head = out@;
    proof {
        crate::value::lemma_pairs_model(e.meta@);
    }
    out.push(4u8);
    push_be8(&mut out, e.meta.len() as u64);
    let mut i: usize = 0;
    while i < e.meta.len()
        invariant
            i <= e.meta.len(),
            out@ == head + seq![4u8] + be8(e.meta@.len() as u64) + enc_pairs(
                pairs_model(e.meta@).subrange(0, i as int),
            ),
            forall|j: int|
                0 <= j < i ==> (#[trigger] pairs_model(e.meta@)[j]).0.len() <= u64::MAX && wf(
                    pairs_model(e.meta@)[j].1,
                ),
        decreases e.meta.len() - i,
    {
        let ghost pre = pairs_model(e.meta@).subrange(0, i as int);
        push_be8(&mut out, e.meta[i].0.len() as u64);
        push_bytes(&mut out, &e.meta[i].0);
        crate::codec::encode_onto(&e.meta[i].1, &mut out);
        proof {
            assert(pre.push((e.meta@[i as int].0@, e.meta@[i as int].1@)) =~= pairs_model(
                e.meta@,
            ).subrange(0, i + 1));
            lemma_enc_pairs_snoc(pre, e.meta@[i as int].0@, e.meta@[i as int].1@);
            assert(head + seq![4u8] + be8(e.meta@.len() as u64) + enc_pairs(pre) + (be8(
                e.meta@[i as int].0@.len() as u64,
            ) + e.meta@[i as int].0@ + enc(e.meta@[i as int].1@)) =~= head + seq![4u8] + be8(
                e.meta@.len() as u64,
            ) + enc_pairs(pairs_model(e.meta@).subrange(0, i + 1)));
        }
        i = i + 1;
    }
    proof {
        assert(pairs_model(e.meta@).subrange(0, pairs_model(e.meta@).len() as int) =~= pairs_model(
            e.meta@,
        ));
        lemma_wf_pairs(pairs_model(e.meta@));
    }
    crate::codec::encode_onto(&e.value, &mut out);
    proof {
        assert(out@ =~= enc_event(e@));
    }
    out
}

/// Deserializes an envelope from its byte form.
#[verifier::rlimit(50)]
pub fn decode_event(data: &Vec<u8>) -> (r: Option<Event>)
    ensures
        match r {
            Some(e) => dec_event(data@) == Some(e@) && wf_event(e@),
            None => dec_event(data@) is None,
        },
{
    let len = data.len();
    if len < 18 {
        return None;
    }
    let id = read_be8(data, 0);
    let ingest_ns = read_be8(data, 8);
    proof {
        assert(data@.subrange(0, 8) =~= data@.subrange(0int, 0int + 8));
        assert(data@.subrange(8, 16) =~= data@.subrange(8int, 8int + 8));
    }
    let ib = data[16];
    if ib != 0 && ib != 1 {
        return None;
    }
    let is_batch = ib == 1;
    let kb = data[17];
    let kind: Option<u64>;
    let off: usize;
    if kb == 0 {
        kind = None;
        off = 18;
    } else if kb == 1 && len >= 26 {
        kind = Some(read_be8(data, 18));
        proof {
            assert(data@.subrange(18, 26) =~= data@.subrange(18int, 18int + 8));
        }
        off = 26;
    } else {
        return None;
    }
    match decode_at(data, off) {
        Some((mv, end1)) => {
            let meta: Vec<(Vec<u8>, Value)>;
            match mv {
                Value::Record(ps) => {
                    meta = ps;
                },
                _ => {
                    return None;
                },
            }
            match decode_at(data, end1) {
                Some((value, end2)) => {
                    if end2 == len {
                        proof {
                            assert(data@.subrange(end2 as int, data@.len() as int).len() == 0);
                        }
                        Some(Event { id, ingest_ns, is_batch, kind, meta, value })
                    } else {
                        None
                    }
                },
                None => None,
            }
        },
        None => None,
    }
}

} // verus!
