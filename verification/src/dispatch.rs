use vstd::prelude::*;
use crate::codec::{dec, str_eq, Codec};
use crate::error::ErrorKind;
use crate::event::Event;
use crate::value::Value;

verus! {

/// Splitting a buffer at every line feed: one buffer per line, the line
/// feeds themselves dropped. A trailing line feed yields a final empty line.
pub open spec fn split_lines(s: Seq<u8>) -> Seq<Seq<u8>>
    decreases s.len(),
{
    if s.len() == 0 {
        seq![Seq::empty()]
    } else if s[0] == 10 {
        seq![Seq::empty()] + split_lines(s.subrange(1, s.len() as int))
    } else {
        let rest = split_lines(s.subrange(1, s.len() as int));
        seq![seq![s[0]] + rest[0]] + rest.subrange(1, rest.len() as int)
    }
}

/// A split always yields at least one buffer.
pub proof fn lemma_split_lines_len(s: Seq<u8>)
    ensures
        split_lines(s).len() >= 1,
    decreases s.len(),
{
    if s.len() > 0 {
        lemma_split_lines_len(s.subrange(1, s.len() as int));
    }
}

/// A stateless byte-to-bytes transform applied before decoding; `Lines`
/// frames the input at line feeds.
#[derive(Clone, Copy, Debug, PartialEq, Eq, Structural)]
pub enum Preproc {
    Lines,
}

/// What a preprocessor produces from one input buffer.
pub open spec fn preproc_spec(p: Preproc, data: Seq<u8>) -> Seq<Seq<u8>> {
    match p {
        Preproc::Lines => split_lines(data),
    }
}

impl Preproc {
    /// Expands one input buffer into zero or more output buffers. The
    /// interface admits a per-message failure; `Lines` itself never fails.
    #[verifier::loop_isolation(false)]
    pub fn process(&self, _ingest_ns: u64, data: &Vec<u8>) -> (r: Result<
        Vec<Vec<u8>>,
        crate::error::ErrorKind,
    >)
        ensures
            r matches Ok(out) && out.deep_view() == preproc_spec(*self, data@),
    {
        let mut done: Vec<Vec<u8>> = Vec::new();
        let mut cur: Vec<u8> = Vec::new();
        let mut i: usize = 0;
        proof {
            lemma_split_lines_len(data@);
            assert(data@.subrange(0, data@.len() as int) =~~= data@);
            assert(done.deep_view() =~~= Seq::<Seq<u8>>::empty());
            assert(Seq::<u8>::empty() + split_lines(data@)[0] =~~= split_lines(data@)[0]);
            assert(done.deep_view() + seq![Seq::<u8>::empty() + split_lines(data@)[0]]
                + split_lines(data@).subrange(1, split_lines(data@).len() as int) =~~= split_lines(
                data@,
            ));
        }
        while i < data.len()
            invariant
                i <= data.len(),
                split_lines(data@) == done.deep_view() + seq![cur@ + split_lines(
                    data@.subrange(i as int, data@.len() as int),
                )[0]] + split_lines(data@.subrange(i as int, data@.len() as int)).subrange(
                    1,
                    split_lines(data@.subrange(i as int, data@.len() as int)).len() as int,
                ),
            decreases data.len() - i,
        {
            let ghost suf = data@.subrange(i as int, data@.len() as int);
            let ghost suf1 = data@.subrange(i as int + 1, data@.len() as int);
            proof {
                assert(suf.len() > 0);
                assert(suf[0] == data@[i as int]);
                assert(suf.subrange(1, suf.len() as int) =~~= suf1);
                lemma_split_lines_len(suf1);
            }
            let b = data[i];
            if b == 10 {
                proof {
                    assert(split_lines(suf) == seq![Seq::<u8>::empty()] + split_lines(suf1));
                    assert((done.deep_view().push(cur@)) + seq![Seq::<u8>::empty() + split_lines(
                        suf1,
                    )[0]] + split_lines(suf1).subrange(1, split_lines(suf1).len() as int)
                        =~~= done.deep_view() + seq![cur@ + split_lines(suf)[0]] + split_lines(
                        suf,
                    ).subrange(1, split_lines(suf).len() as int));
                    assert(Seq::<u8>::empty() + split_lines(suf1)[0] =~~= split_lines(suf1)[0]);
                }
                let ghost dv = done.deep_view();
                let ghost cv = cur@;
                done.push(cur);
                cur = Vec::new();
                proof {
                    assert(done.deep_view() =~~= dv.push(cv));
                }
            } else {
                proof {
                    let rest = split_lines(suf1);
                    assert(split_lines(suf) == seq![seq![suf[0]] + rest[0]] + rest.subrange(
                        1,
                        rest.len() as int,
                    ));
                    assert((cur@.push(b)) + rest[0] =~~= cur@ + (seq![b] + rest[0]));
                    assert(cur@ + split_lines(suf)[0] =~~= (cur@.push(b)) + rest[0]);
                    assert(split_lines(suf).subrange(1, split_lines(suf).len() as int) =~~= rest
                        .subrange(1, rest.len() as int));
                }
                cur.push(b);
            }
            i = i + 1;
        }
        let ghost suf_end = data@.subrange(data@.len() as int, data@.len() as int);
        proof {
            assert(suf_end =~~= Seq::<u8>::empty());
            assert(split_lines(Seq::<u8>::empty()) == seq![Seq::<u8>::empty()]);
            assert(split_lines(suf_end).subrange(1, split_lines(suf_end).len() as int)
                =~~= Seq::<Seq<u8>>::empty());
            assert(cur@ + split_lines(suf_end)[0] =~~= cur@);
        }
        let ghost dv = done.deep_view();
        let ghost cv = cur@;
        done.push(cur);
        proof {
            assert(done.deep_view() =~~= dv.push(cv));
            assert(dv + seq![cv] + Seq::<Seq<u8>>::empty() =~~= dv.push(cv));
            assert(done.deep_view() =~~= split_lines(data@));
        }
        Ok(done)
    }
}

/// The registered name of the `Lines` preprocessor.
pub open spec fn lines_name() -> Seq<char> {
    "lines"@
}

/// Resolves each named preprocessor, in order; an unknown name is a
/// configuration error.
#[verifier::loop_isolation(false)]
pub fn make_preprocessors(preprocessors: &Vec<String>) -> (r: Result<Vec<Preproc>, ErrorKind>)
    ensures
        match r {
            Ok(ps) => ps@.len() == preprocessors@.len() && (forall|i: int|
                0 <= i < ps@.len() ==> (#[trigger] ps@[i]) == Preproc::Lines) && (forall|i: int|
                0 <= i < preprocessors@.len() ==> (#[trigger] preprocessors@[i])@
                    == lines_name()),
            Err(e) => e == ErrorKind::Config && (exists|i: int|
                0 <= i < preprocessors@.len() && preprocessors@[i]@ != lines_name()),
        },
{
    let mut out: Vec<Preproc> = Vec::new();
    let mut i: usize = 0;
    while i < preprocessors.len()
        invariant
            i <= preprocessors.len(),
            out@.len() == i,
            forall|j: int| 0 <= j < i ==> (#[trigger] out@[j]) == Preproc::Lines,
            forall|j: int| 0 <= j < i ==> (#[trigger] preprocessors@[j])@ == lines_name(),
        decreases preprocessors.len() - i,
    {
        let known = str_eq(preprocessors[i].as_str(), "lines");
        proof {
            if preprocessors@[i as int]@ == "lines"@ {
                assert(preprocessors@[i as int]@ =~= lines_name());
            } else {
                assert(preprocessors@[i as int]@ != lines_name()) by {
                    if preprocessors@[i as int]@ == lines_name() {
                        assert(preprocessors@[i as int]@ =~= "lines"@);
                    }
                }
            }
        }
        if known {
            out.push(Preproc::Lines);
        } else {
            return Err(ErrorKind::Config);
        }
        i = i + 1;
    }
    Ok(out)
}

} // verus!

verus! {

use crate::event::EventModel;
use crate::value::ValModel;

/// A downstream pipeline address: the mailbox ident the surrounding wiring
/// maps to a real channel, and the input port the connection names, if any.
pub struct PipelineDest {
    pub addr: u64,
    pub input: Option<String>,
}

/// One produced delivery: which registered destination (by its index in the
/// registration order), on which input port, and the envelope.
pub struct Delivery {
    pub dest: usize,
    pub input: String,
    pub event: Event,
}

/// One pass of a preprocessor over every buffer, in order.
pub open spec fn chain_step(p: Preproc, bufs: Seq<Seq<u8>>) -> Seq<Seq<u8>>
    decreases bufs.len(),
{
    if bufs.len() == 0 {
        Seq::empty()
    } else {
        preproc_spec(p, bufs[0]) + chain_step(p, bufs.subrange(1, bufs.len() as int))
    }
}

/// The whole preprocessor chain, first to last, over an initial buffer set.
pub open spec fn chain_spec(pps: Seq<Preproc>, bufs: Seq<Seq<u8>>) -> Seq<Seq<u8>>
    decreases pps.len(),
{
    if pps.len() == 0 {
        bufs
    } else {
        chain_spec(pps.subrange(1, pps.len() as int), chain_step(pps[0], bufs))
    }
}

/// What one surviving buffer decodes to: a value only when the buffer is
/// nonempty and holds exactly one encoded value; otherwise it is skipped.
pub open spec fn buf_value(b: Seq<u8>) -> Option<ValModel> {
    if b.len() == 0 {
        None
    } else {
        match dec(b) {
            Some(p) => if p.1.len() == 0 {
                Some(p.0)
            } else {
                None
            },
            None => None,
        }
    }
}

/// The values decoded out of the surviving buffers, in order.
pub open spec fn decoded_values(bufs: Seq<Seq<u8>>) -> Seq<ValModel>
    decreases bufs.len(),
{
    if bufs.len() == 0 {
        Seq::empty()
    } else {
        let rest = decoded_values(bufs.subrange(1, bufs.len() as int));
        match buf_value(bufs[0]) {
            Some(v) => seq![v] + rest,
            None => rest,
        }
    }
}

/// The envelope built for one decoded value.
pub open spec fn event_for(id: u64, ingest_ns: u64, v: ValModel) -> EventModel {
    EventModel { id, ingest_ns, is_batch: false, kind: None, meta: Seq::empty(), value: v }
}

/// The deliveries owed for one envelope, walking the destinations from
/// index `d` on: one per destination with a resolvable input port.
pub open spec fn deliveries_for(dests: Seq<PipelineDest>, d: int, ev: EventModel) -> Seq<
    (int, Seq<char>, EventModel),
>
    decreases dests.len() - d,
{
    if d < 0 || d >= dests.len() {
        Seq::empty()
    } else {
        (match dests[d].input {
            Some(inp) => seq![(d, inp@, ev)],
            None => Seq::empty(),
        }) + deliveries_for(dests, d + 1, ev)
    }
}

/// The deliveries owed for a whole batch of decoded values, in order.
pub open spec fn all_deliveries(
    dests: Seq<PipelineDest>,
    vals: Seq<ValModel>,
    id: u64,
    ingest_ns: u64,
) -> Seq<(int, Seq<char>, EventModel)>
    decreases vals.len(),
{
    if vals.len() == 0 {
        Seq::empty()
    } else {
        deliveries_for(dests, 0, event_for(id, ingest_ns, vals[0])) + all_deliveries(
            dests,
            vals.subrange(1, vals.len() as int),
            id,
            ingest_ns,
        )
    }
}

/// Fan-out of one envelope: every destination with a resolvable port gets a
/// delivery of equal content, in registration order; the last of them takes
/// the envelope itself and the others take independent copies.
#[verifier::loop_isolation(false)]
pub fn fan_out(pipelines: &Vec<PipelineDest>, event: Event) -> (outs: Vec<Delivery>)
    requires
        pipelines.len() >= 1,
    ensures
        outs@.len() == deliveries_for(pipelines@, 0, event@).len(),
        forall|i: int|
            0 <= i < outs@.len() ==> {
                let t = deliveries_for(pipelines@, 0, event@)[i];
                (#[trigger] outs@[i]).dest == t.0 && outs@[i].input@ == t.1 && outs@[i].event@
                    == t.2
            },
{
    let ghost full = deliveries_for(pipelines@, 0, event@);
    let mut outs: Vec<Delivery> = Vec::new();
    let mut d: usize = 0;
    let last = pipelines.len() - 1;
    while d < last
        invariant
            d <= last,
            last == pipelines@.len() - 1,
            deliveries_for(pipelines@, d as int, event@) == full.subrange(
                outs@.len() as int,
                full.len() as int,
            ),
            outs@.len() <= full.len(),
            forall|i: int|
                0 <= i < outs@.len() ==> {
                    let t = full[i];
                    (#[trigger] outs@[i]).dest == t.0 && outs@[i].input@ == t.1 && outs@[i].event@
                        == t.2
                },
        decreases last - d,
    {
        let ghost k = outs@.len() as int;
        match &pipelines[d].input {
            Some(inp) => {
                proof {
                    assert(deliveries_for(pipelines@, d as int, event@) == seq![
                        (d as int, inp@, event@),
                    ] + deliveries_for(pipelines@, d as int + 1, event@));
                    assert(deliveries_for(pipelines@, d as int, event@)[0] == (
                        d as int,
                        inp@,
                        event@,
                    ));
                    assert(full.subrange(k, full.len() as int).len() >= 1);
                    assert(full.subrange(k, full.len() as int)[0] == full[k]);
                    assert(full[k] == (d as int, inp@, event@));
                    assert(deliveries_for(pipelines@, d as int + 1, event@) =~= full.subrange(
                        k + 1,
                        full.len() as int,
                    )) by {
                        let tail = deliveries_for(pipelines@, d as int + 1, event@);
                        let head = deliveries_for(pipelines@, d as int, event@);
                        assert(head == full.subrange(k, full.len() as int));
                        assert(head.len() == full.len() - k);
                        assert forall|i: int| 0 <= i < tail.len() implies tail[i] == full.subrange(
                            k + 1,
                            full.len() as int,
                        )[i] by {
                            assert(head[i + 1] == tail[i]);
                            assert(head[i + 1] == full[k + 1 + i]);
                            assert(full.subrange(k + 1, full.len() as int)[i] == full[k + 1 + i]);
                        }
                    }
                }
                let copy = event.duplicate();
                outs.push(Delivery { dest: d, input: inp.clone(), event: copy });
            },
            None => {
                proof {
                    assert(deliveries_for(pipelines@, d as int, event@) == deliveries_for(
                        pipelines@,
                        d as int + 1,
                        event@,
                    ));
                }
            },
        }
        d = d + 1;
    }
    let ghost k = outs@.len() as int;
    match &pipelines[last].input {
        Some(inp) => {
            proof {
                assert(deliveries_for(pipelines@, last as int, event@) == seq![
                    (last as int, inp@, event@),
                ] + deliveries_for(pipelines@, last as int + 1, event@));
                assert(deliveries_for(pipelines@, last as int + 1, event@) == Seq::<(int, Seq<char>, EventModel)>::empty());
                assert(deliveries_for(pipelines@, last as int, event@)[0] == (
                    last as int,
                    inp@,
                    event@,
                ));
                assert(full.subrange(k, full.len() as int).len() >= 1);
                assert(full.subrange(k, full.len() as int)[0] == full[k]);
                assert(full[k] == (last as int, inp@, event@));
            }
            let inp2 = inp.clone();
            outs.push(Delivery { dest: last, input: inp2, event });
        },
        None => {
            proof {
                assert(deliveries_for(pipelines@, last as int, event@) == deliveries_for(
                    pipelines@,
                    last as int + 1,
                    event@,
                ));
                assert(deliveries_for(pipelines@, last as int + 1, event@) == Seq::<(int, Seq<char>, EventModel)>::empty());
            }
        },
    }
    proof {
        assert(outs@.len() == full.len());
    }
    outs
}

} // verus!

verus! {

/// Appending a buffer extends a preprocessor pass at its end.
pub proof fn lemma_chain_step_snoc(p: Preproc, s: Seq<Seq<u8>>, b: Seq<u8>)
    ensures
        chain_step(p, s.push(b)) == chain_step(p, s) + preproc_spec(p, b),
    decreases s.len(),
{
    let w = s.push(b);
    if s.len() == 0 {
        assert(w[0] == b);
        assert(w.subrange(1, w.len() as int) =~= Seq::<Seq<u8>>::empty());
        assert(chain_step(p, w.subrange(1, w.len() as int)) == Seq::<Seq<u8>>::empty());
        assert(chain_step(p, w) =~= preproc_spec(p, b));
        assert(chain_step(p, s) + preproc_spec(p, b) =~= preproc_spec(p, b));
    } else {
        assert(w[0] == s[0]);
        assert(w.subrange(1, w.len() as int) =~= s.subrange(1, s.len() as int).push(b));
        lemma_chain_step_snoc(p, s.subrange(1, s.len() as int), b);
        assert(chain_step(p, w) =~= chain_step(p, s) + preproc_spec(p, b));
    }
}

/// Runs the raw bytes of one ingestion message through the preprocessor
/// chain, decodes every surviving buffer, and produces the owed deliveries:
/// for each decoded value one envelope, fanned out to every destination
/// with a resolvable input port, in order. Buffers that decode to nothing
/// or fail to decode are skipped and fail nothing else.
#[verifier::loop_isolation(false)]
#[verifier::rlimit(100)]
pub fn send_event(
    pipelines: &Vec<PipelineDest>,
    preprocessors: &Vec<Preproc>,
    codec: &Codec,
    id: u64,
    ingest_ns: u64,
    data: Vec<u8>,
) -> (outs: Vec<Delivery>)
    requires
        pipelines.len() >= 1,
    ensures
        ({
            let bufs = chain_spec(preprocessors@, seq![data@]);
            let full = all_deliveries(pipelines@, decoded_values(bufs), id, ingest_ns);
            outs@.len() == full.len() && (forall|i: int|
                0 <= i < outs@.len() ==> {
                    let t = full[i];
                    (#[trigger] outs@[i]).dest == t.0 && outs@[i].input@ == t.1 && outs@[i].event@
                        == t.2
                })
        }),
{
    let ghost d0 = data@;
    let mut bufs: Vec<Vec<u8>> = Vec::new();
    bufs.push(data);
    proof {
        assert(bufs.deep_view() =~~= seq![d0]);
        assert(preprocessors@.subrange(0, preprocessors@.len() as int) =~= preprocessors@);
    }
    let mut p: usize = 0;
    while p < preprocessors.len()
        invariant
            p <= preprocessors.len(),
            chain_spec(
                preprocessors@.subrange(p as int, preprocessors@.len() as int),
                bufs.deep_view(),
            ) == chain_spec(preprocessors@, seq![d0]),
        decreases preprocessors.len() - p,
    {
        let ghost old_dv = bufs.deep_view();
        let pp = preprocessors[p];
        let mut next: Vec<Vec<u8>> = Vec::new();
        let mut b: usize = 0;
        proof {
            assert(old_dv.subrange(0, 0) =~= Seq::<Seq<u8>>::empty());
            assert(chain_step(pp, old_dv.subrange(0, 0)) == Seq::<Seq<u8>>::empty());
            assert(next.deep_view() =~~= chain_step(pp, old_dv.subrange(0, 0)));
        }
        while b < bufs.len()
            invariant
                b <= bufs.len(),
                bufs.deep_view() == old_dv,
                pp == preprocessors@[p as int],
                next.deep_view() == chain_step(pp, old_dv.subrange(0, b as int)),
            decreases bufs.len() - b,
        {
            let ghost nv = next.deep_view();
            let mut part = match pp.process(ingest_ns, &bufs[b]) {
                Ok(p) => p,
                Err(_) => {
                    proof {
                        assert(false);
                    }
                    return Vec::new();
                },
            };
            let ghost pv = part.deep_view();
            next.append(&mut part);
            proof {
                assert(old_dv.subrange(0, b as int).push(old_dv[b as int]) =~= old_dv.subrange(
                    0,
                    b as int + 1,
                ));
                lemma_chain_step_snoc(pp, old_dv.subrange(0, b as int), old_dv[b as int]);
                assert(bufs@[b as int]@ == old_dv[b as int]);
                assert(pv == preproc_spec(pp, old_dv[b as int]));
                assert(next.deep_view() =~~= nv + pv);
                assert(next.deep_view() =~~= chain_step(pp, old_dv.subrange(0, b as int + 1)));
            }
            b = b + 1;
        }
        proof {
            assert(old_dv.subrange(0, old_dv.len() as int) =~= old_dv);
            assert(next.deep_view() == chain_step(pp, old_dv));
            let suf = preprocessors@.subrange(p as int, preprocessors@.len() as int);
            assert(suf[0] == pp);
            assert(suf.subrange(1, suf.len() as int) =~= preprocessors@.subrange(
                p as int + 1,
                preprocessors@.len() as int,
            ));
            assert(chain_spec(suf, old_dv) == chain_spec(
                preprocessors@.subrange(p as int + 1, preprocessors@.len() as int),
                chain_step(pp, old_dv),
            ));
        }
        bufs = next;
        p = p + 1;
    }
    proof {
        assert(preprocessors@.subrange(
            preprocessors@.len() as int,
            preprocessors@.len() as int,
        ) =~= Seq::<Preproc>::empty());
        assert(bufs.deep_view() == chain_spec(preprocessors@, seq![d0]));
    }
    let ghost bdv = bufs.deep_view();
    let ghost full = all_deliveries(pipelines@, decoded_values(bdv), id, ingest_ns);
    let mut outs: Vec<Delivery> = Vec::new();
    let mut b: usize = 0;
    proof {
        assert(bdv.subrange(0, bdv.len() as int) =~= bdv);
    }
    while b < bufs.len()
        invariant
            b <= bufs.len(),
            bufs.deep_view() == bdv,
            pipelines@.len() >= 1,
            outs@.len() <= full.len(),
            all_deliveries(
                pipelines@,
                decoded_values(bdv.subrange(b as int, bdv.len() as int)),
                id,
                ingest_ns,
            ) == full.subrange(outs@.len() as int, full.len() as int),
            forall|i: int|
                0 <= i < outs@.len() ==> {
                    let t = full[i];
                    (#[trigger] outs@[i]).dest == t.0 && outs@[i].input@ == t.1 && outs@[i].event@
                        == t.2
                },
        decreases bufs.len() - b,
    {
        let ghost k = outs@.len() as int;
        let ghost suf = bdv.subrange(b as int, bdv.len() as int);
        proof {
            assert(suf.len() > 0);
            assert(suf[0] == bdv[b as int]);
            assert(suf.subrange(1, suf.len() as int) =~= bdv.subrange(
                b as int + 1,
                bdv.len() as int,
            ));
            assert(bufs@[b as int]@ == bdv[b as int]);
        }
        match codec.decode(&bufs[b], ingest_ns) {
            Ok(Some(v)) => {
                proof {
                    assert(buf_value(bdv[b as int]) == Some(v@));
                    assert(decoded_values(suf) == seq![v@] + decoded_values(
                        suf.subrange(1, suf.len() as int),
                    ));
                }
                let ev = Event {
                    id,
                    ingest_ns,
                    is_batch: false,
                    kind: None,
                    meta: Vec::new(),
                    value: v,
                };
                proof {
                    assert(ev@ == event_for(id, ingest_ns, v@));
                    let vals = decoded_values(suf);
                    assert(vals[0] == v@);
                    assert(vals.subrange(1, vals.len() as int) =~= decoded_values(
                        suf.subrange(1, suf.len() as int),
                    ));
                    assert(all_deliveries(pipelines@, vals, id, ingest_ns) == deliveries_for(
                        pipelines@,
                        0,
                        ev@,
                    ) + all_deliveries(
                        pipelines@,
                        decoded_values(suf.subrange(1, suf.len() as int)),
                        id,
                        ingest_ns,
                    ));
                }
                let mut part = fan_out(pipelines, ev);
                let ghost plen = part@.len() as int;
                let ghost pseq = part@;
                outs.append(&mut part);
                proof {
                    let dl = deliveries_for(pipelines@, 0, event_for(id, ingest_ns, v@));
                    let rest = all_deliveries(
                        pipelines@,
                        decoded_values(suf.subrange(1, suf.len() as int)),
                        id,
                        ingest_ns,
                    );
                    assert(full.subrange(k, full.len() as int) == dl + rest);
                    assert(full.len() - k == dl.len() + rest.len());
                    assert forall|i: int| k <= i < k + plen implies {
                        let t = full[i];
                        (#[trigger] outs@[i]).dest == t.0 && outs@[i].input@ == t.1
                            && outs@[i].event@ == t.2
                    } by {
                        assert(outs@[i] == pseq[i - k]);
                        assert(full.subrange(k, full.len() as int)[i - k] == full[i]);
                        assert((dl + rest)[i - k] == dl[i - k]);
                    }
                    assert(all_deliveries(
                        pipelines@,
                        decoded_values(bdv.subrange(b as int + 1, bdv.len() as int)),
                        id,
                        ingest_ns,
                    ) =~= full.subrange(k + plen, full.len() as int)) by {
                        assert forall|i: int| 0 <= i < rest.len() implies rest[i] == full.subrange(
                            k + plen,
                            full.len() as int,
                        )[i] by {
                            assert((dl + rest)[plen + i] == rest[i]);
                            assert(full.subrange(k, full.len() as int)[plen + i] == full[k + plen
                                + i]);
                        }
                    }
                }
            },
            Ok(None) => {
                proof {
                    assert(buf_value(bdv[b as int]) is None);
                    assert(decoded_values(suf) =~= decoded_values(
                        bdv.subrange(b as int + 1, bdv.len() as int),
                    ));
                }
            },
            Err(_) => {
                proof {
                    assert(buf_value(bdv[b as int]) is None);
                    assert(decoded_values(suf) =~= decoded_values(
                        bdv.subrange(b as int + 1, bdv.len() as int),
                    ));
                }
            },
        }
        b = b + 1;
    }
    proof {
        assert(bdv.subrange(bdv.len() as int, bdv.len() as int) =~= Seq::<Seq<u8>>::empty());
        assert(decoded_values(Seq::<Seq<u8>>::empty()) == Seq::<ValModel>::empty());
        assert(all_deliveries(pipelines@, Seq::<ValModel>::empty(), id, ingest_ns) == Seq::<(
            int,
            Seq<char>,
            EventModel,
        )>::empty());
        assert(outs@.len() == full.len());
    }
    outs
}

} // verus!

verus! {

/// A control message for one dispatch worker: attach more destinations, or
/// shut the worker down.
pub enum OnrampMsg {
    Connect(Vec<PipelineDest>),
    Disconnect,
}

/// The dispatch worker's state machine: destinations in registration order,
/// the preprocessor chain and codec, the next envelope id, and whether the
/// worker is still running. The surrounding loop feeds it control and data
/// messages and performs the deliveries it returns.
pub struct Dispatch {
    pub pipelines: Vec<PipelineDest>,
    pub preprocessors: Vec<Preproc>,
    pub codec: Codec,
    pub next_id: u64,
    pub running: bool,
}

impl Dispatch {
    /// A fresh worker: no destinations, running, ids from zero.
    pub fn new(codec: Codec, preprocessors: Vec<Preproc>) -> (r: Dispatch)
        ensures
            r.pipelines@.len() == 0,
            r.preprocessors == preprocessors,
            r.codec == codec,
            r.next_id == 0,
            r.running,
    {
        Dispatch { pipelines: Vec::new(), preprocessors, codec, next_id: 0, running: true }
    }

    /// Handles one control message, which takes priority over data. The
    /// result says whether to acknowledge and stop: `Disconnect` is always
    /// acknowledged exactly once, before anything further is processed,
    /// because a stopped worker accepts no further calls.
    pub fn on_control(&mut self, msg: OnrampMsg) -> (ack: bool)
        requires
            old(self).running,
        ensures
            final(self).preprocessors == old(self).preprocessors,
            final(self).codec == old(self).codec,
            final(self).next_id == old(self).next_id,
            match msg {
                OnrampMsg::Connect(ds) => !ack && final(self).running && final(self).pipelines@
                    == old(self).pipelines@ + ds@,
                OnrampMsg::Disconnect => ack && !final(self).running && final(self).pipelines@
                    == old(self).pipelines@,
            },
    {
        match msg {
            OnrampMsg::Connect(mut ds) => {
                self.pipelines.append(&mut ds);
                false
            },
            OnrampMsg::Disconnect => {
                self.running = false;
                true
            },
        }
    }

    /// Handles one raw data message. While no destination is registered the
    /// message is consumed and discarded, with no delivery and no error;
    /// otherwise it runs the preprocessor chain and codec and returns the
    /// owed deliveries, consuming one envelope id.
    pub fn on_data(&mut self, ingest_ns: u64, data: Vec<u8>) -> (outs: Vec<Delivery>)
        requires
            old(self).running,
            old(self).next_id < u64::MAX,
        ensures
            final(self).pipelines == old(self).pipelines,
            final(self).preprocessors == old(self).preprocessors,
            final(self).codec == old(self).codec,
            final(self).running,
            old(self).pipelines@.len() == 0 ==> outs@.len() == 0 && final(self).next_id == old(
                self,
            ).next_id,
            old(self).pipelines@.len() > 0 ==> final(self).next_id == old(self).next_id + 1 && ({
                let bufs = chain_spec(old(self).preprocessors@, seq![data@]);
                let full = all_deliveries(
                    old(self).pipelines@,
                    decoded_values(bufs),
                    old(self).next_id,
                    ingest_ns,
                );
                outs@.len() == full.len() && (forall|i: int|
                    0 <= i < outs@.len() ==> {
                        let t = full[i];
                        (#[trigger] outs@[i]).dest == t.0 && outs@[i].input@ == t.1
                            && outs@[i].event@ == t.2
                    })
            }),
    {
        if self.pipelines.len() == 0 {
            return Vec::new();
        }
        let id = self.next_id;
        self.next_id = id + 1;
        send_event(&self.pipelines, &self.preprocessors, &self.codec, id, ingest_ns, data)
    }
}

} // verus!

verus! {

/// The number of destinations, from index `d` on, that carry a resolvable
/// input port.
pub open spec fn resolvable_count(dests: Seq<PipelineDest>, d: int) -> int
    decreases dests.len() - d,
{
    if d < 0 || d >= dests.len() {
        0
    } else {
        (if dests[d].input is Some {
            1int
        } else {
            0int
        }) + resolvable_count(dests, d + 1)
    }
}

/// Fan-out ownership: one produced envelope leads to exactly one delivery
/// per destination with a resolvable input port, and every one of those
/// deliveries carries content equal to the envelope.
pub proof fn lemma_fan_out_ownership(dests: Seq<PipelineDest>, d: int, ev: EventModel)
    ensures
        deliveries_for(dests, d, ev).len() == resolvable_count(dests, d),
        forall|i: int|
            0 <= i < deliveries_for(dests, d, ev).len() ==> (#[trigger] deliveries_for(
                dests,
                d,
                ev,
            )[i]).2 == ev,
    decreases dests.len() - d,
{
    if 0 <= d < dests.len() {
        lemma_fan_out_ownership(dests, d + 1, ev);
        let rest = deliveries_for(dests, d + 1, ev);
        let s = deliveries_for(dests, d, ev);
        assert forall|i: int| 0 <= i < s.len() implies (#[trigger] s[i]).2 == ev by {
            match dests[d].input {
                Some(inp) => {
                    if i > 0 {
                        assert(s[i] == rest[i - 1]);
                    }
                },
                None => {
                    assert(s[i] == rest[i]);
                },
            }
        }
    }
}

} // verus!
