use vstd::prelude::*;
use crate::error::ErrorKind;
use crate::event::{dec_event, enc_event, decode_event, encode_event, lemma_event_round_trip,
    wf_event, Event, EventModel};
use crate::value::Value;

verus! {

#[verifier::external_type_specification]
#[verifier::external_body]
pub struct ExDb(sled::Db);

#[verifier::external_type_specification]
#[verifier::external_body]
pub struct ExSledError(sled::Error);

/// What a durable tree holds, keyed by the 8-byte big-endian number each
/// entry was stored under.
pub uninterp spec fn log_at(db: sled::Db) -> Map<u64, Seq<u8>>;

/// Relies on sled::Config::open with `temporary`: a fresh tree at a unique
/// scratch path, empty on creation and removed again when dropped.
#[verifier::external_body]
fn open_temporary_db() -> (r: Result<sled::Db, sled::Error>)
    ensures
        match r {
            Ok(db) => log_at(db) == Map::<u64, Seq<u8>>::empty(),
            Err(_) => true,
        },
{
    sled::Config::new().temporary(true).open()
}

/// Relies on sled::open: the tree persisted at `path`, holding whatever
/// entries earlier runs left there.
#[verifier::external_body]
fn open_db(path: &str) -> (r: Result<sled::Db, sled::Error>) {
    sled::open(path)
}

/// Relies on sled::Tree::iter taken backwards, whose 8-byte big-endian keys
/// sort like the numbers they encode: the greatest 8-byte key present, if
/// any. A key of any other length lies outside the modeled map and is
/// passed over, never decoded.
#[verifier::external_body]
fn db_last_key(db: &sled::Db) -> (r: Result<Option<u64>, sled::Error>)
    ensures
        r matches Ok(o) ==> match o {
            Option::Some(k) => log_at(*db).contains_key(k) && (forall|j: u64|
                #[trigger] log_at(*db).contains_key(j) ==> j <= k),
            Option::None => forall|j: u64| !(#[trigger] log_at(*db).contains_key(j)),
        },
{
    for kv in db.iter().rev() {
        match kv {
            Ok((k, _)) => match <[u8; 8]>::try_from(k.as_ref()) {
                Ok(arr) => return Ok(Some(u64::from_be_bytes(arr))),
                Err(_) => {},
            },
            Err(e) => return Err(e),
        }
    }
    Ok(None)
}

/// Relies on sled::Tree::insert: after an `Ok`, the tree holds `val` under
/// the 8-byte big-endian form of `key`, and is otherwise unchanged.
#[verifier::external_body]
fn db_insert(db: &mut sled::Db, key: u64, val: &Vec<u8>) -> (r: Result<(), sled::Error>)
    ensures
        r matches Ok(_) ==> log_at(*final(db)) == log_at(*old(db)).insert(key, val@),
{
    match db.insert(key.to_be_bytes(), val.as_slice()) {
        Ok(_) => Ok(()),
        Err(e) => Err(e),
    }
}

/// The entries of `log` with keys in `[lo, hi)`, in ascending key order.
pub open spec fn range_entries(log: Map<u64, Seq<u8>>, lo: int, hi: int) -> Seq<(u64, Seq<u8>)>
    decreases hi - lo,
{
    if lo >= hi || lo < 0 || lo > u64::MAX {
        Seq::empty()
    } else {
        let rest = range_entries(log, lo + 1, hi);
        if log.contains_key(lo as u64) {
            seq![(lo as u64, log[lo as u64])] + rest
        } else {
            rest
        }
    }
}

/// The mathematical form of a scanned batch.
pub open spec fn scanned(s: Seq<(u64, Vec<u8>)>) -> Seq<(u64, Seq<u8>)> {
    Seq::new(s.len(), |i: int| (s[i].0, s[i].1@))
}

/// Relies on sled::Tree::range over 8-byte big-endian keys, which sort like
/// the numbers they encode: the stored entries with keys in `[lo, hi)`, in
/// ascending key order. A key of any other length lies outside the modeled
/// map and is passed over, never decoded.
#[verifier::external_body]
fn db_scan(db: &sled::Db, lo: u64, hi: u64) -> (r: Result<Vec<(u64, Vec<u8>)>, sled::Error>)
    ensures
        r matches Ok(v) ==> scanned(v@) == range_entries(log_at(*db), lo as int, hi as int),
{
    let mut out: Vec<(u64, Vec<u8>)> = Vec::new();
    for kv in db.range(lo.to_be_bytes()..hi.to_be_bytes()) {
        match kv {
            Ok((k, v)) => match <[u8; 8]>::try_from(k.as_ref()) {
                Ok(arr) => out.push((u64::from_be_bytes(arr), v.to_vec())),
                Err(_) => {},
            },
            Err(e) => {
                return Err(e);
            },
        }
    }
    Ok(out)
}

/// The range scan never returns more entries than the width of its window.
pub proof fn lemma_range_entries_len(log: Map<u64, Seq<u8>>, lo: int, hi: int)
    ensures
        range_entries(log, lo, hi).len() <= if hi >= lo {
            hi - lo
        } else {
            0
        },
    decreases hi - lo,
{
    if lo < hi && 0 <= lo <= u64::MAX {
        lemma_range_entries_len(log, lo + 1, hi);
    }
}

/// When every key the log holds is at most `w`, a scan starting at `lo`
/// finds at most `w + 1 - lo` entries.
pub proof fn lemma_range_entries_bound(log: Map<u64, Seq<u8>>, lo: int, hi: int, w: int)
    requires
        forall|k: u64| #[trigger] log.contains_key(k) ==> k <= w,
    ensures
        range_entries(log, lo, hi).len() <= if w + 1 - lo >= 0 {
            w + 1 - lo
        } else {
            0
        },
    decreases hi - lo,
{
    if lo < hi && 0 <= lo <= u64::MAX {
        lemma_range_entries_bound(log, lo + 1, hi, w);
    }
}

/// Bounded replay: when the keys `lo .. hi` are all present, the scan finds
/// exactly one entry per key, so a window of width `k` yields exactly `k`
/// entries and the read cursor advances by exactly `k`.
pub proof fn lemma_bounded_replay(log: Map<u64, Seq<u8>>, lo: int, hi: int)
    requires
        0 <= lo <= hi,
        hi <= u64::MAX + 1,
        forall|k: int| lo <= k < hi ==> log.contains_key(#[trigger] (k as u64)),
    ensures
        range_entries(log, lo, hi).len() == hi - lo,
    decreases hi - lo,
{
    if lo < hi {
        lemma_bounded_replay(log, lo + 1, hi);
    }
}

/// A logged entry whose key falls inside the replay window is among the
/// entries the scan returns: nothing durably stored is skipped.
pub proof fn lemma_logged_entry_replayed(log: Map<u64, Seq<u8>>, k: int, lo: int, hi: int)
    requires
        0 <= lo <= k < hi,
        k <= u64::MAX,
        log.contains_key(k as u64),
    ensures
        exists|i: int|
            0 <= i < range_entries(log, lo, hi).len() && range_entries(log, lo, hi)[i] == (
            k as u64,
            log[k as u64],
            ),
    decreases hi - lo,
{
    let s = range_entries(log, lo, hi);
    if k == lo {
        assert(s[0] == (lo as u64, log[lo as u64]));
    } else {
        lemma_logged_entry_replayed(log, k, lo + 1, hi);
        let rest = range_entries(log, lo + 1, hi);
        let i = choose|i: int| 0 <= i < rest.len() && rest[i] == (k as u64, log[k as u64]);
        if log.contains_key(lo as u64) {
            assert(s == seq![(lo as u64, log[lo as u64])] + rest);
            assert(s[i + 1] == rest[i]);
        } else {
            assert(s == rest);
            assert(s[i] == rest[i]);
        }
    }
}

/// The deserialization of a scanned batch: all envelopes in order, or `None`
/// as soon as any stored entry fails to deserialize.
pub open spec fn replay_of(entries: Seq<(u64, Seq<u8>)>) -> Option<Seq<EventModel>>
    decreases entries,
{
    if entries.len() == 0 {
        Some(Seq::empty())
    } else {
        match dec_event(entries[0].1) {
            Some(e) => match replay_of(entries.subrange(1, entries.len() as int)) {
                Some(rest) => Some(seq![e] + rest),
                None => None,
            },
            None => None,
        }
    }
}

/// Either every entry deserializes and the replay lists the envelopes in
/// order, or some entry fails and the whole replay fails.
pub proof fn lemma_replay_of(entries: Seq<(u64, Seq<u8>)>)
    ensures
        match replay_of(entries) {
            Some(evs) => evs.len() == entries.len() && forall|i: int|
                0 <= i < entries.len() ==> dec_event(#[trigger] entries[i].1) == Some(
                    replay_of(entries).unwrap()[i],
                ),
            None => exists|i: int|
                0 <= i < entries.len() && dec_event(#[trigger] entries[i].1) is None,
        },
    decreases entries,
{
    if entries.len() > 0 {
        let rest = entries.subrange(1, entries.len() as int);
        lemma_replay_of(rest);
        match dec_event(entries[0].1) {
            Some(e) => {
                match replay_of(rest) {
                    Some(revs) => {
                        assert forall|i: int|
                            0 <= i < entries.len() implies dec_event(#[trigger] entries[i].1)
                            == Some(replay_of(entries).unwrap()[i]) by {
                            if i > 0 {
                                assert(rest[i - 1] == entries[i]);
                                assert(replay_of(entries).unwrap()[i] == revs[i - 1]);
                            }
                        }
                    },
                    None => {
                        let i = choose|i: int|
                            0 <= i < rest.len() && dec_event(#[trigger] rest[i].1) is None;
                        assert(entries[i + 1] == rest[i]);
                    },
                }
            },
            None => {
                assert(dec_event(entries[0].1) is None);
            },
        }
    }
}

/// Log-then-forward: the entry persisted for an event deserializes back to
/// that event, whether or not the call forwarded anything.
pub proof fn lemma_log_then_forward(log: Map<u64, Seq<u8>>, w: u64, m: EventModel)
    requires
        log.contains_key(w),
        log[w] == enc_event(m),
        wf_event(m),
    ensures
        dec_event(log[w]) == Some(m),
{
    lemma_event_round_trip(m);
}

/// What a successful replay pass guarantees: every scanned entry in the
/// window deserialized, the outputs list them in order on port `out`, and
/// the read cursor advanced by one per entry found.
pub open spec fn replay_post(
    log: Map<u64, Seq<u8>>,
    lo: int,
    limit: int,
    outs: Seq<(String, Event)>,
    read_after: int,
) -> bool {
    let entries = range_entries(log, lo, lo + limit);
    &&& replay_of(entries) matches Some(evs) && outs.len() == evs.len() && (forall|i: int|
        0 <= i < outs.len() ==> (#[trigger] outs[i]).1@ == evs[i] && outs[i].0@ == "out"@)
    &&& read_after == lo + entries.len()
}

/// The write-ahead-log operator: every inbound event is persisted under the
/// next write-sequence number before anything is forwarded, and previously
/// logged events are re-emitted from a trailing read cursor, at most
/// `read_count` per call.
pub struct WAL {
    wal: sled::Db,
    write: u64,
    read: u64,
    read_count: u64,
    broken: bool,
}

/// The processing-node contract: one inbound event on a named port becomes
/// zero or more (output port, event) pairs, in significant order, given
/// mutable operator state.
pub trait Operator {
    /// Whether the operator is in a state fit to process a call.
    spec fn ready(&self) -> bool;

    /// Processes one event; a failing call must leave the operator's
    /// observable state consistent.
    fn on_event(&mut self, port: &str, state: &mut Value, event: Event) -> (r: Result<
        Vec<(String, Event)>,
        ErrorKind,
    >)
        requires
            old(self).ready(),
    ;
}

impl WAL {
    /// The durable entries, keyed by write-sequence number.
    pub closed spec fn log(&self) -> Map<u64, Seq<u8>> {
        log_at(self.wal)
    }

    /// The last write-sequence number assigned.
    pub closed spec fn write_cursor(&self) -> u64 {
        self.write
    }

    /// The next sequence number to replay.
    pub closed spec fn read_cursor(&self) -> u64 {
        self.read
    }

    /// The most entries one call will replay.
    pub closed spec fn replay_limit(&self) -> u64 {
        self.read_count
    }

    /// The fault-injection flag: when set, events are persisted but nothing
    /// is forwarded.
    pub closed spec fn is_broken(&self) -> bool {
        self.broken
    }

    /// The operator's invariant: the read cursor never runs past the highest
    /// written entry by more than one, and nothing is stored beyond the
    /// write cursor.
    pub open spec fn inv(&self) -> bool {
        &&& self.read_cursor() <= self.write_cursor() + 1
        &&& forall|k: u64| #[trigger] self.log().contains_key(k) ==> k <= self.write_cursor()
    }

    /// Machine limits under which one more call cannot overflow a cursor.
    pub open spec fn room(&self) -> bool {
        &&& self.write_cursor() < u64::MAX
        &&& self.read_cursor() + self.replay_limit() <= u64::MAX
    }

    /// Opens a fresh, empty, temporary log: for tests and fault injection.
    pub fn new_temporary(read_count: u64) -> (r: Result<WAL, ErrorKind>)
        ensures
            match r {
                Ok(w) => w.inv() && w.log() == Map::<u64, Seq<u8>>::empty() && w.write_cursor()
                    == 0 && w.read_cursor() == 1 && w.replay_limit() == read_count
                    && !w.is_broken(),
                Err(e) => e == ErrorKind::Config,
            },
    {
        match open_temporary_db() {
            Ok(db) => Ok(WAL { wal: db, write: 0, read: 1, read_count, broken: false }),
            Err(_) => Err(ErrorKind::Config),
        }
    }

    /// Opens the durable log at `path`, recovering the write cursor from the
    /// highest key already stored, or zero when nothing is stored; replay
    /// restarts from the beginning.
    pub fn open(path: &str, read_count: u64) -> (r: Result<WAL, ErrorKind>)
        ensures
            match r {
                Ok(w) => w.inv() && w.read_cursor() == 1 && w.replay_limit() == read_count
                    && !w.is_broken() && (w.log().contains_key(w.write_cursor()) || (
                w.write_cursor() == 0 && forall|k: u64| !(#[trigger] w.log().contains_key(k)))),
                Err(e) => e == ErrorKind::Config,
            },
    {
        match open_db(path) {
            Ok(db) => {
                match db_last_key(&db) {
                    Ok(Some(k)) => Ok(
                        WAL { wal: db, write: k, read: 1, read_count, broken: false },
                    ),
                    Ok(None) => Ok(WAL { wal: db, write: 0, read: 1, read_count, broken: false }),
                    Err(_) => Err(ErrorKind::Config),
                }
            },
            Err(_) => Err(ErrorKind::Config),
        }
    }

    /// The (write, read) cursor pair, as externally visible state.
    pub fn cursors(&self) -> (r: (u64, u64))
        ensures
            r.0 == self.write_cursor(),
            r.1 == self.read_cursor(),
    {
        (self.write, self.read)
    }

    /// Sets the fault-injection flag; nothing else changes.
    pub fn set_broken(&mut self, broken: bool)
        ensures
            final(self).is_broken() == broken,
            final(self).log() == old(self).log(),
            final(self).write_cursor() == old(self).write_cursor(),
            final(self).read_cursor() == old(self).read_cursor(),
            final(self).replay_limit() == old(self).replay_limit(),
    {
        self.broken = broken;
    }

    /// Replays the entries in `[read, read + read_count)`: each one found is
    /// deserialized and emitted on port `out`, and the read cursor advances
    /// by one per entry found. A deserialization failure aborts the call
    /// without advancing the cursor, so nothing is silently dropped.
    #[verifier::loop_isolation(false)]
    #[verifier::rlimit(100)]
    fn read_events(&mut self) -> (r: Result<Vec<(String, Event)>, ErrorKind>)
        requires
            old(self).inv(),
            old(self).read_cursor() + old(self).replay_limit() <= u64::MAX,
        ensures
            final(self).inv(),
            final(self).log() == old(self).log(),
            final(self).write_cursor() == old(self).write_cursor(),
            final(self).replay_limit() == old(self).replay_limit(),
            final(self).is_broken() == old(self).is_broken(),
            match r {
                Ok(outs) => replay_post(
                    old(self).log(),
                    old(self).read_cursor() as int,
                    old(self).replay_limit() as int,
                    outs@,
                    final(self).read_cursor() as int,
                ),
                Err(e) => e == ErrorKind::Replay && final(self).read_cursor() == old(
                    self,
                ).read_cursor(),
            },
    {
        let lo = self.read;
        let hi = self.read + self.read_count;
        let ghost entries_gh = range_entries(self.log(), lo as int, hi as int);
        match db_scan(&self.wal, lo, hi) {
            Err(_) => Err(ErrorKind::Replay),
            Ok(entries) => {
                let ghost em = scanned(entries@);
                proof {
                    lemma_range_entries_len(self.log(), lo as int, hi as int);
                    lemma_range_entries_bound(
                        self.log(),
                        lo as int,
                        hi as int,
                        self.write_cursor() as int,
                    );
                }
                let mut outs: Vec<(String, Event)> = Vec::new();
                let mut i: usize = 0;
                while i < entries.len()
                    invariant
                        i <= entries.len(),
                        em == entries_gh,
                        em == scanned(entries@),
                        em.len() == entries@.len(),
                        outs@.len() == i,
                        forall|j: int|
                            0 <= j < i ==> dec_event(em[j].1) == Some((#[trigger] outs@[j]).1@)
                                && outs@[j].0@ == "out"@,
                    decreases entries.len() - i,
                {
                    proof {
                        assert(em[i as int].1 == entries@[i as int].1@);
                    }
                    match decode_event(&entries[i].1) {
                        None => {
                            proof {
                                lemma_replay_of(em);
                            }
                            return Err(ErrorKind::Replay);
                        },
                        Some(ev) => {
                            outs.push(("out".to_owned(), ev));
                        },
                    }
                    i = i + 1;
                }
                proof {
                    lemma_replay_of(em);
                    if replay_of(em) is None {
                        let j = choose|j: int| 0 <= j < em.len() && dec_event(em[j].1) is None;
                        assert(dec_event(em[j].1) == Some(outs@[j].1@));
                        assert(false);
                    }
                    let evs = replay_of(em).unwrap();
                    assert forall|i2: int|
                        0 <= i2 < outs@.len() implies (#[trigger] outs@[i2]).1@ == evs[i2]
                        && outs@[i2].0@ == "out"@ by {
                        assert(dec_event(em[i2].1) == Some(evs[i2]));
                        assert(dec_event(em[i2].1) == Some(outs@[i2].1@));
                    }
                }
                self.read = self.read + (entries.len() as u64);
                Ok(outs)
            },
        }
    }

    /// Persists the serialized event under the next write-sequence number.
    /// On failure nothing is forwarded and the cursors are unchanged; what
    /// the store holds after a failed write is the store's affair.
    #[verifier::rlimit(100)]
    #[verifier::spinoff_prover]
    fn append_event(&mut self, event: &Event) -> (r: Result<(), ErrorKind>)
        requires
            old(self).inv(),
            old(self).write_cursor() < u64::MAX,
        ensures
            final(self).read_cursor() == old(self).read_cursor(),
            final(self).replay_limit() == old(self).replay_limit(),
            final(self).is_broken() == old(self).is_broken(),
            match r {
                Ok(_) => {
                    let w = (old(self).write_cursor() + 1) as u64;
                    &&& final(self).inv()
                    &&& final(self).write_cursor() == w
                    &&& final(self).log() == old(self).log().insert(w, enc_event(event@))
                    &&& final(self).log().contains_key(w)
                    &&& wf_event(event@)
                },
                Err(e) => e == ErrorKind::Append && final(self).write_cursor() == old(
                    self,
                ).write_cursor(),
            },
    {
        let w = self.write + 1;
        let bytes = encode_event(event);
        match db_insert(&mut self.wal, w, &bytes) {
            Err(_) => Err(ErrorKind::Append),
            Ok(_) => {
                self.write = w;
                proof {
                    assert forall|k: u64| #[trigger] self.log().contains_key(k) implies k
                        <= self.write_cursor() by {
                        if k != w {
                            assert(old(self).log().contains_key(k));
                        }
                    }
                }
                Ok(())
            },
        }
    }

    /// Log-then-forward: assigns the next write-sequence number, persists the
    /// serialized event under it, and only then replays from the read
    /// cursor; with the fault flag set the event is persisted but nothing is
    /// forwarded. An append failure aborts the call without forwarding, and
    /// a replay failure leaves the read cursor where it was.
    #[verifier::rlimit(100)]
    pub fn on_event(&mut self, _port: &str, _state: &mut Value, event: Event) -> (r: Result<
        Vec<(String, Event)>,
        ErrorKind,
    >)
        requires
            old(self).inv(),
            old(self).room(),
        ensures
            final(self).replay_limit() == old(self).replay_limit(),
            final(self).is_broken() == old(self).is_broken(),
            match r {
                Ok(outs) => {
                    let w = (old(self).write_cursor() + 1) as u64;
                    let log1 = old(self).log().insert(w, enc_event(event@));
                    &&& final(self).inv()
                    &&& final(self).write_cursor() == w
                    &&& final(self).log() == log1
                    &&& final(self).log().contains_key(w)
                    &&& wf_event(event@)
                    &&& if old(self).is_broken() {
                        outs@.len() == 0 && final(self).read_cursor() == old(self).read_cursor()
                    } else {
                        replay_post(
                            log1,
                            old(self).read_cursor() as int,
                            old(self).replay_limit() as int,
                            outs@,
                            final(self).read_cursor() as int,
                        )
                    }
                },
                Err(e) => {
                    &&& final(self).read_cursor() == old(self).read_cursor()
                    &&& (e == ErrorKind::Append || e == ErrorKind::Replay)
                    &&& (e == ErrorKind::Append ==> final(self).write_cursor() == old(
                        self,
                    ).write_cursor())
                    &&& (e == ErrorKind::Replay ==> final(self).inv() && final(self).write_cursor()
                        == (old(self).write_cursor() + 1) as u64 && final(self).log() == old(
                        self,
                    ).log().insert((old(self).write_cursor() + 1) as u64, enc_event(event@)))
                },
            },
    {
        match self.append_event(&event) {
            Err(e) => {
                return Err(e);
            },
            Ok(_) => {},
        }
        if self.broken {
            return Ok(Vec::new());
        }
        self.read_events()
    }
}

impl Operator for WAL {
    open spec fn ready(&self) -> bool {
        self.inv() && self.room()
    }

    fn on_event(&mut self, port: &str, state: &mut Value, event: Event) -> (r: Result<
        Vec<(String, Event)>,
        ErrorKind,
    >) {
        self.on_event(port, state, event)
    }
}

} // verus!
