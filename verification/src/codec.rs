use vstd::prelude::*;
use crate::value::{pairs_model, seq_model, ValModel, Value};
use crate::error::ErrorKind;

verus! {

// The wire format is tag-prefixed and length-prefixed:
//   null          0
//   unsigned      1  n:8 bytes big-endian
//   text          2  len:8  bytes
//   array         3  count:8  elements in order
//   record        4  count:8  (key len:8, key bytes, value) per pair

/// Big-endian bytes of a 64-bit number.
pub open spec fn be8(n: u64) -> Seq<u8> {
    seq![
        (n >> 56) as u8,
        (n >> 48) as u8,
        (n >> 40) as u8,
        (n >> 32) as u8,
        (n >> 24) as u8,
        (n >> 16) as u8,
        (n >> 8) as u8,
        n as u8,
    ]
}

/// The number carried by the first eight bytes of `s`, big-endian.
pub open spec fn num8(s: Seq<u8>) -> u64
    recommends
        s.len() >= 8,
{
    ((s[0] as u64) << 56) | ((s[1] as u64) << 48) | ((s[2] as u64) << 40) | ((s[3] as u64) << 32)
        | ((s[4] as u64) << 24) | ((s[5] as u64) << 16) | ((s[6] as u64) << 8) | (s[7] as u64)
}

pub proof fn lemma_num8_be8(n: u64)
    ensures
        num8(be8(n)) == n,
{
    assert((((n >> 56) as u8 as u64) << 56) | (((n >> 48) as u8 as u64) << 48) | (((n >> 40) as u8
        as u64) << 40) | (((n >> 32) as u8 as u64) << 32) | (((n >> 24) as u8 as u64) << 24) | (((n
        >> 16) as u8 as u64) << 16) | (((n >> 8) as u8 as u64) << 8) | (n as u8 as u64) == n)
        by (bit_vector);
}

/// Whether every collection and text under `v` fits the 64-bit length fields
/// of the wire format. Every executable `Value` satisfies this.
pub open spec fn wf(v: ValModel) -> bool
    decreases v,
{
    match v {
        ValModel::Null => true,
        ValModel::UInt(_) => true,
        ValModel::Text(b) => b.len() <= u64::MAX,
        ValModel::Array(xs) => xs.len() <= u64::MAX && wf_list(xs),
        ValModel::Record(ps) => ps.len() <= u64::MAX && wf_pairs(ps),
    }
}

pub open spec fn wf_list(xs: Seq<ValModel>) -> bool
    decreases xs,
{
    xs.len() == 0 || (wf(xs[0]) && wf_list(xs.subrange(1, xs.len() as int)))
}

pub open spec fn wf_pairs(ps: Seq<(Seq<u8>, ValModel)>) -> bool
    decreases ps,
{
    ps.len() == 0 || (ps[0].0.len() <= u64::MAX && wf(ps[0].1) && wf_pairs(
        ps.subrange(1, ps.len() as int),
    ))
}

/// The encoding of a structured value.
pub open spec fn enc(v: ValModel) -> Seq<u8>
    decreases v,
{
    match v {
        ValModel::Null => seq![0u8],
        ValModel::UInt(n) => seq![1u8] + be8(n),
        ValModel::Text(b) => seq![2u8] + be8(b.len() as u64) + b,
        ValModel::Array(xs) => seq![3u8] + be8(xs.len() as u64) + enc_list(xs),
        ValModel::Record(ps) => seq![4u8] + be8(ps.len() as u64) + enc_pairs(ps),
    }
}

pub open spec fn enc_list(xs: Seq<ValModel>) -> Seq<u8>
    decreases xs,
{
    if xs.len() == 0 {
        Seq::empty()
    } else {
        enc(xs[0]) + enc_list(xs.subrange(1, xs.len() as int))
    }
}

pub open spec fn enc_pairs(ps: Seq<(Seq<u8>, ValModel)>) -> Seq<u8>
    decreases ps,
{
    if ps.len() == 0 {
        Seq::empty()
    } else {
        be8(ps[0].0.len() as u64) + ps[0].0 + enc(ps[0].1) + enc_pairs(
            ps.subrange(1, ps.len() as int),
        )
    }
}

/// The decoding of a buffer: the leading value and the remaining suffix,
/// or `None` when no value can be read.
pub open spec fn dec(s: Seq<u8>) -> Option<(ValModel, Seq<u8>)>
    decreases s.len(), 0nat,
{
    if s.len() == 0 {
        None
    } else if s[0] == 0 {
        Some((ValModel::Null, s.subrange(1, s.len() as int)))
    } else if s[0] == 1 {
        if s.len() >= 9 {
            Some((ValModel::UInt(num8(s.subrange(1, 9))), s.subrange(9, s.len() as int)))
        } else {
            None
        }
    } else if s[0] == 2 {
        if s.len() >= 9 {
            let n = num8(s.subrange(1, 9)) as int;
            if s.len() - 9 >= n {
                Some((ValModel::Text(s.subrange(9, 9 + n)), s.subrange(9 + n, s.len() as int)))
            } else {
                None
            }
        } else {
            None
        }
    } else if s[0] == 3 {
        if s.len() >= 9 {
            let n = num8(s.subrange(1, 9));
            match dec_list(s.subrange(9, s.len() as int), n as nat) {
                Some((vs, rest)) => Some((ValModel::Array(vs), rest)),
                None => None,
            }
        } else {
            None
        }
    } else if s[0] == 4 {
        if s.len() >= 9 {
            let n = num8(s.subrange(1, 9));
            match dec_pairs(s.subrange(9, s.len() as int), n as nat) {
                Some((ps, rest)) => Some((ValModel::Record(ps), rest)),
                None => None,
            }
        } else {
            None
        }
    } else {
        None
    }
}

pub open spec fn dec_list(s: Seq<u8>, n: nat) -> Option<(Seq<ValModel>, Seq<u8>)>
    decreases s.len(), n + 1,
{
    if n == 0 {
        Some((Seq::empty(), s))
    } else {
        match dec(s) {
            Some((v, rest)) => if rest.len() < s.len() {
                match dec_list(rest, (n - 1) as nat) {
                    Some((vs, rest2)) => Some((seq![v] + vs, rest2)),
                    None => None,
                }
            } else {
                None
            },
            None => None,
        }
    }
}

pub open spec fn dec_pairs(s: Seq<u8>, n: nat) -> Option<(Seq<(Seq<u8>, ValModel)>, Seq<u8>)>
    decreases s.len(), n + 1,
{
    if n == 0 {
        Some((Seq::empty(), s))
    } else if s.len() >= 8 {
        let k = num8(s.subrange(0, 8)) as int;
        if s.len() - 8 >= k {
            let key = s.subrange(8, 8 + k);
            let s2 = s.subrange(8 + k, s.len() as int);
            match dec(s2) {
                Some((v, rest)) => if rest.len() < s.len() {
                    match dec_pairs(rest, (n - 1) as nat) {
                        Some((ps, rest2)) => Some((seq![(key, v)] + ps, rest2)),
                        None => None,
                    }
                } else {
                    None
                },
                None => None,
            }
        } else {
            None
        }
    } else {
        None
    }
}

/// An encoding always carries at least its tag byte.
pub proof fn lemma_enc_len(v: ValModel)
    ensures
        enc(v).len() >= 1,
{
    match v {
        ValModel::Null => {},
        ValModel::UInt(_) => {},
        ValModel::Text(_) => {},
        ValModel::Array(_) => {},
        ValModel::Record(_) => {},
    }
}

/// Decoding inverts encoding: reading from an encoded value followed by any
/// suffix yields that value back and leaves exactly the suffix.
#[verifier::rlimit(100)]
pub proof fn lemma_dec_enc(v: ValModel, t: Seq<u8>)
    requires
        wf(v),
    ensures
        dec(enc(v) + t) == Some::<(ValModel, Seq<u8>)>((v, t)),
    decreases v,
{
    let s = enc(v) + t;
    match v {
        ValModel::Null => {
            assert(s[0] == 0);
            assert(s.subrange(1, s.len() as int) =~= t);
        },
        ValModel::UInt(n) => {
            assert(s[0] == 1);
            assert(s.len() >= 9);
            assert(s.subrange(1, 9) =~= be8(n));
            lemma_num8_be8(n);
            assert(s.subrange(9, s.len() as int) =~= t);
        },
        ValModel::Text(b) => {
            assert(s[0] == 2);
            assert(s.len() >= 9);
            assert(s.subrange(1, 9) =~= be8(b.len() as u64));
            lemma_num8_be8(b.len() as u64);
            assert(num8(s.subrange(1, 9)) as int == b.len());
            assert(s.subrange(9, 9 + b.len() as int) =~= b);
            assert(s.subrange(9 + b.len() as int, s.len() as int) =~= t);
        },
        ValModel::Array(xs) => {
            assert(s[0] == 3);
            assert(s.len() >= 9);
            assert(s.subrange(1, 9) =~= be8(xs.len() as u64));
            lemma_num8_be8(xs.len() as u64);
            assert(num8(s.subrange(1, 9)) as nat == xs.len());
            assert(s.subrange(9, s.len() as int) =~= enc_list(xs) + t);
            lemma_dec_enc_list(xs, t);
        },
        ValModel::Record(ps) => {
            assert(s[0] == 4);
            assert(s.len() >= 9);
            assert(s.subrange(1, 9) =~= be8(ps.len() as u64));
            lemma_num8_be8(ps.len() as u64);
            assert(num8(s.subrange(1, 9)) as nat == ps.len());
            assert(s.subrange(9, s.len() as int) =~= enc_pairs(ps) + t);
            lemma_dec_enc_pairs(ps, t);
        },
    }
}

#[verifier::rlimit(100)]
pub proof fn lemma_dec_enc_list(xs: Seq<ValModel>, t: Seq<u8>)
    requires
        wf_list(xs),
    ensures
        dec_list(enc_list(xs) + t, xs.len()) == Some::<(Seq<ValModel>, Seq<u8>)>((xs, t)),
    decreases xs,
{
    if xs.len() == 0 {
        assert(enc_list(xs) + t =~= t);
        assert(xs =~= Seq::<ValModel>::empty());
    } else {
        let tail = xs.subrange(1, xs.len() as int);
        let s = enc_list(xs) + t;
        assert(s =~= enc(xs[0]) + (enc_list(tail) + t));
        lemma_dec_enc(xs[0], enc_list(tail) + t);
        lemma_enc_len(xs[0]);
        assert((enc_list(tail) + t).len() < s.len());
        lemma_dec_enc_list(tail, t);
        assert(xs =~= seq![xs[0]] + tail);
    }
}

#[verifier::rlimit(100)]
pub proof fn lemma_dec_enc_pairs(ps: Seq<(Seq<u8>, ValModel)>, t: Seq<u8>)
    requires
        wf_pairs(ps),
    ensures
        dec_pairs(enc_pairs(ps) + t, ps.len()) == Some::<(Seq<(Seq<u8>, ValModel)>, Seq<u8>)>(
            (ps, t),
        ),
    decreases ps,
{
    if ps.len() == 0 {
        assert(enc_pairs(ps) + t =~= t);
        assert(ps =~= Seq::<(Seq<u8>, ValModel)>::empty());
    } else {
        let key = ps[0].0;
        let tail = ps.subrange(1, ps.len() as int);
        let s = enc_pairs(ps) + t;
        assert(s.subrange(0, 8) =~= be8(key.len() as u64));
        lemma_num8_be8(key.len() as u64);
        assert(num8(s.subrange(0, 8)) as int == key.len());
        assert(s.len() - 8 >= key.len());
        assert(s.subrange(8, 8 + key.len() as int) =~= key);
        let s2 = s.subrange(8 + key.len() as int, s.len() as int);
        assert(s2 =~= enc(ps[0].1) + (enc_pairs(tail) + t));
        lemma_dec_enc(ps[0].1, enc_pairs(tail) + t);
        lemma_enc_len(ps[0].1);
        assert((enc_pairs(tail) + t).len() < s.len());
        lemma_dec_enc_pairs(tail, t);
        assert(ps =~= seq![(key, ps[0].1)] + tail);
    }
}

} // verus!

verus! {

/// Elementwise well-formedness gives `wf_list`.
pub proof fn lemma_wf_list(s: Seq<ValModel>)
    requires
        forall|i: int| 0 <= i < s.len() ==> wf(#[trigger] s[i]),
    ensures
        wf_list(s),
    decreases s,
{
    if s.len() > 0 {
        lemma_wf_list(s.subrange(1, s.len() as int));
    }
}

/// Elementwise well-formedness gives `wf_pairs`.
pub proof fn lemma_wf_pairs(s: Seq<(Seq<u8>, ValModel)>)
    requires
        forall|i: int| 0 <= i < s.len() ==> (#[trigger] s[i]).0.len() <= u64::MAX && wf(s[i].1),
    ensures
        wf_pairs(s),
    decreases s,
{
    if s.len() > 0 {
        lemma_wf_pairs(s.subrange(1, s.len() as int));
    }
}

/// Appending one element extends the encoding of a list at its end.
pub proof fn lemma_enc_list_snoc(s: Seq<ValModel>, v: ValModel)
    ensures
        enc_list(s.push(v)) == enc_list(s) + enc(v),
    decreases s,
{
    let w = s.push(v);
    if s.len() == 0 {
        assert(w[0] == v);
        assert(w.subrange(1, w.len() as int) =~= Seq::<ValModel>::empty());
        assert(enc_list(w.subrange(1, w.len() as int)) == Seq::<u8>::empty());
        assert(enc_list(w) =~= enc(v));
        assert(enc_list(s) + enc(v) =~= enc(v));
    } else {
        assert(w[0] == s[0]);
        assert(w.subrange(1, w.len() as int) =~= s.subrange(1, s.len() as int).push(v));
        lemma_enc_list_snoc(s.subrange(1, s.len() as int), v);
        assert(enc_list(w) =~= enc_list(s) + enc(v));
    }
}

/// Appending one pair extends the encoding of a record at its end.
pub proof fn lemma_enc_pairs_snoc(s: Seq<(Seq<u8>, ValModel)>, k: Seq<u8>, v: ValModel)
    ensures
        enc_pairs(s.push((k, v))) == enc_pairs(s) + (be8(k.len() as u64) + k + enc(v)),
    decreases s,
{
    let w = s.push((k, v));
    if s.len() == 0 {
        assert(w[0] == (k, v));
        assert(w.subrange(1, w.len() as int) =~= Seq::<(Seq<u8>, ValModel)>::empty());
        assert(enc_pairs(w.subrange(1, w.len() as int)) == Seq::<u8>::empty());
        assert(enc_pairs(w) =~= be8(k.len() as u64) + k + enc(v));
        assert(enc_pairs(s) + (be8(k.len() as u64) + k + enc(v)) =~= be8(k.len() as u64) + k
            + enc(v));
    } else {
        assert(w[0] == s[0]);
        assert(w.subrange(1, w.len() as int) =~= s.subrange(1, s.len() as int).push((k, v)));
        lemma_enc_pairs_snoc(s.subrange(1, s.len() as int), k, v);
        assert(enc_pairs(w) =~= enc_pairs(s) + (be8(k.len() as u64) + k + enc(v)));
    }
}

/// Pushes the big-endian bytes of `n`.
pub(crate) fn push_be8(out: &mut Vec<u8>, n: u64)
    ensures
        final(out)@ == old(out)@ + be8(n),
{
    out.push((n >> 56) as u8);
    out.push((n >> 48) as u8);
    out.push((n >> 40) as u8);
    out.push((n >> 32) as u8);
    out.push((n >> 24) as u8);
    out.push((n >> 16) as u8);
    out.push((n >> 8) as u8);
    out.push(n as u8);
    proof {
        assert(out@ =~= old(out)@ + be8(n));
    }
}

/// Appends all of `b`.
#[verifier::loop_isolation(false)]
pub(crate) fn push_bytes(out: &mut Vec<u8>, b: &Vec<u8>)
    ensures
        final(out)@ == old(out)@ + b@,
{
    let mut i: usize = 0;
    while i < b.len()
        invariant
            i <= b.len(),
            out@ == old(out)@ + b@.subrange(0, i as int),
        decreases b.len() - i,
    {
        proof {
            assert(b@.subrange(0, i as int).push(b@[i as int]) =~= b@.subrange(0, i + 1));
        }
        out.push(b[i]);
        i = i + 1;
    }
    proof {
        assert(b@.subrange(0, b@.len() as int) =~= b@);
    }
}

/// Appends the encoding of `v`.
#[verifier::loop_isolation(false)]
#[verifier::rlimit(50)]
pub(crate) fn encode_onto(v: &Value, out: &mut Vec<u8>)
    ensures
        final(out)@ == old(out)@ + enc(v@),
        wf(v@),
    decreases v,
{
    match v {
        Value::Null => {
            out.push(0u8);
            proof {
                assert(out@ =~= old(out)@ + enc(v@));
            }
        },
        Value::UInt(n) => {
            out.push(1u8);
            push_be8(out, *n);
            proof {
                assert(out@ =~= old(out)@ + enc(v@));
            }
        },
        Value::Text(b) => {
            out.push(2u8);
            push_be8(out, b.len() as u64);
            push_bytes(out, b);
            proof {
                assert(out@ =~= old(out)@ + enc(v@));
            }
        },
        Value::Array(xs) => {
            proof {
                crate::value::lemma_seq_model(xs@);
            }
            out.push(3u8);
            push_be8(out, xs.len() as u64);
            let mut i: usize = 0;
            while i < xs.len()
                invariant
                    i <= xs.len(),
                    out@ == old(out)@ + seq![3u8] + be8(xs@.len() as u64) + enc_list(
                        seq_model(xs@).subrange(0, i as int),
                    ),
                    forall|j: int| 0 <= j < i ==> wf(#[trigger] seq_model(xs@)[j]),
                decreases xs.len() - i,
            {
                proof {
                    assert(decreases_to!(xs => xs@));
                    assert(decreases_to!(xs@ => xs@[i as int]));
                }
                let ghost pre = seq_model(xs@).subrange(0, i as int);
                encode_onto(&xs[i], out);
                proof {
                    assert(pre.push(xs@[i as int]@) =~= seq_model(xs@).subrange(0, i + 1));
                    lemma_enc_list_snoc(pre, xs@[i as int]@);
                    assert(old(out)@ + seq![3u8] + be8(xs@.len() as u64) + enc_list(pre) + enc(
                        xs@[i as int]@,
                    ) =~= old(out)@ + seq![3u8] + be8(xs@.len() as u64) + enc_list(
                        seq_model(xs@).subrange(0, i + 1),
                    ));
                }
                i = i + 1;
            }
            proof {
                assert(seq_model(xs@).subrange(0, seq_model(xs@).len() as int) =~= seq_model(xs@));
                lemma_wf_list(seq_model(xs@));
                assert(out@ =~= old(out)@ + enc(v@));
            }
        },
        Value::Record(ps) => {
            proof {
                crate::value::lemma_pairs_model(ps@);
            }
            out.push(4u8);
            push_be8(out, ps.len() as u64);
            let mut i: usize = 0;
            while i < ps.len()
                invariant
                    i <= ps.len(),
                    out@ == old(out)@ + seq![4u8] + be8(ps@.len() as u64) + enc_pairs(
                        pairs_model(ps@).subrange(0, i as int),
                    ),
                    forall|j: int|
                        0 <= j < i ==> (#[trigger] pairs_model(ps@)[j]).0.len() <= u64::MAX && wf(
                            pairs_model(ps@)[j].1,
                        ),
                decreases ps.len() - i,
            {
                proof {
                    assert(decreases_to!(ps => ps@));
                    assert(decreases_to!(ps@ => ps@[i as int]));
                }
                let ghost pre = pairs_model(ps@).subrange(0, i as int);
                push_be8(out, ps[i].0.len() as u64);
                push_bytes(out, &ps[i].0);
                encode_onto(&ps[i].1, out);
                proof {
                    assert(pre.push((ps@[i as int].0@, ps@[i as int].1@)) =~= pairs_model(
                        ps@,
                    ).subrange(0, i + 1));
                    lemma_enc_pairs_snoc(pre, ps@[i as int].0@, ps@[i as int].1@);
                    assert(old(out)@ + seq![4u8] + be8(ps@.len() as u64) + enc_pairs(pre) + (be8(
                        ps@[i as int].0@.len() as u64,
                    ) + ps@[i as int].0@ + enc(ps@[i as int].1@)) =~= old(out)@ + seq![4u8] + be8(
                        ps@.len() as u64,
                    ) + enc_pairs(pairs_model(ps@).subrange(0, i + 1)));
                }
                i = i + 1;
            }
            proof {
                assert(pairs_model(ps@).subrange(0, pairs_model(ps@).len() as int) =~= pairs_model(
                    ps@,
                ));
                lemma_wf_pairs(pairs_model(ps@));
                assert(out@ =~= old(out)@ + enc(v@));
            }
        },
    }
}

/// Encodes a structured value into its wire bytes.
pub fn encode_value(v: &Value) -> (out: Vec<u8>)
    ensures
        out@ == enc(v@),
        wf(v@),
{
    let mut out: Vec<u8> = Vec::new();
    encode_onto(v, &mut out);
    proof {
        assert(out@ =~= enc(v@));
    }
    out
}

} // verus!

verus! {

/// Prepends already-decoded elements to the outcome of decoding the rest.
pub open spec fn with_list_prefix(
    pre: Seq<ValModel>,
    o: Option<(Seq<ValModel>, Seq<u8>)>,
) -> Option<(Seq<ValModel>, Seq<u8>)> {
    match o {
        Some(p) => Some((pre + p.0, p.1)),
        None => None,
    }
}

/// Prepends already-decoded pairs to the outcome of decoding the rest.
pub open spec fn with_pairs_prefix(
    pre: Seq<(Seq<u8>, ValModel)>,
    o: Option<(Seq<(Seq<u8>, ValModel)>, Seq<u8>)>,
) -> Option<(Seq<(Seq<u8>, ValModel)>, Seq<u8>)> {
    match o {
        Some(p) => Some((pre + p.0, p.1)),
        None => None,
    }
}

proof fn lemma_list_prefix_assoc(
    a: Seq<ValModel>,
    b: Seq<ValModel>,
    o: Option<(Seq<ValModel>, Seq<u8>)>,
)
    ensures
        with_list_prefix(a, with_list_prefix(b, o)) == with_list_prefix(a + b, o),
{
    match o {
        Some(p) => {
            assert(a + (b + p.0) =~= (a + b) + p.0);
        },
        None => {},
    }
}

proof fn lemma_pairs_prefix_assoc(
    a: Seq<(Seq<u8>, ValModel)>,
    b: Seq<(Seq<u8>, ValModel)>,
    o: Option<(Seq<(Seq<u8>, ValModel)>, Seq<u8>)>,
)
    ensures
        with_pairs_prefix(a, with_pairs_prefix(b, o)) == with_pairs_prefix(a + b, o),
{
    match o {
        Some(p) => {
            assert(a + (b + p.0) =~= (a + b) + p.0);
        },
        None => {},
    }
}

proof fn lemma_list_prefix_empty(o: Option<(Seq<ValModel>, Seq<u8>)>)
    ensures
        with_list_prefix(Seq::empty(), o) == o,
{
    match o {
        Some(p) => {
            assert(Seq::<ValModel>::empty() + p.0 =~= p.0);
        },
        None => {},
    }
}

proof fn lemma_pairs_prefix_empty(o: Option<(Seq<(Seq<u8>, ValModel)>, Seq<u8>)>)
    ensures
        with_pairs_prefix(Seq::empty(), o) == o,
{
    match o {
        Some(p) => {
            assert(Seq::<(Seq<u8>, ValModel)>::empty() + p.0 =~= p.0);
        },
        None => {},
    }
}

/// Reads the big-endian number in `buf[p..p + 8]`.
pub(crate) fn read_be8(buf: &Vec<u8>, p: usize) -> (r: u64)
    requires
        p + 8 <= buf.len(),
    ensures
        r == num8(buf@.subrange(p as int, p as int + 8)),
{
    let r = ((buf[p] as u64) << 56) | ((buf[p + 1] as u64) << 48) | ((buf[p + 2] as u64) << 40) | (
    (buf[p + 3] as u64) << 32) | ((buf[p + 4] as u64) << 24) | ((buf[p + 5] as u64) << 16) | ((buf[p
        + 6] as u64) << 8) | (buf[p + 7] as u64);
    proof {
        let s = buf@.subrange(p as int, p as int + 8);
        assert(s[0] == buf@[p as int]);
        assert(s[1] == buf@[p as int + 1]);
        assert(s[2] == buf@[p as int + 2]);
        assert(s[3] == buf@[p as int + 3]);
        assert(s[4] == buf@[p as int + 4]);
        assert(s[5] == buf@[p as int + 5]);
        assert(s[6] == buf@[p as int + 6]);
        assert(s[7] == buf@[p as int + 7]);
    }
    r
}

/// Copies `buf[a..b]` out into a fresh vector.
#[verifier::loop_isolation(false)]
pub(crate) fn copy_range(buf: &Vec<u8>, a: usize, b: usize) -> (r: Vec<u8>)
    requires
        a <= b <= buf.len(),
    ensures
        r@ == buf@.subrange(a as int, b as int),
{
    let mut r: Vec<u8> = Vec::new();
    let mut i: usize = a;
    while i < b
        invariant
            a <= i <= b,
            r@ == buf@.subrange(a as int, i as int),
        decreases b - i,
    {
        proof {
            assert(buf@.subrange(a as int, i as int).push(buf@[i as int]) =~= buf@.subrange(
                a as int,
                i as int + 1,
            ));
        }
        r.push(buf[i]);
        i = i + 1;
    }
    r
}

/// Decodes the value starting at `pos`; on success returns it with the
/// position one past its encoding.
#[verifier::loop_isolation(false)]
#[verifier::rlimit(100)]
pub fn decode_at(buf: &Vec<u8>, pos: usize) -> (r: Option<(Value, usize)>)
    requires
        pos <= buf.len(),
    ensures
        match r {
            Some(p) => pos < p.1 <= buf@.len() && dec(buf@.subrange(pos as int, buf@.len() as int))
                == Some((p.0@, buf@.subrange(p.1 as int, buf@.len() as int))) && wf(p.0@),
            None => dec(buf@.subrange(pos as int, buf@.len() as int)) is None,
        },
    decreases buf.len() - pos,
{
    let len = buf.len();
    let ghost s0 = buf@.subrange(pos as int, len as int);
    let avail = len - pos;
    if avail == 0 {
        return None;
    }
    let tag = buf[pos];
    proof {
        assert(s0[0] == buf@[pos as int]);
    }
    if tag == 0 {
        proof {
            assert(s0.subrange(1, s0.len() as int) =~= buf@.subrange(pos as int + 1, len as int));
        }
        return Some((Value::Null, pos + 1));
    }
    if tag > 4 {
        return None;
    }
    if avail < 9 {
        return None;
    }
    let n = read_be8(buf, pos + 1);
    proof {
        assert(s0.subrange(1, 9) =~= buf@.subrange(pos as int + 1, pos as int + 9));
        assert(num8(s0.subrange(1, 9)) == n);
    }
    if tag == 1 {
        proof {
            assert(s0.subrange(9, s0.len() as int) =~= buf@.subrange(pos as int + 9, len as int));
        }
        return Some((Value::UInt(n), pos + 9));
    }
    if tag == 2 {
        if n > (avail - 9) as u64 {
            return None;
        }
        let nn = n as usize;
        let body = copy_range(buf, pos + 9, pos + 9 + nn);
        proof {
            assert(s0.subrange(9, 9 + nn as int) =~= buf@.subrange(
                pos as int + 9,
                pos as int + 9 + nn as int,
            ));
            assert(s0.subrange(9 + nn as int, s0.len() as int) =~= buf@.subrange(
                pos as int + 9 + nn as int,
                len as int,
            ));
        }
        return Some((Value::Text(body), pos + 9 + nn));
    }
    if tag == 3 {
        proof {
            assert(s0.subrange(9, s0.len() as int) =~= buf@.subrange(pos as int + 9, len as int));
            lemma_list_prefix_empty(dec_list(buf@.subrange(pos as int + 9, len as int), n as nat));
        }
        let mut vals: Vec<Value> = Vec::new();
        let mut k: u64 = 0;
        let mut cur: usize = pos + 9;
        while k < n
            invariant
                pos + 9 <= cur <= len,
                k <= n,
                vals@.len() == k as nat,
                seq_model(vals@).len() == vals@.len(),
                forall|j: int| 0 <= j < vals@.len() ==> wf(#[trigger] seq_model(vals@)[j]),
                dec_list(buf@.subrange(pos as int + 9, len as int), n as nat) == with_list_prefix(
                    seq_model(vals@),
                    dec_list(buf@.subrange(cur as int, len as int), (n - k) as nat),
                ),
            decreases len - cur,
        {
            let ghost vold = vals@;
            let ghost pre = seq_model(vals@);
            let ghost scur = buf@.subrange(cur as int, len as int);
            match decode_at(buf, cur) {
                None => {
                    proof {
                        assert(dec_list(scur, (n - k) as nat) is None);
                    }
                    return None;
                },
                Some((v, end)) => {
                    proof {
                        let send = buf@.subrange(end as int, len as int);
                        assert(send.len() < scur.len());
                        assert(dec_list(scur, (n - k) as nat) == with_list_prefix(
                            seq![v@],
                            dec_list(send, (n - (k + 1)) as nat),
                        ));
                        lemma_list_prefix_assoc(
                            pre,
                            seq![v@],
                            dec_list(send, (n - (k + 1)) as nat),
                        );
                    }
                    vals.push(v);
                    k = k + 1;
                    cur = end;
                    proof {
                        crate::value::lemma_seq_model(vold);
                        crate::value::lemma_seq_model(vals@);
                        assert(vals@ =~= vold.push(v));
                        assert(seq_model(vals@) =~= pre + seq![v@]);
                    }
                },
            }
        }
        proof {
            assert(dec_list(buf@.subrange(cur as int, len as int), (n - k) as nat) == Some(
                (Seq::<ValModel>::empty(), buf@.subrange(cur as int, len as int)),
            ));
            assert(seq_model(vals@) + Seq::<ValModel>::empty() =~= seq_model(vals@));
            lemma_wf_list(seq_model(vals@));
        }
        return Some((Value::Array(vals), cur));
    }
    // tag == 4
    proof {
        assert(s0.subrange(9, s0.len() as int) =~= buf@.subrange(pos as int + 9, len as int));
        lemma_pairs_prefix_empty(dec_pairs(buf@.subrange(pos as int + 9, len as int), n as nat));
    }
    let mut prs: Vec<(Vec<u8>, Value)> = Vec::new();
    let mut k: u64 = 0;
    let mut cur: usize = pos + 9;
    while k < n
        invariant
            pos + 9 <= cur <= len,
            k <= n,
            prs@.len() == k as nat,
            pairs_model(prs@).len() == prs@.len(),
            forall|j: int|
                0 <= j < prs@.len() ==> (#[trigger] pairs_model(prs@)[j]).0.len() <= u64::MAX && wf(
                    pairs_model(prs@)[j].1,
                ),
            dec_pairs(buf@.subrange(pos as int + 9, len as int), n as nat) == with_pairs_prefix(
                pairs_model(prs@),
                dec_pairs(buf@.subrange(cur as int, len as int), (n - k) as nat),
            ),
        decreases len - cur,
    {
        let ghost pold = prs@;
        let ghost pre = pairs_model(prs@);
        let ghost scur = buf@.subrange(cur as int, len as int);
        let availc = len - cur;
        if availc < 8 {
            return None;
        }
        let klen = read_be8(buf, cur);
        proof {
            assert(scur.subrange(0, 8) =~= buf@.subrange(cur as int, cur as int + 8));
            assert(num8(scur.subrange(0, 8)) == klen);
        }
        if klen > (availc - 8) as u64 {
            return None;
        }
        let kl = klen as usize;
        let key = copy_range(buf, cur + 8, cur + 8 + kl);
        proof {
            assert(scur.subrange(8, 8 + kl as int) =~= buf@.subrange(
                cur as int + 8,
                cur as int + 8 + kl as int,
            ));
            assert(scur.subrange(8 + kl as int, scur.len() as int) =~= buf@.subrange(
                cur as int + 8 + kl as int,
                len as int,
            ));
        }
        match decode_at(buf, cur + 8 + kl) {
            None => {
                proof {
                    assert(dec_pairs(scur, (n - k) as nat) is None);
                }
                return None;
            },
            Some((v, end)) => {
                proof {
                    let send = buf@.subrange(end as int, len as int);
                    assert(send.len() < scur.len());
                    assert(dec_pairs(scur, (n - k) as nat) == with_pairs_prefix(
                        seq![(key@, v@)],
                        dec_pairs(send, (n - (k + 1)) as nat),
                    ));
                    lemma_pairs_prefix_assoc(
                        pre,
                        seq![(key@, v@)],
                        dec_pairs(send, (n - (k + 1)) as nat),
                    );
                }
                prs.push((key, v));
                k = k + 1;
                cur = end;
                proof {
                    crate::value::lemma_pairs_model(pold);
                    crate::value::lemma_pairs_model(prs@);
                    assert(prs@ =~= pold.push(prs@[prs@.len() - 1]));
                    assert(pairs_model(prs@) =~= pre + seq![(key@, v@)]);
                }
            },
        }
    }
    proof {
        assert(dec_pairs(buf@.subrange(cur as int, len as int), (n - k) as nat) == Some(
            (Seq::<(Seq<u8>, ValModel)>::empty(), buf@.subrange(cur as int, len as int)),
        ));
        assert(pairs_model(prs@) + Seq::<(Seq<u8>, ValModel)>::empty() =~= pairs_model(prs@));
        lemma_wf_pairs(pairs_model(prs@));
    }
    Some((Value::Record(prs), cur))
}

} // verus!

verus! {

use vstd::string::StrSliceExecFns;

/// Character-for-character equality of two strings.
#[verifier::loop_isolation(false)]
pub fn str_eq(a: &str, b: &str) -> (r: bool)
    ensures
        r == (a@ == b@),
{
    let n = a.unicode_len();
    let m = b.unicode_len();
    if n != m {
        return false;
    }
    let mut i: usize = 0;
    while i < n
        invariant
            i <= n,
            n == a@.len() && n == b@.len(),
            forall|j: int| 0 <= j < i ==> a@[j] == b@[j],
        decreases n - i,
    {
        if a.get_char(i) != b.get_char(i) {
            return false;
        }
        i = i + 1;
    }
    proof {
        assert(a@ =~= b@);
    }
    true
}

/// The codecs this crate can resolve by name. `Binary` is the verified
/// tag-and-length wire format above.
#[derive(Clone, Copy, Debug, PartialEq, Eq, Structural)]
pub enum Codec {
    Binary,
}

/// Resolves a codec by its registered name.
pub fn lookup(name: &str) -> (r: Result<Codec, ErrorKind>)
    ensures
        name@ == "binary"@ ==> r == Ok::<Codec, ErrorKind>(Codec::Binary),
        name@ != "binary"@ ==> r == Err::<Codec, ErrorKind>(ErrorKind::Config),
{
    if str_eq(name, "binary") {
        Ok(Codec::Binary)
    } else {
        Err(ErrorKind::Config)
    }
}

impl Codec {
    /// Encodes a structured value into bytes.
    pub fn encode(&self, v: &Value) -> (out: Vec<u8>)
        ensures
            out@ == enc(v@),
            wf(v@),
    {
        encode_value(v)
    }

    /// Decodes one structured value out of `data`; an empty buffer decodes to
    /// no value at all, and anything that is not exactly one encoded value is
    /// a decode error. The timestamp does not influence the result.
    pub fn decode(&self, data: &Vec<u8>, _ingest_ns: u64) -> (r: Result<Option<Value>, ErrorKind>)
        ensures
            data@.len() == 0 ==> r == Ok::<Option<Value>, ErrorKind>(None),
            data@.len() > 0 ==> match dec(data@) {
                Some(p) => if p.1.len() == 0 {
                    r matches Ok(Some(v)) && v@ == p.0
                } else {
                    r == Err::<Option<Value>, ErrorKind>(ErrorKind::Decode)
                },
                None => r == Err::<Option<Value>, ErrorKind>(ErrorKind::Decode),
            },
    {
        if data.len() == 0 {
            return Ok(None);
        }
        proof {
            assert(data@.subrange(0, data@.len() as int) =~= data@);
        }
        match decode_at(data, 0) {
            Some((v, end)) => {
                if end == data.len() {
                    proof {
                        assert(data@.subrange(end as int, data@.len() as int).len() == 0);
                    }
                    Ok(Some(v))
                } else {
                    Err(ErrorKind::Decode)
                }
            },
            None => Err(ErrorKind::Decode),
        }
    }
}

/// Round trip: decoding the encoding of any well-formed value yields that
/// value, with nothing left over.
pub proof fn lemma_round_trip(v: ValModel)
    requires
        wf(v),
    ensures
        dec(enc(v)) == Some::<(ValModel, Seq<u8>)>((v, Seq::empty())),
{
    lemma_dec_enc(v, Seq::empty());
    assert(enc(v) + Seq::<u8>::empty() =~= enc(v));
}

} // verus!
