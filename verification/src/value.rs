use vstd::prelude::*;

verus! {

/// Mathematical form of a structured payload. Contracts in this crate are
/// stated over this model rather than over the executable representation.
pub enum ValModel {
    Null,
    UInt(u64),
    Text(Seq<u8>),
    Array(Seq<ValModel>),
    Record(Seq<(Seq<u8>, ValModel)>),
}

/// A structured payload: a tree of records, arrays and scalars. Text scalars
/// and record keys are carried as UTF-8 bytes.
pub enum Value {
    Null,
    UInt(u64),
    Text(Vec<u8>),
    Array(Vec<Value>),
    Record(Vec<(Vec<u8>, Value)>),
}

/// Model of a sequence of values.
pub open spec fn seq_model(s: Seq<Value>) -> Seq<ValModel>
    decreases s,
{
    if s.len() == 0 {
        Seq::empty()
    } else {
        seq![s[0]@] + seq_model(s.subrange(1, s.len() as int))
    }
}

/// Model of a sequence of key-value pairs.
pub open spec fn pairs_model(s: Seq<(Vec<u8>, Value)>) -> Seq<(Seq<u8>, ValModel)>
    decreases s,
{
    if s.len() == 0 {
        Seq::empty()
    } else {
        seq![(s[0].0@, s[0].1@)] + pairs_model(s.subrange(1, s.len() as int))
    }
}

impl View for Value {
    type V = ValModel;

    open spec fn view(&self) -> ValModel
        decreases self,
    {
        match self {
            Value::Null => ValModel::Null,
            Value::UInt(n) => ValModel::UInt(*n),
            Value::Text(b) => ValModel::Text(b@),
            Value::Array(xs) => ValModel::Array(seq_model(xs@)),
            Value::Record(ps) => ValModel::Record(pairs_model(ps@)),
        }
    }
}

/// `seq_model` maps each element to its model, preserving length and order.
pub proof fn lemma_seq_model(s: Seq<Value>)
    ensures
        seq_model(s).len() == s.len(),
        forall|i: int| 0 <= i < s.len() ==> #[trigger] seq_model(s)[i] == s[i]@,
    decreases s,
{
    if s.len() > 0 {
        let rest = s.subrange(1, s.len() as int);
        lemma_seq_model(rest);
        assert(seq_model(s) == seq![s[0]@] + seq_model(rest));
        assert forall|i: int| 0 <= i < s.len() implies #[trigger] seq_model(s)[i] == s[i]@ by {
            if i > 0 {
                assert(rest[i - 1] == s[i]);
                assert(seq_model(s)[i] == seq_model(rest)[i - 1]);
            }
        }
    } else {
        assert(seq_model(s) == Seq::<ValModel>::empty());
    }
}

/// `pairs_model` maps each pair to its model, preserving length and order.
pub proof fn lemma_pairs_model(s: Seq<(Vec<u8>, Value)>)
    ensures
        pairs_model(s).len() == s.len(),
        forall|i: int|
            0 <= i < s.len() ==> #[trigger] pairs_model(s)[i] == (s[i].0@, s[i].1@),
    decreases s,
{
    if s.len() > 0 {
        let rest = s.subrange(1, s.len() as int);
        lemma_pairs_model(rest);
        assert(pairs_model(s) == seq![(s[0].0@, s[0].1@)] + pairs_model(rest));
        assert forall|i: int|
            0 <= i < s.len() implies #[trigger] pairs_model(s)[i] == (s[i].0@, s[i].1@) by {
            if i > 0 {
                assert(rest[i - 1] == s[i]);
                assert(pairs_model(s)[i] == pairs_model(rest)[i - 1]);
            }
        }
    } else {
        assert(pairs_model(s) == Seq::<(Seq<u8>, ValModel)>::empty());
    }
}

impl Value {
    /// Structural equality, decided executably; `==` on the models is what
    /// every contract in this crate means by equality of payloads.
    #[verifier::loop_isolation(false)]
    pub fn deep_eq(&self, other: &Value) -> (r: bool)
        ensures
            r == (self@ == other@),
        decreases self,
    {
        match self {
            Value::Null => match other {
                Value::Null => true,
                _ => false,
            },
            Value::UInt(a) => match other {
                Value::UInt(b) => *a == *b,
                _ => false,
            },
            Value::Text(a) => match other {
                Value::Text(b) => bytes_eq(a, b),
                _ => false,
            },
            Value::Array(xs) => match other {
                Value::Array(ys) => {
                proof {
                    lemma_seq_model(xs@);
                    lemma_seq_model(ys@);
                }
                if xs.len() != ys.len() {
                    false
                } else {
                    let mut i: usize = 0;
                    let mut ok: bool = true;
                    while i < xs.len()
                        invariant
                            i <= xs.len(),
                            xs.len() == ys.len(),
                            seq_model(xs@).len() == xs@.len(),
                            seq_model(ys@).len() == ys@.len(),
                            forall|j: int| 0 <= j < xs@.len() ==> #[trigger] seq_model(xs@)[j] == xs@[j]@,
                            forall|j: int| 0 <= j < ys@.len() ==> #[trigger] seq_model(ys@)[j] == ys@[j]@,
                            ok == (forall|j: int| 0 <= j < i ==> xs@[j]@ == ys@[j]@),
                        decreases xs.len() - i,
                    {
                        proof {
                            assert(decreases_to!(*self => *xs));
                            assert(decreases_to!(*xs => xs@));
                            assert(decreases_to!(xs@ => xs@[i as int]));
                            assert(decreases_to!(*self => xs@[i as int]));
                        }
                        let e = xs[i].deep_eq(&ys[i]);
                        ok = ok && e;
                        i = i + 1;
                    }
                    proof {
                        if ok {
                            assert(seq_model(xs@) =~= seq_model(ys@));
                        } else {
                            let j = choose|j: int| 0 <= j < xs@.len() && xs@[j]@ != ys@[j]@;
                            assert(seq_model(xs@)[j] != seq_model(ys@)[j]);
                        }
                    }
                    ok
                }
                },
                _ => false,
            },
            Value::Record(xs) => match other {
                Value::Record(ys) => {
                proof {
                    lemma_pairs_model(xs@);
                    lemma_pairs_model(ys@);
                }
                if xs.len() != ys.len() {
                    false
                } else {
                    let mut i: usize = 0;
                    let mut ok: bool = true;
                    while i < xs.len()
                        invariant
                            i <= xs.len(),
                            xs.len() == ys.len(),
                            pairs_model(xs@).len() == xs@.len(),
                            pairs_model(ys@).len() == ys@.len(),
                            forall|j: int|
                                0 <= j < xs@.len() ==> #[trigger] pairs_model(xs@)[j] == (
                                xs@[j].0@,
                                xs@[j].1@,
                                ),
                            forall|j: int|
                                0 <= j < ys@.len() ==> #[trigger] pairs_model(ys@)[j] == (
                                ys@[j].0@,
                                ys@[j].1@,
                                ),
                            ok == (forall|j: int|
                                0 <= j < i ==> xs@[j].0@ == ys@[j].0@ && xs@[j].1@ == ys@[j].1@),
                        decreases xs.len() - i,
                    {
                        proof {
                            assert(decreases_to!(*self => *xs));
                            assert(decreases_to!(*xs => xs@));
                            assert(decreases_to!(xs@ => xs@[i as int]));
                            assert(decreases_to!(*self => xs@[i as int].1));
                        }
                        let ke = bytes_eq(&xs[i].0, &ys[i].0);
                        let ve = xs[i].1.deep_eq(&ys[i].1);
                        ok = ok && ke && ve;
                        i = i + 1;
                    }
                    proof {
                        if ok {
                            assert(pairs_model(xs@) =~= pairs_model(ys@));
                        } else {
                            let j = choose|j: int|
                                0 <= j < xs@.len() && !(xs@[j].0@ == ys@[j].0@ && xs@[j].1@
                                    == ys@[j].1@);
                            assert(pairs_model(xs@)[j] != pairs_model(ys@)[j]);
                        }
                    }
                    ok
                }
                },
                _ => false,
            },
        }
    }
}

/// Byte-sequence equality, decided executably.
pub fn bytes_eq(a: &Vec<u8>, b: &Vec<u8>) -> (r: bool)
    ensures
        r == (a@ == b@),
{
    if a.len() != b.len() {
        return false;
    }
    let mut i: usize = 0;
    while i < a.len()
        invariant
            i <= a.len(),
            a.len() == b.len(),
            forall|j: int| 0 <= j < i ==> a@[j] == b@[j],
        decreases a.len() - i,
    {
        if a[i] != b[i] {
            return false;
        }
        i = i + 1;
    }
    proof {
        assert(a@ =~= b@);
    }
    true
}

} // verus!

