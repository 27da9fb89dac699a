use vstd::prelude::*;

verus! {

/// ErrorKind taxonomy of the dataflow core.
///
/// `Config` is fatal at construction time; `Preprocess`, `Decode` and
/// `Delivery` are per-message and never terminate a worker loop; `Append`
/// aborts forwarding of the event that failed to persist; `Replay` aborts a
/// replay pass without advancing the read cursor.
#[derive(Clone, Copy, Debug, PartialEq, Eq, Structural)]
pub enum ErrorKind {
    Config,
    Preprocess,
    Decode,
    Append,
    Replay,
    Delivery,
}

impl ErrorKind {
    /// A short diagnostic text for the error, for observability collaborators.
    pub fn message(&self) -> (r: String)
        ensures
            *self == ErrorKind::Config ==> r@ == "configuration error"@,
            *self == ErrorKind::Preprocess ==> r@ == "preprocessor error"@,
            *self == ErrorKind::Decode ==> r@ == "decode error"@,
            *self == ErrorKind::Append ==> r@ == "append error"@,
            *self == ErrorKind::Replay ==> r@ == "replay error"@,
            *self == ErrorKind::Delivery ==> r@ == "delivery error"@,
    {
        match self {
            ErrorKind::Config => "configuration error".to_owned(),
            ErrorKind::Preprocess => "preprocessor error".to_owned(),
            ErrorKind::Decode => "decode error".to_owned(),
            ErrorKind::Append => "append error".to_owned(),
            ErrorKind::Replay => "replay error".to_owned(),
            ErrorKind::Delivery => "delivery error".to_owned(),
        }
    }
}

} // verus!
