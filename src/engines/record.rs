use vstd::prelude::*;

verus! {

/// An on-disk record: `Ok((key, value))` sets a key, `Err(key)` removes it.
pub type Record = Result<(String, String), String>;

/// A record's content.
pub type RecordView = Result<(Seq<char>, Seq<char>), Seq<char>>;

pub open spec fn record_view(r: Record) -> RecordView {
    match r {
        Ok((k, v)) => Ok((k@, v@)),
        Err(k) => Err(k@),
    }
}

/// The bytes of a record in the log.
pub uninterp spec fn record_bytes(r: Result<(Seq<char>, Seq<char>), Seq<char>>) -> Seq<u8>;

/// Relies on `bincode::encode_to_vec` with the standard configuration. For
/// strings it cannot fail: its `Vec` writer accepts every write. The
/// encoding starts with the variant's index, so it is never empty.
#[verifier::external_body]
pub fn encode_record(rec: &Record) -> (r: Option<Vec<u8>>)
    ensures
        r is Some,
        r matches Some(v) ==> v@ == record_bytes(record_view(*rec)),
        r matches Some(v) ==> v@.len() > 0,
{
    bincode::encode_to_vec(rec, bincode::config::standard()).ok()
}

/// Why bytes do not decode to a record.
pub enum DecodeFailure {
    /// The bytes end before the record does: a write torn by a crash.
    Incomplete,
    /// The bytes cannot begin any record.
    Malformed,
}

/// Relies on `bincode::borrow_decode_from_slice` with the standard
/// configuration, reading the strings as slices of the input (so no buffer is
/// allocated from a declared length): bytes that begin with the encoding of a
/// record decode to that record, and the count of bytes read is the
/// encoding's length; bytes that stop inside an encoding fail with
/// `UnexpectedEnd`.
#[verifier::external_body]
pub fn decode_record(bytes: &[u8]) -> (r: Result<(Record, usize), DecodeFailure>)
    ensures
        r matches Ok(p) ==> p.1 <= bytes@.len(),
        forall|x: RecordView|
            #[trigger] record_bytes(x).len() <= bytes@.len() && bytes@.take(
                record_bytes(x).len() as int,
            ) == record_bytes(x) ==> r is Ok && record_view((r->Ok_0).0) == x && (r->Ok_0).1
                == record_bytes(x).len(),
        forall|x: RecordView|
            0 < bytes@.len() < #[trigger] record_bytes(x).len() && record_bytes(x).take(
                bytes@.len() as int,
            ) == bytes@ ==> r is Err && r->Err_0 is Incomplete,
{
    match bincode::borrow_decode_from_slice::<Result<(&str, &str), &str>, _>(
        bytes,
        bincode::config::standard(),
    ) {
        Ok((Ok((k, v)), n)) => Ok((Ok((k.to_string(), v.to_string())), n)),
        Ok((Err(k), n)) => Ok((Err(k.to_string()), n)),
        Err(bincode::error::DecodeError::UnexpectedEnd { .. }) => Err(DecodeFailure::Incomplete),
        Err(_) => Err(DecodeFailure::Malformed),
    }
}

} // verus!
