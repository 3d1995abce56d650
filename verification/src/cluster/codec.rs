//! Encoding and decoding of message payloads: a payload is the encoding of one value and nothing
//! else.

use vstd::prelude::*;

use crate::wire::{holds, DecodeError, Wire};

verus! {

/// A message payload which cannot be encoded or decoded, naming which of the two failed: the same
/// payload reaches a log site from both directions, so the error has to say which way it went.
#[derive(Debug, Clone, PartialEq, Eq)]
pub enum CodecError {
    /// A message which cannot be encoded into payload bytes.
    Encode(String),
    /// Payload bytes which cannot be decoded into a message.
    Decode(String),
}

impl CodecError {
    /// Wrap any error as an encoding failure.
    pub fn encoding(error: &str) -> (e: Self)
        ensures
            e matches CodecError::Encode(text) && text@ == error@,
    {
        CodecError::Encode(error.to_owned())
    }

    /// Wrap any error as a decoding failure.
    pub fn decoding(error: &str) -> (e: Self)
        ensures
            e matches CodecError::Decode(text) && text@ == error@,
    {
        CodecError::Decode(error.to_owned())
    }
}

impl DecodeError {
    pub open spec fn text(self) -> Seq<char> {
        match self {
            DecodeError::UnexpectedEnd => "Hit the end of buffer, expected more data"@,
            DecodeError::BadVarint => {
                "Found a varint that didn't terminate. Is the usize too big for this platform?"@
            },
            DecodeError::BadBool => "Found a bool that wasn't 0 or 1"@,
            DecodeError::BadOption => "Found an Option discriminant that wasn't 0 or 1"@,
            DecodeError::BadUtf8 => "Tried to parse invalid utf-8"@,
            DecodeError::BadIdentity => "Serde Deserialization Error"@,
            DecodeError::UnknownVariant => "Serde Deserialization Error"@,
        }
    }

    /// What is wrong with the bytes, in the words of `postcard`, whose format this is.
    pub fn describe(&self) -> (text: &'static str)
        ensures
            text@ == self.text(),
    {
        match self {
            DecodeError::UnexpectedEnd => "Hit the end of buffer, expected more data",
            DecodeError::BadVarint => {
                "Found a varint that didn't terminate. Is the usize too big for this platform?"
            },
            DecodeError::BadBool => "Found a bool that wasn't 0 or 1",
            DecodeError::BadOption => "Found an Option discriminant that wasn't 0 or 1",
            DecodeError::BadUtf8 => "Tried to parse invalid utf-8",
            DecodeError::BadIdentity => "Serde Deserialization Error",
            DecodeError::UnknownVariant => "Serde Deserialization Error",
        }
    }
}

/// Fails if bytes of a payload are left behind the decoded value: such a payload is corrupt or of
/// another type.
pub fn check_leftover(left: usize) -> (r: Result<(), CodecError>)
    ensures
        r is Ok == (left == 0),
        r matches Err(e) ==> (e matches CodecError::Decode(text) && text@
            == "trailing payload bytes"@),
{
    if left == 0 {
        Ok(())
    } else {
        Err(CodecError::decoding("trailing payload bytes"))
    }
}

/// The value a codec handed to its visitor, which it has to do once.
pub fn decoded_value<T>(decoded: Option<T>) -> (r: Result<T, CodecError>)
    ensures
        decoded matches Some(value) ==> r == Ok::<T, CodecError>(value),
        decoded is None ==> (r matches Err(CodecError::Decode(text)) && text@
            == "codec did not decode a value"@),
{
    match decoded {
        Some(value) => Ok(value),
        None => Err(CodecError::decoding("codec did not decode a value")),
    }
}

/// The wire format as a payload codec.
#[derive(Debug, Clone, Copy, PartialEq, Eq, Structural)]
pub struct Postcard;

impl Default for Postcard {
    fn default() -> (codec: Self)
        ensures
            codec == Postcard,
    {
        Postcard
    }
}

/// What a payload decodes to: the value whose encoding it is.
pub open spec fn decoded<T: Wire>(payload: Seq<u8>) -> Result<T::V, Seq<char>> {
    match T::read(payload, 0) {
        Ok((value, end)) => if end == payload.len() {
            Ok(value)
        } else {
            Err("trailing payload bytes"@)
        },
        Err(e) => Err(e.text()),
    }
}

impl Postcard {
    /// The payload of the value.
    pub fn encode<T: Wire>(&self, value: &T) -> (payload: Vec<u8>)
        ensures
            payload@ == T::encoding(value.deep_view()),
    {
        let mut payload: Vec<u8> = Vec::new();
        value.put(&mut payload);
        assert(payload@ =~= T::encoding(value.deep_view()));
        payload
    }

    /// The value of the payload, which must hold nothing else.
    pub fn decode_to<T: Wire>(&self, payload: &[u8]) -> (r: Result<T, CodecError>)
        ensures
            match (r, decoded::<T>(payload@)) {
                (Ok(value), Ok(model)) => value.deep_view() == model,
                (Err(CodecError::Decode(text)), Err(expected)) => text@ == expected,
                _ => false,
            },
    {
        proof {
            T::advances(payload@, 0);
        }
        match T::take(payload, 0) {
            Ok((value, end)) => match check_leftover(payload.len() - end) {
                Ok(()) => Ok(value),
                Err(e) => Err(e),
            },
            Err(e) => Err(CodecError::decoding(e.describe())),
        }
    }
}

/// A value survives the codec, and nothing may follow it in its payload.
pub proof fn payloads_round_trip<T: Wire>(value: T::V, trailing: Seq<u8>)
    requires
        T::is_whole(value),
    ensures
        decoded::<T>(T::encoding(value)) == Ok::<T::V, Seq<char>>(value),
        trailing.len() > 0 ==> decoded::<T>(T::encoding(value) + trailing) is Err,
{
    let payload = T::encoding(value);
    assert(holds(payload, 0, payload));
    T::reads_back(payload, 0, value);
    let longer = payload + trailing;
    assert(holds(longer, 0, payload));
    T::reads_back(longer, 0, value);
}

/// A payload decodes to what it was encoded from and nothing else: bytes left over behind the value
/// are refused, and so is whatever is no value.
pub proof fn a_payload_is_one_value<T: Wire>(payload: Seq<u8>)
    ensures
        decoded::<T>(payload) is Ok <==> (T::read(payload, 0) matches Ok((value, end)) && end
            == payload.len()),
        decoded::<T>(payload) matches Ok(model) ==> T::read(payload, 0) == Ok::<
            (T::V, int),
            DecodeError,
        >((model, payload.len() as int)),
        (T::read(payload, 0) matches Ok((value, end)) && end != payload.len())
            ==> decoded::<T>(payload) == Err::<T::V, Seq<char>>("trailing payload bytes"@),
{
}

} // verus!
