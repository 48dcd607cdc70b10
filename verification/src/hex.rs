//! Keys in their textual form: three hex strings, decoded by the
//! `rustc-serialize` crate.

use crate::cipher::{fit, logical_len, Key};
use rustc_serialize::hex::{FromHex, FromHexError};
use vstd::prelude::*;

verus! {

/// Why a string is not hex: a character that is no hex digit and no
/// blank, with its byte offset; or an odd number of hex digits.
#[derive(Debug, Clone, Copy, PartialEq, Eq, Structural)]
pub enum HexError {
    InvalidCharacter(char, usize),
    InvalidLength,
}

/// Why three strings are not a key: one of them is not hex, or a stream is
/// too long for its padded form to be held.
#[derive(Debug, Clone, Copy, PartialEq, Eq, Structural)]
pub enum KeyError {
    Xor(HexError),
    Add(HexError),
    Mix(HexError),
    TooLong,
}

/// What `rustc_serialize::hex::FromHex::from_hex` makes of the string `s`.
pub uninterp spec fn hex_decoding(s: Seq<char>) -> Result<Seq<u8>, HexError>;

/// Decodes a hex string with `rustc_serialize::hex::FromHex::from_hex`.
///
/// Trusted: the result is what that function returns for the string, and
/// depends on the string alone. Nothing is claimed of which strings decode
/// or to what.
#[verifier::external_body]
fn decode_hex(s: &str) -> (r: Result<Vec<u8>, HexError>)
    ensures
        match r {
            Ok(v) => hex_decoding(s@) == Ok::<Seq<u8>, HexError>(v@),
            Err(e) => hex_decoding(s@) == Err::<Seq<u8>, HexError>(e),
        },
{
    match s.from_hex() {
        Ok(v) => Ok(v),
        Err(FromHexError::InvalidHexCharacter(c, i)) => Err(HexError::InvalidCharacter(c, i)),
        Err(FromHexError::InvalidHexLength) => Err(HexError::InvalidLength),
    }
}

/// The key, or the error, that three decoded streams give: the first error
/// in the order xor, add, mix; `TooLong` when the xor or the add stream has
/// more than `usize::MAX / 2` bytes; else the streams padded with zeros to
/// their longest logical length.
pub open spec fn key_of_parts(
    x: Result<Seq<u8>, HexError>,
    a: Result<Seq<u8>, HexError>,
    m: Result<Seq<u8>, HexError>,
) -> Result<(Seq<u8>, Seq<u8>, Seq<u8>), KeyError> {
    match (x, a, m) {
        (Err(e), _, _) => Err(KeyError::Xor(e)),
        (Ok(_), Err(e), _) => Err(KeyError::Add(e)),
        (Ok(_), Ok(_), Err(e)) => Err(KeyError::Mix(e)),
        (Ok(xs), Ok(as_), Ok(ms)) => {
            if 2 * xs.len() > usize::MAX || 2 * as_.len() > usize::MAX {
                Err(KeyError::TooLong)
            } else {
                let l = logical_len(xs, as_, ms);
                Ok((fit(xs, l), fit(as_, l), fit(ms, 2 * l)))
            }
        },
    }
}

/// `r` is the key or the error that `expected` says.
pub open spec fn is_key_result(
    r: Result<Key, KeyError>,
    expected: Result<(Seq<u8>, Seq<u8>, Seq<u8>), KeyError>,
) -> bool {
    match (r, expected) {
        (Ok(key), Ok(parts)) => key.wf() && key.x@ == parts.0 && key.a@ == parts.1 && key.m@
            == parts.2,
        (Err(e), Err(f)) => e == f,
        _ => false,
    }
}

/// Builds the key from the outcomes of decoding its three streams.
pub fn key_from_parts(
    x: Result<Vec<u8>, HexError>,
    a: Result<Vec<u8>, HexError>,
    m: Result<Vec<u8>, HexError>,
) -> (r: Result<Key, KeyError>)
    ensures
        is_key_result(r, key_of_parts(seq_result(x), seq_result(a), seq_result(m))),
{
    let xs = match x {
        Ok(v) => v,
        Err(e) => {
            return Err(KeyError::Xor(e));
        },
    };
    let as_ = match a {
        Ok(v) => v,
        Err(e) => {
            return Err(KeyError::Add(e));
        },
    };
    let ms = match m {
        Ok(v) => v,
        Err(e) => {
            return Err(KeyError::Mix(e));
        },
    };
    if xs.len() > usize::MAX / 2 || as_.len() > usize::MAX / 2 {
        return Err(KeyError::TooLong);
    }
    Ok(Key::new(xs, as_, ms))
}

/// The outcome of a decoding with the bytes as a sequence.
pub open spec fn seq_result(r: Result<Vec<u8>, HexError>) -> Result<Seq<u8>, HexError> {
    match r {
        Ok(v) => Ok(v@),
        Err(e) => Err(e),
    }
}

/// Reads a key from the hex strings of its xor, add and mix streams. An
/// empty string is an empty stream.
pub fn parse_key(x: &str, a: &str, m: &str) -> (r: Result<Key, KeyError>)
    ensures
        is_key_result(r, key_of_parts(hex_decoding(x@), hex_decoding(a@), hex_decoding(m@))),
{
    let xr = decode_hex(x);
    let ar = decode_hex(a);
    let mr = decode_hex(m);
    proof {
        assert(seq_result(xr) == hex_decoding(x@));
        assert(seq_result(ar) == hex_decoding(a@));
        assert(seq_result(mr) == hex_decoding(m@));
    }
    key_from_parts(xr, ar, mr)
}

} // verus!
