//! The string message read off a peer's byte stream: a four-byte
//! little-endian length prefix followed by that many bytes of UTF-8 text.

use vstd::prelude::*;

verus! {

/// A string message, as exchanged with a peer.
#[derive(Debug, Clone, PartialEq)]
pub struct String {
    pub data: std::string::String,
}

/// The value of a four-byte little-endian length prefix.
pub open spec fn le_u32(b0: u8, b1: u8, b2: u8, b3: u8) -> int {
    b0 + 256 * b1 + 65536 * b2 + 16777216 * b3
}

/// Read a little-endian 32-bit length out of its four bytes.
pub fn u32_from_le(b0: u8, b1: u8, b2: u8, b3: u8) -> (r: u32)
    ensures
        r == le_u32(b0, b1, b2, b3),
{
    b0 as u32 + 256 * (b1 as u32) + 65536 * (b2 as u32) + 16777216 * (b3 as u32)
}

/// Relies on `std::io::Read::read_exact`: on success the buffer holds the
/// next `n` bytes of the stream, in order.
#[verifier::external_body]
fn read_exact_bytes<R: std::io::Read>(stream: &mut R, n: usize) -> (r: Result<Vec<u8>, ()>)
    ensures
        r matches Ok(v) ==> v@.len() == n,
{
    let mut buf = vec![0u8; n];
    match stream.read_exact(&mut buf) {
        Ok(()) => Ok(buf),
        Err(_) => Err(()),
    }
}

/// Relies on `alloc::string::String::from_utf8`: it succeeds exactly on
/// valid UTF-8 and decodes the bytes to the characters they encode.
#[verifier::external_body]
fn string_from_utf8(v: Vec<u8>) -> (r: Result<std::string::String, ()>)
    ensures
        r is Ok <==> vstd::utf8::valid_utf8(v@),
        r matches Ok(s) ==> s@ == vstd::utf8::decode_utf8(v@),
{
    match std::string::String::from_utf8(v) {
        Ok(s) => Ok(s),
        Err(_) => Err(()),
    }
}

impl String {
    /// Read one string message off a stream: the length prefix, then that
    /// many bytes, interpreted as UTF-8. What comes back depends on the
    /// stream; each failure names the step that could not be completed.
    pub fn from_stream<R: std::io::Read>(stream: &mut R) -> (r: Result<
        String,
        std::string::String,
    >) {
        let header = match read_exact_bytes(stream, 4) {
            Ok(header) => header,
            Err(_) => {
                return Err("Failed to read string length".to_owned());
            },
        };
        let string_size = u32_from_le(header[0], header[1], header[2], header[3]);
        let string_data_bytes = match read_exact_bytes(stream, string_size as usize) {
            Ok(string_data_bytes) => string_data_bytes,
            Err(_) => {
                return Err("Failed to read string data field".to_owned());
            },
        };
        let data = match string_from_utf8(string_data_bytes) {
            Ok(data) => data,
            Err(_) => {
                return Err(
                    "Failed to interpret string data as utf8 string".to_owned(),
                );
            },
        };
        Ok(String { data })
    }
}

} // verus!
