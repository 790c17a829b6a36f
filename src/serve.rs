//! The range-serving protocol: a request names a file and a byte range, and the reply
//! is a little-endian `i64` size followed by that many bytes, or a negative code alone.
use vstd::prelude::*;
use crate::codec::{dec_str, dec_u64, get_str, get_u64, le64, put_u64};

verus! {

/// What to answer to a range request.
#[derive(Clone, Copy, Debug, PartialEq, Eq, Structural)]
pub enum RangeReply {
    /// No such file: code -1.
    NotFound,
    /// The range ends past the end of the file: code -2.
    OutOfRange,
    /// Send `len` bytes starting at `start`.
    Send { start: u64, len: u64 },
}

/// The reply to a request for `[start, end)` of a file of `file_len` bytes (none when
/// the file does not exist); `start == end == 0` asks for the whole file.
pub open spec fn reply_spec(start: u64, end: u64, file_len: Option<u64>) -> RangeReply {
    match file_len {
        None => RangeReply::NotFound,
        Some(n) => if end > n {
            RangeReply::OutOfRange
        } else if start == 0 && end == 0 {
            RangeReply::Send { start: 0, len: n }
        } else {
            RangeReply::Send { start, len: (end - start) as u64 }
        },
    }
}

/// Decides the reply to a range request.
pub fn plan_range(start: u64, end: u64, file_len: Option<u64>) -> (r: RangeReply)
    requires
        start <= end,
    ensures
        r == reply_spec(start, end, file_len),
{
    match file_len {
        None => RangeReply::NotFound,
        Some(n) => if end > n {
            RangeReply::OutOfRange
        } else if start == 0 && end == 0 {
            RangeReply::Send { start: 0, len: n }
        } else {
            RangeReply::Send { start, len: end - start }
        },
    }
}

/// The size field of a reply, as the bits of its `i64`.
pub open spec fn reply_code(r: RangeReply) -> u64 {
    match r {
        RangeReply::NotFound => u64::MAX,
        RangeReply::OutOfRange => (u64::MAX - 1) as u64,
        RangeReply::Send { len, .. } => len,
    }
}

/// The eight bytes that open a reply.
pub fn reply_header(r: RangeReply) -> (b: Vec<u8>)
    ensures
        b@ == le64(reply_code(r)),
{
    let code: u64 = match r {
        RangeReply::NotFound => u64::MAX,
        RangeReply::OutOfRange => u64::MAX - 1,
        RangeReply::Send { len, .. } => len,
    };
    let mut b: Vec<u8> = Vec::new();
    put_u64(&mut b, code);
    assert(b@ =~= le64(code));
    b
}

/// A range request: the file's path, then the start and end offsets.
pub struct RangeRequest {
    pub path: String,
    pub start: u64,
    pub end: u64,
}

/// The request that a byte sequence holds, if it holds exactly one.
pub open spec fn request_spec(b: Seq<u8>) -> Option<(Seq<char>, u64, u64)> {
    match dec_str(b) {
        Some((path, r1)) => match dec_u64(r1) {
            Some((start, r2)) => match dec_u64(r2) {
                Some((end, r3)) => if r3.len() == 0 {
                    Some((path, start, end))
                } else {
                    None
                },
                None => None,
            },
            None => None,
        },
        None => None,
    }
}

/// Reads a request: a length-prefixed UTF-8 path, then `start` and `end`, each a
/// little-endian `u64`, and nothing after.
pub fn parse_request(b: &[u8]) -> (r: Option<RangeRequest>)
    ensures
        match request_spec(b@) {
            Some((p, s, e)) => r matches Some(q) && q.path@ == p && q.start == s && q.end == e,
            None => r is None,
        },
{
    assert(b@.skip(0) =~= b@);
    let (path, pos1) = match get_str(b, 0) {
        Some(x) => x,
        None => return None,
    };
    let (start, pos2) = match get_u64(b, pos1) {
        Some(x) => x,
        None => return None,
    };
    let (end, pos3) = match get_u64(b, pos2) {
        Some(x) => x,
        None => return None,
    };
    if pos3 != b.len() {
        return None;
    }
    Some(RangeRequest { path, start, end })
}

} // verus!
