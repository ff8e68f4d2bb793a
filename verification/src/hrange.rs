//! A remote URL as a length-known random-access byte source.
//!
//! The transport (TCP connect, HTTP handshake, request and response) lives
//! outside the library; what is verified here is the decision logic: when
//! a probed origin supports ranged reads, what total length it advertises,
//! and which inclusive byte range each sub-read must request.

use vstd::prelude::*;

use crate::text::{all_digits, dec_val};

verus! {

/// Failure to establish a ranged file over a probed origin.
#[derive(Clone, Copy, PartialEq, Eq, Structural, Debug)]
pub enum Error {
    /// The origin did not advertise range support.
    NoRange,
}

/// The bytes of `none`, the one `Accept-Ranges` value that denies ranged
/// reads.
pub open spec fn none_value() -> Seq<u8> {
    seq![0x6eu8, 0x6fu8, 0x6eu8, 0x65u8]
}

/// The total size advertised by a `Content-Length` header value: its
/// decimal value, or zero when the header is absent or unparseable.
pub open spec fn content_length_of(v: Option<Seq<u8>>) -> int {
    match v {
        Some(s) => if s.len() > 0 && all_digits(s) && dec_val(s) <= u64::MAX {
            dec_val(s)
        } else {
            0
        },
        None => 0,
    }
}

/// Whether an `Accept-Ranges` header value admits ranged reads: present
/// and not equal to `none`.
pub open spec fn accepts_ranges(v: Option<Seq<u8>>) -> bool {
    match v {
        Some(s) => s != none_value(),
        None => false,
    }
}

/// An immutable handle to a remote file: its advertised total length.
/// The origin URI and host stay with the unverified transport.
#[derive(Clone, Copy, PartialEq, Eq, Structural, Debug)]
pub struct HttpFile {
    pub len: u64,
}

impl HttpFile {
    /// Judge a HEAD probe's response headers: fail unless the origin
    /// accepts ranges; take `Content-Length` as the total size, zero when
    /// absent or unparseable.
    pub fn connect(accept_ranges: Option<&Vec<u8>>, content_length: Option<&Vec<u8>>) -> (r:
        Result<HttpFile, Error>)
        ensures
            match r {
                Ok(f) => accepts_ranges(view_opt(accept_ranges)) && f.len == content_length_of(
                    view_opt(content_length),
                ),
                Err(Error::NoRange) => !accepts_ranges(view_opt(accept_ranges)),
            },
    {
        let ok = match accept_ranges {
            Some(v) => {
                let is_none_lit = v.len() == 4 && v[0] == 0x6e && v[1] == 0x6f && v[2] == 0x6e
                    && v[3] == 0x65;
                proof {
                    if is_none_lit {
                        assert(v@ =~= none_value());
                    } else {
                        if v@ == none_value() {
                            assert(v@[0] == 0x6e && v@[1] == 0x6f && v@[2] == 0x6e && v@[3]
                                == 0x65);
                        }
                    }
                }
                !is_none_lit
            },
            None => false,
        };
        if !ok {
            return Err(Error::NoRange);
        }
        let len: u64 = match content_length {
            Some(v) => match crate::text::parse_decimal(v) {
                Some(n) => n,
                None => 0,
            },
            None => 0,
        };
        Ok(HttpFile { len })
    }

    /// The inclusive byte range a sub-read of `len` bytes at `start` must
    /// request, or `None` when `start` is at or past the end of the file.
    pub fn reader_at_to(&self, start: u64, len: u64) -> (r: Option<(u64, u64)>)
        requires
            start + len <= u64::MAX,
        ensures
            match r {
                Some((a, b)) => start < self.len && a == start && b == start + len,
                None => start >= self.len,
            },
    {
        if start >= self.len {
            None
        } else {
            Some((start, start + len))
        }
    }
}

/// The view of an optional header value.
pub open spec fn view_opt(v: Option<&Vec<u8>>) -> Option<Seq<u8>> {
    match v {
        Some(s) => Some(s@),
        None => None,
    }
}

} // verus!
