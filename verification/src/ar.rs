//! Classic unix-archive (`ar`) reader over a random-access byte source.
//!
//! The archive opens by checking the 8-byte magic `!<arch>\n`.  Members
//! follow back to back: a 60-byte fixed ASCII header, then `size` payload
//! bytes.  [`Deb`] is the cursor over the member sequence: the caller
//! fetches the byte ranges the cursor asks for (over HTTP or from memory)
//! and hands them back, so the walk itself is pure and fully specified.

use vstd::prelude::*;

use crate::text::{all_digits, dec_val, lemma_dec_val_nonneg, parse_decimal, subrange_vec, trim,
    trim_range};

verus! {

/// Failure while reading the archive structure.
#[derive(Clone, Copy, PartialEq, Eq, Structural, Debug)]
pub enum Error {
    /// The first 8 bytes are not `!<arch>\n`.
    BadMagic,
    /// A member header does not end in the two trailer bytes.
    BadTrailer,
    /// A numeric header field is not a parseable decimal numeral.
    BadNumeral,
    /// The source ends inside a member header.
    Truncated,
    /// The archive holds no member with the requested identifier.
    NoSuchMember,
}

/// One member's parsed 60-byte header.
#[derive(Clone, Debug)]
pub struct Header {
    /// Member name, whitespace-trimmed, at most 16 bytes.
    pub identifier: Vec<u8>,
    /// Payload length in bytes.
    pub size: u64,
    /// Modification timestamp, decimal seconds.
    pub timestamp: u64,
    /// Owner id.
    pub owner: u64,
    /// Group id.
    pub group: u64,
    /// File mode (parsed as decimal, preserving the source's convention).
    pub mode: u64,
}

/// The archive magic `!<arch>\n`.
pub open spec fn magic() -> Seq<u8> {
    seq![0x21u8, 0x3cu8, 0x61u8, 0x72u8, 0x63u8, 0x68u8, 0x3eu8, 0x0au8]
}

/// The member identifier `data.tar.xz`.
pub open spec fn data_tar_xz() -> Seq<u8> {
    seq![0x64u8, 0x61u8, 0x74u8, 0x61u8, 0x2eu8, 0x74u8, 0x61u8, 0x72u8, 0x2eu8, 0x78u8, 0x7au8]
}

/// A numeric header field parses after trimming: nonempty, all digits, and
/// within 64 bits.
pub open spec fn num_field_ok(h: Seq<u8>, lo: int, hi: int) -> bool {
    let t = trim(h.subrange(lo, hi));
    t.len() > 0 && all_digits(t) && dec_val(t) <= u64::MAX
}

pub open spec fn num_field_val(h: Seq<u8>, lo: int, hi: int) -> int {
    dec_val(trim(h.subrange(lo, hi)))
}

/// A 60-byte member header is well-formed: trailer bytes 0x60 0x0A and all
/// five numeric fields parse.
pub open spec fn header_ok(h: Seq<u8>) -> bool {
    &&& h.len() == 60
    &&& h[58] == 0x60
    &&& h[59] == 0x0a
    &&& num_field_ok(h, 16, 28)  // timestamp
    &&& num_field_ok(h, 28, 34)  // owner
    &&& num_field_ok(h, 34, 40)  // group
    &&& num_field_ok(h, 40, 48)  // mode
    &&& num_field_ok(h, 48, 58)  // size
}

pub open spec fn hdr_identifier(h: Seq<u8>) -> Seq<u8> {
    trim(h.subrange(0, 16))
}

pub open spec fn hdr_size(h: Seq<u8>) -> int {
    num_field_val(h, 48, 58)
}

/// Parse a 60-byte member header.  Succeeds exactly on a well-formed
/// header; the trailer is checked before the numerals.
pub fn parse_header(h: &Vec<u8>) -> (r: Result<Header, Error>)
    requires
        h@.len() == 60,
    ensures
        match r {
            Ok(hd) => {
                &&& header_ok(h@)
                &&& hd.identifier@ == hdr_identifier(h@)
                &&& hd.timestamp == num_field_val(h@, 16, 28)
                &&& hd.owner == num_field_val(h@, 28, 34)
                &&& hd.group == num_field_val(h@, 34, 40)
                &&& hd.mode == num_field_val(h@, 40, 48)
                &&& hd.size == hdr_size(h@)
            },
            Err(Error::BadTrailer) => h@[58] != 0x60 || h@[59] != 0x0a,
            Err(Error::BadNumeral) => h@[58] == 0x60 && h@[59] == 0x0a && !header_ok(h@),
            Err(_) => false,
        },
{
    if h[58] != 0x60 || h[59] != 0x0a {
        return Err(Error::BadTrailer);
    }
    let identifier = trim_range(h, 0, 16);
    let timestamp = match parse_decimal(&trim_range(h, 16, 28)) {
        Some(v) => v,
        None => return Err(Error::BadNumeral),
    };
    let owner = match parse_decimal(&trim_range(h, 28, 34)) {
        Some(v) => v,
        None => return Err(Error::BadNumeral),
    };
    let group = match parse_decimal(&trim_range(h, 34, 40)) {
        Some(v) => v,
        None => return Err(Error::BadNumeral),
    };
    let mode = match parse_decimal(&trim_range(h, 40, 48)) {
        Some(v) => v,
        None => return Err(Error::BadNumeral),
    };
    let size = match parse_decimal(&trim_range(h, 48, 58)) {
        Some(v) => v,
        None => return Err(Error::BadNumeral),
    };
    Ok(Header { identifier, size, timestamp, owner, group, mode })
}

/// Every numeric field of a well-formed header parses from its trimmed
/// digits alone: the trimmed field is nonempty, all digits, and carries
/// no leading or trailing whitespace.
pub proof fn lemma_header_fields_trimmed(h: Seq<u8>)
    requires
        header_ok(h),
    ensures
        forall|lo: int, hi: int| (lo == 16 && hi == 28) || (lo == 28 && hi == 34) || (lo == 34
            && hi == 40) || (lo == 40 && hi == 48) || (lo == 48 && hi == 58) ==> {
            let t = trim(#[trigger] h.subrange(lo, hi));
            t.len() > 0 && all_digits(t) && !crate::text::is_ws(t[0]) && !crate::text::is_ws(
                t.last(),
            ) && crate::text::is_trimmed(t)
        },
{
    assert forall|lo: int, hi: int| (lo == 16 && hi == 28) || (lo == 28 && hi == 34) || (lo == 34
        && hi == 40) || (lo == 40 && hi == 48) || (lo == 48 && hi == 58) implies {
        let t = trim(#[trigger] h.subrange(lo, hi));
        t.len() > 0 && all_digits(t) && !crate::text::is_ws(t[0]) && !crate::text::is_ws(t.last())
            && crate::text::is_trimmed(t)
    } by {
        crate::text::lemma_trim_shape(h.subrange(lo, hi));
    }
}

/// One member yielded by the cursor: its header and where its payload
/// stands in the source.
pub struct Member {
    pub header: Header,
    /// First payload byte, `60` past the member's header.
    pub body_offset: u64,
    /// Payload length: the header's size field.
    pub body_len: u64,
}

/// Total source bytes consumed by a traversal: `60 + size` for each member.
pub open spec fn advance_total(sizes: Seq<int>) -> int
    decreases sizes.len(),
{
    if sizes.len() == 0 {
        0
    } else {
        advance_total(sizes.drop_last()) + 60 + sizes.last()
    }
}

/// Cursor over an archive's member sequence.
///
/// `offset` always stands at the next member header (or at/past end of
/// source); the sizes of the members already yielded are recorded in ghost
/// `history`.
pub struct Deb {
    /// Total length of the source in bytes.
    pub total: u64,
    /// Current cursor position.
    pub offset: u64,
    /// Sizes of the members yielded so far.
    pub history: Ghost<Seq<int>>,
}

impl Deb {
    /// After `k` successful member reads the cursor stands at
    /// `8 + sum over i < k of (60 + size_i)`.
    pub open spec fn traversal_inv(&self) -> bool {
        self.offset == 8 + advance_total(self.history@)
    }

    /// Open an archive of `total` bytes whose first 8 bytes are `prefix`.
    pub fn open(total: u64, prefix: &Vec<u8>) -> (r: Result<Deb, Error>)
        requires
            prefix@.len() == 8,
        ensures
            match r {
                Ok(d) => {
                    &&& prefix@ == magic()
                    &&& d.total == total
                    &&& d.offset == 8
                    &&& d.history@ == Seq::<int>::empty()
                    &&& d.traversal_inv()
                },
                Err(Error::BadMagic) => prefix@ != magic(),
                Err(_) => false,
            },
    {
        if prefix[0] == 0x21 && prefix[1] == 0x3c && prefix[2] == 0x61 && prefix[3] == 0x72
            && prefix[4] == 0x63 && prefix[5] == 0x68 && prefix[6] == 0x3e && prefix[7] == 0x0a {
            proof {
                assert(prefix@ =~= magic());
            }
            Ok(Deb { total, offset: 8, history: Ghost(Seq::empty()) })
        } else {
            proof {
                if prefix@ == magic() {
                    assert(prefix@[0] == 0x21);
                    assert(prefix@[1] == 0x3c);
                    assert(prefix@[2] == 0x61);
                    assert(prefix@[3] == 0x72);
                    assert(prefix@[4] == 0x63);
                    assert(prefix@[5] == 0x68);
                    assert(prefix@[6] == 0x3e);
                    assert(prefix@[7] == 0x0a);
                }
            }
            Err(Error::BadMagic)
        }
    }

    /// The byte range of the next member header to fetch, or `None` when
    /// the cursor is at or past the end of the source.
    pub fn member_header_range(&self) -> (r: Option<(u64, u64)>)
        ensures
            match r {
                Some((start, len)) => self.offset < self.total && start == self.offset && len == 60,
                None => self.offset >= self.total,
            },
    {
        if self.offset < self.total {
            Some((self.offset, 60))
        } else {
            None
        }
    }

    /// Advance past the member whose 60 header bytes are `header`.
    ///
    /// `Ok(None)` means the payload would start at or past the end of the
    /// source: no more members.  On `Ok(Some(m))` the cursor moves by
    /// exactly `60 + m.body_len` bytes (clipped to the end of the source
    /// only if that sum exceeds 64 bits).
    pub fn next(&mut self, header: &Vec<u8>) -> (r: Result<Option<Member>, Error>)
        requires
            old(self).offset < old(self).total,
            header@.len() == 60,
        ensures
            final(self).total == old(self).total,
            match r {
                Ok(Some(m)) => {
                    &&& header_ok(header@)
                    &&& m.header.identifier@ == hdr_identifier(header@)
                    &&& m.header.size == hdr_size(header@)
                    &&& m.header.timestamp == num_field_val(header@, 16, 28)
                    &&& m.header.owner == num_field_val(header@, 28, 34)
                    &&& m.header.group == num_field_val(header@, 34, 40)
                    &&& m.header.mode == num_field_val(header@, 40, 48)
                    &&& m.body_offset == old(self).offset + 60
                    &&& m.body_len == m.header.size
                    &&& m.body_offset < old(self).total
                    &&& final(self).history@ == old(self).history@.push(m.body_len as int)
                    &&& if old(self).offset + 60 + m.body_len <= u64::MAX {
                        final(self).offset == old(self).offset + 60 + m.body_len
                    } else {
                        final(self).offset == old(self).total
                    }
                    &&& old(self).traversal_inv() && old(self).offset + 60 + m.body_len
                        <= u64::MAX ==> final(self).traversal_inv()
                },
                Ok(None) => {
                    &&& header_ok(header@)
                    &&& old(self).offset + 60 >= old(self).total
                    &&& final(self).offset == old(self).total
                    &&& final(self).history@ == old(self).history@
                },
                Err(e) => {
                    &&& !header_ok(header@)
                    &&& (e == Error::BadTrailer || e == Error::BadNumeral)
                    &&& *final(self) == *old(self)
                },
            },
    {
        let hd = match parse_header(header) {
            Ok(hd) => hd,
            Err(e) => {
                return Err(e);
            },
        };
        let body_offset = match self.offset.checked_add(60) {
            Some(b) => b,
            None => {
                // offset + 60 exceeds 64 bits, so it is past any total.
                self.offset = self.total;
                return Ok(None);
            },
        };
        if body_offset >= self.total {
            self.offset = self.total;
            return Ok(None);
        }
        let size = hd.size;
        proof {
            lemma_dec_val_nonneg(trim(header@.subrange(48, 58)));
        }
        match body_offset.checked_add(size) {
            Some(end) => {
                self.offset = end;
            },
            None => {
                self.offset = self.total;
            },
        }
        proof {
            let h = old(self).history@.push(size as int);
            assert(h.drop_last() =~= old(self).history@);
            assert(advance_total(h) == advance_total(old(self).history@) + 60 + size);
        }
        self.history = Ghost(self.history@.push(size as int));
        Ok(Some(Member { header: hd, body_offset, body_len: size }))
    }
}

/// What scanning for the first `data.tar.xz` member from `off` yields.
pub enum ScanOutcome {
    /// Payload offset and size of the first such member.
    Found(int, int),
    /// The members end (cleanly) without such a member.
    NoMember,
    /// The source ends inside a member header.
    Truncated,
    /// A malformed member header.
    Corrupt,
}

/// Source bytes still ahead of the cursor (zero once past the end).
pub open spec fn remaining(len: int, off: int) -> int {
    if off <= len {
        len - off
    } else {
        0
    }
}

/// Walk member headers in `s` from `off`, looking for `data.tar.xz`.
pub open spec fn scan_from(s: Seq<u8>, off: int) -> ScanOutcome
    decreases remaining(s.len() as int, off),
    via scan_from_dec
{
    if off < 0 || off >= s.len() {
        ScanOutcome::NoMember
    } else if off + 60 > s.len() {
        ScanOutcome::Truncated
    } else {
        let h = s.subrange(off, off + 60);
        if !header_ok(h) {
            ScanOutcome::Corrupt
        } else {
            let body = off + 60;
            if body >= s.len() {
                ScanOutcome::NoMember
            } else if hdr_identifier(h) == data_tar_xz() {
                ScanOutcome::Found(body, hdr_size(h))
            } else {
                scan_from(s, body + hdr_size(h))
            }
        }
    }
}

#[via_fn]
proof fn scan_from_dec(s: Seq<u8>, off: int) {
    if 0 <= off && off + 60 <= s.len() {
        let h = s.subrange(off, off + 60);
        if header_ok(h) {
            lemma_dec_val_nonneg(trim(h.subrange(48, 58)));
        }
    }
}

/// Find the first `data.tar.xz` member of the in-memory archive `deb`.
///
/// Checks the magic, then walks member headers exactly as the cursor does;
/// returns the member's payload offset and size.
pub fn scan_data_member(deb: &Vec<u8>) -> (r: Result<(u64, u64), Error>)
    ensures
        match r {
            Ok((bo, sz)) => {
                &&& deb@.len() >= 8
                &&& deb@.subrange(0, 8) == magic()
                &&& scan_from(deb@, 8) == ScanOutcome::Found(bo as int, sz as int)
                &&& bo < deb@.len()
            },
            Err(Error::BadMagic) => deb@.len() < 8 || deb@.subrange(0, 8) != magic(),
            Err(Error::NoSuchMember) => deb@.subrange(0, 8) == magic() && scan_from(deb@, 8)
                == ScanOutcome::NoMember,
            Err(Error::Truncated) => deb@.subrange(0, 8) == magic() && scan_from(deb@, 8)
                == ScanOutcome::Truncated,
            Err(_) => deb@.subrange(0, 8) == magic() && scan_from(deb@, 8)
                == ScanOutcome::Corrupt,
        },
{
    if deb.len() < 8 {
        return Err(Error::BadMagic);
    }
    let prefix = subrange_vec(deb, 0, 8);
    let mut cur = match Deb::open(deb.len() as u64, &prefix) {
        Ok(c) => c,
        Err(e) => {
            return Err(e);
        },
    };
    loop
        invariant
            cur.total == deb@.len(),
            8 <= cur.offset,
            deb@.len() >= 8,
            deb@.subrange(0, 8) == magic(),
            scan_from(deb@, 8) == scan_from(deb@, cur.offset as int),
        decreases remaining(deb@.len() as int, cur.offset as int),
    {
        let (start, _hlen) = match cur.member_header_range() {
            Some(v) => v,
            None => {
                return Err(Error::NoSuchMember);
            },
        };
        let start_us = start as usize;
        if deb.len() - start_us < 60 {
            return Err(Error::Truncated);
        }
        let header = subrange_vec(deb, start_us, start_us + 60);
        let ghost pre = cur;
        let m = match cur.next(&header) {
            Ok(Some(m)) => m,
            Ok(None) => {
                return Err(Error::NoSuchMember);
            },
            Err(e) => {
                return Err(e);
            },
        };
        if is_data_identifier(&m.header.identifier) {
            proof {
                assert(scan_from(deb@, pre.offset as int) == ScanOutcome::Found(
                    m.body_offset as int,
                    m.body_len as int,
                ));
            }
            return Ok((m.body_offset, m.body_len));
        }
        proof {
            assert(scan_from(deb@, pre.offset as int) == scan_from(
                deb@,
                pre.offset + 60 + m.body_len,
            ));
            if pre.offset + 60 + m.body_len > u64::MAX {
                assert(scan_from(deb@, pre.offset + 60 + m.body_len) == ScanOutcome::NoMember);
                assert(scan_from(deb@, cur.offset as int) == ScanOutcome::NoMember);
            }
        }
    }
}

/// Whether a trimmed identifier is `data.tar.xz`.
pub fn is_data_identifier(id: &Vec<u8>) -> (r: bool)
    ensures
        r == (id@ == data_tar_xz()),
{
    if id.len() != 11 {
        proof {
            assert(data_tar_xz().len() == 11);
        }
        return false;
    }
    let r = id[0] == 0x64 && id[1] == 0x61 && id[2] == 0x74 && id[3] == 0x61 && id[4] == 0x2e
        && id[5] == 0x74 && id[6] == 0x61 && id[7] == 0x72 && id[8] == 0x2e && id[9] == 0x78
        && id[10] == 0x7a;
    proof {
        if r {
            assert(id@ =~= data_tar_xz());
        } else {
            if id@ == data_tar_xz() {
                assert(id@[0] == 0x64 && id@[1] == 0x61 && id@[2] == 0x74 && id@[3] == 0x61
                    && id@[4] == 0x2e && id@[5] == 0x74 && id@[6] == 0x61 && id@[7] == 0x72
                    && id@[8] == 0x2e && id@[9] == 0x78 && id@[10] == 0x7a);
            }
        }
    }
    r
}

} // verus!
