//! Minimal tar demultiplexer: walk 512-byte header blocks of a tar stream
//! held in memory and return the payload of the entry with a given path.
//!
//! An entry's path is its NUL-terminated name field, prefixed by the ustar
//! prefix field when that is nonempty.  The walk stops at an all-zero
//! header block or when the stream ends; payloads are clipped to the bytes
//! actually present, mirroring a streaming reader that treats a short
//! source as end of file.

use vstd::prelude::*;

use crate::ar::remaining;
use crate::text::subrange_vec;

verus! {

/// Failure while walking the tar stream.
#[derive(Clone, Copy, PartialEq, Eq, Structural, Debug)]
pub enum Error {
    /// No entry with the requested path before the stream ended.
    NotFound,
    /// An entry's size field is not a parseable octal numeral.
    BadSize,
}

/// Padding bytes allowed around a tar numeral: NUL and space.
pub open spec fn is_pad(b: u8) -> bool {
    b == 0x00 || b == 0x20
}

pub open spec fn is_oct_digit(b: u8) -> bool {
    0x30 <= b && b <= 0x37
}

pub open spec fn all_oct_digits(s: Seq<u8>) -> bool {
    forall|i: int| 0 <= i < s.len() ==> is_oct_digit(#[trigger] s[i])
}

/// Value of an ASCII octal numeral, most significant digit first.
pub open spec fn oct_val(s: Seq<u8>) -> int
    decreases s.len(),
{
    if s.len() == 0 {
        0
    } else {
        oct_val(s.drop_last()) * 8 + (s.last() - 0x30)
    }
}

/// Index of the first non-pad byte at or after `from`, or `s.len()`.
pub open spec fn skip_pad(s: Seq<u8>, from: int) -> int
    decreases s.len() - from,
{
    if from < 0 || from >= s.len() {
        s.len() as int
    } else if is_pad(s[from]) {
        skip_pad(s, from + 1)
    } else {
        from
    }
}

/// Index of the first pad byte at or after `from`, or `s.len()`.
pub open spec fn until_pad(s: Seq<u8>, from: int) -> int
    decreases s.len() - from,
{
    if from < 0 || from >= s.len() {
        s.len() as int
    } else if !is_pad(s[from]) {
        until_pad(s, from + 1)
    } else {
        from
    }
}

/// A tar numeral field: optional padding, octal digits, optional padding.
pub open spec fn numeral_field_ok(f: Seq<u8>) -> bool {
    let a = skip_pad(f, 0);
    let b = until_pad(f, a);
    &&& a < f.len()
    &&& all_oct_digits(f.subrange(a, b))
    &&& forall|j: int| b <= j < f.len() ==> is_pad(#[trigger] f[j])
}

pub open spec fn numeral_field_val(f: Seq<u8>) -> int {
    oct_val(f.subrange(skip_pad(f, 0), until_pad(f, skip_pad(f, 0))))
}

spec fn pow8(n: nat) -> int
    decreases n,
{
    if n == 0 {
        1
    } else {
        8 * pow8((n - 1) as nat)
    }
}

proof fn lemma_pow8_pos(n: nat)
    ensures
        pow8(n) >= 1,
    decreases n,
{
    if n > 0 {
        lemma_pow8_pos((n - 1) as nat);
    }
}

proof fn lemma_pow8_mono(a: nat, b: nat)
    requires
        a <= b,
    ensures
        pow8(a) <= pow8(b),
    decreases b,
{
    lemma_pow8_pos(a);
    if a < b {
        lemma_pow8_mono(a, (b - 1) as nat);
        lemma_pow8_pos((b - 1) as nat);
        assert(pow8((b - 1) as nat) <= 8 * pow8((b - 1) as nat)) by (nonlinear_arith)
            requires pow8((b - 1) as nat) >= 1;
    }
}

proof fn lemma_oct_val_bound(s: Seq<u8>)
    requires
        all_oct_digits(s),
    ensures
        0 <= oct_val(s) < pow8(s.len()),
    decreases s.len(),
{
    if s.len() > 0 {
        let p = s.drop_last();
        assert(all_oct_digits(p)) by {
            assert(forall|i: int| 0 <= i < p.len() ==> p[i] == s[i]);
        }
        lemma_oct_val_bound(p);
        assert(oct_val(p) * 8 <= (pow8(p.len()) - 1) * 8) by (nonlinear_arith)
            requires oct_val(p) <= pow8(p.len()) - 1;
        assert(oct_val(p) * 8 >= 0) by (nonlinear_arith)
            requires oct_val(p) >= 0;
    }
}

proof fn lemma_oct_val_extend(s: Seq<u8>, i: int)
    requires
        0 <= i < s.len(),
    ensures
        oct_val(s.subrange(0, i + 1)) == oct_val(s.subrange(0, i)) * 8 + (s[i] - 0x30),
{
    let p = s.subrange(0, i + 1);
    assert(p.drop_last() =~= s.subrange(0, i));
    assert(p.last() == s[i]);
}

proof fn lemma_skip_pad_at(s: Seq<u8>, from: int, i: int)
    requires
        0 <= from <= i <= s.len(),
        forall|j: int| from <= j < i ==> is_pad(s[j]),
        i < s.len() ==> !is_pad(s[i]),
    ensures
        skip_pad(s, from) == i,
    decreases i - from,
{
    if from < i {
        lemma_skip_pad_at(s, from + 1, i);
    }
}

proof fn lemma_until_pad_at(s: Seq<u8>, from: int, i: int)
    requires
        0 <= from <= i <= s.len(),
        forall|j: int| from <= j < i ==> !is_pad(s[j]),
        i < s.len() ==> is_pad(s[i]),
    ensures
        until_pad(s, from) == i,
    decreases i - from,
{
    if from < i {
        lemma_until_pad_at(s, from + 1, i);
    }
}

proof fn lemma_skip_pad_bounds(s: Seq<u8>, from: int)
    requires
        0 <= from <= s.len(),
    ensures
        from <= skip_pad(s, from) <= s.len(),
    decreases s.len() - from,
{
    if from < s.len() && is_pad(s[from]) {
        lemma_skip_pad_bounds(s, from + 1);
    }
}

proof fn lemma_until_pad_bounds(s: Seq<u8>, from: int)
    requires
        0 <= from <= s.len(),
    ensures
        from <= until_pad(s, from) <= s.len(),
    decreases s.len() - from,
{
    if from < s.len() && !is_pad(s[from]) {
        lemma_until_pad_bounds(s, from + 1);
    }
}

proof fn lemma_until_pad_ge(s: Seq<u8>, from: int, i: int)
    requires
        0 <= from <= i <= s.len(),
        forall|j: int| from <= j < i ==> !is_pad(s[j]),
    ensures
        until_pad(s, from) >= i,
    decreases i - from,
{
    lemma_until_pad_bounds(s, from);
    if from < i {
        lemma_until_pad_ge(s, from + 1, i);
    }
}

/// Parse a tar numeral field of at most 12 bytes (the size field's width).
/// Succeeds exactly on a well-formed field; the value then fits easily in
/// 64 bits.
pub fn parse_tar_numeral(f: &Vec<u8>) -> (r: Option<u64>)
    requires
        f@.len() <= 12,
    ensures
        match r {
            Some(v) => numeral_field_ok(f@) && v == numeral_field_val(f@),
            None => !numeral_field_ok(f@),
        },
{
    let n = f.len();
    let mut a: usize = 0;
    while a < n && (f[a] == 0x00 || f[a] == 0x20)
        invariant
            0 <= a <= n == f@.len(),
            forall|j: int| 0 <= j < a ==> is_pad(f@[j]),
        decreases n - a,
    {
        a = a + 1;
    }
    proof {
        lemma_skip_pad_at(f@, 0, a as int);
    }
    if a == n {
        return None;
    }
    let mut b: usize = a;
    let mut acc: u64 = 0;
    while b < n && !(f[b] == 0x00 || f[b] == 0x20)
        invariant
            0 <= a <= b <= n == f@.len(),
            n <= 12,
            a < n,
            skip_pad(f@, 0) == a,
            forall|j: int| a <= j < b ==> !is_pad(f@[j]),
            forall|j: int| a <= j < b ==> is_oct_digit(#[trigger] f@[j]),
            acc == oct_val(f@.subrange(a as int, b as int)),
            acc < pow8((b - a) as nat),
        decreases n - b,
    {
        let c = f[b];
        if c < 0x30 || c > 0x37 {
            // The byte is neither pad nor an octal digit: the field is malformed.
            proof {
                assert(!is_pad(f@[b as int]));
                lemma_until_pad_ge(f@, a as int, b as int + 1);
                lemma_until_pad_bounds(f@, a as int);
                let bb = until_pad(f@, a as int);
                assert(a <= b < bb <= f@.len());
                assert(f@.subrange(a as int, bb)[b - a] == f@[b as int]);
                assert(!is_oct_digit(f@.subrange(a as int, bb)[b - a]));
                assert(!all_oct_digits(f@.subrange(a as int, bb)));
            }
            return None;
        }
        proof {
            let p = f@.subrange(a as int, b as int);
            let q = f@.subrange(a as int, b as int + 1);
            assert(q.drop_last() =~= p);
            assert(q.last() == f@[b as int]);
            lemma_pow8_mono((b - a + 1) as nat, 12);
            assert(pow8(12) == 0x1000000000) by {
                reveal_with_fuel(pow8, 14);
            }
            assert(acc * 8 <= (pow8((b - a) as nat) - 1) * 8) by (nonlinear_arith)
                requires acc <= pow8((b - a) as nat) - 1;
            assert(8 * pow8((b - a) as nat) == pow8((b - a + 1) as nat));
        }
        acc = acc * 8 + ((c - 0x30) as u64);
        b = b + 1;
    }
    proof {
        lemma_until_pad_at(f@, a as int, b as int);
    }
    let mut t: usize = b;
    while t < n
        invariant
            0 <= a <= b <= t <= n == f@.len(),
            a < n,
            skip_pad(f@, 0) == a,
            until_pad(f@, a as int) == b,
            forall|j: int| b <= j < t ==> is_pad(#[trigger] f@[j]),
        decreases n - t,
    {
        if !(f[t] == 0x00 || f[t] == 0x20) {
            return None;
        }
        t = t + 1;
    }
    Some(acc)
}

/// Index of the first NUL at or after `from`, or `s.len()`.
pub open spec fn find_nul(s: Seq<u8>, from: int) -> int
    decreases s.len() - from,
{
    if from < 0 || from >= s.len() {
        s.len() as int
    } else if s[from] == 0 {
        from
    } else {
        find_nul(s, from + 1)
    }
}

proof fn lemma_find_nul_at(s: Seq<u8>, from: int, i: int)
    requires
        0 <= from <= i <= s.len(),
        forall|j: int| from <= j < i ==> s[j] != 0,
        i < s.len() ==> s[i] == 0,
    ensures
        find_nul(s, from) == if i < s.len() { i } else { s.len() as int },
    decreases i - from,
{
    if from < i {
        lemma_find_nul_at(s, from + 1, i);
    }
}

/// The bytes of `s` before its first NUL.
pub open spec fn upto_nul(s: Seq<u8>) -> Seq<u8> {
    s.subrange(0, find_nul(s, 0))
}

/// Copy of `s[lo..hi]` truncated at its first NUL.
fn upto_nul_range(s: &Vec<u8>, lo: usize, hi: usize) -> (r: Vec<u8>)
    requires
        lo <= hi <= s@.len(),
    ensures
        r@ == upto_nul(s@.subrange(lo as int, hi as int)),
{
    let ghost sub = s@.subrange(lo as int, hi as int);
    let mut i: usize = lo;
    while i < hi && s[i] != 0
        invariant
            lo <= i <= hi <= s@.len(),
            forall|j: int| lo <= j < i ==> s@[j] != 0,
        decreases hi - i,
    {
        i = i + 1;
    }
    proof {
        assert(forall|j: int| 0 <= j < i - lo ==> sub[j] != 0);
        assert(i < hi ==> sub[i - lo] == 0);
        lemma_find_nul_at(sub, 0, i - lo);
    }
    subrange_vec(s, lo, i)
}

/// An entry's path: the ustar prefix field joined with the name field when
/// the prefix is nonempty, else the name field alone.  `h` is the 512-byte
/// header block.
pub open spec fn entry_path(h: Seq<u8>) -> Seq<u8> {
    let name = upto_nul(h.subrange(0, 100));
    let prefix = upto_nul(h.subrange(345, 500));
    if prefix.len() > 0 {
        prefix + seq![0x2fu8] + name
    } else {
        name
    }
}

/// The entry's size field.
pub open spec fn entry_size_ok(h: Seq<u8>) -> bool {
    numeral_field_ok(h.subrange(124, 136))
}

pub open spec fn entry_size(h: Seq<u8>) -> int {
    numeral_field_val(h.subrange(124, 136))
}

pub open spec fn all_zero(s: Seq<u8>) -> bool {
    forall|i: int| 0 <= i < s.len() ==> s[i] == 0
}

/// Payload bytes rounded up to whole 512-byte blocks.
pub open spec fn round512(n: int) -> int {
    ((n + 511) / 512) * 512
}

/// What walking the tar stream `s` from `off` for `path` yields:
/// the payload's offset and size, or no such entry, or a malformed size.
pub enum TarOutcome {
    Found(int, int),
    NotFound,
    BadSize,
}

/// Walk header blocks from `off` looking for an entry named `path`.
pub open spec fn tar_find(s: Seq<u8>, off: int, path: Seq<u8>) -> TarOutcome
    decreases remaining(s.len() as int, off),
    via tar_find_dec
{
    if off < 0 || off + 512 > s.len() {
        TarOutcome::NotFound
    } else {
        let h = s.subrange(off, off + 512);
        if all_zero(h) {
            TarOutcome::NotFound
        } else if !entry_size_ok(h) {
            TarOutcome::BadSize
        } else {
            let size = entry_size(h);
            if entry_path(h) == path {
                TarOutcome::Found(off + 512, size)
            } else {
                tar_find(s, off + 512 + round512(size), path)
            }
        }
    }
}

#[via_fn]
proof fn tar_find_dec(s: Seq<u8>, off: int, path: Seq<u8>) {
    if 0 <= off && off + 512 <= s.len() {
        let h = s.subrange(off, off + 512);
        if !all_zero(h) && entry_size_ok(h) {
            let f = h.subrange(124, 136);
            let a = skip_pad(f, 0);
            let b = until_pad(f, a);
            assert(all_oct_digits(f.subrange(a, b)));
            lemma_oct_val_bound(f.subrange(a, b));
            assert(entry_size(h) >= 0);
            assert(round512(entry_size(h)) >= 0) by (nonlinear_arith)
                requires entry_size(h) >= 0;
        }
    }
}

/// Find the entry named `path` in the in-memory tar stream `data` and
/// return its payload, clipped to the bytes present in the stream.
pub fn locate_entry(data: &Vec<u8>, path: &Vec<u8>) -> (r: Result<Vec<u8>, Error>)
    ensures
        match r {
            Ok(payload) => {
                &&& tar_find(data@, 0, path@) matches TarOutcome::Found(d, sz)
                    && payload@ == data@.subrange(
                    d,
                    if d + sz <= data@.len() {
                        d + sz
                    } else {
                        data@.len() as int
                    },
                )
            },
            Err(Error::NotFound) => tar_find(data@, 0, path@) == TarOutcome::NotFound,
            Err(Error::BadSize) => tar_find(data@, 0, path@) == TarOutcome::BadSize,
        },
{
    let mut off: usize = 0;
    loop
        invariant
            0 <= off <= data@.len(),
            tar_find(data@, 0, path@) == tar_find(data@, off as int, path@),
        decreases data@.len() - off,
    {
        if data.len() - off < 512 {
            return Err(Error::NotFound);
        }
        let hend: usize = off + 512;
        let mut zero = true;
        let mut i: usize = off;
        while i < hend
            invariant
                hend == off + 512,
                off <= i <= off + 512 <= data@.len(),
                zero == all_zero(data@.subrange(off as int, i as int)),
            decreases off + 512 - i,
        {
            let ghost pre = data@.subrange(off as int, i as int);
            if data[i] != 0 {
                zero = false;
            }
            i = i + 1;
            proof {
                let cur = data@.subrange(off as int, i as int);
                assert(cur.drop_last() =~= pre);
                assert(cur.last() == data@[i - 1]);
                assert(all_zero(cur) == (all_zero(pre) && data@[i - 1] == 0));
            }
        }
        let ghost h = data@.subrange(off as int, off as int + 512);
        if zero {
            return Err(Error::NotFound);
        }
        let szfield = subrange_vec(data, off + 124, off + 136);
        proof {
            assert(szfield@ =~= h.subrange(124, 136));
        }
        let size = match parse_tar_numeral(&szfield) {
            Some(v) => v,
            None => {
                return Err(Error::BadSize);
            },
        };
        let name = upto_nul_range(data, off, off + 100);
        proof {
            assert(data@.subrange(off as int, off as int + 100) =~= h.subrange(0, 100));
        }
        let prefix = upto_nul_range(data, off + 345, off + 500);
        proof {
            assert(data@.subrange(off as int + 345, off as int + 500) =~= h.subrange(345, 500));
        }
        let full = if prefix.len() > 0 {
            let mut p = prefix;
            p.push(0x2f);
            proof {
                assert(p@ =~= upto_nul(h.subrange(345, 500)) + seq![0x2fu8] + name@.subrange(
                    0,
                    0,
                ));
            }
            let mut k: usize = 0;
            while k < name.len()
                invariant
                    0 <= k <= name@.len(),
                    p@ == upto_nul(h.subrange(345, 500)) + seq![0x2fu8] + name@.subrange(
                        0,
                        k as int,
                    ),
                decreases name@.len() - k,
            {
                p.push(name[k]);
                k = k + 1;
                proof {
                    assert(p@ =~= upto_nul(h.subrange(345, 500)) + seq![0x2fu8] + name@.subrange(
                        0,
                        k as int,
                    ));
                }
            }
            proof {
                assert(name@.subrange(0, name@.len() as int) =~= name@);
            }
            p
        } else {
            name
        };
        proof {
            assert(full@ == entry_path(h));
        }
        if crate::text::bytes_eq(&full, path) {
            let d = off + 512;
            // clip the payload to the bytes present
            let avail = data.len() - d;
            let take: usize = if size <= avail as u64 {
                size as usize
            } else {
                avail
            };
            let payload = subrange_vec(data, d, d + take);
            return Ok(payload);
        }
        // advance past the payload blocks
        proof {
            let f = h.subrange(124, 136);
            let a = skip_pad(f, 0);
            lemma_skip_pad_bounds(f, 0);
            lemma_until_pad_bounds(f, a);
            let b = until_pad(f, a);
            lemma_oct_val_bound(f.subrange(a, b));
            lemma_pow8_mono(f.subrange(a, b).len() as nat, 12);
            assert(pow8(12) == 0x1000000000) by {
                reveal_with_fuel(pow8, 14);
            }
            assert(size < 0x1000000000);
        }
        let blocks = size / 512 + if size % 512 != 0 { 1u64 } else { 0u64 };
        let advance_u64: u64 = 512 + blocks * 512;
        proof {
            assert(blocks * 512 == round512(size as int)) by (nonlinear_arith)
                requires
                    size >= 0,
                    size < 0x1000000000,
                    blocks == size / 512 + if size % 512 != 0 { 1int } else { 0int },
            ;
        }
        let ghost preoff = off as int;
        if advance_u64 > (data.len() - off) as u64 {
            // the entry's payload runs past the end of the stream
            proof {
                assert(tar_find(data@, preoff, path@) == tar_find(
                    data@,
                    preoff + 512 + round512(size as int),
                    path@,
                ));
                assert(tar_find(data@, preoff + 512 + round512(size as int), path@)
                    == TarOutcome::NotFound);
            }
            return Err(Error::NotFound);
        }
        off = off + (advance_u64 as usize);
        proof {
            assert(tar_find(data@, preoff, path@) == tar_find(data@, off as int, path@));
        }
    }
}

} // verus!
