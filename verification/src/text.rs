//! Byte-level text helpers: ASCII whitespace trimming and decimal, hexadecimal
//! and octal numeral parsing, each pinned to a mathematical value function.

use vstd::prelude::*;

verus! {

/// ASCII whitespace: space, tab, line feed, vertical tab, form feed,
/// carriage return.
pub open spec fn is_ws(b: u8) -> bool {
    b == 0x20 || (0x09 <= b && b <= 0x0d)
}

/// Bytes with the leading whitespace run removed.
pub open spec fn ltrim(s: Seq<u8>) -> Seq<u8>
    decreases s.len(),
{
    if s.len() > 0 && is_ws(s[0]) {
        ltrim(s.drop_first())
    } else {
        s
    }
}

/// Bytes with the trailing whitespace run removed.
pub open spec fn rtrim(s: Seq<u8>) -> Seq<u8>
    decreases s.len(),
{
    if s.len() > 0 && is_ws(s.last()) {
        rtrim(s.drop_last())
    } else {
        s
    }
}

/// Bytes with both whitespace runs removed.
pub open spec fn trim(s: Seq<u8>) -> Seq<u8> {
    rtrim(ltrim(s))
}

pub open spec fn is_trimmed(s: Seq<u8>) -> bool {
    trim(s) == s
}

proof fn lemma_ltrim_at(s: Seq<u8>, lo: int)
    requires
        0 <= lo <= s.len(),
        forall|j: int| 0 <= j < lo ==> is_ws(s[j]),
        lo < s.len() ==> !is_ws(s[lo as int]),
    ensures
        ltrim(s) == s.subrange(lo, s.len() as int),
    decreases lo,
{
    if lo == 0 {
        if s.len() > 0 && is_ws(s[0]) {
            assert(false);
        }
        assert(s.subrange(0, s.len() as int) =~= s);
    } else {
        assert(is_ws(s[0]));
        let t = s.drop_first();
        assert(forall|j: int| 0 <= j < lo - 1 ==> is_ws(t[j]));
        lemma_ltrim_at(t, lo - 1);
        assert(t.subrange(lo - 1, t.len() as int) =~= s.subrange(lo, s.len() as int));
    }
}

proof fn lemma_rtrim_at(s: Seq<u8>, hi: int)
    requires
        0 <= hi <= s.len(),
        forall|j: int| hi <= j < s.len() ==> is_ws(s[j]),
        hi > 0 ==> !is_ws(s[hi - 1]),
    ensures
        rtrim(s) == s.subrange(0, hi),
    decreases s.len() - hi,
{
    if hi == s.len() {
        if s.len() > 0 && is_ws(s.last()) {
            assert(false);
        }
        assert(s.subrange(0, s.len() as int) =~= s);
    } else {
        assert(is_ws(s.last()));
        let t = s.drop_last();
        assert(forall|j: int| hi <= j < t.len() ==> t[j] == s[j]);
        lemma_rtrim_at(t, hi);
        assert(t.subrange(0, hi) =~= s.subrange(0, hi));
    }
}

/// A sequence of nothing but whitespace trims to nothing.
pub proof fn lemma_trim_all_ws(s: Seq<u8>)
    requires
        forall|j: int| 0 <= j < s.len() ==> is_ws(s[j]),
    ensures
        trim(s).len() == 0,
{
    lemma_ltrim_at(s, s.len() as int);
    assert(ltrim(s) =~= Seq::<u8>::empty());
    assert(rtrim(Seq::<u8>::empty()).len() == 0);
}

/// A trimmed sequence is nonempty only with non-whitespace ends; trimming it
/// again changes nothing.
pub proof fn lemma_trim_shape(s: Seq<u8>)
    ensures
        trim(s).len() <= s.len(),
        trim(s).len() > 0 ==> !is_ws(trim(s)[0]) && !is_ws(trim(s).last()),
        is_trimmed(trim(s)),
    decreases s.len(),
{
    lemma_ltrim_shape(s);
    let l = ltrim(s);
    lemma_rtrim_shape(l);
    let r = rtrim(l);
    // r has non-ws ends (when nonempty), so ltrim(r) == r and rtrim(ltrim(r)) == r.
    if r.len() > 0 {
        lemma_ltrim_at(r, 0);
        assert(ltrim(r) =~= r);
        lemma_rtrim_at(r, r.len() as int);
        assert(rtrim(r) =~= r);
    } else {
        assert(ltrim(r) == r);
        assert(rtrim(r) == r);
    }
}

proof fn lemma_ltrim_shape(s: Seq<u8>)
    ensures
        ltrim(s).len() <= s.len(),
        ltrim(s).len() > 0 ==> !is_ws(ltrim(s)[0]),
        ltrim(s).len() > 0 ==> ltrim(s).last() == s.last(),
    decreases s.len(),
{
    if s.len() > 0 && is_ws(s[0]) {
        lemma_ltrim_shape(s.drop_first());
    }
}

proof fn lemma_rtrim_shape(s: Seq<u8>)
    ensures
        rtrim(s).len() <= s.len(),
        rtrim(s).len() > 0 ==> !is_ws(rtrim(s).last()),
        rtrim(s).len() > 0 ==> rtrim(s)[0] == s[0],
    decreases s.len(),
{
    if s.len() > 0 && is_ws(s.last()) {
        lemma_rtrim_shape(s.drop_last());
    }
}

/// Copy of `s[lo..hi]`.
pub fn subrange_vec(s: &Vec<u8>, lo: usize, hi: usize) -> (r: Vec<u8>)
    requires
        lo <= hi <= s@.len(),
    ensures
        r@ == s@.subrange(lo as int, hi as int),
{
    let mut r: Vec<u8> = Vec::new();
    let mut i: usize = lo;
    while i < hi
        invariant
            lo <= i <= hi <= s@.len(),
            r@ == s@.subrange(lo as int, i as int),
        decreases hi - i,
    {
        r.push(s[i]);
        i = i + 1;
        assert(r@ =~= s@.subrange(lo as int, i as int));
    }
    r
}

/// The whitespace-trimmed copy of `s[lo..hi]`.
pub fn trim_range(s: &Vec<u8>, lo: usize, hi: usize) -> (r: Vec<u8>)
    requires
        lo <= hi <= s@.len(),
    ensures
        r@ == trim(s@.subrange(lo as int, hi as int)),
{
    let ghost sub = s@.subrange(lo as int, hi as int);
    let mut a: usize = lo;
    while a < hi && is_ws_byte(s[a])
        invariant
            lo <= a <= hi <= s@.len(),
            forall|j: int| lo <= j < a ==> is_ws(s@[j]),
        decreases hi - a,
    {
        a = a + 1;
    }
    let mut b: usize = hi;
    while b > a && is_ws_byte(s[b - 1])
        invariant
            lo <= a <= b <= hi <= s@.len(),
            forall|j: int| b <= j < hi ==> is_ws(s@[j]),
            a < hi ==> !is_ws(s@[a as int]),
        decreases b,
    {
        b = b - 1;
    }
    proof {
        assert(forall|j: int| 0 <= j < a - lo ==> is_ws(sub[j]));
        assert(a < hi ==> !is_ws(sub[a - lo]));
        lemma_ltrim_at(sub, a - lo);
        let l = sub.subrange(a - lo, sub.len() as int);
        assert(forall|j: int| b - a <= j < l.len() ==> is_ws(l[j]));
        assert(b - a > 0 ==> !is_ws(l[b - a - 1]));
        lemma_rtrim_at(l, b - a);
        assert(l.subrange(0, b - a) =~= s@.subrange(a as int, b as int));
    }
    subrange_vec(s, a, b)
}

/// Append all of `src` to `dst`.
pub fn append_bytes(dst: &mut Vec<u8>, src: &Vec<u8>)
    ensures
        final(dst)@ == old(dst)@ + src@,
{
    let mut i: usize = 0;
    while i < src.len()
        invariant
            0 <= i <= src@.len(),
            dst@ == old(dst)@ + src@.subrange(0, i as int),
        decreases src@.len() - i,
    {
        dst.push(src[i]);
        i = i + 1;
        proof {
            assert(dst@ =~= old(dst)@ + src@.subrange(0, i as int));
        }
    }
    proof {
        assert(src@.subrange(0, src@.len() as int) =~= src@);
    }
}

/// Executable twin of [`is_ws`].
pub fn is_ws_byte(b: u8) -> (r: bool)
    ensures
        r == is_ws(b),
{
    b == 0x20 || (0x09 <= b && b <= 0x0d)
}

/// Byte-wise equality of two vectors.
pub fn bytes_eq(a: &Vec<u8>, b: &Vec<u8>) -> (r: bool)
    ensures
        r == (a@ == b@),
{
    if a.len() != b.len() {
        return false;
    }
    let mut i: usize = 0;
    while i < a.len()
        invariant
            a@.len() == b@.len(),
            0 <= i <= a@.len(),
            forall|j: int| 0 <= j < i ==> a@[j] == b@[j],
        decreases a@.len() - i,
    {
        if a[i] != b[i] {
            return false;
        }
        i = i + 1;
    }
    proof {
        assert(a@ =~= b@);
    }
    true
}

/// Index of the first line feed in `s` at or after `pos`, or `s.len()` if
/// none.
pub open spec fn find_newline(s: Seq<u8>, pos: int) -> int
    decreases s.len() - pos,
{
    if pos < 0 || pos >= s.len() {
        s.len() as int
    } else if s[pos] == 0x0a {
        pos
    } else {
        find_newline(s, pos + 1)
    }
}

pub proof fn lemma_find_nl_bounds(s: Seq<u8>, pos: int)
    requires
        0 <= pos <= s.len(),
    ensures
        pos <= find_newline(s, pos) <= s.len(),
    decreases s.len() - pos,
{
    if pos < s.len() && s[pos] != 0x0a {
        lemma_find_nl_bounds(s, pos + 1);
    }
}

proof fn lemma_find_nl_at(s: Seq<u8>, pos: int, i: int)
    requires
        0 <= pos <= i <= s.len(),
        forall|j: int| pos <= j < i ==> s[j] != 0x0a,
        i < s.len() ==> s[i] == 0x0a,
    ensures
        find_newline(s, pos) == if i < s.len() { i } else { s.len() as int },
    decreases i - pos,
{
    if pos < i {
        lemma_find_nl_at(s, pos + 1, i);
    }
}

/// Executable twin of [`find_newline`].
pub fn find_nl(s: &Vec<u8>, pos: usize) -> (r: usize)
    requires
        pos <= s@.len(),
    ensures
        r == find_newline(s@, pos as int),
        pos <= r <= s@.len(),
{
    let mut i: usize = pos;
    while i < s.len()
        invariant
            pos <= i <= s@.len(),
            forall|j: int| pos <= j < i ==> s@[j] != 0x0a,
        decreases s@.len() - i,
    {
        if s[i] == 0x0a {
            proof {
                lemma_find_nl_at(s@, pos as int, i as int);
            }
            return i;
        }
        i = i + 1;
    }
    proof {
        lemma_find_nl_at(s@, pos as int, s@.len() as int);
    }
    i
}

pub open spec fn is_digit(b: u8) -> bool {
    0x30 <= b && b <= 0x39
}

pub open spec fn all_digits(s: Seq<u8>) -> bool {
    forall|i: int| 0 <= i < s.len() ==> is_digit(#[trigger] s[i])
}

/// Value of an ASCII decimal numeral, most significant digit first.
pub open spec fn dec_val(s: Seq<u8>) -> int
    decreases s.len(),
{
    if s.len() == 0 {
        0
    } else {
        dec_val(s.drop_last()) * 10 + (s.last() - 0x30)
    }
}

pub proof fn lemma_dec_val_nonneg(s: Seq<u8>)
    requires
        all_digits(s),
    ensures
        dec_val(s) >= 0,
    decreases s.len(),
{
    if s.len() > 0 {
        assert(all_digits(s.drop_last())) by {
            assert(forall|i: int| 0 <= i < s.len() - 1 ==> s.drop_last()[i] == s[i]);
        }
        lemma_dec_val_nonneg(s.drop_last());
    }
}

proof fn lemma_dec_val_extend(s: Seq<u8>, i: int)
    requires
        0 <= i < s.len(),
    ensures
        dec_val(s.subrange(0, i + 1)) == dec_val(s.subrange(0, i)) * 10 + (s[i] - 0x30),
{
    let p = s.subrange(0, i + 1);
    assert(p.drop_last() =~= s.subrange(0, i));
    assert(p.last() == s[i]);
}

proof fn lemma_dec_val_prefix_le(s: Seq<u8>, i: int)
    requires
        all_digits(s),
        0 <= i <= s.len(),
    ensures
        dec_val(s.subrange(0, i)) <= dec_val(s),
    decreases s.len() - i,
{
    if i == s.len() {
        assert(s.subrange(0, i) =~= s);
    } else {
        lemma_dec_val_extend(s, i);
        let a = dec_val(s.subrange(0, i));
        assert(all_digits(s.subrange(0, i))) by {
            assert(forall|j: int| 0 <= j < i ==> s.subrange(0, i)[j] == s[j]);
        }
        lemma_dec_val_nonneg(s.subrange(0, i));
        assert(a <= a * 10 + (s[i] - 0x30)) by (nonlinear_arith)
            requires a >= 0 && s[i] >= 0x30;
        lemma_dec_val_prefix_le(s, i + 1);
    }
}

/// Parse an ASCII decimal numeral into a 64-bit value.  Succeeds exactly on a
/// nonempty all-digit input whose value fits.
pub fn parse_decimal(s: &Vec<u8>) -> (r: Option<u64>)
    ensures
        match r {
            Some(v) => s@.len() > 0 && all_digits(s@) && v == dec_val(s@),
            None => s@.len() == 0 || !all_digits(s@) || dec_val(s@) > u64::MAX,
        },
{
    if s.len() == 0 {
        return None;
    }
    let mut acc: u64 = 0;
    let mut i: usize = 0;
    while i < s.len()
        invariant
            0 <= i <= s@.len(),
            forall|j: int| 0 <= j < i ==> is_digit(#[trigger] s@[j]),
            acc == dec_val(s@.subrange(0, i as int)),
        decreases s@.len() - i,
    {
        let b = s[i];
        if b < 0x30 || b > 0x39 {
            return None;
        }
        let d = (b - 0x30) as u64;
        proof {
            lemma_dec_val_extend(s@, i as int);
        }
        acc = match acc.checked_mul(10) {
            Some(m) => match m.checked_add(d) {
                Some(a) => a,
                None => {
                    proof {
                        overflow_case(s@, i as int, acc as int, d as int);
                    }
                    return None;
                },
            },
            None => {
                proof {
                    overflow_case(s@, i as int, acc as int, d as int);
                }
                return None;
            },
        };
        i = i + 1;
    }
    proof {
        assert(s@.subrange(0, s@.len() as int) =~= s@);
    }
    Some(acc)
}

proof fn overflow_case(s: Seq<u8>, i: int, acc: int, d: int)
    requires
        0 <= i < s.len(),
        forall|j: int| 0 <= j <= i ==> is_digit(#[trigger] s[j]),
        acc == dec_val(s.subrange(0, i)),
        d == s[i] - 0x30,
        acc * 10 + d > u64::MAX,
    ensures
        !all_digits(s) || dec_val(s) > u64::MAX,
{
    if all_digits(s) {
        lemma_dec_val_extend(s, i);
        lemma_dec_val_prefix_le(s, i + 1);
    }
}

pub open spec fn is_lower_hex_digit(b: u8) -> bool {
    is_digit(b) || (0x61 <= b && b <= 0x66)
}

pub open spec fn all_lower_hex(s: Seq<u8>) -> bool {
    forall|i: int| 0 <= i < s.len() ==> is_lower_hex_digit(#[trigger] s[i])
}

pub open spec fn hex_digit_val(b: u8) -> int {
    if is_digit(b) {
        b - 0x30
    } else {
        b - 0x61 + 10
    }
}

/// Value of an ASCII lowercase hexadecimal numeral, most significant digit
/// first.
pub open spec fn hex_val(s: Seq<u8>) -> int
    decreases s.len(),
{
    if s.len() == 0 {
        0
    } else {
        hex_val(s.drop_last()) * 16 + hex_digit_val(s.last())
    }
}

spec fn pow16(n: nat) -> int
    decreases n,
{
    if n == 0 {
        1
    } else {
        16 * pow16((n - 1) as nat)
    }
}

proof fn lemma_hex_val_bound(s: Seq<u8>)
    requires
        all_lower_hex(s),
    ensures
        0 <= hex_val(s) < pow16(s.len()),
    decreases s.len(),
{
    if s.len() == 0 {
    } else {
        let p = s.drop_last();
        assert(all_lower_hex(p)) by {
            assert(forall|i: int| 0 <= i < p.len() ==> p[i] == s[i]);
        }
        lemma_hex_val_bound(p);
        assert(hex_val(p) * 16 <= (pow16(p.len()) - 1) * 16) by (nonlinear_arith)
            requires hex_val(p) <= pow16(p.len()) - 1;
        assert(hex_val(p) * 16 >= 0) by (nonlinear_arith)
            requires hex_val(p) >= 0;
    }
}

proof fn lemma_pow16_mono(a: nat, b: nat)
    requires
        a <= b,
    ensures
        pow16(a) <= pow16(b),
    decreases b,
{
    lemma_pow16_pos(a);
    if a < b {
        lemma_pow16_mono(a, (b - 1) as nat);
        lemma_pow16_pos((b - 1) as nat);
        assert(pow16((b - 1) as nat) <= 16 * pow16((b - 1) as nat)) by (nonlinear_arith)
            requires pow16((b - 1) as nat) >= 1;
        assert(pow16(b) == 16 * pow16((b - 1) as nat));
    }
}

proof fn lemma_pow16_pos(n: nat)
    ensures
        pow16(n) >= 1,
    decreases n,
{
    if n > 0 {
        lemma_pow16_pos((n - 1) as nat);
    }
}

proof fn lemma_hex_val_extend(s: Seq<u8>, i: int)
    requires
        0 <= i < s.len(),
    ensures
        hex_val(s.subrange(0, i + 1)) == hex_val(s.subrange(0, i)) * 16 + hex_digit_val(s[i]),
{
    let p = s.subrange(0, i + 1);
    assert(p.drop_last() =~= s.subrange(0, i));
    assert(p.last() == s[i]);
}

/// Parse an ASCII lowercase hexadecimal numeral of at most 16 digits.
pub fn parse_lower_hex(s: &Vec<u8>, lo: usize, hi: usize) -> (r: u64)
    requires
        lo <= hi <= s@.len(),
        hi - lo <= 16,
        all_lower_hex(s@.subrange(lo as int, hi as int)),
    ensures
        r == hex_val(s@.subrange(lo as int, hi as int)),
{
    let ghost sub = s@.subrange(lo as int, hi as int);
    let mut acc: u64 = 0;
    let mut i: usize = lo;
    while i < hi
        invariant
            lo <= i <= hi <= s@.len(),
            hi - lo <= 16,
            all_lower_hex(sub),
            sub == s@.subrange(lo as int, hi as int),
            acc == hex_val(sub.subrange(0, i - lo)),
        decreases hi - i,
    {
        let b = s[i];
        assert(sub[i - lo] == s@[i as int]);
        assert(is_lower_hex_digit(b));
        let d: u64 = if b >= 0x61 {
            (b - 0x61 + 10) as u64
        } else {
            (b - 0x30) as u64
        };
        assert(d == hex_digit_val(b));
        proof {
            let p = sub.subrange(0, i - lo);
            assert(all_lower_hex(p)) by {
                assert(forall|j: int| 0 <= j < p.len() ==> p[j] == sub[j]);
            }
            lemma_hex_val_bound(p);
            lemma_pow16_mono(p.len(), 15);
            assert(pow16(15) == 0x1000000000000000) by {
                reveal_with_fuel(pow16, 17);
            }
            assert(acc * 16 <= (pow16(15) - 1) * 16) by (nonlinear_arith)
                requires acc <= pow16(15) - 1;
            lemma_hex_val_extend(sub, i - lo);
        }
        acc = acc * 16 + d;
        i = i + 1;
    }
    assert(sub.subrange(0, hi - lo) =~= sub);
    acc
}

/// Executable check that `s[lo..hi]` is all lowercase hex digits.
pub fn check_lower_hex(s: &Vec<u8>, lo: usize, hi: usize) -> (r: bool)
    requires
        lo <= hi <= s@.len(),
    ensures
        r == all_lower_hex(s@.subrange(lo as int, hi as int)),
{
    let ghost sub = s@.subrange(lo as int, hi as int);
    let mut i: usize = lo;
    while i < hi
        invariant
            lo <= i <= hi <= s@.len(),
            sub == s@.subrange(lo as int, hi as int),
            forall|j: int| 0 <= j < i - lo ==> is_lower_hex_digit(#[trigger] sub[j]),
        decreases hi - i,
    {
        let b = s[i];
        if !((0x30 <= b && b <= 0x39) || (0x61 <= b && b <= 0x66)) {
            assert(sub[i - lo] == b);
            return false;
        }
        assert(sub[i - lo] == b);
        i = i + 1;
    }
    true
}

} // verus!
