//! The remote-file protocol's metadata records and their wire encoding.
//!
//! A stat record is encoded as a 16-bit size prefix followed by the fields
//! in order, integers little-endian, strings as a 16-bit length and the
//! bytes.  A directory open returns the concatenation of its children's
//! encoded records; [`lemma_listing_round_trip`] proves that decoding such
//! a listing returns exactly the records that were encoded.

use vstd::prelude::*;

verus! {

/// File-identity kind carried in a qid: this tree only ever serves plain
/// directories and plain files.
#[derive(Clone, Copy, PartialEq, Eq, Structural, Debug)]
pub enum QidKind {
    Dir,
    File,
}

/// A file-identity token: kind, version, and a path number unique within
/// the server's lifetime.
#[derive(Clone, Copy, PartialEq, Eq, Structural, Debug)]
pub struct Qid {
    pub kind: QidKind,
    pub version: u32,
    pub path: u64,
}

/// The kind byte on the wire: the high bit marks a directory.
pub open spec fn kind_byte(k: QidKind) -> u8 {
    match k {
        QidKind::Dir => 0x80,
        QidKind::File => 0x00,
    }
}

/// A metadata record as served to clients.
#[derive(Clone, Debug)]
pub struct Stat {
    pub ty: u16,
    pub dev: u32,
    pub qid: Qid,
    pub mode: u32,
    pub atime: u32,
    pub mtime: u32,
    pub length: u64,
    pub name: Vec<u8>,
    pub uid: Vec<u8>,
    pub gid: Vec<u8>,
    pub muid: Vec<u8>,
    pub extension: Vec<u8>,
    pub nuid: u32,
    pub ngid: u32,
    pub nmuid: u32,
}

/// The mathematical value of a stat record.
pub struct StatV {
    pub ty: u16,
    pub dev: u32,
    pub qid: Qid,
    pub mode: u32,
    pub atime: u32,
    pub mtime: u32,
    pub length: u64,
    pub name: Seq<u8>,
    pub uid: Seq<u8>,
    pub gid: Seq<u8>,
    pub muid: Seq<u8>,
    pub extension: Seq<u8>,
    pub nuid: u32,
    pub ngid: u32,
    pub nmuid: u32,
}

impl View for Stat {
    type V = StatV;

    open spec fn view(&self) -> StatV {
        StatV {
            ty: self.ty,
            dev: self.dev,
            qid: self.qid,
            mode: self.mode,
            atime: self.atime,
            mtime: self.mtime,
            length: self.length,
            name: self.name@,
            uid: self.uid@,
            gid: self.gid@,
            muid: self.muid@,
            extension: self.extension@,
            nuid: self.nuid,
            ngid: self.ngid,
            nmuid: self.nmuid,
        }
    }
}

pub open spec fn le16(v: u16) -> Seq<u8> {
    seq![(v & 0xff) as u8, ((v >> 8) & 0xff) as u8]
}

pub open spec fn le32(v: u32) -> Seq<u8> {
    seq![
        (v & 0xff) as u8,
        ((v >> 8) & 0xff) as u8,
        ((v >> 16) & 0xff) as u8,
        ((v >> 24) & 0xff) as u8,
    ]
}

pub open spec fn le64(v: u64) -> Seq<u8> {
    seq![
        (v & 0xff) as u8,
        ((v >> 8) & 0xff) as u8,
        ((v >> 16) & 0xff) as u8,
        ((v >> 24) & 0xff) as u8,
        ((v >> 32) & 0xff) as u8,
        ((v >> 40) & 0xff) as u8,
        ((v >> 48) & 0xff) as u8,
        ((v >> 56) & 0xff) as u8,
    ]
}

pub open spec fn de16(b0: u8, b1: u8) -> u16 {
    (b0 as u16) | ((b1 as u16) << 8)
}

pub open spec fn de32(b0: u8, b1: u8, b2: u8, b3: u8) -> u32 {
    (b0 as u32) | ((b1 as u32) << 8) | ((b2 as u32) << 16) | ((b3 as u32) << 24)
}

pub open spec fn de64(b0: u8, b1: u8, b2: u8, b3: u8, b4: u8, b5: u8, b6: u8, b7: u8) -> u64 {
    (b0 as u64) | ((b1 as u64) << 8) | ((b2 as u64) << 16) | ((b3 as u64) << 24) | ((b4 as u64)
        << 32) | ((b5 as u64) << 40) | ((b6 as u64) << 48) | ((b7 as u64) << 56)
}

pub proof fn lemma_le16_rt(v: u16)
    ensures
        de16(le16(v)[0], le16(v)[1]) == v,
{
    assert((((v & 0xff) as u8) as u16) | (((((v >> 8) & 0xff) as u8) as u16) << 8) == v)
        by (bit_vector);
}

pub proof fn lemma_le32_rt(v: u32)
    ensures
        de32(le32(v)[0], le32(v)[1], le32(v)[2], le32(v)[3]) == v,
{
    assert((((v & 0xff) as u8) as u32) | (((((v >> 8) & 0xff) as u8) as u32) << 8) | (((((v >> 16)
        & 0xff) as u8) as u32) << 16) | (((((v >> 24) & 0xff) as u8) as u32) << 24) == v)
        by (bit_vector);
}

pub proof fn lemma_le64_rt(v: u64)
    ensures
        de64(
            le64(v)[0],
            le64(v)[1],
            le64(v)[2],
            le64(v)[3],
            le64(v)[4],
            le64(v)[5],
            le64(v)[6],
            le64(v)[7],
        ) == v,
{
    assert((((v & 0xff) as u8) as u64) | (((((v >> 8) & 0xff) as u8) as u64) << 8) | (((((v >> 16)
        & 0xff) as u8) as u64) << 16) | (((((v >> 24) & 0xff) as u8) as u64) << 24) | (((((v >> 32)
        & 0xff) as u8) as u64) << 32) | (((((v >> 40) & 0xff) as u8) as u64) << 40) | (((((v >> 48)
        & 0xff) as u8) as u64) << 48) | (((((v >> 56) & 0xff) as u8) as u64) << 56) == v)
        by (bit_vector);
}

/// A string on the wire: 16-bit length, then the bytes.
pub open spec fn enc_str(s: Seq<u8>) -> Seq<u8> {
    le16(s.len() as u16) + s
}

pub open spec fn enc_qid(q: Qid) -> Seq<u8> {
    seq![kind_byte(q.kind)] + le32(q.version) + le64(q.path)
}

/// A stat record's fields, without the size prefix.
pub open spec fn stat_inner(sv: StatV) -> Seq<u8> {
    le16(sv.ty) + le32(sv.dev) + enc_qid(sv.qid) + le32(sv.mode) + le32(sv.atime) + le32(sv.mtime)
        + le64(sv.length) + enc_str(sv.name) + enc_str(sv.uid) + enc_str(sv.gid) + enc_str(sv.muid)
        + enc_str(sv.extension) + le32(sv.nuid) + le32(sv.ngid) + le32(sv.nmuid)
}

/// A full stat record on the wire: 16-bit size prefix, then the fields.
pub open spec fn enc_stat(sv: StatV) -> Seq<u8> {
    le16(stat_inner(sv).len() as u16) + stat_inner(sv)
}

/// The record's strings are short enough for every length to fit its
/// 16-bit prefix.
pub open spec fn stat_wf(sv: StatV) -> bool {
    sv.name.len() + sv.uid.len() + sv.gid.len() + sv.muid.len() + sv.extension.len() <= 60000
}

pub proof fn lemma_stat_inner_len(sv: StatV)
    ensures
        stat_inner(sv).len() == 61 + sv.name.len() + sv.uid.len() + sv.gid.len() + sv.muid.len()
            + sv.extension.len(),
{
}

fn put16(out: &mut Vec<u8>, v: u16)
    ensures
        final(out)@ == old(out)@ + le16(v),
{
    out.push((v & 0xff) as u8);
    out.push(((v >> 8) & 0xff) as u8);
    proof {
        assert(out@ =~= old(out)@ + le16(v));
    }
}

fn put32(out: &mut Vec<u8>, v: u32)
    ensures
        final(out)@ == old(out)@ + le32(v),
{
    out.push((v & 0xff) as u8);
    out.push(((v >> 8) & 0xff) as u8);
    out.push(((v >> 16) & 0xff) as u8);
    out.push(((v >> 24) & 0xff) as u8);
    proof {
        assert(out@ =~= old(out)@ + le32(v));
    }
}

fn put64(out: &mut Vec<u8>, v: u64)
    ensures
        final(out)@ == old(out)@ + le64(v),
{
    out.push((v & 0xff) as u8);
    out.push(((v >> 8) & 0xff) as u8);
    out.push(((v >> 16) & 0xff) as u8);
    out.push(((v >> 24) & 0xff) as u8);
    out.push(((v >> 32) & 0xff) as u8);
    out.push(((v >> 40) & 0xff) as u8);
    out.push(((v >> 48) & 0xff) as u8);
    out.push(((v >> 56) & 0xff) as u8);
    proof {
        assert(out@ =~= old(out)@ + le64(v));
    }
}

fn put_bytes(out: &mut Vec<u8>, s: &Vec<u8>)
    ensures
        final(out)@ == old(out)@ + s@,
{
    let mut i: usize = 0;
    while i < s.len()
        invariant
            0 <= i <= s@.len(),
            out@ == old(out)@ + s@.subrange(0, i as int),
        decreases s@.len() - i,
    {
        out.push(s[i]);
        i = i + 1;
        proof {
            assert(out@ =~= old(out)@ + s@.subrange(0, i as int));
        }
    }
    proof {
        assert(s@.subrange(0, s@.len() as int) =~= s@);
    }
}

fn put_str(out: &mut Vec<u8>, s: &Vec<u8>)
    requires
        s@.len() <= 0xffff,
    ensures
        final(out)@ == old(out)@ + enc_str(s@),
{
    put16(out, s.len() as u16);
    put_bytes(out, s);
    proof {
        assert(out@ =~= old(out)@ + enc_str(s@));
    }
}

/// Encode one stat record, size prefix included.
pub fn encode_stat(st: &Stat) -> (r: Vec<u8>)
    requires
        stat_wf(st@),
    ensures
        r@ == enc_stat(st@),
{
    let mut inner: Vec<u8> = Vec::new();
    put16(&mut inner, st.ty);
    put32(&mut inner, st.dev);
    match st.qid.kind {
        QidKind::Dir => inner.push(0x80),
        QidKind::File => inner.push(0x00),
    }
    put32(&mut inner, st.qid.version);
    put64(&mut inner, st.qid.path);
    put32(&mut inner, st.mode);
    put32(&mut inner, st.atime);
    put32(&mut inner, st.mtime);
    put64(&mut inner, st.length);
    put_str(&mut inner, &st.name);
    put_str(&mut inner, &st.uid);
    put_str(&mut inner, &st.gid);
    put_str(&mut inner, &st.muid);
    put_str(&mut inner, &st.extension);
    put32(&mut inner, st.nuid);
    put32(&mut inner, st.ngid);
    put32(&mut inner, st.nmuid);
    proof {
        assert(inner@ =~= stat_inner(st@));
        lemma_stat_inner_len(st@);
    }
    let mut out: Vec<u8> = Vec::new();
    put16(&mut out, inner.len() as u16);
    put_bytes(&mut out, &inner);
    proof {
        assert(out@ =~= enc_stat(st@));
    }
    out
}

/// The concatenation of the records' encodings: a directory listing.
pub open spec fn enc_stats(svs: Seq<StatV>) -> Seq<u8>
    decreases svs.len(),
{
    if svs.len() == 0 {
        Seq::empty()
    } else {
        enc_stat(svs.first()) + enc_stats(svs.drop_first())
    }
}

pub proof fn lemma_enc_stats_push(svs: Seq<StatV>, sv: StatV)
    ensures
        enc_stats(svs.push(sv)) == enc_stats(svs) + enc_stat(sv),
    decreases svs.len(),
{
    let p = svs.push(sv);
    if svs.len() == 0 {
        assert(p.first() == sv);
        assert(p.drop_first() =~= Seq::<StatV>::empty());
        assert(enc_stats(p.drop_first()) == Seq::<u8>::empty());
        assert(enc_stats(p) == enc_stat(sv) + Seq::<u8>::empty());
        assert(enc_stat(sv) + Seq::<u8>::empty() =~= enc_stat(sv));
        assert(enc_stats(svs) + enc_stat(sv) =~= enc_stat(sv));
    } else {
        assert(p.first() == svs.first());
        assert(p.drop_first() =~= svs.drop_first().push(sv));
        lemma_enc_stats_push(svs.drop_first(), sv);
        assert(enc_stats(p) == enc_stat(svs.first()) + (enc_stats(svs.drop_first()) + enc_stat(
            sv,
        )));
        assert(enc_stat(svs.first()) + (enc_stats(svs.drop_first()) + enc_stat(sv)) =~= (enc_stat(
            svs.first(),
        ) + enc_stats(svs.drop_first())) + enc_stat(sv));
    }
}

/// Encode a directory's child records back to back.
pub fn encode_stats(stats: &Vec<Stat>) -> (r: Vec<u8>)
    requires
        forall|i: int| 0 <= i < stats@.len() ==> stat_wf(#[trigger] stats@[i]@),
    ensures
        r@ == enc_stats(stats@.map_values(|s: Stat| s@)),
{
    let ghost views = stats@.map_values(|s: Stat| s@);
    let mut out: Vec<u8> = Vec::new();
    let mut i: usize = 0;
    proof {
        assert(views.subrange(0, 0) =~= Seq::<StatV>::empty());
    }
    while i < stats.len()
        invariant
            0 <= i <= stats@.len(),
            views == stats@.map_values(|s: Stat| s@),
            forall|j: int| 0 <= j < stats@.len() ==> stat_wf(#[trigger] stats@[j]@),
            out@ == enc_stats(views.subrange(0, i as int)),
        decreases stats@.len() - i,
    {
        let enc = encode_stat(&stats[i]);
        put_bytes(&mut out, &enc);
        i = i + 1;
        proof {
            assert(views.subrange(0, i as int).drop_last() =~= views.subrange(0, i as int - 1));
            assert(views.subrange(0, i as int) =~= views.subrange(0, i as int - 1).push(
                views[i as int - 1],
            ));
            lemma_enc_stats_push(views.subrange(0, i as int - 1), views[i as int - 1]);
        }
    }
    proof {
        assert(views.subrange(0, views.len() as int) =~= views);
    }
    out
}

pub open spec fn rd16(b: Seq<u8>, p: int) -> u16 {
    de16(b[p], b[p + 1])
}

pub open spec fn rd32(b: Seq<u8>, p: int) -> u32 {
    de32(b[p], b[p + 1], b[p + 2], b[p + 3])
}

pub open spec fn rd64(b: Seq<u8>, p: int) -> u64 {
    de64(b[p], b[p + 1], b[p + 2], b[p + 3], b[p + 4], b[p + 5], b[p + 6], b[p + 7])
}

/// Decode a length-prefixed string at `p`: the bytes and the position just
/// past them.
pub open spec fn dec_str(b: Seq<u8>, p: int) -> Option<(Seq<u8>, int)> {
    if p < 0 || p + 2 > b.len() {
        None
    } else {
        let n = rd16(b, p) as int;
        if p + 2 + n > b.len() {
            None
        } else {
            Some((b.subrange(p + 2, p + 2 + n), p + 2 + n))
        }
    }
}

/// Decode the 13 qid bytes at `p`.  Only the two kinds this tree serves
/// are accepted.
pub open spec fn dec_qid(b: Seq<u8>, p: int) -> Option<Qid> {
    if p < 0 || p + 13 > b.len() {
        None
    } else if b[p] == 0x80 {
        Some(Qid { kind: QidKind::Dir, version: rd32(b, p + 1), path: rd64(b, p + 5) })
    } else if b[p] == 0x00 {
        Some(Qid { kind: QidKind::File, version: rd32(b, p + 1), path: rd64(b, p + 5) })
    } else {
        None
    }
}


/// What a directory listing shows of one child: name, qid, length and
/// mode.
pub struct DirEntryV {
    pub name: Seq<u8>,
    pub qid: Qid,
    pub length: u64,
    pub mode: u32,
}

/// Executable twin of [`DirEntryV`].
pub struct DirEntry {
    pub name: Vec<u8>,
    pub qid: Qid,
    pub length: u64,
    pub mode: u32,
}

impl View for DirEntry {
    type V = DirEntryV;

    open spec fn view(&self) -> DirEntryV {
        DirEntryV { name: self.name@, qid: self.qid, length: self.length, mode: self.mode }
    }
}

/// What a record shows in a listing.
pub open spec fn stat_summary(sv: StatV) -> DirEntryV {
    DirEntryV { name: sv.name, qid: sv.qid, length: sv.length, mode: sv.mode }
}

/// Decode the listing summary of one record: `rec` is the record's bytes,
/// size prefix included.  The name is the first string field and sits at a
/// fixed offset; the fields after it are framed by the record's size
/// prefix and need not be walked.
pub open spec fn dec_entry(rec: Seq<u8>) -> Option<DirEntryV> {
    if rec.len() < 63 {
        None
    } else {
        match dec_qid(rec, 8) {
            None => None,
            Some(qid) => match dec_str(rec, 41) {
                None => None,
                Some((name, _)) => Some(
                    DirEntryV { name, qid, length: rd64(rec, 33), mode: rd32(rec, 21) },
                ),
            },
        }
    }
}

/// Decode a whole listing: records framed by their size prefixes until the
/// bytes end.
pub open spec fn dec_entries(b: Seq<u8>) -> Option<Seq<DirEntryV>>
    decreases b.len(),
{
    if b.len() == 0 {
        Some(Seq::empty())
    } else if b.len() < 2 {
        None
    } else {
        let sz = rd16(b, 0) as int;
        if sz < 1 || 2 + sz > b.len() {
            None
        } else {
            match dec_entry(b.subrange(0, 2 + sz)) {
                None => None,
                Some(e) => match dec_entries(b.skip(2 + sz)) {
                    None => None,
                    Some(rest) => Some(seq![e] + rest),
                },
            }
        }
    }
}

/// Decoding a string at the position where one was encoded recovers it.
proof fn lemma_dec_str_of_enc(b: Seq<u8>, p: int, s: Seq<u8>)
    requires
        0 <= p,
        s.len() <= 0xffff,
        p + 2 + s.len() <= b.len(),
        b.subrange(p, p + 2 + s.len()) == enc_str(s),
    ensures
        dec_str(b, p) == Some((s, p + 2 + s.len())),
{
    let e = enc_str(s);
    assert(b[p] == b.subrange(p, p + 2 + s.len())[0]);
    assert(b[p + 1] == b.subrange(p, p + 2 + s.len())[1]);
    lemma_le16_rt(s.len() as u16);
    assert(rd16(b, p) == s.len() as u16);
    assert forall|i: int| 0 <= i < s.len() implies b.subrange(p + 2, p + 2 + s.len())[i] == s[i] by {
        assert(b.subrange(p, p + 2 + s.len())[i + 2] == e[i + 2]);
        assert(e[i + 2] == s[i]);
    }
    assert(b.subrange(p + 2, p + 2 + s.len()) =~= s);
}

/// Decoding an encoded record shows the record's summary.
#[verifier::rlimit(100)]
pub proof fn lemma_dec_entry_of_enc(sv: StatV)
    requires
        stat_wf(sv),
    ensures
        dec_entry(enc_stat(sv)) == Some(stat_summary(sv)),
{
    let rec = enc_stat(sv);
    let inner = stat_inner(sv);
    lemma_stat_inner_len(sv);
    assert(forall|i: int| 0 <= i < inner.len() ==> #[trigger] rec[2 + i] == inner[i]);
    lemma_le32_rt(sv.qid.version);
    lemma_le64_rt(sv.qid.path);
    lemma_le32_rt(sv.mode);
    lemma_le64_rt(sv.length);
    assert(rec[8] == kind_byte(sv.qid.kind));
    assert(rd32(rec, 9) == sv.qid.version);
    assert(rd64(rec, 13) == sv.qid.path);
    assert(dec_qid(rec, 8) == Some(sv.qid));
    assert(rd32(rec, 21) == sv.mode);
    assert(rd64(rec, 33) == sv.length);
    let n1 = sv.name.len() as int;
    assert(rec.subrange(41, 43 + n1) =~= enc_str(sv.name));
    lemma_dec_str_of_enc(rec, 41, sv.name);
}

/// Decoding an encoded listing recovers each record's summary, in order.
#[verifier::rlimit(100)]
pub proof fn lemma_dec_entries_of_enc(svs: Seq<StatV>)
    requires
        forall|i: int| 0 <= i < svs.len() ==> stat_wf(#[trigger] svs[i]),
    ensures
        dec_entries(enc_stats(svs)) == Some(svs.map_values(|sv: StatV| stat_summary(sv))),
    decreases svs.len(),
{
    let b = enc_stats(svs);
    let summaries = svs.map_values(|sv: StatV| stat_summary(sv));
    if svs.len() == 0 {
        assert(b.len() == 0);
        assert(summaries =~= Seq::<DirEntryV>::empty());
    } else {
        let first = svs.first();
        let rest = svs.drop_first();
        let e1 = enc_stat(first);
        let l1 = e1.len() as int;
        lemma_stat_inner_len(first);
        assert(b == e1 + enc_stats(rest));
        lemma_le16_rt(stat_inner(first).len() as u16);
        assert(b[0] == e1[0]);
        assert(b[1] == e1[1]);
        assert(rd16(b, 0) == stat_inner(first).len() as u16);
        assert(2 + stat_inner(first).len() == l1);
        assert(b.subrange(0, l1) =~= e1);
        lemma_dec_entry_of_enc(first);
        assert(dec_entry(b.subrange(0, l1)) == Some(stat_summary(first)));
        assert(b.skip(l1) =~= enc_stats(rest));
        lemma_dec_entries_of_enc(rest);
        assert(dec_entries(b) == Some(seq![stat_summary(first)] + rest.map_values(
            |sv: StatV| stat_summary(sv),
        )));
        assert(seq![stat_summary(first)] + rest.map_values(|sv: StatV| stat_summary(sv))
            =~= summaries);
    }
}

/// Round trip: re-parsing an encoded directory listing yields the same
/// sequence of (name, qid, length, mode) summaries that was encoded.
pub proof fn lemma_listing_round_trip(svs: Seq<StatV>)
    requires
        forall|i: int| 0 <= i < svs.len() ==> stat_wf(#[trigger] svs[i]),
    ensures
        dec_entries(enc_stats(svs)) == Some(svs.map_values(|sv: StatV| stat_summary(sv))),
{
    lemma_dec_entries_of_enc(svs);
}

fn get16(b: &Vec<u8>, p: usize) -> (r: u16)
    requires
        p + 2 <= b@.len(),
    ensures
        r == rd16(b@, p as int),
{
    let l = b.len();
    (b[p] as u16) | ((b[p + 1] as u16) << 8)
}

fn get32(b: &Vec<u8>, p: usize) -> (r: u32)
    requires
        p + 4 <= b@.len(),
    ensures
        r == rd32(b@, p as int),
{
    let l = b.len();
    (b[p] as u32) | ((b[p + 1] as u32) << 8) | ((b[p + 2] as u32) << 16) | ((b[p + 3] as u32)
        << 24)
}

fn get64(b: &Vec<u8>, p: usize) -> (r: u64)
    requires
        p + 8 <= b@.len(),
    ensures
        r == rd64(b@, p as int),
{
    let l = b.len();
    (b[p] as u64) | ((b[p + 1] as u64) << 8) | ((b[p + 2] as u64) << 16) | ((b[p + 3] as u64)
        << 24) | ((b[p + 4] as u64) << 32) | ((b[p + 5] as u64) << 40) | ((b[p + 6] as u64) << 48)
        | ((b[p + 7] as u64) << 56)
}

fn get_str(b: &Vec<u8>, p: usize) -> (r: Option<(Vec<u8>, usize)>)
    requires
        p <= b@.len(),
    ensures
        match r {
            Some((s, q)) => dec_str(b@, p as int) == Some((s@, q as int)) && p < q <= b@.len(),
            None => dec_str(b@, p as int) is None,
        },
{
    if b.len() - p < 2 {
        return None;
    }
    let n = get16(b, p) as usize;
    if b.len() - (p + 2) < n {
        return None;
    }
    let s = crate::text::subrange_vec(b, p + 2, p + 2 + n);
    Some((s, p + 2 + n))
}

/// Decode the listing summary of one record.
pub fn decode_entry(rec: &Vec<u8>) -> (r: Option<DirEntry>)
    ensures
        match r {
            Some(e) => dec_entry(rec@) == Some(e@),
            None => dec_entry(rec@) is None,
        },
{
    if rec.len() < 63 {
        return None;
    }
    let kb = rec[8];
    let kind = if kb == 0x80 {
        QidKind::Dir
    } else if kb == 0x00 {
        QidKind::File
    } else {
        return None;
    };
    let version = get32(rec, 9);
    let path = get64(rec, 13);
    let mode = get32(rec, 21);
    let length = get64(rec, 33);
    let (name, _p1) = match get_str(rec, 41) {
        Some(v) => v,
        None => {
            return None;
        },
    };
    Some(DirEntry { name, qid: Qid { kind, version, path }, length, mode })
}

/// Decode a whole listing into its entries.
#[verifier::rlimit(100)]
pub fn decode_entries(b: &Vec<u8>) -> (r: Option<Vec<DirEntry>>)
    ensures
        match r {
            Some(v) => dec_entries(b@) == Some(v@.map_values(|e: DirEntry| e@)),
            None => dec_entries(b@) is None,
        },
{
    let mut acc: Vec<DirEntry> = Vec::new();
    let mut p: usize = 0;
    proof {
        assert(acc@.map_values(|e: DirEntry| e@) =~= Seq::<DirEntryV>::empty());
        assert(b@.skip(0) =~= b@);
    }
    loop
        invariant
            0 <= p <= b@.len(),
            match dec_entries(b@.skip(p as int)) {
                None => dec_entries(b@) is None,
                Some(rest) => dec_entries(b@) == Some(acc@.map_values(|e: DirEntry| e@) + rest),
            },
        decreases b@.len() - p,
    {
        let ghost tail = b@.skip(p as int);
        if p == b.len() {
            proof {
                assert(tail.len() == 0);
                assert(acc@.map_values(|e: DirEntry| e@) + Seq::<DirEntryV>::empty()
                    =~= acc@.map_values(|e: DirEntry| e@));
            }
            return Some(acc);
        }
        if b.len() - p < 2 {
            return None;
        }
        let sz = get16(b, p) as usize;
        proof {
            assert(tail[0] == b@[p as int]);
            assert(tail[1] == b@[p as int + 1]);
            assert(rd16(tail, 0) == rd16(b@, p as int));
        }
        if sz < 1 || b.len() - (p + 2) < sz {
            return None;
        }
        let rec = crate::text::subrange_vec(b, p, p + 2 + sz);
        proof {
            assert(rec@ =~= tail.subrange(0, 2 + sz as int));
        }
        let ghost prev = acc@.map_values(|e: DirEntry| e@);
        let e = match decode_entry(&rec) {
            Some(v) => v,
            None => {
                return None;
            },
        };
        acc.push(e);
        let q = p + 2 + sz;
        proof {
            assert(acc@.map_values(|e2: DirEntry| e2@) =~= prev + seq![e@]);
            assert(b@.skip(q as int) =~= tail.skip(2 + sz as int));
            match dec_entries(b@.skip(q as int)) {
                Some(rest2) => {
                    assert(dec_entries(tail) == Some(seq![e@] + rest2));
                    assert(prev + (seq![e@] + rest2) =~= (prev + seq![e@]) + rest2);
                },
                None => {},
            }
        }
        p = q;
    }
}

} // verus!
