//! The filesystem adapter: a two-level read-only directory tree of debug
//! files, exposed through the remote-file protocol's file interface.
//!
//! The root holds first-level directories named by the first two hex
//! characters of a build-id; each holds leaves named by the remaining 38
//! characters plus `.debug`.  The tree is built once at session attach
//! from the package index and never mutated.

use vstd::prelude::*;

use crate::FsError;
use crate::proto;
use crate::text::{all_lower_hex, hex_val, parse_lower_hex, subrange_vec};

verus! {

/// A leaf: one debug file, keyed by build-id.
#[derive(Debug)]
pub struct DebugHeader {
    /// Display name: the last 38 hex characters of the build-id plus
    /// `.debug`.
    pub name: Vec<u8>,
    /// The full 40-character lowercase-hex build-id.
    pub build_id: Vec<u8>,
    /// URL of the `.deb` that carries this file.
    pub pool: Vec<u8>,
    /// Path of the file inside the data archive, below the build-id root.
    pub fspath: Vec<u8>,
}

/// A first-level directory: two hex characters of build-id prefix.
#[derive(Debug)]
pub struct Directory {
    pub name: Vec<u8>,
    pub entries: Vec<DebugHeader>,
}

/// The root of the tree.
#[derive(Debug)]
pub struct Root {
    pub entries: Vec<Directory>,
}

/// A node of the tree, as handed to the protocol server.
#[derive(Debug)]
pub enum File {
    Root(Root),
    Directory(Directory),
    DebugHeader(DebugHeader),
}

pub struct LeafV {
    pub name: Seq<u8>,
    pub build_id: Seq<u8>,
    pub pool: Seq<u8>,
    pub fspath: Seq<u8>,
}

pub struct DirV {
    pub name: Seq<u8>,
    pub entries: Seq<LeafV>,
}

pub struct RootV {
    pub entries: Seq<DirV>,
}

pub enum FileV {
    Root(RootV),
    Directory(DirV),
    DebugHeader(LeafV),
}

impl View for DebugHeader {
    type V = LeafV;

    open spec fn view(&self) -> LeafV {
        LeafV {
            name: self.name@,
            build_id: self.build_id@,
            pool: self.pool@,
            fspath: self.fspath@,
        }
    }
}

impl View for Directory {
    type V = DirV;

    open spec fn view(&self) -> DirV {
        DirV { name: self.name@, entries: self.entries@.map_values(|l: DebugHeader| l@) }
    }
}

impl View for Root {
    type V = RootV;

    open spec fn view(&self) -> RootV {
        RootV { entries: self.entries@.map_values(|d: Directory| d@) }
    }
}

impl View for File {
    type V = FileV;

    open spec fn view(&self) -> FileV {
        match self {
            File::Root(r) => FileV::Root(r@),
            File::Directory(d) => FileV::Directory(d@),
            File::DebugHeader(l) => FileV::DebugHeader(l@),
        }
    }
}

/// A leaf is well formed: its build-id is 40 lowercase hex characters and
/// its name is short enough for a stat record.
pub open spec fn leaf_wf(l: LeafV) -> bool {
    &&& l.build_id.len() == 40
    &&& all_lower_hex(l.build_id)
    &&& l.name.len() <= 1000
}

pub open spec fn dir_wf(d: DirV) -> bool {
    &&& d.name.len() == 2
    &&& all_lower_hex(d.name)
    &&& forall|i: int| 0 <= i < d.entries.len() ==> leaf_wf(#[trigger] d.entries[i])
}

pub open spec fn root_wf(r: RootV) -> bool {
    forall|i: int| 0 <= i < r.entries.len() ==> dir_wf(#[trigger] r.entries[i])
}

pub open spec fn file_wf(f: FileV) -> bool {
    match f {
        FileV::Root(r) => root_wf(r),
        FileV::Directory(d) => dir_wf(d),
        FileV::DebugHeader(l) => leaf_wf(l),
    }
}

/// A node's display name: `/` for the root.
pub open spec fn name_spec(f: FileV) -> Seq<u8> {
    match f {
        FileV::Root(_) => seq![0x2fu8],
        FileV::Directory(d) => d.name,
        FileV::DebugHeader(l) => l.name,
    }
}

/// A node's identity token.  The root is path 1; a directory's path is
/// the value of its two hex characters; a leaf's path is the value of the
/// first 16 hex characters of its build-id.
pub open spec fn qid_spec(f: FileV) -> proto::Qid {
    match f {
        FileV::Root(_) => proto::Qid { kind: proto::QidKind::Dir, version: 1, path: 1 },
        FileV::Directory(d) => proto::Qid {
            kind: proto::QidKind::Dir,
            version: 1,
            path: hex_val(d.name) as u64,
        },
        FileV::DebugHeader(l) => proto::Qid {
            kind: proto::QidKind::File,
            version: 1,
            path: hex_val(l.build_id.subrange(0, 16)) as u64,
        },
    }
}

/// A node's mode word: permission bits `0555` for directories and `0444`
/// for leaves.  The record's qid, not the mode, carries the node's kind.
pub open spec fn mode_spec(f: FileV) -> u32 {
    match f {
        FileV::Root(_) => 0x16d,
        FileV::Directory(_) => 0x16d,
        FileV::DebugHeader(_) => 0x124,
    }
}

/// The metadata record served for a node: its name and qid, owner ids
/// zero, and the constant size sentinel in place of the unknown true
/// size.
pub open spec fn stat_spec(f: FileV) -> proto::StatV {
    proto::StatV {
        ty: 0,
        dev: 0,
        qid: qid_spec(f),
        mode: mode_spec(f),
        atime: 0,
        mtime: 0,
        length: 1000000000,
        name: name_spec(f),
        uid: Seq::empty(),
        gid: Seq::empty(),
        muid: Seq::empty(),
        extension: Seq::empty(),
        nuid: 0,
        ngid: 0,
        nmuid: 0,
    }
}

/// The first directory of `ds` named `name`.
pub open spec fn find_dir(ds: Seq<DirV>, name: Seq<u8>) -> Option<DirV>
    decreases ds.len(),
{
    if ds.len() == 0 {
        None
    } else if ds.first().name == name {
        Some(ds.first())
    } else {
        find_dir(ds.drop_first(), name)
    }
}

/// The first leaf of `ls` named `name`.
pub open spec fn find_leaf(ls: Seq<LeafV>, name: Seq<u8>) -> Option<LeafV>
    decreases ls.len(),
{
    if ls.len() == 0 {
        None
    } else if ls.first().name == name {
        Some(ls.first())
    } else {
        find_leaf(ls.drop_first(), name)
    }
}

/// Resolve one path component against a node's children: the root's
/// children are the directories, a directory's children its leaves, and a
/// leaf has none.
pub open spec fn walk_to_spec(f: FileV, name: Seq<u8>) -> Option<FileV> {
    match f {
        FileV::Root(r) => match find_dir(r.entries, name) {
            Some(d) => Some(FileV::Directory(d)),
            None => None,
        },
        FileV::Directory(d) => match find_leaf(d.entries, name) {
            Some(l) => Some(FileV::DebugHeader(l)),
            None => None,
        },
        FileV::DebugHeader(_) => None,
    }
}

/// Resolve path components one at a time against the current node.  The
/// result is the target (`None` when a component failed to resolve) and
/// the chain of nodes from which each successful step was taken.
pub open spec fn walk_spec(f: FileV, path: Seq<Seq<u8>>) -> (Option<FileV>, Seq<FileV>)
    decreases path.len(),
{
    if path.len() == 0 {
        (Some(f), Seq::empty())
    } else {
        match walk_to_spec(f, path.first()) {
            None => (None, Seq::empty()),
            Some(next) => {
                let r = walk_spec(next, path.drop_first());
                (r.0, seq![f] + r.1)
            },
        }
    }
}

/// Resolving an empty path returns the node itself and an empty chain.
pub proof fn lemma_walk_empty(f: FileV)
    ensures
        walk_spec(f, Seq::empty()) == (Some(f), Seq::<FileV>::empty()),
{
}

/// Two stat calls on the same node return equal records: the record is a
/// function of the node alone.
pub proof fn lemma_stat_repeatable(f: FileV, s1: proto::StatV, s2: proto::StatV)
    requires
        s1 == stat_spec(f),
        s2 == stat_spec(f),
    ensures
        s1 == s2,
{
}

/// The stat records of a node's children, in order: the listing a
/// directory open serves.
pub open spec fn children_stats(f: FileV) -> Seq<proto::StatV> {
    match f {
        FileV::Root(r) => r.entries.map_values(|d: DirV| stat_spec(FileV::Directory(d))),
        FileV::Directory(d) => d.entries.map_values(|l: LeafV| stat_spec(FileV::DebugHeader(l))),
        FileV::DebugHeader(_) => Seq::empty(),
    }
}

fn clone_bytes(v: &Vec<u8>) -> (r: Vec<u8>)
    ensures
        r@ == v@,
{
    let r = subrange_vec(v, 0, v.len());
    proof {
        assert(v@.subrange(0, v@.len() as int) =~= v@);
    }
    r
}

impl Clone for DebugHeader {
    fn clone(&self) -> (r: Self)
        ensures
            r@ == self@,
    {
        DebugHeader {
            name: clone_bytes(&self.name),
            build_id: clone_bytes(&self.build_id),
            pool: clone_bytes(&self.pool),
            fspath: clone_bytes(&self.fspath),
        }
    }
}

impl Clone for Directory {
    fn clone(&self) -> (r: Self)
        ensures
            r@ == self@,
    {
        let mut entries: Vec<DebugHeader> = Vec::new();
        let mut i: usize = 0;
        while i < self.entries.len()
            invariant
                0 <= i <= self.entries@.len(),
                entries@.len() == i,
                forall|j: int| 0 <= j < i ==> #[trigger] entries@[j]@ == self.entries@[j]@,
            decreases self.entries@.len() - i,
        {
            entries.push(self.entries[i].clone());
            i = i + 1;
        }
        proof {
            let em = entries@.map_values(|l: DebugHeader| l@);
            let sm = self.entries@.map_values(|l: DebugHeader| l@);
            assert forall|j: int| 0 <= j < em.len() implies em[j] == sm[j] by {
                assert(entries@[j]@ == self.entries@[j]@);
            }
            assert(em =~= sm);
        }
        Directory { name: clone_bytes(&self.name), entries }
    }
}

impl Clone for Root {
    fn clone(&self) -> (r: Self)
        ensures
            r@ == self@,
    {
        let mut entries: Vec<Directory> = Vec::new();
        let mut i: usize = 0;
        while i < self.entries.len()
            invariant
                0 <= i <= self.entries@.len(),
                entries@.len() == i,
                forall|j: int| 0 <= j < i ==> #[trigger] entries@[j]@ == self.entries@[j]@,
            decreases self.entries@.len() - i,
        {
            entries.push(self.entries[i].clone());
            i = i + 1;
        }
        proof {
            let em = entries@.map_values(|d: Directory| d@);
            let sm = self.entries@.map_values(|d: Directory| d@);
            assert forall|j: int| 0 <= j < em.len() implies em[j] == sm[j] by {
                assert(entries@[j]@ == self.entries@[j]@);
            }
            assert(em =~= sm);
        }
        Root { entries }
    }
}

impl Clone for File {
    fn clone(&self) -> (r: Self)
        ensures
            r@ == self@,
    {
        match self {
            File::Root(r) => File::Root(r.clone()),
            File::Directory(d) => File::Directory(d.clone()),
            File::DebugHeader(l) => File::DebugHeader(l.clone()),
        }
    }
}

fn leaf_wf_check(l: &DebugHeader) -> (r: bool)
    ensures
        r == leaf_wf(l@),
{
    let ok = l.build_id.len() == 40 && crate::text::check_lower_hex(&l.build_id, 0, l.build_id.len())
        && l.name.len() <= 1000;
    proof {
        assert(l.build_id@.subrange(0, l.build_id@.len() as int) =~= l.build_id@);
    }
    ok
}

fn dir_wf_check(d: &Directory) -> (r: bool)
    ensures
        r == dir_wf(d@),
{
    let name_ok = d.name.len() == 2 && crate::text::check_lower_hex(&d.name, 0, d.name.len());
    proof {
        assert(d.name@.subrange(0, d.name@.len() as int) =~= d.name@);
    }
    if !name_ok {
        return false;
    }
    let mut i: usize = 0;
    while i < d.entries.len()
        invariant
            0 <= i <= d.entries@.len(),
            d@.entries.len() == d.entries@.len(),
            forall|j: int| 0 <= j < d.entries@.len() ==> #[trigger] d@.entries[j]
                == d.entries@[j]@,
            forall|j: int| 0 <= j < i ==> leaf_wf(#[trigger] d@.entries[j]),
        decreases d.entries@.len() - i,
    {
        if !leaf_wf_check(&d.entries[i]) {
            proof {
                assert(!leaf_wf(d@.entries[i as int]));
            }
            return false;
        }
        i = i + 1;
    }
    true
}

impl File {
    /// Whether the node satisfies the tree's well-formedness.  True for
    /// every node the library builds; lets an unverified caller test
    /// [`file_wf`] before `qid`, `stat` or `open`.
    pub fn check_wf(&self) -> (r: bool)
        ensures
            r == file_wf(self@),
    {
        match self {
            File::Root(root) => {
                let mut i: usize = 0;
                while i < root.entries.len()
                    invariant
                        self@ == FileV::Root(root@),
                        0 <= i <= root.entries@.len(),
                        root@.entries.len() == root.entries@.len(),
                        forall|j: int| 0 <= j < root.entries@.len() ==> #[trigger] root@.entries[j]
                            == root.entries@[j]@,
                        forall|j: int| 0 <= j < i ==> dir_wf(#[trigger] root@.entries[j]),
                    decreases root.entries@.len() - i,
                {
                    if !dir_wf_check(&root.entries[i]) {
                        proof {
                            assert(!dir_wf(root@.entries[i as int]));
                        }
                        return false;
                    }
                    i = i + 1;
                }
                true
            },
            File::Directory(d) => dir_wf_check(d),
            File::DebugHeader(l) => leaf_wf_check(l),
        }
    }
}

/// How a client asked to open a file.
#[derive(Clone, Copy, PartialEq, Eq, Structural, Debug)]
pub struct OpenMode {
    pub mode: u8,
}

/// The transfer direction an open mode asks for.
#[derive(Clone, Copy, PartialEq, Eq, Structural, Debug)]
pub enum IoDirection {
    Read,
    Write,
    ReadWrite,
}

pub open spec fn direction_spec(m: OpenMode) -> IoDirection {
    if m.mode % 4 == 1 {
        IoDirection::Write
    } else if m.mode % 4 == 2 {
        IoDirection::ReadWrite
    } else {
        IoDirection::Read
    }
}

impl OpenMode {
    pub fn direction(&self) -> (r: IoDirection)
        ensures
            r == direction_spec(*self),
    {
        if self.mode % 4 == 1 {
            IoDirection::Write
        } else if self.mode % 4 == 2 {
            IoDirection::ReadWrite
        } else {
            IoDirection::Read
        }
    }
}

/// An open file backed by an in-memory byte buffer, read at arbitrary
/// offsets.
#[derive(Debug)]
pub struct CursorFile {
    pub data: Vec<u8>,
}

impl CursorFile {
    /// Read up to `count` bytes at offset `off`: exactly the bytes of the
    /// buffer from `off` (clamped to the end) to `off + count` (clamped
    /// likewise).  Reading past the end returns no bytes.
    pub fn read_at(&self, count: usize, off: u64) -> (r: Vec<u8>)
        ensures
            r@ == self.data@.subrange(
                if off <= self.data@.len() {
                    off as int
                } else {
                    self.data@.len() as int
                },
                if off + count <= self.data@.len() {
                    off + count
                } else {
                    self.data@.len() as int
                },
            ),
    {
        let len = self.data.len();
        let start: usize = if off <= len as u64 {
            off as usize
        } else {
            len
        };
        let end: usize = if count <= len - start {
            start + count
        } else {
            len
        };
        subrange_vec(&self.data, start, end)
    }
}

/// An open file streaming from a sequential source: reads must arrive in
/// order, from offset zero.
#[derive(Debug)]
pub struct StreamFile {
    pub offset: u64,
}

impl StreamFile {
    /// A read may begin only at the stream's current offset; anything
    /// else is a seek on a pipe.
    pub fn check_offset(&self, off: u64) -> (r: Result<(), FsError>)
        ensures
            match r {
                Ok(()) => off == self.offset,
                Err(e) => e == FsError::Espipe && off != self.offset,
            },
    {
        if off != self.offset {
            Err(FsError::Espipe)
        } else {
            Ok(())
        }
    }

    /// A read that returned `n` bytes advances the offset by exactly `n`.
    pub fn advance(&mut self, n: u64)
        requires
            old(self).offset + n <= u64::MAX,
        ensures
            final(self).offset == old(self).offset + n,
    {
        self.offset = self.offset + n;
    }
}

/// An open file handle: a materialized buffer, or a streaming entry.
#[derive(Debug)]
pub enum OpenFile {
    Cursor(CursorFile),
    Stream(StreamFile),
}

impl OpenFile {
    /// The preferred transfer unit; zero leaves the choice to the client.
    pub fn iounit(&self) -> (r: u32)
        ensures
            r == 0,
    {
        0
    }

    /// Writes are never allowed: the tree is read-only.
    pub fn write_at(&mut self) -> (r: Result<u32, FsError>)
        ensures
            *final(self) == *old(self),
            r matches Err(e) && e == FsError::Perm,
    {
        Err(FsError::Perm)
    }
}

impl File {
    /// The node's display name.
    pub fn name(&self) -> (r: Vec<u8>)
        ensures
            r@ == name_spec(self@),
    {
        match self {
            File::Root(_) => {
                let mut v: Vec<u8> = Vec::new();
                v.push(0x2f);
                proof {
                    assert(v@ =~= seq![0x2fu8]);
                }
                v
            },
            File::Directory(d) => clone_bytes(&d.name),
            File::DebugHeader(l) => clone_bytes(&l.name),
        }
    }

    /// The node's identity token.
    pub fn qid(&self) -> (r: proto::Qid)
        requires
            file_wf(self@),
        ensures
            r == qid_spec(self@),
    {
        match self {
            File::Root(_) => proto::Qid { kind: proto::QidKind::Dir, version: 1, path: 1 },
            File::Directory(d) => {
                let path = parse_lower_hex(&d.name, 0, d.name.len());
                proof {
                    assert(d.name@.subrange(0, d.name@.len() as int) =~= d.name@);
                }
                proto::Qid { kind: proto::QidKind::Dir, version: 1, path }
            },
            File::DebugHeader(l) => {
                let path = parse_lower_hex(&l.build_id, 0, 16);
                proto::Qid { kind: proto::QidKind::File, version: 1, path }
            },
        }
    }

    /// The node's metadata record.  Never fails.
    pub fn stat(&self) -> (r: Result<proto::Stat, FsError>)
        requires
            file_wf(self@),
        ensures
            r matches Ok(st) && st@ == stat_spec(self@),
    {
        let qid = self.qid();
        let name = self.name();
        let mode: u32 = match self {
            File::Root(_) => 0x16d,
            File::Directory(_) => 0x16d,
            File::DebugHeader(_) => 0x124,
        };
        Ok(proto::Stat {
            ty: 0,
            dev: 0,
            qid,
            mode,
            atime: 0,
            mtime: 0,
            length: 1000000000,
            name,
            uid: Vec::new(),
            gid: Vec::new(),
            muid: Vec::new(),
            extension: Vec::new(),
            nuid: 0,
            ngid: 0,
            nmuid: 0,
        })
    }

    /// Changing metadata is never allowed.
    pub fn wstat(&mut self) -> (r: Result<(), FsError>)
        ensures
            *final(self) == *old(self),
            r matches Err(e) && e == FsError::Perm,
    {
        Err(FsError::Perm)
    }

    /// Removal is never allowed.
    pub fn unlink(&mut self) -> (r: Result<(), FsError>)
        ensures
            *final(self) == *old(self),
            r matches Err(e) && e == FsError::Perm,
    {
        Err(FsError::Perm)
    }

    /// Creation is never allowed.
    pub fn create(&mut self) -> (r: Result<File, FsError>)
        ensures
            *final(self) == *old(self),
            r matches Err(e) && e == FsError::Perm,
    {
        Err(FsError::Perm)
    }

    /// Resolve one path component against this node's children.
    pub fn walk_to(&self, part: &Vec<u8>) -> (r: Result<File, FsError>)
        ensures
            match r {
                Ok(f) => walk_to_spec(self@, part@) == Some(f@),
                Err(e) => e == FsError::Noent && walk_to_spec(self@, part@) is None,
            },
    {
        match self {
            File::Root(root) => {
                let ghost ds = root@.entries;
                proof {
                    assert(ds.skip(0) =~= ds);
                }
                let mut i: usize = 0;
                while i < root.entries.len()
                    invariant
                        self@ == FileV::Root(root@),
                        0 <= i <= root.entries@.len(),
                        ds == root@.entries,
                        ds.len() == root.entries@.len(),
                        find_dir(ds, part@) == find_dir(ds.skip(i as int), part@),
                        forall|j: int| 0 <= j < root.entries@.len() ==> #[trigger] ds[j]
                            == root.entries@[j]@,
                    decreases root.entries@.len() - i,
                {
                    proof {
                        assert(ds.skip(i as int).first() == ds[i as int]);
                        assert(ds.skip(i as int).drop_first() =~= ds.skip(i as int + 1));
                    }
                    if crate::text::bytes_eq(&root.entries[i].name, part) {
                        proof {
                            assert(ds[i as int].name == part@);
                            assert(find_dir(ds.skip(i as int), part@) == Some(ds[i as int]));
                        }
                        return Ok(File::Directory(root.entries[i].clone()));
                    }
                    i = i + 1;
                }
                proof {
                    assert(ds.skip(ds.len() as int).len() == 0);
                }
                Err(FsError::Noent)
            },
            File::Directory(dir) => {
                let ghost ls = dir@.entries;
                proof {
                    assert(ls.skip(0) =~= ls);
                }
                let mut i: usize = 0;
                while i < dir.entries.len()
                    invariant
                        self@ == FileV::Directory(dir@),
                        0 <= i <= dir.entries@.len(),
                        ls == dir@.entries,
                        ls.len() == dir.entries@.len(),
                        find_leaf(ls, part@) == find_leaf(ls.skip(i as int), part@),
                        forall|j: int| 0 <= j < dir.entries@.len() ==> #[trigger] ls[j]
                            == dir.entries@[j]@,
                    decreases dir.entries@.len() - i,
                {
                    proof {
                        assert(ls.skip(i as int).first() == ls[i as int]);
                        assert(ls.skip(i as int).drop_first() =~= ls.skip(i as int + 1));
                    }
                    if crate::text::bytes_eq(&dir.entries[i].name, part) {
                        proof {
                            assert(ls[i as int].name == part@);
                            assert(find_leaf(ls.skip(i as int), part@) == Some(ls[i as int]));
                        }
                        return Ok(File::DebugHeader(dir.entries[i].clone()));
                    }
                    i = i + 1;
                }
                proof {
                    assert(ls.skip(ls.len() as int).len() == 0);
                }
                Err(FsError::Noent)
            },
            File::DebugHeader(_) => Err(FsError::Noent),
        }
    }

    /// Resolve path components one at a time.  A failed component yields a
    /// partial walk, not an error.
    pub fn walk(&self, path: &Vec<Vec<u8>>) -> (r: (Option<File>, Vec<File>))
        ensures
            ({
                let s = walk_spec(self@, path@.map_values(|p: Vec<u8>| p@));
                &&& match r.0 {
                    Some(f) => s.0 == Some(f@),
                    None => s.0 is None,
                }
                &&& r.1@.map_values(|f: File| f@) == s.1
            }),
    {
        let ghost pv = path@.map_values(|p: Vec<u8>| p@);
        let mut cur = self.clone();
        let mut walked: Vec<File> = Vec::new();
        let mut i: usize = 0;
        proof {
            assert(pv.skip(0) =~= pv);
            assert(walked@.map_values(|f: File| f@) =~= Seq::<FileV>::empty());
            assert(Seq::<FileV>::empty() + walk_spec(cur@, pv).1 =~= walk_spec(cur@, pv).1);
        }
        while i < path.len()
            invariant
                0 <= i <= path@.len(),
                pv == path@.map_values(|p: Vec<u8>| p@),
                pv.len() == path@.len(),
                walk_spec(self@, pv).0 == walk_spec(cur@, pv.skip(i as int)).0,
                walk_spec(self@, pv).1 == walked@.map_values(|f: File| f@) + walk_spec(
                    cur@,
                    pv.skip(i as int),
                ).1,
            decreases path@.len() - i,
        {
            let ghost tail = pv.skip(i as int);
            proof {
                assert(tail.first() == pv[i as int]);
                assert(pv[i as int] == path@[i as int]@);
                assert(tail.drop_first() =~= pv.skip(i as int + 1));
            }
            let next = match cur.walk_to(&path[i]) {
                Ok(v) => v,
                Err(_) => {
                    proof {
                        assert(walk_spec(cur@, tail).0 is None);
                        assert(walk_spec(cur@, tail).1 =~= Seq::<FileV>::empty());
                        assert(walked@.map_values(|f: File| f@) + Seq::<FileV>::empty()
                            =~= walked@.map_values(|f: File| f@));
                    }
                    return (None, walked);
                },
            };
            let ghost prev_walked = walked@.map_values(|f: File| f@);
            walked.push(cur);
            cur = next;
            i = i + 1;
            proof {
                assert(walked@.map_values(|f: File| f@) =~= prev_walked + seq![walked@.last()@]);
                assert(prev_walked + (seq![walked@.last()@] + walk_spec(cur@, pv.skip(i as int)).1)
                    =~= (prev_walked + seq![walked@.last()@]) + walk_spec(
                    cur@,
                    pv.skip(i as int),
                ).1);
            }
        }
        proof {
            assert(pv.skip(pv.len() as int).len() == 0);
            assert(walked@.map_values(|f: File| f@) + Seq::<FileV>::empty() =~= walked@.map_values(
                |f: File| f@,
            ));
        }
        (Some(cur), walked)
    }
}

fn dir_stat(d: &Directory) -> (r: proto::Stat)
    requires
        dir_wf(d@),
    ensures
        r@ == stat_spec(FileV::Directory(d@)),
{
    let path = parse_lower_hex(&d.name, 0, d.name.len());
    proof {
        assert(d.name@.subrange(0, d.name@.len() as int) =~= d.name@);
    }
    proto::Stat {
        ty: 0,
        dev: 0,
        qid: proto::Qid { kind: proto::QidKind::Dir, version: 1, path },
        mode: 0x16d,
        atime: 0,
        mtime: 0,
        length: 1000000000,
        name: clone_bytes(&d.name),
        uid: Vec::new(),
        gid: Vec::new(),
        muid: Vec::new(),
        extension: Vec::new(),
        nuid: 0,
        ngid: 0,
        nmuid: 0,
    }
}

fn leaf_stat(l: &DebugHeader) -> (r: proto::Stat)
    requires
        leaf_wf(l@),
    ensures
        r@ == stat_spec(FileV::DebugHeader(l@)),
{
    let path = parse_lower_hex(&l.build_id, 0, 16);
    proto::Stat {
        ty: 0,
        dev: 0,
        qid: proto::Qid { kind: proto::QidKind::File, version: 1, path },
        mode: 0x124,
        atime: 0,
        mtime: 0,
        length: 1000000000,
        name: clone_bytes(&l.name),
        uid: Vec::new(),
        gid: Vec::new(),
        muid: Vec::new(),
        extension: Vec::new(),
        nuid: 0,
        ngid: 0,
        nmuid: 0,
    }
}

/// What an open produced: a directory listing to read from, or the
/// fetch-and-resolve work a leaf open requires of the transport.
#[derive(Debug)]
pub enum Opened {
    /// An open directory: a cursor over the children's encoded records.
    Listing(OpenFile),
    /// An open leaf: the caller must fetch the `.deb` at `pool` and
    /// resolve `fspath` inside its data archive.
    Resolve { pool: Vec<u8>, fspath: Vec<u8> },
}

impl File {
    /// Open the node.  Only reads are allowed; a directory open serves
    /// the encoded listing of its children, a leaf open names the remote
    /// archive the transport must fetch.
    pub fn open(&self, om: OpenMode) -> (r: Result<Opened, FsError>)
        requires
            file_wf(self@),
        ensures
            match r {
                Err(e) => e == FsError::Perm && direction_spec(om) != IoDirection::Read,
                Ok(o) => direction_spec(om) == IoDirection::Read && match o {
                    Opened::Listing(of) => (self@ matches FileV::Root(_) || self@
                        matches FileV::Directory(_)) && (of matches OpenFile::Cursor(c)
                        && c.data@ == proto::enc_stats(children_stats(self@))),
                    Opened::Resolve { pool, fspath } => self@ matches FileV::DebugHeader(l)
                        && pool@ == l.pool && fspath@ == l.fspath,
                },
            },
    {
        match self.open_mode_check(om) {
            Ok(()) => {},
            Err(e) => {
                return Err(e);
            },
        }
        match self {
            File::Root(root) => {
                let ghost ds = root@.entries;
                let mut stats: Vec<proto::Stat> = Vec::new();
                let mut i: usize = 0;
                while i < root.entries.len()
                    invariant
                        self@ == FileV::Root(root@),
                        root_wf(root@),
                        0 <= i <= root.entries@.len(),
                        ds == root@.entries,
                        ds.len() == root.entries@.len(),
                        forall|j: int| 0 <= j < root.entries@.len() ==> #[trigger] ds[j]
                            == root.entries@[j]@,
                        stats@.len() == i,
                        forall|j: int| 0 <= j < i ==> #[trigger] stats@[j]@ == stat_spec(
                            FileV::Directory(ds[j]),
                        ),
                    decreases root.entries@.len() - i,
                {
                    proof {
                        assert(ds[i as int] == root@.entries[i as int]);
                        assert(dir_wf(ds[i as int]));
                        assert(root.entries@[i as int]@ == ds[i as int]);
                    }
                    stats.push(dir_stat(&root.entries[i]));
                    i = i + 1;
                }
                proof {
                    let sm = stats@.map_values(|s: proto::Stat| s@);
                    let cs = children_stats(self@);
                    assert forall|j: int| 0 <= j < sm.len() implies sm[j] == cs[j] by {
                        assert(stats@[j]@ == stat_spec(FileV::Directory(ds[j])));
                    }
                    assert(sm =~= cs);
                    assert forall|j: int| 0 <= j < stats@.len() implies proto::stat_wf(
                        #[trigger] stats@[j]@,
                    ) by {
                        assert(stats@[j]@ == stat_spec(FileV::Directory(ds[j])));
                    }
                }
                let data = proto::encode_stats(&stats);
                Ok(Opened::Listing(OpenFile::Cursor(CursorFile { data })))
            },
            File::Directory(dir) => {
                let ghost ls = dir@.entries;
                let mut stats: Vec<proto::Stat> = Vec::new();
                let mut i: usize = 0;
                while i < dir.entries.len()
                    invariant
                        self@ == FileV::Directory(dir@),
                        dir_wf(dir@),
                        0 <= i <= dir.entries@.len(),
                        ls == dir@.entries,
                        ls.len() == dir.entries@.len(),
                        forall|j: int| 0 <= j < dir.entries@.len() ==> #[trigger] ls[j]
                            == dir.entries@[j]@,
                        stats@.len() == i,
                        forall|j: int| 0 <= j < i ==> #[trigger] stats@[j]@ == stat_spec(
                            FileV::DebugHeader(ls[j]),
                        ),
                    decreases dir.entries@.len() - i,
                {
                    proof {
                        assert(ls[i as int] == dir@.entries[i as int]);
                        assert(leaf_wf(ls[i as int]));
                        assert(dir.entries@[i as int]@ == ls[i as int]);
                    }
                    stats.push(leaf_stat(&dir.entries[i]));
                    i = i + 1;
                }
                proof {
                    let sm = stats@.map_values(|s: proto::Stat| s@);
                    let cs = children_stats(self@);
                    assert forall|j: int| 0 <= j < sm.len() implies sm[j] == cs[j] by {
                        assert(stats@[j]@ == stat_spec(FileV::DebugHeader(ls[j])));
                    }
                    assert(sm =~= cs);
                    assert forall|j: int| 0 <= j < stats@.len() implies proto::stat_wf(
                        #[trigger] stats@[j]@,
                    ) by {
                        assert(stats@[j]@ == stat_spec(FileV::DebugHeader(ls[j])));
                    }
                }
                let data = proto::encode_stats(&stats);
                Ok(Opened::Listing(OpenFile::Cursor(CursorFile { data })))
            },
            File::DebugHeader(l) => Ok(
                Opened::Resolve { pool: clone_bytes(&l.pool), fspath: clone_bytes(&l.fspath) },
            ),
        }
    }

    /// Reject every open that is not read-only.
    fn open_mode_check(&self, om: OpenMode) -> (r: Result<(), FsError>)
        ensures
            match r {
                Ok(()) => direction_spec(om) == IoDirection::Read,
                Err(e) => e == FsError::Perm && direction_spec(om) != IoDirection::Read,
            },
    {
        match om.direction() {
            IoDirection::Read => Ok(()),
            IoDirection::Write => Err(FsError::Perm),
            IoDirection::ReadWrite => Err(FsError::Perm),
        }
    }
}

/// The directory the debug files live under inside a data archive:
/// `./usr/lib/debug/.build-id/`.
pub open spec fn debug_prefix() -> Seq<u8> {
    seq![
        0x2eu8, 0x2fu8, 0x75u8, 0x73u8, 0x72u8, 0x2fu8, 0x6cu8, 0x69u8, 0x62u8, 0x2fu8, 0x64u8,
        0x65u8, 0x62u8, 0x75u8, 0x67u8, 0x2fu8, 0x2eu8, 0x62u8, 0x75u8, 0x69u8, 0x6cu8, 0x64u8,
        0x2du8, 0x69u8, 0x64u8, 0x2fu8,
    ]
}

/// The full tar path of a leaf's debug file.
pub open spec fn target_path(fspath: Seq<u8>) -> Seq<u8> {
    debug_prefix() + fspath
}

/// Build the tar path of a leaf's debug file.
pub fn make_target_path(fspath: &Vec<u8>) -> (r: Vec<u8>)
    ensures
        r@ == target_path(fspath@),
{
    let mut r: Vec<u8> = Vec::new();
    r.push(0x2e);
    r.push(0x2f);
    r.push(0x75);
    r.push(0x73);
    r.push(0x72);
    r.push(0x2f);
    r.push(0x6c);
    r.push(0x69);
    r.push(0x62);
    r.push(0x2f);
    r.push(0x64);
    r.push(0x65);
    r.push(0x62);
    r.push(0x75);
    r.push(0x67);
    r.push(0x2f);
    r.push(0x2e);
    r.push(0x62);
    r.push(0x75);
    r.push(0x69);
    r.push(0x6c);
    r.push(0x64);
    r.push(0x2d);
    r.push(0x69);
    r.push(0x64);
    r.push(0x2f);
    proof {
        assert(r@ =~= debug_prefix());
    }
    let mut i: usize = 0;
    while i < fspath.len()
        invariant
            0 <= i <= fspath@.len(),
            r@ == debug_prefix() + fspath@.subrange(0, i as int),
        decreases fspath@.len() - i,
    {
        r.push(fspath[i]);
        i = i + 1;
        proof {
            assert(r@ =~= debug_prefix() + fspath@.subrange(0, i as int));
        }
    }
    proof {
        assert(debug_prefix() + fspath@.subrange(0, fspath@.len() as int) =~= target_path(
            fspath@,
        ));
    }
    r
}

/// What resolving `fspath` inside a decompressed data archive member
/// yields: the bytes of the named entry, clipped to the stream.
pub open spec fn member_resolve_spec(member: Seq<u8>, fspath: Seq<u8>) -> Option<Seq<u8>> {
    match crate::xz::xz_plain_of(member) {
        Some(data) => match crate::tar::tar_find(data, 0, target_path(fspath)) {
            crate::tar::TarOutcome::Found(d, n) => Some(
                data.subrange(
                    d,
                    if d + n <= data.len() {
                        d + n
                    } else {
                        data.len() as int
                    },
                ),
            ),
            _ => None,
        },
        None => None,
    }
}

/// What resolving `fspath` inside a whole `.deb` archive yields: find the
/// first `data.tar.xz` member, decompress it, and take the named entry.
pub open spec fn resolve_spec(deb: Seq<u8>, fspath: Seq<u8>) -> Option<Seq<u8>> {
    if deb.len() < 8 || deb.subrange(0, 8) != crate::ar::magic() {
        None
    } else {
        match crate::ar::scan_from(deb, 8) {
            crate::ar::ScanOutcome::Found(bo, sz) => member_resolve_spec(
                deb.subrange(
                    bo,
                    if bo + sz <= deb.len() {
                        bo + sz
                    } else {
                        deb.len() as int
                    },
                ),
                fspath,
            ),
            _ => None,
        }
    }
}

/// Decompress a fetched `data.tar.xz` member and pull the debug file for
/// `fspath` out of it.
pub fn resolve_member(member: &Vec<u8>, fspath: &Vec<u8>) -> (r: Result<Vec<u8>, FsError>)
    ensures
        match r {
            Ok(payload) => member_resolve_spec(member@, fspath@) == Some(payload@),
            Err(e) => e == FsError::Io && member_resolve_spec(member@, fspath@) is None,
        },
{
    let data = match crate::xz::xz_decompress(member) {
        Ok(d) => d,
        Err(_) => {
            return Err(FsError::Io);
        },
    };
    let target = make_target_path(fspath);
    match crate::tar::locate_entry(&data, &target) {
        Ok(payload) => Ok(payload),
        Err(_) => Err(FsError::Io),
    }
}

/// Resolve the debug file for `fspath` inside a whole `.deb` held in
/// memory.
pub fn resolve_in_archive(deb: &Vec<u8>, fspath: &Vec<u8>) -> (r: Result<Vec<u8>, FsError>)
    ensures
        match r {
            Ok(payload) => resolve_spec(deb@, fspath@) == Some(payload@),
            Err(e) => e == FsError::Io && resolve_spec(deb@, fspath@) is None,
        },
{
    let (bo, sz) = match crate::ar::scan_data_member(deb) {
        Ok(v) => v,
        Err(_) => {
            return Err(FsError::Io);
        },
    };
    let lo = bo as usize;
    let hi: usize = if sz <= (deb.len() - lo) as u64 {
        lo + (sz as usize)
    } else {
        deb.len()
    };
    let member = subrange_vec(deb, lo, hi);
    resolve_member(&member, fspath)
}

} // verus!
