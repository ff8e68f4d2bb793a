use debugfs::debugfs::{File, IoDirection, OpenMode, Opened, OpenFile, CursorFile, StreamFile};
use debugfs::proto;
use debugfs::FsError;
use std::io::Read;

fn bytes(s: &str) -> Vec<u8> {
    s.as_bytes().to_vec()
}

fn xz_compress(data: &[u8]) -> Vec<u8> {
    let mut enc = xz2::read::XzEncoder::new(std::io::Cursor::new(data.to_vec()), 6);
    let mut out = Vec::new();
    enc.read_to_end(&mut out).unwrap();
    out
}

const BID: &str = "aabbccddeeff00112233445566778899aabbccdd";

fn attach_minimal() -> File {
    let fs = debugfs::index::Debug::new(&bytes("http://mirror.example/debian-debug"), &bytes("unstable-debug"), &bytes("main"));
    assert_eq!(
        bytes("http://mirror.example/debian-debug/dists/unstable-debug/main/binary-amd64/Packages.xz"),
        fs.packages
    );
    let index = format!("Filename: pool/x.deb\nBuild-Ids: {}\n", BID);
    let packed = xz_compress(index.as_bytes());
    fs.attach(&packed).unwrap()
}

#[test]
fn index_attach() {
    let root = attach_minimal();
    assert_eq!(bytes("/"), root.name());
    let leaf_name = format!("{}.debug", &BID[2..]);
    let (target, chain) = root.walk(&vec![bytes("aa"), bytes(&leaf_name)]);
    let target = target.expect("walk should resolve the leaf");
    assert_eq!(2, chain.len());
    assert_eq!(bytes(&leaf_name), target.name());
    match &target {
        File::DebugHeader(l) => {
            assert_eq!(bytes(BID), l.build_id);
            assert_eq!(bytes("http://mirror.example/debian-debug/pool/x.deb"), l.pool);
            assert_eq!(bytes(&format!("aa/{}.debug", &BID[2..])), l.fspath);
        }
        _ => panic!("expected a leaf"),
    }
}

#[test]
fn attach_rejects_bad_stream() {
    let fs = debugfs::index::Debug::new(&bytes("http://mirror.example/dd"), &bytes("s"), &bytes("c"));
    let err = fs.attach(&bytes("not an xz stream")).unwrap_err();
    assert_eq!(121, err.code());
    assert_eq!("EREMOTEIO", err.tag());
}

#[test]
fn attach_rejects_malformed_paragraph() {
    let fs = debugfs::index::Debug::new(&bytes("http://mirror.example/dd"), &bytes("s"), &bytes("c"));
    let packed = xz_compress(b"line without separator\n");
    assert_eq!(FsError::Remoteio, fs.attach(&packed).unwrap_err());
}

#[test]
fn walk_empty_path_is_identity() {
    let root = attach_minimal();
    let (target, chain) = root.walk(&Vec::new());
    assert!(target.is_some());
    assert_eq!(0, chain.len());
    assert_eq!(bytes("/"), target.unwrap().name());
}

#[test]
fn walk_miss_is_partial() {
    let root = attach_minimal();
    let (target, chain) = root.walk(&vec![bytes("zz")]);
    assert!(target.is_none());
    assert_eq!(0, chain.len());
    let (target2, chain2) = root.walk(&vec![bytes("aa"), bytes("missing")]);
    assert!(target2.is_none());
    assert_eq!(1, chain2.len());
}

#[test]
fn walk_to_miss_is_enoent() {
    let root = attach_minimal();
    let err = root.walk_to(&bytes("zz")).unwrap_err();
    assert_eq!(2, err.code());
    assert_eq!("ENOENT", err.tag());
}

#[test]
fn stat_records_repeat() {
    let root = attach_minimal();
    let s1 = root.stat().unwrap();
    let s2 = root.stat().unwrap();
    assert_eq!(s1.name, s2.name);
    assert_eq!(s1.qid, s2.qid);
    assert_eq!(s1.mode, s2.mode);
    assert_eq!(s1.length, s2.length);
}

#[test]
fn qids_follow_names() {
    let root = attach_minimal();
    assert_eq!(proto::Qid { kind: proto::QidKind::Dir, version: 1, path: 1 }, root.qid());
    let dir = root.walk_to(&bytes("aa")).unwrap();
    assert_eq!(proto::Qid { kind: proto::QidKind::Dir, version: 1, path: 0xaa }, dir.qid());
    let leaf_name = format!("{}.debug", &BID[2..]);
    let leaf = dir.walk_to(&bytes(&leaf_name)).unwrap();
    // the first 16 hex characters of the build-id
    assert_eq!(
        proto::Qid { kind: proto::QidKind::File, version: 1, path: 0xaabbccddeeff0011 },
        leaf.qid()
    );
}

#[test]
fn stat_mode_and_sentinel_size() {
    let root = attach_minimal();
    let st = root.stat().unwrap();
    assert_eq!(0o555, st.mode);
    assert_eq!(1_000_000_000, st.length);
    assert_eq!(0, st.nuid);
    let leaf_name = format!("{}.debug", &BID[2..]);
    let leaf = root.walk_to(&bytes("aa")).unwrap().walk_to(&bytes(&leaf_name)).unwrap();
    assert_eq!(0o444, leaf.stat().unwrap().mode);
}

#[test]
fn write_operations_are_denied() {
    let mut root = attach_minimal();
    assert_eq!(FsError::Perm, root.wstat().unwrap_err());
    assert_eq!(FsError::Perm, root.unlink().unwrap_err());
    assert_eq!(FsError::Perm, root.create().unwrap_err());
    assert_eq!(1, FsError::Perm.code());
    assert_eq!("EPERM", FsError::Perm.tag());
}

#[test]
fn open_rejects_writes() {
    let root = attach_minimal();
    assert_eq!(FsError::Perm, root.open(OpenMode { mode: 1 }).unwrap_err());
    assert_eq!(FsError::Perm, root.open(OpenMode { mode: 2 }).unwrap_err());
    assert!(root.open(OpenMode { mode: 0 }).is_ok());
    assert_eq!(IoDirection::Read, OpenMode { mode: 3 }.direction());
}

#[test]
fn listing_round_trips() {
    let root = attach_minimal();
    let opened = root.open(OpenMode { mode: 0 }).unwrap();
    let listing = match opened {
        Opened::Listing(OpenFile::Cursor(c)) => c.data,
        _ => panic!("expected a listing"),
    };
    let entries = proto::decode_entries(&listing).expect("listing must re-parse");
    assert_eq!(1, entries.len());
    assert_eq!(bytes("aa"), entries[0].name);
    assert_eq!(proto::Qid { kind: proto::QidKind::Dir, version: 1, path: 0xaa }, entries[0].qid);
    assert_eq!(1_000_000_000, entries[0].length);
    assert_eq!(0o555, entries[0].mode);

    let dir = root.walk_to(&bytes("aa")).unwrap();
    let opened = dir.open(OpenMode { mode: 0 }).unwrap();
    let listing = match opened {
        Opened::Listing(OpenFile::Cursor(c)) => c.data,
        _ => panic!("expected a listing"),
    };
    let entries = proto::decode_entries(&listing).unwrap();
    assert_eq!(1, entries.len());
    assert_eq!(bytes(&format!("{}.debug", &BID[2..])), entries[0].name);
    assert_eq!(proto::QidKind::File, entries[0].qid.kind);
}

#[test]
fn leaf_open_names_the_archive() {
    let root = attach_minimal();
    let leaf_name = format!("{}.debug", &BID[2..]);
    let leaf = root.walk_to(&bytes("aa")).unwrap().walk_to(&bytes(&leaf_name)).unwrap();
    match leaf.open(OpenMode { mode: 0 }).unwrap() {
        Opened::Resolve { pool, fspath } => {
            assert_eq!(bytes("http://mirror.example/debian-debug/pool/x.deb"), pool);
            assert_eq!(bytes(&format!("aa/{}.debug", &BID[2..])), fspath);
        }
        _ => panic!("expected resolve work"),
    }
}

#[test]
fn cursor_reads_at_offsets() {
    let cur = CursorFile { data: (0u8..10).collect() };
    assert_eq!(vec![2u8, 3, 4, 5], cur.read_at(4, 2));
    assert_eq!(vec![8u8, 9], cur.read_at(10, 8));
    assert_eq!(Vec::<u8>::new(), cur.read_at(4, 10));
    assert_eq!(Vec::<u8>::new(), cur.read_at(4, 100));
}

#[test]
fn stream_reads_are_sequential() {
    let mut st = StreamFile { offset: 0 };
    assert_eq!(FsError::Espipe, st.check_offset(5).unwrap_err());
    assert_eq!(29, FsError::Espipe.code());
    st.check_offset(0).unwrap();
    st.advance(100);
    assert_eq!(FsError::Espipe, st.check_offset(0).unwrap_err());
    st.check_offset(100).unwrap();
    st.advance(11);
    assert_eq!(111, st.offset);
}

#[test]
fn duplicate_build_ids_make_duplicate_leaves() {
    let fs = debugfs::index::Debug::new(&bytes("http://m.example/d"), &bytes("s"), &bytes("c"));
    let index = format!(
        "Filename: pool/x.deb\nBuild-Ids: {bid}\n\nFilename: pool/y.deb\nBuild-Ids: {bid}\n",
        bid = BID
    );
    let root = fs.attach(&xz_compress(index.as_bytes())).unwrap();
    let dir = root.walk_to(&bytes("aa")).unwrap();
    let opened = dir.open(OpenMode { mode: 0 }).unwrap();
    let listing = match opened {
        Opened::Listing(OpenFile::Cursor(c)) => c.data,
        _ => panic!("expected a listing"),
    };
    assert_eq!(2, proto::decode_entries(&listing).unwrap().len());
}

#[test]
fn paragraphs_missing_fields_are_skipped() {
    let fs = debugfs::index::Debug::new(&bytes("http://m.example/d"), &bytes("s"), &bytes("c"));
    let index = format!(
        "Package: no-ids\nFilename: pool/a.deb\n\nFilename: pool/x.deb\nBuild-Ids: {}\n",
        BID
    );
    let root = fs.attach(&xz_compress(index.as_bytes())).unwrap();
    match &root {
        File::Root(r) => assert_eq!(1, r.entries.len()),
        _ => panic!("expected the root"),
    }
}

#[test]
fn built_nodes_are_well_formed() {
    let root = attach_minimal();
    assert!(root.check_wf());
    let dir = root.walk_to(&bytes("aa")).unwrap();
    assert!(dir.check_wf());
    let leaf_name = format!("{}.debug", &BID[2..]);
    assert!(dir.walk_to(&bytes(&leaf_name)).unwrap().check_wf());
    // a node an outside caller assembled by hand can fail the test
    let bogus = File::Directory(debugfs::debugfs::Directory {
        name: bytes("ZZ"),
        entries: Vec::new(),
    });
    assert!(!bogus.check_wf());
}
