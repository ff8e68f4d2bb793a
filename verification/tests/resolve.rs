use debugfs::debugfs::{resolve_in_archive, resolve_member};
use debugfs::tar;
use debugfs::FsError;
use std::io::Read;

fn xz_compress(data: &[u8]) -> Vec<u8> {
    let mut enc = xz2::read::XzEncoder::new(std::io::Cursor::new(data.to_vec()), 6);
    let mut out = Vec::new();
    enc.read_to_end(&mut out).unwrap();
    out
}

fn ar_header(identifier: &str, size: usize) -> Vec<u8> {
    let mut h = Vec::new();
    let mut field = |text: String, width: usize| {
        let mut f = text.into_bytes();
        while f.len() < width {
            f.push(b' ');
        }
        h.extend_from_slice(&f);
    };
    field(identifier.to_owned(), 16);
    field("0".to_owned(), 12);
    field("0".to_owned(), 6);
    field("0".to_owned(), 6);
    field("644".to_owned(), 8);
    field(format!("{}", size), 10);
    h.push(0x60);
    h.push(0x0a);
    h
}

fn tar_entry(path: &str, payload: &[u8]) -> Vec<u8> {
    let mut header = vec![0u8; 512];
    header[..path.len()].copy_from_slice(path.as_bytes());
    // mode, uid, gid
    header[100..107].copy_from_slice(b"0000644");
    header[108..115].copy_from_slice(b"0000000");
    header[116..123].copy_from_slice(b"0000000");
    // size, octal with trailing space
    let size = format!("{:011o} ", payload.len());
    header[124..136].copy_from_slice(size.as_bytes());
    header[136..147].copy_from_slice(b"00000000000");
    // checksum field is not inspected; keep it spaces
    header[148..156].copy_from_slice(b"        ");
    header[156] = b'0';
    let mut out = header;
    out.extend_from_slice(payload);
    while out.len() % 512 != 0 {
        out.push(0);
    }
    out
}

const BID: &str = "aabbccddeeff00112233445566778899aabbccdd";

fn make_deb(payload: &[u8]) -> (Vec<u8>, Vec<u8>) {
    let fspath = format!("aa/{}.debug", &BID[2..]);
    let mut tarball = Vec::new();
    tarball.extend_from_slice(&tar_entry("./usr/", &[]));
    tarball.extend_from_slice(&tar_entry(
        &format!("./usr/lib/debug/.build-id/{}", fspath),
        payload,
    ));
    tarball.extend_from_slice(&[0u8; 1024]);
    let packed = xz_compress(&tarball);

    let mut deb = b"!<arch>\n".to_vec();
    deb.extend_from_slice(&ar_header("debian-binary", 4));
    deb.extend_from_slice(b"2.0\n");
    deb.extend_from_slice(&ar_header("data.tar.xz", packed.len()));
    deb.extend_from_slice(&packed);
    (deb, fspath.into_bytes())
}

#[test]
fn end_to_end_read() {
    // 64 KiB of known bytes
    let payload: Vec<u8> = (0..65536u32).map(|i| (i % 251) as u8).collect();
    let (deb, fspath) = make_deb(&payload);
    let got = resolve_in_archive(&deb, &fspath).unwrap();
    assert_eq!(payload, got);

    // reading the materialized buffer sequentially returns those bytes
    // exactly, and reading past the end returns no bytes
    let cur = debugfs::debugfs::CursorFile { data: got };
    let mut off = 0u64;
    let mut collected = Vec::new();
    loop {
        let chunk = cur.read_at(8192, off);
        if chunk.is_empty() {
            break;
        }
        off += chunk.len() as u64;
        collected.extend_from_slice(&chunk);
    }
    assert_eq!(payload, collected);
    assert!(cur.read_at(8192, off).is_empty());
}

#[test]
fn resolve_missing_entry_fails() {
    let payload = b"data".to_vec();
    let (deb, _) = make_deb(&payload);
    let other = b"bb/0000000000000000000000000000000000here.debug".to_vec();
    assert_eq!(FsError::Io, resolve_in_archive(&deb, &other).unwrap_err());
}

#[test]
fn resolve_rejects_corrupt_member() {
    let mut deb = b"!<arch>\n".to_vec();
    deb.extend_from_slice(&ar_header("data.tar.xz", 9));
    deb.extend_from_slice(b"not xz at all");
    let fspath = b"aa/x.debug".to_vec();
    assert_eq!(FsError::Io, resolve_in_archive(&deb, &fspath).unwrap_err());
}

#[test]
fn member_resolve_decompresses() {
    // the wrapper must really decompress: handing the compressed member
    // back unchanged could never contain the tar entry
    let payload = b"hello debug file".to_vec();
    let fspath = b"aa/x.debug";
    let tarball = tar_entry("./usr/lib/debug/.build-id/aa/x.debug", &payload);
    let mut stream = tarball.clone();
    stream.extend_from_slice(&[0u8; 1024]);
    let packed = xz_compress(&stream);
    assert!(!packed
        .windows(payload.len())
        .any(|w| w == payload.as_slice()));
    let got = resolve_member(&packed, &fspath.to_vec()).unwrap();
    assert_eq!(payload, got);
}

#[test]
fn tar_locate_respects_sizes() {
    let first = tar_entry("./a", b"0123456789");
    let mut stream = first;
    stream.extend_from_slice(&tar_entry("./b", b"second"));
    stream.extend_from_slice(&[0u8; 1024]);
    assert_eq!(b"0123456789".to_vec(), tar::locate_entry(&stream, &b"./a".to_vec()).unwrap());
    assert_eq!(b"second".to_vec(), tar::locate_entry(&stream, &b"./b".to_vec()).unwrap());
    assert_eq!(tar::Error::NotFound, tar::locate_entry(&stream, &b"./c".to_vec()).unwrap_err());
}

#[test]
fn tar_bad_size_field() {
    let mut stream = tar_entry("./a", b"x");
    stream[124..136].copy_from_slice(b"not octal!!!");
    assert_eq!(tar::Error::BadSize, tar::locate_entry(&stream, &b"./a".to_vec()).unwrap_err());
}

#[test]
fn ustar_prefix_joins_paths() {
    let mut entry = tar_entry("name.debug", b"payload");
    let prefix = b"some/long/prefix";
    entry[345..345 + prefix.len()].copy_from_slice(prefix);
    let mut stream = entry;
    stream.extend_from_slice(&[0u8; 1024]);
    assert_eq!(
        b"payload".to_vec(),
        tar::locate_entry(&stream, &b"some/long/prefix/name.debug".to_vec()).unwrap()
    );
}
