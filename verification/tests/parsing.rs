use debugfs::deb822;

fn bytes(s: &str) -> Vec<u8> {
    s.as_bytes().to_vec()
}

#[test]
fn split_default() {
    let release = "Package: zziplib-bin-dbgsym
Build-Ids: 204d62991035324322317de6f71f494c06a10d37 23c08beddf41e0098035f3c34274450ccc0a9f21 24853edbb338b1ce4c09b45281a64d28d7d0a99a 34222ab9d2c0784113e2c991c43c9edda92fd84c 5450729f198b53118807b4ff47160c47929d861d 558c758a6c699700f7bde7672c62312633894838 6653faaf15da53e47d66fffad6cadaa55ab70b2a 8eaa681a70ef64e31de5e682a27c17edeeaa0144 ad3e49a7ea5869ec5f24b928511986ce47906548 f9fd0e00a95264500fef36579447493a3f17e374
Filename: pool/main/z/zziplib/zziplib-bin-dbgsym_0.13.72+dfsg.1-1.2_amd64.deb

Package: zzuf-dbgsym
Build-Ids: 1c54e04fcf760c428d0afa79a33ffb8e068d35d5 49a0ba466e7cea361ccb59d054ba9986a1ab7824 9f6d2126e25fb242c203472a2a6d32157f33af70
Filename: pool/main/z/zzuf/zzuf-dbgsym_0.15-2+b4_amd64.deb
";

    let cur = bytes(release);
    let (zzip, pos) = deb822::next(&cur, 0).unwrap().unwrap();
    assert_eq!(
        b"zziplib-bin-dbgsym".to_vec(),
        *zzip.get(&bytes("Package")).unwrap()
    );

    let (zuf, pos2) = deb822::next(&cur, pos).unwrap().unwrap();
    assert_eq!(b"zzuf-dbgsym".to_vec(), *zuf.get(&bytes("Package")).unwrap());

    assert!(deb822::next(&cur, pos2).unwrap().is_none());
}

#[test]
fn paragraph_sequence() {
    let input = bytes("Package: a\nFilename: p/a.deb\n\nPackage: b\nFilename: p/b.deb\n");
    let (p1, pos) = deb822::next(&input, 0).unwrap().unwrap();
    assert_eq!(b"a".to_vec(), *p1.get(&bytes("Package")).unwrap());
    assert_eq!(b"p/a.deb".to_vec(), *p1.get(&bytes("Filename")).unwrap());
    let (p2, pos2) = deb822::next(&input, pos).unwrap().unwrap();
    assert_eq!(b"b".to_vec(), *p2.get(&bytes("Package")).unwrap());
    assert!(deb822::next(&input, pos2).unwrap().is_none());
}

#[test]
fn fields_are_trimmed() {
    let input = bytes("  Key  :   some value  \n");
    let (p, _) = deb822::next(&input, 0).unwrap().unwrap();
    assert_eq!(b"some value".to_vec(), *p.get(&bytes("Key")).unwrap());
    assert!(p.get(&bytes("  Key  ")).is_none());
}

#[test]
fn duplicate_keys_last_wins() {
    let input = bytes("K: first\nK: second\n");
    let (p, _) = deb822::next(&input, 0).unwrap().unwrap();
    assert_eq!(b"second".to_vec(), *p.get(&bytes("K")).unwrap());
}

#[test]
fn malformed_line_fails() {
    let input = bytes("Package: a\nno separator here\n");
    assert_eq!(deb822::Error::Malformed, deb822::next(&input, 0).unwrap_err());
}

#[test]
fn empty_input_is_end_of_stream() {
    let input: Vec<u8> = Vec::new();
    assert!(deb822::next(&input, 0).unwrap().is_none());
}

#[test]
fn blank_input_is_end_of_stream() {
    // a lone blank line is not an empty paragraph
    let input = bytes("\n");
    assert!(deb822::next(&input, 0).unwrap().is_none());
    let input = bytes("\n\n  \n");
    assert!(deb822::next(&input, 0).unwrap().is_none());
}

#[test]
fn leading_blank_lines_are_skipped() {
    let input = bytes("\n\nPackage: a\n\nPackage: b\n");
    let (p1, pos) = deb822::next(&input, 0).unwrap().unwrap();
    assert_eq!(b"a".to_vec(), *p1.get(&bytes("Package")).unwrap());
    let (p2, pos2) = deb822::next(&input, pos).unwrap().unwrap();
    assert_eq!(b"b".to_vec(), *p2.get(&bytes("Package")).unwrap());
    assert!(deb822::next(&input, pos2).unwrap().is_none());
}
