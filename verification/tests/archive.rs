use debugfs::ar;

/// A 60-byte member header with the given identifier and sizes.
fn header(identifier: &str, timestamp: &str, owner: &str, group: &str, mode: &str, size: &str)
    -> Vec<u8> {
    let mut h = Vec::new();
    let mut field = |text: &str, width: usize| {
        let mut f = text.as_bytes().to_vec();
        while f.len() < width {
            f.push(b' ');
        }
        h.extend_from_slice(&f);
    };
    field(identifier, 16);
    field(timestamp, 12);
    field(owner, 6);
    field(group, 6);
    field(mode, 8);
    field(size, 10);
    h.push(0x60);
    h.push(0x0a);
    h
}

#[test]
fn magic_check() {
    // a file holding only the magic: open succeeds, no members follow
    let deb = b"!<arch>\n".to_vec();
    let prefix = deb.clone();
    let cur = ar::Deb::open(deb.len() as u64, &prefix).unwrap();
    assert!(cur.member_header_range().is_none());
}

#[test]
fn wrong_magic_fails() {
    let prefix = b"!<arch>!".to_vec();
    match ar::Deb::open(8, &prefix) {
        Err(e) => assert_eq!(ar::Error::BadMagic, e),
        Ok(_) => panic!("open must reject a wrong magic"),
    }
}

#[test]
fn single_member() {
    let mut deb = b"!<arch>\n".to_vec();
    deb.extend_from_slice(&header("hello", "0", "0", "0", "644", "5"));
    deb.extend_from_slice(b"world");

    let prefix = deb[0..8].to_vec();
    let mut cur = ar::Deb::open(deb.len() as u64, &prefix).unwrap();
    let (start, len) = cur.member_header_range().unwrap();
    assert_eq!((8, 60), (start, len));
    let h = deb[start as usize..(start + len) as usize].to_vec();
    let member = cur.next(&h).unwrap().unwrap();
    assert_eq!(b"hello".to_vec(), member.header.identifier);
    assert_eq!(5, member.header.size);
    assert_eq!(68, member.body_offset);
    let body =
        deb[member.body_offset as usize..(member.body_offset + member.body_len) as usize].to_vec();
    assert_eq!(b"world".to_vec(), body);
    // the cursor advanced by exactly 60 + size, and no member follows
    assert!(cur.member_header_range().is_none());
}

#[test]
fn bad_trailer() {
    let mut h = header("hello", "0", "0", "0", "644", "5");
    h[58] = 0x00;
    h[59] = 0x00;
    let mut deb = b"!<arch>\n".to_vec();
    deb.extend_from_slice(&h);
    let prefix = deb[0..8].to_vec();
    let mut cur = ar::Deb::open(deb.len() as u64, &prefix).unwrap();
    match cur.next(&h) {
        Err(e) => assert_eq!(ar::Error::BadTrailer, e),
        Ok(_) => panic!("next must reject a bad trailer"),
    }
}

#[test]
fn bad_numeral() {
    let h = header("hello", "0", "0", "0", "644", "5x");
    let mut deb = b"!<arch>\n".to_vec();
    deb.extend_from_slice(&h);
    let prefix = deb[0..8].to_vec();
    let mut cur = ar::Deb::open(deb.len() as u64, &prefix).unwrap();
    match cur.next(&h) {
        Err(e) => assert_eq!(ar::Error::BadNumeral, e),
        Ok(_) => panic!("next must reject a bad numeral"),
    }
}

#[test]
fn header_fields_parse() {
    let h = header("control.tar.gz", "1700000000", "12", "34", "100644", "1234");
    let hd = ar::parse_header(&h).unwrap();
    assert_eq!(b"control.tar.gz".to_vec(), hd.identifier);
    assert_eq!(1700000000, hd.timestamp);
    assert_eq!(12, hd.owner);
    assert_eq!(34, hd.group);
    assert_eq!(100644, hd.mode);
    assert_eq!(1234, hd.size);
}

#[test]
fn scan_finds_data_member() {
    let mut deb = b"!<arch>\n".to_vec();
    deb.extend_from_slice(&header("debian-binary", "0", "0", "0", "644", "4"));
    deb.extend_from_slice(b"2.0\n");
    deb.extend_from_slice(&header("data.tar.xz", "0", "0", "0", "644", "3"));
    deb.extend_from_slice(b"xyz");
    let (bo, sz) = ar::scan_data_member(&deb).unwrap();
    assert_eq!(3, sz);
    assert_eq!(b"xyz".to_vec(), deb[bo as usize..(bo + sz) as usize].to_vec());
}

#[test]
fn scan_without_data_member() {
    let mut deb = b"!<arch>\n".to_vec();
    deb.extend_from_slice(&header("debian-binary", "0", "0", "0", "644", "4"));
    deb.extend_from_slice(b"2.0\n");
    assert_eq!(ar::Error::NoSuchMember, ar::scan_data_member(&deb).unwrap_err());
}

#[test]
fn scan_truncated_header() {
    let mut deb = b"!<arch>\n".to_vec();
    deb.extend_from_slice(b"short");
    match debugfs::ar::scan_data_member(&deb) {
        Err(e) => assert_eq!(ar::Error::Truncated, e),
        Ok(_) => panic!("scan must reject a truncated header"),
    }
}
