use debugfs::proto::{encode_stat, encode_stats, decode_entry, decode_entries, Qid, QidKind, Stat};

fn sample(name: &str, kind: QidKind, path: u64) -> Stat {
    Stat {
        ty: 0,
        dev: 0,
        qid: Qid { kind, version: 1, path },
        mode: 0x124,
        atime: 0,
        mtime: 0,
        length: 1_000_000_000,
        name: name.as_bytes().to_vec(),
        uid: Vec::new(),
        gid: Vec::new(),
        muid: Vec::new(),
        extension: Vec::new(),
        nuid: 0,
        ngid: 0,
        nmuid: 0,
    }
}

#[test]
fn record_round_trip() {
    let st = sample("aa.debug", QidKind::File, 0xaabbccddeeff0011);
    let rec = encode_stat(&st);
    // size prefix covers the rest of the record
    let inner = u16::from_le_bytes([rec[0], rec[1]]) as usize;
    assert_eq!(rec.len(), inner + 2);
    let e = decode_entry(&rec).unwrap();
    assert_eq!(st.name, e.name);
    assert_eq!(st.qid, e.qid);
    assert_eq!(st.length, e.length);
    assert_eq!(st.mode, e.mode);
}

#[test]
fn listing_round_trip() {
    let stats = vec![
        sample("aa", QidKind::Dir, 0xaa),
        sample("bb", QidKind::Dir, 0xbb),
        sample("cc.debug", QidKind::File, 3),
    ];
    let listing = encode_stats(&stats);
    let entries = decode_entries(&listing).unwrap();
    assert_eq!(3, entries.len());
    for (st, e) in stats.iter().zip(entries.iter()) {
        assert_eq!(st.name, e.name);
        assert_eq!(st.qid, e.qid);
        assert_eq!(st.length, e.length);
        assert_eq!(st.mode, e.mode);
    }
}

#[test]
fn truncated_listing_fails() {
    let listing = encode_stats(&vec![sample("aa", QidKind::Dir, 0xaa)]);
    let cut = listing[..listing.len() - 1].to_vec();
    assert!(decode_entries(&cut).is_none());
}
