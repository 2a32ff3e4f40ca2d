use disk_scanner::sys::attrlist::{
    parse_entry, request, BulkDir, Entry, Malformed, Next, Refused, OPTS, REQ_COMMON, REQ_DIR, REQ_FILE, REQ_FORK,
};
use disk_scanner::sys::ffi::{
    attribute_set, ATTR_BIT_MAP_COUNT, ATTR_CMNEXT_CLONE_REFCNT, ATTR_CMNEXT_EXT_FLAGS, ATTR_CMN_ERROR, ATTR_CMN_NAME,
    ATTR_CMN_OBJTYPE, EF_IS_SPARSE, EF_MAY_SHARE_BLOCKS, EF_SHARES_ALL_BLOCKS, SF_DATALESS, SF_FIRMLINK, UF_COMPRESSED,
    VDIR, VLNK, VREG,
};

/// A packed entry with the attributes that a directory or a file has.
fn pack(e: &Entry) -> Vec<u8> {
    let dir = e.objtype == VDIR;
    let mut common = REQ_COMMON & !ATTR_CMN_ERROR;
    if e.error != 0 {
        common |= ATTR_CMN_ERROR;
    }
    let set = attribute_set {
        commonattr: common,
        volattr: 0,
        dirattr: if dir { REQ_DIR } else { 0 },
        fileattr: if dir { 0 } else { REQ_FILE },
        forkattr: REQ_FORK,
    };
    let mut v: Vec<u8> = vec![0; 4];
    for w in [set.commonattr, set.volattr, set.dirattr, set.fileattr, set.forkattr] {
        v.extend(w.to_le_bytes());
    }
    if e.error != 0 {
        v.extend(e.error.to_le_bytes());
    }
    let at = v.len();
    v.extend([0u8; 8]);
    v.extend(e.devid.to_le_bytes());
    v.extend(e.objtype.to_le_bytes());
    v.extend(e.mtime.to_le_bytes());
    v.extend(123456789i64.to_le_bytes());
    v.extend(e.flags.to_le_bytes());
    v.extend(e.fileid.to_le_bytes());
    if dir {
        v.extend(e.entrycount.to_le_bytes());
    } else {
        v.extend(e.linkcount.to_le_bytes());
        v.extend(e.total_size.to_le_bytes());
        v.extend(e.alloc_size.to_le_bytes());
        v.extend(e.data_length.to_le_bytes());
    }
    v.extend(e.private_size.to_le_bytes());
    v.extend(e.linkid.to_le_bytes());
    v.extend(e.realfsid.to_le_bytes());
    v.extend(e.cloneid.to_le_bytes());
    v.extend(e.ext_flags.to_le_bytes());
    v.extend(e.clone_refcnt.to_le_bytes());
    let off = (v.len() - at) as i32;
    v[at..at + 4].copy_from_slice(&off.to_le_bytes());
    v[at + 4..at + 8].copy_from_slice(&(e.name.len() as u32 + 1).to_le_bytes());
    v.extend(&e.name);
    v.push(0);
    let len = v.len() as u32;
    v[..4].copy_from_slice(&len.to_le_bytes());
    v
}

fn file(name: &str, size: u64) -> Entry {
    Entry {
        name: name.as_bytes().to_vec(),
        objtype: VREG,
        linkcount: 1,
        data_length: size,
        alloc_size: size.div_ceil(4096) * 4096,
        private_size: size.div_ceil(4096) * 4096,
        ..Entry::default()
    }
}

fn fill(d: &mut BulkDir, entries: &[Entry]) {
    let mut bytes = Vec::new();
    for e in entries {
        bytes.extend(pack(e));
    }
    d.buffer()[..bytes.len()].copy_from_slice(&bytes);
    assert_eq!(d.refilled(entries.len() as i32), Ok(()));
}

fn entry(d: &mut BulkDir) -> Entry {
    match d.next_entry() {
        Ok(Next::Entry(e)) => e,
        _ => panic!("no entry"),
    }
}

#[test]
fn parser_agrees_with_metadata() {
    let mut expected: Vec<(String, u64)> = Vec::new();
    for (i, size) in [0usize, 1, 4095, 4096, 100_000].iter().enumerate() {
        expected.push((format!("f{i}.bin"), *size as u64));
    }
    expected.push(("ünïcode–ﬁle.bin".to_string(), 1234));
    let listing: Vec<Entry> = expected.iter().map(|(n, s)| file(n, *s)).collect();
    let mut d = BulkDir::new(64 * 1024);
    fill(&mut d, &listing);
    for (name, size) in &expected {
        let e = entry(&mut d);
        assert_eq!(&e.name, name.as_bytes(), "{name} wrong name");
        assert!(e.is_file(), "{name} wrong kind");
        assert_eq!(e.data_length, *size, "{name} logical size mismatch");
    }
    assert!(matches!(d.next_entry(), Ok(Next::Refill)));
}

#[test]
fn every_field_is_read() {
    let e = Entry {
        name: b"some name".to_vec(),
        error: 0,
        objtype: VREG,
        devid: -7,
        mtime: -1_234_567,
        flags: SF_DATALESS | UF_COMPRESSED,
        fileid: 0xdead_beef_0000_0001,
        entrycount: 0,
        linkcount: 3,
        total_size: 11,
        alloc_size: 22,
        data_length: 33,
        private_size: 44,
        linkid: 55,
        realfsid: -66,
        cloneid: 77,
        ext_flags: 0x1_0000_0000 | EF_IS_SPARSE,
        clone_refcnt: 0x8000_0001,
    };
    let bytes = pack(&e);
    let (r, len) = parse_entry(&bytes).unwrap();
    assert_eq!(len, bytes.len());
    assert_eq!(r.name, e.name);
    assert_eq!(
        (r.error, r.objtype, r.devid, r.mtime, r.flags, r.fileid),
        (e.error, e.objtype, e.devid, e.mtime, e.flags, e.fileid)
    );
    assert_eq!(
        (r.entrycount, r.linkcount, r.total_size, r.alloc_size, r.data_length),
        (0, e.linkcount, e.total_size, e.alloc_size, e.data_length)
    );
    assert_eq!(
        (r.private_size, r.linkid, r.realfsid, r.cloneid, r.ext_flags, r.clone_refcnt),
        (e.private_size, e.linkid, e.realfsid, e.cloneid, e.ext_flags, e.clone_refcnt)
    );
}

#[test]
fn a_directory_has_no_file_attributes() {
    let e = Entry {
        name: b"d".to_vec(),
        objtype: VDIR,
        entrycount: 9,
        fileid: 5,
        realfsid: 6,
        ..Entry::default()
    };
    let (r, _) = parse_entry(&pack(&e)).unwrap();
    assert!(r.is_dir());
    assert_eq!((r.entrycount, r.fileid, r.realfsid, r.linkcount), (9, 5, 6, 0));
}

#[test]
fn an_error_comes_before_the_name() {
    let mut e = file("gone", 1);
    e.error = 13;
    let (r, _) = parse_entry(&pack(&e)).unwrap();
    assert_eq!(r.error, 13);
    assert_eq!(r.name, b"gone");
}

#[test]
fn what_was_not_returned_is_zero() {
    let mut v: Vec<u8> = Vec::new();
    for w in [36u32, ATTR_CMN_OBJTYPE, 0, 0, 0, ATTR_CMNEXT_EXT_FLAGS | ATTR_CMNEXT_CLONE_REFCNT, VLNK] {
        v.extend(w.to_le_bytes());
    }
    v.extend(EF_MAY_SHARE_BLOCKS.to_le_bytes());
    v.extend(2u32.to_le_bytes());
    v[..4].copy_from_slice(&40u32.to_le_bytes());
    let (e, len) = parse_entry(&v).unwrap();
    assert_eq!(len, 40);
    assert!(e.is_symlink());
    assert!(e.name.is_empty());
    assert_eq!((e.ext_flags, e.clone_refcnt, e.fileid), (EF_MAY_SHARE_BLOCKS, 2, 0));
}

#[test]
fn malformed_entries_are_told() {
    assert!(parse_entry(&[]).is_none());
    assert!(parse_entry(&[4, 0, 0, 0]).is_none());
    let good = pack(&file("x", 1));
    let mut short = good.clone();
    short[0] = 3;
    assert!(parse_entry(&short).is_none());
    let mut long = good.clone();
    long[0] = long[0].wrapping_add(1);
    assert!(parse_entry(&long).is_none());
    let mut astray = good.clone();
    astray[24..28].copy_from_slice(&(-100i32).to_le_bytes());
    assert!(parse_entry(&astray).is_none());
    let mut v: Vec<u8> = Vec::new();
    for w in [32u32, ATTR_CMN_NAME, 0, 0, 0, 0, 8, 100] {
        v.extend(w.to_le_bytes());
    }
    assert!(parse_entry(&v).is_none());
}

#[test]
fn a_malformed_entry_is_not_stepped_over() {
    let mut d = BulkDir::new(4096);
    d.buffer()[0] = 1;
    assert_eq!(d.refilled(2), Ok(()));
    assert!(matches!(d.next_entry(), Err(Malformed)));
    assert!(matches!(d.next_entry(), Err(Malformed)));
}

#[test]
fn a_listing_goes_through_several_buffers() {
    let mut d = BulkDir::new(4096);
    assert!(matches!(d.next_entry(), Ok(Next::Refill)));
    fill(&mut d, &[file("a", 1), file("b", 2)]);
    assert_eq!(entry(&mut d).name, b"a");
    assert_eq!(entry(&mut d).name, b"b");
    assert!(matches!(d.next_entry(), Ok(Next::Refill)));
    fill(&mut d, &[file("c", 3)]);
    assert_eq!(entry(&mut d).name, b"c");
    assert_eq!(d.refilled(-1), Err(Refused));
    assert_eq!(d.refilled(0), Ok(()));
    assert!(matches!(d.next_entry(), Ok(Next::End)));
    assert!(matches!(d.next_entry(), Ok(Next::End)));
}

#[test]
fn what_entries_say_of_themselves() {
    let mut e = Entry::default();
    assert!(!e.is_dir() && !e.is_file() && !e.is_symlink());
    assert!(!e.is_dataless() && !e.is_firmlink() && !e.is_compressed() && !e.is_sparse());
    assert!(!e.shares_with_clones());
    e.flags = SF_FIRMLINK;
    assert!(e.is_firmlink());
    e.flags = SF_DATALESS;
    assert!(e.is_dataless());
    e.flags = UF_COMPRESSED;
    assert!(e.is_compressed());
    e.ext_flags = EF_IS_SPARSE;
    assert!(e.is_sparse() && !e.shares_with_clones());
    e.ext_flags = EF_SHARES_ALL_BLOCKS;
    assert!(e.shares_with_clones());
    e.ext_flags = 0;
    e.clone_refcnt = 1;
    assert!(!e.shares_with_clones());
    e.clone_refcnt = 2;
    assert!(e.shares_with_clones());
}

#[test]
fn the_request_names_what_is_parsed() {
    let r = request();
    assert_eq!(r.bitmapcount, ATTR_BIT_MAP_COUNT);
    assert_eq!((r.commonattr, r.dirattr, r.fileattr, r.forkattr), (REQ_COMMON, REQ_DIR, REQ_FILE, REQ_FORK));
    assert_eq!(REQ_COMMON, 0xa204_040b);
    assert_eq!(REQ_FILE, 0x207);
    assert_eq!(REQ_FORK, 0x1398);
    assert_eq!(OPTS, 0x29);
}
