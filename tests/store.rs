use file_mmap::FileMmap;
use various_data_file::{DataAddress, MappedFile, StoreError, VariousDataFile};

fn empty_file(path: &str) -> MappedFile {
    let mut map = FileMmap::new(path).unwrap();
    map.set_len(0).unwrap();
    MappedFile::open(map, Vec::new())
}

fn fresh_store(name: &str) -> VariousDataFile {
    let path = format!("/tmp/vdf_{}.str", name);
    let data = empty_file(&path);
    let free_list = empty_file(&(path + ".f"));
    VariousDataFile::new(data, free_list).unwrap()
}

fn insert_at(s: &mut VariousDataFile, bytes: &[u8]) -> DataAddress {
    *s.insert(bytes).unwrap().address()
}

#[test]
fn test() {
    let mut s = fresh_store("test");
    let noah = s.insert(b"Noah").unwrap().address().clone();
    let liam = s.insert(b"Liam").unwrap().address().clone();
    let olivia = s.insert(b"Olivia").unwrap().address().clone();

    s.remove(&noah).unwrap();

    if let Ok(w) = s.insert(b"Renamed Noah") {
        assert_eq!(
            "Renamed Noah".to_string(),
            std::str::from_utf8(w.bytes()).unwrap().to_string()
        );
    }
    s.remove(&liam).unwrap();
    if let Ok(w) = s.insert(b"Renamed Liam") {
        assert_eq!(
            "Renamed Liam".to_string(),
            std::str::from_utf8(w.bytes()).unwrap().to_string()
        );
    }
    s.remove(&olivia).unwrap();
    if let Ok(w) = s.insert(b"Renamed Olivia") {
        assert_eq!(
            "Renamed Olivia".to_string(),
            std::str::from_utf8(w.bytes()).unwrap().to_string()
        );
    }
    if let Ok(w) = s.insert(b"Noah") {
        assert_eq!(
            "Noah".to_string(),
            std::str::from_utf8(w.bytes()).unwrap().to_string()
        );
    }
    if let Ok(w) = s.insert(b"Liam") {
        assert_eq!(
            "Liam".to_string(),
            std::str::from_utf8(w.bytes()).unwrap().to_string()
        );
    }
    if let Ok(w) = s.insert(b"Olivia") {
        assert_eq!(
            "Olivia".to_string(),
            std::str::from_utf8(w.bytes()).unwrap().to_string()
        );
    }
}

#[test]
fn scenario_newest_free_span_first() {
    let mut s = fresh_store("scenario");
    let noah = insert_at(&mut s, b"Noah");
    let liam = insert_at(&mut s, b"Liam");
    let olivia = insert_at(&mut s, b"Olivia");
    assert_eq!((noah.offset(), noah.len()), (1, 4));
    assert_eq!((liam.offset(), liam.len()), (5, 4));
    assert_eq!((olivia.offset(), olivia.len()), (9, 6));

    s.remove(&noah).unwrap();
    assert_eq!(s.free_count(), 1);
    assert_eq!(s.free_span(1), DataAddress::new(1, 4));

    let renamed = insert_at(&mut s, b"Renamed Noah");
    assert_eq!(renamed.offset(), 15);
    assert_eq!(renamed.len(), 12);

    s.remove(&liam).unwrap();
    assert_eq!(s.free_count(), 2);
    let again = insert_at(&mut s, b"Noah");
    assert_eq!(again.offset(), 5);
    assert_eq!(s.bytes(&again), b"Noah");
    assert_eq!(s.free_count(), 1);
    assert_eq!(s.free_span(1), DataAddress::new(1, 4));
}

#[test]
fn round_trip_reads_back_payload() {
    let mut s = fresh_store("round_trip");
    let payload: Vec<u8> = (0u8..=255).collect();
    let d = s.insert(&payload).unwrap();
    assert_eq!(d.bytes(), payload.as_slice());
    let a = *d.address();
    assert_eq!(a.offset(), 1);
    assert_eq!(a.len(), 256);
    let one = insert_at(&mut s, b"x");
    assert_eq!(s.bytes(&one), b"x");
    assert_eq!(s.bytes(&a), payload.as_slice());
}

#[test]
fn reuse_after_remove_takes_same_offset() {
    let mut s = fresh_store("reuse");
    let first = insert_at(&mut s, b"abcdefgh");
    let _second = insert_at(&mut s, b"ijkl");
    s.remove(&first).unwrap();
    assert_eq!(s.bytes(&first), &[0u8; 8]);
    let shorter = insert_at(&mut s, b"XYZ");
    assert_eq!(shorter.offset(), first.offset());
    assert_eq!(s.bytes(&shorter), b"XYZ");
    // The rest of the span stays free, shrunk from its front.
    assert_eq!(s.free_count(), 1);
    assert_eq!(s.free_span(1), DataAddress::new(4, 5));
    let rest = insert_at(&mut s, b"12345");
    assert_eq!(rest.offset(), 4);
    assert_eq!(s.free_count(), 0);
    assert_eq!(s.len(), 13);
}

#[test]
fn append_fallback_when_nothing_fits() {
    let mut s = fresh_store("append");
    assert_eq!(s.len(), 1);
    assert_eq!(s.free_count(), 0);
    assert_eq!(s.bytes(&DataAddress::new(0, 1)), &[0u8]);
    let a = insert_at(&mut s, b"hello");
    assert_eq!(a.offset(), 1);
    assert_eq!(s.len(), 6);
    s.remove(&a).unwrap();
    let before = s.len();
    let b = insert_at(&mut s, b"longer than five");
    assert_eq!(b.offset() as u64, before);
    assert_eq!(s.len(), before + 16);
    assert_eq!(s.free_count(), 1);
}

#[test]
fn empty_payload_is_rejected() {
    let mut s = fresh_store("empty");
    let r = s.insert(b"");
    assert!(matches!(r, Err(StoreError::EmptyPayload)));
    assert_eq!(s.len(), 1);
    assert_eq!(s.free_count(), 0);
}

#[test]
fn removed_bytes_are_zeroed() {
    let mut s = fresh_store("zeroed");
    let a = insert_at(&mut s, b"secret");
    s.remove(&a).unwrap();
    assert_eq!(s.bytes(&a), &[0u8; 6]);
}

#[test]
fn tail_retirement_and_dead_interior_slot() {
    let mut s = fresh_store("retire");
    let a = insert_at(&mut s, b"aaaa");
    let _k = insert_at(&mut s, b"k");
    let b = insert_at(&mut s, b"bb");
    s.remove(&a).unwrap();
    s.remove(&b).unwrap();
    assert_eq!(s.free_count(), 2);

    // Row 2 is too short; row 1 is used up but is not the last row.
    let c = insert_at(&mut s, b"cccc");
    assert_eq!(c.offset(), a.offset());
    assert_eq!(s.free_count(), 2);
    assert_eq!(s.free_span(1), DataAddress::new(5, 0));

    // Row 2, the last row, is used up in two steps and retires.
    let d = insert_at(&mut s, b"d");
    assert_eq!(d.offset(), b.offset());
    assert_eq!(s.free_count(), 2);
    let e = insert_at(&mut s, b"e");
    assert_eq!(e.offset(), b.offset() + 1);
    assert_eq!(s.free_count(), 1);

    // The dead row is never found again: the next payload is appended.
    let end = s.len();
    let f = insert_at(&mut s, b"f");
    assert_eq!(f.offset() as u64, end);
    assert_eq!(s.free_count(), 1);
}

#[test]
fn reopen_recovers_free_list() {
    let path = "/tmp/vdf_reopen.str";
    let list_path = "/tmp/vdf_reopen.str.f";
    let mut s = VariousDataFile::new(empty_file(path), empty_file(list_path)).unwrap();
    let mut addrs = Vec::new();
    for i in 0u8..5 {
        addrs.push(insert_at(&mut s, &[b'a' + i; 3]));
    }
    s.remove(&addrs[1]).unwrap();
    s.remove(&addrs[3]).unwrap();
    let kept = insert_at(&mut s, b"zz");
    assert_eq!(kept.offset(), addrs[3].offset());
    let count = s.free_count();
    let spans: Vec<DataAddress> = (1..=count).map(|r| s.free_span(r)).collect();
    assert_eq!(count, 2);

    let (data, list) = s.into_files();
    let data_img = data.to_vec();
    let mut list_img = list.to_vec();
    drop(data);
    drop(list);

    // Set the stored counter far above the rows really in use.
    let mut list_map = FileMmap::new(list_path).unwrap();
    list_map.write(0, &100u64.to_le_bytes()).unwrap();
    list_img[..8].copy_from_slice(&100u64.to_le_bytes());

    let data_map = FileMmap::new(path).unwrap();
    let mut t = VariousDataFile::new(
        MappedFile::open(data_map, data_img),
        MappedFile::open(list_map, list_img),
    )
    .unwrap();
    assert_eq!(t.free_count(), count);
    for (i, span) in spans.iter().enumerate() {
        assert_eq!(t.free_span(i as u64 + 1), *span);
    }
    assert_eq!(t.bytes(&addrs[0]), b"aaa");
    assert_eq!(t.bytes(&kept), b"zz");
    let again = insert_at(&mut t, b"qqq");
    assert_eq!(again.offset(), addrs[1].offset());
}
