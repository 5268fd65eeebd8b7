use bytes::Bytes;
use kepler::storage::lsm::sstable::{encode_record, parse_index, read_record, SsTable, SsTableWriter};
use kepler::types::Error;

fn b(s: &str) -> Bytes {
    Bytes::copy_from_slice(s.as_bytes())
}

fn write_simple_sst(kvs: &[(&str, Option<&str>)]) -> Bytes {
    let entries: Vec<(Bytes, Option<Bytes>)> = kvs.iter().map(|(k, v)| (b(k), v.map(b))).collect();
    SsTableWriter::write(&entries, 42)
}

fn open(name: &str, image: Bytes) -> Result<SsTable, Error> {
    SsTable::open(name.to_string(), 1, image)
}

#[test]
fn roundtrip_writes_and_reads() {
    let image = write_simple_sst(&[("a", Some("1")), ("b", Some("2")), ("c", Some("3"))]);
    let sst = open("test.sst", image).unwrap();
    assert_eq!(sst.num_entries(), 3);
    assert_eq!(sst.max_seq(), 42);
    assert_eq!(sst.get(b"a").unwrap(), Some(Some(b("1"))));
    assert_eq!(sst.get(b"b").unwrap(), Some(Some(b("2"))));
    assert_eq!(sst.get(b"c").unwrap(), Some(Some(b("3"))));
    assert_eq!(sst.get(b"missing").unwrap(), None);
}

#[test]
fn tombstone_roundtrip() {
    let image = write_simple_sst(&[("a", Some("1")), ("b", None), ("c", Some("3"))]);
    let sst = open("t.sst", image).unwrap();
    assert_eq!(sst.get(b"a").unwrap(), Some(Some(b("1"))));
    assert_eq!(sst.get(b"b").unwrap(), Some(None));
    assert_eq!(sst.get(b"c").unwrap(), Some(Some(b("3"))));
}

#[test]
fn scan_range() {
    let image = write_simple_sst(&[
        ("a", Some("1")),
        ("b", Some("2")),
        ("c", Some("3")),
        ("d", Some("4")),
    ]);
    let sst = open("s.sst", image).unwrap();
    let got = sst.scan(b"b", b"d").unwrap();
    let keys: Vec<_> = got.into_iter().map(|(k, _)| k).collect();
    assert_eq!(keys, vec![b("b"), b("c")]);
}

#[test]
fn rejects_bad_magic() {
    let image = write_simple_sst(&[("a", Some("1"))]);
    // Overwrite the magic in the footer with garbage.
    let mut bytes = image.to_vec();
    let len = bytes.len();
    for i in len - 8..len {
        bytes[i] = 0xFF;
    }
    assert!(open("bad.sst", Bytes::from(bytes)).is_err());
}

#[test]
fn empty_value_roundtrip() {
    let image = write_simple_sst(&[("k", Some(""))]);
    let sst = open("e.sst", image).unwrap();
    assert_eq!(sst.get(b"k").unwrap(), Some(Some(b(""))));
}

fn message(name: &str, bytes: Vec<u8>) -> String {
    match open(name, Bytes::from(bytes)) {
        Err(e) => e.message(),
        Ok(_) => panic!("the table opened"),
    }
}

#[test]
fn each_fault_is_named() {
    assert_eq!(
        message("dir/x.sst", vec![0; 39]),
        "storage: sstable \"dir/x.sst\": file too small (39 bytes)"
    );
    assert_eq!(
        message("x.sst", vec![0xFF; 40]),
        "storage: sstable \"x.sst\": bad magic 0xffffffffffffffff"
    );
    let good = write_simple_sst(&[("a", Some("1"))]).to_vec();
    let footer = good.len() - 40;
    let mut offsets = good.clone();
    offsets[footer] += 1;
    assert_eq!(
        message("x.sst", offsets),
        "storage: sstable \"x.sst\": footer offsets don't add up"
    );
    let mut index = good.clone();
    // the key of the only index line now seems to be longer than the index
    index[footer - 13] = 200;
    assert_eq!(message("x.sst", index), "storage: sstable \"x.sst\": corrupt index");
}

#[test]
fn a_table_has_the_stated_bytes() {
    let image = write_simple_sst(&[("a", Some("1")), ("b", None)]);
    let mut want: Vec<u8> = Vec::new();
    want.extend_from_slice(&[0, 1, 0, 0, 0, b'a', 1, 0, 0, 0, b'1']);
    want.extend_from_slice(&[1, 1, 0, 0, 0, b'b']);
    want.extend_from_slice(&[1, 0, 0, 0, b'a', 0, 0, 0, 0, 0, 0, 0, 0]);
    want.extend_from_slice(&[1, 0, 0, 0, b'b', 11, 0, 0, 0, 0, 0, 0, 0]);
    want.extend_from_slice(&17u64.to_le_bytes());
    want.extend_from_slice(&26u64.to_le_bytes());
    want.extend_from_slice(&2u64.to_le_bytes());
    want.extend_from_slice(&42u64.to_le_bytes());
    want.extend_from_slice(&0xCAFE_F00D_DEAD_BEEFu64.to_le_bytes());
    assert_eq!(image.to_vec(), want);
}

#[test]
fn records_are_read_one_by_one() {
    let mut buf: Vec<u8> = Vec::new();
    encode_record(b"key", &Some(b("value")), &mut buf);
    let first = buf.len() as u64;
    encode_record(b"gone", &None, &mut buf);
    let ((k, v), next) = read_record(&buf, 0).unwrap();
    assert_eq!((k, v), (b("key"), Some(b("value"))));
    assert_eq!(next, first);
    let ((k, v), next) = read_record(&buf, first).unwrap();
    assert_eq!((k, v), (b("gone"), None));
    assert_eq!(next, buf.len() as u64);
    assert!(matches!(read_record(&buf, next), Err(Error::Io(_))));
    buf[0] = 9;
    let err = match read_record(&buf, 0) {
        Err(e) => e.message(),
        Ok(_) => panic!("read a record of no type"),
    };
    assert_eq!(err, "storage: sstable: bad record type 9");
}

#[test]
fn an_index_fills_its_bytes() {
    let lines = [1u8, 0, 0, 0, b'a', 7, 0, 0, 0, 0, 0, 0, 0];
    let index = parse_index(&lines).unwrap();
    assert_eq!(index, vec![(b("a"), 7)]);
    assert!(parse_index(&lines[..12]).is_none());
    assert_eq!(parse_index(&[]).unwrap().len(), 0);
}

#[test]
fn a_table_knows_where_it_came_from() {
    let image = write_simple_sst(&[("a", Some("1")), ("b", None)]);
    let sst = SsTable::open("dir/sst-7.sst".to_string(), 7, image).unwrap();
    assert_eq!(sst.path(), "dir/sst-7.sst");
    assert_eq!(sst.generation(), 7);
    assert_eq!(sst.iter_all().unwrap(), vec![(b("a"), Some(b("1"))), (b("b"), None)]);
    assert_eq!(sst.scan(b"c", b"z").unwrap(), Vec::new());
}

#[test]
fn a_damaged_record_is_reported() {
    let mut bytes = write_simple_sst(&[("a", Some("1")), ("b", Some("2"))]).to_vec();
    bytes[0] = 5;
    let sst = open("x.sst", Bytes::from(bytes)).unwrap();
    assert!(sst.get(b"a").is_err());
    assert_eq!(sst.get(b"b").unwrap(), Some(Some(b("2"))));
    assert!(sst.iter_all().is_err());
}
