use std::collections::BTreeMap;

use bytes::Bytes;
use kepler::storage::disk::DiskEffect;
use kepler::storage::record::{encode_record, read_one_record, read_records, WalEntry, WalEntryKind};
use kepler::storage::wal::{
    parse_segment_start, segment_filename, DiskWal, MemWal, Wal, WalConfig,
};

fn entry(seq: u64, kind: WalEntryKind, payload: &[u8]) -> WalEntry {
    WalEntry { seq, kind, payload: Bytes::copy_from_slice(payload) }
}

/// The files of a directory.
#[derive(Default)]
struct Disk {
    files: BTreeMap<String, Vec<u8>>,
}

impl Disk {
    fn perform(&mut self, effects: Vec<DiskEffect>) {
        for effect in effects {
            match effect {
                DiskEffect::Create { file } => {
                    self.files.insert(file, Vec::new());
                }
                DiskEffect::Append { file, data, .. } => {
                    self.files.get_mut(&file).unwrap().extend_from_slice(&data);
                }
                DiskEffect::Sync { file } => assert!(self.files.contains_key(&file)),
                DiskEffect::Cut { file, len } => self.files.get_mut(&file).unwrap().truncate(len),
                DiskEffect::Write { file, content } => {
                    self.files.insert(file, content.to_vec());
                }
                DiskEffect::Remove { file } => {
                    assert!(self.files.remove(&file).is_some());
                }
            }
        }
    }

    fn listing(&self) -> Vec<(String, Vec<u8>)> {
        self.files
            .iter()
            .map(|(f, content)| (f.strip_prefix("wal/").unwrap().to_string(), content.clone()))
            .collect()
    }

    fn open(&mut self) -> DiskWal {
        let mut wal = DiskWal::open(small_config(), self.listing());
        self.perform(wal.take_effects());
        wal
    }

    /// The only segment file.
    fn segment(&mut self) -> &mut Vec<u8> {
        assert_eq!(self.files.len(), 1);
        self.files.values_mut().next().unwrap()
    }
}

fn small_config() -> WalConfig {
    WalConfig { dir: "wal".to_string(), max_segment_bytes: 512, sync_on_append: true }
}

#[test]
fn append_then_read_roundtrip() {
    let mut disk = Disk::default();
    let mut wal = disk.open();
    wal.append(entry(1, WalEntryKind::Put, b"alpha")).unwrap();
    wal.append(entry(2, WalEntryKind::Delete, b"")).unwrap();
    wal.append(entry(3, WalEntryKind::Commit, b"end")).unwrap();

    let entries = wal.read_from(0).unwrap();
    assert_eq!(entries.len(), 3);
    assert_eq!(entries[0].seq, 1);
    assert_eq!(entries[0].payload.as_ref(), b"alpha");
    assert_eq!(entries[1].kind, WalEntryKind::Delete);
    assert_eq!(entries[2].seq, 3);
}

#[test]
fn read_from_offset_filters() {
    let mut disk = Disk::default();
    let mut wal = disk.open();
    for i in 1..=5u64 {
        wal.append(entry(i, WalEntryKind::Put, &i.to_le_bytes())).unwrap();
    }
    let entries = wal.read_from(3).unwrap();
    assert_eq!(entries.iter().map(|e| e.seq).collect::<Vec<_>>(), vec![3, 4, 5]);
}

#[test]
fn persists_across_reopen() {
    let mut disk = Disk::default();
    {
        let mut wal = disk.open();
        wal.append(entry(1, WalEntryKind::Put, b"one")).unwrap();
        wal.append(entry(2, WalEntryKind::Put, b"two")).unwrap();
        disk.perform(wal.take_effects());
    }
    let wal = disk.open();
    let entries = wal.read_from(0).unwrap();
    assert_eq!(entries.len(), 2);
    assert_eq!(entries[1].payload.as_ref(), b"two");
    assert_eq!(wal.last_seq().unwrap(), Some(2));
}

#[test]
fn rotates_at_max_segment_size() {
    let mut disk = Disk::default();
    let mut wal = disk.open();
    let blob = vec![0xAB; 200];
    for i in 1..=10 {
        wal.append(entry(i, WalEntryKind::Put, &blob)).unwrap();
    }
    assert!(wal.segment_count() >= 4, "got {} segments", wal.segment_count());

    let entries = wal.read_from(0).unwrap();
    assert_eq!(entries.len(), 10);
}

#[test]
fn truncate_removes_old_segments() {
    let mut disk = Disk::default();
    let mut wal = disk.open();
    let blob = vec![0u8; 200];
    for i in 1..=10 {
        wal.append(entry(i, WalEntryKind::Put, &blob)).unwrap();
    }
    let before = wal.segment_count();
    wal.truncate(9).unwrap();
    let after = wal.segment_count();
    assert!(after < before, "expected segments to be deleted: {before} -> {after}");

    let entries = wal.read_from(9).unwrap();
    assert!(entries.iter().all(|e| e.seq >= 9));
    assert!(entries.iter().any(|e| e.seq == 10));

    // the host is left with the same segments
    disk.perform(wal.take_effects());
    assert_eq!(disk.files.len(), after);
}

#[test]
fn recovers_from_torn_tail() {
    let mut disk = Disk::default();
    {
        let mut wal = disk.open();
        wal.append(entry(1, WalEntryKind::Put, b"good")).unwrap();
        wal.append(entry(2, WalEntryKind::Put, b"good")).unwrap();
        disk.perform(wal.take_effects());
    }
    // Plausible header claiming a 200-byte body, then only 5 bytes: torn.
    let file = disk.segment();
    file.extend_from_slice(&200u32.to_le_bytes());
    file.extend_from_slice(&0xDEAD_BEEFu32.to_le_bytes());
    file.extend_from_slice(b"abcde");

    let mut wal = disk.open();
    let entries = wal.read_from(0).unwrap();
    assert_eq!(entries.len(), 2, "torn tail should not appear as a record");
    assert_eq!(wal.last_seq().unwrap(), Some(2));

    wal.append(entry(3, WalEntryKind::Put, b"after")).unwrap();
    let entries = wal.read_from(0).unwrap();
    assert_eq!(entries.len(), 3);
    assert_eq!(entries[2].payload.as_ref(), b"after");

    // and the file holds the three records and nothing else
    disk.perform(wal.take_effects());
    let bytes = disk.segment().clone();
    let (records, end) = read_records(&bytes);
    assert_eq!(records.len(), 3);
    assert_eq!(end as usize, bytes.len());
}

#[test]
fn rejects_corrupted_crc() {
    let mut disk = Disk::default();
    {
        let mut wal = disk.open();
        wal.append(entry(1, WalEntryKind::Put, b"first")).unwrap();
        wal.append(entry(2, WalEntryKind::Put, b"second")).unwrap();
        disk.perform(wal.take_effects());
    }
    // Flip a byte well inside the second record to break its CRC.
    let file = disk.segment();
    let len = file.len();
    file[len - 3] = 0xFF;

    let wal = disk.open();
    let entries = wal.read_from(0).unwrap();
    assert_eq!(entries.len(), 1, "corrupted record should not appear");
    assert_eq!(entries[0].seq, 1);
}

#[test]
fn empty_dir_opens_cleanly() {
    let mut disk = Disk::default();
    let wal = disk.open();
    assert_eq!(wal.last_seq().unwrap(), None);
    assert_eq!(wal.read_from(0).unwrap().len(), 0);
}

#[test]
fn a_record_has_the_stated_bytes() {
    let mut buf: Vec<u8> = Vec::new();
    encode_record(&entry(7, WalEntryKind::Delete, b"xy"), &mut buf);
    let mut body: Vec<u8> = 7u64.to_le_bytes().to_vec();
    body.push(1);
    body.extend_from_slice(b"xy");
    let mut want: Vec<u8> = 11u32.to_le_bytes().to_vec();
    want.extend_from_slice(&crc32fast::hash(&body).to_le_bytes());
    want.extend_from_slice(&body);
    assert_eq!(buf, want);
    let (e, next) = read_one_record(&buf, 0).unwrap();
    assert_eq!(e.seq, 7);
    assert_eq!(e.kind, WalEntryKind::Delete);
    assert_eq!(e.payload.as_ref(), b"xy");
    assert_eq!(next as usize, buf.len());
    assert!(read_one_record(&buf[..buf.len() - 1], 0).is_none());
}

#[test]
fn kinds_have_their_bytes() {
    assert_eq!(WalEntryKind::Put.encode(), 0);
    assert_eq!(WalEntryKind::Delete.encode(), 1);
    assert_eq!(WalEntryKind::Commit.encode(), 2);
    assert_eq!(WalEntryKind::decode(2), Some(WalEntryKind::Commit));
    assert_eq!(WalEntryKind::decode(3), None);
}

#[test]
fn segments_are_named_by_their_start() {
    assert_eq!(segment_filename(42), "wal-00000000000000000042.log");
    assert_eq!(parse_segment_start("wal-00000000000000000042.log"), Some(42));
    assert_eq!(parse_segment_start("wal-7.log"), Some(7));
    assert_eq!(parse_segment_start("wal-.log"), None);
    assert_eq!(parse_segment_start("wal-7x.log"), None);
    assert_eq!(parse_segment_start("sst-7.sst"), None);
    assert!(segment_filename(9) < segment_filename(10));
}

#[test]
fn the_order_of_a_listing_does_not_matter() {
    let mut disk = Disk::default();
    let mut wal = disk.open();
    let blob = vec![7u8; 300];
    for i in 1..=6 {
        wal.append(entry(i, WalEntryKind::Put, &blob)).unwrap();
    }
    disk.perform(wal.take_effects());
    let mut listing = disk.listing();
    assert!(listing.len() > 2);
    listing.reverse();
    listing.push(("notes.txt".to_string(), vec![1, 2, 3]));
    let again = DiskWal::open(small_config(), listing);
    let seqs: Vec<u64> = again.read_from(0).unwrap().iter().map(|e| e.seq).collect();
    assert_eq!(seqs, vec![1, 2, 3, 4, 5, 6]);
    assert_eq!(again.segment_count(), wal.segment_count());
}

#[test]
fn an_append_tells_the_host_what_to_do() {
    let mut wal = DiskWal::open(small_config(), Vec::new());
    let opened = wal.take_effects();
    assert!(matches!(&opened[..], [DiskEffect::Create { file }]
        if file == "wal/wal-00000000000000000000.log"));
    assert_eq!(wal.append(entry(3, WalEntryKind::Put, b"p")).unwrap(), 3);
    let effects = wal.take_effects();
    assert!(matches!(&effects[..], [DiskEffect::Append { sync: true, data, .. }] if data.len() == 18));
    wal.sync().unwrap();
    assert!(matches!(&wal.take_effects()[..], [DiskEffect::Sync { .. }]));
    assert_eq!(wal.take_effects().len(), 0);
}

#[test]
fn a_log_in_memory_forgets_what_is_truncated() {
    let mut wal = MemWal::new();
    assert_eq!(wal.last_seq().unwrap(), None);
    for i in 1..=4 {
        assert_eq!(wal.append(entry(i, WalEntryKind::Put, b"")).unwrap(), i);
    }
    wal.sync().unwrap();
    wal.truncate(3).unwrap();
    let seqs: Vec<u64> = wal.read_from(0).unwrap().iter().map(|e| e.seq).collect();
    assert_eq!(seqs, vec![3, 4]);
    assert_eq!(wal.last_seq().unwrap(), Some(4));
}

#[test]
fn a_new_configuration_is_durable() {
    let c = WalConfig::new("d".to_string());
    assert_eq!(c.dir, "d");
    assert_eq!(c.max_segment_bytes, 64 * 1024 * 1024);
    assert!(c.sync_on_append);
}

#[test]
fn a_log_without_a_next_number_takes_no_entry() {
    let wal = DiskWal::open(WalConfig::new("w".to_string()), Vec::new());
    assert!(wal.can_append(1));
    assert!(wal.can_append(u64::MAX - 1));
    assert!(!wal.can_append(u64::MAX));
}
