use std::collections::BTreeMap;

use bytes::Bytes;
use kepler::storage::disk::DiskEffect;
use kepler::storage::engine::{Batch, Cursor, Engine, Snapshot};
use kepler::storage::lsm::engine::{
    parse_sst_gen, sst_filename, LsmConfig, LsmEngine,
};
use kepler::storage::lsm::memtable::MemTable;
use kepler::storage::lsm::replay::{
    apply_wal_entry_to_memtable, encode_delete_payload, encode_put_payload,
};
use kepler::storage::lsm::tables::used_by_others;
use kepler::storage::record::{WalEntry, WalEntryKind};
use kepler::storage::wal::{DiskWal, Wal, WalConfig};
use kepler::types::{Error, KeyRange};

fn b(s: &str) -> Bytes {
    Bytes::copy_from_slice(s.as_bytes())
}

/// The files of a host, which carries out what it is told.
#[derive(Default)]
struct Disk {
    files: BTreeMap<String, Vec<u8>>,
}

impl Disk {
    fn perform(&mut self, effects: &[DiskEffect]) {
        for effect in effects {
            match effect {
                DiskEffect::Create { file } => {
                    self.files.insert(file.clone(), Vec::new());
                }
                DiskEffect::Append { file, data, .. } => {
                    self.files.get_mut(file).unwrap().extend_from_slice(data);
                }
                DiskEffect::Sync { file } => assert!(self.files.contains_key(file)),
                DiskEffect::Cut { file, len } => self.files.get_mut(file).unwrap().truncate(*len),
                DiskEffect::Write { file, content } => {
                    self.files.insert(file.clone(), content.to_vec());
                }
                DiskEffect::Remove { file } => {
                    assert!(self.files.remove(file).is_some());
                }
            }
        }
    }

    fn below(&self, dir: &str) -> Vec<(String, Vec<u8>)> {
        let head = format!("{}/", dir);
        self.files
            .iter()
            .filter_map(|(f, content)| {
                let name = f.strip_prefix(&head)?;
                if name.contains('/') {
                    return None;
                }
                Some((name.to_string(), content.clone()))
            })
            .collect()
    }

    fn try_open(&self, config: LsmConfig) -> Result<LsmEngine, Error> {
        let wal = DiskWal::open(config.wal.clone(), self.below(&config.wal.dir));
        let listing = self
            .below(&config.dir)
            .into_iter()
            .map(|(name, content)| (name, Bytes::from(content)))
            .collect();
        assert!(LsmEngine::can_open(&config, &wal, &listing));
        LsmEngine::open(config, wal, listing)
    }

    fn open(&mut self, config: LsmConfig) -> LsmEngine {
        let mut lsm = self.try_open(config).unwrap();
        self.perform(&lsm.take_effects());
        lsm
    }

    fn catch_up(&mut self, lsm: &mut LsmEngine) {
        self.perform(&lsm.take_effects());
    }

    fn sst_files(&self) -> Vec<String> {
        self.below("db")
            .into_iter()
            .map(|(name, _)| name)
            .filter(|n| n.starts_with("sst-") && n.ends_with(".sst"))
            .collect()
    }
}

fn compact_config(threshold: usize) -> LsmConfig {
    LsmConfig {
        dir: "db".to_string(),
        memtable_max_bytes: 200,
        sst_compact_threshold: threshold,
        wal: WalConfig {
            dir: "db/wal".to_string(),
            max_segment_bytes: 4096,
            sync_on_append: true,
        },
    }
}

fn small_config() -> LsmConfig {
    compact_config(100)
}

#[test]
fn put_and_get_from_memtable() {
    let mut disk = Disk::default();
    let mut lsm = disk.open(small_config());
    lsm.put(b("k1"), b("v1")).unwrap();
    lsm.put(b("k2"), b("v2")).unwrap();
    assert_eq!(lsm.get(b"k1").unwrap(), Some(b("v1")));
    assert_eq!(lsm.get(b"k2").unwrap(), Some(b("v2")));
    assert_eq!(lsm.get(b"missing").unwrap(), None);
}

#[test]
fn delete_in_memtable() {
    let mut disk = Disk::default();
    let mut lsm = disk.open(small_config());
    lsm.put(b("k"), b("v")).unwrap();
    lsm.delete(b"k").unwrap();
    assert_eq!(lsm.get(b"k").unwrap(), None);
}

#[test]
fn explicit_flush_creates_sst() {
    let mut disk = Disk::default();
    let mut lsm = disk.open(small_config());
    lsm.put(b("a"), b("1")).unwrap();
    lsm.put(b("b"), b("2")).unwrap();
    lsm.flush().unwrap();
    disk.catch_up(&mut lsm);
    assert_eq!(disk.sst_files().len(), 1);
    assert_eq!(lsm.get(b"a").unwrap(), Some(b("1")));
    assert_eq!(lsm.get(b"b").unwrap(), Some(b("2")));
}

#[test]
fn memtable_threshold_triggers_flush() {
    let mut disk = Disk::default();
    let mut lsm = disk.open(small_config());
    let big = vec![0u8; 100];
    for i in 0..10 {
        lsm.put(b(&format!("k{:03}", i)), Bytes::copy_from_slice(&big)).unwrap();
    }
    disk.catch_up(&mut lsm);
    assert!(!disk.sst_files().is_empty(), "expected automatic flush");
}

#[test]
fn newer_memtable_shadows_older_sst() {
    let mut disk = Disk::default();
    let mut lsm = disk.open(small_config());
    lsm.put(b("k"), b("v1")).unwrap();
    lsm.flush().unwrap();
    lsm.put(b("k"), b("v2")).unwrap();
    assert_eq!(lsm.get(b"k").unwrap(), Some(b("v2")));
}

#[test]
fn tombstone_shadows_sst_value() {
    let mut disk = Disk::default();
    let mut lsm = disk.open(small_config());
    lsm.put(b("k"), b("v")).unwrap();
    lsm.flush().unwrap();
    lsm.delete(b"k").unwrap();
    assert_eq!(lsm.get(b"k").unwrap(), None);
}

#[test]
fn newer_sst_shadows_older_sst() {
    let mut disk = Disk::default();
    let mut lsm = disk.open(small_config());
    lsm.put(b("k"), b("v1")).unwrap();
    lsm.flush().unwrap();
    lsm.put(b("k"), b("v2")).unwrap();
    lsm.flush().unwrap();
    disk.catch_up(&mut lsm);
    assert_eq!(lsm.get(b"k").unwrap(), Some(b("v2")));
    assert_eq!(disk.sst_files().len(), 2);
}

#[test]
fn persists_across_reopen_with_flush() {
    let mut disk = Disk::default();
    {
        let mut lsm = disk.open(small_config());
        lsm.put(b("k1"), b("v1")).unwrap();
        lsm.put(b("k2"), b("v2")).unwrap();
        lsm.flush().unwrap();
        disk.catch_up(&mut lsm);
    }
    let lsm = disk.open(small_config());
    assert_eq!(lsm.get(b"k1").unwrap(), Some(b("v1")));
    assert_eq!(lsm.get(b"k2").unwrap(), Some(b("v2")));
}

#[test]
fn wal_replay_recovers_unflushed_writes() {
    let mut disk = Disk::default();
    {
        let mut lsm = disk.open(small_config());
        lsm.put(b("k"), b("v")).unwrap();
        disk.catch_up(&mut lsm);
    }
    let lsm = disk.open(small_config());
    assert_eq!(lsm.get(b"k").unwrap(), Some(b("v")));
    assert!(disk.sst_files().is_empty());
}

#[test]
fn wal_replay_preserves_tombstones() {
    let mut disk = Disk::default();
    {
        let mut lsm = disk.open(small_config());
        lsm.put(b("k"), b("v")).unwrap();
        lsm.flush().unwrap();
        lsm.delete(b"k").unwrap();
        disk.catch_up(&mut lsm);
    }
    let lsm = disk.open(small_config());
    assert_eq!(lsm.get(b"k").unwrap(), None);
}

#[test]
fn scan_merges_memtable_and_ssts() {
    let mut disk = Disk::default();
    let mut lsm = disk.open(small_config());
    lsm.put(b("a"), b("1")).unwrap();
    lsm.put(b("b"), b("2")).unwrap();
    lsm.flush().unwrap();
    lsm.put(b("c"), b("3")).unwrap();
    lsm.put(b("d"), b("4")).unwrap();
    lsm.delete(b"b").unwrap();

    let mut cursor = lsm.scan(KeyRange::new(b("a"), b("e")));
    let mut got = Vec::new();
    while let Some((k, v)) = cursor.next() {
        got.push((k, v));
    }
    let keys: Vec<_> = got.iter().map(|(k, _)| k.clone()).collect();
    assert_eq!(keys, vec![b("a"), b("c"), b("d")]);
}

#[test]
fn lsm_snapshot_is_isolated_from_later_writes() {
    let mut disk = Disk::default();
    let mut lsm = disk.open(small_config());
    lsm.put(b("k"), b("v1")).unwrap();
    let snap = lsm.snapshot();
    lsm.put(b("k"), b("v2")).unwrap();
    assert_eq!(snap.get(b"k").unwrap(), Some(b("v1")));
    assert_eq!(lsm.get(b"k").unwrap(), Some(b("v2")));
}

#[test]
fn compact_merges_two_ssts() {
    let mut disk = Disk::default();
    let mut lsm = disk.open(small_config());
    lsm.put(b("a"), b("1")).unwrap();
    lsm.flush().unwrap();
    lsm.put(b("b"), b("2")).unwrap();
    lsm.flush().unwrap();
    disk.catch_up(&mut lsm);
    assert_eq!(disk.sst_files().len(), 2);

    lsm.compact().unwrap();
    disk.catch_up(&mut lsm);

    assert_eq!(lsm.active_sst_count(), 1);
    assert_eq!(disk.sst_files().len(), 1);
    assert_eq!(lsm.get(b"a").unwrap(), Some(b("1")));
    assert_eq!(lsm.get(b"b").unwrap(), Some(b("2")));
}

#[test]
fn compact_keeps_newest_value_per_key() {
    let mut disk = Disk::default();
    let mut lsm = disk.open(small_config());
    lsm.put(b("k"), b("v1")).unwrap();
    lsm.flush().unwrap();
    lsm.put(b("k"), b("v2")).unwrap();
    lsm.flush().unwrap();
    lsm.put(b("k"), b("v3")).unwrap();
    lsm.flush().unwrap();

    lsm.compact().unwrap();
    assert_eq!(lsm.get(b"k").unwrap(), Some(b("v3")));
    assert_eq!(lsm.active_sst_count(), 1);
}

#[test]
fn compact_drops_tombstones() {
    let mut disk = Disk::default();
    let mut lsm = disk.open(small_config());
    lsm.put(b("survives"), b("yes")).unwrap();
    lsm.put(b("k"), b("v")).unwrap();
    lsm.flush().unwrap();
    lsm.delete(b"k").unwrap();
    lsm.flush().unwrap();
    assert_eq!(lsm.get(b"k").unwrap(), None);

    lsm.compact().unwrap();
    assert_eq!(lsm.get(b"k").unwrap(), None);
    assert_eq!(lsm.get(b"survives").unwrap(), Some(b("yes")));

    let ssts = lsm.sstables();
    assert_eq!(ssts.len(), 1);
    let entries = ssts[0].iter_all().unwrap();
    assert!(entries.iter().all(|(k, _)| k.as_ref() != b"k"));
    assert!(entries.iter().any(|(k, v)| k.as_ref() == b"survives" && v.is_some()));
}

#[test]
fn compact_below_two_ssts_is_noop() {
    let mut disk = Disk::default();
    let mut lsm = disk.open(small_config());
    lsm.put(b("k"), b("v")).unwrap();
    lsm.flush().unwrap();
    let gen_before = lsm.sstables()[0].generation();

    lsm.compact().unwrap();

    let ssts = lsm.sstables();
    assert_eq!(ssts.len(), 1);
    assert_eq!(ssts[0].generation(), gen_before, "no new SST should be written");
}

#[test]
fn compaction_all_tombstones_writes_nothing() {
    let mut disk = Disk::default();
    let mut lsm = disk.open(small_config());
    lsm.put(b("a"), b("1")).unwrap();
    lsm.flush().unwrap();
    lsm.delete(b"a").unwrap();
    lsm.flush().unwrap();

    lsm.compact().unwrap();
    assert_eq!(lsm.active_sst_count(), 0);
    assert_eq!(lsm.get(b"a").unwrap(), None);
    disk.catch_up(&mut lsm);
    assert!(disk.sst_files().is_empty());
}

#[test]
fn auto_compact_triggers_at_threshold() {
    let mut disk = Disk::default();
    let mut lsm = disk.open(compact_config(3));
    let big = vec![0u8; 100];
    for i in 0..20 {
        lsm.put(b(&format!("k{:03}", i)), Bytes::copy_from_slice(&big)).unwrap();
    }
    assert!(
        lsm.active_sst_count() < 20,
        "expected auto-compaction; active SST count is {}",
        lsm.active_sst_count()
    );
    for i in 0..20 {
        assert!(lsm.get(format!("k{:03}", i).as_bytes()).unwrap().is_some());
    }
}

#[test]
fn snapshot_outliving_compaction_keeps_reading_old_data() {
    let mut disk = Disk::default();
    let mut lsm = disk.open(small_config());
    lsm.put(b("k"), b("v1")).unwrap();
    lsm.flush().unwrap();

    let snap = lsm.snapshot();

    lsm.put(b("k"), b("v2")).unwrap();
    lsm.flush().unwrap();
    lsm.compact().unwrap();

    assert_eq!(lsm.get(b"k").unwrap(), Some(b("v2")));
    assert_eq!(snap.get(b"k").unwrap(), Some(b("v1")));

    // The old file is still there, because the snapshot holds it.
    assert!(lsm.pending_delete_len() >= 1);
    disk.catch_up(&mut lsm);
    assert_eq!(disk.sst_files().len(), 2);

    drop(snap);
    lsm.compact().unwrap();
    assert_eq!(lsm.pending_delete_len(), 0);
    disk.catch_up(&mut lsm);
    assert_eq!(disk.sst_files().len(), 1);
}

#[test]
fn compaction_survives_reopen() {
    let mut disk = Disk::default();
    {
        let mut lsm = disk.open(small_config());
        for i in 0..5 {
            lsm.put(b(&format!("k{}", i)), b("v")).unwrap();
            lsm.flush().unwrap();
        }
        lsm.compact().unwrap();
        disk.catch_up(&mut lsm);
    }
    let lsm = disk.open(small_config());
    for i in 0..5 {
        assert_eq!(lsm.get(format!("k{}", i).as_bytes()).unwrap(), Some(b("v")));
    }
    assert_eq!(lsm.active_sst_count(), 1);
}

#[test]
fn reopening_gives_back_what_was_held() {
    let mut disk = Disk::default();
    let mut want: BTreeMap<String, Option<String>> = BTreeMap::new();
    let mut lsm = disk.open(compact_config(3));
    for i in 0..60u32 {
        let key = format!("k{}", (i * 7) % 13);
        if i % 5 == 4 {
            lsm.delete(key.as_bytes()).unwrap();
            want.insert(key, None);
        } else {
            let value = format!("value-{}", i);
            lsm.put(b(&key), b(&value)).unwrap();
            want.insert(key, Some(value));
        }
        disk.catch_up(&mut lsm);
        if i % 11 == 10 {
            lsm = disk.open(compact_config(3));
        }
        for (k, v) in &want {
            assert_eq!(lsm.get(k.as_bytes()).unwrap(), v.as_ref().map(|v| b(v)), "key {}", k);
        }
    }
}

#[test]
fn a_torn_log_loses_only_the_torn_write() {
    let mut disk = Disk::default();
    let mut lsm = disk.open(small_config());
    lsm.put(b("a"), b("1")).unwrap();
    lsm.put(b("b"), b("2")).unwrap();
    disk.catch_up(&mut lsm);
    let log = disk.files.get_mut("db/wal/wal-00000000000000000000.log").unwrap();
    let cut = log.len() - 4;
    log.truncate(cut);
    let again = disk.open(small_config());
    assert_eq!(again.get(b"a").unwrap(), Some(b("1")));
    assert_eq!(again.get(b"b").unwrap(), None);
}

#[test]
fn a_batch_is_applied_in_order() {
    let mut disk = Disk::default();
    let mut lsm = disk.open(small_config());
    let mut batch = Batch::new();
    batch.put(b("a"), b("1")).put(b("b"), b("2")).delete(b("a"));
    lsm.write_batch(batch).unwrap();
    assert_eq!(lsm.get(b"a").unwrap(), None);
    assert_eq!(lsm.get(b"b").unwrap(), Some(b("2")));
    assert!(lsm.has_room_for(b"key", b"value"));
}

#[test]
fn the_table_is_there_before_the_log_lets_go() {
    let mut disk = Disk::default();
    let mut config = small_config();
    config.wal.max_segment_bytes = 1;
    let mut lsm = disk.open(config);
    lsm.put(b("a"), b("1")).unwrap();
    disk.catch_up(&mut lsm);
    lsm.flush().unwrap();
    let effects = lsm.take_effects();
    assert!(matches!(&effects[0], DiskEffect::Write { file, .. }
        if file == "db/sst-00000000000000000001.sst"));
    assert!(effects.len() > 1);
    assert!(effects[1..].iter().all(|e| matches!(e, DiskEffect::Remove { .. })));
}

#[test]
fn tables_are_named_by_their_generation() {
    assert_eq!(sst_filename(3), "sst-00000000000000000003.sst");
    assert_eq!(parse_sst_gen("sst-00000000000000000003.sst"), Some(3));
    assert_eq!(parse_sst_gen("sst-3.sst.tmp"), None);
    assert_eq!(parse_sst_gen("wal-3.log"), None);
}

#[test]
fn a_new_lsm_configuration() {
    let c = LsmConfig::new("d".to_string());
    assert_eq!(c.dir, "d");
    assert_eq!(c.memtable_max_bytes, 4 * 1024 * 1024);
    assert_eq!(c.sst_compact_threshold, 4);
    assert_eq!(c.wal.dir, "d/wal");
}

#[test]
fn a_bad_table_stops_the_opening() {
    let mut disk = Disk::default();
    disk.files.insert("db/sst-1.sst".to_string(), vec![1, 2, 3]);
    let message = match disk.try_open(small_config()) {
        Err(e) => e.message(),
        Ok(_) => panic!("opened on a bad table"),
    };
    assert_eq!(message, "storage: sstable \"db/sst-1.sst\": file too small (3 bytes)");
}

#[test]
fn payloads_have_the_stated_bytes() {
    assert_eq!(encode_put_payload(b"k", b"vw").to_vec(), vec![1, 0, 0, 0, b'k', b'v', b'w']);
    assert_eq!(encode_delete_payload(b"k").to_vec(), vec![1, 0, 0, 0, b'k']);
}

#[test]
fn bad_payloads_are_refused() {
    let mut mt = MemTable::new();
    let short = WalEntry { seq: 1, kind: WalEntryKind::Put, payload: Bytes::from_static(b"abc") };
    let cut = WalEntry {
        seq: 2,
        kind: WalEntryKind::Delete,
        payload: Bytes::from_static(&[9, 0, 0, 0, b'k']),
    };
    assert_eq!(
        apply_wal_entry_to_memtable(&short, &mut mt).unwrap_err().message(),
        "storage: wal payload too short"
    );
    assert_eq!(
        apply_wal_entry_to_memtable(&cut, &mut mt).unwrap_err().message(),
        "storage: wal payload truncated"
    );
    assert!(mt.is_empty());
}

#[test]
fn a_commit_marker_is_passed_over_whatever_it_holds() {
    let mut mt = MemTable::new();
    for payload in [&b"end"[..], &b""[..], &[9, 0, 0, 0, b'k'][..], &[0, 0, 0, 0][..]] {
        let commit = WalEntry {
            seq: 3,
            kind: WalEntryKind::Commit,
            payload: Bytes::copy_from_slice(payload),
        };
        apply_wal_entry_to_memtable(&commit, &mut mt).unwrap();
    }
    assert!(mt.is_empty());
    assert_eq!(mt.max_seq(), None);
}

#[test]
fn a_log_with_a_commit_marker_opens() {
    let config = small_config();
    let mut wal = DiskWal::open(config.wal.clone(), Vec::new());
    wal.append(WalEntry { seq: 1, kind: WalEntryKind::Put, payload: encode_put_payload(b"k", b"v") })
        .unwrap();
    wal.append(WalEntry { seq: 2, kind: WalEntryKind::Commit, payload: Bytes::from_static(b"end") })
        .unwrap();
    let lsm = LsmEngine::open(config, wal, Vec::new()).unwrap();
    assert_eq!(lsm.get(b"k").unwrap(), Some(b("v")));
}

#[test]
fn a_log_entry_that_cannot_be_read_stops_the_opening() {
    let config = small_config();
    let mut wal = DiskWal::open(config.wal.clone(), Vec::new());
    wal.append(WalEntry { seq: 1, kind: WalEntryKind::Put, payload: Bytes::from_static(b"x") })
        .unwrap();
    let message = match LsmEngine::open(config, wal, Vec::new()) {
        Err(e) => e.message(),
        Ok(_) => panic!("opened on a bad log"),
    };
    assert_eq!(message, "storage: wal payload too short");
}

#[test]
fn a_damaged_table_shows_on_reading() {
    let mut disk = Disk::default();
    let mut lsm = disk.open(small_config());
    lsm.put(b("a"), b("1")).unwrap();
    lsm.flush().unwrap();
    disk.catch_up(&mut lsm);
    let file = disk.files.get_mut("db/sst-00000000000000000001.sst").unwrap();
    file[0] = 7;
    let mut lsm = disk.open(small_config());
    assert!(lsm.get(b"a").is_err());
    lsm.put(b("b"), b("2")).unwrap();
    lsm.flush().unwrap();
    // a merge stops before anything changes
    assert!(lsm.compact().is_err());
    assert_eq!(lsm.active_sst_count(), 2);
}

fn held(lsm: &LsmEngine) -> Vec<(Bytes, Bytes)> {
    let mut cursor = lsm.scan(KeyRange::new(b(""), b("~")));
    let mut out = Vec::new();
    while let Some(pair) = cursor.next() {
        out.push(pair);
    }
    out
}

/// Carries effects out one by one, and opens the engine on the files between
/// any two.
fn opened_in_between(
    disk: &mut Disk,
    effects: Vec<DiskEffect>,
    config: &LsmConfig,
) -> Vec<Vec<(Bytes, Bytes)>> {
    let mut out = Vec::new();
    for effect in effects {
        disk.perform(&[effect]);
        let mut copy = Disk { files: disk.files.clone() };
        out.push(held(&copy.open(config.clone())));
    }
    out
}

#[test]
fn a_crash_in_a_flush_loses_nothing() {
    let mut config = small_config();
    config.wal.max_segment_bytes = 1;
    let mut disk = Disk::default();
    let mut lsm = disk.open(config.clone());
    lsm.put(b("a"), b("1")).unwrap();
    lsm.put(b("b"), b("2")).unwrap();
    lsm.flush().unwrap();
    lsm.put(b("b"), b("3")).unwrap();
    lsm.delete(b"a").unwrap();
    disk.catch_up(&mut lsm);
    let want = vec![(b("b"), b("3"))];
    assert_eq!(held(&lsm), want);
    lsm.flush().unwrap();
    let effects = lsm.take_effects();
    assert!(effects.len() > 2);
    for got in opened_in_between(&mut disk, effects, &config) {
        assert_eq!(got, want);
    }
}

#[test]
fn a_crash_in_a_write_leaves_it_out_or_in() {
    let mut config = small_config();
    config.wal.max_segment_bytes = 1;
    let mut disk = Disk::default();
    let mut lsm = disk.open(config.clone());
    lsm.put(b("a"), b("1")).unwrap();
    let effects = lsm.take_effects();
    assert!(matches!(&effects[0], DiskEffect::Append { .. }));
    assert!(matches!(&effects[1], DiskEffect::Sync { .. }));
    assert!(matches!(&effects[2], DiskEffect::Create { .. }));
    assert_eq!(held(&Disk { files: disk.files.clone() }.open(config.clone())), vec![]);
    for got in opened_in_between(&mut disk, effects, &config) {
        assert_eq!(got, vec![(b("a"), b("1"))]);
    }
}

#[test]
fn a_crash_after_the_table_of_a_merge_loses_nothing() {
    let config = small_config();
    let mut disk = Disk::default();
    let mut lsm = disk.open(config.clone());
    lsm.put(b("a"), b("1")).unwrap();
    lsm.put(b("b"), b("2")).unwrap();
    lsm.flush().unwrap();
    lsm.delete(b"a").unwrap();
    lsm.flush().unwrap();
    disk.catch_up(&mut lsm);
    lsm.compact().unwrap();
    let mut effects = lsm.take_effects();
    assert_eq!(effects.len(), 3);
    effects.truncate(1);
    assert!(matches!(&effects[0], DiskEffect::Write { .. }));
    for got in opened_in_between(&mut disk, effects, &config) {
        assert_eq!(got, vec![(b("b"), b("2"))]);
    }
    assert_eq!(disk.sst_files().len(), 3);
}

#[test]
fn a_scan_passes_over_a_damaged_table() {
    let mut disk = Disk::default();
    let mut lsm = disk.open(small_config());
    lsm.put(b("a"), b("1")).unwrap();
    lsm.flush().unwrap();
    lsm.put(b("b"), b("2")).unwrap();
    lsm.flush().unwrap();
    disk.catch_up(&mut lsm);
    disk.files.get_mut("db/sst-00000000000000000001.sst").unwrap()[0] = 7;
    let mut lsm = disk.open(small_config());
    lsm.put(b("c"), b("3")).unwrap();
    assert_eq!(held(&lsm), vec![(b("b"), b("2")), (b("c"), b("3"))]);
}

#[test]
fn a_batch_stops_at_the_first_write_that_fails() {
    let mut disk = Disk::default();
    let mut lsm = disk.open(small_config());
    lsm.put(b("a"), b("1")).unwrap();
    lsm.flush().unwrap();
    disk.catch_up(&mut lsm);
    disk.files.get_mut("db/sst-00000000000000000001.sst").unwrap()[0] = 7;
    let mut config = compact_config(2);
    config.memtable_max_bytes = 20;
    let mut lsm = disk.open(config);
    let mut batch = Batch::new();
    batch.put(b("b"), b("2")).put(b("key"), b("flushes")).put(b("c"), b("3"));
    assert_eq!(batch.ops().len(), 3);
    assert!(lsm.has_room_for_batch(&batch));
    let message = lsm.write_batch(batch).unwrap_err().message();
    assert_eq!(message, "storage: sstable: bad record type 7");
    assert_eq!(lsm.get(b"b").unwrap(), Some(b("2")));
    assert_eq!(lsm.get(b"key").unwrap(), Some(b("flushes")));
    assert_eq!(lsm.get(b"c").unwrap(), None);
}

#[test]
fn a_scan_that_ends_before_it_starts_is_empty_on_tables_too() {
    let mut disk = Disk::default();
    let mut lsm = disk.open(small_config());
    lsm.put(b("b"), b("1")).unwrap();
    lsm.flush().unwrap();
    lsm.put(b("c"), b("2")).unwrap();
    assert!(lsm.scan(KeyRange::new(b("d"), b("b"))).next().is_none());
}

#[test]
fn a_table_with_one_holder_is_not_in_use() {
    assert_eq!(used_by_others(&[1, 2, 1, 3, 0]), vec![false, true, false, true, true]);
    assert!(used_by_others(&[]).is_empty());
}

/// A disk with three tables, and what merging them tells the host to do.
fn three_tables_merged() -> (Disk, Vec<DiskEffect>) {
    let mut disk = Disk::default();
    let mut lsm = disk.open(small_config());
    lsm.put(b("gone"), b("1")).unwrap();
    lsm.put(b("stays"), b("1")).unwrap();
    lsm.flush().unwrap();
    lsm.put(b("gone"), b("2")).unwrap();
    lsm.flush().unwrap();
    lsm.delete(b"gone").unwrap();
    lsm.put(b("stays"), b("3")).unwrap();
    lsm.flush().unwrap();
    disk.catch_up(&mut lsm);
    lsm.compact().unwrap();
    assert_eq!(lsm.pending_delete_len(), 0);
    let effects = lsm.take_effects();
    (disk, effects)
}

#[test]
fn the_oldest_merged_table_goes_first() {
    let (_, effects) = three_tables_merged();
    assert_eq!(effects.len(), 4);
    assert!(matches!(&effects[0], DiskEffect::Write { .. }));
    let names: Vec<&str> = effects[1..]
        .iter()
        .map(|e| match e {
            DiskEffect::Remove { file } => file.as_str(),
            _ => panic!("only removals come behind the table"),
        })
        .collect();
    assert_eq!(
        names,
        vec![
            "db/sst-00000000000000000001.sst",
            "db/sst-00000000000000000002.sst",
            "db/sst-00000000000000000003.sst",
        ]
    );
}

#[test]
fn a_crash_among_the_removals_of_a_merge_brings_nothing_back() {
    for carried_out in 0..=4 {
        let (mut disk, effects) = three_tables_merged();
        disk.perform(&effects[..carried_out]);
        let again = disk.open(small_config());
        assert_eq!(again.get(b"gone").unwrap(), None);
        assert_eq!(again.get(b"stays").unwrap(), Some(b("3")));
    }
}

#[test]
fn any_sequence_of_calls_reads_back_and_survives() {
    let config = compact_config(3);
    let mut disk = Disk::default();
    let mut lsm = disk.open(config.clone());
    let mut model: BTreeMap<Vec<u8>, Vec<u8>> = BTreeMap::new();
    let mut x: u32 = 7;
    for step in 0..400u32 {
        x = x.wrapping_mul(1_103_515_245).wrapping_add(12_345);
        let key = format!("k{}", (x >> 16) % 12);
        let value = format!("v{}", step);
        match (x >> 8) % 9 {
            0..=3 => {
                lsm.put(b(&key), b(&value)).unwrap();
                model.insert(key.into_bytes(), value.into_bytes());
            }
            4 | 5 => {
                lsm.delete(key.as_bytes()).unwrap();
                model.remove(key.as_bytes());
            }
            6 => {
                let mut batch = Batch::new();
                batch.put(b(&key), b("old"));
                batch.put(b(&key), b(&value));
                batch.delete(b("k0"));
                lsm.write_batch(batch).unwrap();
                model.insert(key.into_bytes(), value.into_bytes());
                model.remove(&b"k0"[..]);
            }
            7 => {
                lsm.flush().unwrap();
                assert!(lsm.active_sst_count() < 3);
                let tables = lsm.active_sst_count();
                disk.catch_up(&mut lsm);
                lsm.flush().unwrap();
                assert_eq!(lsm.active_sst_count(), tables);
                assert!(lsm.take_effects().is_empty());
            }
            _ => lsm.compact().unwrap(),
        }
        disk.catch_up(&mut lsm);
        assert_eq!(lsm.pending_delete_len(), 0);
        if step % 37 == 0 {
            lsm = disk.open(config.clone());
        }
        for k in 0..12 {
            let key = format!("k{}", k);
            let held = model.get(key.as_bytes()).map(|v| Bytes::copy_from_slice(v));
            assert_eq!(lsm.get(key.as_bytes()).unwrap(), held);
        }
    }
}

#[test]
fn a_snapshot_answers_as_the_engine_did() {
    let mut disk = Disk::default();
    let mut lsm = disk.open(compact_config(2));
    lsm.put(b("a"), b("1")).unwrap();
    lsm.flush().unwrap();
    lsm.put(b("b"), b("2")).unwrap();
    let snap = lsm.snapshot();
    lsm.delete(b"a").unwrap();
    lsm.put(b("b"), b("3")).unwrap();
    lsm.flush().unwrap();
    lsm.compact().unwrap();
    assert_eq!(snap.get(b"a").unwrap(), Some(b("1")));
    assert_eq!(snap.get(b"b").unwrap(), Some(b("2")));
    assert_eq!(lsm.get(b"a").unwrap(), None);
    assert_eq!(lsm.get(b"b").unwrap(), Some(b("3")));
}

#[test]
fn a_crash_at_any_effect_loses_nothing_that_was_carried_out() {
    let config = compact_config(3);
    let mut disk = Disk::default();
    let mut lsm = disk.open(config.clone());
    let mut model: BTreeMap<Vec<u8>, Vec<u8>> = BTreeMap::new();
    let mut x: u32 = 11;
    for step in 0..120u32 {
        x = x.wrapping_mul(1_103_515_245).wrapping_add(12_345);
        let key = format!("k{}", (x >> 16) % 6);
        let value = format!("{:030}", step);
        let mut after = model.clone();
        match (x >> 8) % 8 {
            0..=3 => {
                lsm.put(b(&key), b(&value)).unwrap();
                after.insert(key.into_bytes(), value.into_bytes());
            }
            4 | 5 => {
                lsm.delete(key.as_bytes()).unwrap();
                after.remove(key.as_bytes());
            }
            6 => lsm.flush().unwrap(),
            _ => lsm.compact().unwrap(),
        }
        let effects = lsm.take_effects();
        for carried_out in 0..=effects.len() {
            let mut left = Disk { files: disk.files.clone() };
            left.perform(&effects[..carried_out]);
            let again = left.open(config.clone());
            let wanted = if carried_out == 0 { &model } else { &after };
            for k in 0..6 {
                let key = format!("k{}", k);
                let held = wanted.get(key.as_bytes()).map(|v| Bytes::copy_from_slice(v));
                assert_eq!(again.get(key.as_bytes()).unwrap(), held);
            }
        }
        disk.perform(&effects);
        model = after;
    }
}

#[test]
fn files_that_a_snapshot_of_all_tables_keeps_hide_nothing() {
    let mut disk = Disk::default();
    let mut lsm = disk.open(small_config());
    lsm.put(b("gone"), b("1")).unwrap();
    lsm.put(b("stays"), b("1")).unwrap();
    lsm.flush().unwrap();
    lsm.delete(b"gone").unwrap();
    lsm.flush().unwrap();
    let snap = lsm.snapshot();
    lsm.compact().unwrap();
    assert_eq!(lsm.pending_delete_len(), 2);
    lsm.put(b("new"), b("2")).unwrap();
    disk.catch_up(&mut lsm);
    assert_eq!(disk.sst_files().len(), 3);
    let again = disk.open(small_config());
    assert_eq!(again.get(b"gone").unwrap(), None);
    assert_eq!(again.get(b"stays").unwrap(), Some(b("1")));
    assert_eq!(again.get(b"new").unwrap(), Some(b("2")));
    assert_eq!(snap.get(b"gone").unwrap(), None);
}

#[test]
fn a_snapshot_answers_as_the_engine_did_on_an_index_out_of_order() {
    let mut disk = Disk::default();
    let mut lsm = disk.open(small_config());
    lsm.put(b("a"), b("1")).unwrap();
    lsm.put(b("b"), b("2")).unwrap();
    lsm.put(b("c"), b("3")).unwrap();
    lsm.flush().unwrap();
    disk.catch_up(&mut lsm);
    let file = disk.files.get_mut("db/sst-00000000000000000001.sst").unwrap();
    // the first and the last line of the index change places
    let index = file.len() - 40 - 39;
    for i in 0..13 {
        file.swap(index + i, index + 26 + i);
    }
    let mut lsm = disk.open(small_config());
    let snap = lsm.snapshot();
    let keys = [&b"a"[..], &b"b"[..], &b"c"[..], &b"d"[..]];
    let before: Vec<Option<Bytes>> = keys.iter().map(|k| lsm.get(k).unwrap()).collect();
    // halving looks for every key in the wrong half
    assert_eq!(before, vec![None, None, None, None]);
    lsm.put(b("a"), b("9")).unwrap();
    lsm.flush().unwrap();
    lsm.delete(b"b").unwrap();
    let after: Vec<Option<Bytes>> = keys.iter().map(|k| snap.get(k).unwrap()).collect();
    assert_eq!(after, before);
    assert_eq!(lsm.get(b"a").unwrap(), Some(b("9")));
}

#[test]
fn a_file_that_a_snapshot_keeps_hides_nothing_that_was_written_since() {
    let mut disk = Disk::default();
    let mut lsm = disk.open(small_config());
    lsm.put(b("k"), b("v1")).unwrap();
    lsm.flush().unwrap();
    let snap = lsm.snapshot();
    lsm.put(b("k"), b("v2")).unwrap();
    lsm.flush().unwrap();
    lsm.compact().unwrap();
    disk.catch_up(&mut lsm);
    assert_eq!(lsm.pending_delete_len(), 1);
    assert_eq!(disk.sst_files().len(), 2);
    let again = disk.open(small_config());
    assert_eq!(again.get(b"k").unwrap(), Some(b("v2")));
    assert_eq!(snap.get(b"k").unwrap(), Some(b("v1")));
}
