use kvs::{
    encode_record, read_value, Command, CompactionPlan, KvsError, LogCore, COMPACTION_THRESHOLD,
};
use std::collections::BTreeMap;

/// Segment files held in memory, driven the way the server drives files.
struct Disk {
    segs: BTreeMap<u64, Vec<u8>>,
}

struct Store {
    core: LogCore,
    compactions: usize,
}

fn open(disk: &mut Disk) -> Store {
    let mut core = LogCore::new();
    for (gen, bytes) in disk.segs.iter() {
        core.replay_segment(*gen, bytes).unwrap();
    }
    let active = core.start_active().unwrap();
    disk.segs.insert(active, Vec::new());
    Store { core, compactions: 0 }
}

fn run_plan(disk: &mut Disk, plan: CompactionPlan) {
    let mut out = Vec::new();
    for p in plan.sources.iter() {
        let seg = &disk.segs[&p.gen];
        out.extend_from_slice(&seg[p.position as usize..(p.position + p.length) as usize]);
    }
    disk.segs.insert(plan.compact_gen, out);
    disk.segs.insert(plan.active_gen, Vec::new());
    for g in plan.stale.iter() {
        disk.segs.remove(g);
    }
}

fn set(disk: &mut Disk, store: &mut Store, k: &str, v: &str) {
    let bytes = encode_record(&Command::Put { key: k.to_owned(), value: v.to_owned() });
    let active = store.core.active_gen().unwrap();
    disk.segs.get_mut(&active).unwrap().extend_from_slice(&bytes);
    if store.core.commit_put(k.to_owned(), v.to_owned()).unwrap() {
        let plan = store.core.compact().unwrap();
        run_plan(disk, plan);
        store.compactions += 1;
    }
}

fn get(disk: &Disk, store: &Store, k: &str) -> Result<Option<String>, KvsError> {
    match store.core.locate(&k.to_owned()) {
        None => Ok(None),
        Some(p) => {
            let seg = &disk.segs[&p.gen];
            read_value(&seg[p.position as usize..(p.position + p.length) as usize]).map(Some)
        }
    }
}

fn remove(disk: &mut Disk, store: &mut Store, k: &str) -> Result<(), KvsError> {
    if store.core.locate(&k.to_owned()).is_none() {
        return Err(KvsError::KeyNotFound);
    }
    let bytes = encode_record(&Command::Remove { key: k.to_owned() });
    let active = store.core.active_gen().unwrap();
    disk.segs.get_mut(&active).unwrap().extend_from_slice(&bytes);
    store.core.commit_remove(&k.to_owned())
}

fn total_bytes(disk: &Disk) -> usize {
    disk.segs.values().map(|s| s.len()).sum()
}

#[test]
fn get_stored_values() {
    let mut disk = Disk { segs: BTreeMap::new() };
    let mut s = open(&mut disk);
    set(&mut disk, &mut s, "a", "1");
    set(&mut disk, &mut s, "b", "2");
    assert_eq!(get(&disk, &s, "a"), Ok(Some("1".to_owned())));
    assert_eq!(get(&disk, &s, "b"), Ok(Some("2".to_owned())));
    assert_eq!(get(&disk, &s, "c"), Ok(None));
}

#[test]
fn overwrite_then_remove() {
    let mut disk = Disk { segs: BTreeMap::new() };
    let mut s = open(&mut disk);
    set(&mut disk, &mut s, "a", "1");
    set(&mut disk, &mut s, "a", "2");
    assert_eq!(get(&disk, &s, "a"), Ok(Some("2".to_owned())));
    assert_eq!(remove(&mut disk, &mut s, "a"), Ok(()));
    assert_eq!(get(&disk, &s, "a"), Ok(None));
    assert_eq!(remove(&mut disk, &mut s, "a"), Err(KvsError::KeyNotFound));
}

#[test]
fn remove_missing_writes_nothing() {
    let mut disk = Disk { segs: BTreeMap::new() };
    let mut s = open(&mut disk);
    set(&mut disk, &mut s, "x", "1");
    let before = total_bytes(&disk);
    assert_eq!(s.core.commit_remove(&"never".to_owned()), Err(KvsError::KeyNotFound));
    assert_eq!(total_bytes(&disk), before);
    assert_eq!(get(&disk, &s, "x"), Ok(Some("1".to_owned())));
}

#[test]
fn reopen_keeps_values() {
    let mut disk = Disk { segs: BTreeMap::new() };
    {
        let mut s = open(&mut disk);
        set(&mut disk, &mut s, "k", "v");
    }
    let s = open(&mut disk);
    assert_eq!(get(&disk, &s, "k"), Ok(Some("v".to_owned())));
}

#[test]
fn reopen_replays_removes_and_overwrites() {
    let mut disk = Disk { segs: BTreeMap::new() };
    {
        let mut s = open(&mut disk);
        set(&mut disk, &mut s, "a", "1");
        set(&mut disk, &mut s, "b", "2");
        set(&mut disk, &mut s, "a", "3");
        remove(&mut disk, &mut s, "b").unwrap();
    }
    let mut s = open(&mut disk);
    assert_eq!(get(&disk, &s, "a"), Ok(Some("3".to_owned())));
    assert_eq!(get(&disk, &s, "b"), Ok(None));
    // The replaced `Put` (19 bytes), the removed `Put` (19) and the
    // tombstone (10) are dead.
    assert_eq!(s.core.uncompacted_size(), 48);
    set(&mut disk, &mut s, "c", "4");
    let s2 = open(&mut disk);
    assert_eq!(get(&disk, &s2, "c"), Ok(Some("4".to_owned())));
    assert_eq!(s2.core.generation_list(), vec![1, 2, 3]);
}

#[test]
fn compaction_keeps_values_and_bounds_size() {
    let mut disk = Disk { segs: BTreeMap::new() };
    let mut s = open(&mut disk);
    let n = 50_000;
    for i in 0..n {
        set(&mut disk, &mut s, &format!("key_{:020}", i), &format!("first_{:019}", i));
    }
    for i in 0..n {
        set(&mut disk, &mut s, &format!("key_{:020}", i), &format!("second_{:018}", i));
    }
    assert!(s.compactions >= 1);
    for i in 0..n {
        assert_eq!(
            get(&disk, &s, &format!("key_{:020}", i)),
            Ok(Some(format!("second_{:018}", i)))
        );
    }
    let live: usize = (0..n).map(|i| format!("key_{:020}", i).len() + format!("second_{:018}", i).len()).sum();
    assert!(total_bytes(&disk) <= 2 * live);
    assert!(s.core.uncompacted_size() <= COMPACTION_THRESHOLD);
    let s2 = open(&mut disk);
    assert_eq!(get(&disk, &s2, "key_00000000000000000007"), Ok(Some("second_000000000000000007".to_owned())));
}

#[test]
fn compaction_moves_everything_to_one_segment() {
    let mut disk = Disk { segs: BTreeMap::new() };
    let mut s = open(&mut disk);
    set(&mut disk, &mut s, "a", "1");
    set(&mut disk, &mut s, "a", "2");
    set(&mut disk, &mut s, "b", "3");
    let plan = s.core.compact().unwrap();
    assert_eq!(plan.compact_gen, 2);
    assert_eq!(plan.active_gen, 3);
    assert_eq!(plan.stale, vec![1]);
    assert_eq!(plan.sources.len(), 2);
    run_plan(&mut disk, plan);
    assert_eq!(s.core.uncompacted_size(), 0);
    assert_eq!(disk.segs[&2].len(), 38);
    assert_eq!(get(&disk, &s, "a"), Ok(Some("2".to_owned())));
    assert_eq!(get(&disk, &s, "b"), Ok(Some("3".to_owned())));
    assert_eq!(s.core.active_gen(), Some(3));
}

#[test]
fn overwrite_counts_dead_bytes() {
    let mut disk = Disk { segs: BTreeMap::new() };
    let mut s = open(&mut disk);
    assert_eq!(s.core.commit_put("a".to_owned(), "1".to_owned()), Ok(false));
    assert_eq!(s.core.uncompacted_size(), 0);
    assert_eq!(s.core.commit_put("a".to_owned(), "22".to_owned()), Ok(false));
    assert_eq!(s.core.uncompacted_size(), 19);
    assert_eq!(s.core.commit_remove(&"a".to_owned()), Ok(()));
    assert_eq!(s.core.uncompacted_size(), 19 + 20 + 10);
}

#[test]
fn put_before_any_segment_is_internal() {
    let mut core = LogCore::new();
    assert_eq!(core.commit_put("a".to_owned(), "1".to_owned()), Err(KvsError::Internal));
    assert!(core.compact().is_err());
    assert_eq!(core.active_gen(), None);
}

#[test]
fn replay_out_of_order_is_internal() {
    let mut core = LogCore::new();
    let rec = encode_record(&Command::Put { key: "a".to_owned(), value: "1".to_owned() });
    assert_eq!(core.replay_segment(5, &rec), Ok(()));
    assert_eq!(core.replay_segment(5, &rec), Err(KvsError::Internal));
    assert_eq!(core.replay_segment(3, &rec), Err(KvsError::Internal));
    assert_eq!(core.replay_segment(0, &rec), Err(KvsError::Internal));
    assert_eq!(core.start_active(), Ok(6));
}

#[test]
fn replay_partial_record_is_corrupt() {
    let mut core = LogCore::new();
    let mut rec = encode_record(&Command::Put { key: "a".to_owned(), value: "1".to_owned() });
    let good = encode_record(&Command::Put { key: "b".to_owned(), value: "2".to_owned() });
    assert_eq!(core.replay_segment(1, &good), Ok(()));
    rec.pop();
    let mut bad = good.clone();
    bad.extend_from_slice(&rec);
    assert_eq!(core.replay_segment(2, &bad), Err(KvsError::CorruptRecord));
    assert_eq!(core.generation_list(), vec![1]);
    assert_eq!(core.locate(&"a".to_owned()), None);
    assert!(core.locate(&"b".to_owned()).is_some());
    assert_eq!(core.start_active(), Ok(2));
}

#[test]
fn start_active_first_generation_is_one() {
    let mut core = LogCore::new();
    assert_eq!(core.start_active(), Ok(1));
    assert_eq!(core.start_active(), Ok(2));
    assert_eq!(core.generation_list(), vec![1, 2]);
}

#[test]
fn read_value_of_tombstone_is_invalid_command() {
    let rec = encode_record(&Command::Remove { key: "a".to_owned() });
    assert_eq!(read_value(&rec), Err(KvsError::InvalidCommand));
    let put = encode_record(&Command::Put { key: "a".to_owned(), value: "xyz".to_owned() });
    assert_eq!(read_value(&put), Ok("xyz".to_owned()));
    assert_eq!(read_value(&put[..put.len() - 1]), Err(KvsError::CorruptRecord));
    assert_eq!(read_value(&[]), Err(KvsError::CorruptRecord));
}

#[test]
fn torn_compaction_reopens_without_loss() {
    let mut disk = Disk { segs: BTreeMap::new() };
    let mut s = open(&mut disk);
    set(&mut disk, &mut s, "a", "1");
    set(&mut disk, &mut s, "b", "2");
    set(&mut disk, &mut s, "a", "3");
    let plan = s.core.compact().unwrap();
    // The copy stops halfway: the old segments are still there.
    let p = plan.sources[0];
    let seg = &disk.segs[&p.gen];
    let half = seg[p.position as usize..(p.position + p.length / 2) as usize].to_vec();
    disk.segs.insert(plan.compact_gen, half);
    disk.segs.insert(plan.active_gen, Vec::new());
    let mut core = LogCore::new();
    let mut skipped = Vec::new();
    for (gen, bytes) in disk.segs.iter() {
        if !core.replay_or_skip(*gen, bytes).unwrap() {
            skipped.push(*gen);
        }
    }
    assert_eq!(skipped, vec![plan.compact_gen]);
    assert_eq!(core.generation_list(), vec![1, plan.active_gen]);
    let g = core.start_active().unwrap();
    assert_eq!(g, plan.active_gen + 1);
    disk.segs.remove(&plan.compact_gen);
    disk.segs.insert(g, Vec::new());
    let s2 = Store { core, compactions: 0 };
    assert_eq!(get(&disk, &s2, "a"), Ok(Some("3".to_owned())));
    assert_eq!(get(&disk, &s2, "b"), Ok(Some("2".to_owned())));
}

#[test]
fn skipped_generation_is_not_reused() {
    let mut core = LogCore::new();
    assert_eq!(core.skip_segment(4), Ok(()));
    assert_eq!(core.skip_segment(4), Err(KvsError::Internal));
    let rec = encode_record(&Command::Put { key: "a".to_owned(), value: "1".to_owned() });
    assert_eq!(core.replay_segment(3, &rec), Err(KvsError::Internal));
    assert_eq!(core.replay_or_skip(6, &rec[..3]), Ok(false));
    assert_eq!(core.replay_or_skip(7, &rec), Ok(true));
    assert_eq!(core.generation_list(), vec![7]);
    assert_eq!(core.start_active(), Ok(8));
}

#[test]
fn compaction_lays_out_keys_in_order() {
    let mut disk = Disk { segs: BTreeMap::new() };
    let mut s = open(&mut disk);
    set(&mut disk, &mut s, "bb", "2");
    set(&mut disk, &mut s, "a", "1");
    set(&mut disk, &mut s, "bb", "22");
    let plan = s.core.compact().unwrap();
    run_plan(&mut disk, plan);
    let a = s.core.locate(&"a".to_owned()).unwrap();
    let b = s.core.locate(&"bb".to_owned()).unwrap();
    assert_eq!((a.gen, a.position, a.length), (2, 0, 19));
    assert_eq!((b.gen, b.position, b.length), (2, 19, 21));
}

#[test]
fn remove_after_two_sets_succeeds() {
    let mut disk = Disk { segs: BTreeMap::new() };
    let mut s = open(&mut disk);
    set(&mut disk, &mut s, "a", "1");
    set(&mut disk, &mut s, "a", "2");
    assert_eq!(s.core.commit_remove(&"a".to_owned()), Ok(()));
    assert_eq!(s.core.locate(&"a".to_owned()), None);
}
