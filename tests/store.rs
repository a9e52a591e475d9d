use std::collections::BTreeMap;

use kvs::command::Command;
use kvs::index::CommandPos;
use kvs::kv::{value_of, CompactionPlan, Record, Segment, COMPACTION_THRESHOLD};
use kvs::server::{encode_get_reply, encode_unit_reply, Request};
use kvs::{ErrorKind, KvStore, KvsError};

/// Generation files held in memory, driven through the store's state the
/// way a disk-backed engine drives it.
struct MemLog {
    files: BTreeMap<u64, Vec<u8>>,
    store: KvStore,
}

fn decode(bytes: &[u8]) -> Command {
    let v: serde_json::Value = serde_json::from_slice(bytes).unwrap();
    if let Some(set) = v.get("Set") {
        Command::set(
            set.get("key").unwrap().as_str().unwrap().to_string(),
            set.get("value").unwrap().as_str().unwrap().to_string(),
        )
    } else {
        let rm = v.get("Remove").unwrap();
        Command::remove(rm.get("key").unwrap().as_str().unwrap().to_string())
    }
}

impl MemLog {
    fn new() -> MemLog {
        let store = KvStore::open(&Vec::new()).unwrap();
        let mut files = BTreeMap::new();
        files.insert(1, Vec::new());
        MemLog { files, store }
    }

    fn append(&mut self, gen: u64, bytes: &[u8]) {
        self.files.entry(gen).or_default().extend_from_slice(bytes);
    }

    fn current_gen(&self) -> u64 {
        *self.files.keys().last().unwrap()
    }

    fn set(&mut self, key: &str, value: &str) -> Result<(), KvsError> {
        let bytes = Command::set(key.to_string(), value.to_string()).encode();
        let gen = self.current_gen();
        self.append(gen, bytes.as_bytes());
        if self.store.set(key.to_string(), bytes.len() as u64)? {
            self.compact()?;
        }
        Ok(())
    }

    fn get(&self, key: &str) -> Result<Option<String>, KvsError> {
        match self.store.get(&key.to_string()) {
            None => Ok(None),
            Some(p) => {
                let file = &self.files[&p.gen];
                let bytes = &file[p.pos as usize..(p.pos + p.len) as usize];
                value_of(decode(bytes)).map(Some)
            }
        }
    }

    fn remove(&mut self, key: &str) -> Result<(), KvsError> {
        self.store.check_remove(&key.to_string())?;
        let bytes = Command::remove(key.to_string()).encode();
        let gen = self.current_gen();
        self.append(gen, bytes.as_bytes());
        self.store.remove(&key.to_string(), bytes.len() as u64)
    }

    fn compact(&mut self) -> Result<CompactionPlan, KvsError> {
        let plan = self.store.compaction_plan()?;
        let mut out = Vec::new();
        for m in &plan.moves {
            let src = &self.files[&m.from.gen];
            out.extend_from_slice(&src[m.from.pos as usize..(m.from.pos + m.from.len) as usize]);
        }
        self.files.insert(plan.compaction_gen, out);
        self.files.insert(plan.next_gen, Vec::new());
        self.store.compact(&plan);
        for g in &plan.stale {
            self.files.remove(g);
        }
        Ok(plan)
    }

    fn size(&self) -> usize {
        self.files.values().map(|f| f.len()).sum()
    }

    /// Reads every file back into records, as opening the directory does.
    fn segments(&self) -> Vec<Segment> {
        let mut segs = Vec::new();
        for (gen, bytes) in &self.files {
            let mut records = Vec::new();
            let stream = serde_json::Deserializer::from_slice(bytes).into_iter::<serde_json::Value>();
            let mut pos = 0u64;
            let mut stream = stream;
            while let Some(v) = stream.next() {
                let end = stream.byte_offset() as u64;
                v.unwrap();
                let cmd = decode(&bytes[pos as usize..end as usize]);
                records.push(Record { cmd, pos, len: end - pos });
                pos = end;
            }
            segs.push(Segment { gen: *gen, records });
        }
        segs
    }
}

#[test]
fn set_overwrite_get_remove_scenario() {
    let mut log = MemLog::new();
    log.set("a", "1").unwrap();
    log.set("a", "2").unwrap();
    assert_eq!(log.get("a").unwrap(), Some("2".to_string()));
    log.remove("a").unwrap();
    assert_eq!(log.get("a").unwrap(), None);
    let err = log.remove("a").unwrap_err();
    assert_eq!(err.kind(), ErrorKind::NotFound);
    assert_eq!(err.to_string(), "Key not found");
}

#[test]
fn get_of_missing_key_is_no_value() {
    let log = MemLog::new();
    assert_eq!(log.get("nothing").unwrap(), None);
}

#[test]
fn remove_of_missing_key_writes_nothing() {
    let mut log = MemLog::new();
    log.set("k", "v").unwrap();
    let size = log.size();
    let before = log.store.get(&"k".to_string());
    let err = log.remove("other").unwrap_err();
    assert_eq!(err.kind(), ErrorKind::NotFound);
    assert_eq!(log.size(), size);
    assert_eq!(log.store.get(&"k".to_string()), before);
    let mut store = KvStore::open(&Vec::new()).unwrap();
    assert_eq!(store.remove(&"x".to_string(), 20).unwrap_err().kind(), ErrorKind::NotFound);
    assert_eq!(store.set("y".to_string(), 5).unwrap(), false);
    assert_eq!(store.get(&"y".to_string()), Some(CommandPos { gen: 1, pos: 0, len: 5 }));
}

#[test]
fn set_reports_location_and_dead_bytes() {
    let mut store = KvStore::open(&Vec::new()).unwrap();
    assert_eq!(store.set("a".to_string(), 10).unwrap(), false);
    assert_eq!(store.set("b".to_string(), 7).unwrap(), false);
    assert_eq!(store.get(&"b".to_string()), Some(CommandPos { gen: 1, pos: 10, len: 7 }));
    // Overwriting "a" makes its 10 bytes dead.
    assert_eq!(store.set("a".to_string(), COMPACTION_THRESHOLD).unwrap(), false);
    assert_eq!(store.set("a".to_string(), 3).unwrap(), true);
    assert_eq!(store.get(&"a".to_string()), Some(CommandPos { gen: 1, pos: 17 + COMPACTION_THRESHOLD, len: 3 }));
}

#[test]
fn set_past_end_of_offsets_is_an_error() {
    let mut store = KvStore::open(&Vec::new()).unwrap();
    store.set("a".to_string(), u64::MAX).unwrap();
    let err = store.set("b".to_string(), 1).unwrap_err();
    assert_eq!(err.kind(), ErrorKind::Io);
    assert_eq!(store.get(&"b".to_string()), None);
}

#[test]
fn value_of_rejects_remove_record() {
    assert_eq!(value_of(Command::set("k".to_string(), "v".to_string())).unwrap(), "v");
    let err = value_of(Command::remove("k".to_string())).unwrap_err();
    assert_eq!(err.kind(), ErrorKind::UnexpectedCommandType);
}

#[test]
fn reopen_rebuilds_same_mapping() {
    let mut log = MemLog::new();
    log.set("a", "1").unwrap();
    log.set("b", "2").unwrap();
    log.set("a", "3").unwrap();
    log.remove("b").unwrap();
    log.set("c", "4").unwrap();
    let segs = log.segments();
    let reopened = KvStore::open(&segs).unwrap();
    for k in ["a", "b", "c", "d"] {
        assert_eq!(reopened.get(&k.to_string()), log.store.get(&k.to_string()));
    }
    let old = std::mem::replace(&mut log.store, reopened);
    drop(old);
    // New writes go to a fresh generation after the last one.
    log.files.insert(2, Vec::new());
    log.set("d", "5").unwrap();
    assert_eq!(log.store.get(&"d".to_string()).unwrap().gen, 2);
    assert_eq!(log.get("a").unwrap(), Some("3".to_string()));
    assert_eq!(log.get("b").unwrap(), None);
    assert_eq!(log.get("d").unwrap(), Some("5".to_string()));
}

#[test]
fn open_counts_dead_bytes() {
    let segs = vec![
        Segment {
            gen: 3,
            records: vec![
                Record { cmd: Command::set("a".into(), "1".into()), pos: 0, len: 10 },
                Record { cmd: Command::set("a".into(), "2".into()), pos: 10, len: 12 },
            ],
        },
        Segment {
            gen: 7,
            records: vec![Record { cmd: Command::remove("a".into()), pos: 0, len: 5 }],
        },
    ];
    let store = KvStore::open(&segs).unwrap();
    assert_eq!(store.get(&"a".to_string()), None);
    // 10 for the first set, 12 for the second once removed, 5 for the remove.
    let mut store = store;
    assert_eq!(store.set("b".to_string(), COMPACTION_THRESHOLD - 27).unwrap(), false);
    assert_eq!(store.get(&"b".to_string()), Some(CommandPos { gen: 8, pos: 0, len: COMPACTION_THRESHOLD - 27 }));
}

#[test]
fn open_after_last_generation_fails() {
    let segs = vec![Segment { gen: u64::MAX, records: Vec::new() }];
    assert_eq!(KvStore::open(&segs).err().unwrap().kind(), ErrorKind::Io);
}

#[test]
fn compaction_shrinks_log_and_keeps_values() {
    let mut log = MemLog::new();
    let big = "x".repeat(1000);
    let mut peak = 0;
    let mut compacted = false;
    for i in 0..1200 {
        let key = format!("key{}", i % 10);
        let before = log.size();
        log.set(&key, &format!("{}{}", big, i)).unwrap();
        if log.size() < before {
            compacted = true;
            peak = peak.max(before);
        } else {
            peak = peak.max(log.size());
        }
    }
    assert!(compacted);
    assert!(log.size() < peak);
    for i in 1190..1200 {
        let key = format!("key{}", i % 10);
        assert_eq!(log.get(&key).unwrap(), Some(format!("{}{}", big, i)));
    }
}

#[test]
fn compacting_twice_keeps_mapping_and_size() {
    let mut log = MemLog::new();
    log.set("a", "1").unwrap();
    log.set("b", "2").unwrap();
    log.set("a", "3").unwrap();
    log.remove("b").unwrap();
    log.set("c", "4").unwrap();
    log.compact().unwrap();
    let size = log.size();
    let first = log.files.clone();
    log.compact().unwrap();
    assert_eq!(log.size(), size);
    let second_data: Vec<&Vec<u8>> = log.files.values().filter(|f| !f.is_empty()).collect();
    let first_data: Vec<&Vec<u8>> = first.values().filter(|f| !f.is_empty()).collect();
    assert_eq!(second_data, first_data);
    assert_eq!(log.get("a").unwrap(), Some("3".to_string()));
    assert_eq!(log.get("b").unwrap(), None);
    assert_eq!(log.get("c").unwrap(), Some("4".to_string()));
}

#[test]
fn compaction_plan_places_records_back_to_back() {
    let mut store = KvStore::open(&Vec::new()).unwrap();
    store.set("a".to_string(), 4).unwrap();
    store.set("b".to_string(), 6).unwrap();
    store.set("a".to_string(), 5).unwrap();
    let plan = store.compaction_plan().unwrap();
    assert_eq!(plan.compaction_gen, 2);
    assert_eq!(plan.next_gen, 3);
    assert_eq!(plan.stale, vec![1]);
    assert_eq!(plan.moves.len(), 2);
    assert_eq!(plan.moves[0].from, CommandPos { gen: 1, pos: 10, len: 5 });
    assert_eq!(plan.moves[0].to, CommandPos { gen: 2, pos: 0, len: 5 });
    assert_eq!(plan.moves[1].from, CommandPos { gen: 1, pos: 4, len: 6 });
    assert_eq!(plan.moves[1].to, CommandPos { gen: 2, pos: 5, len: 6 });
    store.compact(&plan);
    assert_eq!(store.get(&"b".to_string()), Some(CommandPos { gen: 2, pos: 5, len: 6 }));
    store.set("c".to_string(), 2).unwrap();
    assert_eq!(store.get(&"c".to_string()), Some(CommandPos { gen: 3, pos: 0, len: 2 }));
}

#[test]
fn test_open() {
    let store = KvStore::open(&Vec::new());
    assert_eq!(store.ok().is_some(), true);
}

#[test]
fn test_set() {
    let mut log = MemLog::new();
    let result = log.set("key1", "value1");
    assert_eq!(result.ok(), Some(()));
}

#[test]
fn test_set_get() {
    let mut log = MemLog::new();
    let result = log.set("key1", "value1");
    assert_eq!(result.ok(), Some(()));
    let get = log.get("key1").ok().unwrap().unwrap();
    assert_eq!(get, String::from("value1"));
}

#[test]
fn command_pos_from_range() {
    assert_eq!(CommandPos::from_range(4, 10, 25), CommandPos { gen: 4, pos: 10, len: 15 });
    assert_eq!(CommandPos::from_range(0, 7, 7).len, 0);
}

#[test]
fn compaction_copies_in_key_order() {
    let mut store = KvStore::open(&Vec::new()).unwrap();
    store.set("b".to_string(), 3).unwrap();
    store.set("c".to_string(), 4).unwrap();
    store.set("a".to_string(), 5).unwrap();
    let plan = store.compaction_plan().unwrap();
    let from: Vec<u64> = plan.moves.iter().map(|m| m.from.pos).collect();
    assert_eq!(from, vec![7, 0, 3]);
    let to: Vec<u64> = plan.moves.iter().map(|m| m.to.pos).collect();
    assert_eq!(to, vec![0, 5, 8]);
}

#[test]
fn set_then_get_over_one_connection() {
    let mut log = MemLog::new();
    let requests: Vec<Request> = ["{\"Set\":{\"key\":\"x\",\"value\":\"1\"}}", "{\"Get\":{\"key\":\"x\"}}"]
        .iter()
        .map(|text| {
            let v: serde_json::Value = serde_json::from_str(text).unwrap();
            if let Some(set) = v.get("Set") {
                Request::SetValue {
                    key: set.get("key").unwrap().as_str().unwrap().to_string(),
                    value: set.get("value").unwrap().as_str().unwrap().to_string(),
                }
            } else {
                Request::Get { key: v.get("Get").unwrap().get("key").unwrap().as_str().unwrap().to_string() }
            }
        })
        .collect();
    let mut replies = Vec::new();
    for req in requests {
        let reply = match req {
            Request::SetValue { key, value } => encode_unit_reply(&log.set(&key, &value)),
            Request::Get { key } => encode_get_reply(&log.get(&key)),
            Request::Remove { key } => encode_unit_reply(&log.remove(&key)),
        };
        replies.push(reply);
    }
    assert_eq!(replies, vec!["{\"Ok\":null}".to_string(), "{\"Ok\":\"1\"}".to_string()]);
}

#[test]
fn remove_of_missing_key_over_the_wire() {
    let mut log = MemLog::new();
    assert_eq!(encode_unit_reply(&log.remove("x")), "{\"Err\":\"Key not found\"}");
}
