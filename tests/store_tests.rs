use std::collections::BTreeMap;

use learn_db::config::Config;
use learn_db::error::{common_err, CustomError};
use learn_db::http_param::{DataItem, View};
use learn_db::index::dynamic_index::DynamicParallelIndexWrapper;
use learn_db::index::DataPosition;
use learn_db::store::codec::{
    decode_index_entries, decode_whole_index_file, encode_frame, frame_len_at, encode_index_entries, read_data_item, read_index_from_file, scan_frames,
};
use learn_db::store::compression_task::{reclaim_events, scan_file_id_vec, split_for_compaction};
use learn_db::store::data_manager::{recover_file_into, recover_index};
use learn_db::store::write_consumer::{WriteBatch, WriteEvent, WriteableFile};
use learn_db::store::{
    calc_max_file_id, get_file_id_from_path, get_index_file_name, get_log_file_name, get_tmp_index_file_name,
    is_log_file, parse_decimal_u32,
};

fn payload_of(key: &str, value: &str) -> Vec<u8> {
    let mut m = serde_json::Map::new();
    m.insert(String::from("key"), serde_json::Value::String(key.to_string()));
    m.insert(String::from("value"), serde_json::Value::String(value.to_string()));
    serde_json::to_vec(&serde_json::Value::Object(m)).unwrap()
}

fn item_of(payload: &[u8]) -> DataItem {
    let v: serde_json::Value = serde_json::from_slice(payload).unwrap();
    DataItem {
        key: v["key"].as_str().unwrap().to_string(),
        value: v["value"].as_str().unwrap().to_string(),
    }
}

/// An in-memory store driven by the library's steps: log files as byte vectors.
struct Store {
    logs: BTreeMap<u32, Vec<u8>>,
    file: WriteableFile,
    index: DynamicParallelIndexWrapper,
    max_file_size: u32,
}

impl Store {
    fn new(first_id: u32, max_file_size: u32) -> Store {
        let mut logs = BTreeMap::new();
        logs.insert(first_id, Vec::new());
        Store { logs, file: WriteableFile::new(first_id), index: DynamicParallelIndexWrapper::new(8), max_file_size }
    }

    /// One batch of the writer; returns how many acknowledgements fired.
    fn batch(&mut self, events: Vec<WriteEvent>) -> usize {
        if self.file.rotate_if_full(self.max_file_size) {
            self.logs.insert(self.file.id, Vec::new());
        }
        let mut batch = WriteBatch::new();
        for event in events {
            let payload = payload_of(&event.data_item().key, &event.data_item().value);
            match self.file.prepare(&self.index, &event, &payload) {
                Some((dp, frame)) => {
                    self.logs.get_mut(&self.file.id).unwrap().extend_from_slice(&frame);
                    batch.commit(&mut self.file, &mut self.index, event, dp).unwrap();
                }
                None => batch.skip(event),
            }
        }
        let acks = batch.finish(true);
        let n = acks.len();
        for ack in acks {
            let _ = ack.send(());
        }
        n
    }

    fn put(&mut self, key: &str, value: &str) {
        self.batch(vec![WriteEvent::new_simple_event(DataItem { key: key.to_string(), value: value.to_string() })]);
    }

    fn find(&self, key: &str) -> Option<String> {
        let dp = self.index.find(&key.to_string())?;
        let log = self.logs.get(&dp.file_id)?;
        let (_, payload) = read_data_item(log, dp.offset as usize).ok()?;
        Some(item_of(&payload).value)
    }

    fn records(&self, file_id: u32) -> Vec<(u32, u32, DataItem)> {
        scan_frames(&self.logs[&file_id]).into_iter().map(|(o, l, p)| (o, l, item_of(&p))).collect()
    }

    fn reclaim(&mut self, file_id: u32) {
        let records = self.records(file_id);
        let (tx, mut rx) = tokio::sync::oneshot::channel();
        let events = reclaim_events(file_id, &records, tx);
        self.batch(events);
        if !records.is_empty() {
            assert!(rx.try_recv().is_ok());
        }
        self.logs.remove(&file_id);
    }

    fn side_car(&self, file_id: u32) -> Vec<u8> {
        let entries: Vec<(String, u32)> = self.records(file_id).into_iter().map(|(o, _, i)| (i.key, o)).collect();
        encode_index_entries(&entries)
    }
}

#[test]
fn file_names_follow_the_pattern() {
    let dir = String::from("/data");
    assert_eq!(get_log_file_name(7, &dir), "/data/learn_db_7.log");
    assert_eq!(get_index_file_name(42, &dir), "/data/learn_db_42.index");
    assert_eq!(get_tmp_index_file_name(0, &dir), "/data/learn_db_0.index.tmp");
    assert_eq!(get_log_file_name(4294967295, &dir), "/data/learn_db_4294967295.log");
}

#[test]
fn log_file_names_are_recognised() {
    assert!(is_log_file("learn_db_1.log"));
    assert!(is_log_file("learn_db_.log"));
    assert!(!is_log_file("learn_db_1.index"));
    assert!(!is_log_file("other_1.log"));
    assert!(!is_log_file("x.log"));
}

#[test]
fn file_ids_are_read_from_names() {
    assert_eq!(get_file_id_from_path("learn_db_123.log"), 123);
    assert_eq!(get_file_id_from_path("learn_db_+9.log"), 9);
    assert_eq!(get_file_id_from_path("learn_db_abc.log"), 0);
    assert_eq!(get_file_id_from_path("learn_db_4294967296.log"), 0);
    assert_eq!(get_file_id_from_path("learn_db_1.index"), 0);
    assert_eq!(parse_decimal_u32("4294967295"), Some(4294967295));
    assert_eq!(parse_decimal_u32(""), None);
    assert_eq!(parse_decimal_u32("+"), None);
}

#[test]
fn max_file_id_is_one_past_the_largest() {
    assert_eq!(calc_max_file_id(&vec![]), 1);
    assert_eq!(calc_max_file_id(&vec![3, 9, 4]), 10);
}

#[test]
fn scan_keeps_log_ids_in_order() {
    let names = vec![
        String::from("learn_db_10.log"),
        String::from("learn_db_2.index"),
        String::from("learn_db_2.log"),
        String::from("notes.txt"),
        String::from("learn_db_7.log"),
    ];
    assert_eq!(scan_file_id_vec(&names), vec![2, 7, 10]);
}

#[test]
fn frames_round_trip() {
    let frame = encode_frame(&b"hello".to_vec());
    assert_eq!(frame, vec![0, 0, 0, 5, b'h', b'e', b'l', b'l', b'o']);
    let mut log = frame.clone();
    log.extend_from_slice(&encode_frame(&b"xy".to_vec()));
    assert_eq!(read_data_item(&log, 0).unwrap(), (9, b"hello".to_vec()));
    assert_eq!(read_data_item(&log, 9).unwrap(), (6, b"xy".to_vec()));
    assert_eq!(scan_frames(&log), vec![(0, 9, b"hello".to_vec()), (9, 6, b"xy".to_vec())]);
}

#[test]
fn torn_tail_reads_as_end_of_log() {
    let mut log = encode_frame(&b"abc".to_vec());
    log.extend_from_slice(&[0, 0, 0, 9, 1, 2]);
    assert!(read_data_item(&log, 7).is_err());
    assert!(read_data_item(&log, 100).is_err());
    assert_eq!(scan_frames(&log).len(), 1);
}

#[test]
fn side_car_round_trip() {
    let entries = vec![(String::from("k"), 0u32), (String::from("héllo"), 300u32)];
    let bytes = encode_index_entries(&entries);
    assert_eq!(&bytes[..9], &[0, 0, 0, 1, b'k', 0, 0, 0, 0]);
    assert_eq!(decode_index_entries(&bytes), entries);
    assert_eq!(read_index_from_file(&bytes, 9).unwrap(), (String::from("héllo"), 300));
    let mut torn = bytes.clone();
    torn.pop();
    assert_eq!(decode_index_entries(&torn), vec![(String::from("k"), 0u32)]);
}

#[test]
fn side_car_rejects_bad_utf8() {
    let bytes = vec![0, 0, 0, 1, 0xff, 0, 0, 0, 0];
    assert!(read_index_from_file(&bytes, 0).is_err());
    assert!(decode_index_entries(&bytes).is_empty());
}

#[test]
fn rotation_happens_past_the_size_limit() {
    let mut f = WriteableFile::new(3);
    assert!(!f.rotate_if_full(10));
    f.offset = 10;
    assert!(!f.rotate_if_full(10));
    f.offset = 11;
    assert!(f.rotate_if_full(10));
    assert_eq!((f.id, f.offset), (4, 0));
}

#[test]
fn first_append_past_the_limit_goes_to_next_file() {
    let mut s = Store::new(1, 10);
    s.put("a", "1");
    assert_eq!(s.file.id, 1);
    s.put("b", "2");
    assert_eq!(s.index.find(&String::from("b")).unwrap().file_id, 2);
    assert_eq!(s.index.find(&String::from("b")).unwrap().offset, 0);
}

#[test]
fn stale_compare_does_not_append() {
    let mut s = Store::new(1, 1 << 20);
    s.put("k", "v");
    let before = s.logs[&1].len();
    let stale = DataPosition::new(1, 1234, 5);
    let event = WriteEvent::new_compare_event(DataItem { key: "k".into(), value: "old".into() }, stale);
    assert!(!WriteableFile::accepts(&s.index, &event));
    assert!(s.file.prepare(&s.index, &event, &payload_of("k", "old")).is_none());
    s.batch(vec![event]);
    assert_eq!(s.logs[&1].len(), before);
    let missing = WriteEvent::new_compare_event(DataItem { key: "nope".into(), value: "x".into() }, stale);
    assert!(!WriteableFile::accepts(&s.index, &missing));
}

#[test]
fn matching_compare_appends() {
    let mut s = Store::new(1, 1 << 20);
    s.put("k", "v");
    let dp = s.index.find(&String::from("k")).unwrap();
    let event = WriteEvent::new_compare_event(DataItem { key: "k".into(), value: "w".into() }, dp);
    assert!(WriteableFile::accepts(&s.index, &event));
    s.batch(vec![event]);
    assert_eq!(s.find("k"), Some(String::from("w")));
}

#[test]
fn prepare_gives_location_and_frame() {
    let s = Store::new(5, 100);
    let event = WriteEvent::new_simple_event(DataItem { key: "k".into(), value: "v".into() });
    let (dp, frame) = s.file.prepare(&s.index, &event, &vec![1, 2, 3]).unwrap();
    assert_eq!(dp, DataPosition::new(5, 0, 7));
    assert_eq!(frame, vec![0, 0, 0, 3, 1, 2, 3]);
}

#[test]
fn record_too_large_for_offsets_is_refused() {
    let mut s = Store::new(5, u32::MAX);
    s.file.offset = u32::MAX - 5;
    let event = WriteEvent::new_simple_event(DataItem { key: "k".into(), value: "v".into() });
    assert!(s.file.prepare(&s.index, &event, &vec![1, 2]).is_none());
    assert!(s.file.prepare(&s.index, &event, &vec![1]).is_some());
}

#[test]
fn acks_fire_only_after_sync() {
    let mut index = DynamicParallelIndexWrapper::new(2);
    let mut file = WriteableFile::new(1);
    let mut batch = WriteBatch::new();
    let (tx, _rx) = tokio::sync::oneshot::channel();
    let event = WriteEvent::new_callback_event(DataItem { key: "k".into(), value: "v".into() }, None, tx);
    batch.commit(&mut file, &mut index, event, DataPosition::new(1, 0, 20)).unwrap();
    assert_eq!(file.offset, 20);
    assert_eq!(batch.finish(false).len(), 0);

    let mut batch = WriteBatch::new();
    let (tx, mut rx) = tokio::sync::oneshot::channel();
    let event = WriteEvent::new_callback_event(DataItem { key: "j".into(), value: "v".into() }, None, tx);
    batch.commit(&mut file, &mut index, event, DataPosition::new(1, 20, 20)).unwrap();
    let acks = batch.finish(true);
    assert_eq!(acks.len(), 1);
    for ack in acks {
        ack.send(()).unwrap();
    }
    assert!(rx.try_recv().is_ok());
}

#[test]
fn insert_and_read() {
    let mut s = Store::new(1, 1 << 20);
    s.put("k", "v");
    assert_eq!(s.find("k"), Some(String::from("v")));
    assert_eq!(s.logs.len(), 1);
    assert_eq!(scan_frames(&s.logs[&1]).len(), 1);
    assert_eq!(s.index.size(), 1);
}

#[test]
fn update_keeps_one_key() {
    let mut s = Store::new(1, 1 << 20);
    s.put("k", "v");
    s.put("k", "v2");
    assert_eq!(s.find("k"), Some(String::from("v2")));
    assert_eq!(scan_frames(&s.logs[&1]).len(), 2);
    assert_eq!(s.index.size(), 1);
}

#[test]
fn compaction_skips_stale_records() {
    let mut s = Store::new(1, 0);
    s.put("k", "v1");
    s.put("k", "v2");
    assert_eq!(s.file.id, 2);
    s.reclaim(1);
    assert!(!s.logs.contains_key(&1));
    assert_eq!(s.find("k"), Some(String::from("v2")));
    let in_two = s.records(2);
    assert_eq!(in_two.len(), 1);
    assert_eq!(in_two[0].2.value, "v2");
}

#[test]
fn compaction_carries_live_records_over() {
    let mut s = Store::new(1, 0);
    s.put("a", "va");
    for i in 0..11 {
        s.put(&format!("x{}", i), "filler");
    }
    let ids: Vec<u32> = s.logs.keys().copied().collect();
    assert_eq!(ids.len(), 12);
    let (sealed, reclaim) = split_for_compaction(&ids, 10);
    assert_eq!(sealed.len(), 11);
    assert_eq!(reclaim, vec![1, 2]);
    s.max_file_size = u32::MAX;
    for id in reclaim {
        s.reclaim(id);
    }
    assert!(!s.logs.contains_key(&1));
    assert_eq!(s.find("a"), Some(String::from("va")));
    let current = s.file.id;
    assert!(s.records(current).iter().any(|r| r.2.key == "a" && r.2.value == "va"));
    assert_eq!(s.index.find(&String::from("a")).unwrap().file_id, current);
}

#[test]
fn reclaim_events_end_with_acknowledged_write() {
    let records = vec![
        (0u32, 20u32, DataItem { key: "a".into(), value: "1".into() }),
        (20u32, 30u32, DataItem { key: "b".into(), value: "2".into() }),
    ];
    let (tx, _rx) = tokio::sync::oneshot::channel();
    let events = reclaim_events(4, &records, tx);
    assert_eq!(events.len(), 3);
    assert_eq!(events[0].compare_dp(), Some(DataPosition::new(4, 0, 20)));
    assert_eq!(events[1].compare_dp(), Some(DataPosition::new(4, 20, 30)));
    assert_eq!(events[2].compare_dp(), Some(DataPosition::new(4, 20, 30)));
    assert_eq!(events[2].data_item().key, "b");
    let (tx, _rx) = tokio::sync::oneshot::channel();
    assert!(reclaim_events(4, &vec![], tx).is_empty());
}

#[test]
fn split_keeps_newest_file_out() {
    assert_eq!(split_for_compaction(&vec![], 10), (vec![], vec![]));
    assert_eq!(split_for_compaction(&vec![5], 10), (vec![], vec![]));
    assert_eq!(split_for_compaction(&vec![1, 2, 3], 2), (vec![1, 2], vec![1]));
    assert_eq!(split_for_compaction(&vec![1, 2, 3], 0), (vec![1, 2], vec![1, 2]));
}

#[test]
fn recovery_rebuilds_the_index() {
    let mut s = Store::new(1, 1 << 20);
    s.put("k", "v");
    s.put("k", "v2");
    s.put("other", "o");
    let side_car = s.side_car(1);
    let entries = decode_index_entries(&side_car);
    assert_eq!(entries.len(), 3);
    let index = recover_index(8, &vec![(1, entries, s.logs[&1].clone())]).unwrap();
    let expected = s.index.find(&String::from("k")).unwrap();
    assert_eq!(index.find(&String::from("k")), Some(expected));
    assert_eq!(index.find(&String::from("other")), s.index.find(&String::from("other")));
    assert_eq!(index.size(), 2);
    s.index = index;
    assert_eq!(s.find("k"), Some(String::from("v2")));
}

#[test]
fn recovery_lets_newer_files_win() {
    let mut index = DynamicParallelIndexWrapper::new(8);
    let mut log1 = encode_frame(&vec![1; 6]);
    log1.extend_from_slice(&encode_frame(&vec![2; 11]));
    let log2 = encode_frame(&vec![3; 8]);
    assert!(recover_file_into(&mut index, 1, &vec![(String::from("k"), 0), (String::from("j"), 10)], &log1));
    assert!(recover_file_into(&mut index, 2, &vec![(String::from("k"), 0)], &log2));
    assert_eq!(index.find(&String::from("k")), Some(DataPosition::new(2, 0, 12)));
    assert_eq!(index.find(&String::from("j")), Some(DataPosition::new(1, 10, 15)));
}

#[test]
fn errors_carry_the_common_code() {
    let e = common_err(String::from("boom"));
    assert_eq!(e, CustomError { code: 10000, message: String::from("boom") });
    assert_eq!(CustomError::new(String::from("x")).code, 10000);
}

#[test]
fn config_defaults() {
    let c = Config::new(String::from("/w"));
    assert_eq!(c.max_file_size, 1024 * 1024);
    assert_eq!(c.max_file_num, 10);
    assert_eq!(c.workspace, "/w");
}

#[test]
fn success_view() {
    let v = View::success(5);
    assert_eq!((v.code, v.data), (10000, 5));
}

#[test]
fn whole_side_car_is_told_from_a_damaged_one() {
    let entries = vec![(String::from("a"), 0u32), (String::from("b"), 40u32)];
    let bytes = encode_index_entries(&entries);
    assert_eq!(decode_whole_index_file(&bytes), Some(entries.clone()));
    let mut torn = bytes.clone();
    torn.pop();
    assert_eq!(decode_whole_index_file(&torn), None);
    let mut extra = bytes.clone();
    extra.push(7);
    assert_eq!(decode_whole_index_file(&extra), None);
    assert_eq!(decode_whole_index_file(&vec![]), Some(vec![]));
}

#[test]
fn skipped_acknowledged_write_is_released_after_sync() {
    let index = DynamicParallelIndexWrapper::new(2);
    let file = WriteableFile::new(1);
    let mut batch = WriteBatch::new();
    let (tx, mut rx) = tokio::sync::oneshot::channel();
    let event = WriteEvent::new_callback_event(
        DataItem { key: "k".into(), value: "v".into() },
        Some(DataPosition::new(1, 0, 9)),
        tx,
    );
    assert!(file.prepare(&index, &event, &vec![1]).is_none());
    batch.skip(event);
    assert!(rx.try_recv().is_err());
    let acks = batch.finish(true);
    assert_eq!(acks.len(), 1);
    for ack in acks {
        ack.send(()).unwrap();
    }
    assert!(rx.try_recv().is_ok());
}

#[test]
fn recovery_ignores_a_torn_tail() {
    let mut s = Store::new(1, 1 << 20);
    s.put("k", "v");
    let entries = decode_index_entries(&s.side_car(1));
    let expected = s.index.find(&String::from("k")).unwrap();
    let mut log = s.logs[&1].clone();
    log.extend_from_slice(&[0, 0, 0, 50, 1, 2, 3]);
    let mut index = DynamicParallelIndexWrapper::new(8);
    assert!(recover_file_into(&mut index, 1, &entries, &log));
    assert_eq!(index.find(&String::from("k")), Some(expected));
    let mut with_torn_entry = entries.clone();
    with_torn_entry.push((String::from("t"), expected.length));
    let mut index = DynamicParallelIndexWrapper::new(8);
    assert!(recover_file_into(&mut index, 1, &with_torn_entry, &log));
    assert_eq!(index.find(&String::from("t")), None);
    assert_eq!(index.size(), 1);
    s.logs.insert(1, log);
    s.index = index;
    s.logs.insert(2, Vec::new());
    s.file = WriteableFile::new(2);
    s.reclaim(1);
    assert_eq!(s.find("k"), Some(String::from("v")));
}

#[test]
fn frame_length_is_read_from_the_header() {
    let mut log = encode_frame(&vec![9; 5]);
    assert_eq!(frame_len_at(&log, 0), Some(9));
    log.extend_from_slice(&[0, 0, 0, 4, 1]);
    assert_eq!(frame_len_at(&log, 9), None);
    assert_eq!(frame_len_at(&log, 40), None);
}
