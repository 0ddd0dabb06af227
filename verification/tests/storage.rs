use rat_storage::codec::{decode_pairs_from, decode_value_from, encode_value_into, insert_vec_length};
use rat_storage::collection::{handle_file_name, Collection, MAXIMUM_HANDLE_SIZE};
use rat_storage::doc::{compare_value, eq_value, Document, DocumentState, DocumentValue};
use rat_storage::handles::Handle;
use rat_storage::index::{key_compare, IndexError, SingleIndexManager};
use rat_storage::reader::{vec_to_u32_ne, Deserializable, FrameError, Reader};
use rat_storage::schedule::{IntervalManager, IntervalMessage, SlowInterval};
use rat_storage::database::DatabaseMetadata;
use std::cmp::Ordering;

fn sample_document(id: u64) -> Document {
    let fields = vec![
        (String::from("kind"), DocumentValue::String(String::from("sensor"))),
        (String::from("count"), DocumentValue::Integer(-7)),
        (String::from("ratio"), DocumentValue::Float(1.5f64.to_bits())),
        (
            String::from("tags"),
            DocumentValue::Array(vec![
                DocumentValue::Integer(1),
                DocumentValue::String(String::from("a")),
            ]),
        ),
    ];
    Document::new(id, fields)
}

fn docs_equal(a: &Document, b: &Document) -> bool {
    a == b
}

#[test]
fn vec_to_u32_ne_reads_little_endian() {
    assert_eq!(vec_to_u32_ne(&[1, 0, 0, 0]), 1);
    assert_eq!(vec_to_u32_ne(&[0x78, 0x56, 0x34, 0x12]), 0x12345678);
}

#[test]
fn insert_vec_length_prefixes_length() {
    let mut v = vec![9u8, 8, 7];
    insert_vec_length(&mut v);
    assert_eq!(v, vec![3u8, 0, 0, 0, 9, 8, 7]);
}

#[test]
fn serialize_round_trips_through_deserialize() {
    let doc = sample_document(42);
    let frame = doc.serialize();
    // [4-byte length][payload][delimiter]
    let payload_len = vec_to_u32_ne(&frame[0..4]) as usize;
    assert_eq!(frame.len(), payload_len + 5);
    assert_eq!(*frame.last().unwrap(), 0u8);
    let payload = &frame[4..4 + payload_len];
    let back = <Document as Deserializable>::deserialize(payload).unwrap();
    assert!(docs_equal(&doc, &back));
    assert_eq!(back.id, 42);
    assert!(matches!(back.state, DocumentState::Exists));
}

#[test]
fn deserialize_rejects_corrupt_payload() {
    let doc = sample_document(1);
    let frame = doc.serialize();
    let payload_len = vec_to_u32_ne(&frame[0..4]) as usize;
    let mut payload = frame[4..4 + payload_len].to_vec();
    payload[0] = 9; // no such state marker
    assert!(<Document as Deserializable>::deserialize(&payload).is_none());
    // truncated payload is rejected too
    assert!(<Document as Deserializable>::deserialize(&payload[..payload.len() - 1]).is_none());
}

#[test]
fn value_codec_round_trips() {
    let v = DocumentValue::Object(vec![
        (String::from("s"), DocumentValue::String(String::from("héllo"))),
        (String::from("n"), DocumentValue::Integer(i32::MIN)),
        (String::from("f"), DocumentValue::Float((-0.0f64).to_bits())),
        (String::from("a"), DocumentValue::Array(vec![])),
    ]);
    let mut bytes = Vec::new();
    encode_value_into(&v, &mut bytes);
    let (back, used) = decode_value_from(&bytes, 0).unwrap();
    assert_eq!(used, bytes.len());
    assert_eq!(key_compare(&v, &back), Ordering::Equal);
}

#[test]
fn reader_decodes_whole_stream() {
    let d1 = sample_document(1);
    let d2 = sample_document(2);
    let mut stream = d1.serialize();
    stream.extend_from_slice(&d2.serialize());
    let mut reader: Reader<Document> = Reader::new();
    let docs = reader.read_bytes_and_collect(&stream).unwrap();
    assert_eq!(docs.len(), 2);
    assert!(docs_equal(&docs[0], &d1));
    assert!(docs_equal(&docs[1], &d2));
}

#[test]
fn reader_is_chunking_independent() {
    let d1 = sample_document(7);
    let d2 = sample_document(8);
    let mut stream = d1.serialize();
    stream.extend_from_slice(&d2.serialize());
    for chunk in [1usize, 2, 3, 5, 7, stream.len()] {
        let mut reader: Reader<Document> = Reader::new();
        let mut collected = Vec::new();
        for part in stream.chunks(chunk) {
            collected.extend(reader.read_bytes_and_collect(part).unwrap());
        }
        assert_eq!(collected.len(), 2);
        assert!(docs_equal(&collected[0], &d1));
        assert!(docs_equal(&collected[1], &d2));
    }
}

#[test]
fn reader_rejects_bad_delimiter() {
    let d1 = sample_document(1);
    let mut stream = d1.serialize();
    let last = stream.len() - 1;
    stream[last] = 0x55;
    let mut reader: Reader<Document> = Reader::new();
    assert!(matches!(reader.read_bytes_and_collect(&stream), Err(FrameError::FramingError)));
}

#[test]
fn reader_reports_corrupt_payload() {
    let d1 = sample_document(1);
    let mut stream = d1.serialize();
    stream[4] = 9; // break the state marker inside the payload
    let mut reader: Reader<Document> = Reader::new();
    assert!(matches!(reader.read_bytes_and_collect(&stream), Err(FrameError::CorruptPayload)));
}

#[test]
fn value_equality_and_ordering_laws() {
    let i = DocumentValue::Integer(5);
    let f = DocumentValue::Float(5.0f64.to_bits());
    let s = DocumentValue::String(String::from("abc"));
    let a = DocumentValue::Array(vec![DocumentValue::Integer(1)]);
    // reflexive
    assert!(eq_value(&i, &i));
    assert!(eq_value(&f, &f));
    assert!(eq_value(&s, &s));
    assert!(eq_value(&a, &a));
    assert_eq!(compare_value(&i, &i), Some(Ordering::Equal));
    // symmetric
    let j = DocumentValue::Integer(9);
    assert_eq!(eq_value(&i, &j), eq_value(&j, &i));
    assert_eq!(compare_value(&i, &j), Some(Ordering::Less));
    assert_eq!(compare_value(&j, &i), Some(Ordering::Greater));
    // an object equals nothing, not even itself (its entries are unordered)
    let o = DocumentValue::Object(vec![(String::from("x"), DocumentValue::Integer(3))]);
    assert!(!eq_value(&o, &o));
    assert_eq!(compare_value(&o, &o), None);
    // cross-variant: not equal, not ordered, no panic
    assert!(!eq_value(&i, &f));
    assert!(!eq_value(&s, &a));
    assert_eq!(compare_value(&i, &f), None);
    assert_eq!(compare_value(&s, &a), None);
}

#[test]
fn float_semantics_on_bit_patterns() {
    let nan = DocumentValue::Float(f64::NAN.to_bits());
    let zero = DocumentValue::Float(0.0f64.to_bits());
    let neg_zero = DocumentValue::Float((-0.0f64).to_bits());
    let one = DocumentValue::Float(1.0f64.to_bits());
    let neg = DocumentValue::Float((-2.5f64).to_bits());
    assert!(!eq_value(&nan, &nan));
    assert_eq!(compare_value(&nan, &one), None);
    assert!(eq_value(&zero, &neg_zero));
    assert_eq!(compare_value(&neg_zero, &zero), Some(Ordering::Equal));
    assert_eq!(compare_value(&neg, &one), Some(Ordering::Less));
    assert_eq!(compare_value(&one, &neg), Some(Ordering::Greater));
}

#[test]
fn string_ordering_is_lexicographic() {
    let a = DocumentValue::String(String::from("abc"));
    let b = DocumentValue::String(String::from("abd"));
    let c = DocumentValue::String(String::from("ab"));
    assert_eq!(compare_value(&a, &b), Some(Ordering::Less));
    assert_eq!(compare_value(&c, &a), Some(Ordering::Less));
    let x = DocumentValue::Array(vec![DocumentValue::Integer(1), DocumentValue::Integer(2)]);
    let y = DocumentValue::Array(vec![DocumentValue::Integer(1), DocumentValue::Integer(3)]);
    assert_eq!(compare_value(&x, &y), Some(Ordering::Less));
}

#[test]
fn handle_bookkeeping_tracks_in_flight_range() {
    let mut h = Handle::new(String::from("collection-users-1.bin"), 1, 0);
    assert_eq!(h.get_id(), 1);
    assert_eq!(h.get_path().as_str(), "collection-users-1.bin");
    assert_eq!(h.file_size(), 0);
    assert!(!h.is_busy());
    let loc = h.begin_write(40);
    assert_eq!((loc.0, loc.1), (0, 40));
    assert!(h.is_busy());
    assert_eq!(h.file_size(), 40);
    h.commit_write();
    assert!(!h.is_busy());
    let loc2 = h.write(10);
    assert_eq!((loc2.0, loc2.1), (40, 50));
    assert_eq!(h.file_size(), 50);
}

#[test]
fn handle_read_returns_documents_in_append_order() {
    let d1 = sample_document(1);
    let d2 = sample_document(2);
    let d3 = sample_document(3);
    let mut contents = d1.serialize();
    contents.extend_from_slice(&d2.serialize());
    contents.extend_from_slice(&d3.serialize());
    let mut h = Handle::new(String::from("collection-users-1.bin"), 1, 0);
    h.write(contents.len());
    let docs = h.read(&contents).unwrap();
    assert_eq!(docs.len(), 3);
    assert!(docs_equal(&docs[0], &d1));
    assert!(docs_equal(&docs[1], &d2));
    assert!(docs_equal(&docs[2], &d3));
}

#[test]
fn handle_read_masks_in_flight_range() {
    // One committed frame, then an in-flight write past it: the reader
    // must only observe the committed frame.
    let d1 = sample_document(1);
    let frame1 = d1.serialize();
    let committed = frame1.len();
    let mut h = Handle::new(String::from("collection-users-1.bin"), 1, committed);
    let loc = h.begin_write(50);
    assert_eq!((loc.0, loc.1), (committed, committed + 50));
    // the file already holds 30 bytes of the uncommitted write
    let mut contents = frame1.clone();
    contents.extend_from_slice(&[0xABu8; 30]);
    let docs = h.read(&contents).unwrap();
    assert_eq!(docs.len(), 1);
    assert!(docs_equal(&docs[0], &d1));
    // a whole second frame inside the in-flight range is excluded as well
    let d2 = sample_document(2);
    let mut h2 = Handle::new(String::from("collection-users-1.bin"), 1, committed);
    let frame2 = d2.serialize();
    let _ = h2.begin_write(frame2.len());
    let mut contents2 = frame1.clone();
    contents2.extend_from_slice(&frame2);
    let docs2 = h2.read(&contents2).unwrap();
    assert_eq!(docs2.len(), 1);
    assert!(docs_equal(&docs2[0], &d1));
    // once committed, both frames decode
    h2.commit_write();
    let docs3 = h2.read(&contents2).unwrap();
    assert_eq!(docs3.len(), 2);
}

#[test]
fn scan_creates_handles_one_and_two() {
    let mut c = Collection::new(String::from("users"), String::from("./data"), Vec::new());
    let created = c.scan_handles(&Vec::new());
    assert_eq!(created.len(), 2);
    assert_eq!(created[0].as_str(), "collection-users-1.bin");
    assert_eq!(created[1].as_str(), "collection-users-2.bin");
    assert_eq!(c.handles.len(), 2);
    assert_eq!(c.handles[0].get_id(), 1);
    assert_eq!(c.handles[1].get_id(), 2);
    assert_eq!(c.handles[0].file_size(), 0);
    assert_eq!(c.last_id, 2);
    // both fresh handles are free: a second scan creates nothing
    let sizes = vec![0usize, 0];
    let again = c.scan_handles(&sizes);
    assert_eq!(again.len(), 0);
    assert_eq!(c.handles.len(), 2);
}

#[test]
fn scan_restores_free_handle_minimum() {
    let full = MAXIMUM_HANDLE_SIZE;
    let handles = vec![
        Handle::new(handle_file_name("users", 1), 1, full),
        Handle::new(handle_file_name("users", 2), 2, full),
        Handle::new(handle_file_name("users", 5), 5, 10),
    ];
    let mut c = Collection::new(String::from("users"), String::from("./data"), handles);
    // handle 5 is free, handles 1 and 2 are full: one more handle is needed
    let sizes = vec![full, full, 10usize];
    let created = c.scan_handles(&sizes);
    assert_eq!(created.len(), 1);
    assert_eq!(created[0].as_str(), "collection-users-6.bin");
    assert_eq!(c.handles.len(), 4);
    assert_eq!(c.handles[3].get_id(), 6);
    assert_eq!(c.last_id, 6);
}

#[test]
fn write_routes_to_first_free_handle() {
    let mut c = Collection::new(String::from("users"), String::from("./data"), Vec::new());
    c.scan_handles(&Vec::new());
    let doc = sample_document(1);
    let frame = doc.serialize();
    let payload_len = vec_to_u32_ne(&frame[0..4]) as usize;
    let (idx, loc) = c.write(frame.len());
    assert_eq!(idx, 0);
    assert_eq!(c.handles[0].get_id(), 1);
    assert_eq!((loc.0, loc.1), (0, frame.len()));
    // framing overhead is exactly 5 bytes beyond the serialized payload
    assert_eq!(c.handles[0].file_size(), payload_len + 5);
    // a full first handle routes the write to the second
    let full = MAXIMUM_HANDLE_SIZE;
    let handles = vec![
        Handle::new(handle_file_name("users", 1), 1, full),
        Handle::new(handle_file_name("users", 2), 2, 0),
    ];
    let mut c2 = Collection::new(String::from("users"), String::from("./data"), handles);
    let (idx2, _) = c2.write(10);
    assert_eq!(idx2, 1);
    // with no free handle at all, the first one takes the write anyway
    let handles3 = vec![Handle::new(handle_file_name("users", 1), 1, full)];
    let mut c3 = Collection::new(String::from("users"), String::from("./data"), handles3);
    let (idx3, loc3) = c3.write(10);
    assert_eq!(idx3, 0);
    assert_eq!(loc3.0, full);
}

#[test]
fn index_create_new_validates_inputs() {
    let header =
        SingleIndexManager::create_new(false, String::from("users"), String::from("id"), 1)
            .unwrap();
    assert_eq!(header.len(), 1024);
    // a second creation on the same path is refused
    assert_eq!(
        SingleIndexManager::create_new(true, String::from("users"), String::from("id"), 1),
        Err(IndexError::PathExists)
    );
    // only 1 and -1 are recognized directions
    for bad in [0i8, 2, -2, 100] {
        assert_eq!(
            SingleIndexManager::create_new(false, String::from("users"), String::from("id"), bad),
            Err(IndexError::Sorting)
        );
    }
    // metadata longer than the reserved header is refused
    let long = "x".repeat(2000);
    assert_eq!(
        SingleIndexManager::create_new(false, long, String::from("id"), -1),
        Err(IndexError::MetaTooBig)
    );
}

#[test]
fn index_open_reads_back_metadata() {
    let header =
        SingleIndexManager::create_new(false, String::from("users"), String::from("age"), -1)
            .unwrap();
    let mgr = SingleIndexManager::new(String::from("users-age.idx"), &header).unwrap();
    assert_eq!(mgr.metadata.collection_name.as_str(), "users");
    assert_eq!(mgr.metadata.field.as_str(), "age");
    assert_eq!(mgr.metadata.sorting, -1);
    assert_eq!(mgr.data.len(), 0);
    // a truncated header does not open
    assert!(SingleIndexManager::new(String::from("x"), &header[..100]).is_err());
}

#[test]
fn index_map_is_ordered_ascending() {
    let header = SingleIndexManager::create_new(false, String::from("users"), String::from("id"), 1)
        .unwrap();
    let mut mgr = SingleIndexManager::new(String::from("users-id.idx"), &header).unwrap();
    mgr.add_index(1, DocumentValue::Integer(50));
    mgr.add_index(2, DocumentValue::Integer(10));
    assert_eq!(mgr.data.len(), 2);
    assert!(eq_value(&mgr.data[0].0, &DocumentValue::Integer(10)));
    assert_eq!(mgr.data[0].1, 2);
    assert!(eq_value(&mgr.data[1].0, &DocumentValue::Integer(50)));
    assert_eq!(mgr.data[1].1, 1);
}

#[test]
fn index_last_write_wins_per_value() {
    let header = SingleIndexManager::create_new(false, String::from("users"), String::from("id"), 1)
        .unwrap();
    let mut mgr = SingleIndexManager::new(String::from("users-id.idx"), &header).unwrap();
    mgr.add_index(1, DocumentValue::Integer(10));
    mgr.add_index(9, DocumentValue::Integer(10));
    assert_eq!(mgr.data.len(), 1);
    assert_eq!(mgr.data[0].1, 9);
}

#[test]
fn index_reload_rebuilds_identical_map() {
    let header = SingleIndexManager::create_new(false, String::from("users"), String::from("id"), 1)
        .unwrap();
    let mut mgr = SingleIndexManager::new(String::from("users-id.idx"), &header).unwrap();
    let mut file_image = header.clone();
    file_image.extend_from_slice(&mgr.add_index(1, DocumentValue::Integer(50)));
    file_image.extend_from_slice(&mgr.add_index(2, DocumentValue::Integer(10)));
    file_image.extend_from_slice(&mgr.add_index(3, DocumentValue::String(String::from("zed"))));
    file_image.extend_from_slice(&mgr.add_index(4, DocumentValue::Integer(10)));
    let reloaded = SingleIndexManager::new(String::from("users-id.idx"), &file_image).unwrap();
    assert_eq!(reloaded.data.len(), mgr.data.len());
    for i in 0..mgr.data.len() {
        assert!(eq_value(&reloaded.data[i].0, &mgr.data[i].0));
        assert_eq!(reloaded.data[i].1, mgr.data[i].1);
    }
    assert_eq!(reloaded.data[0].1, 4); // id 10 was overwritten last by id 4
}

#[test]
fn decode_pairs_matches_encoded_fields() {
    let doc = sample_document(3);
    let frame = doc.serialize();
    let payload_len = vec_to_u32_ne(&frame[0..4]) as usize;
    let payload = &frame[4..4 + payload_len];
    // fields start after state byte, id, and field count
    let n = vec_to_u32_ne(&payload[9..13]) as usize;
    let (fields, used) = decode_pairs_from(payload, 13, n).unwrap();
    assert_eq!(13 + used, payload.len());
    assert_eq!(fields.len(), doc.fields.len());
    assert_eq!(fields[0].0.as_str(), "kind");
    assert!(eq_value(&fields[1].1, &DocumentValue::Integer(-7)));
}

#[test]
fn scheduler_orders_tasks_and_adapts_sleep() {
    let mut m = IntervalManager::init();
    assert_eq!(m.sleep_time, 10);
    let id1 = m.fresh_id();
    let id2 = m.fresh_id();
    assert_ne!(id1, id2);
    m.handle_message(IntervalMessage::Schedule(SlowInterval::new(100, id1)), 0);
    assert_eq!(m.sleep_time, 100);
    m.handle_message(IntervalMessage::Schedule(SlowInterval::new(50, id2)), 0);
    assert_eq!(m.sleep_time, 50);
    assert_eq!(m.slow_intervals[0].id, id2);
    assert_eq!(m.slow_intervals[1].id, id1);
    // nothing is due before an interval has elapsed
    assert_eq!(m.run_due(40), Vec::<usize>::new());
    // at 60 ms only the 50 ms task is due, and its clock resets
    assert_eq!(m.run_due(60), vec![id2]);
    assert_eq!(m.slow_intervals[0].start, 60);
    assert_eq!(m.slow_intervals[1].start, 0);
    // at 110 ms both are due again
    assert_eq!(m.run_due(110), vec![id2, id1]);
    // cancellation removes by id and never by accident
    m.handle_message(IntervalMessage::End(id1), 110);
    assert_eq!(m.slow_intervals.len(), 1);
    assert_eq!(m.slow_intervals[0].id, id2);
}

#[test]
fn database_metadata_keeps_names_unique() {
    let mut meta = DatabaseMetadata::new(String::from("cool"));
    assert!(meta.add_collection(String::from("users")));
    assert!(meta.add_collection(String::from("orders")));
    assert!(!meta.add_collection(String::from("users")));
    assert_eq!(meta.collections.len(), 2);
    assert_eq!(meta.name.as_str(), "cool");
}

#[test]
fn handle_file_names_are_deterministic() {
    assert_eq!(handle_file_name("users", 1).as_str(), "collection-users-1.bin");
    assert_eq!(handle_file_name("users", 230).as_str(), "collection-users-230.bin");
    assert_eq!(handle_file_name("a-b", 1005).as_str(), "collection-a-b-1005.bin");
}
