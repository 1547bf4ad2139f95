use appendable::handler::{DataHandler, JSONLHandler};
use appendable::index_file::{IndexFile, IndexKey, SyncError};
use appendable::protocol::IndexRecord;
use appendable::field_type::FieldType;

fn index_of(data: &str) -> IndexFile {
    let handler = JSONLHandler::new(data.as_bytes().to_vec());
    IndexFile::new(&handler).expect("the data should index")
}

fn field<'a>(file: &'a IndexFile, name: &str) -> &'a appendable::index_file::Index {
    file.indexes()
        .iter()
        .find(|i| i.field_name == name)
        .expect("field should be indexed")
}

#[test]
fn create_index_file() {
    let mut data = String::new();
    data.push_str("{\"name\": \"matteo\", \"id\": 2, \"alpha\": [\"a\", \"b\", \"c\"]}\n");
    data.push_str("{\"name\": \"kevin\", \"id\": 1, \"alpha\": [\"x\", \"y\", \"z\"]}\n");
    let jsonl_handler = JSONLHandler::new(data.into_bytes());
    let index_file = IndexFile::new(&jsonl_handler);

    assert!(index_file.is_ok());

    let index_file = index_file.unwrap();
    assert_eq!(index_file.indexes().len(), 3);
}

#[test]
fn two_records_end_to_end() {
    let file = index_of("{\"name\":\"matteo\",\"id\":2}\n{\"name\":\"kevin\",\"id\":1}\n");
    assert_eq!(file.indexes().len(), 2);
    assert_eq!(file.indexes()[0].field_name, "name");
    assert_eq!(file.indexes()[1].field_name, "id");
    let name = &file.indexes()[0];
    assert!(name.field_type.contains(FieldType::String));
    assert!(!name.field_type.contains(FieldType::Number));
    let id = &file.indexes()[1];
    assert!(id.field_type.contains(FieldType::Number));
    assert!(!id.field_type.contains(FieldType::String));
    assert_eq!(name.index_records.len(), 2);
    assert_eq!(id.index_records.len(), 2);
    assert_eq!(name.index_records[0].1.data_number, 0);
    assert_eq!(name.index_records[1].1.data_number, 1);
    assert_eq!(id.index_records[0].1.data_number, 0);
    assert_eq!(id.index_records[1].1.data_number, 1);
    assert_eq!(file.end_byte_offsets().len(), 2);
    assert_eq!(file.checksums().len(), 2);
    assert_eq!(file.end_byte_offsets(), &vec![25u64, 49u64]);
    assert_eq!(file.tail(), 49);
}

#[test]
fn field_byte_ranges_point_at_values() {
    let file = index_of("{\"name\":\"matteo\",\"id\":2}\n{\"name\":\"kevin\",\"id\":1}\n");
    let name = &file.indexes()[0];
    let id = &file.indexes()[1];
    assert_eq!(
        name.index_records[0],
        (
            IndexKey::String("matteo".to_string()),
            IndexRecord { data_number: 0, field_start_byte_offset: 8, field_length: 8 }
        )
    );
    assert_eq!(
        name.index_records[1],
        (
            IndexKey::String("kevin".to_string()),
            IndexRecord { data_number: 1, field_start_byte_offset: 33, field_length: 7 }
        )
    );
    assert_eq!(
        id.index_records[0],
        (
            IndexKey::Number("2".to_string()),
            IndexRecord { data_number: 0, field_start_byte_offset: 22, field_length: 1 }
        )
    );
    assert_eq!(
        id.index_records[1],
        (
            IndexKey::Number("1".to_string()),
            IndexRecord { data_number: 1, field_start_byte_offset: 46, field_length: 1 }
        )
    );
}

#[test]
fn counts_agree_after_synchronize() {
    let file = index_of("{\"a\":1}\n{\"a\":2}\n{\"b\":true}\n");
    assert_eq!(file.end_byte_offsets().len(), file.checksums().len());
    assert_eq!(file.data_count(), 3);
    assert_eq!(file.end_byte_offsets().len(), 3);
}

#[test]
fn end_offsets_increase_from_first_record_length() {
    let first = "{\"a\": 1}\n";
    let data = format!("{}{}", first, "{\"a\": 22}\n");
    let file = index_of(&data);
    let ends = file.end_byte_offsets();
    assert_eq!(ends[0], first.len() as u64);
    assert!(ends[0] < ends[1]);
    assert_eq!(ends[1], data.len() as u64);
}

#[test]
fn checksums_hash_each_record_with_its_newline() {
    let l0 = "{\"a\":1}\n";
    let l1 = "{\"a\":2}\n";
    let file = index_of(&format!("{}{}", l0, l1));
    assert_eq!(file.checksums()[0], xxhash_rust::xxh3::xxh3_64(l0.as_bytes()));
    assert_eq!(file.checksums()[1], xxhash_rust::xxh3::xxh3_64(l1.as_bytes()));
    assert_ne!(file.checksums()[0], file.checksums()[1]);
}

#[test]
fn resync_on_unchanged_source_changes_nothing() {
    let mut handler = JSONLHandler::new(b"{\"a\":1,\"b\":\"x\"}\n{\"a\":2}\n".to_vec());
    let mut file = IndexFile::new(&handler).unwrap();
    let ends = file.end_byte_offsets().clone();
    let sums = file.checksums().clone();
    let tail = file.tail();
    let counts: Vec<usize> = file.indexes().iter().map(|i| i.index_records.len()).collect();
    assert_eq!(handler.synchronize(&mut file), Ok(()));
    assert_eq!(file.end_byte_offsets(), &ends);
    assert_eq!(file.checksums(), &sums);
    assert_eq!(file.tail(), tail);
    assert_eq!(file.indexes().len(), 2);
    let again: Vec<usize> = file.indexes().iter().map(|i| i.index_records.len()).collect();
    assert_eq!(again, counts);
}

#[test]
fn appending_one_record_adds_one_entry() {
    let mut handler = JSONLHandler::new(b"{\"a\":1,\"b\":\"x\"}\n".to_vec());
    let mut file = IndexFile::new(&handler).unwrap();
    let before_a = field(&file, "a").index_records[0].1;
    let before_b = field(&file, "b").index_records.len();
    handler.append(b"{\"a\":7}\n");
    assert_eq!(handler.synchronize(&mut file), Ok(()));
    assert_eq!(file.end_byte_offsets(), &vec![16u64, 24u64]);
    assert_eq!(file.checksums().len(), 2);
    assert_eq!(file.tail(), 24);
    let a = field(&file, "a");
    assert_eq!(a.index_records.len(), 2);
    assert_eq!(a.index_records[0].1, before_a);
    assert_eq!(a.index_records[0].0, IndexKey::Number("1".to_string()));
    assert_eq!(
        a.index_records[1],
        (
            IndexKey::Number("7".to_string()),
            IndexRecord { data_number: 1, field_start_byte_offset: 21, field_length: 1 }
        )
    );
    assert_eq!(field(&file, "b").index_records.len(), before_b);
}

#[test]
fn string_then_number_widens_flags() {
    let file = index_of("{\"v\":\"one\"}\n{\"v\":1}\n");
    let v = field(&file, "v");
    assert!(v.field_type.contains(FieldType::String));
    assert!(v.field_type.contains(FieldType::Number));
    assert_eq!(v.field_type.typescript_type(), "string | number");
}

#[test]
fn nested_object_is_flattened() {
    let file = index_of("{\"a\": {\"b\": 1}}\n");
    assert_eq!(file.indexes().len(), 1);
    let ab = field(&file, "a.b");
    assert!(ab.field_type.contains(FieldType::Number));
    assert!(file.indexes().iter().all(|i| i.field_name != "a"));
    assert_eq!(ab.index_records[0].1.field_start_byte_offset, 12);
    assert_eq!(ab.index_records[0].1.field_length, 1);
}

#[test]
fn deeply_nested_names_join_with_dots() {
    let file = index_of("{\"x\":{\"y\":{\"z\":null}},\"w\":false}\n");
    assert_eq!(file.indexes()[0].field_name, "x.y.z");
    assert_eq!(file.indexes()[1].field_name, "w");
    assert!(file.indexes()[0].field_type.contains(FieldType::Null));
    assert_eq!(file.indexes()[0].field_type.typescript_type(), "null");
    assert_eq!(file.indexes()[1].index_records[0].0, IndexKey::Boolean(false));
}

#[test]
fn array_is_one_field() {
    let file = index_of("{\"a\": [1,2,3]}\n");
    assert_eq!(file.indexes().len(), 1);
    let a = field(&file, "a");
    assert!(a.field_type.contains(FieldType::Array));
    assert_eq!(
        a.index_records[0].0,
        IndexKey::Array(vec![
            IndexKey::Number("1".to_string()),
            IndexKey::Number("2".to_string()),
            IndexKey::Number("3".to_string()),
        ])
    );
    assert_eq!(a.index_records[0].1.field_start_byte_offset, 6);
    assert_eq!(a.index_records[0].1.field_length, 7);
}

#[test]
fn objects_inside_arrays_become_object_keys() {
    let file = index_of("{\"a\":[{\"k\":\"v\"},[]]}\n");
    let a = field(&file, "a");
    assert_eq!(
        a.index_records[0].0,
        IndexKey::Array(vec![
            IndexKey::Object(vec![("k".to_string(), IndexKey::String("v".to_string()))]),
            IndexKey::Array(vec![]),
        ])
    );
}

#[test]
fn string_escapes_are_decoded() {
    let file = index_of("{\"s\":\"a\\nb\\u0041\"}\n");
    assert_eq!(field(&file, "s").index_records[0].0, IndexKey::String("a\nbA".to_string()));
    assert_eq!(field(&file, "s").index_records[0].1.field_length, 12);
}

#[test]
fn numbers_keep_their_text() {
    let file = index_of("{\"n\":-1.50e+3}\n");
    assert_eq!(field(&file, "n").index_records[0].0, IndexKey::Number("-1.50e+3".to_string()));
}

#[test]
fn truncated_trailing_record_fails_and_keeps_prior_state() {
    let mut handler = JSONLHandler::new(b"{\"a\":1}\n".to_vec());
    let mut file = IndexFile::new(&handler).unwrap();
    handler.append(b"{\"a\":2}\n{\"a\":");
    let r = handler.synchronize(&mut file);
    assert_eq!(r, Err(SyncError::Parse { data_number: 2, offset: 16 }));
    assert_eq!(file.end_byte_offsets(), &vec![8u64, 16u64]);
    assert_eq!(file.checksums().len(), 2);
    assert_eq!(file.tail(), 16);
    assert_eq!(field(&file, "a").index_records.len(), 2);
}

#[test]
fn truncated_source_from_the_start_fails_to_build() {
    let handler = JSONLHandler::new(b"{\"a\":1".to_vec());
    assert!(matches!(IndexFile::new(&handler), Err(SyncError::Parse { data_number: 0, offset: 0 })));
}

#[test]
fn malformed_record_is_a_parse_error() {
    let mut handler = JSONLHandler::new(b"{\"a\":1}\n".to_vec());
    let mut file = IndexFile::new(&handler).unwrap();
    handler.append(b"{\"a\":}\n");
    assert_eq!(
        handler.synchronize(&mut file),
        Err(SyncError::Parse { data_number: 1, offset: 13 })
    );
    assert_eq!(file.tail(), 8);
    assert_eq!(field(&file, "a").index_records.len(), 1);
}

#[test]
fn top_level_array_is_an_invalid_shape() {
    let handler = JSONLHandler::new(b"[1,2]\n".to_vec());
    assert!(matches!(
        IndexFile::new(&handler),
        Err(SyncError::InvalidRecordShape { data_number: 0, offset: 0 })
    ));
}

#[test]
fn shorter_source_than_tail_is_an_io_error() {
    let long = JSONLHandler::new(b"{\"a\":1}\n{\"a\":2}\n".to_vec());
    let mut file = IndexFile::new(&long).unwrap();
    let mut short = JSONLHandler::new(b"{\"a\":1}\n".to_vec());
    assert_eq!(short.synchronize(&mut file), Err(SyncError::Io { offset: 16 }));
    assert_eq!(file.tail(), 16);
}

#[test]
fn empty_source_indexes_nothing() {
    let file = index_of("");
    assert_eq!(file.indexes().len(), 0);
    assert_eq!(file.data_count(), 0);
    assert_eq!(file.tail(), 0);
    assert_eq!(file.version(), 1);
}

#[test]
fn new_reports_the_failing_record() {
    let handler = JSONLHandler::new(b"{\"a\":1}\n{\"a\":\n".to_vec());
    assert_eq!(
        IndexFile::new(&handler).err(),
        Some(SyncError::Parse { data_number: 1, offset: 14 })
    );
}
