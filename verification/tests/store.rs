use simple_db::codec::{decode, Record};
use simple_db::error::DbError;
use simple_db::schema::{FieldDesc, Schema};
use simple_db::store::{FileWrite, Store};

fn id_score_schema() -> Schema {
    let fields = vec![
        FieldDesc { name: "id".to_string(), size: 4, offset: 0, indexed: true },
        FieldDesc { name: "score".to_string(), size: 4, offset: 4, indexed: false },
    ];
    Schema::new(fields).expect("layout is contiguous")
}

fn record(id: u8, score: u8) -> Record {
    Record { fields: vec![vec![id, 0, 0, 0], vec![score, 0, 0, 0]] }
}

fn id_value(id: u8) -> Vec<u8> {
    vec![id, 0, 0, 0]
}

/// Replays a write the store asked for onto a plain byte file.
fn apply(file: &mut Vec<u8>, w: &FileWrite) {
    let end = w.offset + w.bytes.len();
    if file.len() < end {
        file.resize(end, 0);
    }
    file[w.offset..end].copy_from_slice(&w.bytes);
}

fn sorted_lookup(store: &Store, name: &str, value: Vec<u8>) -> Vec<usize> {
    let mut rows = store.lookup(&name.to_string(), &value).expect("indexed field");
    rows.sort();
    rows
}

#[test]
fn open_empty_file() {
    let store = Store::open_or_create(id_score_schema(), Vec::new()).expect("empty file is fine");
    assert_eq!(store.mirror.len(), 0);
    assert_eq!(store.file_image.len(), 0);
}

#[test]
fn append_then_mirror_and_file_agree() {
    let schema = id_score_schema();
    let mut store = Store::open_or_create(id_score_schema(), Vec::new()).unwrap();
    let mut file: Vec<u8> = Vec::new();
    let w = store.append(record(7, 42));
    apply(&mut file, &w);
    assert_eq!(w.offset, 0);
    assert_eq!(store.mirror.len(), 1);
    assert_eq!(store.mirror[0].fields, record(7, 42).fields);
    assert_eq!(store.file_image, file);
    let back = decode(&schema, &file[0..8]).expect("record decodes");
    assert_eq!(back.fields, record(7, 42).fields);
}

#[test]
fn scenario_two_records() {
    // One record type: {id: 4 bytes, indexed}, {score: 4 bytes, not indexed}.
    let mut store = Store::open_or_create(id_score_schema(), Vec::new()).unwrap();
    let mut file: Vec<u8> = Vec::new();
    let w = store.append(record(1, 10));
    apply(&mut file, &w);
    let w = store.append(record(2, 20));
    apply(&mut file, &w);

    assert_eq!(sorted_lookup(&store, "id", id_value(1)), vec![0]);
    assert_eq!(sorted_lookup(&store, "id", id_value(2)), vec![1]);

    // Point row 1's id at 1 as well.
    let w = store
        .patch_field(1, &"id".to_string(), id_value(1))
        .expect("row and field exist")
        .expect("value differs, so a write comes back");
    apply(&mut file, &w);
    assert_eq!(w.offset, 8);
    assert_eq!(w.bytes, id_value(1));

    assert_eq!(sorted_lookup(&store, "id", id_value(1)), vec![0, 1]);
    assert_eq!(sorted_lookup(&store, "id", id_value(2)), Vec::<usize>::new());

    // Reopen from the file bytes: same rows, same lookups.
    let reopened = Store::open_or_create(id_score_schema(), file.clone()).unwrap();
    assert_eq!(reopened.mirror.len(), 2);
    assert_eq!(reopened.mirror[0].fields, store.mirror[0].fields);
    assert_eq!(reopened.mirror[1].fields, store.mirror[1].fields);
    assert_eq!(sorted_lookup(&reopened, "id", id_value(1)), vec![0, 1]);
    assert_eq!(sorted_lookup(&reopened, "id", id_value(2)), Vec::<usize>::new());
}

#[test]
fn trailing_bytes_surface_corruption() {
    // A file of two whole records and three stray bytes must be refused,
    // not silently truncated to the first two records.
    let schema = id_score_schema();
    let mut contents = vec![0u8; schema.record_size * 2];
    contents.extend_from_slice(&[9, 9, 9]);
    let result = Store::open_or_create(schema, contents);
    assert_eq!(result.err().unwrap(), DbError::CorruptRecord);
}

#[test]
fn noop_patch_changes_nothing() {
    let mut store = Store::open_or_create(id_score_schema(), Vec::new()).unwrap();
    let w = store.append(record(1, 10));
    let mut file: Vec<u8> = Vec::new();
    apply(&mut file, &w);

    let file_before = store.file_image.clone();
    let mirror_before = store.mirror[0].fields.clone();
    let rows_before = sorted_lookup(&store, "id", id_value(1));

    let outcome = store.patch_field(0, &"id".to_string(), id_value(1)).expect("row and field exist");
    assert!(outcome.is_none(), "patching in the stored value writes nothing");

    assert_eq!(store.file_image, file_before);
    assert_eq!(store.mirror[0].fields, mirror_before);
    assert_eq!(sorted_lookup(&store, "id", id_value(1)), rows_before);
}

#[test]
fn patch_rewrites_only_the_field() {
    let mut store = Store::open_or_create(id_score_schema(), Vec::new()).unwrap();
    let mut file: Vec<u8> = Vec::new();
    let w = store.append(record(3, 10));
    apply(&mut file, &w);
    let w = store.append(record(4, 20));
    apply(&mut file, &w);

    // Patch the score (not indexed) of row 1: offset 8 + 4, four bytes.
    let w = store
        .patch_field(1, &"score".to_string(), vec![99, 0, 0, 0])
        .expect("row and field exist")
        .expect("value differs");
    assert_eq!(w.offset, 12);
    assert_eq!(w.bytes.len(), 4);
    apply(&mut file, &w);
    assert_eq!(store.file_image, file);
    assert_eq!(store.mirror[1].fields[1], vec![99, 0, 0, 0]);
    // The id bytes of both rows are untouched.
    assert_eq!(store.mirror[1].fields[0], id_value(4));
    assert_eq!(&file[0..4], &id_value(3)[..]);
}

#[test]
fn update_whole_record_moves_index() {
    let mut store = Store::open_or_create(id_score_schema(), Vec::new()).unwrap();
    let mut file: Vec<u8> = Vec::new();
    let w = store.append(record(1, 10));
    apply(&mut file, &w);

    let w = store.update_whole_record(0, record(2, 30)).expect("row exists");
    apply(&mut file, &w);
    assert_eq!(w.offset, 0);

    assert_eq!(sorted_lookup(&store, "id", id_value(1)), Vec::<usize>::new());
    assert_eq!(sorted_lookup(&store, "id", id_value(2)), vec![0]);
    assert_eq!(store.mirror[0].fields, record(2, 30).fields);
    assert_eq!(store.file_image, file);
}

#[test]
fn out_of_range_rows_are_refused() {
    let mut store = Store::open_or_create(id_score_schema(), Vec::new()).unwrap();
    let _ = store.append(record(1, 10));
    assert_eq!(
        store.update_whole_record(5, record(2, 20)).err().unwrap(),
        DbError::OutOfRange
    );
    assert_eq!(
        store.patch_field(5, &"id".to_string(), id_value(2)).err().unwrap(),
        DbError::OutOfRange
    );
    // The failed calls left the store as it was.
    assert_eq!(store.mirror.len(), 1);
    assert_eq!(sorted_lookup(&store, "id", id_value(1)), vec![0]);
}

#[test]
fn unknown_fields_are_refused() {
    let mut store = Store::open_or_create(id_score_schema(), Vec::new()).unwrap();
    let _ = store.append(record(1, 10));
    assert_eq!(
        store.patch_field(0, &"rank".to_string(), id_value(2)).err().unwrap(),
        DbError::UnknownField
    );
    assert_eq!(
        store.lookup(&"rank".to_string(), &id_value(1)).err().unwrap(),
        DbError::UnknownField
    );
    // The score field exists but carries no index, so the index cannot
    // answer for it.
    assert_eq!(
        store.lookup(&"score".to_string(), &vec![10, 0, 0, 0]).err().unwrap(),
        DbError::UnknownField
    );
}

#[test]
fn lookup_of_absent_value_is_empty() {
    let mut store = Store::open_or_create(id_score_schema(), Vec::new()).unwrap();
    let _ = store.append(record(1, 10));
    assert_eq!(sorted_lookup(&store, "id", id_value(9)), Vec::<usize>::new());
}

#[test]
fn reopen_after_mixed_operations() {
    let mut store = Store::open_or_create(id_score_schema(), Vec::new()).unwrap();
    let mut file: Vec<u8> = Vec::new();
    let w = store.append(record(1, 10));
    apply(&mut file, &w);
    let w = store.append(record(2, 20));
    apply(&mut file, &w);
    let w = store.append(record(1, 30));
    apply(&mut file, &w);
    let w = store.update_whole_record(1, record(5, 21)).expect("row exists");
    apply(&mut file, &w);
    if let Some(w) = store.patch_field(2, &"id".to_string(), id_value(5)).expect("row exists") {
        apply(&mut file, &w);
    }

    let reopened = Store::open_or_create(id_score_schema(), file).unwrap();
    assert_eq!(reopened.mirror.len(), store.mirror.len());
    for i in 0..store.mirror.len() {
        assert_eq!(reopened.mirror[i].fields, store.mirror[i].fields);
    }
    for id in 0..8u8 {
        assert_eq!(
            sorted_lookup(&reopened, "id", id_value(id)),
            sorted_lookup(&store, "id", id_value(id))
        );
    }
    assert_eq!(sorted_lookup(&reopened, "id", id_value(5)), vec![1, 2]);
    assert_eq!(sorted_lookup(&reopened, "id", id_value(1)), vec![0]);
}
