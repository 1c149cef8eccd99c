use simple_db::codec::{decode, encode, Record};
use simple_db::error::DbError;
use simple_db::schema::{FieldDesc, Schema};

fn two_field_schema() -> Schema {
    let fields = vec![
        FieldDesc { name: "id".to_string(), size: 4, offset: 0, indexed: true },
        FieldDesc { name: "score".to_string(), size: 4, offset: 4, indexed: false },
    ];
    Schema::new(fields).expect("layout is contiguous")
}

#[test]
fn round_trip_record() {
    let schema = two_field_schema();
    let rec = Record { fields: vec![vec![1, 0, 0, 0], vec![10, 0, 0, 0]] };
    let bytes = encode(&schema, &rec);
    assert_eq!(bytes.len(), 8);
    let back = decode(&schema, bytes.as_slice()).expect("full record decodes");
    assert_eq!(back.fields, rec.fields);
}

#[test]
fn encode_lays_fields_out_in_order() {
    let schema = two_field_schema();
    let rec = Record { fields: vec![vec![0xAA, 0xBB, 0xCC, 0xDD], vec![1, 2, 3, 4]] };
    let bytes = encode(&schema, &rec);
    assert_eq!(bytes, vec![0xAA, 0xBB, 0xCC, 0xDD, 1, 2, 3, 4]);
}

#[test]
fn decode_rejects_partial_record() {
    let schema = two_field_schema();
    let short = vec![1, 2, 3];
    assert_eq!(decode(&schema, short.as_slice()).unwrap_err(), DbError::CorruptRecord);
    let long = vec![0; 9];
    assert_eq!(decode(&schema, long.as_slice()).unwrap_err(), DbError::CorruptRecord);
}

#[test]
fn schema_rejects_bad_layouts() {
    // a gap between the fields
    let gap = vec![
        FieldDesc { name: "a".to_string(), size: 4, offset: 0, indexed: false },
        FieldDesc { name: "b".to_string(), size: 4, offset: 5, indexed: false },
    ];
    assert!(Schema::new(gap).is_none());
    // first field not at offset zero
    let shifted = vec![FieldDesc { name: "a".to_string(), size: 4, offset: 1, indexed: false }];
    assert!(Schema::new(shifted).is_none());
    // no fields at all
    assert!(Schema::new(Vec::new()).is_none());
    // a record of zero bytes
    let empty = vec![FieldDesc { name: "a".to_string(), size: 0, offset: 0, indexed: false }];
    assert!(Schema::new(empty).is_none());
}

#[test]
fn schema_accepts_contiguous_layout() {
    let schema = two_field_schema();
    assert_eq!(schema.record_size, 8);
    assert_eq!(schema.fields.len(), 2);
}
