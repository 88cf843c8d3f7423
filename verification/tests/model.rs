//! Records, schemas and their validation.

use evedb_core::codec::{Decoder, Encoder};
use evedb_core::model::{
    DataType, Entity, Event, EventKind, Field, Fields, Schema, Table, Value,
};
use evedb_core::record::{
    decode_entity, decode_event, decode_table, encode_entity, encode_event, encode_table,
};

#[test]
fn typed_codec_preserves_extreme_values_null_and_omission() {
    let fields: Fields = [
        (1, Value::Bool(true)),
        (2, Value::Int64(i64::MIN)),
        (3, Value::UInt64(u64::MAX)),
        (4, Value::Float64((-1.25f64).to_bits())),
        (5, Value::Text("EveDB \u{1f4be}".into())),
        (6, Value::Bytes(vec![0, 255, 0])),
        (7, Value::Null),
    ]
    .into();
    let entity = Entity {
        id: u64::MAX,
        version: 3,
        schema_version: 2,
        deleted: false,
        fields,
    };
    assert_eq!(decode_entity(&encode_entity(&entity)).unwrap(), entity);
    let event = Event {
        version: 4,
        transaction: 9,
        schema_version: 2,
        kind: EventKind::Apply,
        fields: [(7, Value::Null)].into(),
    };
    let decoded = decode_event(&encode_event(&event)).unwrap();
    assert_eq!(decoded, event);
    assert!(!decoded.fields.contains_key(&1));
    let mut encoded = encode_entity(&entity);
    encoded.pop();
    assert!(decode_entity(&encoded).is_err());
}

#[test]
fn schema_codec_and_validation_reject_incompatible_values() {
    let schema = Schema::new(vec![
        Field { id: 5, name: "name".into(), data_type: DataType::Text, nullable: false },
        Field { id: 9, name: "score".into(), data_type: DataType::Float64, nullable: true },
    ])
    .unwrap();
    let table = Table { id: 1, name: "items".into(), schemas: vec![schema.clone()] };
    let mut e = Encoder::default();
    encode_table(&table, &mut e);
    let mut d = Decoder::new(&e.0);
    assert_eq!(decode_table(&mut d).unwrap(), table);
    d.finish().unwrap();
    let mut fields = [(5, Value::Text("item".into()))].into();
    schema.normalize(&mut fields, true).unwrap();
    assert_eq!(fields[&9], Value::Null);
    for bad in [Value::Null, Value::Int64(3)] {
        assert!(schema.normalize(&mut [(5, bad)].into(), false).is_err());
    }
    assert!(
        schema
            .normalize(&mut [(9, Value::Float64(f64::NAN.to_bits()))].into(), false)
            .is_err()
    );
    assert!(Schema::new(vec![schema.fields[0].clone(), schema.fields[0].clone()]).is_err());
}
