use dorea::codec::{encode_value, decode_value, encode_database, decode_database, Token};
use dorea::database::Database;
use dorea::value::{DataValue, DictBody};

fn round_trips(v: DataValue) {
    let toks = encode_value(&v);
    let back = decode_value(&toks);
    assert_eq!(back, Some(v));
}

#[test]
fn round_trip_number() {
    round_trips(DataValue::Number(0));
    round_trips(DataValue::Number(-12345));
    round_trips(DataValue::Number(i64::MAX));
    round_trips(DataValue::Number(i64::MIN));
}

#[test]
fn round_trip_string() {
    round_trips(DataValue::String(String::new()));
    round_trips(DataValue::String("hello world".to_string()));
    round_trips(DataValue::String(": { } true".to_string()));
}

#[test]
fn round_trip_boolean() {
    round_trips(DataValue::Boolean(true));
    round_trips(DataValue::Boolean(false));
}

#[test]
fn round_trip_dict_nested() {
    round_trips(DataValue::Dict(DictBody::Empty));
    let inner = DictBody::Empty
        .field_set("x", DataValue::Number(1))
        .field_set("y", DataValue::Boolean(false));
    let outer = DictBody::Empty
        .field_set("name", DataValue::String("deep".to_string()))
        .field_set("inner", DataValue::Dict(inner));
    round_trips(DataValue::Dict(outer));
}

#[test]
fn decode_rejects_malformed_streams() {
    // Nothing at all.
    assert_eq!(decode_value(&Vec::new()), None);
    // A bare end marker is no value.
    assert_eq!(decode_value(&vec![Token::DictEnd]), None);
    // A dictionary that never closes.
    assert_eq!(decode_value(&vec![Token::DictStart]), None);
    // Trailing tokens after a complete value.
    assert_eq!(decode_value(&vec![Token::Num(1), Token::Num(2)]), None);
}

#[test]
fn database_round_trip() {
    let mut db = Database::new();
    db.set("alpha", DataValue::Number(10));
    db.set("beta", DataValue::String("two words".to_string()));
    db.set("gamma", DataValue::Dict(DictBody::Empty.field_set("f", DataValue::Boolean(true))));
    let payload = encode_database(&db);
    let back = decode_database(&payload).expect("payload decodes");
    assert_eq!(back.get("alpha"), Some(&DataValue::Number(10)));
    assert_eq!(back.get("beta"), Some(&DataValue::String("two words".to_string())));
    assert_eq!(
        back.get("gamma"),
        Some(&DataValue::Dict(DictBody::Empty.field_set("f", DataValue::Boolean(true))))
    );
    assert_eq!(back.get("delta"), None);
    assert!(!back.dirty);
}

#[test]
fn empty_database_round_trip() {
    let db = Database::new();
    let payload = encode_database(&db);
    assert_eq!(payload, vec![Token::DictEnd]);
    let back = decode_database(&payload).expect("payload decodes");
    assert_eq!(back.data.len(), 0);
}

#[test]
fn manager_persist_payload_round_trips() {
    let mut mgr = dorea::database::DataBaseManager::new("default".to_string());
    mgr.set("g", "k", DataValue::Number(3));
    mgr.set("g", "l", DataValue::Boolean(true));
    let payload = mgr.persist_payload("g").expect("group exists");
    let back = decode_database(&payload).expect("payload decodes");
    assert_eq!(back.get("k"), Some(&DataValue::Number(3)));
    assert_eq!(back.get("l"), Some(&DataValue::Boolean(true)));
    assert!(mgr.persist_payload("absent").is_none());
}

#[test]
fn decode_database_rejects_duplicate_keys() {
    let mut payload = Vec::new();
    payload.push(Token::Txt("k".to_string()));
    payload.push(Token::Num(1));
    payload.push(Token::Txt("k".to_string()));
    payload.push(Token::Num(2));
    payload.push(Token::DictEnd);
    assert!(decode_database(&payload).is_none());
}
