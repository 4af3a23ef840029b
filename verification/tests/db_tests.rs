use gdse::db::{is_item_record_id, Record, Value};

#[test]
fn typed_field_reads() {
    let mut r = Record::new("records/items/gear/a.dbr");
    r.set_field("itemNameTag", Value::Str("tagA".to_string()));
    r.set_field("itemLevel", Value::Int(42));
    r.set_field("other", Value::Other);
    assert_eq!(r.id, "records/items/gear/a.dbr");
    assert_eq!(r.string_field("itemNameTag"), Some("tagA".to_string()));
    assert_eq!(r.string_field("itemLevel"), None);
    assert_eq!(r.string_field("missing"), None);
    assert_eq!(r.int_field("itemLevel"), Some(42));
    assert_eq!(r.int_field("itemNameTag"), None);
    assert_eq!(r.int_field("other"), None);
}

#[test]
fn setting_a_field_again_replaces_it() {
    let mut r = Record::new("x");
    r.set_field("k", Value::Int(1));
    r.set_field("k", Value::Str("v".to_string()));
    assert_eq!(r.fields.len(), 1);
    assert_eq!(r.string_field("k"), Some("v".to_string()));
}

#[test]
fn item_record_ids() {
    assert!(is_item_record_id("records/items/gear/a.dbr"));
    assert!(!is_item_record_id("records/creatures/a.dbr"));
    assert!(!is_item_record_id("records/item"));
}
