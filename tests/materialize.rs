use bom_fold::data::FlatData;
use bom_fold::error::Error;
use bom_fold::materialize::{entry_quantity, ItemSyncFormat, ONE_BITS};
use bom_fold::ordered_level_key::fold;
use bom_fold::rules::ItemSyncFormatRules;
use bom_fold::value::Value;

fn num(x: f64) -> Value {
    Value::Number(x.to_bits())
}

fn text(s: &str) -> Value {
    Value::text(s)
}

fn row(level: f64, id: &str, name: &str, qty: Value) -> Vec<Value> {
    vec![num(level), text(id), text(name), qty]
}

fn keys() -> Vec<String> {
    ["level", "id", "name", "qty"].iter().map(|k| k.to_string()).collect()
}

fn rules(name: Option<&str>, qty: Option<&str>) -> ItemSyncFormatRules {
    ItemSyncFormatRules {
        id_key: "id".to_string(),
        name_key: name.map(|s| s.to_string()),
        quantity_key: qty.map(|s| s.to_string()),
    }
}

fn assembly() -> FlatData {
    FlatData {
        keys: keys(),
        records: vec![
            row(1.0, "A", "Top", num(1.0)),
            row(2.0, "B", "Sub", num(2.0)),
            row(3.0, "C", "Screw", num(4.0)),
            row(2.0, "D", "Bolt", text("many")),
        ],
    }
}

#[test]
fn part_and_sub_bom_records() {
    let data = assembly();
    let folded = fold(&data, "level").unwrap();
    let out = ItemSyncFormat::format_item_sync(&folded, &rules(Some("name"), Some("qty"))).unwrap();
    assert_eq!(out.boms.len(), 2);
    assert_eq!(out.boms[0].id, text("A"));
    assert_eq!(out.boms[0].name, text("Top"));
    assert_eq!(out.boms[1].id, text("B"));
    assert_eq!(out.boms[1].name, text("Sub"));
    assert_eq!(out.bom_entries.len(), 3);
    let e = &out.bom_entries[0];
    assert_eq!((e.bom_id.clone(), e.entry_type, e.entry_id.clone()), (text("A"), "sub-bom", text("B")));
    assert_eq!(f64::from_bits(e.quantity), 2.0);
    let e = &out.bom_entries[1];
    assert_eq!((e.bom_id.clone(), e.entry_type, e.entry_id.clone()), (text("B"), "part", text("C")));
    assert_eq!(f64::from_bits(e.quantity), 4.0);
    let e = &out.bom_entries[2];
    assert_eq!((e.bom_id.clone(), e.entry_type, e.entry_id.clone()), (text("A"), "part", text("D")));
    assert_eq!(f64::from_bits(e.quantity), 1.0);
}

#[test]
fn quantity_defaults_to_one() {
    let data = assembly();
    let folded = fold(&data, "level").unwrap();
    for r in [rules(None, None), rules(None, Some("missing"))] {
        let out = ItemSyncFormat::format_item_sync(&folded, &r).unwrap();
        assert!(out.bom_entries.iter().all(|e| f64::from_bits(e.quantity) == 1.0));
    }
    assert_eq!(entry_quantity(&vec![text("x")], Some(0)), ONE_BITS);
    assert_eq!(entry_quantity(&vec![text("x")], Some(3)), ONE_BITS);
    assert_eq!(entry_quantity(&vec![num(2.5)], None), ONE_BITS);
    assert_eq!(entry_quantity(&vec![num(2.5)], Some(0)), 2.5f64.to_bits());
    assert_eq!(f64::from_bits(ONE_BITS), 1.0);
}

#[test]
fn name_falls_back_to_id() {
    let data = assembly();
    let folded = fold(&data, "level").unwrap();
    for r in [rules(None, None), rules(Some("missing"), None)] {
        let out = ItemSyncFormat::format_item_sync(&folded, &r).unwrap();
        assert_eq!(out.boms[0].name, text("A"));
        assert_eq!(out.boms[1].name, text("B"));
    }
}

#[test]
fn headers_are_sorted_and_deduplicated() {
    let data = FlatData {
        keys: keys(),
        records: vec![
            row(1.0, "Z", "Root", num(1.0)),
            row(2.0, "X", "Shared", num(1.0)),
            row(3.0, "p", "Part", num(1.0)),
            row(1.0, "M", "Root2", num(1.0)),
            row(2.0, "X", "Shared again", num(1.0)),
            row(3.0, "p", "Part", num(1.0)),
        ],
    };
    let folded = fold(&data, "level").unwrap();
    let out = ItemSyncFormat::format_item_sync(&folded, &rules(Some("name"), None)).unwrap();
    let ids: Vec<Value> = out.boms.iter().map(|b| b.id.clone()).collect();
    assert_eq!(ids, vec![text("M"), text("X"), text("Z")]);
    assert_eq!(out.bom_entries.len(), 4);
}

#[test]
fn materializing_twice_gives_the_same_output() {
    let data = assembly();
    let folded = fold(&data, "level").unwrap();
    let r = rules(Some("name"), Some("qty"));
    let first = ItemSyncFormat::format_item_sync(&folded, &r).unwrap();
    let second = ItemSyncFormat::format_item_sync(&folded, &r).unwrap();
    assert_eq!(format!("{first:?}"), format!("{second:?}"));
}

#[test]
fn missing_id_key_is_invalid_argument() {
    let data = assembly();
    let folded = fold(&data, "level").unwrap();
    let r = ItemSyncFormatRules { id_key: "nope".to_string(), name_key: None, quantity_key: None };
    assert!(matches!(ItemSyncFormat::format_item_sync(&folded, &r), Err(Error::InvalidArgument(_))));
}

#[test]
fn short_row_is_invalid_argument_in_materialize() {
    let data = FlatData {
        keys: keys(),
        records: vec![
            vec![num(1.0), text("A")],
            vec![num(2.0), text("B"), text("b"), num(1.0)],
        ],
    };
    let folded = fold(&data, "level").unwrap();
    let res = ItemSyncFormat::format_item_sync(&folded, &rules(Some("name"), None));
    assert!(matches!(res, Err(Error::InvalidArgument(_))));
    let data = FlatData { keys: keys(), records: vec![vec![num(1.0)], vec![num(2.0)]] };
    let folded = fold(&data, "level").unwrap();
    let res = ItemSyncFormat::format_item_sync(&folded, &rules(None, None));
    assert!(matches!(res, Err(Error::InvalidArgument(_))));
}

#[test]
fn empty_forest_materializes_to_nothing() {
    let data = FlatData { keys: keys(), records: Vec::new() };
    let folded = fold(&data, "level").unwrap();
    let out = ItemSyncFormat::format_item_sync(&folded, &rules(None, None)).unwrap();
    assert!(out.boms.is_empty() && out.bom_entries.is_empty());
}

#[test]
fn numeric_ids_sort_by_value() {
    let data = FlatData {
        keys: keys(),
        records: vec![
            vec![num(1.0), num(10.0), text("ten"), num(1.0)],
            vec![num(2.0), num(1.0), text("leaf"), num(1.0)],
            vec![num(1.0), num(9.0), text("nine"), num(1.0)],
            vec![num(2.0), num(1.0), text("leaf"), num(1.0)],
        ],
    };
    let folded = fold(&data, "level").unwrap();
    let out = ItemSyncFormat::format_item_sync(&folded, &rules(Some("name"), None)).unwrap();
    let ids: Vec<Value> = out.boms.iter().map(|b| b.id.clone()).collect();
    assert_eq!(ids, vec![num(9.0), num(10.0)]);
}
