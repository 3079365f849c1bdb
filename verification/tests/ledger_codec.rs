use munderdifflin::codec::{decode_item, decode_snapshot, encode_snapshot, int_to_string, parse_i32};
use munderdifflin::items::{category_key, InventoryItem, ItemType};
use munderdifflin::ledger::{all_inventories, record_order, record_shipment, ProtocolError};
use munderdifflin::store::Store;
use munderdifflin::text::normalize;

#[test]
fn normalize_lowercases_and_underscores() {
    assert_eq!(normalize("Printer Ink"), "printer_ink");
    assert_eq!(normalize("PAPER"), "paper");
    assert_eq!(normalize("already_flat"), "already_flat");
    assert_eq!(normalize(""), "");
}

#[test]
fn normalize_is_idempotent_on_samples() {
    for s in ["Printer Ink", "A  B", "MIXED case 123", "nohub", "Ünicode Stays"] {
        let once = normalize(s);
        let twice = normalize(&once);
        assert_eq!(once, twice);
    }
}

#[test]
fn item_type_categories_are_normalized() {
    assert_eq!(ItemType::Paper.category(), "paper");
    assert_eq!(ItemType::Printer.category(), "printer");
    assert_eq!(ItemType::Ink.category(), "ink");
}

#[test]
fn storage_keys_follow_the_layout() {
    let item = InventoryItem::new(String::from("Printer Ink"), 2);
    assert_eq!(item.item_type(), "printer_ink");
    assert_eq!(item.storage_key(), "inventory:printer_ink");
    assert_eq!(category_key("paper"), "inventory:paper");
}

#[test]
fn paper_shipment_then_order_leaves_thirty() {
    let mut store = Store::new();
    let shipped = InventoryItem::new(String::from("Paper"), 50);
    let msg = record_shipment(&mut store, &shipped);
    assert_eq!(msg, "Added 50 paper to inventory");
    let ordered = InventoryItem::new(String::from("paper"), 20);
    let msg = record_order(&mut store, &ordered).expect("order should be covered");
    assert_eq!(msg, "Removed 20 paper from inventory");
    assert_eq!(store.get("inventory:paper"), Some(String::from("30")));
}

#[test]
fn order_without_stock_is_insufficient() {
    let mut store = Store::new();
    let ordered = InventoryItem::new(String::from("Ink"), 5);
    let r = record_order(&mut store, &ordered);
    assert_eq!(r, Err(ProtocolError::InsufficientStock));
    assert_eq!(store.get("inventory:ink"), None);
    assert!(all_inventories(&store).is_empty());
}

#[test]
fn order_magnitude_is_the_absolute_value() {
    let mut store = Store::new();
    record_shipment(&mut store, &InventoryItem::new(String::from("paper"), -7));
    assert_eq!(store.get("inventory:paper"), Some(String::from("7")));
    let msg = record_order(&mut store, &InventoryItem::new(String::from("paper"), -3)).unwrap();
    assert_eq!(msg, "Removed -3 paper from inventory");
    assert_eq!(store.get("inventory:paper"), Some(String::from("4")));
}

#[test]
fn inventory_lists_categories_in_first_shipment_order() {
    let mut store = Store::new();
    record_shipment(&mut store, &InventoryItem::new(String::from("Ink"), 4));
    record_shipment(&mut store, &InventoryItem::new(String::from("Paper"), 9));
    record_shipment(&mut store, &InventoryItem::new(String::from("ink"), 1));
    let items = all_inventories(&store);
    let got: Vec<(String, i32)> = items.iter().map(|i| (i.item_type.clone(), i.quantity)).collect();
    assert_eq!(
        got,
        vec![(String::from("ink"), 5), (String::from("paper"), 9)]
    );
}

#[test]
fn snapshot_round_trips_through_the_wire() {
    let items = vec![
        InventoryItem::new(String::from("paper"), 30),
        InventoryItem::new(String::from("printer_ink"), -2),
        InventoryItem::new(String::from("odd \"name\" with \\slash"), 2147483647),
    ];
    let text = encode_snapshot("unit", &items);
    let back = decode_snapshot("unit", &text).expect("canonical text should decode");
    assert_eq!(back.len(), items.len());
    for (a, b) in back.iter().zip(items.iter()) {
        assert_eq!(a.origin, b.origin);
        assert_eq!(a.item_type, b.item_type);
        assert_eq!(a.quantity, b.quantity);
    }
}

#[test]
fn tagged_snapshot_round_trips() {
    let items = vec![InventoryItem {
        origin: String::from("scranton"),
        item_type: String::from("paper"),
        quantity: -2147483648,
    }];
    let text = encode_snapshot("branch", &items);
    assert_eq!(
        text,
        "[{\"branch\":\"scranton\",\"item_type\":\"paper\",\"quantity\":-2147483648}]"
    );
    let back = decode_snapshot("branch", &text).unwrap();
    assert_eq!(back[0].origin, "scranton");
    assert_eq!(back[0].quantity, -2147483648);
}

#[test]
fn empty_snapshot_is_the_empty_list() {
    let none: Vec<InventoryItem> = vec![];
    let text = encode_snapshot("unit", &none);
    assert_eq!(text, "[]");
    assert_eq!(decode_snapshot("unit", "[]").unwrap().len(), 0);
}

#[test]
fn malformed_snapshots_are_rejected() {
    for bad in [
        "",
        "[",
        "{}",
        "[{}]",
        "[{\"item_type\":\"a\",\"quantity\":1},]",
        "[{\"item_type\":\"a\",\"quantity\":01}]",
        "[{\"item_type\":\"a\",\"quantity\":-0}]",
        "[{\"item_type\":\"a\",\"quantity\":2147483648}]",
        "[{\"item_type\":\"a\",\"quantity\":1}] ",
        "[{\"quantity\":1,\"item_type\":\"a\"}]",
        "not json at all",
    ] {
        assert!(decode_snapshot("unit", bad).is_none(), "accepted: {bad}");
    }
}

#[test]
fn single_records_decode_for_request_bodies() {
    let it = decode_item("", "{\"item_type\":\"Paper\",\"quantity\":50}").unwrap();
    assert_eq!(it.item_type, "Paper");
    assert_eq!(it.quantity, 50);
    assert!(decode_item("", "{\"item_type\":\"Paper\",\"quantity\":50}x").is_none());
    assert!(decode_item("", "[{\"item_type\":\"Paper\",\"quantity\":50}]").is_none());
}

#[test]
fn counter_texts_parse_with_zero_fallback() {
    assert_eq!(parse_i32("30"), 30);
    assert_eq!(parse_i32("-7"), -7);
    assert_eq!(parse_i32("0"), 0);
    assert_eq!(parse_i32(""), 0);
    assert_eq!(parse_i32("07"), 0);
    assert_eq!(parse_i32("x12"), 0);
    assert_eq!(parse_i32("2147483647"), 2147483647);
    assert_eq!(parse_i32("-2147483648"), -2147483648);
    assert_eq!(parse_i32("2147483648"), 0);
    assert_eq!(int_to_string(-45), "-45");
    assert_eq!(int_to_string(0), "0");
}

#[test]
fn wire_text_is_real_json() {
    let items = vec![InventoryItem::new(String::from("Paper"), 50)];
    let text = encode_snapshot("unit", &items);
    let v: serde_json::Value = serde_json::from_str(&text).expect("the wire text must be JSON");
    assert_eq!(v[0]["item_type"], serde_json::Value::String(String::from("Paper")));
    assert_eq!(v[0]["quantity"], serde_json::Value::from(50));
}

#[test]
fn serde_canonical_output_decodes() {
    let mut m = serde_json::Map::new();
    m.insert(
        String::from("item_type"),
        serde_json::Value::String(String::from("Paper")),
    );
    m.insert(String::from("quantity"), serde_json::Value::from(50));
    let v = serde_json::Value::Array(vec![serde_json::Value::Object(m)]);
    let text = serde_json::to_string(&v).unwrap();
    let back = decode_snapshot("unit", &text).expect("serde's compact spelling is canonical");
    assert_eq!(back[0].item_type, "Paper");
    assert_eq!(back[0].quantity, 50);
}

#[test]
fn a_history_sums_shipments_minus_successful_orders() {
    let mut store = Store::new();
    let mut expected: i32 = 0;
    let history: Vec<(bool, i32)> = vec![
        (true, 10),
        (false, 3),
        (false, 100),
        (true, 5),
        (false, 12),
        (false, 1),
        (true, 1),
    ];
    for (is_shipment, q) in history {
        let item = InventoryItem::new(String::from("paper"), q);
        if is_shipment {
            record_shipment(&mut store, &item);
            expected += q;
        } else {
            match record_order(&mut store, &item) {
                Ok(_) => expected -= q,
                Err(e) => assert_eq!(e, ProtocolError::InsufficientStock),
            }
        }
        assert!(expected >= 0);
        assert_eq!(parse_i32(&store.get("inventory:paper").unwrap()), expected);
    }
    assert_eq!(expected, 1);
}
