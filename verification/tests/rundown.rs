use munderdifflin::aggregator::{
    agg_handle_request, agg_respond_rundown, aggregate_response, composite_view,
    corporate_aggregator, extract_child, hub_aggregator, request_rundown,
};
use munderdifflin::items::InventoryItem;
use munderdifflin::ledger::{record_shipment, ProtocolError};
use munderdifflin::node::{
    branch_leaf, leaf_handle_message, leaf_handle_request, respond_rundown, trim_slashes,
    unit_leaf,
};
use munderdifflin::store::Store;

#[test]
fn leaf_http_shipment_then_order_via_routes() {
    let mut store = Store::new();
    let cfg = unit_leaf();
    let r = leaf_handle_request(
        &mut store,
        &cfg,
        "POST",
        "/shipment",
        "{\"item_type\":\"Paper\",\"quantity\":50}",
    );
    assert_eq!(r.status, 200);
    assert_eq!(r.body, "Added 50 paper to inventory");
    let r = leaf_handle_request(
        &mut store,
        &cfg,
        "POST",
        "/order",
        "{\"item_type\":\"paper\",\"quantity\":20}",
    );
    assert_eq!(r.status, 200);
    let r = leaf_handle_request(&mut store, &cfg, "GET", "/inventory", "");
    assert_eq!(r.status, 200);
    assert_eq!(r.body, "[{\"item_type\":\"paper\",\"quantity\":30}]");
}

#[test]
fn leaf_http_insufficient_order_is_refused() {
    let mut store = Store::new();
    let cfg = unit_leaf();
    let r = leaf_handle_request(
        &mut store,
        &cfg,
        "POST",
        "/order",
        "{\"item_type\":\"Ink\",\"quantity\":5}",
    );
    assert_eq!(r.status, 400);
    assert_eq!(r.body, "Not enough ink in inventory");
    let r = leaf_handle_request(&mut store, &cfg, "GET", "/inventory", "");
    assert_eq!(r.body, "[]");
}

#[test]
fn leaf_http_malformed_body_is_refused() {
    let mut store = Store::new();
    let cfg = unit_leaf();
    let r = leaf_handle_request(&mut store, &cfg, "POST", "/shipment", "{\"quantity\":5}");
    assert_eq!(r.status, 400);
    assert_eq!(r.body, "Invalid inventory payload");
}

#[test]
fn leaf_http_overflowing_shipment_is_refused() {
    let mut store = Store::new();
    let cfg = unit_leaf();
    let r = leaf_handle_request(
        &mut store,
        &cfg,
        "POST",
        "/shipment",
        "{\"item_type\":\"paper\",\"quantity\":2147483647}",
    );
    assert_eq!(r.status, 200);
    let r = leaf_handle_request(
        &mut store,
        &cfg,
        "POST",
        "/shipment",
        "{\"item_type\":\"paper\",\"quantity\":1}",
    );
    assert_eq!(r.status, 400);
    assert_eq!(r.body, "Inventory counter overflow");
}

#[test]
fn leaf_naming_round_trip() {
    let mut store = Store::new();
    let cfg = unit_leaf();
    let r = leaf_handle_request(&mut store, &cfg, "GET", "/name", "");
    assert_eq!(r.status, 200);
    assert_eq!(r.body, "");
    let r = leaf_handle_request(&mut store, &cfg, "POST", "/name", "stamford");
    assert_eq!(r.status, 200);
    assert_eq!(r.body, "Set unit name to stamford");
    let r = leaf_handle_request(&mut store, &cfg, "GET", "/name", "");
    assert_eq!(r.body, "stamford");
    let r = leaf_handle_request(&mut store, &cfg, "PUT", "/name", "x");
    assert_eq!(r.status, 400);
    assert_eq!(r.body, "Invalid method");
}

#[test]
fn branch_leaf_routes_only_the_ledger() {
    let mut store = Store::new();
    let cfg = branch_leaf();
    let r = leaf_handle_request(&mut store, &cfg, "GET", "/inventory", "");
    assert_eq!(r.status, 404);
    let r = leaf_handle_request(
        &mut store,
        &cfg,
        "POST",
        "/shipment",
        "{\"item_type\":\"paper\",\"quantity\":3}",
    );
    assert_eq!(r.status, 200);
}

#[test]
fn unnamed_leaf_answers_with_the_sentinel() {
    let mut store = Store::new();
    let cfg = unit_leaf();
    record_shipment(&mut store, &InventoryItem::new(String::from("Paper"), 12));
    let out = leaf_handle_message(&store, &cfg, "unit.rundown").expect("rundown must answer");
    assert_eq!(out.subject, "hub.rundown.nohub");
    assert_eq!(out.body, "[{\"item_type\":\"paper\",\"quantity\":12}]");
    assert!(leaf_handle_message(&store, &cfg, "unit.somethingelse").is_none());
}

#[test]
fn named_branch_answers_upward_to_corporate() {
    let mut store = Store::new();
    let cfg = branch_leaf();
    let out = respond_rundown(&store, &cfg);
    assert_eq!(out.subject, "corporate.rundown.michaelscottpapercompany");
    // The branch tier serves no naming route; provisioning writes the
    // identity key directly.
    store.set("branchinfo", String::from("scranton"));
    let out = respond_rundown(&store, &cfg);
    assert_eq!(out.subject, "corporate.rundown.scranton");
}

#[test]
fn topic_suffixes_name_the_child() {
    assert_eq!(
        extract_child("hub.rundown.dundermifflin", "hub.rundown."),
        Some(String::from("dundermifflin"))
    );
    assert_eq!(extract_child("hub.rundown.", "hub.rundown."), None);
    assert_eq!(extract_child("hub.rundown", "hub.rundown."), None);
    assert_eq!(extract_child("other.topic.x", "hub.rundown."), None);
}

#[test]
fn aggregator_unions_children_and_overwrites_per_child() {
    let mut hub = Store::new();
    let cfg = hub_aggregator();
    aggregate_response(
        &mut hub,
        &cfg,
        "hub.rundown.A",
        "[{\"item_type\":\"paper\",\"quantity\":1}]",
    )
    .unwrap();
    aggregate_response(
        &mut hub,
        &cfg,
        "hub.rundown.B",
        "[{\"item_type\":\"ink\",\"quantity\":2}]",
    )
    .unwrap();
    let view = composite_view(&hub, &cfg);
    let got: Vec<(String, String, i32)> = view
        .iter()
        .map(|i| (i.origin.clone(), i.item_type.clone(), i.quantity))
        .collect();
    assert_eq!(
        got,
        vec![
            (String::from("A"), String::from("paper"), 1),
            (String::from("B"), String::from("ink"), 2),
        ]
    );
    // A answers again: only A's portion is replaced.
    aggregate_response(
        &mut hub,
        &cfg,
        "hub.rundown.A",
        "[{\"item_type\":\"paper\",\"quantity\":9},{\"item_type\":\"toner\",\"quantity\":3}]",
    )
    .unwrap();
    let view = composite_view(&hub, &cfg);
    let got: Vec<(String, String, i32)> = view
        .iter()
        .map(|i| (i.origin.clone(), i.item_type.clone(), i.quantity))
        .collect();
    assert_eq!(
        got,
        vec![
            (String::from("A"), String::from("paper"), 9),
            (String::from("A"), String::from("toner"), 3),
            (String::from("B"), String::from("ink"), 2),
        ]
    );
}

#[test]
fn aggregator_rejects_malformed_and_ignores_bare_topic() {
    let mut hub = Store::new();
    let cfg = hub_aggregator();
    let r = aggregate_response(&mut hub, &cfg, "hub.rundown.A", "not a snapshot");
    assert_eq!(r, Err(ProtocolError::MalformedPayload));
    assert!(composite_view(&hub, &cfg).is_empty());
    let r = aggregate_response(&mut hub, &cfg, "hub.rundown.", "[]");
    assert_eq!(r, Ok(()));
    assert!(composite_view(&hub, &cfg).is_empty());
}

#[test]
fn query_skips_missing_and_malformed_snapshots() {
    let mut hub = Store::new();
    let cfg = hub_aggregator();
    aggregate_response(
        &mut hub,
        &cfg,
        "hub.rundown.good",
        "[{\"item_type\":\"paper\",\"quantity\":4}]",
    )
    .unwrap();
    // A child whose snapshot was corrupted in the store, and one whose
    // snapshot never arrived.
    hub.set("inventory:unit:bad", String::from("{broken"));
    hub.set_add("units", String::from("bad"));
    hub.set_add("units", String::from("silent"));
    let view = composite_view(&hub, &cfg);
    assert_eq!(view.len(), 1);
    assert_eq!(view[0].origin, "good");
    assert_eq!(view[0].quantity, 4);
}

#[test]
fn hub_http_routes_and_clear() {
    let mut hub = Store::new();
    let cfg = hub_aggregator();
    hub.set("unrelated", String::from("kept"));
    let (r, msg) = agg_handle_request(&mut hub, &cfg, "/rundown");
    assert_eq!(r.status, 200);
    assert_eq!(r.body, "Rundown requested");
    let msg = msg.expect("the rundown route must broadcast");
    assert_eq!(msg.subject, "unit.rundown");
    assert_eq!(msg.body, "\"heyjimletmegetthatrundownrealquick\"");
    aggregate_response(
        &mut hub,
        &cfg,
        "hub.rundown.A",
        "[{\"item_type\":\"paper\",\"quantity\":4}]",
    )
    .unwrap();
    let (r, _) = agg_handle_request(&mut hub, &cfg, "/inventory");
    assert_eq!(r.status, 200);
    assert_eq!(
        r.body,
        "[{\"unit\":\"A\",\"item_type\":\"paper\",\"quantity\":4}]"
    );
    let (r, _) = agg_handle_request(&mut hub, &cfg, "/clear");
    assert_eq!(r.status, 200);
    assert_eq!(r.body, "Inventory cleared");
    let (r, _) = agg_handle_request(&mut hub, &cfg, "/inventory");
    assert_eq!(r.body, "[]");
    assert_eq!(hub.get("inventory:unit:A"), None);
    assert_eq!(hub.get("unrelated"), Some(String::from("kept")));
}

#[test]
fn corporate_does_not_serve_clear() {
    let mut corp = Store::new();
    let cfg = corporate_aggregator();
    let (r, msg) = agg_handle_request(&mut corp, &cfg, "/clear");
    assert_eq!(r.status, 404);
    assert!(msg.is_none());
    let out = request_rundown(&cfg);
    assert_eq!(out.subject, "munderdifflin.rundown");
}

#[test]
fn full_round_from_branch_to_corporate() {
    // A branch ships stock, corporate broadcasts a rundown, the branch
    // answers, and corporate's composite view reflects the branch.
    let mut branch = Store::new();
    let leaf = branch_leaf();
    branch.set("branchinfo", String::from("scranton"));
    leaf_handle_request(
        &mut branch,
        &leaf,
        "POST",
        "/shipment",
        "{\"item_type\":\"Paper\",\"quantity\":50}",
    );
    let mut corp = Store::new();
    let agg = corporate_aggregator();
    let (_, broadcast) = agg_handle_request(&mut corp, &agg, "/rundown");
    let broadcast = broadcast.unwrap();
    let answer = leaf_handle_message(&branch, &leaf, &broadcast.subject)
        .expect("the broadcast topic must trigger the responder");
    aggregate_response(&mut corp, &agg, &answer.subject, &answer.body).unwrap();
    let (r, _) = agg_handle_request(&mut corp, &agg, "/inventory");
    assert_eq!(
        r.body,
        "[{\"branch\":\"scranton\",\"item_type\":\"paper\",\"quantity\":50}]"
    );
}

#[test]
fn aggregator_can_answer_upward_with_its_composite() {
    let mut hub = Store::new();
    let agg = hub_aggregator();
    aggregate_response(
        &mut hub,
        &agg,
        "hub.rundown.A",
        "[{\"item_type\":\"paper\",\"quantity\":4}]",
    )
    .unwrap();
    let up = branch_leaf();
    let out = agg_respond_rundown(&hub, &agg, &up);
    assert_eq!(out.subject, "corporate.rundown.michaelscottpapercompany");
    assert_eq!(
        out.body,
        "[{\"unit\":\"A\",\"item_type\":\"paper\",\"quantity\":4}]"
    );
}

#[test]
fn paths_lose_their_leading_slashes() {
    assert_eq!(trim_slashes("///inventory"), "inventory");
    assert_eq!(trim_slashes("inventory"), "inventory");
    assert_eq!(trim_slashes(""), "");
    let mut store = Store::new();
    let cfg = unit_leaf();
    let r = leaf_handle_request(&mut store, &cfg, "GET", "//inventory", "");
    assert_eq!(r.status, 200);
}

#[test]
fn parent_provenance_overwrites_what_a_child_embeds() {
    let mut hub = Store::new();
    let cfg = hub_aggregator();
    // The child claims to be someone else inside the records; the topic
    // suffix is authoritative.
    aggregate_response(
        &mut hub,
        &cfg,
        "hub.rundown.A",
        "[{\"unit\":\"evil\",\"item_type\":\"paper\",\"quantity\":1}]",
    )
    .unwrap();
    let view = composite_view(&hub, &cfg);
    assert_eq!(view.len(), 1);
    assert_eq!(view[0].origin, "A");
}
