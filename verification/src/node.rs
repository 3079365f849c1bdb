//! Leaf nodes: configuration, the rundown responder, and the request
//! dispatcher for the branch and unit tiers.
//!
//! The topic and key naming contract lives here as the constructors'
//! contracts: a leaf listens on `<own-tier>.rundown`, answers on
//! `<parent-tier>.rundown.<own-identity>`, and keeps its identity under a
//! per-tier info key with a per-tier sentinel for nodes never named.

use vstd::prelude::*;
use vstd::string::StringExecFns;

use crate::codec::encode_list;
use crate::codec::encode_snapshot;
use crate::codec::sp_decode_item;
use crate::ledger::all_inventories;
use crate::ledger::inventory_model;
use crate::ledger::record_order;
use crate::ledger::record_shipment;
use crate::ledger::spec_kinds_set;
use crate::items::spec_storage_key;
use crate::ledger::abs_of;
use crate::store::Store;
use crate::text::norm_seq;
use crate::text::str_to_chars;
use crate::text::chars_to_string;

verus! {

/// One message to publish on the bus.
pub struct OutboundMessage {
    pub subject: String,
    pub body: String,
}

/// One answer to an inbound request: a status code and a body.
pub struct HttpReply {
    pub status: u16,
    pub body: String,
}

/// How a leaf tier is wired into the aggregation hierarchy.
pub struct LeafConfig {
    /// The topic this node listens on for rundown requests.
    pub request_topic: String,
    /// The prefix of the parent's response topics; this node's identity
    /// completes it.
    pub parent_prefix: String,
    /// The store key holding this node's identity.
    pub info_key: String,
    /// The identity reported when none was ever set.
    pub sentinel: String,
    /// What this tier calls a node, for the naming response text.
    pub label: String,
    /// Whether the inventory and name routes are served, as on the unit
    /// tier; the branch tier routes only shipments and orders.
    pub full_routes: bool,
}

/// The unit tier: answers upward to the hub.
pub fn unit_leaf() -> (r: LeafConfig)
    ensures
        r.request_topic@ == "unit.rundown"@,
        r.parent_prefix@ == "hub.rundown."@,
        r.info_key@ == "unitinfo"@,
        r.sentinel@ == "nohub"@,
        r.label@ == "unit"@,
        r.full_routes,
{
    LeafConfig {
        request_topic: String::from_str("unit.rundown"),
        parent_prefix: String::from_str("hub.rundown."),
        info_key: String::from_str("unitinfo"),
        sentinel: String::from_str("nohub"),
        label: String::from_str("unit"),
        full_routes: true,
    }
}

/// The branch tier: answers upward to corporate.
pub fn branch_leaf() -> (r: LeafConfig)
    ensures
        r.request_topic@ == "munderdifflin.rundown"@,
        r.parent_prefix@ == "corporate.rundown."@,
        r.info_key@ == "branchinfo"@,
        r.sentinel@ == "michaelscottpapercompany"@,
        r.label@ == "branch"@,
        !r.full_routes,
{
    LeafConfig {
        request_topic: String::from_str("munderdifflin.rundown"),
        parent_prefix: String::from_str("corporate.rundown."),
        info_key: String::from_str("branchinfo"),
        sentinel: String::from_str("michaelscottpapercompany"),
        label: String::from_str("branch"),
        full_routes: false,
    }
}

/// The identity a node reports: what its info key holds, or the sentinel
/// when the key was never written.
pub open spec fn spec_identity(store: Store, info_key: Seq<char>, sentinel: Seq<char>) -> Seq<
    char,
> {
    match store.val(info_key) {
        None => sentinel,
        Some(v) => v,
    }
}

/// Reads this node's identity, falling back to the sentinel.
pub fn identity_or_sentinel(store: &Store, cfg: &LeafConfig) -> (r: String)
    requires
        store.wf(),
    ensures
        r@ == spec_identity(*store, cfg.info_key@, cfg.sentinel@),
{
    match store.get(cfg.info_key.as_str()) {
        Some(v) => v,
        None => cfg.sentinel.clone(),
    }
}

/// Answers a rundown request: assembles this node's own snapshot and
/// addresses it to the parent's topic completed with this node's
/// identity. A node never named still answers, tagged as the sentinel.
pub fn respond_rundown(store: &Store, cfg: &LeafConfig) -> (r: OutboundMessage)
    requires
        store.wf(),
    ensures
        r.subject@ == cfg.parent_prefix@ + spec_identity(*store, cfg.info_key@, cfg.sentinel@),
        r.body@ == encode_list(""@, inventory_model(*store)),
{
    let items = all_inventories(store);
    let me = identity_or_sentinel(store, cfg);
    let mut subject = cfg.parent_prefix.clone();
    subject.append(me.as_str());
    let body = encode_snapshot("", &items);
    OutboundMessage { subject, body }
}

/// Handles one bus message at a leaf: a rundown request on the tier's
/// request topic produces a response to publish; anything else is
/// ignored.
pub fn leaf_handle_message(store: &Store, cfg: &LeafConfig, subject: &str) -> (r: Option<
    OutboundMessage,
>)
    requires
        store.wf(),
    ensures
        subject@ == cfg.request_topic@ ==> (r matches Some(msg) && msg.subject@
            == cfg.parent_prefix@ + spec_identity(*store, cfg.info_key@, cfg.sentinel@)
            && msg.body@ == encode_list(""@, inventory_model(*store))),
        subject@ != cfg.request_topic@ ==> r is None,
{
    let subj = String::from_str(subject);
    if subj == cfg.request_topic {
        Some(respond_rundown(store, cfg))
    } else {
        None
    }
}

/// A request path with its leading slashes removed.
pub open spec fn spec_trim_slashes(s: Seq<char>) -> Seq<char>
    decreases s.len(),
{
    if s.len() > 0 && s[0] == '/' {
        spec_trim_slashes(s.drop_first())
    } else {
        s
    }
}

/// Strips leading slashes from a request path.
pub fn trim_slashes(s: &str) -> (r: String)
    ensures
        r@ == spec_trim_slashes(s@),
{
    let cs = str_to_chars(s);
    let mut i: usize = 0;
    proof {
        assert(s@.skip(0) =~= s@);
    }
    while i < cs.len() && cs[i] == '/'
        invariant
            cs@ == s@,
            i <= cs@.len(),
            spec_trim_slashes(s@) == spec_trim_slashes(s@.skip(i as int)),
        decreases cs@.len() - i,
    {
        proof {
            assert(s@.skip(i as int).drop_first() =~= s@.skip(i as int + 1));
        }
        i = i + 1;
    }
    let mut out: Vec<char> = Vec::new();
    let mut j: usize = i;
    while j < cs.len()
        invariant
            cs@ == s@,
            i <= j <= cs@.len(),
            out@ == s@.skip(i as int).take(j - i),
        decreases cs@.len() - j,
    {
        out.push(cs[j]);
        proof {
            assert(s@.skip(i as int).take(j - i + 1) =~= s@.skip(i as int).take(j - i).push(
                s@[j as int],
            ));
        }
        j = j + 1;
    }
    proof {
        assert(s@.skip(i as int).take(cs@.len() - i) =~= s@.skip(i as int));
        if i < cs@.len() {
            assert(s@.skip(i as int)[0] == s@[i as int]);
        }
        assert(spec_trim_slashes(s@.skip(i as int)) == s@.skip(i as int));
    }
    chars_to_string(&out)
}

/// Whether a leaf routes this path at all.
pub open spec fn leaf_routes(p: Seq<char>, full_routes: bool) -> bool {
    ||| p == "shipment"@
    ||| p == "order"@
    ||| (full_routes && (p == "inventory"@ || p == "name"@))
}

/// What handling a shipment request does: a body that is not one record
/// is refused; a magnitude the counter cannot take is refused; otherwise
/// the counter grows by the magnitude and the category is registered.
pub open spec fn shipment_post(
    pre: Store,
    post: Store,
    body: Seq<char>,
    status: u16,
    rbody: Seq<char>,
) -> bool {
    match sp_decode_item(""@, body) {
        None => status == 400 && rbody == "Invalid inventory payload"@ && post == pre,
        Some(m) => {
            let key = spec_storage_key(norm_seq(m.item_type));
            let cat = norm_seq(m.item_type);
            let q = abs_of(m.quantity);
            &&& ((m.quantity == i32::MIN as int || pre.counter(key) + q > i32::MAX as int)
                ==> status == 400 && rbody == "Inventory counter overflow"@ && post == pre)
            &&& ((m.quantity != i32::MIN as int && pre.counter(key) + q <= i32::MAX as int)
                ==> {
                &&& status == 200
                &&& rbody == "Added "@ + crate::codec::encode_int(m.quantity) + " "@ + cat
                    + " to inventory"@
                &&& post.counter(key) == pre.counter(key) + q
                &&& post.members(spec_kinds_set()) == (if pre.members(
                    spec_kinds_set(),
                ).contains(cat) {
                    pre.members(spec_kinds_set())
                } else {
                    pre.members(spec_kinds_set()).push(cat)
                })
                &&& (forall|k2: Seq<char>|
                    k2 != key ==> #[trigger] post.val(k2) == pre.val(k2))
                &&& (forall|n2: Seq<char>|
                    n2 != spec_kinds_set() ==> #[trigger] post.members(n2) == pre.members(n2))
            })
        },
    }
}

/// Handles a shipment request.
pub fn handle_shipment(store: &mut Store, body: &str) -> (r: HttpReply)
    requires
        old(store).wf(),
    ensures
        final(store).wf(),
        shipment_post(*old(store), *final(store), body@, r.status, r.body@),
{
    match crate::codec::decode_item("", body) {
        None => HttpReply { status: 400, body: String::from_str("Invalid inventory payload") },
        Some(item) => {
            let q: i32 = if item.quantity < 0 && item.quantity != i32::MIN {
                -item.quantity
            } else {
                item.quantity
            };
            let key = item.storage_key();
            proof {
                crate::store::lemma_counter_range(*store, key@);
            }
            let cur: i32 = match store.get(key.as_str()) {
                None => 0,
                Some(v) => crate::codec::parse_i32(v.as_str()),
            };
            if item.quantity == i32::MIN || cur > i32::MAX - q {
                HttpReply { status: 400, body: String::from_str("Inventory counter overflow") }
            } else {
                let msg = record_shipment(store, &item);
                HttpReply { status: 200, body: msg }
            }
        },
    }
}

/// What handling an order does: a body that is not one record is
/// refused; a magnitude the counter cannot represent is refused; an
/// order beyond the counter is refused with the insufficiency text and
/// no mutation; otherwise the counter shrinks by the magnitude.
pub open spec fn order_post(
    pre: Store,
    post: Store,
    body: Seq<char>,
    status: u16,
    rbody: Seq<char>,
) -> bool {
    match sp_decode_item(""@, body) {
        None => status == 400 && rbody == "Invalid inventory payload"@ && post == pre,
        Some(m) => {
            let key = spec_storage_key(norm_seq(m.item_type));
            let cat = norm_seq(m.item_type);
            let cur = pre.counter(key);
            let q = abs_of(m.quantity);
            &&& (m.quantity == i32::MIN as int ==> status == 400 && rbody
                == "Inventory counter overflow"@ && post == pre)
            &&& ((m.quantity != i32::MIN as int && cur < q) ==> status == 400 && rbody
                == "Not enough "@ + cat + " in inventory"@ && post == pre)
            &&& ((m.quantity != i32::MIN as int && cur >= q) ==> {
                &&& status == 200
                &&& rbody == "Removed "@ + crate::codec::encode_int(m.quantity) + " "@ + cat
                    + " from inventory"@
                &&& post.counter(key) == cur - q
                &&& (forall|k2: Seq<char>|
                    k2 != key ==> #[trigger] post.val(k2) == pre.val(k2))
                &&& (forall|n2: Seq<char>| #[trigger] post.members(n2) == pre.members(n2))
            })
        },
    }
}

/// Handles an order request.
pub fn handle_order(store: &mut Store, body: &str) -> (r: HttpReply)
    requires
        old(store).wf(),
    ensures
        final(store).wf(),
        order_post(*old(store), *final(store), body@, r.status, r.body@),
{
    match crate::codec::decode_item("", body) {
        None => HttpReply { status: 400, body: String::from_str("Invalid inventory payload") },
        Some(item) => {
            if item.quantity == i32::MIN {
                HttpReply { status: 400, body: String::from_str("Inventory counter overflow") }
            } else {
                match record_order(store, &item) {
                    Ok(msg) => HttpReply { status: 200, body: msg },
                    Err(_) => {
                        let cat = item.item_type();
                        let mut msg = String::from_str("Not enough ");
                        msg.append(cat.as_str());
                        msg.append(" in inventory");
                        HttpReply { status: 400, body: msg }
                    },
                }
            }
        },
    }
}

/// What the naming routes do: reading reports the stored identity or an
/// empty text; writing stores the body as the identity; any other method
/// is refused.
pub open spec fn name_post(
    pre: Store,
    post: Store,
    label: Seq<char>,
    info_key: Seq<char>,
    method: Seq<char>,
    body: Seq<char>,
    status: u16,
    rbody: Seq<char>,
) -> bool {
    &&& (method == "GET"@ ==> status == 200 && rbody == (match pre.val(info_key) {
        Some(v) => v,
        None => ""@,
    }) && post == pre)
    &&& ((method != "GET"@ && method == "POST"@) ==> {
        &&& status == 200
        &&& rbody == "Set "@ + label + " name to "@ + body
        &&& post.val(info_key) == Some(body)
        &&& (forall|k2: Seq<char>| k2 != info_key ==> #[trigger] post.val(k2) == pre.val(k2))
        &&& (forall|n2: Seq<char>| #[trigger] post.members(n2) == pre.members(n2))
    })
    &&& ((method != "GET"@ && method != "POST"@) ==> status == 400 && rbody
        == "Invalid method"@ && post == pre)
}

/// Handles the naming routes.
pub fn handle_name(store: &mut Store, cfg: &LeafConfig, method: &str, body: &str) -> (r:
    HttpReply)
    requires
        old(store).wf(),
    ensures
        final(store).wf(),
        name_post(
            *old(store),
            *final(store),
            cfg.label@,
            cfg.info_key@,
            method@,
            body@,
            r.status,
            r.body@,
        ),
{
    proof {
        reveal_strlit("GET");
        reveal_strlit("POST");
    }
    if String::from_str(method) == String::from_str("GET") {
        let name = match store.get(cfg.info_key.as_str()) {
            Some(v) => v,
            None => String::from_str(""),
        };
        HttpReply { status: 200, body: name }
    } else if String::from_str(method) == String::from_str("POST") {
        store.set(cfg.info_key.as_str(), String::from_str(body));
        let mut msg = String::from_str("Set ");
        msg.append(cfg.label.as_str());
        msg.append(" name to ");
        msg.append(body);
        HttpReply { status: 200, body: msg }
    } else {
        HttpReply { status: 400, body: String::from_str("Invalid method") }
    }
}

/// Handles one request at a leaf, routing on the path with its leading
/// slashes removed. An unrouted path is answered not-found so the host
/// may serve assets.
pub fn leaf_handle_request(
    store: &mut Store,
    cfg: &LeafConfig,
    method: &str,
    path: &str,
    body: &str,
) -> (r: HttpReply)
    requires
        old(store).wf(),
    ensures
        final(store).wf(),
        ({
            let p = spec_trim_slashes(path@);
            &&& ((p == "inventory"@ && cfg.full_routes) ==> r.status == 200 && r.body@
                == encode_list(""@, inventory_model(*old(store))) && *final(store)
                == *old(store))
            &&& (p == "shipment"@ ==> shipment_post(
                *old(store),
                *final(store),
                body@,
                r.status,
                r.body@,
            ))
            &&& (p == "order"@ ==> order_post(
                *old(store),
                *final(store),
                body@,
                r.status,
                r.body@,
            ))
            &&& ((p == "name"@ && cfg.full_routes) ==> name_post(
                *old(store),
                *final(store),
                cfg.label@,
                cfg.info_key@,
                method@,
                body@,
                r.status,
                r.body@,
            ))
            &&& (!leaf_routes(p, cfg.full_routes) ==> r.status == 404 && r.body@ == ""@
                && *final(store) == *old(store))
        }),
{
    proof {
        reveal_strlit("inventory");
        reveal_strlit("shipment");
        reveal_strlit("order");
        reveal_strlit("name");
        assert("inventory"@.len() == 9);
        assert("shipment"@.len() == 8);
        assert("order"@.len() == 5);
        assert("name"@.len() == 4);
    }
    let p = trim_slashes(path);
    if cfg.full_routes && p == String::from_str("inventory") {
        let items = all_inventories(store);
        let body_out = encode_snapshot("", &items);
        HttpReply { status: 200, body: body_out }
    } else if p == String::from_str("shipment") {
        handle_shipment(store, body)
    } else if p == String::from_str("order") {
        handle_order(store, body)
    } else if cfg.full_routes && p == String::from_str("name") {
        handle_name(store, cfg, method, body)
    } else {
        HttpReply { status: 404, body: String::from_str("") }
    }
}


} // verus!
