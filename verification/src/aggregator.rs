//! Aggregator nodes: receiving children's rundown responses, persisting
//! them last-writer-wins per child, assembling the composite view, and
//! the hub and corporate tier wirings.

use vstd::prelude::*;
use vstd::string::StringExecFns;

use crate::codec::decode_snapshot;
use crate::codec::encode_list;
use crate::codec::encode_snapshot;
use crate::codec::lemma_decode_encode;
use crate::codec::models_wf;
use crate::codec::model_wf;
use crate::codec::sp_decode;
use crate::codec::tag_wf;
use crate::items::InventoryItem;
use crate::items::ItemModel;
use crate::items::models;
use crate::ledger::ProtocolError;
use crate::node::HttpReply;
use crate::node::OutboundMessage;
use crate::store::Store;
use crate::store::remove_first;
use crate::store::views_of;
use crate::text::chars_to_string;
use crate::text::str_to_chars;

verus! {

/// How an aggregator tier is wired into the hierarchy.
pub struct AggregatorConfig {
    /// The prefix of this node's inbound response topics; a child's
    /// identity completes it.
    pub response_prefix: String,
    /// The topic this node's children listen on for rundown requests.
    pub child_request_topic: String,
    /// The origin field name stamped into aggregated records.
    pub tag: String,
    /// The store key prefix a child's snapshot is persisted under.
    pub child_key_prefix: String,
    /// The name of the set of known child identities.
    pub children_set: String,
    /// Whether the clear route is served, as on the hub tier.
    pub allow_clear: bool,
}

/// The hub tier: aggregates the units.
pub fn hub_aggregator() -> (r: AggregatorConfig)
    ensures
        r.response_prefix@ == "hub.rundown."@,
        r.child_request_topic@ == "unit.rundown"@,
        r.tag@ == "unit"@,
        r.child_key_prefix@ == "inventory:unit:"@,
        r.children_set@ == "units"@,
        r.allow_clear,
{
    AggregatorConfig {
        response_prefix: String::from_str("hub.rundown."),
        child_request_topic: String::from_str("unit.rundown"),
        tag: String::from_str("unit"),
        child_key_prefix: String::from_str("inventory:unit:"),
        children_set: String::from_str("units"),
        allow_clear: true,
    }
}

/// The corporate tier: aggregates the branches.
pub fn corporate_aggregator() -> (r: AggregatorConfig)
    ensures
        r.response_prefix@ == "corporate.rundown."@,
        r.child_request_topic@ == "munderdifflin.rundown"@,
        r.tag@ == "branch"@,
        r.child_key_prefix@ == "inventory:branch:"@,
        r.children_set@ == "branches"@,
        !r.allow_clear,
{
    AggregatorConfig {
        response_prefix: String::from_str("corporate.rundown."),
        child_request_topic: String::from_str("munderdifflin.rundown"),
        tag: String::from_str("branch"),
        child_key_prefix: String::from_str("inventory:branch:"),
        children_set: String::from_str("branches"),
        allow_clear: false,
    }
}

/// The child identity carried by a response topic: the part after the
/// fixed prefix, provided it is there and non-empty.
pub open spec fn spec_suffix(subject: Seq<char>, prefix: Seq<char>) -> Option<Seq<char>> {
    if subject.len() > prefix.len() && subject.subrange(0, prefix.len() as int) == prefix {
        Some(subject.skip(prefix.len() as int))
    } else {
        None
    }
}

/// Extracts the child identity from a response topic.
pub fn extract_child(subject: &str, prefix: &str) -> (r: Option<String>)
    ensures
        match r {
            None => spec_suffix(subject@, prefix@) is None,
            Some(c) => spec_suffix(subject@, prefix@) == Some(c@) && c@.len() > 0,
        },
{
    let sv = str_to_chars(subject);
    let pv = str_to_chars(prefix);
    if sv.len() <= pv.len() {
        proof {
            if spec_suffix(subject@, prefix@) is Some {
                assert(subject@.len() > prefix@.len());
            }
        }
        return None;
    }
    let n = pv.len();
    let mut k: usize = 0;
    while k < n
        invariant
            sv@ == subject@,
            pv@ == prefix@,
            n == pv@.len(),
            n < sv@.len(),
            k <= n,
            forall|m: int| 0 <= m < k ==> sv@[m] == pv@[m],
        decreases n - k,
    {
        if sv[k] != pv[k] {
            proof {
                if subject@.subrange(0, prefix@.len() as int) == prefix@ {
                    assert(subject@.subrange(0, prefix@.len() as int)[k as int]
                        == prefix@[k as int]);
                }
            }
            return None;
        }
        k = k + 1;
    }
    proof {
        assert(subject@.subrange(0, prefix@.len() as int) =~= prefix@);
    }
    let mut out: Vec<char> = Vec::new();
    let mut j: usize = n;
    while j < sv.len()
        invariant
            sv@ == subject@,
            n <= j <= sv@.len(),
            out@ == subject@.skip(n as int).take(j - n),
        decreases sv@.len() - j,
    {
        out.push(sv[j]);
        proof {
            assert(subject@.skip(n as int).take(j - n + 1) =~= subject@.skip(n as int).take(
                j - n,
            ).push(subject@[j as int]));
        }
        j = j + 1;
    }
    proof {
        assert(subject@.skip(n as int).take(sv@.len() - n) =~= subject@.skip(n as int));
        assert(subject@.skip(n as int).len() > 0);
    }
    Some(chars_to_string(&out))
}

/// The records of `ms` with their origin replaced by `origin`: the
/// parent's view of provenance is authoritative.
pub open spec fn stamp(ms: Seq<ItemModel>, origin: Seq<char>) -> Seq<ItemModel> {
    Seq::new(
        ms.len(),
        |i: int|
            ItemModel { origin, item_type: ms[i].item_type, quantity: ms[i].quantity },
    )
}

fn stamp_items(items: &Vec<InventoryItem>, origin: &String) -> (r: Vec<InventoryItem>)
    ensures
        models(r@) == stamp(models(items@), origin@),
{
    let mut r: Vec<InventoryItem> = Vec::new();
    let mut i: usize = 0;
    while i < items.len()
        invariant
            i <= items@.len(),
            r@.len() == i,
            forall|x: int| 0 <= x < i ==> #[trigger] r@[x]@ == stamp(models(items@), origin@)[x],
        decreases items@.len() - i,
    {
        let it = InventoryItem {
            origin: origin.clone(),
            item_type: items[i].item_type.clone(),
            quantity: items[i].quantity,
        };
        proof {
            assert(models(items@)[i as int] == items@[i as int]@);
        }
        r.push(it);
        i = i + 1;
    }
    proof {
        assert(models(r@) =~= stamp(models(items@), origin@));
    }
    r
}

/// What persisting one child's response does to the store: the child's
/// snapshot key holds the stamped records, the child is registered, and
/// nothing else moves.
pub open spec fn agg_persists(
    pre: Store,
    post: Store,
    tag: Seq<char>,
    key_prefix: Seq<char>,
    children_set: Seq<char>,
    child: Seq<char>,
    ms: Seq<ItemModel>,
) -> bool {
    &&& post.val(key_prefix + child) == Some(encode_list(tag, stamp(ms, child)))
    &&& (forall|k2: Seq<char>|
        k2 != key_prefix + child ==> #[trigger] post.val(k2) == pre.val(k2))
    &&& post.members(children_set) == (if pre.members(children_set).contains(child) {
        pre.members(children_set)
    } else {
        pre.members(children_set).push(child)
    })
    &&& (forall|n2: Seq<char>|
        n2 != children_set ==> #[trigger] post.members(n2) == pre.members(n2))
}

/// Receives one child's rundown response.
///
/// A topic without a non-empty suffix after the response prefix is
/// ignored. A body that is not a canonical snapshot is refused as
/// malformed, with no mutation: this is the protocol's one strict
/// validation checkpoint. Otherwise the records are stamped with the
/// child's identity and persisted wholesale, replacing any prior
/// snapshot from that child, and the child joins the membership set.
pub fn aggregate_response(
    store: &mut Store,
    cfg: &AggregatorConfig,
    subject: &str,
    body: &str,
) -> (r: Result<(), ProtocolError>)
    requires
        old(store).wf(),
    ensures
        final(store).wf(),
        match spec_suffix(subject@, cfg.response_prefix@) {
            None => r is Ok && *final(store) == *old(store),
            Some(child) => (match sp_decode(cfg.tag@, body@) {
                None => r == Result::<(), ProtocolError>::Err(ProtocolError::MalformedPayload)
                    && *final(store) == *old(store),
                Some(ms) => r is Ok && agg_persists(
                    *old(store),
                    *final(store),
                    cfg.tag@,
                    cfg.child_key_prefix@,
                    cfg.children_set@,
                    child,
                    ms,
                ),
            }),
        },
{
    match extract_child(subject, cfg.response_prefix.as_str()) {
        None => Ok(()),
        Some(child) => {
            match decode_snapshot(cfg.tag.as_str(), body) {
                None => Err(ProtocolError::MalformedPayload),
                Some(items) => {
                    let stamped = stamp_items(&items, &child);
                    let blob = encode_snapshot(cfg.tag.as_str(), &stamped);
                    let mut key = cfg.child_key_prefix.clone();
                    key.append(child.as_str());
                    store.set(key.as_str(), blob);
                    store.set_add(cfg.children_set.as_str(), child);
                    Ok(())
                },
            }
        },
    }
}

/// What one child contributes to the composite view: the records its
/// persisted snapshot decodes to, and nothing when the snapshot is
/// missing or malformed.
pub open spec fn snapshot_model(
    store: Store,
    tag: Seq<char>,
    key_prefix: Seq<char>,
    child: Seq<char>,
) -> Seq<ItemModel> {
    match store.val(key_prefix + child) {
        None => Seq::empty(),
        Some(blob) => match sp_decode(tag, blob) {
            None => Seq::empty(),
            Some(ms) => ms,
        },
    }
}

/// The contributions of the children from position `i` on, concatenated.
pub open spec fn view_from(
    store: Store,
    tag: Seq<char>,
    key_prefix: Seq<char>,
    children: Seq<Seq<char>>,
    i: int,
) -> Seq<ItemModel>
    decreases children.len() - i,
{
    if i < 0 || i >= children.len() {
        Seq::empty()
    } else {
        snapshot_model(store, tag, key_prefix, children[i]) + view_from(
            store,
            tag,
            key_prefix,
            children,
            i + 1,
        )
    }
}

/// The composite view: the concatenation of every known child's
/// contribution, in membership order.
pub open spec fn composite_model(store: Store, cfg: AggregatorConfig) -> Seq<ItemModel> {
    view_from(
        store,
        cfg.tag@,
        cfg.child_key_prefix@,
        store.members(cfg.children_set@),
        0,
    )
}

/// Assembles the composite view on demand. This never fails: a missing
/// or malformed child snapshot contributes nothing and the rest is
/// returned.
pub fn composite_view(store: &Store, cfg: &AggregatorConfig) -> (r: Vec<InventoryItem>)
    requires
        store.wf(),
    ensures
        models(r@) == composite_model(*store, *cfg),
{
    let children = store.set_members(cfg.children_set.as_str());
    let ghost cs = views_of(children@);
    let mut acc: Vec<InventoryItem> = Vec::new();
    let mut i: usize = 0;
    while i < children.len()
        invariant
            store.wf(),
            i <= children@.len(),
            cs == views_of(children@),
            cs == store.members(cfg.children_set@),
            models(acc@) + view_from(*store, cfg.tag@, cfg.child_key_prefix@, cs, i as int)
                == composite_model(*store, *cfg),
        decreases children@.len() - i,
    {
        let mut key = cfg.child_key_prefix.clone();
        key.append(children[i].as_str());
        let ghost pre_acc = models(acc@);
        let ghost part_of_child = snapshot_model(*store, cfg.tag@, cfg.child_key_prefix@, cs[i as int]);
        proof {
            assert(cs[i as int] == children@[i as int]@);
            assert(key@ == cfg.child_key_prefix@ + cs[i as int]);
        }
        match store.get(key.as_str()) {
            None => {
                proof {
                    assert(part_of_child =~= Seq::<ItemModel>::empty());
                    assert(models(acc@) + view_from(
                        *store,
                        cfg.tag@,
                        cfg.child_key_prefix@,
                        cs,
                        i as int + 1,
                    ) =~= composite_model(*store, *cfg));
                }
            },
            Some(blob) => {
                match decode_snapshot(cfg.tag.as_str(), blob.as_str()) {
                    None => {
                        proof {
                            assert(part_of_child =~= Seq::<ItemModel>::empty());
                            assert(models(acc@) + view_from(
                                *store,
                                cfg.tag@,
                                cfg.child_key_prefix@,
                                cs,
                                i as int + 1,
                            ) =~= composite_model(*store, *cfg));
                        }
                    },
                    Some(items) => {
                        let mut items = items;
                        let ghost got = models(items@);
                        acc.append(&mut items);
                        proof {
                            assert(got == part_of_child);
                            assert(models(acc@) =~= pre_acc + part_of_child);
                            assert((pre_acc + part_of_child) + view_from(
                                *store,
                                cfg.tag@,
                                cfg.child_key_prefix@,
                                cs,
                                i as int + 1,
                            ) =~= pre_acc + (part_of_child + view_from(
                                *store,
                                cfg.tag@,
                                cfg.child_key_prefix@,
                                cs,
                                i as int + 1,
                            )));
                        }
                    },
                }
            },
        }
        i = i + 1;
    }
    proof {
        assert(view_from(*store, cfg.tag@, cfg.child_key_prefix@, cs, cs.len() as int)
            =~= Seq::<ItemModel>::empty());
        assert(models(acc@) =~= composite_model(*store, *cfg));
    }
    acc
}

/// Builds the broadcast that asks every child for a rundown.
pub fn request_rundown(cfg: &AggregatorConfig) -> (r: OutboundMessage)
    ensures
        r.subject@ == cfg.child_request_topic@,
        r.body@ == "\"heyjimletmegetthatrundownrealquick\""@,
{
    OutboundMessage {
        subject: cfg.child_request_topic.clone(),
        body: String::from_str("\"heyjimletmegetthatrundownrealquick\""),
    }
}

/// What clearing does: the membership set is emptied, every known
/// child's snapshot key is deleted, and nothing else moves.
pub open spec fn cleared_post(
    pre: Store,
    post: Store,
    key_prefix: Seq<char>,
    children_set: Seq<char>,
) -> bool {
    &&& post.members(children_set) == Seq::<Seq<char>>::empty()
    &&& (forall|c: Seq<char>|
        pre.members(children_set).contains(c) ==> #[trigger] post.val(key_prefix + c) is None)
    &&& (forall|k2: Seq<char>|
        #![trigger post.val(k2)]
        (forall|c: Seq<char>|
            #[trigger] pre.members(children_set).contains(c) ==> k2 != key_prefix + c)
            ==> post.val(k2) == pre.val(k2))
    &&& (forall|n2: Seq<char>|
        n2 != children_set ==> #[trigger] post.members(n2) == pre.members(n2))
}

/// Deletes every known child's snapshot and empties the membership set.
pub fn clear_children(store: &mut Store, cfg: &AggregatorConfig)
    requires
        old(store).wf(),
    ensures
        final(store).wf(),
        cleared_post(*old(store), *final(store), cfg.child_key_prefix@, cfg.children_set@),
{
    let children = store.set_members(cfg.children_set.as_str());
    let ghost cs = views_of(children@);
    proof {
        crate::store::lemma_members_distinct(*store, cfg.children_set@);
        assert(cs.skip(0) =~= cs);
    }
    let mut i: usize = 0;
    while i < children.len()
        invariant
            store.wf(),
            i <= children@.len(),
            cs == views_of(children@),
            cs == old(store).members(cfg.children_set@),
            crate::store::distinct_members(cs),
            store.members(cfg.children_set@) == cs.skip(i as int),
            forall|j: int|
                0 <= j < i ==> #[trigger] store.val(cfg.child_key_prefix@ + cs[j]) is None,
            forall|k2: Seq<char>|
                #![trigger store.val(k2)]
                (forall|j: int| 0 <= j < i ==> k2 != cfg.child_key_prefix@ + cs[j])
                    ==> store.val(k2) == old(store).val(k2),
            forall|n2: Seq<char>|
                n2 != cfg.children_set@ ==> #[trigger] store.members(n2) == old(store).members(
                    n2,
                ),
        decreases children@.len() - i,
    {
        let child = children[i].clone();
        let mut key = cfg.child_key_prefix.clone();
        key.append(child.as_str());
        proof {
            assert(cs[i as int] == children@[i as int]@);
            assert(key@ == cfg.child_key_prefix@ + cs[i as int]);
        }
        let ghost pre_loop = *store;
        store.del(key.as_str());
        store.set_del(cfg.children_set.as_str(), child.as_str());
        proof {
            assert(cs.skip(i as int)[0] == cs[i as int]);
            assert(remove_first(cs.skip(i as int), cs[i as int]) == cs.skip(i as int)
                .drop_first());
            assert(cs.skip(i as int).drop_first() =~= cs.skip(i as int + 1));
            assert forall|j: int| 0 <= j < i + 1 implies #[trigger] store.val(
                cfg.child_key_prefix@ + cs[j],
            ) is None by {
                if j < i {
                    lemma_prefix_concat_inj(cfg.child_key_prefix@, cs[j], cs[i as int]);
                }
            }
        }
        i = i + 1;
    }
    proof {
        assert(cs.skip(cs.len() as int) =~= Seq::<Seq<char>>::empty());
        assert forall|c: Seq<char>|
            old(store).members(cfg.children_set@).contains(c) implies #[trigger] store.val(
            cfg.child_key_prefix@ + c,
        ) is None by {
            let j = choose|j: int| 0 <= j < cs.len() && cs[j] == c;
            assert(store.val(cfg.child_key_prefix@ + cs[j]) is None);
        }
        assert forall|k2: Seq<char>|
            #![trigger store.val(k2)]
            (forall|c: Seq<char>|
                #[trigger] old(store).members(cfg.children_set@).contains(c) ==> k2
                    != cfg.child_key_prefix@ + c) implies store.val(k2) == old(store).val(
            k2,
        ) by {
            assert forall|j: int| 0 <= j < cs.len() implies k2 != cfg.child_key_prefix@
                + cs[j] by {
                assert(cs.contains(cs[j]));
            }
        }
    }
}

/// Answers a rundown request at an aggregator that itself has a parent:
/// as a leaf does, but the published snapshot is the composite view
/// rather than this node's own counters. `up` wires the upward leg.
pub fn agg_respond_rundown(store: &Store, cfg: &AggregatorConfig, up: &crate::node::LeafConfig)
    -> (r: OutboundMessage)
    requires
        store.wf(),
    ensures
        r.subject@ == up.parent_prefix@ + crate::node::spec_identity(
            *store,
            up.info_key@,
            up.sentinel@,
        ),
        r.body@ == encode_list(cfg.tag@, composite_model(*store, *cfg)),
{
    let items = composite_view(store, cfg);
    let me = crate::node::identity_or_sentinel(store, up);
    let mut subject = up.parent_prefix.clone();
    subject.append(me.as_str());
    let body = encode_snapshot(cfg.tag.as_str(), &items);
    OutboundMessage { subject, body }
}

/// Which paths an aggregator routes.
pub open spec fn agg_routes(p: Seq<char>, allow_clear: bool) -> bool {
    ||| p == "rundown"@
    ||| p == "inventory"@
    ||| (allow_clear && p == "clear"@)
}

/// Handles one request at an aggregator, routing on the path with its
/// leading slashes removed.
///
/// The rundown route broadcasts a request downward and acknowledges at
/// once, without waiting for any child. The inventory route reports the
/// composite view as it has accumulated. The clear route, where served,
/// forgets every child snapshot. An unrouted path is answered not-found
/// so the host may serve assets.
pub fn agg_handle_request(store: &mut Store, cfg: &AggregatorConfig, path: &str) -> (r: (
    HttpReply,
    Option<OutboundMessage>,
))
    requires
        old(store).wf(),
    ensures
        final(store).wf(),
        ({
            let p = crate::node::spec_trim_slashes(path@);
            &&& (p == "rundown"@ ==> r.0.status == 200 && r.0.body@ == "Rundown requested"@
                && *final(store) == *old(store) && (r.1 matches Some(msg) && msg.subject@
                == cfg.child_request_topic@ && msg.body@
                == "\"heyjimletmegetthatrundownrealquick\""@))
            &&& ((p == "clear"@ && cfg.allow_clear) ==> r.0.status == 200 && r.0.body@
                == "Inventory cleared"@ && r.1 is None && cleared_post(
                *old(store),
                *final(store),
                cfg.child_key_prefix@,
                cfg.children_set@,
            ))
            &&& (p == "inventory"@ ==> r.0.status == 200 && r.0.body@ == encode_list(
                cfg.tag@,
                composite_model(*old(store), *cfg),
            ) && *final(store) == *old(store) && r.1 is None)
            &&& (!agg_routes(p, cfg.allow_clear) ==> r.0.status == 404 && r.0.body@ == ""@
                && *final(store) == *old(store) && r.1 is None)
        }),
{
    proof {
        reveal_strlit("rundown");
        reveal_strlit("clear");
        reveal_strlit("inventory");
        assert("rundown"@.len() == 7);
        assert("clear"@.len() == 5);
        assert("inventory"@.len() == 9);
    }
    let p = crate::node::trim_slashes(path);
    if p == String::from_str("rundown") {
        let msg = request_rundown(cfg);
        (HttpReply { status: 200, body: String::from_str("Rundown requested") }, Some(msg))
    } else if cfg.allow_clear && p == String::from_str("clear") {
        clear_children(store, cfg);
        (HttpReply { status: 200, body: String::from_str("Inventory cleared") }, None)
    } else if p == String::from_str("inventory") {
        let items = composite_view(store, cfg);
        let body = encode_snapshot(cfg.tag.as_str(), &items);
        (HttpReply { status: 200, body }, None)
    } else {
        (HttpReply { status: 404, body: String::from_str("") }, None)
    }
}

/// With one prefix, equal keys mean equal children.
proof fn lemma_prefix_concat_inj(p: Seq<char>, a: Seq<char>, b: Seq<char>)
    ensures
        p + a == p + b ==> a == b,
{
    if p + a == p + b {
        assert((p + a).len() == (p + b).len());
        assert(a.len() == b.len());
        assert forall|i: int| 0 <= i < a.len() implies a[i] == b[i] by {
            assert((p + a)[p.len() + i] == a[i]);
            assert((p + b)[p.len() + i] == b[i]);
        }
        assert(a =~= b);
    }
}

/// What a leaf publishes is what its parent reads: the body a rundown
/// response carries, built from the leaf's own inventory, decodes at the
/// aggregator under the aggregator's origin field name to exactly the
/// leaf's records.
pub proof fn lemma_leaf_snapshot_arrives_intact(leaf: Store, tag: Seq<char>)
    requires
        tag_wf(tag),
    ensures
        sp_decode(tag, encode_list(""@, crate::ledger::inventory_model(leaf))) == Some(
            crate::ledger::inventory_model(leaf),
        ),
{
    let ms = crate::ledger::inventory_model(leaf);
    assert(models_wf(ms)) by {
        assert forall|k: int| 0 <= k < ms.len() implies #[trigger] model_wf(ms[k]) by {
            crate::store::lemma_counter_range(
                leaf,
                crate::items::spec_storage_key(
                    leaf.members(crate::ledger::spec_kinds_set())[k],
                ),
            );
        }
    }
    assert(crate::codec::origins_empty(ms)) by {
        assert forall|k: int| 0 <= k < ms.len() implies #[trigger] ms[k].origin.len() == 0 by {
            assert(ms[k].origin == Seq::<char>::empty());
        }
    }
    crate::codec::lemma_rundown_round_trip(tag, ms);
}

/// Aggregator persistence is last-writer-wins per child: after a child's
/// response lands on top of an earlier one, that child's contribution to
/// the composite view is exactly the later records, every other child's
/// contribution is untouched, and the membership set has gained the
/// child at most once.
pub proof fn lemma_last_writer_wins(
    s0: Store,
    s1: Store,
    s2: Store,
    tag: Seq<char>,
    key_prefix: Seq<char>,
    children_set: Seq<char>,
    child: Seq<char>,
    ms1: Seq<ItemModel>,
    ms2: Seq<ItemModel>,
)
    requires
        tag_wf(tag),
        models_wf(ms1),
        models_wf(ms2),
        agg_persists(s0, s1, tag, key_prefix, children_set, child, ms1),
        agg_persists(s1, s2, tag, key_prefix, children_set, child, ms2),
    ensures
        snapshot_model(s2, tag, key_prefix, child) == stamp(ms2, child),
        forall|c2: Seq<char>|
            c2 != child ==> #[trigger] snapshot_model(s2, tag, key_prefix, c2)
                == snapshot_model(s0, tag, key_prefix, c2),
        s2.members(children_set) == (if s0.members(children_set).contains(child) {
            s0.members(children_set)
        } else {
            s0.members(children_set).push(child)
        }),
{
    assert(models_wf(stamp(ms2, child))) by {
        assert forall|k: int| 0 <= k < stamp(ms2, child).len() implies #[trigger] model_wf(
            stamp(ms2, child)[k],
        ) by {
            assert(model_wf(ms2[k]));
        }
    }
    lemma_decode_encode(tag, stamp(ms2, child));
    assert forall|c2: Seq<char>| c2 != child implies #[trigger] snapshot_model(
        s2,
        tag,
        key_prefix,
        c2,
    ) == snapshot_model(s0, tag, key_prefix, c2) by {
        lemma_prefix_concat_inj(key_prefix, c2, child);
        assert(key_prefix + c2 != key_prefix + child);
        assert(s2.val(key_prefix + c2) == s1.val(key_prefix + c2));
        assert(s1.val(key_prefix + c2) == s0.val(key_prefix + c2));
    }
    if s0.members(children_set).contains(child) {
    } else {
        let m1 = s0.members(children_set).push(child);
        assert(m1[m1.len() - 1] == child);
        assert(m1.contains(child));
    }
}

} // verus!
