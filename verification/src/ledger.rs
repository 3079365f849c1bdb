//! The inventory ledger: per-category counters mutated by shipments and
//! orders, with a guard against ordering more than is on hand.

use vstd::prelude::*;
use vstd::string::StringExecFns;

use crate::codec::encode_int;
use crate::codec::int_to_string;
use crate::items::InventoryItem;
use crate::items::ItemModel;
use crate::items::category_key;
use crate::items::models;
use crate::items::spec_storage_key;
use crate::store::Store;
use crate::text::norm_seq;

verus! {

/// The errors the protocol logic reports to its caller.
#[derive(Clone, Copy, PartialEq, Eq, Structural, Debug)]
pub enum ProtocolError {
    /// An order asked for more than the counter holds.
    InsufficientStock,
    /// A request or response body does not parse as the expected shape.
    MalformedPayload,
}

/// The set that records every category whose counter was ever shipped to.
pub open spec fn spec_kinds_set() -> Seq<char> {
    "inventorykinds"@
}

/// The magnitude of a signed quantity.
pub open spec fn abs_of(q: int) -> int {
    if q < 0 {
        -q
    } else {
        q
    }
}

/// One ledger mutation, as the history laws speak of it: quantities are
/// the positive magnitudes carried by the operations.
pub ghost enum LedgerOp {
    Shipment { quantity: int },
    Order { quantity: int },
}

/// What one operation does to a counter: a shipment adds its quantity; an
/// order subtracts its quantity when covered and changes nothing when not.
pub open spec fn ledger_step(c: int, op: LedgerOp) -> int {
    match op {
        LedgerOp::Shipment { quantity } => c + quantity,
        LedgerOp::Order { quantity } => if quantity <= c {
            c - quantity
        } else {
            c
        },
    }
}

/// A counter after a whole history of operations.
pub open spec fn ledger_run(c: int, ops: Seq<LedgerOp>) -> int
    decreases ops.len(),
{
    if ops.len() == 0 {
        c
    } else {
        ledger_run(ledger_step(c, ops[0]), ops.drop_first())
    }
}

/// The sum of all shipped quantities in a history.
pub open spec fn shipped_total(ops: Seq<LedgerOp>) -> int
    decreases ops.len(),
{
    if ops.len() == 0 {
        0
    } else {
        (match ops[0] {
            LedgerOp::Shipment { quantity } => quantity,
            LedgerOp::Order { .. } => 0,
        }) + shipped_total(ops.drop_first())
    }
}

/// The sum of the quantities of the orders that succeed along a history
/// starting from counter `c`.
pub open spec fn ordered_total(c: int, ops: Seq<LedgerOp>) -> int
    decreases ops.len(),
{
    if ops.len() == 0 {
        0
    } else {
        (match ops[0] {
            LedgerOp::Shipment { .. } => 0,
            LedgerOp::Order { quantity } => if quantity <= c {
                quantity
            } else {
                0
            },
        }) + ordered_total(ledger_step(c, ops[0]), ops.drop_first())
    }
}

/// Every operation carries a positive quantity.
pub open spec fn ops_wf(ops: Seq<LedgerOp>) -> bool {
    forall|i: int|
        0 <= i < ops.len() ==> (match #[trigger] ops[i] {
            LedgerOp::Shipment { quantity } => quantity > 0,
            LedgerOp::Order { quantity } => quantity > 0,
        })
}

/// For any history of shipments and orders on one category, the final
/// counter is the starting counter plus everything shipped minus
/// everything successfully ordered, and no successful order ever drives
/// the counter negative.
pub proof fn lemma_ledger_history(c0: int, ops: Seq<LedgerOp>)
    requires
        c0 >= 0,
        ops_wf(ops),
    ensures
        ledger_run(c0, ops) == c0 + shipped_total(ops) - ordered_total(c0, ops),
        ledger_run(c0, ops) >= 0,
    decreases ops.len(),
{
    if ops.len() > 0 {
        let c1 = ledger_step(c0, ops[0]);
        assert(c1 >= 0);
        assert(ops_wf(ops.drop_first())) by {
            assert forall|i: int| 0 <= i < ops.drop_first().len() implies (
            match #[trigger] ops.drop_first()[i] {
                LedgerOp::Shipment { quantity } => quantity > 0,
                LedgerOp::Order { quantity } => quantity > 0,
            }) by {
                assert(ops.drop_first()[i] == ops[i + 1]);
            }
        }
        lemma_ledger_history(c1, ops.drop_first());
    }
}

/// Records an incoming shipment: adds the magnitude of the quantity to
/// the category's counter and registers the category among the known
/// kinds. The response text reports the quantity as sent and the
/// normalized category.
pub fn record_shipment(store: &mut Store, item: &InventoryItem) -> (r: String)
    requires
        old(store).wf(),
        item@.quantity != i32::MIN as int,
        old(store).counter(spec_storage_key(norm_seq(item@.item_type))) + abs_of(item@.quantity)
            <= i32::MAX as int,
        old(store).counter(spec_storage_key(norm_seq(item@.item_type))) >= i32::MIN as int,
    ensures
        final(store).wf(),
        ({
            let key = spec_storage_key(norm_seq(item@.item_type));
            let cat = norm_seq(item@.item_type);
            let q = abs_of(item@.quantity);
            &&& final(store).counter(key) == ledger_step(
                old(store).counter(key),
                LedgerOp::Shipment { quantity: q },
            )
            &&& final(store).val(key) == Some(encode_int(old(store).counter(key) + q))
            &&& (forall|k2: Seq<char>|
                k2 != key ==> #[trigger] final(store).val(k2) == old(store).val(k2))
            &&& final(store).members(spec_kinds_set()) == (if old(store).members(
                spec_kinds_set(),
            ).contains(cat) {
                old(store).members(spec_kinds_set())
            } else {
                old(store).members(spec_kinds_set()).push(cat)
            })
            &&& (forall|n2: Seq<char>|
                n2 != spec_kinds_set() ==> #[trigger] final(store).members(n2) == old(
                    store,
                ).members(n2))
            &&& r@ == "Added "@ + encode_int(item@.quantity) + " "@ + cat + " to inventory"@
        }),
{
    let q: i32 = if item.quantity < 0 {
        -item.quantity
    } else {
        item.quantity
    };
    let key = item.storage_key();
    store.increment(key.as_str(), q);
    let cat = item.item_type();
    store.set_add("inventorykinds", cat.clone());
    let mut msg = String::from_str("Added ");
    msg.append(int_to_string(item.quantity).as_str());
    msg.append(" ");
    msg.append(cat.as_str());
    msg.append(" to inventory");
    msg
}

/// Records an order: when the category's counter covers the magnitude of
/// the quantity, subtracts it; otherwise reports `InsufficientStock` and
/// changes nothing. The check and the decrement read the counter once,
/// so the success text reports the quantity as sent and the normalized
/// category.
pub fn record_order(store: &mut Store, item: &InventoryItem) -> (r: Result<String, ProtocolError>)
    requires
        old(store).wf(),
        item@.quantity != i32::MIN as int,
    ensures
        final(store).wf(),
        ({
            let key = spec_storage_key(norm_seq(item@.item_type));
            let cat = norm_seq(item@.item_type);
            let cur = old(store).counter(key);
            let q = abs_of(item@.quantity);
            &&& final(store).counter(key) == ledger_step(cur, LedgerOp::Order { quantity: q })
            &&& (r is Err <==> cur < q)
            &&& (cur < q ==> r == Result::<String, ProtocolError>::Err(
                ProtocolError::InsufficientStock,
            ) && *final(store) == *old(store))
            &&& (cur >= q ==> (forall|k2: Seq<char>|
                k2 != key ==> #[trigger] final(store).val(k2) == old(store).val(k2)))
            &&& (cur >= q ==> (forall|n2: Seq<char>|
                #[trigger] final(store).members(n2) == old(store).members(n2)))
            &&& (cur >= q ==> (r matches Ok(msg) && msg@ == "Removed "@ + encode_int(
                item@.quantity,
            ) + " "@ + cat + " from inventory"@))
        }),
{
    let q: i32 = if item.quantity < 0 {
        -item.quantity
    } else {
        item.quantity
    };
    let key = item.storage_key();
    let cur: i32 = match store.get(key.as_str()) {
        None => 0,
        Some(v) => crate::codec::parse_i32(v.as_str()),
    };
    if cur < q {
        Err(ProtocolError::InsufficientStock)
    } else {
        store.increment(key.as_str(), -q);
        let cat = item.item_type();
        let mut msg = String::from_str("Removed ");
        msg.append(int_to_string(item.quantity).as_str());
        msg.append(" ");
        msg.append(cat.as_str());
        msg.append(" from inventory");
        Ok(msg)
    }
}

/// The records a node states about itself: one per known category, in the
/// order the categories were first shipped, each carrying the counter as
/// read, or zero where the counter is absent or unreadable.
pub open spec fn inventory_model(store: Store) -> Seq<ItemModel> {
    Seq::new(
        store.members(spec_kinds_set()).len(),
        |i: int|
            ItemModel {
                origin: Seq::empty(),
                item_type: store.members(spec_kinds_set())[i],
                quantity: store.counter(spec_storage_key(store.members(spec_kinds_set())[i])),
            },
    )
}

/// Assembles the node's own snapshot: one record per known category, each
/// with the counter currently on hand.
pub fn all_inventories(store: &Store) -> (r: Vec<InventoryItem>)
    requires
        store.wf(),
    ensures
        models(r@) == inventory_model(*store),
{
    let cats = store.set_members("inventorykinds");
    let mut r: Vec<InventoryItem> = Vec::new();
    let mut i: usize = 0;
    while i < cats.len()
        invariant
            store.wf(),
            i <= cats@.len(),
            crate::store::views_of(cats@) == store.members(spec_kinds_set()),
            r@.len() == i,
            forall|x: int| 0 <= x < i ==> #[trigger] r@[x]@ == inventory_model(*store)[x],
        decreases cats@.len() - i,
    {
        let cat = cats[i].clone();
        let key = category_key(cat.as_str());
        let cur: i32 = match store.get(key.as_str()) {
            None => 0,
            Some(v) => crate::codec::parse_i32(v.as_str()),
        };
        let it = InventoryItem::new(cat, cur);
        proof {
            assert(crate::store::views_of(cats@)[i as int] == cats@[i as int]@);
            assert(it@ == inventory_model(*store)[i as int]);
        }
        r.push(it);
        i = i + 1;
    }
    proof {
        assert(models(r@) =~= inventory_model(*store));
    }
    r
}

} // verus!
