//! Inventory items: the wire form of one stock record, its normalized
//! category, and the key it is counted under in the ledger store.

use vstd::prelude::*;
use vstd::string::StringExecFns;

use crate::text::norm_seq;
use crate::text::normalize;

verus! {

/// The kinds of stock the organization tracks.
#[derive(Clone, Copy, PartialEq, Eq, Structural, Debug)]
pub enum ItemType {
    Paper,
    Printer,
    Ink,
}

/// The category key of one kind of stock.
pub open spec fn spec_item_type_category(t: ItemType) -> Seq<char> {
    match t {
        ItemType::Paper => "paper"@,
        ItemType::Printer => "printer"@,
        ItemType::Ink => "ink"@,
    }
}

impl ItemType {
    /// The category key this kind of stock is counted under.
    pub fn category(&self) -> (r: &'static str)
        ensures
            r@ == spec_item_type_category(*self),
    {
        match self {
            ItemType::Paper => "paper",
            ItemType::Printer => "printer",
            ItemType::Ink => "ink",
        }
    }
}

/// The mathematical model of one inventory record: an optional origin tag
/// (empty when the record has not passed through an aggregator), the raw
/// item name, and the signed quantity.
pub ghost struct ItemModel {
    pub origin: Seq<char>,
    pub item_type: Seq<char>,
    pub quantity: int,
}

/// One inventory record as it travels on the wire and through the store.
pub struct InventoryItem {
    /// Name of the child node this record was reported by; empty on records
    /// a node assembled about itself.
    pub origin: String,
    /// The human-readable item name as the requester sent it.
    pub item_type: String,
    /// Signed quantity; direction is carried by the operation, and on-hand
    /// counts are always reported non-negative.
    pub quantity: i32,
}

impl View for InventoryItem {
    type V = ItemModel;

    open spec fn view(&self) -> ItemModel {
        ItemModel {
            origin: self.origin@,
            item_type: self.item_type@,
            quantity: self.quantity as int,
        }
    }
}

/// The models of a sequence of items.
pub open spec fn models(items: Seq<InventoryItem>) -> Seq<ItemModel> {
    Seq::new(items.len(), |i: int| items[i]@)
}

/// The ledger key a counter for `cat` lives under.
pub open spec fn spec_storage_key(cat: Seq<char>) -> Seq<char> {
    "inventory:"@ + cat
}

/// Builds the ledger key for an already normalized category.
pub fn category_key(cat: &str) -> (r: String)
    ensures
        r@ == spec_storage_key(cat@),
{
    let mut k = String::from_str("inventory:");
    k.append(cat);
    k
}

impl InventoryItem {
    /// A record a node states about itself: no origin tag.
    pub fn new(item_type: String, quantity: i32) -> (r: Self)
        ensures
            r@.origin == Seq::<char>::empty(),
            r@.item_type == item_type@,
            r@.quantity == quantity as int,
    {
        InventoryItem { origin: String::new(), item_type, quantity }
    }

    /// The normalized category of this item: its name lowercased, with
    /// spaces replaced by underscores.
    pub fn item_type(&self) -> (r: String)
        ensures
            r@ == norm_seq(self@.item_type),
    {
        normalize(self.item_type.as_str())
    }

    /// The ledger key this item's counter lives under.
    pub fn storage_key(&self) -> (r: String)
        ensures
            r@ == spec_storage_key(norm_seq(self@.item_type)),
    {
        let cat = self.item_type();
        category_key(cat.as_str())
    }
}

} // verus!
