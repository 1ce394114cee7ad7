//! The unit of data that flows between knots.
use vstd::prelude::*;
use crate::json::{Json, JsonValue};

verus! {

/// One item: a JSON value.
pub struct Item {
    pub json: JsonValue,
}

impl View for Item {
    type V = Json;

    open spec fn view(&self) -> Json {
        self.json@
    }
}

impl Item {
    /// An item holding `json`.
    pub fn new(json: JsonValue) -> (item: Item)
        ensures
            item@ == json@,
    {
        Item { json }
    }

    /// A copy of the item.
    pub fn copy(&self) -> (r: Item)
        ensures
            r@ == self@,
    {
        Item { json: self.json.copy() }
    }
}

impl From<JsonValue> for Item {
    /// An item holding `json`.
    fn from(json: JsonValue) -> (item: Item) {
        Item { json }
    }
}

impl vstd::std_specs::convert::FromSpecImpl<JsonValue> for Item {
    open spec fn obeys_from_spec() -> bool {
        true
    }

    open spec fn from_spec(json: JsonValue) -> Item {
        Item { json }
    }
}

/// Copies of all items, in order.
pub fn copy_items(items: &Vec<Item>) -> (out: Vec<Item>)
    ensures
        out@.len() == items@.len(),
        forall|i: int| 0 <= i < items@.len() ==> (#[trigger] out@[i])@ == items@[i]@,
{
    let mut out: Vec<Item> = Vec::new();
    let mut i: usize = 0;
    while i < items.len()
        invariant
            i <= items.len(),
            out@.len() == i,
            forall|k: int| 0 <= k < i ==> (#[trigger] out@[k])@ == items@[k]@,
        decreases items.len() - i,
    {
        out.push(items[i].copy());
        i = i + 1;
    }
    out
}

/// The models of a sequence of items.
pub open spec fn items_view(s: Seq<Item>) -> Seq<Json> {
    s.map_values(|i: Item| i@)
}

} // verus!
