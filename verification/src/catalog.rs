//! The catalog: an immutable ordered sequence of purchasable items, each with
//! a strictly positive value in minor currency units.

use vstd::prelude::*;

verus! {

/// One purchasable entry: a display name and its value in minor currency
/// units. Values are integers so that equality against a target is exact.
pub struct Item {
    pub name: String,
    pub value: u64,
}

impl Clone for Item {
    fn clone(&self) -> (r: Self)
        ensures
            r == *self,
    {
        Item { name: self.name.clone(), value: self.value }
    }
}

/// Read-only ordered sequence of items, fixed for one run. Construction
/// rejects any item whose value is not strictly positive, so every catalog
/// in existence satisfies `wf`.
pub struct Catalog {
    items: Vec<Item>,
}

impl View for Catalog {
    type V = Seq<Item>;

    closed spec fn view(&self) -> Seq<Item> {
        self.items@
    }
}

impl Catalog {
    /// Every item value is strictly positive.
    pub open spec fn wf(&self) -> bool {
        forall|j: int| 0 <= j < self@.len() ==> #[trigger] self@[j].value > 0
    }

    /// Accepts the item list exactly when every value is strictly positive.
    pub fn new(items: Vec<Item>) -> (r: Option<Catalog>)
        ensures
            match r {
                Some(c) => c@ == items@ && c.wf(),
                None => exists|j: int| 0 <= j < items@.len() && #[trigger] items@[j].value == 0,
            },
    {
        let mut k: usize = 0;
        while k < items.len()
            invariant
                k <= items@.len(),
                forall|j: int| 0 <= j < k ==> #[trigger] items@[j].value > 0,
            decreases items@.len() - k,
        {
            if items[k].value == 0 {
                return None;
            }
            k = k + 1;
        }
        Some(Catalog { items })
    }

    /// The number of items.
    pub fn len(&self) -> (n: usize)
        ensures
            n == self@.len(),
    {
        self.items.len()
    }

    /// The item at position `j`.
    pub fn item_at(&self, j: usize) -> (it: &Item)
        requires
            j < self@.len(),
        ensures
            *it == self@[j as int],
    {
        &self.items[j]
    }
}

} // verus!
