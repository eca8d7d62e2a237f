//! The product record that the store keeps.

use vstd::prelude::*;

verus! {

/// One inventory record. The name doubles as the key under which the record
/// is filed; nothing beyond that is assumed of the fields, and no field is
/// validated here: the input boundary is expected to reject blank text and
/// negative numbers before a `Product` is built. Prices are carried in minor
/// currency units (cents) so that they stay exact integers.
pub struct Product {
    pub name: String,
    pub code: String,
    pub cost_cents: u64,
    pub sale_cents: u64,
    pub quantity: i16,
    pub provider: String,
}

impl Clone for Product {
    /// A clone is equal to the record it was taken from.
    fn clone(&self) -> (r: Self)
        ensures
            r == *self,
    {
        Product {
            name: self.name.clone(),
            code: self.code.clone(),
            cost_cents: self.cost_cents,
            sale_cents: self.sale_cents,
            quantity: self.quantity,
            provider: self.provider.clone(),
        }
    }
}

} // verus!
