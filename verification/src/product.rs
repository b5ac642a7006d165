//! The product model: a stock item with name, category, a fixed-point price
//! in cents, and a count of days until expiry, together with its
//! mathematical image and well-formedness.

use vstd::prelude::*;

verus! {

/// Largest price, in cents, that a product may carry. Keeping prices below
/// this bound lets every sum and discount in the library stay inside `u64`.
pub const MAX_PRICE_CENTS: u64 = 99_999_999_999;

/// A single stock item. The text fields hold the UTF-8 bytes of the name and
/// the category; the price is a fixed-point amount in cents.
pub struct Product {
    pub name: Vec<u8>,
    pub category: Vec<u8>,
    pub price_cents: u64,
    pub days_to_expiry: u32,
}

/// The mathematical image of a product.
pub struct SpecProduct {
    pub name: Seq<u8>,
    pub category: Seq<u8>,
    pub price_cents: int,
    pub days_to_expiry: int,
}

impl View for Product {
    type V = SpecProduct;

    open spec fn view(&self) -> SpecProduct {
        SpecProduct {
            name: self.name@,
            category: self.category@,
            price_cents: self.price_cents as int,
            days_to_expiry: self.days_to_expiry as int,
        }
    }
}

impl SpecProduct {
    /// A product is well formed when its numeric fields fit the ranges the
    /// executable representation can carry.
    pub open spec fn wf(self) -> bool {
        &&& 0 <= self.price_cents <= MAX_PRICE_CENTS
        &&& 0 <= self.days_to_expiry <= u32::MAX
    }
}

impl Product {
    /// Whether this product's price lies within the representable bound.
    pub fn is_wf(&self) -> (r: bool)
        ensures
            r == self@.wf(),
    {
        self.price_cents <= MAX_PRICE_CENTS
    }
}

/// The mathematical image of an inventory: the sequence of product images,
/// in the same order.
pub open spec fn inv_view(s: Seq<Product>) -> Seq<SpecProduct> {
    s.map_values(|p: Product| p@)
}

/// Every product of the sequence is well formed.
pub open spec fn inv_wf(s: Seq<SpecProduct>) -> bool {
    forall|i: int| 0 <= i < s.len() ==> (#[trigger] s[i]).wf()
}

} // verus!
