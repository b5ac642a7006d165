//! The bundle advisor: a pure function of the inventory. It looks only at
//! expiring products (fewer than 90 days left), groups them by a
//! case-insensitive substring match of the category against four fixed
//! keywords, and reports either two-product bundles, a per-item clearance
//! list, or that no stock is at risk.

use vstd::prelude::*;

use crate::product::{Product, SpecProduct, inv_view, inv_wf, MAX_PRICE_CENTS};

verus! {

/// ASCII lowercase of one byte.
pub open spec fn lower_byte(b: u8) -> u8 {
    if 65 <= b <= 90 {
        (b + 32) as u8
    } else {
        b
    }
}

pub open spec fn lower_seq(s: Seq<u8>) -> Seq<u8> {
    s.map_values(|b: u8| lower_byte(b))
}

/// The keyword occurs in the lowercased category at offset `i`.
pub open spec fn matches_at(cat: Seq<u8>, kw: Seq<u8>, i: int) -> bool {
    0 <= i && i + kw.len() <= cat.len() && lower_seq(cat).subrange(i, i + kw.len()) == kw
}

/// Case-insensitive substring match of the category against a keyword.
pub open spec fn category_matches(cat: Seq<u8>, kw: Seq<u8>) -> bool {
    exists|i: int| matches_at(cat, kw, i)
}

/// The bytes of `pain`.
pub open spec fn kw_pain() -> Seq<u8> {
    seq![112u8, 97u8, 105u8, 110u8]
}

/// The bytes of `vit`.
pub open spec fn kw_vit() -> Seq<u8> {
    seq![118u8, 105u8, 116u8]
}

/// The bytes of `skin`.
pub open spec fn kw_skin() -> Seq<u8> {
    seq![115u8, 107u8, 105u8, 110u8]
}

/// The bytes of `hair`.
pub open spec fn kw_hair() -> Seq<u8> {
    seq![104u8, 97u8, 105u8, 114u8]
}

/// A product with fewer than 90 days left.
pub open spec fn is_expiring(p: SpecProduct) -> bool {
    p.days_to_expiry < 90
}

/// Membership in a category group: expiring, and the category matches.
pub open spec fn in_group(p: SpecProduct, kw: Seq<u8>) -> bool {
    is_expiring(p) && category_matches(p.category, kw)
}

/// The first product of the inventory, in order, that belongs to the group.
pub open spec fn group_first(inv: Seq<SpecProduct>, kw: Seq<u8>) -> Option<SpecProduct>
    decreases inv.len(),
{
    if inv.len() == 0 {
        None
    } else if in_group(inv[0], kw) {
        Some(inv[0])
    } else {
        group_first(inv.skip(1), kw)
    }
}

/// Some product of the inventory is expiring.
pub open spec fn has_expiring(inv: Seq<SpecProduct>) -> bool {
    exists|i: int| 0 <= i < inv.len() && is_expiring(#[trigger] inv[i])
}

/// The discount that expiry urgency earns: half off under 30 days, a fifth
/// off otherwise.
pub open spec fn discount_percent_for(days: int) -> int {
    if days < 30 {
        50
    } else {
        20
    }
}

/// A discounted amount in cents, rounded down.
pub open spec fn discounted(cents: int, percent: int) -> int {
    cents * (100 - percent) / 100
}

/// A two-product promotional pairing.
pub struct Bundle {
    pub first_name: Vec<u8>,
    pub second_name: Vec<u8>,
    pub original_cents: u64,
    pub discount_percent: u64,
    pub final_cents: u64,
}

/// The mathematical image of a bundle.
pub struct SpecBundle {
    pub first_name: Seq<u8>,
    pub second_name: Seq<u8>,
    pub original_cents: int,
    pub discount_percent: int,
    pub final_cents: int,
}

impl View for Bundle {
    type V = SpecBundle;

    open spec fn view(&self) -> SpecBundle {
        SpecBundle {
            first_name: self.first_name@,
            second_name: self.second_name@,
            original_cents: self.original_cents as int,
            discount_percent: self.discount_percent as int,
            final_cents: self.final_cents as int,
        }
    }
}

/// The Immunity Defense Kit: first painkiller and first vitamin; the
/// discount follows the painkiller's expiry alone.
pub open spec fn spec_immunity_bundle(p: SpecProduct, v: SpecProduct) -> SpecBundle {
    SpecBundle {
        first_name: p.name,
        second_name: v.name,
        original_cents: p.price_cents + v.price_cents,
        discount_percent: discount_percent_for(p.days_to_expiry),
        final_cents: discounted(
            p.price_cents + v.price_cents,
            discount_percent_for(p.days_to_expiry),
        ),
    }
}

/// The Self-Care Box: first skin-care and first hair-care item, at a fixed
/// discount of 30 percent.
pub open spec fn spec_self_care_bundle(s: SpecProduct, h: SpecProduct) -> SpecBundle {
    SpecBundle {
        first_name: s.name,
        second_name: h.name,
        original_cents: s.price_cents + h.price_cents,
        discount_percent: 30,
        final_cents: discounted(s.price_cents + h.price_cents, 30),
    }
}

/// One line of the per-item clearance fallback.
pub struct ClearanceItem {
    pub name: Vec<u8>,
    pub days_left: u32,
    pub discounted_cents: u64,
    pub discount_percent: u64,
}

/// The mathematical image of a clearance line.
pub struct SpecClearanceItem {
    pub name: Seq<u8>,
    pub days_left: int,
    pub discounted_cents: int,
    pub discount_percent: int,
}

impl View for ClearanceItem {
    type V = SpecClearanceItem;

    open spec fn view(&self) -> SpecClearanceItem {
        SpecClearanceItem {
            name: self.name@,
            days_left: self.days_left as int,
            discounted_cents: self.discounted_cents as int,
            discount_percent: self.discount_percent as int,
        }
    }
}

pub open spec fn spec_clearance_item(p: SpecProduct) -> SpecClearanceItem {
    SpecClearanceItem {
        name: p.name,
        days_left: p.days_to_expiry,
        discounted_cents: discounted(p.price_cents, discount_percent_for(p.days_to_expiry)),
        discount_percent: discount_percent_for(p.days_to_expiry),
    }
}

/// The clearance lines of every expiring product, in inventory order.
pub open spec fn spec_clearance_list(inv: Seq<SpecProduct>) -> Seq<SpecClearanceItem> {
    inv.filter(|p: SpecProduct| is_expiring(p)).map_values(|p: SpecProduct| spec_clearance_item(p))
}

pub open spec fn clearance_view(items: Seq<ClearanceItem>) -> Seq<SpecClearanceItem> {
    items.map_values(|c: ClearanceItem| c@)
}

/// What one advisory run reports.
pub enum Advice {
    /// No product is expiring: nothing is at risk.
    NoRisk,
    /// At least one bundle rule fired; each that did carries its bundle.
    Bundles { immunity: Option<Bundle>, self_care: Option<Bundle> },
    /// No bundle rule fired: every expiring product, listed singly.
    Clearance { items: Vec<ClearanceItem> },
}

fn byte_lower(b: u8) -> (r: u8)
    ensures
        r == lower_byte(b),
{
    if 65 <= b && b <= 90 {
        b + 32
    } else {
        b
    }
}

/// Case-insensitive substring search of a keyword in a category.
fn category_contains(cat: &Vec<u8>, kw: &Vec<u8>) -> (r: bool)
    ensures
        r == category_matches(cat@, kw@),
{
    if kw.len() == 0 {
        proof {
            assert(lower_seq(cat@).subrange(0, 0) =~= kw@);
            assert(matches_at(cat@, kw@, 0));
        }
        return true;
    }
    if kw.len() > cat.len() {
        proof {
            assert(forall|i: int| !matches_at(cat@, kw@, i));
        }
        return false;
    }
    let cl: usize = cat.len();
    let kl: usize = kw.len();
    let starts: usize = cl - kl + 1;
    let mut i: usize = 0;
    while i < starts
        invariant
            kl == kw@.len(),
            cl == cat@.len(),
            1 <= kl <= cl,
            starts == cl - kl + 1,
            i <= starts,
            forall|s: int| 0 <= s < i ==> !matches_at(cat@, kw@, s),
        decreases starts - i,
    {
        let mut j: usize = 0;
        let mut all_eq = true;
        while j < kl
            invariant
                kl == kw@.len(),
                cl == cat@.len(),
                i + kl <= cl,
                j <= kl,
                all_eq ==> forall|k: int|
                    0 <= k < j ==> lower_byte(#[trigger] cat@[i + k]) == kw@[k],
                !all_eq ==> !matches_at(cat@, kw@, i as int),
            decreases kl - j,
        {
            if byte_lower(cat[i + j]) != kw[j] {
                proof {
                    assert(lower_seq(cat@)[i + j] == lower_byte(cat@[i + j]));
                    if matches_at(cat@, kw@, i as int) {
                        assert(lower_seq(cat@).subrange(i as int, i + kw@.len())[j as int]
                            == kw@[j as int]);
                    }
                }
                all_eq = false;
            }
            j = j + 1;
        }
        if all_eq {
            proof {
                assert forall|k: int| 0 <= k < kw@.len() implies lower_seq(cat@).subrange(
                    i as int,
                    i + kw@.len(),
                )[k] == kw@[k] by {
                    assert(lower_seq(cat@).subrange(i as int, i + kw@.len())[k] == lower_seq(
                        cat@,
                    )[i + k]);
                    assert(lower_seq(cat@)[i + k] == lower_byte(cat@[i + k]));
                    assert(lower_byte(cat@[i + k]) == kw@[k]);
                }
                assert(lower_seq(cat@).subrange(i as int, i + kw@.len()) =~= kw@);
                assert(matches_at(cat@, kw@, i as int));
            }
            return true;
        }
        i = i + 1;
    }
    proof {
        assert(forall|s: int| !matches_at(cat@, kw@, s)) by {
            assert(forall|s: int| s >= starts ==> !matches_at(cat@, kw@, s));
        }
    }
    false
}

/// Whether the product belongs to the keyword's group.
fn product_in_group(p: &Product, kw: &Vec<u8>) -> (r: bool)
    ensures
        r == in_group(p@, kw@),
{
    p.days_to_expiry < 90 && category_contains(&p.category, kw)
}

/// The index of the first product of the group, in inventory order.
fn find_first_in_group(inv: &Vec<Product>, kw: &Vec<u8>) -> (r: Option<usize>)
    ensures
        match r {
            Some(i) => i < inv@.len() && in_group(inv@[i as int]@, kw@) && group_first(
                inv_view(inv@),
                kw@,
            ) == Some(inv@[i as int]@),
            None => group_first(inv_view(inv@), kw@) is None,
        },
{
    let ghost view = inv_view(inv@);
    proof {
        assert(view.skip(0) =~= view);
    }
    let mut i: usize = 0;
    while i < inv.len()
        invariant
            i <= inv@.len(),
            view == inv_view(inv@),
            group_first(view, kw@) == group_first(view.skip(i as int), kw@),
        decreases inv@.len() - i,
    {
        proof {
            assert(view.skip(i as int)[0] == view[i as int]);
            assert(view.skip(i as int).skip(1) =~= view.skip(i + 1));
        }
        if product_in_group(&inv[i], kw) {
            return Some(i);
        }
        i = i + 1;
    }
    proof {
        assert(view.skip(view.len() as int).len() == 0);
    }
    None
}

fn any_expiring(inv: &Vec<Product>) -> (r: bool)
    ensures
        r == has_expiring(inv_view(inv@)),
{
    let ghost view = inv_view(inv@);
    let mut i: usize = 0;
    while i < inv.len()
        invariant
            i <= inv@.len(),
            view == inv_view(inv@),
            forall|k: int| 0 <= k < i ==> !is_expiring(#[trigger] view[k]),
        decreases inv@.len() - i,
    {
        if inv[i].days_to_expiry < 90 {
            proof {
                assert(is_expiring(view[i as int]));
            }
            return true;
        }
        i = i + 1;
    }
    false
}

/// A discounted amount in cents, rounded down.
fn apply_discount(cents: u64, percent: u64) -> (r: u64)
    requires
        cents <= 2 * MAX_PRICE_CENTS,
        percent <= 100,
    ensures
        r == discounted(cents as int, percent as int),
{
    proof {
        assert(cents * (100 - percent) <= 2 * MAX_PRICE_CENTS * 100) by (nonlinear_arith)
            requires
                cents <= 2 * MAX_PRICE_CENTS,
                percent <= 100,
        ;
    }
    cents * (100 - percent) / 100
}

/// Appending a product extends the clearance list exactly when it is
/// expiring.
proof fn lemma_clearance_snoc(s: Seq<SpecProduct>, p: SpecProduct)
    ensures
        is_expiring(p) ==> spec_clearance_list(s.push(p)) == spec_clearance_list(s).push(
            spec_clearance_item(p),
        ),
        !is_expiring(p) ==> spec_clearance_list(s.push(p)) == spec_clearance_list(s),
{
    let pred = |q: SpecProduct| is_expiring(q);
    s.lemma_filter_push(p, pred);
    if is_expiring(p) {
        assert(s.push(p).filter(pred) == s.filter(pred).push(p));
        assert(spec_clearance_list(s.push(p)) =~= spec_clearance_list(s).push(
            spec_clearance_item(p),
        ));
    } else {
        assert(s.push(p).filter(pred) == s.filter(pred));
        assert(spec_clearance_list(s.push(p)) =~= spec_clearance_list(s));
    }
}

/// The clearance lines of every expiring product, in inventory order.
fn collect_clearance(inv: &Vec<Product>) -> (r: Vec<ClearanceItem>)
    requires
        inv_wf(inv_view(inv@)),
    ensures
        clearance_view(r@) == spec_clearance_list(inv_view(inv@)),
{
    let ghost view = inv_view(inv@);
    let mut items: Vec<ClearanceItem> = Vec::new();
    let mut i: usize = 0;
    proof {
        assert(clearance_view(items@) =~= spec_clearance_list(view.take(0)));
        assert(view.take(0) =~= Seq::<SpecProduct>::empty());
    }
    while i < inv.len()
        invariant
            i <= inv@.len(),
            view == inv_view(inv@),
            inv_wf(view),
            clearance_view(items@) == spec_clearance_list(view.take(i as int)),
        decreases inv@.len() - i,
    {
        let p = &inv[i];
        proof {
            assert(view[i as int] == inv@[i as int]@);
            assert(view[i as int].wf());
            assert(view.take(i + 1) =~= view.take(i as int).push(view[i as int]));
            lemma_clearance_snoc(view.take(i as int), view[i as int]);
        }
        if p.days_to_expiry < 90 {
            let percent: u64 = if p.days_to_expiry < 30 {
                50
            } else {
                20
            };
            let item = ClearanceItem {
                name: p.name.clone(),
                days_left: p.days_to_expiry,
                discounted_cents: apply_discount(p.price_cents, percent),
                discount_percent: percent,
            };
            let ghost pre = items@;
            items.push(item);
            proof {
                assert(clearance_view(items@) =~= clearance_view(pre).push(item@));
                assert(item@ == spec_clearance_item(view[i as int]));
            }
        }
        i = i + 1;
    }
    proof {
        assert(view.take(view.len() as int) =~= view);
    }
    items
}

/// The advisor. Exactly one of the three shapes comes back: no stock at
/// risk when nothing is expiring; otherwise the bundles of whichever of the
/// two rules fired, built from the first member of each group in inventory
/// order; otherwise the full clearance list.
pub fn suggest_bundles(inv: &Vec<Product>) -> (r: Advice)
    requires
        inv_wf(inv_view(inv@)),
    ensures
        (r is NoRisk) <==> !has_expiring(inv_view(inv@)),
        match r {
            Advice::NoRisk => true,
            Advice::Bundles { immunity, self_care } => {
                let v = inv_view(inv@);
                &&& (immunity is Some || self_care is Some)
                &&& (match (group_first(v, kw_pain()), group_first(v, kw_vit())) {
                    (Some(p), Some(vi)) => match immunity {
                        Some(b) => b@ == spec_immunity_bundle(p, vi),
                        None => false,
                    },
                    _ => immunity is None,
                })
                &&& (match (group_first(v, kw_skin()), group_first(v, kw_hair())) {
                    (Some(s), Some(h)) => match self_care {
                        Some(b) => b@ == spec_self_care_bundle(s, h),
                        None => false,
                    },
                    _ => self_care is None,
                })
            },
            Advice::Clearance { items } => {
                let v = inv_view(inv@);
                &&& !(group_first(v, kw_pain()) is Some && group_first(v, kw_vit()) is Some)
                &&& !(group_first(v, kw_skin()) is Some && group_first(v, kw_hair()) is Some)
                &&& clearance_view(items@) == spec_clearance_list(v)
            },
        },
{
    let ghost view = inv_view(inv@);
    if !any_expiring(inv) {
        return Advice::NoRisk;
    }
    let kwp: Vec<u8> = vec![112u8, 97u8, 105u8, 110u8];
    let kwv: Vec<u8> = vec![118u8, 105u8, 116u8];
    let kws: Vec<u8> = vec![115u8, 107u8, 105u8, 110u8];
    let kwh: Vec<u8> = vec![104u8, 97u8, 105u8, 114u8];
    proof {
        assert(kwp@ =~= kw_pain());
        assert(kwv@ =~= kw_vit());
        assert(kws@ =~= kw_skin());
        assert(kwh@ =~= kw_hair());
    }
    let pain = find_first_in_group(inv, &kwp);
    let vit = find_first_in_group(inv, &kwv);
    let skin = find_first_in_group(inv, &kws);
    let hair = find_first_in_group(inv, &kwh);
    let immunity: Option<Bundle> = match (pain, vit) {
        (Some(pi), Some(vi)) => {
            let p = &inv[pi];
            let v = &inv[vi];
            proof {
                assert(view[pi as int].wf());
                assert(view[vi as int].wf());
            }
            let original: u64 = p.price_cents + v.price_cents;
            let percent: u64 = if p.days_to_expiry < 30 {
                50
            } else {
                20
            };
            let fin: u64 = apply_discount(original, percent);
            Some(
                Bundle {
                    first_name: p.name.clone(),
                    second_name: v.name.clone(),
                    original_cents: original,
                    discount_percent: percent,
                    final_cents: fin,
                },
            )
        },
        _ => None,
    };
    let self_care: Option<Bundle> = match (skin, hair) {
        (Some(si), Some(hi)) => {
            let s = &inv[si];
            let h = &inv[hi];
            proof {
                assert(view[si as int].wf());
                assert(view[hi as int].wf());
            }
            let original: u64 = s.price_cents + h.price_cents;
            let fin: u64 = apply_discount(original, 30);
            Some(
                Bundle {
                    first_name: s.name.clone(),
                    second_name: h.name.clone(),
                    original_cents: original,
                    discount_percent: 30,
                    final_cents: fin,
                },
            )
        },
        _ => None,
    };
    if immunity.is_some() || self_care.is_some() {
        Advice::Bundles { immunity, self_care }
    } else {
        Advice::Clearance { items: collect_clearance(inv) }
    }
}

/// Expiry filter: the advisor never considers a product with 90 or more
/// days left. Whatever heads a category group is expiring, and so is the
/// product behind every clearance line.
pub proof fn lemma_expiry_filter(inv: Seq<SpecProduct>, kw: Seq<u8>)
    ensures
        match group_first(inv, kw) {
            Some(p) => is_expiring(p),
            None => true,
        },
        forall|j: int|
            0 <= j < spec_clearance_list(inv).len() ==> #[trigger] spec_clearance_list(
                inv,
            )[j].days_left < 90,
    decreases inv.len(),
{
    if inv.len() > 0 && !in_group(inv[0], kw) {
        lemma_expiry_filter(inv.skip(1), kw);
    }
    let pred = |p: SpecProduct| is_expiring(p);
    assert forall|j: int| 0 <= j < spec_clearance_list(inv).len() implies #[trigger]
        spec_clearance_list(inv)[j].days_left < 90 by {
        inv.lemma_filter_pred(pred, j);
        assert(spec_clearance_list(inv)[j] == spec_clearance_item(inv.filter(pred)[j]));
    }
}

} // verus!
