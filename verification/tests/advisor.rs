use pharmacy_inventory::advisor::{suggest_bundles, Advice};
use pharmacy_inventory::product::Product;

fn product(name: &str, category: &str, price_cents: u64, days: u32) -> Product {
    Product {
        name: name.as_bytes().to_vec(),
        category: category.as_bytes().to_vec(),
        price_cents,
        days_to_expiry: days,
    }
}

#[test]
fn no_risk_when_nothing_expires() {
    let inv = vec![
        product("Aspirin", "Painkiller", 500, 90),
        product("C-Vit", "Vitamin", 800, 200),
    ];
    match suggest_bundles(&inv) {
        Advice::NoRisk => {}
        _ => panic!("every product has 90 or more days left"),
    }
}

#[test]
fn no_risk_on_empty_inventory() {
    let inv: Vec<Product> = Vec::new();
    match suggest_bundles(&inv) {
        Advice::NoRisk => {}
        _ => panic!("an empty inventory has no stock at risk"),
    }
}

#[test]
fn immunity_kit_with_urgent_painkiller() {
    let inv = vec![
        product("Aspirin", "Painkiller", 500, 20),
        product("C-Vit", "Vitamin", 800, 60),
    ];
    match suggest_bundles(&inv) {
        Advice::Bundles { immunity, self_care } => {
            let b = immunity.expect("painkiller and vitamin groups are both filled");
            assert_eq!(b.first_name, b"Aspirin".to_vec());
            assert_eq!(b.second_name, b"C-Vit".to_vec());
            assert_eq!(b.original_cents, 1300);
            assert_eq!(b.discount_percent, 50);
            assert_eq!(b.final_cents, 650);
            assert!(self_care.is_none());
        }
        _ => panic!("the immunity rule must fire"),
    }
}

#[test]
fn immunity_kit_discount_follows_painkiller_expiry_only() {
    let inv = vec![
        product("Aspirin", "Painkiller", 500, 30),
        product("C-Vit", "Vitamin", 800, 10),
    ];
    match suggest_bundles(&inv) {
        Advice::Bundles { immunity, .. } => {
            let b = immunity.expect("both groups are filled");
            assert_eq!(b.discount_percent, 20);
            assert_eq!(b.final_cents, 1040);
        }
        _ => panic!("the immunity rule must fire"),
    }
}

#[test]
fn self_care_box_alone() {
    let inv = vec![
        product("Cream", "Skin", 1000, 10),
        product("Shampoo", "Hair", 1000, 10),
    ];
    match suggest_bundles(&inv) {
        Advice::Bundles { immunity, self_care } => {
            assert!(immunity.is_none());
            let b = self_care.expect("skin and hair groups are both filled");
            assert_eq!(b.first_name, b"Cream".to_vec());
            assert_eq!(b.second_name, b"Shampoo".to_vec());
            assert_eq!(b.original_cents, 2000);
            assert_eq!(b.discount_percent, 30);
            assert_eq!(b.final_cents, 1400);
        }
        _ => panic!("the self-care rule must fire"),
    }
}

#[test]
fn both_bundles_in_one_run() {
    let inv = vec![
        product("Aspirin", "Painkiller", 500, 40),
        product("C-Vit", "Vitamin", 800, 60),
        product("Cream", "Skin", 1000, 10),
        product("Shampoo", "Hair", 1000, 10),
    ];
    match suggest_bundles(&inv) {
        Advice::Bundles { immunity, self_care } => {
            let a = immunity.expect("immunity rule fires");
            assert_eq!(a.discount_percent, 20);
            assert_eq!(a.final_cents, 1040);
            let b = self_care.expect("self-care rule fires");
            assert_eq!(b.final_cents, 1400);
        }
        _ => panic!("both rules must fire"),
    }
}

#[test]
fn first_in_inventory_order_wins() {
    let inv = vec![
        product("Cheap", "Painkiller", 100, 80),
        product("Soon", "Painkiller", 900, 5),
        product("C-Vit", "Vitamin", 800, 60),
    ];
    match suggest_bundles(&inv) {
        Advice::Bundles { immunity, .. } => {
            let b = immunity.expect("both groups are filled");
            // The first painkiller by order, not the cheapest or the soonest.
            assert_eq!(b.first_name, b"Cheap".to_vec());
            assert_eq!(b.discount_percent, 20);
        }
        _ => panic!("the immunity rule must fire"),
    }
}

#[test]
fn category_match_is_case_insensitive_substring() {
    let inv = vec![
        product("Ibu", "PAINKILLER", 400, 50),
        product("Multi", "MultiVitamin complex", 600, 70),
    ];
    match suggest_bundles(&inv) {
        Advice::Bundles { immunity, .. } => {
            let b = immunity.expect("keywords match inside mixed-case categories");
            assert_eq!(b.first_name, b"Ibu".to_vec());
            assert_eq!(b.second_name, b"Multi".to_vec());
            assert_eq!(b.original_cents, 1000);
        }
        _ => panic!("the immunity rule must fire"),
    }
}

#[test]
fn unexpired_products_never_take_part() {
    // The only vitamin is not expiring, so the immunity rule cannot fire and
    // the expiring painkiller falls through to clearance.
    let inv = vec![
        product("Aspirin", "Painkiller", 500, 20),
        product("C-Vit", "Vitamin", 800, 90),
    ];
    match suggest_bundles(&inv) {
        Advice::Clearance { items } => {
            assert_eq!(items.len(), 1);
            assert_eq!(items[0].name, b"Aspirin".to_vec());
        }
        _ => panic!("no bundle can fire: the vitamin is not expiring"),
    }
}

#[test]
fn clearance_fallback_for_unmatched_category() {
    let inv = vec![product("Oddment", "Misc", 1000, 10)];
    match suggest_bundles(&inv) {
        Advice::Clearance { items } => {
            assert_eq!(items.len(), 1);
            assert_eq!(items[0].name, b"Oddment".to_vec());
            assert_eq!(items[0].days_left, 10);
            assert_eq!(items[0].discount_percent, 50);
            assert_eq!(items[0].discounted_cents, 500);
        }
        _ => panic!("a lone unmatched product goes to clearance"),
    }
}

#[test]
fn clearance_lists_every_expiring_product_in_order() {
    let inv = vec![
        product("Keep", "Misc", 1000, 200),
        product("Soon", "Misc", 1000, 10),
        product("Later", "Misc", 800, 60),
    ];
    match suggest_bundles(&inv) {
        Advice::Clearance { items } => {
            assert_eq!(items.len(), 2);
            assert_eq!(items[0].name, b"Soon".to_vec());
            assert_eq!(items[0].discount_percent, 50);
            assert_eq!(items[0].discounted_cents, 500);
            assert_eq!(items[1].name, b"Later".to_vec());
            assert_eq!(items[1].discount_percent, 20);
            assert_eq!(items[1].discounted_cents, 640);
        }
        _ => panic!("no bundle rule can fire"),
    }
}
