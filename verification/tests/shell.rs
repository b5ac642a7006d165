use pharmacy_inventory::product::Product;
use pharmacy_inventory::shell::{
    add_product, parse_choice, parse_days_input, parse_price_input, trim_line, MenuChoice,
};

#[test]
fn trimming_strips_both_ends() {
    assert_eq!(trim_line(&b"  hi there \n".to_vec()), b"hi there".to_vec());
    assert_eq!(trim_line(&b"\t\r\n".to_vec()), b"".to_vec());
    assert_eq!(trim_line(&b"plain".to_vec()), b"plain".to_vec());
    assert_eq!(trim_line(&b"".to_vec()), b"".to_vec());
}

#[test]
fn menu_choices() {
    assert_eq!(parse_choice(&b"1\n".to_vec()), MenuChoice::Add);
    assert_eq!(parse_choice(&b" 2 ".to_vec()), MenuChoice::List);
    assert_eq!(parse_choice(&b"3".to_vec()), MenuChoice::Advise);
    assert_eq!(parse_choice(&b"4\r\n".to_vec()), MenuChoice::Exit);
    assert_eq!(parse_choice(&b"".to_vec()), MenuChoice::Invalid);
    assert_eq!(parse_choice(&b"5".to_vec()), MenuChoice::Invalid);
    assert_eq!(parse_choice(&b"12".to_vec()), MenuChoice::Invalid);
    assert_eq!(parse_choice(&b"exit".to_vec()), MenuChoice::Invalid);
}

#[test]
fn price_inputs_parse_to_cents() {
    assert_eq!(parse_price_input(&b"5\n".to_vec()), 500);
    assert_eq!(parse_price_input(&b"12.5".to_vec()), 1250);
    assert_eq!(parse_price_input(&b"5.25".to_vec()), 525);
    assert_eq!(parse_price_input(&b"0.99".to_vec()), 99);
    assert_eq!(parse_price_input(&b"007".to_vec()), 700);
    assert_eq!(parse_price_input(&b"3.".to_vec()), 300);
    assert_eq!(parse_price_input(&b"0".to_vec()), 0);
}

#[test]
fn bad_price_input_defaults_to_zero() {
    assert_eq!(parse_price_input(&b"abc".to_vec()), 0);
    assert_eq!(parse_price_input(&b"".to_vec()), 0);
    assert_eq!(parse_price_input(&b"-3".to_vec()), 0);
    assert_eq!(parse_price_input(&b"1.234".to_vec()), 0);
    assert_eq!(parse_price_input(&b"3,50".to_vec()), 0);
    assert_eq!(parse_price_input(&b"1000000000".to_vec()), 0);
}

#[test]
fn day_inputs_parse_to_counts() {
    assert_eq!(parse_days_input(&b"20\n".to_vec()), 20);
    assert_eq!(parse_days_input(&b" 0 ".to_vec()), 0);
    assert_eq!(parse_days_input(&b"4294967295".to_vec()), 4294967295);
}

#[test]
fn bad_day_input_defaults_to_a_year() {
    assert_eq!(parse_days_input(&b"soon".to_vec()), 365);
    assert_eq!(parse_days_input(&b"".to_vec()), 365);
    assert_eq!(parse_days_input(&b"-1".to_vec()), 365);
    assert_eq!(parse_days_input(&b"12.5".to_vec()), 365);
    assert_eq!(parse_days_input(&b"4294967296".to_vec()), 365);
}

#[test]
fn add_appends_with_parsed_fields() {
    let mut inv: Vec<Product> = Vec::new();
    add_product(
        &mut inv,
        &b" Aspirin \n".to_vec(),
        &b"Painkiller\n".to_vec(),
        &b"5.50\n".to_vec(),
        &b"20\n".to_vec(),
    );
    assert_eq!(inv.len(), 1);
    assert_eq!(inv[0].name, b"Aspirin".to_vec());
    assert_eq!(inv[0].category, b"Painkiller".to_vec());
    assert_eq!(inv[0].price_cents, 550);
    assert_eq!(inv[0].days_to_expiry, 20);
}

#[test]
fn add_defaults_on_unparsable_inputs() {
    let mut inv: Vec<Product> = Vec::new();
    add_product(
        &mut inv,
        &b"Mystery\n".to_vec(),
        &b"Misc\n".to_vec(),
        &b"cheap\n".to_vec(),
        &b"soon\n".to_vec(),
    );
    assert_eq!(inv.len(), 1);
    assert_eq!(inv[0].price_cents, 0);
    assert_eq!(inv[0].days_to_expiry, 365);
}

#[test]
fn add_keeps_existing_products_in_order() {
    let mut inv: Vec<Product> = Vec::new();
    add_product(
        &mut inv,
        &b"First".to_vec(),
        &b"Misc".to_vec(),
        &b"1".to_vec(),
        &b"10".to_vec(),
    );
    add_product(
        &mut inv,
        &b"Second".to_vec(),
        &b"Misc".to_vec(),
        &b"2".to_vec(),
        &b"20".to_vec(),
    );
    assert_eq!(inv.len(), 2);
    assert_eq!(inv[0].name, b"First".to_vec());
    assert_eq!(inv[1].name, b"Second".to_vec());
    assert_eq!(inv[1].price_cents, 200);
}
