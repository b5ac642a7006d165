use pharmacy_inventory::codec::{decode_inventory, encode_inventory, load_inventory};
use pharmacy_inventory::product::Product;

fn product(name: &str, category: &str, price_cents: u64, days: u32) -> Product {
    Product {
        name: name.as_bytes().to_vec(),
        category: category.as_bytes().to_vec(),
        price_cents,
        days_to_expiry: days,
    }
}

fn assert_same_products(a: &[Product], b: &[Product]) {
    assert_eq!(a.len(), b.len());
    for (x, y) in a.iter().zip(b.iter()) {
        assert_eq!(x.name, y.name);
        assert_eq!(x.category, y.category);
        assert_eq!(x.price_cents, y.price_cents);
        assert_eq!(x.days_to_expiry, y.days_to_expiry);
    }
}

#[test]
fn round_trip_empty() {
    let inv: Vec<Product> = Vec::new();
    let bytes = encode_inventory(&inv);
    assert_eq!(bytes, b"[]".to_vec());
    let back = decode_inventory(&bytes).expect("canonical encoding must parse");
    assert!(back.is_empty());
}

#[test]
fn round_trip_two_products() {
    let inv = vec![
        product("Aspirin", "Painkiller", 500, 20),
        product("C-Vit", "Vitamin", 800, 60),
    ];
    let bytes = encode_inventory(&inv);
    let back = decode_inventory(&bytes).expect("canonical encoding must parse");
    assert_same_products(&inv, &back);
}

#[test]
fn round_trip_awkward_names() {
    let inv = vec![
        product("say \"hi\"", "Misc", 0, 0),
        product("back\\slash", "a\"b\\c", 99_999_999_999, 4_294_967_295),
        product("line\nbreak", "", 1, 365),
    ];
    let bytes = encode_inventory(&inv);
    let back = decode_inventory(&bytes).expect("canonical encoding must parse");
    assert_same_products(&inv, &back);
}

#[test]
fn encoding_is_the_documented_shape() {
    let inv = vec![product("A", "B", 150, 7)];
    let bytes = encode_inventory(&inv);
    let expected = b"[\n{\"name\": \"A\", \"category\": \"B\", \"price\": 1.50, \"days_to_expiry\": 7}\n]";
    assert_eq!(bytes, expected.to_vec());
}

#[test]
fn encoding_escapes_quotes_and_backslashes() {
    let inv = vec![product("a\"b\\", "Misc", 0, 1)];
    let bytes = encode_inventory(&inv);
    let expected =
        b"[\n{\"name\": \"a\\\"b\\\\\", \"category\": \"Misc\", \"price\": 0.00, \"days_to_expiry\": 1}\n]";
    assert_eq!(bytes, expected.to_vec());
}

#[test]
fn decode_rejects_garbage() {
    assert!(decode_inventory(&b"not an inventory".to_vec()).is_none());
    assert!(decode_inventory(&b"".to_vec()).is_none());
    assert!(decode_inventory(&b"[".to_vec()).is_none());
    assert!(decode_inventory(&b"{}".to_vec()).is_none());
    assert!(decode_inventory(&b"[\n]".to_vec()).is_none());
}

#[test]
fn decode_rejects_truncated_record() {
    let inv = vec![product("Aspirin", "Painkiller", 500, 20)];
    let mut bytes = encode_inventory(&inv);
    bytes.pop();
    assert!(decode_inventory(&bytes).is_none());
}

#[test]
fn decode_rejects_out_of_range_numbers() {
    // More than two cent digits.
    let text = b"[\n{\"name\": \"A\", \"category\": \"B\", \"price\": 1.505, \"days_to_expiry\": 7}\n]";
    assert!(decode_inventory(&text.to_vec()).is_none());
    // A day count that does not fit the day field.
    let text = b"[\n{\"name\": \"A\", \"category\": \"B\", \"price\": 1.50, \"days_to_expiry\": 4294967296}\n]";
    assert!(decode_inventory(&text.to_vec()).is_none());
    // A leading zero is not canonical.
    let text = b"[\n{\"name\": \"A\", \"category\": \"B\", \"price\": 01.50, \"days_to_expiry\": 7}\n]";
    assert!(decode_inventory(&text.to_vec()).is_none());
}

#[test]
fn decode_parses_canonical_text() {
    let text = b"[\n{\"name\": \"Aspirin\", \"category\": \"Painkiller\", \"price\": 5.00, \"days_to_expiry\": 20},\n{\"name\": \"C-Vit\", \"category\": \"Vitamin\", \"price\": 8.00, \"days_to_expiry\": 60}\n]";
    let back = decode_inventory(&text.to_vec()).expect("canonical text must parse");
    let expected = vec![
        product("Aspirin", "Painkiller", 500, 20),
        product("C-Vit", "Vitamin", 800, 60),
    ];
    assert_same_products(&expected, &back);
}

#[test]
fn load_missing_file_gives_empty_inventory() {
    let loaded = load_inventory(&None);
    assert!(loaded.is_empty());
}

#[test]
fn load_invalid_content_gives_empty_inventory() {
    let loaded = load_inventory(&Some(b"{\"oops\": 1}".to_vec()));
    assert!(loaded.is_empty());
    let loaded = load_inventory(&Some(b"".to_vec()));
    assert!(loaded.is_empty());
}

#[test]
fn load_after_save_gives_the_saved_inventory() {
    let inv = vec![
        product("Cream", "Skin", 1000, 10),
        product("Shampoo", "Hair", 1000, 10),
    ];
    let loaded = load_inventory(&Some(encode_inventory(&inv)));
    assert_same_products(&inv, &loaded);
}
