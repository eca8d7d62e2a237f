use inventario::product::Product;
use inventario::store::Inventory;

fn record(name: &str, code: &str, cost_cents: u64, sale_cents: u64, quantity: i16, provider: &str) -> Product {
    Product {
        name: name.to_owned(),
        code: code.to_owned(),
        cost_cents,
        sale_cents,
        quantity,
        provider: provider.to_owned(),
    }
}

fn assert_same_record(got: &Product, want: &Product) {
    assert_eq!(got.name, want.name);
    assert_eq!(got.code, want.code);
    assert_eq!(got.cost_cents, want.cost_cents);
    assert_eq!(got.sale_cents, want.sale_cents);
    assert_eq!(got.quantity, want.quantity);
    assert_eq!(got.provider, want.provider);
}

#[test]
fn new_store_is_empty() {
    let inv = Inventory::new();
    assert!(inv.is_empty());
    assert!(inv.lookup("Pen").is_empty());
    assert!(inv.all_products().is_empty());
}

#[test]
fn insert_then_lookup_appends_at_the_back() {
    let mut inv = Inventory::new();
    inv.insert("Pen".to_owned(), record("Pen", "P1", 100, 200, 10, "Acme"));
    let got = inv.lookup("Pen");
    assert_eq!(got.len(), 1);
    assert_eq!(got[got.len() - 1].code, "P1");

    inv.insert("Pen".to_owned(), record("Pen", "P2", 150, 250, 5, "Beta"));
    let got = inv.lookup("Pen");
    assert_eq!(got.len(), 2);
    assert_eq!(got[got.len() - 1].code, "P2");
}

#[test]
fn duplicate_inserts_keep_both_in_insertion_order() {
    let mut inv = Inventory::new();
    let first = record("Pen", "P1", 100, 200, 10, "Acme");
    let second = record("Pen", "P2", 150, 250, 5, "Beta");
    assert!(!inv.insert("Pen".to_owned(), first.clone()));
    assert!(inv.insert("Pen".to_owned(), second.clone()));
    let got = inv.lookup("Pen");
    assert_eq!(got.len(), 2);
    assert_same_record(&got[0], &first);
    assert_same_record(&got[1], &second);
}

#[test]
fn modify_singleton_always_succeeds_in_place() {
    let mut inv = Inventory::new();
    inv.insert("Pen".to_owned(), record("Pen", "P1", 100, 200, 10, "Acme"));
    let replacement = record("Pen", "P9", 300, 400, 7, "Gamma");
    assert!(inv.modify("Pen", 1, replacement.clone()));
    let got = inv.lookup("Pen");
    assert_eq!(got.len(), 1);
    assert_same_record(&got[0], &replacement);
}

#[test]
fn modify_multi_replaces_exactly_the_chosen_record() {
    let mut inv = Inventory::new();
    inv.insert("Pen".to_owned(), record("Pen", "P1", 100, 200, 10, "Acme"));
    inv.insert("Pen".to_owned(), record("Pen", "P2", 150, 250, 5, "Beta"));
    inv.insert("Pen".to_owned(), record("Pen", "P3", 170, 270, 3, "Gamma"));
    let replacement = record("Pen", "P9", 300, 400, 7, "Delta");
    assert!(inv.modify("Pen", 2, replacement.clone()));
    let got = inv.lookup("Pen");
    assert_eq!(got.len(), 3);
    assert_eq!(got[0].code, "P1");
    assert_same_record(&got[1], &replacement);
    assert_eq!(got[2].code, "P3");
}

#[test]
fn modify_absent_key_fails_without_change() {
    let mut inv = Inventory::new();
    inv.insert("Pen".to_owned(), record("Pen", "P1", 100, 200, 10, "Acme"));
    assert!(!inv.modify("Ink", 1, record("Ink", "I1", 90, 180, 2, "Acme")));
    assert!(inv.lookup("Ink").is_empty());
    assert_eq!(inv.lookup("Pen").len(), 1);
}

#[test]
fn modify_emptied_bucket_fails_without_change() {
    let mut inv = Inventory::new();
    inv.insert("Pen".to_owned(), record("Pen", "P1", 100, 200, 10, "Acme"));
    inv.delete("Pen", 1);
    assert!(!inv.modify("Pen", 1, record("Pen", "P9", 300, 400, 7, "Delta")));
    assert!(inv.lookup("Pen").is_empty());
}

#[test]
fn delete_multi_excises_exactly_the_chosen_record() {
    let mut inv = Inventory::new();
    inv.insert("Pen".to_owned(), record("Pen", "P1", 100, 200, 10, "Acme"));
    inv.insert("Pen".to_owned(), record("Pen", "P2", 150, 250, 5, "Beta"));
    inv.insert("Pen".to_owned(), record("Pen", "P3", 170, 270, 3, "Gamma"));
    inv.delete("Pen", 2);
    let got = inv.lookup("Pen");
    assert_eq!(got.len(), 2);
    assert_eq!(got[0].code, "P1");
    assert_eq!(got[1].code, "P3");
}

#[test]
fn delete_singleton_empties_bucket_but_keeps_key() {
    let mut inv = Inventory::new();
    inv.insert("Pen".to_owned(), record("Pen", "P1", 100, 200, 10, "Acme"));
    inv.delete("Pen", 1);
    assert!(inv.lookup("Pen").is_empty());
    // The key stays mapped: the store still counts as non-empty.
    assert!(!inv.is_empty());
    // A fresh insert under the emptied key is not a duplicate.
    assert!(!inv.insert("Pen".to_owned(), record("Pen", "P2", 150, 250, 5, "Beta")));
    assert_eq!(inv.lookup("Pen").len(), 1);
}

#[test]
fn delete_absent_key_is_a_no_op() {
    let mut inv = Inventory::new();
    inv.insert("Pen".to_owned(), record("Pen", "P1", 100, 200, 10, "Acme"));
    inv.delete("Ink", 1);
    assert_eq!(inv.lookup("Pen").len(), 1);
    assert!(inv.lookup("Ink").is_empty());
}

#[test]
fn lookup_absent_key_returns_empty() {
    let inv = Inventory::new();
    assert!(inv.lookup("Ink").is_empty());
    let mut inv = Inventory::new();
    inv.insert("Pen".to_owned(), record("Pen", "P1", 100, 200, 10, "Acme"));
    assert!(inv.lookup("Ink").is_empty());
}

#[test]
fn all_products_enumerates_every_bucket_in_order() {
    let mut inv = Inventory::new();
    inv.insert("Pen".to_owned(), record("Pen", "P1", 100, 200, 10, "Acme"));
    inv.insert("Ink".to_owned(), record("Ink", "I1", 90, 180, 2, "Acme"));
    inv.insert("Pen".to_owned(), record("Pen", "P2", 150, 250, 5, "Beta"));
    let all = inv.all_products();
    assert_eq!(all.len(), 3);
    assert_eq!(all[0].code, "P1");
    assert_eq!(all[1].code, "P2");
    assert_eq!(all[2].code, "I1");
}

#[test]
fn pen_scenario_two_records_then_delete_first() {
    let mut inv = Inventory::new();
    let first = record("Pen", "P1", 100, 200, 10, "Acme");
    let second = record("Pen", "P2", 150, 250, 5, "Beta");
    inv.insert("Pen".to_owned(), first.clone());
    inv.insert("Pen".to_owned(), second.clone());

    let got = inv.lookup("Pen");
    assert_eq!(got.len(), 2);
    assert_same_record(&got[0], &first);
    assert_same_record(&got[1], &second);

    inv.delete("Pen", 1);
    let got = inv.lookup("Pen");
    assert_eq!(got.len(), 1);
    assert_same_record(&got[0], &second);
}

#[test]
fn cloned_record_matches_original() {
    let original = record("Pen", "P1", 100, 200, 10, "Acme");
    let copy = original.clone();
    assert_same_record(&copy, &original);
}
