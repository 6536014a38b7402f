use record_store::error::QueryError;
use record_store::inventory::{Category, Inventory, Item, ItemField};

fn item(id: u64, name: &str, category: Category, quantity: u32, price: u64) -> Item {
    Item { id, name: name.to_string(), category, quantity, price }
}

fn sample() -> Inventory {
    let mut inv = Inventory::new();
    inv.add_item(item(1, "Phone", Category::Electronics, 5, 1000));
    inv.add_item(item(2, "Shirt", Category::Clothing, 3, 20));
    inv.add_item(item(3, "Bread", Category::Groceries, 10, 3));
    inv
}

fn ids(v: &[Item]) -> Vec<u64> {
    v.iter().map(|i| i.id).collect()
}

#[test]
fn inventory_scenario() {
    let inv = sample();
    assert_eq!(inv.find_item_by_id(2), Some(item(2, "Shirt", Category::Clothing, 3, 20)));
    let electronics = inv.query(Some(|i: &Item| i.category == Category::Electronics), None).unwrap();
    assert_eq!(electronics, vec![item(1, "Phone", Category::Electronics, 5, 1000)]);
    let by_price = inv.query(None::<fn(&Item) -> bool>, Some("price")).unwrap();
    assert_eq!(by_price.iter().map(|i| i.name.as_str()).collect::<Vec<_>>(), vec!["Bread", "Shirt", "Phone"]);
    assert_eq!(by_price.iter().map(|i| i.price).collect::<Vec<_>>(), vec![3, 20, 1000]);
}

#[test]
fn find_items_by_category_lists_matches() {
    let mut inv = sample();
    inv.add_item(item(4, "Laptop", Category::Electronics, 2, 1500));
    let mut found = ids(&inv.find_items_by_category(Category::Electronics));
    found.sort();
    assert_eq!(found, vec![1, 4]);
    assert!(inv.find_items_by_category(Category::Groceries).iter().all(|i| i.category == Category::Groceries));
    assert_eq!(Inventory::new().find_items_by_category(Category::Clothing), vec![]);
}

#[test]
fn add_same_id_keeps_last() {
    let mut inv = sample();
    inv.add_item(item(2, "Jacket", Category::Clothing, 1, 80));
    inv.add_item(item(2, "Scarf", Category::Clothing, 7, 15));
    let all = inv.query(None::<fn(&Item) -> bool>, Some("id")).unwrap();
    assert_eq!(ids(&all), vec![1, 2, 3]);
    assert_eq!(inv.find_item_by_id(2), Some(item(2, "Scarf", Category::Clothing, 7, 15)));
}

#[test]
fn add_then_get_round_trip() {
    let mut inv = Inventory::new();
    assert_eq!(inv.find_item_by_id(9), None);
    let r = item(9, "Lamp", Category::Electronics, 4, 35);
    inv.add_item(r.clone());
    assert_eq!(inv.find_item_by_id(9), Some(r));
}

#[test]
fn remove_is_idempotent() {
    let mut inv = sample();
    assert!(!inv.remove_item(42));
    assert_eq!(ids(&inv.query(None::<fn(&Item) -> bool>, Some("id")).unwrap()), vec![1, 2, 3]);
    assert!(inv.remove_item(1));
    assert!(!inv.remove_item(1));
    assert_eq!(inv.find_item_by_id(1), None);
    assert_eq!(ids(&inv.query(None::<fn(&Item) -> bool>, Some("id")).unwrap()), vec![2, 3]);
}

#[test]
fn filter_keeps_exactly_matching() {
    let inv = sample();
    let cheap = inv.query(Some(|i: &Item| i.price < 100), Some("id")).unwrap();
    assert_eq!(ids(&cheap), vec![2, 3]);
    let none = inv.query(Some(|i: &Item| i.quantity > 100), None).unwrap();
    assert!(none.is_empty());
    let mut all = ids(&inv.query(None::<fn(&Item) -> bool>, None).unwrap());
    all.sort();
    assert_eq!(all, vec![1, 2, 3]);
}

#[test]
fn sort_breaks_ties_by_id() {
    let mut inv = Inventory::new();
    inv.add_item(item(7, "Pen", Category::Groceries, 5, 2));
    inv.add_item(item(3, "Cup", Category::Clothing, 5, 4));
    inv.add_item(item(5, "Ink", Category::Electronics, 1, 2));
    assert_eq!(ids(&inv.query(None::<fn(&Item) -> bool>, Some("quantity")).unwrap()), vec![5, 3, 7]);
    assert_eq!(ids(&inv.query(None::<fn(&Item) -> bool>, Some("price")).unwrap()), vec![5, 7, 3]);
    assert_eq!(ids(&inv.query(None::<fn(&Item) -> bool>, Some("name")).unwrap()), vec![3, 5, 7]);
    assert_eq!(ids(&inv.query(None::<fn(&Item) -> bool>, Some("category")).unwrap()), vec![5, 7, 3]);
}

#[test]
fn invalid_sort_field_is_rejected() {
    let inv = sample();
    assert_eq!(inv.query(None::<fn(&Item) -> bool>, Some("colour")), Err(QueryError::InvalidQuery));
    assert_eq!(inv.query(Some(|_: &Item| true), Some("")), Err(QueryError::InvalidQuery));
    assert_eq!(inv.query(None::<fn(&Item) -> bool>, Some("Price")), Err(QueryError::InvalidQuery));
    assert_eq!(ids(&inv.query(None::<fn(&Item) -> bool>, Some("id")).unwrap()), vec![1, 2, 3]);
}

#[test]
fn item_field_names() {
    assert_eq!(ItemField::from_name("id"), Some(ItemField::Id));
    assert_eq!(ItemField::from_name("name"), Some(ItemField::Name));
    assert_eq!(ItemField::from_name("category"), Some(ItemField::Category));
    assert_eq!(ItemField::from_name("quantity"), Some(ItemField::Quantity));
    assert_eq!(ItemField::from_name("price"), Some(ItemField::Price));
    assert_eq!(ItemField::from_name("prices"), None);
}

#[test]
fn empty_inventory_queries() {
    let inv = Inventory::new();
    assert!(inv.query(None::<fn(&Item) -> bool>, Some("name")).unwrap().is_empty());
    assert!(inv.query(None::<fn(&Item) -> bool>, None).unwrap().is_empty());
}

#[test]
fn largest_ids_and_prices_sort() {
    let mut inv = Inventory::new();
    inv.add_item(item(u64::MAX, "Max", Category::Electronics, u32::MAX, u64::MAX));
    inv.add_item(item(0, "Zero", Category::Electronics, 0, 0));
    assert_eq!(ids(&inv.query(None::<fn(&Item) -> bool>, Some("price")).unwrap()), vec![0, u64::MAX]);
    assert!(inv.remove_item(u64::MAX));
    assert_eq!(inv.find_item_by_id(u64::MAX), None);
}

#[test]
fn category_menu_choices() {
    assert_eq!(Category::from_menu_choice("1"), Some(Category::Electronics));
    assert_eq!(Category::from_menu_choice("2"), Some(Category::Groceries));
    assert_eq!(Category::from_menu_choice("3"), Some(Category::Clothing));
    assert_eq!(Category::from_menu_choice("4"), None);
    assert_eq!(Category::from_menu_choice(""), None);
}
