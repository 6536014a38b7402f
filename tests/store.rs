use record_store::contacts::Contact;
use record_store::error::QueryError;
use record_store::inventory::{Category, Item};
use record_store::store::RecordStore;

fn item(id: u64, name: &str, quantity: u32) -> Item {
    Item { id, name: name.to_string(), category: Category::Groceries, quantity, price: 1 }
}

#[test]
fn store_add_get_remove_by_key() {
    let mut store: RecordStore<Item> = RecordStore::new();
    assert_eq!(store.get(&1), None);
    store.add(item(1, "Milk", 2));
    store.add(item(1, "Oats", 4));
    assert_eq!(store.get(&1), Some(item(1, "Oats", 4)));
    assert!(store.remove(&1));
    assert!(!store.remove(&1));
    assert_eq!(store.get(&1), None);
}

#[test]
fn store_query_filters_then_sorts() {
    let mut store: RecordStore<Item> = RecordStore::new();
    store.add(item(3, "Rice", 9));
    store.add(item(1, "Salt", 1));
    store.add(item(2, "Eggs", 12));
    let r = store.query(Some(|i: &Item| i.quantity > 1), Some("quantity")).unwrap();
    assert_eq!(r.iter().map(|i| i.id).collect::<Vec<_>>(), vec![3, 2]);
    let r = store.query(None::<fn(&Item) -> bool>, Some("name")).unwrap();
    assert_eq!(r.iter().map(|i| i.id).collect::<Vec<_>>(), vec![2, 3, 1]);
    assert_eq!(store.query(None::<fn(&Item) -> bool>, Some("weight")), Err(QueryError::InvalidQuery));
}

#[test]
fn store_of_contacts_keyed_by_name() {
    let mut store: RecordStore<Contact> = RecordStore::new();
    let c = Contact { name: "Ada".to_string(), phone: "1".to_string(), email: "ada@x.org".to_string() };
    store.add(c.clone());
    assert_eq!(store.get(&"Ada".to_string()), Some(c));
    assert_eq!(store.get(&"ada".to_string()), None);
    assert!(store.remove(&"Ada".to_string()));
    assert!(store.query(None::<fn(&Contact) -> bool>, None).unwrap().is_empty());
}
