use record_store::contacts::{Contact, ContactBook, ContactField};
use record_store::error::QueryError;

fn contact(name: &str, phone: &str, email: &str) -> Contact {
    Contact { name: name.to_string(), phone: phone.to_string(), email: email.to_string() }
}

fn sample() -> ContactBook {
    let mut book = ContactBook::new();
    book.add_contact(contact("John Doe", "123-456-7890", "john.doe@example.com"));
    book.add_contact(contact("Jane Smith", "987-654-3210", "jane.smith@example.com"));
    book.add_contact(contact("Bob Johnson", "555-555-5555", "bob.johnson@example.com"));
    book
}

fn names(v: &[Contact]) -> Vec<&str> {
    v.iter().map(|c| c.name.as_str()).collect()
}

#[test]
fn contacts_or_filter_sorted_by_name() {
    let book = sample();
    // every email ends in ".com", so each contact mentions "o" in some field
    let r = book.list_contacts(Some("name"), Some("o")).unwrap();
    assert_eq!(names(&r), vec!["Bob Johnson", "Jane Smith", "John Doe"]);
}

#[test]
fn contacts_name_filter_sorted_by_name() {
    let book = sample();
    let r = book.query(Some(|c: &Contact| c.name.contains('o')), Some("name")).unwrap();
    assert_eq!(names(&r), vec!["Bob Johnson", "John Doe"]);
}

#[test]
fn contacts_filter_on_phone_or_email() {
    let book = sample();
    assert_eq!(names(&book.list_contacts(None, Some("555")).unwrap()), vec!["Bob Johnson"]);
    assert_eq!(names(&book.list_contacts(None, Some("smith@")).unwrap()), vec!["Jane Smith"]);
    assert!(book.list_contacts(Some("email"), Some("zzz")).unwrap().is_empty());
    assert_eq!(book.list_contacts(Some("phone"), Some("")).unwrap().len(), 3);
}

#[test]
fn contacts_sort_by_phone_and_email() {
    let book = sample();
    assert_eq!(
        names(&book.list_contacts(Some("phone"), None).unwrap()),
        vec!["John Doe", "Bob Johnson", "Jane Smith"]
    );
    assert_eq!(
        names(&book.list_contacts(Some("email"), None).unwrap()),
        vec!["Bob Johnson", "Jane Smith", "John Doe"]
    );
}

#[test]
fn contacts_sort_ties_broken_by_name() {
    let mut book = ContactBook::new();
    book.add_contact(contact("Zed", "111", "same@example.com"));
    book.add_contact(contact("Amy", "222", "same@example.com"));
    book.add_contact(contact("Max", "000", "other@example.com"));
    assert_eq!(names(&book.list_contacts(Some("email"), None).unwrap()), vec!["Max", "Amy", "Zed"]);
}

#[test]
fn contacts_invalid_sort_field() {
    let book = sample();
    assert_eq!(book.list_contacts(Some("age"), None), Err(QueryError::InvalidQuery));
    assert_eq!(book.list_contacts(Some("age"), Some("o")), Err(QueryError::InvalidQuery));
    assert_eq!(book.query(None::<fn(&Contact) -> bool>, Some("Name")), Err(QueryError::InvalidQuery));
    assert_eq!(book.list_contacts(None, None).unwrap().len(), 3);
}

#[test]
fn contacts_search_and_remove() {
    let mut book = ContactBook::new();
    book.add_contact(contact("James Anaga", "123-456-7890", "james@example.com"));
    book.add_contact(contact("Kelly Smith", "234-567-8901", "kelly@example.com"));
    assert_eq!(
        book.search_contact("James Anaga"),
        Some(contact("James Anaga", "123-456-7890", "james@example.com"))
    );
    assert!(book.remove_contact("James Anaga"));
    assert_eq!(book.search_contact("James Anaga"), None);
    assert!(!book.remove_contact("James Anaga"));
    assert!(!book.remove_contact("Nobody"));
    assert_eq!(names(&book.list_contacts(Some("name"), None).unwrap()), vec!["Kelly Smith"]);
}

#[test]
fn contacts_same_name_replaces() {
    let mut book = sample();
    book.add_contact(contact("Jane Smith", "000-000-0000", "jane@new.org"));
    assert_eq!(book.list_contacts(None, None).unwrap().len(), 3);
    assert_eq!(book.search_contact("Jane Smith"), Some(contact("Jane Smith", "000-000-0000", "jane@new.org")));
}

#[test]
fn contact_mentions_any_field() {
    let c = contact("Ann", "42", "ann@site.net");
    assert!(c.mentions("nn"));
    assert!(c.mentions("42"));
    assert!(c.mentions("site"));
    assert!(c.mentions(""));
    assert!(!c.mentions("Bob"));
    assert!(!c.mentions("ann@site.net!"));
}

#[test]
fn contact_field_names() {
    assert_eq!(ContactField::from_name("name"), Some(ContactField::Name));
    assert_eq!(ContactField::from_name("phone"), Some(ContactField::Phone));
    assert_eq!(ContactField::from_name("email"), Some(ContactField::Email));
    assert_eq!(ContactField::from_name("mail"), None);
}
