//! A contact book keyed by the contact's name.

use vstd::prelude::*;
use crate::error::QueryError;
use crate::store::{
    bad_selector, filter_callable, is_selection, law_filter_selects_exactly, lists_exactly, lookup,
    ordered_by_selector, Record, RecordStore,
};
use crate::text::{lemma_text_lt_irreflexive, lemma_text_lt_total, lemma_text_lt_transitive, text_contains, text_eq, text_find, text_less, text_lt};

verus! {

/// One entry of a contact book; `name` is its key.
#[derive(Debug, PartialEq, Eq)]
pub struct Contact {
    pub name: String,
    pub phone: String,
    pub email: String,
}

impl Clone for Contact {
    fn clone(&self) -> (r: Self)
        ensures
            r == *self,
    {
        Contact { name: self.name.clone(), phone: self.phone.clone(), email: self.email.clone() }
    }
}

/// `c` holds `t` in its name, its phone or its email.
pub open spec fn mentions(c: Contact, t: Seq<char>) -> bool {
    text_contains(c.name@, t) || text_contains(c.phone@, t) || text_contains(c.email@, t)
}

/// What a text filter keeps: the contacts that mention it, or all where there is none.
pub open spec fn text_filter(filter_by: Option<&str>) -> spec_fn(Contact) -> bool {
    |c: Contact|
        match filter_by {
            Some(t) => mentions(c, t@),
            None => true,
        }
}

impl Contact {
    /// Whether `t` occurs in the name, the phone or the email.
    pub fn mentions(&self, t: &str) -> (r: bool)
        ensures
            r == mentions(*self, t@),
    {
        text_find(self.name.as_str(), t) || text_find(self.phone.as_str(), t) || text_find(self.email.as_str(), t)
    }
}

/// A field of `Contact` that a query can sort by.
#[derive(Debug, Clone, Copy, PartialEq, Eq, Structural)]
pub enum ContactField {
    Name,
    Phone,
    Email,
}

/// The field that a selector name denotes, if any.
pub open spec fn contact_field_named(s: Seq<char>) -> Option<ContactField> {
    if s == "name"@ {
        Some(ContactField::Name)
    } else if s == "phone"@ {
        Some(ContactField::Phone)
    } else if s == "email"@ {
        Some(ContactField::Email)
    } else {
        None
    }
}

impl ContactField {
    /// Looks a selector name up ("name", "phone", "email").
    pub fn from_name(s: &str) -> (r: Option<ContactField>)
        ensures
            r == contact_field_named(s@),
    {
        if text_eq(s, "name") {
            Some(ContactField::Name)
        } else if text_eq(s, "phone") {
            Some(ContactField::Phone)
        } else if text_eq(s, "email") {
            Some(ContactField::Email)
        } else {
            None
        }
    }
}

/// The text of field `f` of `c`.
pub open spec fn field_text(f: ContactField, c: Contact) -> Seq<char> {
    match f {
        ContactField::Name => c.name@,
        ContactField::Phone => c.phone@,
        ContactField::Email => c.email@,
    }
}

fn field_str(f: ContactField, c: &Contact) -> (r: &str)
    ensures
        r@ == field_text(f, *c),
{
    match f {
        ContactField::Name => c.name.as_str(),
        ContactField::Phone => c.phone.as_str(),
        ContactField::Email => c.email.as_str(),
    }
}

/// Order of a query sorted by `f`: by field `f`, ties broken by name.
pub open spec fn contact_before(f: ContactField, a: Contact, b: Contact) -> bool {
    text_lt(field_text(f, a), field_text(f, b)) || (field_text(f, a) == field_text(f, b) && text_lt(
        a.name@,
        b.name@,
    ))
}

proof fn lemma_contact_before_order(f: ContactField, a: Contact, b: Contact, c: Contact)
    ensures
        !contact_before(f, a, a),
        a.name@ != b.name@ ==> contact_before(f, a, b) || contact_before(f, b, a),
        contact_before(f, a, b) && contact_before(f, b, c) ==> contact_before(f, a, c),
{
    lemma_text_lt_irreflexive(a.name@);
    lemma_text_lt_irreflexive(field_text(f, a));
    lemma_text_lt_total(a.name@, b.name@);
    lemma_text_lt_total(field_text(f, a), field_text(f, b));
    if text_lt(a.name@, b.name@) && text_lt(b.name@, c.name@) {
        lemma_text_lt_transitive(a.name@, b.name@, c.name@);
    }
    if text_lt(field_text(f, a), field_text(f, b)) && text_lt(field_text(f, b), field_text(f, c)) {
        lemma_text_lt_transitive(field_text(f, a), field_text(f, b), field_text(f, c));
    }
}

fn contact_less(f: ContactField, a: &Contact, b: &Contact) -> (r: bool)
    ensures
        r == contact_before(f, *a, *b),
{
    let x = field_str(f, a);
    let y = field_str(f, b);
    text_less(x, y) || (text_eq(x, y) && text_less(a.name.as_str(), b.name.as_str()))
}

impl Record for Contact {
    type Key = Seq<char>;

    type KeyValue = String;

    type Field = ContactField;

    open spec fn key(&self) -> Seq<char> {
        self.name@
    }

    open spec fn key_of_value(k: &String) -> Seq<char> {
        k@
    }

    open spec fn field_named(s: Seq<char>) -> Option<ContactField> {
        contact_field_named(s)
    }

    open spec fn before(f: ContactField, a: Contact, b: Contact) -> bool {
        contact_before(f, a, b)
    }

    fn key_value(&self) -> (k: String) {
        self.name.clone()
    }

    fn has_key(&self, k: &String) -> (r: bool) {
        text_eq(self.name.as_str(), k.as_str())
    }

    fn copy_record(&self) -> (r: Contact) {
        self.clone()
    }

    fn field_from_name(s: &str) -> (r: Option<ContactField>) {
        ContactField::from_name(s)
    }

    fn less(f: ContactField, a: &Contact, b: &Contact) -> (r: bool) {
        contact_less(f, a, b)
    }

    proof fn lemma_order(f: ContactField, a: Contact, b: Contact, c: Contact) {
        lemma_contact_before_order(f, a, b, c);
    }
}

/// A store of contacts keyed by name.
pub struct ContactBook {
    store: RecordStore<Contact>,
}

impl View for ContactBook {
    type V = Map<Seq<char>, Contact>;

    closed spec fn view(&self) -> Map<Seq<char>, Contact> {
        self.store@
    }
}

impl ContactBook {
    /// Every contact is stored under its own name, once.
    pub closed spec fn wf(&self) -> bool {
        self.store.wf()
    }

    /// An empty contact book.
    pub fn new() -> (r: ContactBook)
        ensures
            r.wf(),
            r@ == Map::<Seq<char>, Contact>::empty(),
    {
        ContactBook { store: RecordStore::new() }
    }

    /// Stores `contact` under its name, replacing any contact that had that name.
    pub fn add_contact(&mut self, contact: Contact)
        requires
            old(self).wf(),
        ensures
            final(self).wf(),
            final(self)@ == old(self)@.insert(contact.name@, contact),
    {
        self.store.add(contact);
    }

    /// Deletes the contact named `name`; says whether there was one.
    pub fn remove_contact(&mut self, name: &str) -> (r: bool)
        requires
            old(self).wf(),
        ensures
            final(self).wf(),
            r == old(self)@.contains_key(name@),
            final(self)@ == old(self)@.remove(name@),
    {
        let key = name.to_owned();
        self.store.remove(&key)
    }

    /// The contact named `name`, as a copy.
    pub fn search_contact(&self, name: &str) -> (r: Option<Contact>)
        requires
            self.wf(),
        ensures
            r == lookup(self@, name@),
    {
        let key = name.to_owned();
        self.store.get(&key)
    }

    /// The stored contacts that `filter` keeps (all of them where there is none),
    /// sorted by the field that `sort_by` names, ties broken by name; unsorted
    /// where `sort_by` is `None`. Fails when `sort_by` names no field.
    pub fn query<P: Fn(&Contact) -> bool>(&self, filter: Option<P>, sort_by: Option<&str>) -> (r: Result<
        Vec<Contact>,
        QueryError,
    >)
        requires
            self.wf(),
            filter_callable(&filter),
        ensures
            r is Err <==> bad_selector::<Contact>(sort_by),
            match r {
                Ok(v) => is_selection(self@, &filter, v@) && ordered_by_selector(v@, sort_by),
                Err(e) => e == QueryError::InvalidQuery,
            },
    {
        self.store.query(filter, sort_by)
    }

    /// The contacts that mention `filter_by` in a field (all where it is
    /// `None`), sorted by the field that `sort_by` names, ties broken by name.
    /// Fails when `sort_by` names no field.
    pub fn list_contacts(&self, sort_by: Option<&str>, filter_by: Option<&str>) -> (r: Result<
        Vec<Contact>,
        QueryError,
    >)
        requires
            self.wf(),
        ensures
            r is Err <==> bad_selector::<Contact>(sort_by),
            match r {
                Ok(v) => lists_exactly(self@, v@, text_filter(filter_by)) && ordered_by_selector(v@, sort_by),
                Err(e) => e == QueryError::InvalidQuery,
            },
    {
        let pick = |c: &Contact| -> (b: bool)
            ensures
                b == text_filter(filter_by)(*c),
            {
                match filter_by {
                    Some(t) => c.mentions(t),
                    None => true,
                }
            };
        match self.query(Some(pick), sort_by) {
            Ok(v) => {
                proof {
                    law_filter_selects_exactly(self@, pick, v@, text_filter(filter_by));
                }
                Ok(v)
            },
            Err(e) => Err(e),
        }
    }
}

} // verus!
