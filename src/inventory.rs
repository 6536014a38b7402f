//! An inventory of items keyed by their numeric id.

use vstd::prelude::*;
use crate::error::QueryError;
use crate::store::{
    bad_selector, filter_callable, is_selection, law_filter_selects_exactly, lists_exactly, lookup,
    ordered_by_selector, Record, RecordStore,
};
use crate::text::{lemma_text_lt_irreflexive, lemma_text_lt_total, lemma_text_lt_transitive, text_eq, text_less, text_lt};

verus! {

/// The department an item belongs to; the declaration order is the sort order.
#[derive(Debug, Clone, Copy, PartialEq, Eq, Structural)]
pub enum Category {
    Electronics,
    Groceries,
    Clothing,
}

impl Category {
    /// Position of the category in its natural order.
    pub open spec fn rank(self) -> int {
        match self {
            Category::Electronics => 0,
            Category::Groceries => 1,
            Category::Clothing => 2,
        }
    }

    /// The category that a menu answer picks: "1" Electronics, "2" Groceries,
    /// "3" Clothing; `None` for any other answer.
    pub fn from_menu_choice(s: &str) -> (r: Option<Category>)
        ensures
            r == (if s@ == "1"@ {
                Some(Category::Electronics)
            } else if s@ == "2"@ {
                Some(Category::Groceries)
            } else if s@ == "3"@ {
                Some(Category::Clothing)
            } else {
                None::<Category>
            }),
    {
        if text_eq(s, "1") {
            Some(Category::Electronics)
        } else if text_eq(s, "2") {
            Some(Category::Groceries)
        } else if text_eq(s, "3") {
            Some(Category::Clothing)
        } else {
            None
        }
    }

    fn rank_of(self) -> (r: u8)
        ensures
            r as int == self.rank(),
    {
        match self {
            Category::Electronics => 0,
            Category::Groceries => 1,
            Category::Clothing => 2,
        }
    }
}

/// One stocked item; `id` is its key.
#[derive(Debug, PartialEq, Eq)]
pub struct Item {
    pub id: u64,
    pub name: String,
    pub category: Category,
    pub quantity: u32,
    pub price: u64,
}

impl Clone for Item {
    fn clone(&self) -> (r: Self)
        ensures
            r == *self,
    {
        Item {
            id: self.id,
            name: self.name.clone(),
            category: self.category,
            quantity: self.quantity,
            price: self.price,
        }
    }
}

/// A field of `Item` that a query can sort by.
#[derive(Debug, Clone, Copy, PartialEq, Eq, Structural)]
pub enum ItemField {
    Id,
    Name,
    Category,
    Quantity,
    Price,
}

/// The field that a selector name denotes, if any.
pub open spec fn item_field_named(s: Seq<char>) -> Option<ItemField> {
    if s == "id"@ {
        Some(ItemField::Id)
    } else if s == "name"@ {
        Some(ItemField::Name)
    } else if s == "category"@ {
        Some(ItemField::Category)
    } else if s == "quantity"@ {
        Some(ItemField::Quantity)
    } else if s == "price"@ {
        Some(ItemField::Price)
    } else {
        None
    }
}

impl ItemField {
    /// Looks a selector name up ("id", "name", "category", "quantity", "price").
    pub fn from_name(s: &str) -> (r: Option<ItemField>)
        ensures
            r == item_field_named(s@),
    {
        if text_eq(s, "id") {
            Some(ItemField::Id)
        } else if text_eq(s, "name") {
            Some(ItemField::Name)
        } else if text_eq(s, "category") {
            Some(ItemField::Category)
        } else if text_eq(s, "quantity") {
            Some(ItemField::Quantity)
        } else if text_eq(s, "price") {
            Some(ItemField::Price)
        } else {
            None
        }
    }
}

/// `a` is strictly below `b` in field `f`.
pub open spec fn field_lt(f: ItemField, a: Item, b: Item) -> bool {
    match f {
        ItemField::Id => a.id < b.id,
        ItemField::Name => text_lt(a.name@, b.name@),
        ItemField::Category => a.category.rank() < b.category.rank(),
        ItemField::Quantity => a.quantity < b.quantity,
        ItemField::Price => a.price < b.price,
    }
}

/// `a` and `b` agree in field `f`.
pub open spec fn field_eq(f: ItemField, a: Item, b: Item) -> bool {
    match f {
        ItemField::Id => a.id == b.id,
        ItemField::Name => a.name@ == b.name@,
        ItemField::Category => a.category == b.category,
        ItemField::Quantity => a.quantity == b.quantity,
        ItemField::Price => a.price == b.price,
    }
}

/// Order of a query sorted by `f`: by field `f`, ties broken by id.
pub open spec fn item_before(f: ItemField, a: Item, b: Item) -> bool {
    field_lt(f, a, b) || (field_eq(f, a, b) && a.id < b.id)
}

proof fn lemma_item_before_order(f: ItemField, a: Item, b: Item, c: Item)
    ensures
        !item_before(f, a, a),
        a.id != b.id ==> item_before(f, a, b) || item_before(f, b, a),
        item_before(f, a, b) && item_before(f, b, c) ==> item_before(f, a, c),
{
    lemma_text_lt_irreflexive(a.name@);
    lemma_text_lt_total(a.name@, b.name@);
    lemma_text_lt_total(b.name@, c.name@);
    if text_lt(a.name@, b.name@) && text_lt(b.name@, c.name@) {
        lemma_text_lt_transitive(a.name@, b.name@, c.name@);
    }
    if a.category != b.category {
        assert(a.category.rank() != b.category.rank());
    }
}

fn item_less(f: ItemField, a: &Item, b: &Item) -> (r: bool)
    ensures
        r == item_before(f, *a, *b),
{
    match f {
        ItemField::Id => a.id < b.id,
        ItemField::Name => text_less(a.name.as_str(), b.name.as_str()) || (text_eq(
            a.name.as_str(),
            b.name.as_str(),
        ) && a.id < b.id),
        ItemField::Category => {
            let x = a.category.rank_of();
            let y = b.category.rank_of();
            x < y || (x == y && a.id < b.id)
        },
        ItemField::Quantity => a.quantity < b.quantity || (a.quantity == b.quantity && a.id < b.id),
        ItemField::Price => a.price < b.price || (a.price == b.price && a.id < b.id),
    }
}

impl Record for Item {
    type Key = u64;

    type KeyValue = u64;

    type Field = ItemField;

    open spec fn key(&self) -> u64 {
        self.id
    }

    open spec fn key_of_value(k: &u64) -> u64 {
        *k
    }

    open spec fn field_named(s: Seq<char>) -> Option<ItemField> {
        item_field_named(s)
    }

    open spec fn before(f: ItemField, a: Item, b: Item) -> bool {
        item_before(f, a, b)
    }

    fn key_value(&self) -> (k: u64) {
        self.id
    }

    fn has_key(&self, k: &u64) -> (r: bool) {
        self.id == *k
    }

    fn copy_record(&self) -> (r: Item) {
        self.clone()
    }

    fn field_from_name(s: &str) -> (r: Option<ItemField>) {
        ItemField::from_name(s)
    }

    fn less(f: ItemField, a: &Item, b: &Item) -> (r: bool) {
        item_less(f, a, b)
    }

    proof fn lemma_order(f: ItemField, a: Item, b: Item, c: Item) {
        lemma_item_before_order(f, a, b, c);
    }
}

/// Being of category `c`, as a spec function value.
pub open spec fn of_category(c: Category) -> spec_fn(Item) -> bool {
    |x: Item| x.category == c
}

/// A store of items keyed by id.
pub struct Inventory {
    store: RecordStore<Item>,
}

impl View for Inventory {
    type V = Map<u64, Item>;

    closed spec fn view(&self) -> Map<u64, Item> {
        self.store@
    }
}

impl Inventory {
    /// Every item is stored under its own id, once.
    pub closed spec fn wf(&self) -> bool {
        self.store.wf()
    }

    /// An empty inventory.
    pub fn new() -> (r: Inventory)
        ensures
            r.wf(),
            r@ == Map::<u64, Item>::empty(),
    {
        Inventory { store: RecordStore::new() }
    }

    /// Stores `item` under its id, replacing any item that had that id.
    pub fn add_item(&mut self, item: Item)
        requires
            old(self).wf(),
        ensures
            final(self).wf(),
            final(self)@ == old(self)@.insert(item.id, item),
    {
        self.store.add(item);
    }

    /// Deletes the item with id `id`; says whether there was one.
    pub fn remove_item(&mut self, id: u64) -> (r: bool)
        requires
            old(self).wf(),
        ensures
            final(self).wf(),
            r == old(self)@.contains_key(id),
            final(self)@ == old(self)@.remove(id),
    {
        self.store.remove(&id)
    }

    /// The item stored under `id`, as a copy.
    pub fn find_item_by_id(&self, id: u64) -> (r: Option<Item>)
        requires
            self.wf(),
        ensures
            r == lookup(self@, id),
    {
        self.store.get(&id)
    }

    /// The stored items that `filter` keeps (all of them where there is none),
    /// sorted by the field that `sort_by` names, ties broken by id; unsorted
    /// where `sort_by` is `None`. Fails when `sort_by` names no field.
    pub fn query<P: Fn(&Item) -> bool>(&self, filter: Option<P>, sort_by: Option<&str>) -> (r: Result<
        Vec<Item>,
        QueryError,
    >)
        requires
            self.wf(),
            filter_callable(&filter),
        ensures
            r is Err <==> bad_selector::<Item>(sort_by),
            match r {
                Ok(v) => is_selection(self@, &filter, v@) && ordered_by_selector(v@, sort_by),
                Err(e) => e == QueryError::InvalidQuery,
            },
    {
        self.store.query(filter, sort_by)
    }

    /// The stored items of category `c`, in no particular order.
    pub fn find_items_by_category(&self, c: Category) -> (r: Vec<Item>)
        requires
            self.wf(),
        ensures
            lists_exactly(self@, r@, of_category(c)),
    {
        let pick = |x: &Item| -> (b: bool)
            ensures
                b == (x.category == c),
            { x.category == c };
        match self.query(Some(pick), None) {
            Ok(v) => {
                proof {
                    law_filter_selects_exactly(self@, pick, v@, of_category(c));
                }
                v
            },
            Err(_) => Vec::new(),
        }
    }
}

} // verus!
