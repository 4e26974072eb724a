//! The todo entry and the collection that owns the entries.
use vstd::prelude::*;

use crate::text::{normalize, normalized};

verus! {

/// The mathematical value of a [`TodoItem`].
pub ghost struct ItemView {
    pub id: u32,
    pub description: Seq<char>,
    pub done: bool,
}

/// The mathematical value of a [`TodoList`]: its entries, in the order in
/// which they were added, and the id that the next insertion will receive.
pub ghost struct ListView {
    pub items: Seq<ItemView>,
    pub next_id: u32,
}

/// The entry `it` with its completion flag flipped.
pub open spec fn toggled(it: ItemView) -> ItemView {
    ItemView { id: it.id, description: it.description, done: !it.done }
}

/// A sequence of entries fit to form a collection whose counter is `next_id`:
/// every description in normal form, descriptions pairwise distinct, ids
/// pairwise distinct and all below the counter.
pub open spec fn valid_items(items: Seq<ItemView>, next_id: u32) -> bool {
    &&& forall|i: int|
        0 <= i < items.len() ==> normalized(#[trigger] items[i].description)
            == items[i].description && items[i].id < next_id
    &&& forall|i: int, j: int|
        0 <= i < items.len() && 0 <= j < items.len() && i != j ==> (#[trigger] items[i]).description
            != (#[trigger] items[j]).description && items[i].id != items[j].id
}

/// How one call moves the counter: a call that adds an entry appends it
/// with the old counter as its id and raises the counter by one; any other
/// call keeps the counter.
pub open spec fn counter_step(before: ListView, after: ListView, added: bool) -> bool {
    if added {
        &&& after.next_id == before.next_id + 1
        &&& after.items.len() == before.items.len() + 1
        &&& after.items.last().id == before.next_id
    } else {
        after.next_id == before.next_id
    }
}

/// Some entry of `items` has the description `d`.
pub open spec fn has_description(items: Seq<ItemView>, d: Seq<char>) -> bool {
    exists|i: int| 0 <= i < items.len() && (#[trigger] items[i]).description == d
}

/// Some entry of `items` has the id `id`.
pub open spec fn has_id(items: Seq<ItemView>, id: u32) -> bool {
    exists|i: int| 0 <= i < items.len() && (#[trigger] items[i]).id == id
}

/// The position of the entry of `items` whose description is `d`.
pub open spec fn index_of_description(items: Seq<ItemView>, d: Seq<char>) -> int {
    choose|i: int| 0 <= i < items.len() && (#[trigger] items[i]).description == d
}

/// The position of the entry of `items` whose id is `id`.
pub open spec fn index_of_id(items: Seq<ItemView>, id: u32) -> int {
    choose|i: int| 0 <= i < items.len() && (#[trigger] items[i]).id == id
}

/// In a valid collection, looking an entry up by its description and looking
/// it up by its id both lead to that same entry.
pub proof fn lemma_lookups_agree(items: Seq<ItemView>, next_id: u32, i: int)
    requires
        valid_items(items, next_id),
        0 <= i < items.len(),
    ensures
        has_description(items, items[i].description),
        has_id(items, items[i].id),
        index_of_description(items, items[i].description) == i,
        index_of_id(items, items[i].id) == i,
{
    let d = items[i].description;
    let id = items[i].id;
    assert(has_description(items, d));
    assert(has_id(items, id));
    let a = index_of_description(items, d);
    let b = index_of_id(items, id);
    assert(items[a].description == d);
    assert(items[b].id == id);
    if a != i {
        assert(items[a].description != items[i].description);
    }
    if b != i {
        assert(items[b].id != items[i].id);
    }
}

/// A todo entry: an immutable id and description, and a completion flag.
#[derive(Debug)]
pub struct TodoItem {
    id: u32,
    description: String,
    done: bool,
}

impl View for TodoItem {
    type V = ItemView;

    closed spec fn view(&self) -> ItemView {
        ItemView { id: self.id, description: self.description@, done: self.done }
    }
}

impl TodoItem {
    /// A fresh entry, not yet done.
    pub fn build(next_id: u32, description: String) -> (r: TodoItem)
        ensures
            r@ == (ItemView { id: next_id, description: description@, done: false }),
    {
        TodoItem { id: next_id, description, done: false }
    }

    pub fn id(&self) -> (r: u32)
        ensures
            r == self@.id,
    {
        self.id
    }

    pub fn description(&self) -> (r: &str)
        ensures
            r@ == self@.description,
    {
        self.description.as_str()
    }

    pub fn is_done(&self) -> (r: bool)
        ensures
            r == self@.done,
    {
        self.done
    }

    /// Flips the completion flag.
    pub fn update(&mut self)
        ensures
            final(self)@ == toggled(old(self)@),
    {
        self.done = !self.done;
    }

    /// A copy of the entry.
    pub fn clone(&self) -> (r: TodoItem)
        ensures
            r@ == self@,
    {
        TodoItem { id: self.id, description: self.description.clone(), done: self.done }
    }
}

/// The collection: entries keyed by their normalized description, and a
/// counter that hands out ids.
#[derive(Debug)]
pub struct TodoList {
    list: Vec<TodoItem>,
    next_id: u32,
}

impl View for TodoList {
    type V = ListView;

    closed spec fn view(&self) -> ListView {
        ListView { items: self.list@.map_values(|t: TodoItem| t@), next_id: self.next_id }
    }
}

impl TodoList {
    /// The collection's invariant.
    pub open spec fn wf(&self) -> bool {
        valid_items(self@.items, self@.next_id)
    }

    /// An empty collection whose first id will be 0.
    pub fn build() -> (r: TodoList)
        ensures
            r.wf(),
            r@.items.len() == 0,
            r@.next_id == 0,
    {
        TodoList { list: Vec::new(), next_id: 0 }
    }

    /// A collection of the given entries, in order, with the given counter,
    /// if they fit together (see [`valid_items`]).
    pub fn from_items(items: Vec<TodoItem>, next_id: u32) -> (r: Option<TodoList>)
        ensures
            r is Some <==> valid_items(items@.map_values(|t: TodoItem| t@), next_id),
            r is Some ==> r->0.wf() && r->0@ == (ListView {
                items: items@.map_values(|t: TodoItem| t@),
                next_id: next_id,
            }),
    {
        let ghost v = items@.map_values(|t: TodoItem| t@);
        let mut i: usize = 0;
        while i < items.len()
            invariant
                i <= items.len(),
                v == items@.map_values(|t: TodoItem| t@),
                forall|a: int|
                    0 <= a < i ==> normalized(#[trigger] v[a].description) == v[a].description
                        && v[a].id < next_id,
                forall|a: int, b: int|
                    0 <= a < i && 0 <= b < i && a != b ==> (#[trigger] v[a]).description != (
                    #[trigger] v[b]).description && v[a].id != v[b].id,
            decreases items.len() - i,
        {
            let key = normalize(items[i].description.as_str());
            if !(key == items[i].description) || items[i].id >= next_id {
                assert(!valid_items(v, next_id)) by {
                    let k = i as int;
                    assert(v[k] == items[k]@);
                    if valid_items(v, next_id) {
                        assert(normalized(v[k].description) == v[k].description);
                    }
                }
                return None;
            }
            let mut j: usize = 0;
            while j < i
                invariant
                    i < items.len(),
                    j <= i,
                    v == items@.map_values(|t: TodoItem| t@),
                    forall|b: int|
                        0 <= b < j ==> v[b].description != v[i as int].description && v[b].id
                            != v[i as int].id,
                decreases i - j,
            {
                if items[j].description == items[i].description || items[j].id == items[i].id {
                    assert(!valid_items(v, next_id)) by {
                        assert(v[i as int] == items[i as int]@);
                        assert(v[j as int] == items[j as int]@);
                    }
                    return None;
                }
                j = j + 1;
            }
            assert(v[i as int] == items[i as int]@);
            i = i + 1;
        }
        Some(TodoList { list: items, next_id })
    }

    /// A collection of entries stored under keys, as a map from description
    /// to entry stores them: it is had when every key is its entry's
    /// description and the entries fit together (see [`from_items`](Self::from_items)).
    pub fn from_keyed_items(keys: Vec<String>, items: Vec<TodoItem>, next_id: u32) -> (r: Option<
        TodoList,
    >)
        ensures
            r is Some <==> keys@.len() == items@.len() && (forall|i: int|
                0 <= i < keys@.len() ==> (#[trigger] keys@[i])@ == items@[i]@.description)
                && valid_items(items@.map_values(|t: TodoItem| t@), next_id),
            r is Some ==> r->0.wf() && r->0@ == (ListView {
                items: items@.map_values(|t: TodoItem| t@),
                next_id: next_id,
            }),
    {
        if keys.len() != items.len() {
            return None;
        }
        let mut i: usize = 0;
        while i < keys.len()
            invariant
                keys@.len() == items@.len(),
                i <= keys.len(),
                forall|a: int| 0 <= a < i ==> (#[trigger] keys@[a])@ == items@[a]@.description,
            decreases keys.len() - i,
        {
            if !(keys[i] == items[i].description) {
                return None;
            }
            i = i + 1;
        }
        TodoList::from_items(items, next_id)
    }

    /// The id that the next insertion will receive.
    pub fn next_id(&self) -> (r: u32)
        ensures
            r == self@.next_id,
    {
        self.next_id
    }

    /// The entries, in order.
    pub fn items(&self) -> (r: &Vec<TodoItem>)
        ensures
            r@.map_values(|t: TodoItem| t@) == self@.items,
    {
        &self.list
    }

    /// The number of entries.
    pub fn len(&self) -> (r: usize)
        ensures
            r == self@.items.len(),
    {
        self.list.len()
    }

    /// Adds an entry under the normalized form of `todo_description`, with the
    /// next id, unless an entry with that normalized description exists.
    pub fn insert(&mut self, todo_description: String) -> (r: bool)
        requires
            old(self).wf(),
            old(self)@.next_id < u32::MAX || has_description(
                old(self)@.items,
                normalized(todo_description@),
            ),
        ensures
            final(self).wf(),
            counter_step(old(self)@, final(self)@, r),
            r == !has_description(old(self)@.items, normalized(todo_description@)),
            r ==> final(self)@.items.len() == old(self)@.items.len() + 1,
            !r ==> final(self)@.items.len() == old(self)@.items.len(),
            r ==> final(self)@ == (ListView {
                items: old(self)@.items.push(
                    ItemView {
                        id: old(self)@.next_id,
                        description: normalized(todo_description@),
                        done: false,
                    },
                ),
                next_id: (old(self)@.next_id + 1) as u32,
            }),
            !r ==> final(self)@ == old(self)@,
    {
        let key = normalize(todo_description.as_str());
        match self.position_of_description(&key) {
            Some(_) => false,
            None => {
                let item = TodoItem::build(self.next_id, key);
                self.list.push(item);
                self.next_id = self.next_id + 1;
                proof {
                    let items = self@.items;
                    assert(items == old(self)@.items.push(item@));
                    assert forall|i: int| 0 <= i < items.len() implies normalized(
                        #[trigger] items[i].description,
                    ) == items[i].description && items[i].id < self@.next_id by {
                        if i == items.len() - 1 {
                            crate::text::lemma_normalized_idempotent(todo_description@);
                        }
                    }
                }
                true
            },
        }
    }

    /// The entry whose description is the normalized form of `todo_description`.
    pub fn get_item_by_description(&self, todo_description: String) -> (r: Option<&TodoItem>)
        requires
            self.wf(),
        ensures
            r is Some <==> has_description(self@.items, normalized(todo_description@)),
            r is Some ==> r->0@ == self@.items[index_of_description(
                self@.items,
                normalized(todo_description@),
            )],
    {
        let key = normalize(todo_description.as_str());
        match self.position_of_description(&key) {
            Some(i) => {
                assert(self@.items[i as int] == self.list[i as int]@);
                Some(&self.list[i])
            },
            None => None,
        }
    }

    /// The entry whose id is `todo_id`.
    pub fn get_item_by_id(&self, todo_id: u32) -> (r: Option<&TodoItem>)
        requires
            self.wf(),
        ensures
            r is Some <==> has_id(self@.items, todo_id),
            r is Some ==> r->0@ == self@.items[index_of_id(self@.items, todo_id)],
    {
        match self.position_of_id(todo_id) {
            Some(i) => {
                assert(self@.items[i as int] == self.list[i as int]@);
                Some(&self.list[i])
            },
            None => None,
        }
    }

    /// Flips the completion flag of the entry at position `i`.
    fn toggle_at(&mut self, i: usize) -> (r: bool)
        requires
            old(self).wf(),
            i < old(self)@.items.len(),
        ensures
            final(self).wf(),
            final(self)@ == (ListView {
                items: old(self)@.items.update(i as int, toggled(old(self)@.items[i as int])),
                next_id: old(self)@.next_id,
            }),
            r == !old(self)@.items[i as int].done,
    {
        self.list[i].update();
        assert(self@.items =~= old(self)@.items.update(i as int, toggled(old(self)@.items[i as int])));
        self.list[i].done
    }

    /// Flips the completion flag of the entry whose description is the
    /// normalized form of `todo_description`, and returns the new flag.
    pub fn update_todo_item_description(&mut self, todo_description: String) -> (r: Option<bool>)
        requires
            old(self).wf(),
        ensures
            final(self).wf(),
            counter_step(old(self)@, final(self)@, false),
            r is Some <==> has_description(old(self)@.items, normalized(todo_description@)),
            r is None ==> final(self)@ == old(self)@,
            r is Some ==> {
                let i = index_of_description(old(self)@.items, normalized(todo_description@));
                &&& r == Some(!old(self)@.items[i].done)
                &&& final(self)@ == (ListView {
                    items: old(self)@.items.update(i, toggled(old(self)@.items[i])),
                    next_id: old(self)@.next_id,
                })
            },
    {
        let key = normalize(todo_description.as_str());
        match self.position_of_description(&key) {
            Some(i) => Some(self.toggle_at(i)),
            None => None,
        }
    }

    /// Flips the completion flag of the entry whose id is `id`, and returns
    /// the new flag.
    pub fn update_todo_item_id(&mut self, id: u32) -> (r: Option<bool>)
        requires
            old(self).wf(),
        ensures
            final(self).wf(),
            counter_step(old(self)@, final(self)@, false),
            r is Some <==> has_id(old(self)@.items, id),
            r is None ==> final(self)@ == old(self)@,
            r is Some ==> {
                let i = index_of_id(old(self)@.items, id);
                &&& r == Some(!old(self)@.items[i].done)
                &&& final(self)@ == (ListView {
                    items: old(self)@.items.update(i, toggled(old(self)@.items[i])),
                    next_id: old(self)@.next_id,
                })
            },
    {
        match self.position_of_id(id) {
            Some(i) => Some(self.toggle_at(i)),
            None => None,
        }
    }

    /// Takes out the entry at position `i`.
    fn take_at(&mut self, i: usize) -> (r: TodoItem)
        requires
            old(self).wf(),
            i < old(self)@.items.len(),
        ensures
            final(self).wf(),
            r@ == old(self)@.items[i as int],
            final(self)@ == (ListView {
                items: old(self)@.items.remove(i as int),
                next_id: old(self)@.next_id,
            }),
    {
        let r = self.list.remove(i);
        assert(self@.items =~= old(self)@.items.remove(i as int));
        proof {
            let o = old(self)@.items;
            let n = self@.items;
            assert forall|a: int, b: int|
                0 <= a < n.len() && 0 <= b < n.len() && a != b implies (#[trigger] n[a]).description
                != (#[trigger] n[b]).description && n[a].id != n[b].id by {
                let oa = if a < i { a } else { a + 1 };
                let ob = if b < i { b } else { b + 1 };
                assert(n[a] == o[oa] && n[b] == o[ob]);
                assert(oa != ob);
                assert(o[oa].description != o[ob].description && o[oa].id != o[ob].id);
            }
            assert forall|a: int| 0 <= a < n.len() implies normalized(#[trigger] n[a].description)
                == n[a].description && n[a].id < self@.next_id by {
                let oa = if a < i { a } else { a + 1 };
                assert(n[a] == o[oa]);
                assert(normalized(o[oa].description) == o[oa].description);
                assert(o[oa].id < old(self)@.next_id);
            }
            assert(valid_items(n, self@.next_id));
        }
        r
    }

    /// Takes out the entry whose description is the normalized form of
    /// `todo_description`.
    pub fn remove_by_description(&mut self, todo_description: String) -> (r: Option<TodoItem>)
        requires
            old(self).wf(),
        ensures
            final(self).wf(),
            counter_step(old(self)@, final(self)@, false),
            r is Some <==> has_description(old(self)@.items, normalized(todo_description@)),
            r is None ==> final(self)@ == old(self)@,
            r is Some ==> {
                let i = index_of_description(old(self)@.items, normalized(todo_description@));
                &&& r->0@ == old(self)@.items[i]
                &&& final(self)@ == (ListView {
                    items: old(self)@.items.remove(i),
                    next_id: old(self)@.next_id,
                })
            },
    {
        let key = normalize(todo_description.as_str());
        match self.position_of_description(&key) {
            Some(i) => Some(self.take_at(i)),
            None => None,
        }
    }

    /// Takes out the entry whose id is `id`.
    pub fn remove_by_id(&mut self, id: u32) -> (r: Option<TodoItem>)
        requires
            old(self).wf(),
        ensures
            final(self).wf(),
            counter_step(old(self)@, final(self)@, false),
            r is Some <==> has_id(old(self)@.items, id),
            r is None ==> final(self)@ == old(self)@,
            r is Some ==> {
                let i = index_of_id(old(self)@.items, id);
                &&& r->0@ == old(self)@.items[i]
                &&& final(self)@ == (ListView {
                    items: old(self)@.items.remove(i),
                    next_id: old(self)@.next_id,
                })
            },
    {
        match self.position_of_id(id) {
            Some(i) => Some(self.take_at(i)),
            None => None,
        }
    }

    /// The position of the entry whose description is `key`, if any.
    fn position_of_description(&self, key: &String) -> (r: Option<usize>)
        requires
            self.wf(),
        ensures
            match r {
                Some(i) => i < self@.items.len() && self@.items[i as int].description == key@
                    && i == index_of_description(self@.items, key@),
                None => !has_description(self@.items, key@),
            },
    {
        let mut i: usize = 0;
        while i < self.list.len()
            invariant
                self.wf(),
                i <= self.list.len(),
                forall|j: int| 0 <= j < i ==> self@.items[j].description != key@,
            decreases self.list.len() - i,
        {
            if self.list[i].description == *key {
                proof {
                    lemma_lookups_agree(self@.items, self@.next_id, i as int);
                }
                return Some(i);
            }
            i = i + 1;
        }
        None
    }

    /// The position of the entry whose id is `id`, if any.
    fn position_of_id(&self, id: u32) -> (r: Option<usize>)
        requires
            self.wf(),
        ensures
            match r {
                Some(i) => i < self@.items.len() && self@.items[i as int].id == id
                    && i == index_of_id(self@.items, id),
                None => !has_id(self@.items, id),
            },
    {
        let mut i: usize = 0;
        while i < self.list.len()
            invariant
                self.wf(),
                i <= self.list.len(),
                forall|j: int| 0 <= j < i ==> self@.items[j].id != id,
            decreases self.list.len() - i,
        {
            if self.list[i].id == id {
                proof {
                    lemma_lookups_agree(self@.items, self@.next_id, i as int);
                }
                return Some(i);
            }
            i = i + 1;
        }
        None
    }
}

} // verus!
