//! Properties that relate several operations of the collection.
use vstd::prelude::*;

use crate::csv::{
    csv_decode, csv_data_lines, csv_item, csv_row, csv_safe, csv_text, flag_text, id_after,
    lemma_data_lines, lemma_id_after, lemma_parse_decimal, lemma_row,
};
use crate::text::normalized;
use crate::todo::{
    counter_step, has_description, has_id, ListView, index_of_description, index_of_id, toggled, valid_items, ItemView,
};

verus! {

/// Once a description has been inserted, inserting it again in any casing
/// finds it present, so the second insertion adds nothing.
pub proof fn lemma_reinsert_is_duplicate(
    items: Seq<ItemView>,
    id: u32,
    first: Seq<char>,
    again: Seq<char>,
)
    requires
        normalized(first) == normalized(again),
    ensures
        has_description(
            items.push(ItemView { id: id, description: normalized(first), done: false }),
            normalized(again),
        ),
{
    let after = items.push(ItemView { id: id, description: normalized(first), done: false });
    assert(after[items.len() as int].description == normalized(again));
}

/// The id that the next insertion hands out belongs to no entry of a valid
/// collection: ids are never handed out twice.
pub proof fn lemma_next_id_is_fresh(items: Seq<ItemView>, next_id: u32)
    requires
        valid_items(items, next_id),
    ensures
        !has_id(items, next_id),
{
    if has_id(items, next_id) {
        let i = index_of_id(items, next_id);
        assert(normalized(items[i].description) == items[i].description);
        assert(items[i].id < next_id);
    }
}

/// Flipping the entry at `i` keeps the collection valid.
proof fn lemma_toggle_keeps_valid(items: Seq<ItemView>, next_id: u32, i: int)
    requires
        valid_items(items, next_id),
        0 <= i < items.len(),
    ensures
        valid_items(items.update(i, toggled(items[i])), next_id),
{
    let once = items.update(i, toggled(items[i]));
    assert forall|a: int| 0 <= a < once.len() implies normalized(#[trigger] once[a].description)
        == once[a].description && once[a].id < next_id by {
        assert(once[a].description == items[a].description && once[a].id == items[a].id);
    }
    assert forall|a: int, b: int|
        0 <= a < once.len() && 0 <= b < once.len() && a != b implies (#[trigger] once[a]).description
        != (#[trigger] once[b]).description && once[a].id != once[b].id by {
        assert(once[a].description == items[a].description && once[a].id == items[a].id);
        assert(once[b].description == items[b].description && once[b].id == items[b].id);
    }
}

/// Updating the entry with a given id twice gives back the entries as they
/// were: the second update finds the same entry and flips its flag back.
pub proof fn lemma_update_by_id_twice(items: Seq<ItemView>, next_id: u32, id: u32)
    requires
        valid_items(items, next_id),
        has_id(items, id),
    ensures
        ({
            let i = index_of_id(items, id);
            let once = items.update(i, toggled(items[i]));
            &&& valid_items(once, next_id)
            &&& has_id(once, id)
            &&& index_of_id(once, id) == i
            &&& once[i].done == !items[i].done
            &&& once.update(i, toggled(once[i])) == items
        }),
{
    let i = index_of_id(items, id);
    assert(0 <= i < items.len() && items[i].id == id);
    let once = items.update(i, toggled(items[i]));
    lemma_toggle_keeps_valid(items, next_id, i);
    assert(once[i].id == id);
    let j = index_of_id(once, id);
    assert(0 <= j < once.len() && once[j].id == id);
    if j != i {
        assert(once[j] == items[j]);
        assert(items[j].id != items[i].id);
    }
    assert(once.update(i, toggled(once[i])) =~= items);
}

/// Updating the entry with a given description twice gives back the entries
/// as they were: the second update finds the same entry and flips its flag
/// back.
pub proof fn lemma_update_by_description_twice(items: Seq<ItemView>, next_id: u32, d: Seq<char>)
    requires
        valid_items(items, next_id),
        has_description(items, d),
    ensures
        ({
            let i = index_of_description(items, d);
            let once = items.update(i, toggled(items[i]));
            &&& valid_items(once, next_id)
            &&& has_description(once, d)
            &&& index_of_description(once, d) == i
            &&& once[i].done == !items[i].done
            &&& once.update(i, toggled(once[i])) == items
        }),
{
    let i = index_of_description(items, d);
    assert(0 <= i < items.len() && items[i].description == d);
    let once = items.update(i, toggled(items[i]));
    lemma_toggle_keeps_valid(items, next_id, i);
    assert(once[i].description == d);
    let j = index_of_description(once, d);
    assert(0 <= j < once.len() && once[j].description == d);
    if j != i {
        assert(once[j] == items[j]);
        assert(items[j].description != items[i].description);
    }
    assert(once.update(i, toggled(once[i])) =~= items);
}

/// Reading back the CSV text of a valid collection whose descriptions hold
/// no comma and no line break gives the same entries, in the same order, and
/// a next id one more than the largest id (0 when there is no entry), which
/// is never more than the collection's own next id.
pub proof fn lemma_csv_round_trip(items: Seq<ItemView>, next_id: u32)
    requires
        valid_items(items, next_id),
        forall|i: int| 0 <= i < items.len() ==> csv_safe(#[trigger] items[i].description),
    ensures
        id_after(items) <= next_id,
        csv_decode(csv_text(items)) == Some(ListView { items: items, next_id: id_after(items) as u32 }),
{
    lemma_data_lines(items);
    lemma_id_after(items, next_id as nat);
    let ls = csv_data_lines(csv_text(items));
    assert(ls.len() == items.len());
    assert forall|k: int| 0 <= k < ls.len() implies #[trigger] csv_item(ls[k]) == Some(items[k]) by {
        let it = items[k];
        assert(ls[k] == csv_row(it));
        assert(csv_safe(items[k].description));
        lemma_row(it);
        lemma_parse_decimal(it.id);
        assert(normalized(it.description) == it.description);
        if !it.done {
            assert(flag_text(false).len() != flag_text(true).len());
        }
    }
    assert(forall|k: int| 0 <= k < ls.len() ==> (#[trigger] csv_item(ls[k])) is Some);
    let back = Seq::new(ls.len(), |k: int| csv_item(ls[k])->0);
    assert(back =~= items);
    let n = id_after(items) as u32;
    assert forall|i: int| 0 <= i < items.len() implies normalized(#[trigger] items[i].description)
        == items[i].description && items[i].id < n by {}
    assert(valid_items(items, n));
}

/// The number of calls in `added` that added an entry.
pub open spec fn count_added(added: Seq<bool>) -> nat
    decreases added.len(),
{
    if added.len() == 0 {
        0
    } else {
        count_added(added.drop_last()) + if added.last() {
            1nat
        } else {
            0nat
        }
    }
}

proof fn lemma_count_added_grows(added: Seq<bool>, j: int, k: int)
    requires
        0 <= j <= k <= added.len(),
    ensures
        count_added(added.take(j)) <= count_added(added.take(k)),
    decreases k - j,
{
    if j < k {
        lemma_count_added_grows(added, j, k - 1);
        assert(added.take(k).drop_last() =~= added.take(k - 1));
    }
}

proof fn lemma_counter_along(states: Seq<ListView>, added: Seq<bool>, k: int)
    requires
        states.len() == added.len() + 1,
        states[0].next_id == 0,
        forall|m: int| 0 <= m < added.len() ==> counter_step(#[trigger] states[m], states[m + 1], added[m]),
        0 <= k < states.len(),
    ensures
        states[k].next_id == count_added(added.take(k)),
    decreases k,
{
    if k == 0 {
        assert(added.take(0) =~= seq![]);
    } else {
        lemma_counter_along(states, added, k - 1);
        assert(counter_step(states[k - 1], states[k], added[k - 1]));
        assert(added.take(k).drop_last() =~= added.take(k - 1));
    }
}

/// Along any run of calls that starts from an empty collection, whose
/// counter is 0, the counter equals the number of calls that added an entry,
/// each added entry gets as its id the number of entries added before it,
/// and so ids grow with every addition and none is handed out twice, whether
/// or not the earlier entry was removed since.
pub proof fn lemma_ids_count_insertions(states: Seq<ListView>, added: Seq<bool>)
    requires
        states.len() == added.len() + 1,
        states[0].next_id == 0,
        forall|m: int| 0 <= m < added.len() ==> counter_step(#[trigger] states[m], states[m + 1], added[m]),
    ensures
        forall|k: int| 0 <= k < states.len() ==> (#[trigger] states[k]).next_id == count_added(added.take(k)),
        forall|k: int|
            0 <= k < added.len() && #[trigger] added[k] ==> states[k + 1].items.last().id == count_added(
                added.take(k),
            ),
        forall|j: int, k: int|
            0 <= j < k < added.len() && #[trigger] added[j] && #[trigger] added[k] ==> states[j + 1].items.last().id
                < states[k + 1].items.last().id,
{
    assert forall|k: int| 0 <= k < states.len() implies (#[trigger] states[k]).next_id == count_added(
        added.take(k),
    ) by {
        lemma_counter_along(states, added, k);
    }
    assert forall|k: int| 0 <= k < added.len() && #[trigger] added[k] implies states[k + 1].items.last().id
        == count_added(added.take(k)) by {
        lemma_counter_along(states, added, k);
        assert(counter_step(states[k], states[k + 1], added[k]));
    }
    assert forall|j: int, k: int|
        0 <= j < k < added.len() && #[trigger] added[j] && #[trigger] added[k] implies states[j + 1].items.last().id
        < states[k + 1].items.last().id by {
        lemma_counter_along(states, added, j);
        lemma_counter_along(states, added, k);
        assert(counter_step(states[j], states[j + 1], added[j]));
        assert(counter_step(states[k], states[k + 1], added[k]));
        assert(added.take(j + 1).drop_last() =~= added.take(j));
        lemma_count_added_grows(added, j + 1, k);
    }
}

} // verus!
