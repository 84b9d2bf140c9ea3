//! The checker: replays an ordered history of methods against the item table
//! and the account balances.
use vstd::prelude::*;
use std::collections::HashMap;
use std::collections::BTreeMap;
use crate::types::{TEST_SIZE, NUM_THRDS, Method, MethodType, Semantics, Status};
use crate::item::{Item, ItemModel, item_of_key};
use crate::ordered_map::{
    map_of, keyed_map, entries_in_order, ordered_entries, lemma_map_of, lemma_position,
    lemma_map_of_remove, lemma_map_of_insert, lemma_entries_in_order,
};
use crate::key_order::{integer_keys_ordered, lemma_integer_keys_ordered};
use crate::model::{
    Replay, Step, slots, null_slot, in_table, slot_of, claim_slot, failed_loop, order_loop,
    keyed_by_response, producer_step, read_write_step, consumer_step, step, run_from, Run,
    position_of, drain_finished, promotions_clear, failed_demotable, first_index,
    checkpoint_goes_through, checkpoint, lemma_checkpoint_rejected, taken, least_free_from,
    free_key, insert_by_response, key_methods, empty_table,
    lemma_key_methods_prefix,
};

verus! {

/// The abstract values of a sequence of items.
pub open spec fn views(v: Seq<Item>) -> Seq<ItemModel> {
    v.map_values(|x: Item| x@)
}

/// The run state that the checker's tables hold.
pub open spec fn replay_of(
    balances: Map<i64, i64>,
    items: Seq<Item>,
    consumed: Seq<Item>,
    finished: Seq<i64>,
    failed: Seq<Item>,
) -> Replay {
    Replay {
        balances,
        items: views(items),
        consumed: views(consumed),
        finished,
        failed: views(failed),
    }
}

/// The index of the null slot.
pub(crate) fn null_slot_index() -> (r: usize)
    ensures
        r == null_slot(),
{
    (TEST_SIZE * NUM_THRDS) as usize
}

/// The number of slots.
fn slot_count() -> (r: usize)
    ensures
        r == slots(),
{
    (TEST_SIZE * NUM_THRDS) as usize + 1
}

/// Puts `it` in slot `s` of the table.
pub(crate) fn store(vector_items: &mut Vec<Item>, s: usize, it: Item)
    requires
        s < old(vector_items).len(),
    ensures
        views(final(vector_items)@) == views(old(vector_items)@).update(s as int, it@),
        final(vector_items).len() == old(vector_items).len(),
{
    vector_items.set(s, it);
    proof {
        assert(views(vector_items@) =~= views(old(vector_items)@).update(s as int, it@));
    }
}

/// Finds a slot for the item of method `m`, as [`claim_slot`] says.
pub(crate) fn claim_slot_for(vector_items: &mut Vec<Item>, m: &Method, last_key: i64)
    requires
        old(vector_items).len() == slots(),
    ensures
        final(vector_items).len() == slots(),
        views(final(vector_items)@) == claim_slot(views(old(vector_items)@), *m, last_key),
{
    let array_bounds: i64 = vector_items.len() as i64;
    let null = null_slot_index();
    if m.item_key >= 0 && m.item_key < array_bounds {
        let k = m.item_key as usize;
        if vector_items[k].key == i64::MAX {
            let mut item = Item::newFromKey(m.item_key);
            item.producer = last_key;
            store(vector_items, k, item);
        } else if vector_items[null].key == i64::MAX {
            let mut item = Item::newFromKey(m.item_key);
            item.producer = last_key;
            store(vector_items, null, item);
        }
    }
}

/// The producers before method `it` of the ordered map that count against it,
/// a failed consumer: the item of each goes on top of `stack_failed`.
fn handle_failed_consumer(
    map_methods: &BTreeMap<i64, Method>,
    vector_items: &Vec<Item>,
    it: i64,
    vec_item: &Item,
    stack_failed: &mut Vec<Item>,
)
    requires
        keyed_map(map_methods@),
        vector_items.len() == slots(),
        0 <= it < map_methods@.len(),
        failed_loop(
            MethodType::CONSUMER,
            entries_in_order(map_methods@),
            it as int,
            0,
            views(vector_items@),
            vec_item@,
            views(old(stack_failed)@),
        ) is Some,
    ensures
        views(final(stack_failed)@) == failed_loop(
            MethodType::CONSUMER,
            entries_in_order(map_methods@),
            it as int,
            0,
            views(vector_items@),
            vec_item@,
            views(old(stack_failed)@),
        ).unwrap(),
{
    let (_keys, entries) = ordered_entries(map_methods);
    proof {
        lemma_map_of(entries@);
    }
    handle_failed(MethodType::CONSUMER, &entries, vector_items, it, vec_item, stack_failed)
}

/// The producers before method `it` of the ordered map that count against it,
/// a failed read: the item of each goes on top of `stack_failed`.
fn handle_failed_read(
    map_methods: &BTreeMap<i64, Method>,
    vector_items: &Vec<Item>,
    it: i64,
    vec_item: &Item,
    stack_failed: &mut Vec<Item>,
)
    requires
        keyed_map(map_methods@),
        vector_items.len() == slots(),
        0 <= it < map_methods@.len(),
        failed_loop(
            MethodType::READER,
            entries_in_order(map_methods@),
            it as int,
            0,
            views(vector_items@),
            vec_item@,
            views(old(stack_failed)@),
        ) is Some,
    ensures
        views(final(stack_failed)@) == failed_loop(
            MethodType::READER,
            entries_in_order(map_methods@),
            it as int,
            0,
            views(vector_items@),
            vec_item@,
            views(old(stack_failed)@),
        ).unwrap(),
{
    let (_keys, entries) = ordered_entries(map_methods);
    proof {
        lemma_map_of(entries@);
    }
    handle_failed(MethodType::READER, &entries, vector_items, it, vec_item, stack_failed)
}

/// The walk that both failed-method handlers share; `kind` tells them apart.
fn handle_failed(
    kind: MethodType,
    entries: &Vec<Method>,
    vector_items: &Vec<Item>,
    it: i64,
    vec_item: &Item,
    stack_failed: &mut Vec<Item>,
)
    requires
        vector_items.len() == slots(),
        0 <= it < entries.len(),
        failed_loop(
            kind,
            entries@,
            it as int,
            0,
            views(vector_items@),
            vec_item@,
            views(old(stack_failed)@),
        ) is Some,
    ensures
        views(final(stack_failed)@) == failed_loop(
            kind,
            entries@,
            it as int,
            0,
            views(vector_items@),
            vec_item@,
            views(old(stack_failed)@),
        ).unwrap(),
{
    let ghost goal = failed_loop(
        kind,
        entries@,
        it as int,
        0,
        views(vector_items@),
        vec_item@,
        views(old(stack_failed)@),
    );
    let m = entries[it as usize];
    let array_bounds: i64 = vector_items.len() as i64;
    let null = null_slot_index();
    let mut j: usize = 0;
    while j < it as usize
        invariant
            0 <= j <= it < entries.len(),
            vector_items.len() == slots(),
            array_bounds == slots(),
            null == null_slot(),
            m == entries@[it as int],
            failed_loop(
                kind,
                entries@,
                it as int,
                j as int,
                views(vector_items@),
                vec_item@,
                views(stack_failed@),
            ) == goal,
            goal is Some,
        decreases it - j,
    {
        let e = entries[j];
        if e.response < m.invocation {
            let s: usize;
            if m.item_key != i64::MIN {
                s = e.item_key as usize;
            } else {
                s = null;
            }
            let counts = e.MethodType == MethodType::PRODUCER && vec_item.status == Status::PRESENT
                && if kind == MethodType::CONSUMER {
                e.semantics == Semantics::FIFO || e.semantics == Semantics::LIFO || m.item_key
                    == e.item_key
            } else {
                m.item_key == e.item_key
            };
            if counts {
                let vec_item_0 = vector_items[s].duplicate();
                let ghost before = stack_failed@;
                stack_failed.insert(0, vec_item_0);
                proof {
                    assert(views(stack_failed@) =~= seq![vector_items@[s as int]@] + views(
                        before,
                    ));
                }
            }
        }
        j = j + 1;
    }
}

/// The earlier methods of producer `it` of the ordered map, as [`order_loop`] says.
fn order_earlier_producers(entries: &Vec<Method>, it: usize, vector_items: &mut Vec<Item>)
    requires
        old(vector_items).len() == slots(),
        it < entries.len(),
        in_table(entries@[it as int].item_key),
        entries@[it as int].MethodType == MethodType::PRODUCER,
        order_loop(entries@, it as int, 0, views(old(vector_items)@)) is Some,
    ensures
        final(vector_items).len() == slots(),
        views(final(vector_items)@) == order_loop(
            entries@,
            it as int,
            0,
            views(old(vector_items)@),
        ).unwrap(),
{
    let ghost goal = order_loop(entries@, it as int, 0, views(old(vector_items)@));
    let m = entries[it];
    let k = m.item_key as usize;
    let null = null_slot_index();
    let mut j: usize = 0;
    while j < it
        invariant
            0 <= j <= it < entries.len(),
            vector_items.len() == slots(),
            null == null_slot(),
            m == entries@[it as int],
            k == m.item_key,
            in_table(m.item_key),
            m.MethodType == MethodType::PRODUCER,
            order_loop(entries@, it as int, j as int, views(vector_items@)) == goal,
            goal is Some,
        decreases it - j,
    {
        let e = entries[j];
        if e.response < m.invocation {
            let s: usize;
            if e.item_key != i64::MIN {
                s = e.item_key as usize;
            } else {
                s = null;
            }
            let mut vec_item_0 = vector_items[s].duplicate();
            if e.MethodType == MethodType::PRODUCER && vec_item_0.status == Status::PRESENT
                && m.MethodType == MethodType::PRODUCER && e.semantics == Semantics::FIFO {
                vec_item_0.promote_items.push(m.item_key);
                let ghost before = views(vector_items@);
                let mut target = vector_items[k].duplicate();
                target.demote();
                target.demote_methods.push(e);
                store(vector_items, k, target);
                proof {
                    let d = before[k as int].demote().unwrap();
                    assert(target@ == ItemModel { demote_methods: d.demote_methods.push(e), ..d });
                }
            } else if e.MethodType == MethodType::PRODUCER && vec_item_0.status == Status::PRESENT
                && m.MethodType == MethodType::PRODUCER && e.semantics == Semantics::LIFO {
                let ghost before = views(vector_items@);
                let mut target = vector_items[k].duplicate();
                target.promote_items.push(vec_item_0.key);
                store(vector_items, k, target);
                proof {
                    assert(target@ == ItemModel {
                        promote_items: before[k as int].promote_items.push(vec_item_0.key),
                        ..before[k as int]
                    });
                }
                vec_item_0.demote();
                vec_item_0.demote_methods.push(m);
            }
        }
        j = j + 1;
    }
}

/// A producer: its value becomes its account's balance and its item is put
/// in the table, as [`producer_step`] says.
fn replay_producer(
    account_balances: &mut HashMap<i64, i64>,
    entries: &Vec<Method>,
    it: usize,
    vector_items: &mut Vec<Item>,
    Ghost(st): Ghost<Replay>,
)
    requires
        old(vector_items).len() == slots(),
        it < entries.len(),
        st.balances == old(account_balances)@,
        st.items == views(old(vector_items)@),
        entries@[it as int].MethodType == MethodType::PRODUCER,
        producer_step(entries@, it as int, st) is Next,
    ensures
        final(vector_items).len() == slots(),
        ({
            let next = producer_step(entries@, it as int, st)->Next_0;
            &&& final(account_balances)@ == next.balances
            &&& views(final(vector_items)@) == next.items
        }),
{
    let m = entries[it];
    account_balances.insert(m.item_key, m.item_val);
    let k = m.item_key as usize;
    let mut item = vector_items[k].duplicate();
    let was = item.status;
    item.producer = m.response;
    if was == Status::ABSENT {
        item.status = Status::PRESENT;
        item.demote_methods.clear();
    }
    item.add_int(1);
    store(vector_items, k, item);
    if m.semantics == Semantics::FIFO || m.semantics == Semantics::LIFO {
        order_earlier_producers(entries, it, vector_items);
    }
}

/// The slot of `key` in a table of `slots()` items.
pub(crate) fn slot_index(key: i64) -> (s: usize)
    ensures
        s == slot_of(key),
{
    let array_bounds: i64 = slot_count() as i64;
    if key >= 0 && key < array_bounds {
        key as usize
    } else {
        null_slot_index()
    }
}

/// A read or a write: its value moves into its account, as [`read_write_step`]
/// says. Returns `false` where the step rejects the history.
fn replay_read_write(
    account_balances: &mut HashMap<i64, i64>,
    map_methods: &BTreeMap<i64, Method>,
    entries: &Vec<Method>,
    it: usize,
    vector_items: &mut Vec<Item>,
    stack_failed: &mut Vec<Item>,
    Ghost(st): Ghost<Replay>,
) -> (accepted: bool)
    requires
        keyed_by_response(entries@),
        map_methods@ == map_of(entries@),
        old(vector_items).len() == slots(),
        it < entries.len() < i64::MAX,
        st.balances == old(account_balances)@,
        st.items == views(old(vector_items)@),
        st.failed == views(old(stack_failed)@),
        !(read_write_step(entries@, it as int, st) is Stuck),
    ensures
        final(vector_items).len() == slots(),
        match read_write_step(entries@, it as int, st) {
            Step::Next(next) => {
                &&& accepted
                &&& final(account_balances)@ == next.balances
                &&& views(final(vector_items)@) == next.items
                &&& views(final(stack_failed)@) == next.failed
            },
            Step::Rejected(next) => {
                &&& !accepted
                &&& final(account_balances)@ == next.balances
                &&& views(final(vector_items)@) == next.items
                &&& views(final(stack_failed)@) == next.failed
            },
            Step::Stuck => false,
        },
{
    let m = entries[it];
    let key = m.item_key;
    proof {
        if m.item_val < 0 && st.balances.contains_key(key) {
            assert(m.item_val != i64::MIN);
        }
    }
    let old_balance: Option<i64> = match account_balances.get(&key) {
        Some(b) => Some(*b),
        None => None,
    };
    let is_sender = m.item_val < 0;
    if is_sender {
        if old_balance.is_none() {
            return false;
        }
        if old_balance.unwrap() < -1 * m.item_val {
            return false;
        }
    }
    let new_balance = old_balance.unwrap() + m.item_val;
    account_balances.insert(key, new_balance);
    let s = slot_index(key);
    let mut vec_item = vector_items[s].duplicate();
    if m.status {
        vec_item.demote_r();
        let mut target = vector_items[s].duplicate();
        target.demote_r();
        store(vector_items, s, target);
    } else {
        proof {
            lemma_entries_in_order(entries@);
            lemma_map_of(entries@);
        }
        handle_failed_read(map_methods, vector_items, it as i64, &vec_item, stack_failed);
    }
    true
}

/// A consumer: its item leaves the table, as [`consumer_step`] says.
fn replay_consumer(
    map_methods: &BTreeMap<i64, Method>,
    entries: &Vec<Method>,
    it: usize,
    vector_items: &mut Vec<Item>,
    stack_consumer: &mut Vec<Item>,
    stack_finished_methods: &mut Vec<i64>,
    stack_failed: &mut Vec<Item>,
    Ghost(st): Ghost<Replay>,
)
    requires
        keyed_by_response(entries@),
        map_methods@ == map_of(entries@),
        old(vector_items).len() == slots(),
        it < entries.len() < i64::MAX,
        st.items == views(old(vector_items)@),
        st.consumed == views(old(stack_consumer)@),
        st.finished == old(stack_finished_methods)@,
        st.failed == views(old(stack_failed)@),
        !(consumer_step(entries@, it as int, st) is Stuck),
    ensures
        final(vector_items).len() == slots(),
        ({
            let next = consumer_step(entries@, it as int, st)->Next_0;
            &&& consumer_step(entries@, it as int, st) is Next
            &&& views(final(vector_items)@) == next.items
            &&& views(final(stack_consumer)@) == next.consumed
            &&& final(stack_finished_methods)@ == next.finished
            &&& views(final(stack_failed)@) == next.failed
        }),
{
    let m = entries[it];
    let last_key = entries[entries.len() - 1].response;
    let s = slot_index(m.item_key);
    let mut vec_item = vector_items[s].duplicate();
    if m.status {
        if vec_item.sum_is_positive() {
            // The read weight of a consumed item is reset; it is zero
            // throughout, so only its slot has to exist.
            assert(in_table(m.item_key));
        }
        vec_item.sub_int(1);
        vec_item.status = Status::ABSENT;
        let mut target = vector_items[s].duplicate();
        target.sub_int(1);
        target.status = Status::ABSENT;
        store(vector_items, s, target);
        // Where the weight fell below zero, no demotion of the item overlaps
        // this consumer (the requires): there is nothing to hand back.
        let ghost before = views(stack_consumer@);
        stack_consumer.push(vec_item.duplicate());
        proof {
            assert(views(stack_consumer@) =~= before.push(vec_item@));
        }
        stack_finished_methods.push(m.response);
        if vec_item.producer != last_key {
            stack_finished_methods.push(vec_item.producer);
        }
    } else {
        proof {
            lemma_entries_in_order(entries@);
            lemma_map_of(entries@);
        }
        handle_failed_consumer(map_methods, vector_items, it as i64, &vec_item, stack_failed);
    }
}

/// What method `it` of the ordered map does to the checker's tables, as
/// [`step`] says. Returns `false` where the step rejects the history.
pub(crate) fn replay_method(
    account_balances: &mut HashMap<i64, i64>,
    map_methods: &BTreeMap<i64, Method>,
    entries: &Vec<Method>,
    it: usize,
    vector_items: &mut Vec<Item>,
    stack_consumer: &mut Vec<Item>,
    stack_finished_methods: &mut Vec<i64>,
    stack_failed: &mut Vec<Item>,
) -> (accepted: bool)
    requires
        keyed_by_response(entries@),
        map_methods@ == map_of(entries@),
        old(vector_items).len() == slots(),
        it < entries.len() < i64::MAX,
        !(step(
            entries@,
            it as int,
            replay_of(
                old(account_balances)@,
                old(vector_items)@,
                old(stack_consumer)@,
                old(stack_finished_methods)@,
                old(stack_failed)@,
            ),
        ) is Stuck),
    ensures
        final(vector_items).len() == slots(),
        ({
            let after = replay_of(
                final(account_balances)@,
                final(vector_items)@,
                final(stack_consumer)@,
                final(stack_finished_methods)@,
                final(stack_failed)@,
            );
            match step(
                entries@,
                it as int,
                replay_of(
                    old(account_balances)@,
                    old(vector_items)@,
                    old(stack_consumer)@,
                    old(stack_finished_methods)@,
                    old(stack_failed)@,
                ),
            ) {
                Step::Next(next) => accepted && after == next,
                Step::Rejected(next) => !accepted && after == next,
                Step::Stuck => false,
            }
        }),
{
    let ghost st0 = replay_of(
        account_balances@,
        vector_items@,
        stack_consumer@,
        stack_finished_methods@,
        stack_failed@,
    );
    let m = entries[it];
    let last_key = entries[entries.len() - 1].response;
    claim_slot_for(vector_items, &m, last_key);
    let ghost st = Replay { items: views(vector_items@), ..st0 };
    if m.MethodType == MethodType::PRODUCER {
        replay_producer(account_balances, entries, it, vector_items, Ghost(st));
        true
    } else if m.MethodType == MethodType::READER || m.MethodType == MethodType::WRITER {
        replay_read_write(
            account_balances,
            map_methods,
            entries,
            it,
            vector_items,
            stack_failed,
            Ghost(st),
        )
    } else {
        replay_consumer(
            map_methods,
            entries,
            it,
            vector_items,
            stack_consumer,
            stack_finished_methods,
            stack_failed,
            Ghost(st),
        );
        true
    }
}

/// Replays the ordered map of methods, from the method after `it_start` on a
/// later pass or from the first on a first pass, against the account
/// balances and the item table; then hands back what the replay left to do
/// and judges the item table. Returns `false` for an empty map, for a
/// history that sends from a missing or short account, and for one that
/// leaves an item's weight below zero.
pub fn verify_checkpoint(
    account_balances: &mut HashMap<i64, i64>,
    map_methods: &mut BTreeMap<i64, Method>,
    it_start: &mut i64,
    count_iterated: &mut u64,
    min: i64,
    reset_it_start: &mut bool,
    method_count: &mut u64,
    vector_items: &mut Vec<Item>,
) -> (final_outcome: bool)
    requires
        keyed_map(old(map_methods)@),
        old(map_methods)@.len() < i64::MAX,
        old(map_methods)@.len() > 0 ==> old(vector_items).len() == slots(),
        *old(method_count) + old(map_methods)@.len() <= u64::MAX,
        *old(count_iterated) + old(map_methods)@.len() <= u64::MAX,
        checkpoint_goes_through(
            entries_in_order(old(map_methods)@),
            old(account_balances)@,
            views(old(vector_items)@),
            *old(it_start),
            *old(count_iterated),
        ),
    ensures
        ({
            let c = checkpoint(
                entries_in_order(old(map_methods)@),
                old(account_balances)@,
                views(old(vector_items)@),
                *old(it_start),
                *old(count_iterated),
                *old(reset_it_start),
            );
            &&& final_outcome == c.verdict
            &&& final(account_balances)@ == c.balances
            &&& views(final(vector_items)@) == c.items
            &&& final(map_methods)@ == map_of(c.methods)
            &&& *final(it_start) == c.it_start
            &&& *final(reset_it_start) == c.reset_it_start
            &&& *final(method_count) == *old(method_count) + c.replayed
            &&& *final(count_iterated) == *old(count_iterated) + c.replayed
        }),
        final(vector_items).len() == old(vector_items).len(),
        keyed_map(final(map_methods)@),
{
    let mut final_outcome: bool = false;
    let (keys, entries) = ordered_entries(map_methods);
    let mut stack_consumer: Vec<Item> = Vec::new();
    let mut stack_finished_methods: Vec<i64> = Vec::new();
    let mut stack_failed: Vec<Item> = Vec::new();
    let ghost ms = entries@;
    proof {
        lemma_map_of(ms);
        lemma_integer_keys_ordered();
    }
    if !map_methods.is_empty() {
        let ghost s = first_index(*it_start, *count_iterated).unwrap();
        let ghost start1 = if *count_iterated == 0 { *it_start } else { s as i64 };
        let ghost reset1 = if *count_iterated == 0 { false } else { *reset_it_start };
        let ghost base_count = *method_count;
        let ghost base_iterated = *count_iterated;
        let ghost init = Replay {
            balances: account_balances@,
            items: views(vector_items@),
            consumed: Seq::empty(),
            finished: Seq::empty(),
            failed: Seq::empty(),
        };
        let ghost goal = run_from(ms, s, init);
        proof {
            assert(views(stack_consumer@) =~= Seq::<ItemModel>::empty());
            assert(views(stack_failed@) =~= Seq::<ItemModel>::empty());
        }
        let mut it: i64 = 0;
        let end = map_methods.len() as i64;
        assert(end == ms.len());
        if *count_iterated == 0 {
            *reset_it_start = false;
        } else if it != end {
            *it_start += 1;
            it = *it_start;
        }
        while it < end
            invariant
                entries@ == ms,
                map_methods@ == old(map_methods)@,
                map_of(ms) == old(map_methods)@,
                ms == entries_in_order(old(map_methods)@),
                base_count == *old(method_count),
                base_iterated == *old(count_iterated),
                keyed_by_response(ms),
                0 < ms.len() < i64::MAX,
                end == ms.len(),
                vector_items.len() == slots(),
                old(vector_items).len() == slots(),
                first_index(*old(it_start), *old(count_iterated)) is Some,
                s == first_index(*old(it_start), *old(count_iterated)).unwrap(),
                it >= s,
                s < end ==> s >= 0,
                it <= end || it == s,
                init == (Replay {
                    balances: old(account_balances)@,
                    items: views(old(vector_items)@),
                    consumed: Seq::empty(),
                    finished: Seq::empty(),
                    failed: Seq::empty(),
                }),
                goal == run_from(ms, s, init),
                !(goal is Stuck),
                run_from(
                    ms,
                    it as int,
                    replay_of(
                        account_balances@,
                        vector_items@,
                        stack_consumer@,
                        stack_finished_methods@,
                        stack_failed@,
                    ),
                ) == goal,
                *method_count == base_count + (it - s),
                *count_iterated == base_iterated + (it - s),
                base_count + ms.len() <= u64::MAX,
                base_iterated + ms.len() <= u64::MAX,
                it > s ==> *it_start == it - 1 && !*reset_it_start,
                it == s ==> *it_start == start1 && *reset_it_start == reset1,
                stack_finished_methods@.len() > 0 ==> it > s,
            decreases end - it,
        {
            *method_count += 1;
            *it_start = it;
            *reset_it_start = false;
            *count_iterated += 1;
            let ghost cur = replay_of(
                account_balances@,
                vector_items@,
                stack_consumer@,
                stack_finished_methods@,
                stack_failed@,
            );
            let accepted = replay_method(
                account_balances,
                map_methods,
                &entries,
                it as usize,
                vector_items,
                &mut stack_consumer,
                &mut stack_finished_methods,
                &mut stack_failed,
            );
            if !accepted {
                proof {
                    let next = step(ms, it as int, cur)->Rejected_0;
                    assert(run_from(ms, it as int, cur) == Run::Rejected { st: next, at: it as int });
                    assert(goal == Run::Rejected { st: next, at: it as int });
                    lemma_checkpoint_rejected(
                        ms,
                        init.balances,
                        init.items,
                        *old(it_start),
                        *old(count_iterated),
                        *old(reset_it_start),
                        next,
                        it as int,
                    );
                }
                return false;
            }
            it += 1;
        }
        if *reset_it_start {
            *it_start -= 1;
        }
        let ghost done = goal->Finished_st;
        assert(done == replay_of(
            account_balances@,
            vector_items@,
            stack_consumer@,
            stack_finished_methods@,
            stack_failed@,
        ));
        // No consumed item holds a promotion (the requires): there is nothing
        // to hand back.
        while !stack_consumer.is_empty()
            invariant
                promotions_clear(views(stack_consumer@)),
            decreases stack_consumer.len(),
        {
            let ghost before = stack_consumer@;
            let it_top = stack_consumer.pop().unwrap();
            proof {
                assert(views(stack_consumer@) =~= views(before).drop_last());
            }
        }
        while !stack_failed.is_empty()
            invariant
                failed_demotable(views(stack_failed@)),
            decreases stack_failed.len(),
        {
            let ghost before = stack_failed@;
            let mut top = stack_failed.pop().unwrap();
            proof {
                assert(views(before)[before.len() - 1] == top@);
                assert(views(stack_failed@) =~= views(before).drop_last());
            }
            if top.status == Status::PRESENT {
                top.demote_f();
            }
        }
        let ghost drain_goal = drain_finished(ms, ms[ms.len() - 1].response, done.finished);
        let ghost mut cur = ms;
        while !stack_finished_methods.is_empty()
            invariant
                integer_keys_ordered(),
                keyed_by_response(cur),
                map_methods@ == map_of(cur),
                drain_goal is Some,
                drain_finished(cur, keys@[ms.len() - 1], stack_finished_methods@) == drain_goal,
                keys@[ms.len() - 1] == ms[ms.len() - 1].response,
                keys.len() == ms.len(),
                0 < ms.len() < i64::MAX,
                cur.len() <= ms.len(),
                stack_finished_methods@.len() > 0 ==> *it_start == ms.len() - 1,
            decreases stack_finished_methods.len(),
        {
            let ghost stack_before = stack_finished_methods@;
            let ghost cur_before = cur;
            proof {
                lemma_map_of(cur);
            }
            let last_key = keys[*it_start as usize];
            let top = stack_finished_methods.len() - 1;
            let method_top = stack_finished_methods[top];
            if last_key < map_methods.len() as i64 {
                let ghost j = position_of(cur, method_top).unwrap();
                let ghost l = position_of(cur, last_key).unwrap();
                proof {
                    lemma_position(cur, j);
                    lemma_position(cur, l);
                }
                let e_top = *map_methods.get(&method_top).unwrap();
                let e_last = *map_methods.get(&last_key).unwrap();
                if e_top.item_key != e_last.item_key {
                    map_methods.remove(&method_top);
                    stack_finished_methods.set(top, method_top - 1);
                    proof {
                        lemma_map_of_remove(cur, j);
                        cur = cur.remove(j);
                    }
                }
            }
            stack_finished_methods.pop();
            proof {
                assert(stack_finished_methods@ =~= stack_before.drop_last());
                assert(drain_finished(cur_before, last_key, stack_before)
                    == drain_finished(cur, last_key, stack_finished_methods@));
            }
        }
        proof {
            lemma_map_of(cur);
        }
        let mut outcome = true;
        let mut i: usize = 0;
        while i < slot_count()
            invariant
                vector_items.len() == slots(),
                i <= slots(),
                outcome == (forall|t: int|
                    0 <= t < i && (#[trigger] views(vector_items@)[t]).key != i64::MAX
                        ==> !views(vector_items@)[t].sum_negative()),
            decreases slots() - i,
        {
            let vec_verify = &vector_items[i];
            assert(views(vector_items@)[i as int] == vector_items@[i as int]@);
            if vec_verify.key != i64::MAX {
                if vec_verify.sum_is_negative() {
                    outcome = false;
                }
            }
            i = i + 1;
        }
        final_outcome = outcome;
    }
    final_outcome
}

/// Adds method `m` to the ordered map, whose entries in key order are `ms`: it
/// is keyed by its response, moved up past the keys taken, as [`free_key`]
/// says.
pub(crate) fn insert_keyed(map_methods: &mut BTreeMap<i64, Method>, m: Method, Ghost(ms): Ghost<Seq<Method>>) -> (key: i64)
    requires
        keyed_by_response(ms),
        old(map_methods)@ == map_of(ms),
        free_key(ms, m.response) is Some,
    ensures
        key == free_key(ms, m.response).unwrap(),
        keyed_by_response(insert_by_response(ms, Method { response: key, ..m })),
        final(map_methods)@ == map_of(insert_by_response(ms, Method { response: key, ..m })),
        insert_by_response(ms, Method { response: key, ..m }).len() == ms.len() + 1,
{
    proof {
        lemma_integer_keys_ordered();
    }
    let ghost m0 = m;
    let mut m = m;
    let ghost r0 = m.response;
    while map_methods.get(&m.response).is_some()
        invariant
            integer_keys_ordered(),
            map_methods@ == map_of(ms),
            keyed_by_response(ms),
            free_key(ms, r0) is Some,
            r0 <= m.response,
            m == (Method { response: m.response, ..m0 }),
            forall|k2: i64| r0 <= k2 < m.response ==> taken(ms, k2),
        decreases i64::MAX - m.response,
    {
        proof {
            assert(taken(ms, m.response));
            let k = choose|k: i64| least_free_from(ms, r0, k);
            assert(least_free_from(ms, r0, k));
            if k <= m.response {
                if k < m.response {
                    assert(taken(ms, k));
                }
            }
        }
        m.response = m.response + 1;
    }
    proof {
        assert(least_free_from(ms, r0, m.response));
        let k = choose|k: i64| least_free_from(ms, r0, k);
        if k < m.response {
            assert(taken(ms, k));
        } else if k > m.response {
            assert(taken(ms, m.response));
        }
        lemma_map_of_insert(ms, m);
    }
    map_methods.insert(m.response, m);
    m.response
}

/// The ordered map of a history, as [`key_methods`] makes it, is keyed by
/// response.
pub proof fn lemma_key_methods_keyed(all: Seq<Method>)
    requires
        key_methods(all) is Some,
    ensures
        keyed_by_response(key_methods(all).unwrap()),
    decreases all.len(),
{
    if all.len() > 0 {
        lemma_key_methods_keyed(all.drop_last());
        let ms = key_methods(all.drop_last()).unwrap();
        let k = free_key(ms, all.last().response).unwrap();
        assert(least_free_from(ms, all.last().response, k));
        lemma_map_of_insert(ms, Method { response: k, ..all.last() });
    }
}

/// What [`verify`] decides is what [`verify_checkpoint`] decides on the
/// ordered map that keying the history makes, from an empty item table and
/// counters at zero: that map is keyed by response, and its entries in key
/// order are the history's methods as [`key_methods`] orders them.
pub proof fn law_verify_is_one_checkpoint(all: Seq<Method>)
    requires
        key_methods(all) is Some,
    ensures
        keyed_map(map_of(key_methods(all).unwrap())),
        entries_in_order(map_of(key_methods(all).unwrap())) == key_methods(all).unwrap(),
        map_of(key_methods(all).unwrap()).len() == key_methods(all).unwrap().len(),
{
    lemma_key_methods_keyed(all);
    lemma_map_of(key_methods(all).unwrap());
    lemma_entries_in_order(key_methods(all).unwrap());
}

/// The item table before any method: every slot empty.
pub(crate) fn new_item_table() -> (vector_items: Vec<Item>)
    ensures
        vector_items.len() == slots(),
        views(vector_items@) == empty_table(),
{
    let mut vector_items: Vec<Item> = Vec::new();
    let n = slot_count();
    let mut i: usize = 0;
    while i < n
        invariant
            n == slots(),
            i <= n,
            vector_items.len() == i,
            forall|a: int| 0 <= a < i ==> vector_items@[a]@ == item_of_key(i64::MAX),
        decreases n - i,
    {
        vector_items.push(Item::newFromKey(i64::MAX));
        i = i + 1;
    }
    proof {
        assert(views(vector_items@) =~= empty_table());
    }
    vector_items
}

/// Checks a history: its methods are keyed by their responses into an
/// ordered map (a response already taken moves up to the next free key), and
/// one checkpoint replays that map from its first method, as [`checkpoint`]
/// says, against the account balances and an empty item table.
pub fn verify(
    account_balances: &mut HashMap<i64, i64>,
    all_methods: &mut Vec<Method>,
    method_count: &mut u64,
) -> (r: bool)
    requires
        old(all_methods).len() < i64::MAX,
        key_methods(old(all_methods)@) is Some,
        *old(method_count) + old(all_methods).len() <= u64::MAX,
        checkpoint_goes_through(
            key_methods(old(all_methods)@).unwrap(),
            old(account_balances)@,
            empty_table(),
            0,
            0,
        ),
    ensures
        final(all_methods)@ == old(all_methods)@,
        ({
            let c = checkpoint(
                key_methods(old(all_methods)@).unwrap(),
                old(account_balances)@,
                empty_table(),
                0,
                0,
                true,
            );
            &&& r == c.verdict
            &&& final(account_balances)@ == c.balances
            &&& *final(method_count) == *old(method_count) + c.replayed
        }),
{
    let mut map_methods: BTreeMap<i64, Method> = BTreeMap::new();
    let mut vector_items = new_item_table();
    let mut it_start: i64 = 0;
    let mut count_iterated: u64 = 0;
    let mut min: i64 = i64::MIN;
    let mut response_time: i64 = 0;
    let ghost mut ms: Seq<Method> = Seq::empty();
    proof {
        assert(map_of(ms) =~= map_methods@);
    }
    let mut i: usize = 0;
    while i < all_methods.len()
        invariant
            i <= all_methods.len(),
            all_methods@ == old(all_methods)@,
            key_methods(old(all_methods)@) is Some,
            key_methods(all_methods@.take(i as int)) == Some(ms),
            keyed_by_response(ms),
            ms.len() == i,
            map_methods@ == map_of(ms),
        decreases all_methods.len() - i,
    {
        let m = all_methods[i];
        proof {
            lemma_key_methods_prefix(all_methods@, i as int + 1);
            assert(all_methods@.take(i as int + 1).drop_last() =~= all_methods@.take(i as int));
            assert(all_methods@.take(i as int + 1).last() == m);
        }
        response_time = insert_keyed(&mut map_methods, m, Ghost(ms));
        proof {
            ms = insert_by_response(ms, Method { response: response_time, ..m });
        }
        i = i + 1;
    }
    proof {
        assert(all_methods@.take(i as int) =~= all_methods@);
        lemma_map_of(ms);
        lemma_entries_in_order(ms);
    }
    if response_time < min {
        min = response_time;
    }
    let mut reset_it_start = true;
    if verify_checkpoint(
        account_balances,
        &mut map_methods,
        &mut it_start,
        &mut count_iterated,
        min,
        &mut reset_it_start,
        method_count,
        &mut vector_items,
    ) == false {
        return false;
    } else {
        return true;
    }
}

} // verus!
