//! Deciding, for any history, whether the checker's replay of it goes
//! through: where it does, [`crate::checker::verify`] may be called on it.
use vstd::prelude::*;
use std::collections::HashMap;
use std::collections::BTreeMap;
use crate::types::{Method, MethodType, Semantics, Status};
use crate::item::{Item, ItemModel};
use crate::model::{
    Replay, Run, step, run_from, claim_slot, in_table, slots, null_slot,
    keyed_by_response, key_methods, empty_table, first_index, drain_finished, producer_step, read_write_step, consumer_step, order_loop, failed_loop,
    checkpoint_goes_through, overlaps, position_of, free_key, least_free_from, taken,
    insert_by_response, lemma_key_methods_prefix,
};
use crate::checker::{
    views, replay_of, claim_slot_for, replay_method, new_item_table, slot_index, store,
    null_slot_index, insert_keyed,
};
use crate::runnable::copy_table;
use crate::ordered_map::{
    map_of, ordered_entries, lemma_map_of, lemma_position, lemma_map_of_remove,
    lemma_entries_in_order,
};
use crate::key_order::{integer_keys_ordered, lemma_integer_keys_ordered};

verus! {

/// Whether an earlier method `ms[t]` of a failed method `ms[i]` has an item
/// that cannot be looked up.
pub open spec fn lookup_misses(ms: Seq<Method>, i: int, t: int) -> bool {
    &&& ms[t].response < ms[i].invocation
    &&& ms[i].item_key != i64::MIN
    &&& !in_table(ms[t].item_key)
}

/// The walk over the earlier methods of a failed method gets stuck exactly
/// where one of them cannot be looked up.
proof fn lemma_failed_loop_none(
    kind: MethodType,
    ms: Seq<Method>,
    i: int,
    j: int,
    items: Seq<ItemModel>,
    item: ItemModel,
    failed: Seq<ItemModel>,
)
    requires
        0 <= j,
    ensures
        (failed_loop(kind, ms, i, j, items, item, failed) is None) == (exists|t: int|
            j <= t < i && #[trigger] lookup_misses(ms, i, t)),
    decreases i - j,
{
    if j < i {
        let m = ms[i];
        let e = ms[j];
        if lookup_misses(ms, i, j) {
        } else {
            let s = if m.item_key != i64::MIN {
                if in_table(e.item_key) {
                    Some(e.item_key as int)
                } else {
                    None
                }
            } else {
                Some(null_slot())
            };
            if e.response < m.invocation {
                assert(s is Some);
                let f2 = if crate::model::failed_match(kind, m, e, item) {
                    seq![items[s.unwrap()]] + failed
                } else {
                    failed
                };
                lemma_failed_loop_none(kind, ms, i, j + 1, items, item, f2);
            } else {
                lemma_failed_loop_none(kind, ms, i, j + 1, items, item, failed);
            }
            if exists|t: int| j <= t < i && #[trigger] lookup_misses(ms, i, t) {
                let t = choose|t: int| j <= t < i && #[trigger] lookup_misses(ms, i, t);
                assert(t != j);
            }
        }
    }
}

/// Whether the walk over the earlier methods of failed method `i` gets stuck.
fn failed_walk_stuck(entries: &Vec<Method>, i: usize) -> (r: bool)
    requires
        i < entries.len(),
    ensures
        r == (exists|t: int| 0 <= t < i && #[trigger] lookup_misses(entries@, i as int, t)),
{
    let m = entries[i];
    let mut t: usize = 0;
    while t < i
        invariant
            t <= i < entries.len(),
            m == entries@[i as int],
            forall|u: int| 0 <= u < t ==> !#[trigger] lookup_misses(entries@, i as int, u),
        decreases i - t,
    {
        let e = entries[t];
        if e.response < m.invocation && m.item_key != i64::MIN && !(e.item_key >= 0
            && e.item_key < slots_i64()) {
            assert(lookup_misses(entries@, i as int, t as int));
            return true;
        }
        t = t + 1;
    }
    false
}

/// The number of slots, as an integer key.
fn slots_i64() -> (r: i64)
    ensures
        r == slots(),
{
    null_slot_index() as i64 + 1
}

/// Whether ordering producer `i` among its earlier producers gets stuck, on
/// the table `items`, as [`order_loop`] says.
fn order_stuck(entries: &Vec<Method>, i: usize, items: &Vec<Item>) -> (r: bool)
    requires
        i < entries.len(),
        items.len() == slots(),
        in_table(entries@[i as int].item_key),
    ensures
        r == (order_loop(entries@, i as int, 0, views(items@)) is None),
{
    let ghost goal = order_loop(entries@, i as int, 0, views(items@));
    let mut table = copy_table(items);
    let m = entries[i];
    let k = m.item_key as usize;
    let null = null_slot_index();
    let mut j: usize = 0;
    while j < i
        invariant
            0 <= j <= i < entries.len(),
            table.len() == slots(),
            null == null_slot(),
            m == entries@[i as int],
            k == m.item_key,
            in_table(m.item_key),
            order_loop(entries@, i as int, j as int, views(table@)) == goal,
            goal == order_loop(entries@, i as int, 0, views(items@)),
        decreases i - j,
    {
        let e = entries[j];
        if e.response < m.invocation {
            if e.item_key != i64::MIN && !(e.item_key >= 0 && e.item_key < slots_i64()) {
                assert(crate::model::lookup_slot(e.item_key) is None);
                assert(order_loop(entries@, i as int, j as int, views(table@)) is None);
                return true;
            }
            let s: usize;
            if e.item_key != i64::MIN {
                s = e.item_key as usize;
            } else {
                s = null;
            }
            assert(views(table@)[s as int] == table@[s as int]@);
            assert(views(table@)[k as int] == table@[k as int]@);
            if e.MethodType == MethodType::PRODUCER && table[s].status == Status::PRESENT
                && e.semantics == Semantics::FIFO {
                if !table[k].demote_goes_through() {
                    assert(views(table@)[k as int].demote() is None);
                    assert(order_loop(entries@, i as int, j as int, views(table@)) is None);
                    return true;
                }
                let ghost before = views(table@);
                let mut target = table[k].duplicate();
                target.demote();
                target.demote_methods.push(e);
                store(&mut table, k, target);
                proof {
                    let d = before[k as int].demote().unwrap();
                    assert(target@ == ItemModel { demote_methods: d.demote_methods.push(e), ..d });
                }
            } else if e.MethodType == MethodType::PRODUCER && table[s].status == Status::PRESENT
                && e.semantics == Semantics::LIFO {
                if !table[s].demote_goes_through() {
                    return true;
                }
                let ghost before = views(table@);
                let key_s = table[s].key;
                let mut target = table[k].duplicate();
                target.promote_items.push(key_s);
                store(&mut table, k, target);
                proof {
                    assert(target@ == ItemModel {
                        promote_items: before[k as int].promote_items.push(key_s),
                        ..before[k as int]
                    });
                }
            }
        }
        j = j + 1;
    }
    false
}

/// Whether method `i` of the ordered map gets the run stuck, as [`step`]
/// says, the item table having already found a slot for its item (`claimed`).
#[verifier::loop_isolation(false)]
fn step_stuck(
    account_balances: &HashMap<i64, i64>,
    entries: &Vec<Method>,
    i: usize,
    claimed: &Vec<Item>,
    Ghost(st): Ghost<Replay>,
) -> (stuck: bool)
    requires
        i < entries.len(),
        claimed.len() == slots(),
        st.balances == account_balances@,
        views(claimed@) == claim_slot(
            st.items,
            entries@[i as int],
            entries@[entries.len() - 1].response,
        ),
    ensures
        stuck == (step(entries@, i as int, st) is Stuck),
{
    let m = entries[i];
    let key = m.item_key;
    let ghost st1 = Replay { items: views(claimed@), ..st };
    if m.MethodType == MethodType::PRODUCER {
        assert(step(entries@, i as int, st) == producer_step(entries@, i as int, st1));
        if !(key >= 0 && key < slots_i64()) {
            return true;
        }
        assert(claimed@[key as int]@ == st1.items[key as int]);
        let mut it = claimed[key as usize].duplicate();
        it.producer = m.response;
        if it.status == Status::ABSENT {
            it.status = Status::PRESENT;
            it.demote_methods.clear();
        }
        proof {
            let item = st1.items[key as int];
            let t0 = ItemModel { producer: m.response, ..item };
            let t1 = if item.status == Status::ABSENT {
                ItemModel { status: Status::PRESENT, demote_methods: Seq::empty(), ..t0 }
            } else {
                t0
            };
            assert(it@ == t1);
        }
        if !it.add_int_goes_through(1) {
            return true;
        }
        if m.semantics == Semantics::FIFO || m.semantics == Semantics::LIFO {
            let mut table = copy_table(claimed);
            it.add_int(1);
            store(&mut table, key as usize, it);
            proof {
                assert(views(table@) =~= st1.items.update(key as int, it@));
            }
            return order_stuck(entries, i, &table);
        }
        false
    } else if m.MethodType == MethodType::READER || m.MethodType == MethodType::WRITER {
        assert(step(entries@, i as int, st) == read_write_step(entries@, i as int, st1));
        let old_balance: Option<i64> = match account_balances.get(&key) {
            Some(b) => Some(*b),
            None => None,
        };
        if m.item_val < 0 {
            if old_balance.is_none() {
                return false;
            }
            if m.item_val == i64::MIN {
                return true;
            }
            if old_balance.unwrap() < -m.item_val {
                return false;
            }
        }
        if old_balance.is_none() {
            return true;
        }
        if old_balance.unwrap().checked_add(m.item_val).is_none() {
            return true;
        }
        let s = slot_index(key);
        assert(claimed@[s as int]@ == st1.items[s as int]);
        if m.status {
            !claimed[s].demote_r_goes_through()
        } else {
            proof {
                lemma_failed_loop_none(
                    MethodType::READER,
                    entries@,
                    i as int,
                    0,
                    st1.items,
                    st1.items[s as int],
                    st1.failed,
                );
            }
            failed_walk_stuck(entries, i)
        }
    } else {
        assert(step(entries@, i as int, st) == consumer_step(entries@, i as int, st1));
        let s = slot_index(key);
        assert(claimed@[s as int]@ == st1.items[s as int]);
        if m.status {
            if claimed[s].sum_is_positive() && !(key >= 0 && key < slots_i64()) {
                return true;
            }
            if !claimed[s].sub_int_goes_through(1) {
                return true;
            }
            let mut it = claimed[s].duplicate();
            it.sub_int(1);
            it.status = Status::ABSENT;
            assert(it@ == ItemModel {
                status: Status::ABSENT,
                ..st1.items[s as int].sub_int(1).unwrap()
            });
            if it.sum_is_negative() {
                let mut d: usize = 0;
                while d < it.demote_methods.len()
                    invariant
                        d <= it.demote_methods.len(),
                        forall|u: int|
                            0 <= u < d ==> !#[trigger] overlaps(m, it.demote_methods@[u]),
                    decreases it.demote_methods.len() - d,
                {
                    let dm = it.demote_methods[d];
                    if !(m.response < dm.invocation || dm.response < m.invocation) {
                        assert(overlaps(m, it.demote_methods@[d as int]));
                        assert(it@.demote_methods[d as int] == it.demote_methods@[d as int]);
                        assert(it@.sum_negative());
                        assert(st1.items[s as int].sub_int(1) is Some);
                        assert(consumer_step(entries@, i as int, st1) is Stuck);
                        return true;
                    }
                    d = d + 1;
                }
            }
            false
        } else {
            proof {
                lemma_failed_loop_none(
                    MethodType::CONSUMER,
                    entries@,
                    i as int,
                    0,
                    st1.items,
                    st1.items[s as int],
                    st1.failed,
                );
            }
            failed_walk_stuck(entries, i)
        }
    }
}

/// Whether handing back the finished methods `finished` goes through on the
/// ordered map, as [`drain_finished`] says.
fn drain_goes_through(
    map_methods: &BTreeMap<i64, Method>,
    entries: &Vec<Method>,
    finished: &Vec<i64>,
) -> (r: bool)
    requires
        keyed_by_response(entries@),
        map_methods@ == map_of(entries@),
        0 < entries.len() < i64::MAX,
    ensures
        r == (drain_finished(entries@, entries@[entries.len() - 1].response, finished@) is Some),
{
    proof {
        lemma_integer_keys_ordered();
    }
    let ghost goal = drain_finished(entries@, entries@[entries.len() - 1].response, finished@);
    let mut map = map_methods.clone();
    let last_key = entries[entries.len() - 1].response;
    let ghost mut cur = entries@;
    let mut t = finished.len();
    proof {
        assert(finished@.take(t as int) =~= finished@);
    }
    while t > 0
        invariant
            integer_keys_ordered(),
            keyed_by_response(cur),
            map@ == map_of(cur),
            cur.len() <= entries.len() < i64::MAX,
            t <= finished.len(),
            last_key == entries@[entries.len() - 1].response,
            goal == drain_finished(entries@, last_key, finished@),
            drain_finished(cur, last_key, finished@.take(t as int)) == goal,
        decreases t,
    {
        proof {
            lemma_map_of(cur);
        }
        let ghost fin = finished@.take(t as int);
        let top = finished[t - 1];
        assert(fin.last() == top);
        assert(fin.drop_last() =~= finished@.take(t - 1));
        if last_key < map.len() as i64 {
            let e_top = match map.get(&top) {
                None => {
                    assert(position_of(cur, top) is None);
                    return false;
                },
                Some(v) => *v,
            };
            let e_last = match map.get(&last_key) {
                None => {
                    proof {
                        let j = position_of(cur, top).unwrap();
                        lemma_position(cur, j);
                    }
                    assert(position_of(cur, last_key) is None);
                    return false;
                },
                Some(v) => *v,
            };
            let ghost j = position_of(cur, top).unwrap();
            let ghost l = position_of(cur, last_key).unwrap();
            proof {
                lemma_position(cur, j);
                lemma_position(cur, l);
            }
            if e_top.item_key != e_last.item_key {
                if top == i64::MIN {
                    return false;
                }
                map.remove(&top);
                proof {
                    lemma_map_of_remove(cur, j);
                    cur = cur.remove(j);
                }
            }
        }
        t = t - 1;
    }
    true
}

/// Whether some key from `r` up is free in the ordered map whose entries are
/// `ms`, as [`free_key`] says.
fn free_key_exists(map_methods: &BTreeMap<i64, Method>, r: i64, Ghost(ms): Ghost<Seq<Method>>) -> (b: bool)
    requires
        map_methods@ == map_of(ms),
    ensures
        b == (free_key(ms, r) is Some),
{
    proof {
        lemma_integer_keys_ordered();
    }
    let mut k = r;
    while map_methods.get(&k).is_some()
        invariant
            integer_keys_ordered(),
            map_methods@ == map_of(ms),
            r <= k,
            forall|k2: i64| r <= k2 < k ==> taken(ms, k2),
        decreases i64::MAX - k,
    {
        if k == i64::MAX {
            proof {
                if exists|k3: i64| least_free_from(ms, r, k3) {
                    let k3 = choose|k3: i64| least_free_from(ms, r, k3);
                    assert(k3 <= k);
                    if k3 < k {
                        assert(taken(ms, k3));
                    }
                }
            }
            return false;
        }
        k = k + 1;
    }
    proof {
        assert(least_free_from(ms, r, k));
    }
    true
}

/// Whether the checker may be called on a history from the balances
/// `account_balances`: the history keys into an ordered map, and the replay
/// of that map, as [`checkpoint_goes_through`] says, does not get stuck.
#[verifier::loop_isolation(false)]
pub fn history_runnable(all_methods: &Vec<Method>, account_balances: &HashMap<i64, i64>) -> (r:
    bool)
    ensures
        r == (all_methods.len() < i64::MAX && key_methods(all_methods@) is Some
            && checkpoint_goes_through(
            key_methods(all_methods@).unwrap(),
            account_balances@,
            empty_table(),
            0,
            0,
        )),
{
    if all_methods.len() as u128 >= i64::MAX as u128 {
        return false;
    }
    let mut map_methods: BTreeMap<i64, Method> = BTreeMap::new();
    let ghost mut ms: Seq<Method> = Seq::empty();
    proof {
        assert(map_of(ms) =~= map_methods@);
        assert(all_methods@.take(0) =~= Seq::<Method>::empty());
    }
    let mut i: usize = 0;
    while i < all_methods.len()
        invariant
            i <= all_methods.len() < i64::MAX,
            key_methods(all_methods@.take(i as int)) == Some(ms),
            keyed_by_response(ms),
            ms.len() == i,
            map_methods@ == map_of(ms),
        decreases all_methods.len() - i,
    {
        let m = all_methods[i];
        proof {
            assert(all_methods@.take(i as int + 1).drop_last() =~= all_methods@.take(i as int));
            assert(all_methods@.take(i as int + 1).last() == m);
        }
        if !free_key_exists(&map_methods, m.response, Ghost(ms)) {
            proof {
                assert(key_methods(all_methods@.take(i as int + 1)) is None);
                if key_methods(all_methods@) is Some {
                    lemma_key_methods_prefix(all_methods@, i as int + 1);
                }
            }
            return false;
        }
        let k = insert_keyed(&mut map_methods, m, Ghost(ms));
        proof {
            ms = insert_by_response(ms, Method { response: k, ..m });
        }
        i = i + 1;
    }
    proof {
        assert(all_methods@.take(i as int) =~= all_methods@);
        lemma_map_of(ms);
        lemma_entries_in_order(ms);
    }
    if all_methods.len() == 0 {
        return true;
    }
    let (_keys, entries) = ordered_entries(&map_methods);
    assert(entries@ == ms);
    let mut balances = account_balances.clone();
    let mut vector_items = new_item_table();
    let mut stack_consumer: Vec<Item> = Vec::new();
    let mut stack_finished_methods: Vec<i64> = Vec::new();
    let mut stack_failed: Vec<Item> = Vec::new();
    let ghost init = Replay {
        balances: account_balances@,
        items: empty_table(),
        consumed: Seq::empty(),
        finished: Seq::empty(),
        failed: Seq::empty(),
    };
    let ghost goal = run_from(ms, 0, init);
    proof {
        assert(views(stack_consumer@) =~= Seq::<ItemModel>::empty());
        assert(views(stack_failed@) =~= Seq::<ItemModel>::empty());
        assert(first_index(0, 0) == Some(0int));
    }
    let last_key = entries[entries.len() - 1].response;
    let mut j: usize = 0;
    while j < entries.len()
        invariant
            j <= entries.len() < i64::MAX,
            entries@ == ms,
            map_methods@ == map_of(ms),
            keyed_by_response(ms),
            last_key == ms[ms.len() - 1].response,
            vector_items.len() == slots(),
            goal == run_from(ms, 0, init),
            run_from(
                ms,
                j as int,
                replay_of(
                    balances@,
                    vector_items@,
                    stack_consumer@,
                    stack_finished_methods@,
                    stack_failed@,
                ),
            ) == goal,
        decreases entries.len() - j,
    {
        let ghost cur = replay_of(
            balances@,
            vector_items@,
            stack_consumer@,
            stack_finished_methods@,
            stack_failed@,
        );
        let m = entries[j];
        let mut claimed = copy_table(&vector_items);
        claim_slot_for(&mut claimed, &m, last_key);
        if step_stuck(&balances, &entries, j, &claimed, Ghost(cur)) {
            proof {
                assert(run_from(ms, j as int, cur) == Run::Stuck);
            }
            return false;
        }
        let accepted = replay_method(
            &mut balances,
            &map_methods,
            &entries,
            j,
            &mut vector_items,
            &mut stack_consumer,
            &mut stack_finished_methods,
            &mut stack_failed,
        );
        if !accepted {
            proof {
                let next = step(ms, j as int, cur)->Rejected_0;
                assert(run_from(ms, j as int, cur) == Run::Rejected { st: next, at: j as int });
            }
            return true;
        }
        j = j + 1;
    }
    let ghost done = replay_of(
        balances@,
        vector_items@,
        stack_consumer@,
        stack_finished_methods@,
        stack_failed@,
    );
    assert(goal == Run::Finished { st: done });
    let mut c: usize = 0;
    while c < stack_consumer.len()
        invariant
            c <= stack_consumer.len(),
            forall|u: int| 0 <= u < c ==> (#[trigger] views(stack_consumer@)[u]).promote_items.len() == 0,
        decreases stack_consumer.len() - c,
    {
        assert(views(stack_consumer@)[c as int] == stack_consumer@[c as int]@);
        if stack_consumer[c].promote_items.len() != 0 {
            return false;
        }
        c = c + 1;
    }
    let mut f: usize = 0;
    while f < stack_failed.len()
        invariant
            f <= stack_failed.len(),
            forall|u: int|
                0 <= u < f && (#[trigger] views(stack_failed@)[u]).status == Status::PRESENT
                    ==> views(stack_failed@)[u].demote_f() is Some,
        decreases stack_failed.len() - f,
    {
        assert(views(stack_failed@)[f as int] == stack_failed@[f as int]@);
        if stack_failed[f].status == Status::PRESENT && !stack_failed[f].demote_f_goes_through() {
            return false;
        }
        f = f + 1;
    }
    drain_goes_through(&map_methods, &entries, &stack_finished_methods)
}

} // verus!
