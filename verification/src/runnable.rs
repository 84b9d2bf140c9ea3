//! Deciding, before a check, whether the check of a history of account
//! updates goes through: the checker runs only where its replay does not get
//! stuck, and these functions say where that is.
use vstd::prelude::*;
use std::collections::HashMap;
use std::collections::BTreeMap;
use crate::types::{Method, MethodType};
use crate::item::{Item, ItemModel};
use crate::model::{
    Replay, Run, step, run_from, claim_slot, slots, keyed_by_response,
    key_methods, empty_table, first_index, drain_finished,
    promotions_clear, failed_demotable, producer_step, read_write_step,
};
use crate::checker::{views, replay_of, claim_slot_for, replay_method, new_item_table, slot_index};
use crate::ledger::{plain_history, plain_method, plain_but_response, keyed_in_order, lemma_keyed_in_order};
use crate::block::block_checkable;
use crate::ordered_map::{map_of, lemma_map_of_take};
use crate::key_order::{integer_keys_ordered, lemma_integer_keys_ordered};

verus! {

/// A copy of the item table.
pub(crate) fn copy_table(vector_items: &Vec<Item>) -> (r: Vec<Item>)
    ensures
        views(r@) == views(vector_items@),
        r.len() == vector_items.len(),
{
    let mut r: Vec<Item> = Vec::new();
    let mut i: usize = 0;
    while i < vector_items.len()
        invariant
            i <= vector_items.len(),
            r.len() == i,
            forall|j: int| 0 <= j < i ==> r@[j]@ == vector_items@[j]@,
        decreases vector_items.len() - i,
    {
        r.push(vector_items[i].duplicate());
        i = i + 1;
    }
    proof {
        assert(views(r@) =~= views(vector_items@));
    }
    r
}

/// Whether plain method `it` of the ordered map gets the run stuck, the item
/// table having already found a slot for its item (`claimed`).
fn plain_step_stuck(
    account_balances: &HashMap<i64, i64>,
    map_methods: &Vec<Method>,
    it: usize,
    claimed: &Vec<Item>,
    Ghost(st): Ghost<Replay>,
) -> (stuck: bool)
    requires
        it < map_methods.len(),
        plain_but_response(map_methods@[it as int]),
        claimed.len() == slots(),
        st.balances == account_balances@,
        views(claimed@) == claim_slot(
            st.items,
            map_methods@[it as int],
            map_methods@[map_methods.len() - 1].response,
        ),
    ensures
        stuck == (step(map_methods@, it as int, st) is Stuck),
{
    let m = map_methods[it];
    let key = m.item_key;
    let ghost st1 = Replay { items: views(claimed@), ..st };
    proof {
        assert(plain_method(Method { response: 0, ..m }));
    }
    if m.MethodType == MethodType::PRODUCER {
        if !(key >= 0 && key < claimed.len() as i64) {
            return true;
        }
        assert(claimed@[key as int]@ == st1.items[key as int]);
        !claimed[key as usize].add_int_goes_through(1)
    } else {
        let old_balance: Option<i64> = match account_balances.get(&key) {
            Some(b) => Some(*b),
            None => None,
        };
        if m.item_val < 0 {
            if old_balance.is_none() {
                return false;
            }
            if m.item_val == i64::MIN {
                return true;
            }
            if old_balance.unwrap() < -m.item_val {
                return false;
            }
        }
        if old_balance.is_none() {
            return true;
        }
        if old_balance.unwrap().checked_add(m.item_val).is_none() {
            return true;
        }
        let s = slot_index(key);
        assert(claimed@[s as int]@ == st1.items[s as int]);
        !claimed[s].demote_r_goes_through()
    }
}

/// Whether the check of a history of plain methods goes through from the
/// balances `account_balances`, as [`block_checkable`] says: where it does
/// not, [`crate::checker::verify`] may not be called on it.
pub fn history_checkable(all_methods: &Vec<Method>, account_balances: &HashMap<i64, i64>) -> (r:
    bool)
    requires
        plain_history(all_methods@),
    ensures
        r == block_checkable(all_methods@, account_balances@),
{
    if all_methods.len() as u128 >= i64::MAX as u128 {
        return false;
    }
    proof {
        lemma_keyed_in_order(all_methods@);
    }
    let ghost ms = keyed_in_order(all_methods@);
    let mut entries: Vec<Method> = Vec::new();
    let mut map_methods: BTreeMap<i64, Method> = BTreeMap::new();
    proof {
        lemma_integer_keys_ordered();
        assert(map_of(ms.take(0)) =~= map_methods@);
    }
    let mut k: usize = 0;
    while k < all_methods.len()
        invariant
            k <= all_methods.len() < i64::MAX,
            ms == keyed_in_order(all_methods@),
            entries@ =~= ms.take(k as int),
            keyed_by_response(ms),
            integer_keys_ordered(),
            map_methods@ == map_of(ms.take(k as int)),
        decreases all_methods.len() - k,
    {
        let mut m = all_methods[k];
        m.response = k as i64;
        entries.push(m);
        proof {
            assert(entries@ =~= ms.take(k as int + 1));
            assert(ms[k as int] == m);
            lemma_map_of_take(ms, k as int);
        }
        map_methods.insert(m.response, m);
        k = k + 1;
    }
    proof {
        assert(ms.take(ms.len() as int) =~= ms);
        assert(keyed_by_response(ms));
        assert forall|j: int| 0 <= j < ms.len() implies plain_but_response(#[trigger] ms[j]) by {
            assert(plain_method(all_methods@[j]));
            assert(Method { response: 0, ..ms[j] } == all_methods@[j]);
        }
    }
    if entries.len() == 0 {
        return true;
    }
    let mut balances = account_balances.clone();
    let mut vector_items = new_item_table();
    let mut stack_consumer: Vec<Item> = Vec::new();
    let mut stack_finished_methods: Vec<i64> = Vec::new();
    let mut stack_failed: Vec<Item> = Vec::new();
    let ghost init = Replay {
        balances: account_balances@,
        items: empty_table(),
        consumed: Seq::empty(),
        finished: Seq::empty(),
        failed: Seq::empty(),
    };
    let ghost goal = run_from(ms, 0, init);
    proof {
        assert(views(stack_consumer@) =~= Seq::<ItemModel>::empty());
        assert(views(stack_failed@) =~= Seq::<ItemModel>::empty());
        assert(first_index(0, 0) == Some(0int));
    }
    let last_key = entries[entries.len() - 1].response;
    let mut i: usize = 0;
    while i < entries.len()
        invariant
            i <= entries.len() < i64::MAX,
            entries@ == ms,
            map_methods@ == map_of(ms),
            key_methods(all_methods@) == Some(ms),
            all_methods@.len() == ms.len(),
            keyed_by_response(ms),
            forall|j: int| 0 <= j < ms.len() ==> plain_but_response(#[trigger] ms[j]),
            last_key == ms[ms.len() - 1].response,
            vector_items.len() == slots(),
            goal == run_from(ms, 0, init),
            init == (Replay {
                balances: account_balances@,
                items: empty_table(),
                consumed: Seq::empty(),
                finished: Seq::empty(),
                failed: Seq::empty(),
            }),
            run_from(
                ms,
                i as int,
                replay_of(
                    balances@,
                    vector_items@,
                    stack_consumer@,
                    stack_finished_methods@,
                    stack_failed@,
                ),
            ) == goal,
            views(stack_consumer@) == Seq::<ItemModel>::empty(),
            stack_finished_methods@ == Seq::<i64>::empty(),
            views(stack_failed@) == Seq::<ItemModel>::empty(),
        decreases entries.len() - i,
    {
        let ghost cur = replay_of(
            balances@,
            vector_items@,
            stack_consumer@,
            stack_finished_methods@,
            stack_failed@,
        );
        let m = entries[i];
        let mut claimed = copy_table(&vector_items);
        claim_slot_for(&mut claimed, &m, last_key);
        if plain_step_stuck(&balances, &entries, i, &claimed, Ghost(cur)) {
            proof {
                assert(run_from(ms, i as int, cur) == Run::Stuck);
            }
            return false;
        }
        let accepted = replay_method(
            &mut balances,
            &map_methods,
            &entries,
            i,
            &mut vector_items,
            &mut stack_consumer,
            &mut stack_finished_methods,
            &mut stack_failed,
        );
        if !accepted {
            proof {
                let next = step(ms, i as int, cur)->Rejected_0;
                assert(run_from(ms, i as int, cur) == Run::Rejected { st: next, at: i as int });
            }
            return true;
        }
        proof {
            let st1 = Replay { items: claim_slot(cur.items, m, last_key), ..cur };
            assert(plain_method(Method { response: 0, ..m }));
            if m.MethodType == MethodType::PRODUCER {
                assert(step(ms, i as int, cur) == producer_step(ms, i as int, st1));
            } else {
                assert(step(ms, i as int, cur) == read_write_step(ms, i as int, st1));
            }
        }
        i = i + 1;
    }
    proof {
        let done = goal->Finished_st;
        assert(promotions_clear(done.consumed));
        assert(failed_demotable(done.failed));
        assert(drain_finished(ms, ms[ms.len() - 1].response, done.finished) == Some(ms));
    }
    true
}

} // verus!
