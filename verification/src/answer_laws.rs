//! What the answers of the check are for, stated on their own terms: the
//! expected balances are every entry of the state after, a producer is
//! ordered only after producers that finished before it started, and every
//! successful consume takes exactly one whole unit from its item.
use vstd::prelude::*;
use crate::types::{Event, Method, MethodType, Semantics, Status};
use vstd::arithmetic::power2::{pow2, lemma_pow2_pos, lemma_pow2_strictly_increases, lemma2_to64_rest};
use crate::item::{is_sum_over, law_frac_sub_value, power_of_exponent};
use crate::item::ItemModel;
use crate::model::{
    Replay, step, claim_slot, order_loop, slot_of, slots, consumer_step, producer_step, in_table,
    lookup_slot,
};
use crate::connector::{
    state_balances, block_states_verdict, read_state, enrolled, event_transactions,
    state_producers, StateRead,
};
use crate::block::{block_valid, block_history};
use crate::ledger::ledger;

verus! {

/// Whether entry `i` of a state is the last one of its account.
pub open spec fn last_of_its_account(a: Seq<(i64, i64)>, i: int) -> bool {
    &&& 0 <= i < a.len()
    &&& forall|j: int| i < j < a.len() ==> a[j].0 != a[i].0
}

/// An account named in a state has a last entry there.
proof fn lemma_last_entry_exists(a: Seq<(i64, i64)>, i: int)
    requires
        0 <= i < a.len(),
    ensures
        exists|j: int| #[trigger] last_of_its_account(a, j) && a[j].0 == a[i].0,
    decreases a.len() - i,
{
    if last_of_its_account(a, i) {
    } else {
        let j = choose|j: int| i < j < a.len() && a[j].0 == a[i].0;
        lemma_last_entry_exists(a, j);
    }
}

/// The balances of a state hold every account it names, whatever the
/// balance (zero included), and no other; each at the balance of its last
/// entry.
pub proof fn law_state_balances_hold_every_entry(a: Seq<(i64, i64)>)
    ensures
        forall|k: i64| #[trigger]
            state_balances(a).contains_key(k) <==> exists|i: int| 0 <= i < a.len() && a[i].0 == k,
        forall|i: int| #[trigger] last_of_its_account(a, i) ==> state_balances(a).contains_key(a[i].0)
            && state_balances(a)[a[i].0] == a[i].1,
    decreases a.len(),
{
    if a.len() > 0 {
        let h = a.drop_last();
        law_state_balances_hold_every_entry(h);
        assert(state_balances(a) == state_balances(h).insert(a.last().0, a.last().1));
        assert forall|k: i64| #[trigger]
            state_balances(a).contains_key(k) <==> exists|i: int| 0 <= i < a.len() && a[i].0 == k by {
            if exists|i: int| 0 <= i < h.len() && h[i].0 == k {
                let i = choose|i: int| 0 <= i < h.len() && h[i].0 == k;
                assert(a[i] == h[i]);
            }
            if exists|i: int| 0 <= i < a.len() && a[i].0 == k {
                let i = choose|i: int| 0 <= i < a.len() && a[i].0 == k;
                if i < h.len() {
                    assert(h[i] == a[i]);
                } else {
                    assert(a[i] == a.last());
                }
            }
        }
        assert forall|i: int| #[trigger] last_of_its_account(a, i) implies state_balances(
            a,
        ).contains_key(a[i].0) && state_balances(a)[a[i].0] == a[i].1 by {
            if i < h.len() {
                assert(a[a.len() - 1].0 != a[i].0);
                assert(last_of_its_account(h, i)) by {
                    assert forall|j: int| i < j < h.len() implies h[j].0 != h[i].0 by {
                        assert(h[j] == a[j] && h[i] == a[i]);
                    }
                }
                assert(h[i] == a[i]);
            } else {
                assert(a[i] == a.last());
            }
        }
    }
}

/// Whether a replay ends with the accounts of the state `a`, no more and no
/// fewer, each at the balance of its last entry there.
pub open spec fn ends_at_state(l: Option<Map<i64, i64>>, a: Seq<(i64, i64)>) -> bool {
    match l {
        None => false,
        Some(l) => {
            &&& forall|k: i64| #[trigger]
                l.contains_key(k) <==> exists|i: int| 0 <= i < a.len() && a[i].0 == k
            &&& forall|i: int| #[trigger] last_of_its_account(a, i) ==> l[a[i].0] == a[i].1
        },
    }
}

/// Where both states read to entries, the check answers 1 exactly when every
/// transfer is acceptable and the ledger's replay from the state before ends
/// with the accounts of the state after, no more and no fewer, each at the
/// balance of its last entry there (zero balances included).
pub proof fn law_verdict_compares_every_entry(events: Seq<Event>, before: Seq<char>, after: Seq<char>)
    requires
        read_state(before, enrolled(events)) is Entries,
        read_state(after, enrolled(events)) is Entries,
    ensures
        ({
            let b = read_state(before, enrolled(events))->Entries_0;
            let a = read_state(after, enrolled(events))->Entries_0;
            let txns = event_transactions(events);
            (block_states_verdict(events, before, after) == 1) == (block_valid(txns)
                && ends_at_state(
                ledger(block_history(txns, state_producers(b)), Map::empty()),
                a,
            ))
        }),
{
    let b = read_state(before, enrolled(events))->Entries_0;
    let a = read_state(after, enrolled(events))->Entries_0;
    let txns = event_transactions(events);
    let sb = state_balances(a);
    law_state_balances_hold_every_entry(a);
    match ledger(block_history(txns, state_producers(b)), Map::empty()) {
        Some(l) => {
            if (forall|k: i64| #[trigger]
                l.contains_key(k) <==> exists|i: int| 0 <= i < a.len() && a[i].0 == k) && (forall|
                i: int,
            | #[trigger] last_of_its_account(a, i) ==> l[a[i].0] == a[i].1) {
                assert forall|k: i64| l.contains_key(k) implies l[k] == sb[k] by {
                    let i = choose|i: int| 0 <= i < a.len() && a[i].0 == k;
                    lemma_last_entry_exists(a, i);
                    let j = choose|j: int| #[trigger] last_of_its_account(a, j) && a[j].0 == a[i].0;
                    assert(last_of_its_account(a, j));
                }
                assert(l =~= sb);
            }
        },
        None => {
        },
    }
}

/// Whether method `e` finished before method `m` started.
pub open spec fn precedes(e: Method, m: Method) -> bool {
    e.response < m.invocation
}

/// A producer is ordered only after the methods that finished before it
/// started: where none of the earlier methods from `j` on precedes it in
/// real time (their intervals overlap its own), ordering it changes no item.
pub proof fn law_overlapping_methods_do_not_order(
    ms: Seq<Method>,
    i: int,
    j: int,
    items: Seq<ItemModel>,
)
    requires
        0 <= j,
        forall|t: int| j <= t < i ==> !#[trigger] precedes(ms[t], ms[i]),
    ensures
        order_loop(ms, i, j, items) == Some(items),
    decreases i - j,
{
    if j < i {
        assert(!precedes(ms[j], ms[i]));
        law_overlapping_methods_do_not_order(ms, i, j + 1, items);
    }
}

/// Every successful consume takes exactly one whole unit from its item's
/// weight, whether the item is present or not, marks it absent, and touches
/// no other slot and no balance.
pub proof fn law_consume_takes_one_unit(ms: Seq<Method>, i: int, st: Replay)
    requires
        0 <= i < ms.len(),
        ms[i].MethodType == MethodType::CONSUMER,
        ms[i].status,
        st.items.len() == slots(),
        step(ms, i, st) is Next,
    ensures
        ({
            let m = ms[i];
            let s = slot_of(m.item_key);
            let claimed = claim_slot(st.items, m, ms[ms.len() - 1].response);
            let after = step(ms, i, st)->Next_0;
            &&& after.items.len() == claimed.len()
            &&& after.items[s].numerator == claimed[s].numerator - claimed[s].denominator
            &&& after.items[s].denominator == claimed[s].denominator
            &&& after.items[s].status == Status::ABSENT
            &&& forall|t: int| 0 <= t < claimed.len() && t != s ==> after.items[t] == claimed[t]
            &&& after.balances == st.balances
        }),
{
    let m = ms[i];
    let st1 = Replay { items: claim_slot(st.items, m, ms[ms.len() - 1].response), ..st };
    assert(step(ms, i, st) == consumer_step(ms, i, st1));
}

/// A producer that no earlier method precedes in real time adds exactly one
/// whole unit to its own item, whatever its semantics, sets its account to
/// its value, and touches no other slot.
pub proof fn law_unordered_produce_adds_one_unit(ms: Seq<Method>, i: int, st: Replay)
    requires
        0 <= i < ms.len(),
        ms[i].MethodType == MethodType::PRODUCER,
        forall|t: int| 0 <= t < i ==> !#[trigger] precedes(ms[t], ms[i]),
        st.items.len() == slots(),
        step(ms, i, st) is Next,
    ensures
        ({
            let m = ms[i];
            let k = m.item_key as int;
            let claimed = claim_slot(st.items, m, ms[ms.len() - 1].response);
            let after = step(ms, i, st)->Next_0;
            &&& 0 <= k < claimed.len()
            &&& after.items.len() == claimed.len()
            &&& after.items[k].numerator == claimed[k].numerator + claimed[k].denominator
            &&& after.items[k].denominator == claimed[k].denominator
            &&& after.items[k].status == Status::PRESENT
            &&& forall|t: int| 0 <= t < claimed.len() && t != k ==> after.items[t] == claimed[t]
            &&& after.balances == st.balances.insert(m.item_key, m.item_val)
        }),
{
    let m = ms[i];
    let st1 = Replay { items: claim_slot(st.items, m, ms[ms.len() - 1].response), ..st };
    assert(step(ms, i, st) == producer_step(ms, i, st1));
    let k = m.item_key as int;
    let item = st1.items[k];
    let it0 = ItemModel { producer: m.response, ..item };
    let it1 = if item.status == Status::ABSENT {
        ItemModel { status: Status::PRESENT, demote_methods: Seq::empty(), ..it0 }
    } else {
        it0
    };
    if it1.add_int(1) is Some {
        law_overlapping_methods_do_not_order(ms, i, 0, st1.items.update(k, it1.add_int(1).unwrap()));
    }
}

/// A FIFO producer that finished before a later producer started, while its
/// own item is present, demotes the later producer's item once: its
/// exponent grows by one, its weight loses `1 / 2^exponent`, and the
/// demoting producer is recorded; no other slot changes.
pub proof fn law_preceding_fifo_producer_demotes(ms: Seq<Method>, items: Seq<ItemModel>)
    requires
        ms.len() == 2,
        precedes(ms[0], ms[1]),
        ms[0].MethodType == MethodType::PRODUCER,
        ms[0].semantics == Semantics::FIFO,
        in_table(ms[0].item_key),
        in_table(ms[1].item_key),
        items.len() == slots(),
        items[ms[0].item_key as int].status == Status::PRESENT,
        items[ms[1].item_key as int].exponent >= 0,
        items[ms[1].item_key as int].denominator > 0,
        order_loop(ms, 1, 0, items) is Some,
    ensures
        ({
            let k = ms[1].item_key as int;
            let r = order_loop(ms, 1, 0, items).unwrap();
            let e = items[k].exponent + 1;
            &&& 0 <= e < 63
            &&& r[k] == ItemModel {
                exponent: e as i64,
                demote_methods: items[k].demote_methods.push(ms[0]),
                numerator: r[k].numerator,
                denominator: r[k].denominator,
                ..items[k]
            }
            &&& is_sum_over(
                items[k].numerator as int,
                items[k].denominator as int,
                1,
                pow2(e as nat) as int,
                -1,
                r[k].numerator as int,
                r[k].denominator as int,
            )
            &&& forall|t: int| 0 <= t < items.len() && t != k ==> r[t] == items[t]
        }),
{
    let k = ms[1].item_key as int;
    assert(lookup_slot(ms[0].item_key) == Some(ms[0].item_key as int));
    let d = items[k].demote().unwrap();
    let u = items.update(k, ItemModel { demote_methods: d.demote_methods.push(ms[0]), ..d });
    assert(order_loop(ms, 1, 0, items) == order_loop(ms, 1, 1, u));
    let e = (items[k].exponent + 1) as i64;
    let den = power_of_exponent(e).unwrap();
    assert(e < 63);
    assert(den == pow2(e as nat) as i64);
    lemma_pow2_pos(e as nat);
    if e < 62 {
        lemma_pow2_strictly_increases(e as nat, 62);
    }
    lemma2_to64_rest();
    law_frac_sub_value(items[k].numerator, items[k].denominator, 1, den);
}

} // verus!
