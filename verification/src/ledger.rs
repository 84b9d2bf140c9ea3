//! The plain reading of a history of account updates: apply each method to
//! the balances in turn. For the histories that blocks of transfers produce,
//! the checker's verdict is exactly this reading's.
use vstd::prelude::*;
use crate::types::{Method, MethodType, Semantics};
use crate::item::ItemModel;
use crate::model::{
    Replay, Run, Step, step, run_from, slots, claim_slot, slot_of, key_methods,
    free_key, least_free_from, taken, insert_by_response, insertion_point, checkpoint,
    checkpoint_goes_through, empty_table, first_index, table_sound, drain_finished,
    producer_step, read_write_step,
};

verus! {

/// A method that a block's history is made of: a producer that opens an
/// account or a write that moves money, both on the map, both successful,
/// all responding at time zero.
pub open spec fn plain_method(m: Method) -> bool {
    &&& m.semantics == Semantics::MAP
    &&& (m.MethodType == MethodType::PRODUCER || m.MethodType == MethodType::WRITER)
    &&& m.status
    &&& m.response == 0
}

/// Whether every method of `h` is plain.
pub open spec fn plain_history(h: Seq<Method>) -> bool {
    forall|i: int| 0 <= i < h.len() ==> plain_method(#[trigger] h[i])
}

/// What one method does to the balances: a producer sets its account to its
/// value; a write adds its value to its account. `None` where a write touches
/// a missing account, a send (a negative write) comes from one that holds
/// less, or the new balance does not fit.
pub open spec fn apply_method(m: Method, b: Map<i64, i64>) -> Option<Map<i64, i64>> {
    if m.MethodType == MethodType::PRODUCER {
        Some(b.insert(m.item_key, m.item_val))
    } else if !b.contains_key(m.item_key) || (m.item_val < 0 && b[m.item_key] < -m.item_val)
        || b[m.item_key] + m.item_val > i64::MAX || b[m.item_key] + m.item_val < i64::MIN {
        None
    } else {
        Some(b.insert(m.item_key, (b[m.item_key] + m.item_val) as i64))
    }
}

/// The balances after the methods of `h` from `h[i]` on, applied in order.
pub open spec fn ledger_from(h: Seq<Method>, i: int, b: Map<i64, i64>) -> Option<Map<i64, i64>>
    decreases h.len() - i,
{
    if i >= h.len() || i < 0 {
        Some(b)
    } else {
        match apply_method(h[i], b) {
            None => None,
            Some(b2) => ledger_from(h, i + 1, b2),
        }
    }
}

/// The balances after all methods of `h`, applied in order to `b`.
pub open spec fn ledger(h: Seq<Method>, b: Map<i64, i64>) -> Option<Map<i64, i64>> {
    ledger_from(h, 0, b)
}

/// A method that agrees with a plain one in all but its response.
pub open spec fn plain_but_response(m: Method) -> bool {
    plain_method(Method { response: 0, ..m })
}

/// Every item of the table has a weight of no less than zero over a positive denominator.
pub open spec fn table_ok(items: Seq<ItemModel>) -> bool {
    forall|s: int|
        0 <= s < items.len() ==> (#[trigger] items[s]).numerator >= 0 && items[s].denominator
            >= 1
}

/// The ordered map of `h` where every response is zero: `h` itself, each
/// method keyed by its place.
pub open spec fn keyed_in_order(h: Seq<Method>) -> Seq<Method> {
    Seq::new(h.len(), |i: int| Method { response: i as i64, ..h[i] })
}

pub proof fn lemma_keyed_in_order(h: Seq<Method>)
    requires
        plain_history(h),
        h.len() < i64::MAX,
    ensures
        key_methods(h) == Some(keyed_in_order(h)),
    decreases h.len(),
{
    if h.len() > 0 {
        let h0 = h.drop_last();
        assert forall|i: int| 0 <= i < h0.len() implies plain_method(#[trigger] h0[i]) by {
            assert(h0[i] == h[i]);
        }
        lemma_keyed_in_order(h0);
        let ms = keyed_in_order(h0);
        let n = h0.len() as i64;
        let m = h.last();
        assert(plain_method(h[h.len() - 1]));
        assert(m.response == 0);
        assert forall|k2: i64| 0 <= k2 < n implies taken(ms, k2) by {
            assert(ms[k2 as int].response == k2);
        }
        assert(!taken(ms, n)) by {
            if taken(ms, n) {
                let j = choose|j: int| 0 <= j < ms.len() && ms[j].response == n;
                assert(ms[j].response == j);
            }
        }
        assert(least_free_from(ms, 0, n));
        let k = choose|k: i64| least_free_from(ms, 0, k);
        if k < n {
            assert(taken(ms, k));
        } else if k > n {
            assert(taken(ms, n));
        }
        assert(free_key(ms, 0) == Some(n));
        let mk = Method { response: n, ..m };
        assert(insertion_point(ms, n, ms.len() as int)) by {
            assert forall|a: int| 0 <= a < ms.len() implies ms[a].response < n by {
                assert(ms[a].response == a);
            }
        }
        let p = choose|p: int| insertion_point(ms, n, p);
        if p < ms.len() {
            assert(ms[p].response == p);
        }
        assert(insert_by_response(ms, mk) == ms.insert(ms.len() as int, mk));
        assert(ms.insert(ms.len() as int, mk) =~= keyed_in_order(h));
    }
}

/// The run of a history of plain methods (responses aside) never rejects
/// where the ledger goes through, and the other way round; where it finishes,
/// it leaves the ledger's balances and a sound table.
proof fn lemma_plain_run(ms: Seq<Method>, i: int, st: Replay)
    requires
        0 <= i <= ms.len(),
        forall|j: int| 0 <= j < ms.len() ==> plain_but_response(#[trigger] ms[j]),
        table_ok(st.items),
        st.items.len() == slots(),
        st.consumed == Seq::<ItemModel>::empty(),
        st.finished == Seq::<i64>::empty(),
        st.failed == Seq::<ItemModel>::empty(),
    ensures
        match run_from(ms, i, st) {
            Run::Rejected { .. } => ledger_from(ms, i, st.balances) is None,
            Run::Finished { st: f } => {
                &&& ledger_from(ms, i, st.balances) == Some(f.balances)
                &&& table_ok(f.items)
                &&& f.items.len() == slots()
                &&& f.consumed == Seq::<ItemModel>::empty()
                &&& f.finished == Seq::<i64>::empty()
                &&& f.failed == Seq::<ItemModel>::empty()
            },
            Run::Stuck => true,
        },
    decreases ms.len() - i,
{
    if i < ms.len() {
        let m = ms[i];
        assert(plain_but_response(ms[i]));
        let last_key = ms[ms.len() - 1].response;
        let items1 = claim_slot(st.items, m, last_key);
        assert(table_ok(items1)) by {
            assert forall|s: int| 0 <= s < items1.len() implies (#[trigger] items1[s]).numerator
                >= 0 && items1[s].denominator >= 1 by {
                assert(items1[s] == st.items[s] || items1[s].numerator == 0
                    && items1[s].denominator == 1);
            }
        }
        let st1 = Replay { items: items1, ..st };
        match step(ms, i, st) {
            Step::Next(st2) => {
                if m.MethodType == MethodType::PRODUCER {
                    assert(st2 == producer_step(ms, i, st1)->Next_0);
                    let key = m.item_key;
                    let it0 = items1[key as int];
                    assert(table_ok(st2.items)) by {
                        assert forall|s: int| 0 <= s < st2.items.len() implies (
                        #[trigger] st2.items[s]).numerator >= 0 && st2.items[s].denominator
                            >= 1 by {
                            if s != key {
                                assert(st2.items[s] == items1[s]);
                            } else {
                                assert(items1[s].numerator >= 0 && items1[s].denominator >= 1);
                            }
                        }
                    }
                } else {
                    assert(st2 == read_write_step(ms, i, st1)->Next_0);
                    let s0 = slot_of(m.item_key);
                    assert(table_ok(st2.items)) by {
                        assert forall|s: int| 0 <= s < st2.items.len() implies (
                        #[trigger] st2.items[s]).numerator >= 0 && st2.items[s].denominator
                            >= 1 by {
                            if s != s0 {
                                assert(st2.items[s] == items1[s]);
                            } else {
                                assert(items1[s].numerator >= 0 && items1[s].denominator >= 1);
                            }
                        }
                    }
                }
                lemma_plain_run(ms, i + 1, st2);
            },
            Step::Rejected(_) => {
            },
            Step::Stuck => {
            },
        }
    }
}

/// Two histories that agree in all but their responses have the same ledger.
proof fn lemma_ledger_ignores_responses(
    h: Seq<Method>,
    g: Seq<Method>,
    i: int,
    b: Map<i64, i64>,
)
    requires
        h.len() == g.len(),
        0 <= i <= h.len(),
        forall|j: int|
            0 <= j < h.len() ==> #[trigger] h[j] == (Method { response: h[j].response, ..g[j] }),
    ensures
        ledger_from(h, i, b) == ledger_from(g, i, b),
    decreases h.len() - i,
{
    if i < h.len() {
        assert(h[i] == Method { response: h[i].response, ..g[i] });
        assert(apply_method(h[i], b) == apply_method(g[i], b));
        match apply_method(h[i], b) {
            None => {
            },
            Some(b2) => {
                lemma_ledger_ignores_responses(h, g, i + 1, b2);
            },
        }
    }
}

/// For a non-empty history of plain methods that the checker can check, its
/// verdict is the ledger's: the history is correct exactly when applying its
/// methods in order never sends from a missing or short account, and the
/// balances the check leaves are the ledger's.
pub proof fn law_plain_check_is_ledger(h: Seq<Method>, b: Map<i64, i64>)
    requires
        plain_history(h),
        h.len() > 0,
        h.len() < i64::MAX,
        key_methods(h) is Some,
        checkpoint_goes_through(key_methods(h).unwrap(), b, empty_table(), 0, 0),
    ensures
        ({
            let c = checkpoint(key_methods(h).unwrap(), b, empty_table(), 0, 0, true);
            &&& c.verdict == (ledger(h, b) is Some)
            &&& (ledger(h, b) matches Some(f) ==> c.balances == f)
        }),
{
    lemma_keyed_in_order(h);
    let ms = keyed_in_order(h);
    assert forall|j: int| 0 <= j < ms.len() implies plain_but_response(#[trigger] ms[j]) by {
        assert(plain_method(h[j]));
        assert(Method { response: 0, ..ms[j] } == h[j]);
    }
    assert forall|j: int| 0 <= j < ms.len() implies #[trigger] ms[j] == Method {
        response: ms[j].response,
        ..h[j]
    } by {
    }
    lemma_ledger_ignores_responses(ms, h, 0, b);
    let init = Replay {
        balances: b,
        items: empty_table(),
        consumed: Seq::empty(),
        finished: Seq::empty(),
        failed: Seq::empty(),
    };
    assert(table_ok(empty_table()));
    lemma_plain_run(ms, 0, init);
    assert(first_index(0, 0) == Some(0int));
    match run_from(ms, 0, init) {
        Run::Finished { st: f } => {
            assert(table_sound(f.items)) by {
                assert forall|s: int|
                    0 <= s < f.items.len() && (#[trigger] f.items[s]).key != i64::MAX
                        implies !f.items[s].sum_negative() by {
                    assert(f.items[s].numerator >= 0 && f.items[s].denominator >= 1);
                }
            }
            assert(drain_finished(ms, ms[ms.len() - 1].response, f.finished) == Some(ms));
        },
        _ => {
        },
    }
}

} // verus!
