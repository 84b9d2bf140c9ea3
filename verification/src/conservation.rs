//! Transfers move money between accounts; they never make or destroy any.
//! The sum of the balances a block leaves is the sum its opening accounts
//! started with, both in the ledger's reading and in the checker's replay.
use vstd::prelude::*;
use crate::types::{Method, MethodType, Transaction};
use crate::ledger::{apply_method, ledger, ledger_from};
use crate::block::{
    block_valid, block_history, transfer_methods, has_producer, opening, withdrawal, deposit,
    transaction_valid,
};
use crate::model::{
    Replay, Run, Step, step, run_from, producer_step, read_write_step, consumer_step, claim_slot,
    key_methods, free_key, least_free_from, insertion_point, checkpoint,
    checkpoint_goes_through, empty_table, first_index,
};
use crate::ordered_map::lemma_insertion_point_exists;
use crate::checker::lemma_key_methods_keyed;

verus! {

/// The sum of the balances of a finite map of accounts.
pub open spec fn total(m: Map<i64, i64>) -> int
    decreases m.dom().len(),
    when m.dom().finite()
{
    if m.dom().len() == 0 {
        0
    } else {
        let k = m.dom().choose();
        m[k] + total(m.remove(k))
    }
}

/// The sum of the values of the methods of `ms`.
pub open spec fn values_total(ms: Seq<Method>) -> int
    decreases ms.len(),
{
    if ms.len() == 0 {
        0
    } else {
        values_total(ms.drop_last()) + ms.last().item_val
    }
}

/// A history that opens accounts and does nothing else: producers only, each
/// of a different account.
pub open spec fn distinct_producers(ms: Seq<Method>) -> bool {
    &&& forall|i: int| 0 <= i < ms.len() ==> (#[trigger] ms[i]).MethodType == MethodType::PRODUCER
    &&& forall|i: int, j: int|
        0 <= i < j < ms.len() ==> (#[trigger] ms[i]).item_key != (#[trigger] ms[j]).item_key
}

/// Any account of a finite map can be taken out of its sum first.
proof fn lemma_total_remove(m: Map<i64, i64>, k: i64)
    requires
        m.dom().finite(),
        m.contains_key(k),
    ensures
        total(m) == m[k] + total(m.remove(k)),
    decreases m.dom().len(),
{
    let c = m.dom().choose();
    assert(m.dom().len() != 0);
    if c != k {
        let mc = m.remove(c);
        let mk = m.remove(k);
        lemma_total_remove(mc, k);
        lemma_total_remove(mk, c);
        assert(mc.remove(k) =~= mk.remove(c));
    }
}

/// Setting an account to `v` changes the sum by `v` less its old balance.
proof fn lemma_total_insert(m: Map<i64, i64>, k: i64, v: i64)
    requires
        m.dom().finite(),
    ensures
        total(m.insert(k, v)) == v + total(m) - (if m.contains_key(k) {
            m[k] as int
        } else {
            0
        }),
{
    let m2 = m.insert(k, v);
    lemma_total_remove(m2, k);
    if m.contains_key(k) {
        lemma_total_remove(m, k);
        assert(m2.remove(k) =~= m.remove(k));
    } else {
        assert(m2.remove(k) =~= m);
    }
}

/// Applying one more method at the end of a history.
proof fn lemma_ledger_push(h: Seq<Method>, m: Method, i: int, b: Map<i64, i64>)
    requires
        0 <= i <= h.len(),
    ensures
        ledger_from(h.push(m), i, b) == match ledger_from(h, i, b) {
            None => None,
            Some(b2) => apply_method(m, b2),
        },
    decreases h.len() - i,
{
    if i < h.len() {
        assert(h.push(m)[i] == h[i]);
        match apply_method(h[i], b) {
            None => {
            },
            Some(b2) => {
                lemma_ledger_push(h, m, i + 1, b2);
            },
        }
    } else {
        assert(h.push(m)[i] == m);
        match apply_method(m, b) {
            None => {
            },
            Some(b2) => {
                assert(ledger_from(h.push(m), i + 1, b2) == Some(b2));
            },
        }
    }
}

/// Where a history fails, so does every longer one a block makes of it.
proof fn lemma_history_fails(block: Seq<Transaction>, p: Seq<Method>)
    requires
        ledger(p, Map::empty()) is None,
    ensures
        ledger(block_history(block, p), Map::empty()) is None,
    decreases block.len(),
{
    if block.len() > 0 && transaction_valid(block[0]) {
        let t = block[0];
        let p1 = if has_producer(p, t.receive_addr) {
            p
        } else {
            p.push(opening(t.receive_addr))
        };
        lemma_ledger_push(p, opening(t.receive_addr), 0, Map::empty());
        lemma_ledger_push(p1, withdrawal(t), 0, Map::empty());
        lemma_ledger_push(p1.push(withdrawal(t)), deposit(t), 0, Map::empty());
        assert(transfer_methods(p, t) == p1.push(withdrawal(t)).push(deposit(t)));
        lemma_history_fails(block.drop_first(), transfer_methods(p, t));
    }
}

/// The balances of a history of distinct openings: one account per producer,
/// summing to the producers' values.
proof fn lemma_openings(ms: Seq<Method>)
    requires
        distinct_producers(ms),
    ensures
        ledger(ms, Map::empty()) is Some,
        ledger(ms, Map::empty()).unwrap().dom().finite(),
        forall|k: i64| #[trigger]
            ledger(ms, Map::empty()).unwrap().contains_key(k) == has_producer(ms, k),
        total(ledger(ms, Map::empty()).unwrap()) == values_total(ms),
    decreases ms.len(),
{
    if ms.len() == 0 {
        assert(ledger(ms, Map::empty()) == Some(Map::<i64, i64>::empty()));
        assert(Map::<i64, i64>::empty().dom() =~= Set::empty());
    } else {
        let h = ms.drop_last();
        let m = ms.last();
        assert(distinct_producers(h)) by {
            assert forall|i: int, j: int| 0 <= i < j < h.len() implies (
            #[trigger] h[i]).item_key != (#[trigger] h[j]).item_key by {
                assert(h[i] == ms[i] && h[j] == ms[j]);
            }
            assert forall|i: int| 0 <= i < h.len() implies (#[trigger] h[i]).MethodType
                == MethodType::PRODUCER by {
                assert(h[i] == ms[i]);
            }
        }
        lemma_openings(h);
        assert(ms == h.push(m));
        lemma_ledger_push(h, m, 0, Map::empty());
        let b = ledger(h, Map::empty()).unwrap();
        assert(m.MethodType == MethodType::PRODUCER) by {
            assert(ms[ms.len() - 1] == m);
        }
        assert(!b.contains_key(m.item_key)) by {
            if has_producer(h, m.item_key) {
                let j = choose|j: int|
                    0 <= j < h.len() && (#[trigger] h[j]).MethodType == MethodType::PRODUCER
                        && h[j].item_key == m.item_key;
                assert(ms[j] == h[j]);
                assert(ms[ms.len() - 1] == m);
            }
        }
        lemma_total_insert(b, m.item_key, m.item_val);
        assert forall|k: i64| #[trigger]
            ledger(ms, Map::empty()).unwrap().contains_key(k) == has_producer(ms, k) by {
            if has_producer(h, k) {
                let j = choose|j: int|
                    0 <= j < h.len() && (#[trigger] h[j]).MethodType == MethodType::PRODUCER
                        && h[j].item_key == k;
                assert(ms[j] == h[j]);
            }
            if has_producer(ms, k) && k != m.item_key {
                let j = choose|j: int|
                    0 <= j < ms.len() && (#[trigger] ms[j]).MethodType == MethodType::PRODUCER
                        && ms[j].item_key == k;
                assert(j != ms.len() - 1);
                assert(ms[j] == h[j]);
            }
            if k == m.item_key {
                assert(ms[ms.len() - 1] == m);
            }
        }
    }
}

/// One transfer at a time: the sum of the balances stays what it was.
proof fn lemma_block_total(block: Seq<Transaction>, p: Seq<Method>, b: Map<i64, i64>)
    requires
        block_valid(block),
        ledger(p, Map::empty()) == Some(b),
        b.dom().finite(),
        forall|k: i64| #[trigger] b.contains_key(k) == has_producer(p, k),
    ensures
        ledger(block_history(block, p), Map::empty()) matches Some(l) ==> l.dom().finite()
            && total(l) == total(b),
    decreases block.len(),
{
    if block.len() > 0 {
        let t = block[0];
        assert(transaction_valid(t));
        let r = t.receive_addr;
        let s = t.send_addr;
        let p1 = if has_producer(p, r) {
            p
        } else {
            p.push(opening(r))
        };
        lemma_ledger_push(p, opening(r), 0, Map::empty());
        let b1 = if has_producer(p, r) {
            b
        } else {
            b.insert(r, 0)
        };
        assert(ledger(p1, Map::empty()) == Some(b1));
        lemma_total_insert(b, r, 0);
        assert(total(b1) == total(b));
        assert(b1.contains_key(r));
        assert forall|k: i64| #[trigger] b1.contains_key(k) == has_producer(p1, k) by {
            if !has_producer(p, r) {
                if has_producer(p, k) {
                    let j = choose|j: int|
                        0 <= j < p.len() && (#[trigger] p[j]).MethodType == MethodType::PRODUCER
                            && p[j].item_key == k;
                    assert(p1[j] == p[j]);
                }
                if has_producer(p1, k) && k != r {
                    let j = choose|j: int|
                        0 <= j < p1.len() && (#[trigger] p1[j]).MethodType
                            == MethodType::PRODUCER && p1[j].item_key == k;
                    assert(j != p.len());
                    assert(p1[j] == p[j]);
                }
                if k == r {
                    assert(p1[p.len() as int] == opening(r));
                }
            }
        }
        let p2 = p1.push(withdrawal(t));
        let p3 = p2.push(deposit(t));
        assert(transfer_methods(p, t) == p3);
        assert(block_history(block, p) == block_history(block.drop_first(), p3));
        assert(block_valid(block.drop_first())) by {
            assert forall|i: int| 0 <= i < block.drop_first().len() implies
                transaction_valid(#[trigger] block.drop_first()[i]) by {
                assert(block.drop_first()[i] == block[i + 1]);
            }
        }
        lemma_ledger_push(p1, withdrawal(t), 0, Map::empty());
        lemma_ledger_push(p2, deposit(t), 0, Map::empty());
        match ledger(p3, Map::empty()) {
            None => {
                lemma_history_fails(block.drop_first(), p3);
            },
            Some(b3) => {
                let b2 = apply_method(withdrawal(t), b1).unwrap();
                assert(ledger(p2, Map::empty()) == Some(b2));
                assert(b2 == b1.insert(s, (b1[s] - t.amount) as i64));
                lemma_total_insert(b1, s, (b1[s] - t.amount) as i64);
                assert(b3 == b2.insert(r, (b2[r] + t.amount) as i64));
                assert(b2[r] == b1[r]);
                lemma_total_insert(b2, r, (b2[r] + t.amount) as i64);
                assert(total(b3) == total(b));
                assert forall|k: i64| #[trigger] b3.contains_key(k) == has_producer(p3, k) by {
                    if has_producer(p1, k) {
                        let j = choose|j: int|
                            0 <= j < p1.len() && (#[trigger] p1[j]).MethodType
                                == MethodType::PRODUCER && p1[j].item_key == k;
                        assert(p3[j] == p1[j]);
                    }
                    if has_producer(p3, k) {
                        let j = choose|j: int|
                            0 <= j < p3.len() && (#[trigger] p3[j]).MethodType
                                == MethodType::PRODUCER && p3[j].item_key == k;
                        assert(j < p1.len());
                        assert(p3[j] == p1[j]);
                    }
                }
                lemma_block_total(block.drop_first(), p3, b3);
            },
        }
    }
}

/// A block of acceptable transfers, replayed from accounts that a history of
/// distinct openings made, keeps the sum of the balances: where the ledger
/// goes through, its balances sum to the openings' values.
pub proof fn law_block_keeps_total(block: Seq<Transaction>, ms: Seq<Method>)
    requires
        block_valid(block),
        distinct_producers(ms),
        ledger(block_history(block, ms), Map::empty()) is Some,
    ensures
        total(ledger(block_history(block, ms), Map::empty()).unwrap()) == values_total(ms),
{
    lemma_openings(ms);
    lemma_block_total(block, ms, ledger(ms, Map::empty()).unwrap());
}

/// How many producers of account `k` the history `s` holds.
pub open spec fn producer_count(s: Seq<Method>, k: i64) -> nat
    decreases s.len(),
{
    if s.len() == 0 {
        0
    } else {
        producer_count(s.drop_last(), k) + if s.last().MethodType == MethodType::PRODUCER
            && s.last().item_key == k {
            1nat
        } else {
            0nat
        }
    }
}

/// What the methods of `s` put into the accounts: the values of its producers,
/// reads and writes (a consumer moves no money).
pub open spec fn moved_total(s: Seq<Method>) -> int
    decreases s.len(),
{
    if s.len() == 0 {
        0
    } else {
        moved_total(s.drop_last()) + if s.last().MethodType == MethodType::CONSUMER {
            0
        } else {
            s.last().item_val as int
        }
    }
}

/// The share of one method in [`producer_count`].
pub open spec fn produces(m: Method, k: i64) -> nat {
    if m.MethodType == MethodType::PRODUCER && m.item_key == k {
        1
    } else {
        0
    }
}

/// The share of one method in [`moved_total`].
pub open spec fn moves(m: Method) -> int {
    if m.MethodType == MethodType::CONSUMER {
        0
    } else {
        m.item_val as int
    }
}

/// Putting a method anywhere in a history adds its share to both sums.
proof fn lemma_insert_sums(s: Seq<Method>, p: int, x: Method)
    requires
        0 <= p <= s.len(),
    ensures
        forall|k: i64| #[trigger] producer_count(s.insert(p, x), k) == producer_count(s, k) + produces(x, k),
        moved_total(s.insert(p, x)) == moved_total(s) + moves(x),
    decreases s.len(),
{
    let t = s.insert(p, x);
    if p == s.len() {
        assert(t.drop_last() =~= s);
        assert(t.last() == x);
        assert forall|k: i64| #[trigger] producer_count(t, k) == producer_count(s, k) + produces(x, k) by {
            assert(producer_count(t, k) == producer_count(t.drop_last(), k) + produces(t.last(), k));
        }
    } else {
        lemma_insert_sums(s.drop_last(), p, x);
        assert(t.drop_last() =~= s.drop_last().insert(p, x));
        assert(t.last() == s.last());
        assert forall|k: i64| #[trigger] producer_count(t, k) == producer_count(s, k) + produces(x, k) by {
            assert(producer_count(t, k) == producer_count(t.drop_last(), k) + produces(t.last(), k));
            assert(producer_count(s, k) == producer_count(s.drop_last(), k) + produces(s.last(), k));
            assert(producer_count(s.drop_last().insert(p, x), k) == producer_count(s.drop_last(), k) + produces(x, k));
        }
    }
}

/// Keying a history into an ordered map keeps both sums.
proof fn lemma_key_methods_sums(all: Seq<Method>)
    requires
        key_methods(all) is Some,
    ensures
        forall|k: i64| #[trigger] producer_count(key_methods(all).unwrap(), k) == producer_count(all, k),
        moved_total(key_methods(all).unwrap()) == moved_total(all),
    decreases all.len(),
{
    if all.len() > 0 {
        lemma_key_methods_sums(all.drop_last());
        let ms = key_methods(all.drop_last()).unwrap();
        let r = free_key(ms, all.last().response).unwrap();
        assert(least_free_from(ms, all.last().response, r));
        let m = Method { response: r, ..all.last() };
        lemma_key_methods_keyed(all.drop_last());
        lemma_insertion_point_exists(ms, r, 0);
        let p = choose|p: int| insertion_point(ms, m.response, p);
        lemma_insert_sums(ms, p, m);
        assert forall|k: i64| #[trigger] producer_count(key_methods(all).unwrap(), k)
            == producer_count(all, k) by {
            assert(producer_count(ms.insert(p, m), k) == producer_count(ms, k) + produces(m, k));
        }
    }
}

/// A prefix one longer adds the next method's shares.
proof fn lemma_take_next(s: Seq<Method>, n: int)
    requires
        0 <= n < s.len(),
    ensures
        forall|k: i64| #[trigger] producer_count(s.take(n + 1), k) == producer_count(s.take(n), k)
            + produces(s[n], k),
        moved_total(s.take(n + 1)) == moved_total(s.take(n)) + moves(s[n]),
{
    assert(s.take(n + 1).drop_last() =~= s.take(n));
    assert(s.take(n + 1).last() == s[n]);
}

/// A prefix holds no more producers of an account than the whole.
proof fn lemma_take_count(s: Seq<Method>, n: int, k: i64)
    requires
        0 <= n <= s.len(),
    ensures
        producer_count(s.take(n), k) <= producer_count(s, k),
    decreases s.len() - n,
{
    if n < s.len() {
        lemma_take_next(s, n);
        lemma_take_count(s, n + 1, k);
        assert(producer_count(s.take(n + 1), k) == producer_count(s.take(n), k) + produces(s[n], k));
    } else {
        assert(s.take(n) =~= s);
    }
}

/// A history holds a producer of account `k` exactly when it counts one.
proof fn lemma_has_producer_count(s: Seq<Method>, k: i64)
    ensures
        has_producer(s, k) == (producer_count(s, k) >= 1),
    decreases s.len(),
{
    if s.len() > 0 {
        let h = s.drop_last();
        lemma_has_producer_count(h, k);
        if has_producer(h, k) {
            let j = choose|j: int|
                0 <= j < h.len() && (#[trigger] h[j]).MethodType == MethodType::PRODUCER
                    && h[j].item_key == k;
            assert(s[j] == h[j]);
        }
        if has_producer(s, k) {
            let j = choose|j: int|
                0 <= j < s.len() && (#[trigger] s[j]).MethodType == MethodType::PRODUCER
                    && s[j].item_key == k;
            if j < s.len() - 1 {
                assert(h[j] == s[j]);
            }
        }
        if produces(s.last(), k) == 1 {
            assert(s[s.len() - 1] == s.last());
        }
    }
}

/// The methods of a block of acceptable transfers move no money, and open
/// only accounts that no producer opened yet.
proof fn lemma_block_sums(block: Seq<Transaction>, ms: Seq<Method>)
    requires
        block_valid(block),
        forall|k: i64| #[trigger] producer_count(ms, k) <= 1,
    ensures
        forall|k: i64| #[trigger] producer_count(block_history(block, ms), k) <= 1,
        moved_total(block_history(block, ms)) == moved_total(ms),
    decreases block.len(),
{
    if block.len() > 0 {
        let t = block[0];
        assert(transaction_valid(t));
        let r = t.receive_addr;
        lemma_has_producer_count(ms, r);
        let p1 = if has_producer(ms, r) {
            ms
        } else {
            ms.push(opening(r))
        };
        assert forall|k: i64| #[trigger] producer_count(p1, k) <= 1 by {
            if !has_producer(ms, r) {
                assert(p1.drop_last() =~= ms);
                assert(p1.last() == opening(r));
                assert(producer_count(p1, k) == producer_count(ms, k) + produces(opening(r), k));
            }
        }
        if !has_producer(ms, r) {
            assert(p1.drop_last() =~= ms);
        }
        assert(moved_total(p1) == moved_total(ms));
        let p2 = p1.push(withdrawal(t));
        let p3 = p2.push(deposit(t));
        assert(p2.drop_last() =~= p1);
        assert(p3.drop_last() =~= p2);
        assert(transfer_methods(ms, t) == p3);
        assert(withdrawal(t).item_val == -t.amount);
        assert(moved_total(p2) == moved_total(p1) + withdrawal(t).item_val);
        assert(moved_total(p3) == moved_total(p2) + deposit(t).item_val);
        assert(moved_total(p3) == moved_total(ms));
        assert forall|k: i64| #[trigger] producer_count(p3, k) <= 1 by {
            assert(producer_count(p3, k) == producer_count(p2, k) + produces(deposit(t), k));
            assert(producer_count(p2, k) == producer_count(p1, k) + produces(withdrawal(t), k));
        }
        assert(block_valid(block.drop_first())) by {
            assert forall|i: int| 0 <= i < block.drop_first().len() implies transaction_valid(
                #[trigger] block.drop_first()[i],
            ) by {
                assert(block.drop_first()[i] == block[i + 1]);
            }
        }
        lemma_block_sums(block.drop_first(), p3);
    }
}

/// Distinct openings count each account once and move what they open with.
proof fn lemma_openings_sums(ms: Seq<Method>)
    requires
        distinct_producers(ms),
    ensures
        forall|k: i64| #[trigger] producer_count(ms, k) <= 1,
        moved_total(ms) == values_total(ms),
    decreases ms.len(),
{
    if ms.len() > 0 {
        let h = ms.drop_last();
        assert(distinct_producers(h)) by {
            assert forall|i: int, j: int| 0 <= i < j < h.len() implies (
            #[trigger] h[i]).item_key != (#[trigger] h[j]).item_key by {
                assert(h[i] == ms[i] && h[j] == ms[j]);
            }
            assert forall|i: int| 0 <= i < h.len() implies (#[trigger] h[i]).MethodType
                == MethodType::PRODUCER by {
                assert(h[i] == ms[i]);
            }
        }
        lemma_openings_sums(h);
        assert(ms[ms.len() - 1] == ms.last());
        assert forall|k: i64| #[trigger] producer_count(ms, k) <= 1 by {
            assert(producer_count(ms, k) == producer_count(h, k) + produces(ms.last(), k));
            if ms.last().item_key == k {
                lemma_has_producer_count(h, k);
                if has_producer(h, k) {
                    let j = choose|j: int|
                        0 <= j < h.len() && (#[trigger] h[j]).MethodType == MethodType::PRODUCER
                            && h[j].item_key == k;
                    assert(ms[j] == h[j]);
                }
            }
        }
    }
}

/// A run of the checker from method `i` on, over a map where each account has
/// at most one producer and every account already there had its producer
/// replayed: where it finishes, the balances grew by what the rest of the
/// map moves.
proof fn lemma_run_total(ms: Seq<Method>, i: int, st: Replay)
    requires
        0 <= i <= ms.len(),
        st.balances.dom().finite(),
        forall|k: i64| #[trigger] producer_count(ms, k) <= 1,
        forall|k: i64| #[trigger] st.balances.contains_key(k) ==> producer_count(ms.take(i), k) >= 1,
    ensures
        run_from(ms, i, st) matches Run::Finished { st: f } ==> f.balances.dom().finite()
            && total(f.balances) - moved_total(ms) == total(st.balances) - moved_total(ms.take(i)),
    decreases ms.len() - i,
{
    if i < ms.len() {
        let m = ms[i];
        lemma_take_next(ms, i);
        match step(ms, i, st) {
            Step::Next(st2) => {
                let st1 = Replay { items: claim_slot(st.items, m, ms[ms.len() - 1].response), ..st };
                let b = st.balances;
                if m.MethodType == MethodType::PRODUCER {
                    assert(st2 == producer_step(ms, i, st1)->Next_0);
                    assert(st2.balances == b.insert(m.item_key, m.item_val));
                    lemma_take_count(ms, i + 1, m.item_key);
                    assert(producer_count(ms.take(i + 1), m.item_key) == producer_count(ms.take(i), m.item_key) + 1);
                    assert(!b.contains_key(m.item_key));
                    lemma_total_insert(b, m.item_key, m.item_val);
                } else if m.MethodType == MethodType::READER || m.MethodType == MethodType::WRITER {
                    assert(st2 == read_write_step(ms, i, st1)->Next_0);
                    let nb = (b[m.item_key] + m.item_val) as i64;
                    assert(b.contains_key(m.item_key));
                    assert(st2.balances == b.insert(m.item_key, nb));
                    lemma_total_insert(b, m.item_key, nb);
                } else {
                    assert(st2 == consumer_step(ms, i, st1)->Next_0);
                    assert(st2.balances == b);
                }
                assert forall|k: i64| #[trigger] st2.balances.contains_key(k) implies producer_count(
                    ms.take(i + 1),
                    k,
                ) >= 1 by {
                    assert(producer_count(ms.take(i + 1), k) == producer_count(ms.take(i), k)
                        + produces(m, k));
                }
                lemma_run_total(ms, i + 1, st2);
            },
            _ => {
            },
        }
    } else {
        assert(ms.take(i) =~= ms);
    }
}

/// A block of acceptable transfers that the checker passes, replayed from no
/// accounts after a history of distinct openings (of any response, flag or
/// semantics), keeps the sum of the balances: the balances the check leaves
/// sum to the openings' values.
pub proof fn law_checked_block_keeps_total(block: Seq<Transaction>, ms: Seq<Method>)
    requires
        block_valid(block),
        distinct_producers(ms),
        key_methods(block_history(block, ms)) is Some,
        checkpoint_goes_through(
            key_methods(block_history(block, ms)).unwrap(),
            Map::empty(),
            empty_table(),
            0,
            0,
        ),
        checkpoint(
            key_methods(block_history(block, ms)).unwrap(),
            Map::empty(),
            empty_table(),
            0,
            0,
            true,
        ).verdict,
    ensures
        total(
            checkpoint(
                key_methods(block_history(block, ms)).unwrap(),
                Map::empty(),
                empty_table(),
                0,
                0,
                true,
            ).balances,
        ) == values_total(ms),
{
    let h = block_history(block, ms);
    let k = key_methods(h).unwrap();
    lemma_openings_sums(ms);
    lemma_block_sums(block, ms);
    lemma_key_methods_sums(h);
    assert forall|x: i64| #[trigger] producer_count(k, x) <= 1 by {
        assert(producer_count(k, x) == producer_count(h, x));
    }
    let init = Replay {
        balances: Map::empty(),
        items: empty_table(),
        consumed: Seq::empty(),
        finished: Seq::empty(),
        failed: Seq::empty(),
    };
    assert(first_index(0, 0) == Some(0int));
    assert(Map::<i64, i64>::empty().dom() =~= Set::empty());
    lemma_run_total(k, 0, init);
    assert(k.take(0) =~= Seq::<Method>::empty());
    assert(total(Map::<i64, i64>::empty()) == 0);
}

} // verus!
