//! Checking a block of transfers: each transfer becomes a history of map
//! methods on the accounts it touches, the history is checked, and the
//! balances it leaves are compared with those the ledger reports.
use vstd::prelude::*;
use std::collections::HashMap;
use crate::types::{Method, MethodType, Semantics, Transaction};
use crate::model::{empty_table, key_methods, checkpoint_goes_through, checkpoint};
use crate::checker::verify;
use crate::ledger::{plain_history, plain_method, ledger, law_plain_check_is_ledger};
use vstd::std_specs::hash::spec_keys_iter;
use vstd::std_specs::iter::IteratorSpec;

use crate::conservation::{total, values_total, distinct_producers, law_checked_block_keeps_total};

verus! {

/// The producer that opens account `addr` with a balance of zero.
pub open spec fn opening(addr: i64) -> Method {
    Method {
        id: 0,
        process: 0,
        item_key: addr,
        item_val: 0,
        semantics: Semantics::MAP,
        MethodType: MethodType::PRODUCER,
        invocation: 0,
        response: 0,
        quiescent_period: -1i64,
        status: true,
    }
}

/// The write that takes the amount of transfer `t` from its sender.
pub open spec fn withdrawal(t: Transaction) -> Method {
    Method {
        item_key: t.send_addr,
        item_val: (-t.amount) as i64,
        MethodType: MethodType::WRITER,
        ..opening(t.send_addr)
    }
}

/// The write that gives the amount of transfer `t` to its receiver.
pub open spec fn deposit(t: Transaction) -> Method {
    Method {
        item_key: t.receive_addr,
        item_val: t.amount,
        MethodType: MethodType::WRITER,
        ..opening(t.receive_addr)
    }
}

/// Whether the history `ms` holds a producer of account `addr`.
pub open spec fn has_producer(ms: Seq<Method>, addr: i64) -> bool {
    exists|j: int|
        0 <= j < ms.len() && (#[trigger] ms[j]).MethodType == MethodType::PRODUCER
            && ms[j].item_key == addr
}

/// The history `ms` with the methods of transfer `t`: an opening of the
/// receiver where no producer of it is there yet, the withdrawal, the deposit.
pub open spec fn transfer_methods(ms: Seq<Method>, t: Transaction) -> Seq<Method> {
    let ms = if has_producer(ms, t.receive_addr) {
        ms
    } else {
        ms.push(opening(t.receive_addr))
    };
    ms.push(withdrawal(t)).push(deposit(t))
}

/// A transfer is acceptable when it goes between two accounts and moves no
/// negative amount.
pub open spec fn transaction_valid(t: Transaction) -> bool {
    t.send_addr != t.receive_addr && t.amount >= 0
}

/// Whether every transfer of the block is acceptable.
pub open spec fn block_valid(block: Seq<Transaction>) -> bool {
    forall|i: int| 0 <= i < block.len() ==> transaction_valid(#[trigger] block[i])
}

/// The history `ms` with the methods of the block's transfers, up to the
/// first one that is not acceptable.
pub open spec fn block_history(block: Seq<Transaction>, ms: Seq<Method>) -> Seq<Method>
    decreases block.len(),
{
    if block.len() == 0 || !transaction_valid(block[0]) {
        ms
    } else {
        block_history(block.drop_first(), transfer_methods(ms, block[0]))
    }
}

/// Whether the history `h` of a block can be checked: it keys into an ordered
/// map and its replay does not get stuck.
pub open spec fn block_checkable(h: Seq<Method>, balances: Map<i64, i64>) -> bool {
    &&& h.len() < i64::MAX
    &&& key_methods(h) is Some
    &&& checkpoint_goes_through(key_methods(h).unwrap(), balances, empty_table(), 0, 0)
}

/// The methods a block adds to a plain history leave it plain.
pub proof fn lemma_block_history_plain(block: Seq<Transaction>, ms: Seq<Method>)
    requires
        plain_history(ms),
    ensures
        plain_history(block_history(block, ms)),
        block_history(block, ms).len() >= ms.len(),
    decreases block.len(),
{
    if block.len() > 0 && transaction_valid(block[0]) {
        let t = block[0];
        let ms1 = if has_producer(ms, t.receive_addr) {
            ms
        } else {
            ms.push(opening(t.receive_addr))
        };
        let ms2 = transfer_methods(ms, t);
        assert(plain_history(ms2)) by {
            assert forall|i: int| 0 <= i < ms2.len() implies plain_method(#[trigger] ms2[i]) by {
                if i < ms.len() {
                    assert(ms2[i] == ms[i]);
                }
            }
        }
        lemma_block_history_plain(block.drop_first(), ms2);
    }
}

/// Whether history `all_methods` holds a producer of account `addr`.
fn find_producer(all_methods: &Vec<Method>, addr: i64) -> (found: bool)
    ensures
        found == has_producer(all_methods@, addr),
{
    let mut j: usize = 0;
    while j < all_methods.len()
        invariant
            j <= all_methods.len(),
            forall|a: int|
                0 <= a < j ==> !((#[trigger] all_methods@[a]).MethodType == MethodType::PRODUCER
                    && all_methods@[a].item_key == addr),
        decreases all_methods.len() - j,
    {
        let m = all_methods[j];
        if m.MethodType == MethodType::PRODUCER && m.item_key == addr {
            return true;
        }
        j = j + 1;
    }
    false
}

/// Whether two balance tables hold the same accounts with the same balances.
pub fn balances_match(a: &HashMap<i64, i64>, b: &HashMap<i64, i64>) -> (r: bool)
    ensures
        r == (a@ == b@),
{
    if a.len() != b.len() {
        return false;
    }
    let ghost full = spec_keys_iter(a).remaining().unref();
    let ghost mut checked: Seq<i64> = Seq::empty();
    let mut same = true;
    for k in it: a.keys()
        invariant
            a@.len() == b@.len(),
            full == spec_keys_iter(a).remaining().unref(),
            it.seq().unref() == full,
            checked == full.take(it.index()),
            same ==> forall|j: int|
                0 <= j < checked.len() ==> b@.contains_key(checked[j]) && b@[checked[j]]
                    == a@[checked[j]],
            !same ==> exists|j: int|
                0 <= j < checked.len() && !(b@.contains_key(checked[j]) && b@[checked[j]]
                    == a@[checked[j]]),
    {
        let ghost was_same = same;
        let ghost before = checked;
        proof {
            checked = checked.push(*k);
            if !was_same {
                let j = choose|j: int|
                    0 <= j < before.len() && !(b@.contains_key(before[j]) && b@[before[j]]
                        == a@[before[j]]);
                assert(checked[j] == before[j]);
            }
        }
        let ghost last = checked.len() - 1;
        assert(checked[last] == *k);
        match b.get(k) {
            None => {
                same = false;
                assert(!b@.contains_key(checked[last]));
            },
            Some(v) => {
                if *v != *a.get(k).unwrap() {
                    same = false;
                    assert(b@[checked[last]] != a@[checked[last]]);
                }
            },
        }
    }
    proof {
        assert(checked == full);
        assert(full.to_set() == a@.dom());
        if same {
            assert forall|k: i64| a@.dom().contains(k) implies b@.dom().contains(k) by {
                assert(full.to_set().contains(k));
                let j = choose|j: int| 0 <= j < full.len() && full[j] == k;
            }
            vstd::set_lib::lemma_subset_equality(a@.dom(), b@.dom());
            assert(a@ =~= b@);
        } else {
            let j = choose|j: int|
                0 <= j < checked.len() && !(b@.contains_key(checked[j]) && b@[checked[j]]
                    == a@[checked[j]]);
            assert(full.to_set().contains(full[j]));
        }
    }
    same
}

/// Adds the methods of the block's transfers to the history, up to the first
/// transfer that is not acceptable; returns whether there is one.
pub fn add_block_methods(block: &Vec<Transaction>, all_methods: &mut Vec<Method>) -> (invalid_txn:
    bool)
    ensures
        final(all_methods)@ == block_history(block@, old(all_methods)@),
        invalid_txn == !block_valid(block@),
{
    let mut invalid_txn = false;
    let ghost goal = block_history(block@, all_methods@);
    let mut t: usize = 0;
    proof {
        assert(block@.skip(0) =~= block@);
    }
    while t < block.len() && !invalid_txn
        invariant
            t <= block.len(),
            block_history(block@.skip(t as int), all_methods@) == goal,
            invalid_txn ==> !block_valid(block@) && all_methods@ == goal,
            forall|i: int| 0 <= i < t ==> transaction_valid(#[trigger] block@[i]),
        decreases block.len() - t, if invalid_txn { 0int } else { 1int },
    {
        let txn = block[t];
        proof {
            assert(block@.skip(t as int)[0] == txn);
            assert(block@.skip(t as int).drop_first() =~= block@.skip(t as int + 1));
        }
        if txn.send_addr == txn.receive_addr {
            invalid_txn = true;
        } else if txn.amount < 0 {
            invalid_txn = true;
        } else {
            assert(0 <= txn.amount);
            assert(0 <= -1 * txn.amount + i64::MAX);
            let has_producer = find_producer(all_methods, txn.receive_addr);
            if has_producer == false {
                all_methods.push(
                    Method::Method(
                        0,
                        0,
                        txn.receive_addr,
                        0,
                        Semantics::MAP,
                        MethodType::PRODUCER,
                        0,
                        0,
                        true,
                    ),
                );
            }
            all_methods.push(
                Method::Method(
                    0,
                    0,
                    txn.send_addr,
                    -1 * txn.amount,
                    Semantics::MAP,
                    MethodType::WRITER,
                    0,
                    0,
                    true,
                ),
            );
            all_methods.push(
                Method::Method(
                    0,
                    0,
                    txn.receive_addr,
                    txn.amount,
                    Semantics::MAP,
                    MethodType::WRITER,
                    0,
                    0,
                    true,
                ),
            );
            t = t + 1;
        }
    }
    proof {
        if !invalid_txn {
            assert(block@.skip(t as int).len() == 0);
            assert(block_valid(block@));
        }
    }
    invalid_txn
}

/// Checks a block of transfers. A transfer from an account to itself, or of a
/// negative amount, makes the block invalid: the methods of the transfers
/// before it are still added to `all_methods`, and `false` is returned.
/// Otherwise each transfer adds its methods to `all_methods` (an opening of
/// the receiver where the history has no producer of it yet, then a
/// withdrawal from the sender and a deposit to the receiver), the history is
/// checked by [`verify`], and the block is correct when the check passes and
/// leaves exactly `expected_balances`.
pub fn verify_block(
    account_balances: &mut HashMap<i64, i64>,
    block: &mut Vec<Transaction>,
    all_methods: &mut Vec<Method>,
    expected_balances: &mut HashMap<i64, i64>,
) -> (r: bool)
    requires
        block_valid(old(block)@) ==> block_checkable(
            block_history(old(block)@, old(all_methods)@),
            old(account_balances)@,
        ),
    ensures
        final(block)@ == old(block)@,
        final(expected_balances)@ == old(expected_balances)@,
        final(all_methods)@ == block_history(old(block)@, old(all_methods)@),
        !block_valid(old(block)@) ==> !r && final(account_balances)@ == old(account_balances)@,
        block_valid(old(block)@) ==> ({
            let h = block_history(old(block)@, old(all_methods)@);
            let c = checkpoint(
                key_methods(h).unwrap(),
                old(account_balances)@,
                empty_table(),
                0,
                0,
                true,
            );
            &&& final(account_balances)@ == c.balances
            &&& r == (c.verdict && c.balances == old(expected_balances)@)
        }),
        block_valid(old(block)@) && plain_history(old(all_methods)@) && block_history(
            old(block)@,
            old(all_methods)@,
        ).len() > 0 ==> ({
            let l = ledger(block_history(old(block)@, old(all_methods)@), old(account_balances)@);
            &&& r == (l is Some && l.unwrap() == old(expected_balances)@)
            &&& (l is Some ==> final(account_balances)@ == l.unwrap())
        }),
        r && old(account_balances)@ == Map::<i64, i64>::empty() && distinct_producers(
            old(all_methods)@,
        ) ==> total(final(account_balances)@) == values_total(old(all_methods)@),
{
    let mut method_count: u64 = 0;
    let invalid_txn = add_block_methods(block, all_methods);
    proof {
        if plain_history(old(all_methods)@) {
            lemma_block_history_plain(old(block)@, old(all_methods)@);
            if !invalid_txn && all_methods@.len() > 0 {
                law_plain_check_is_ledger(all_methods@, account_balances@);
            }
        }
        if !invalid_txn && account_balances@ == Map::<i64, i64>::empty() && distinct_producers(
            old(all_methods)@,
        ) {
            let c = checkpoint(key_methods(all_methods@).unwrap(), Map::empty(), empty_table(), 0, 0, true);
            if c.verdict {
                law_checked_block_keeps_total(old(block)@, old(all_methods)@);
            }
        }
    }
    let mut result = !invalid_txn;
    if invalid_txn == false {
        result = verify(account_balances, all_methods, &mut method_count);
    }
    if result == false {
        return false;
    } else {
        if !balances_match(account_balances, expected_balances) {
            return false;
        }
    }
    result
}

} // verus!
