use std::collections::BTreeMap;
use std::collections::HashMap;
use verification_tool::block::{balances_match, verify_block};
use verification_tool::checker::{verify, verify_checkpoint};
use verification_tool::item::Item;
use verification_tool::connector::{
    block_states_runnable, check_block_states, read_state_entries, transactions_of_events,
};
use verification_tool::ordered_map::ordered_entries;
use verification_tool::deciding::history_runnable;
use verification_tool::runnable::history_checkable;
use verification_tool::types::{Event, Method, MethodType, Semantics, Transaction};

fn producer(key: i64, val: i64) -> Method {
    Method::Method(0, 0, key, val, Semantics::MAP, MethodType::PRODUCER, 0, 0, true)
}

fn writer(key: i64, val: i64) -> Method {
    Method::Method(0, 0, key, val, Semantics::MAP, MethodType::WRITER, 0, 0, true)
}

fn txn(amount: i64, send_addr: i64, receive_addr: i64) -> Transaction {
    Transaction { amount, send_addr, receive_addr }
}

fn balances(pairs: &[(i64, i64)]) -> HashMap<i64, i64> {
    let mut m = HashMap::new();
    for (k, v) in pairs {
        m.insert(*k, *v);
    }
    m
}

fn three_accounts() -> Vec<Method> {
    vec![producer(1, 10), producer(2, 10), producer(3, 10)]
}

fn demo_block() -> Vec<Transaction> {
    vec![txn(5, 1, 2), txn(5, 1, 3), txn(10, 2, 1), txn(10, 3, 1), txn(5, 1, 2)]
}

#[test]
fn demo_block_reaches_replayed_balances() {
    let mut account_balances = HashMap::new();
    let mut block = demo_block();
    let mut all_methods = three_accounts();
    let mut expected = balances(&[(1, 15), (2, 10), (3, 5)]);
    assert!(verify_block(&mut account_balances, &mut block, &mut all_methods, &mut expected));
    assert_eq!(account_balances, balances(&[(1, 15), (2, 10), (3, 5)]));
    assert_eq!(all_methods.len(), 3 + 2 * 5);
}

#[test]
fn demo_block_rejects_other_final_balances() {
    let mut account_balances = HashMap::new();
    let mut block = demo_block();
    let mut all_methods = three_accounts();
    let mut expected = balances(&[(1, 5), (2, 15), (3, 10)]);
    assert!(!verify_block(&mut account_balances, &mut block, &mut all_methods, &mut expected));
    assert_eq!(account_balances, balances(&[(1, 15), (2, 10), (3, 5)]));
}

#[test]
fn self_transfer_makes_block_invalid() {
    let mut account_balances = HashMap::new();
    let mut block = vec![txn(1, 1, 2), txn(1, 3, 3), txn(1, 2, 1)];
    let mut all_methods = three_accounts();
    let mut expected = balances(&[(1, 10), (2, 10), (3, 10)]);
    assert!(!verify_block(&mut account_balances, &mut block, &mut all_methods, &mut expected));
    assert!(account_balances.is_empty());
    // Only the transfer before the self transfer added its methods.
    assert_eq!(all_methods.len(), 3 + 2);
}

#[test]
fn negative_amount_makes_block_invalid() {
    let mut account_balances = HashMap::new();
    let mut block = vec![txn(-1, 1, 2)];
    let mut all_methods = three_accounts();
    let mut expected = balances(&[(1, 10), (2, 10), (3, 10)]);
    assert!(!verify_block(&mut account_balances, &mut block, &mut all_methods, &mut expected));
    assert_eq!(all_methods.len(), 3);
}

#[test]
fn overdraft_is_rejected() {
    let mut account_balances = HashMap::new();
    let mut block = vec![txn(11, 1, 2)];
    let mut all_methods = three_accounts();
    let mut expected = balances(&[(1, -1), (2, 21), (3, 10)]);
    assert!(!verify_block(&mut account_balances, &mut block, &mut all_methods, &mut expected));
    // The replay stopped at the withdrawal: the producers had run.
    assert_eq!(account_balances, balances(&[(1, 10), (2, 10), (3, 10)]));
}

#[test]
fn missing_sender_is_rejected() {
    let mut account_balances = HashMap::new();
    let mut block = vec![txn(1, 9, 2)];
    let mut all_methods = three_accounts();
    let mut expected = balances(&[(1, 10), (2, 10), (3, 10)]);
    assert!(!verify_block(&mut account_balances, &mut block, &mut all_methods, &mut expected));
}

#[test]
fn new_receiver_is_opened_at_zero() {
    let mut account_balances = HashMap::new();
    let mut block = vec![txn(4, 1, 7)];
    let mut all_methods = three_accounts();
    let mut expected = balances(&[(1, 6), (2, 10), (3, 10), (7, 4)]);
    assert!(verify_block(&mut account_balances, &mut block, &mut all_methods, &mut expected));
    assert_eq!(all_methods.len(), 3 + 3);
    assert_eq!(all_methods[3], producer(7, 0));
    assert_eq!(all_methods[4], writer(1, -4));
    assert_eq!(all_methods[5], writer(7, 4));
}

#[test]
fn empty_history_is_not_correct() {
    let mut account_balances = HashMap::new();
    let mut all_methods: Vec<Method> = Vec::new();
    let mut count: u64 = 0;
    assert!(!verify(&mut account_balances, &mut all_methods, &mut count));
    assert_eq!(count, 0);
}

#[test]
fn verify_counts_replayed_methods() {
    let mut account_balances = HashMap::new();
    let mut all_methods = vec![producer(1, 3), writer(1, -2), writer(1, 5)];
    let mut count: u64 = 4;
    assert!(verify(&mut account_balances, &mut all_methods, &mut count));
    assert_eq!(count, 7);
    assert_eq!(account_balances, balances(&[(1, 6)]));
    assert_eq!(all_methods, vec![producer(1, 3), writer(1, -2), writer(1, 5)]);
}

#[test]
fn verify_stops_at_rejected_send() {
    let mut account_balances = HashMap::new();
    let mut all_methods = vec![producer(1, 3), writer(1, -4), writer(1, 5)];
    let mut count: u64 = 0;
    assert!(!verify(&mut account_balances, &mut all_methods, &mut count));
    assert_eq!(count, 2);
    assert_eq!(account_balances, balances(&[(1, 3)]));
}

#[test]
fn verify_replays_in_response_order() {
    // The send responds after the deposit, so it is replayed after it.
    let mut account_balances = HashMap::new();
    let mut all_methods = vec![
        producer(1, 0),
        Method::Method(0, 0, 1, -5, Semantics::MAP, MethodType::WRITER, 0, 9, true),
        Method::Method(0, 0, 1, 5, Semantics::MAP, MethodType::WRITER, 0, 4, true),
    ];
    let mut count: u64 = 0;
    assert!(verify(&mut account_balances, &mut all_methods, &mut count));
    assert_eq!(account_balances, balances(&[(1, 0)]));
}

#[test]
fn consumed_item_leaves_weight_at_zero() {
    let mut account_balances = HashMap::new();
    let mut all_methods = vec![
        producer(4, 1),
        Method::Method(0, 0, 4, 0, Semantics::MAP, MethodType::CONSUMER, 0, 1, true),
    ];
    let mut count: u64 = 0;
    assert!(verify(&mut account_balances, &mut all_methods, &mut count));
    assert_eq!(count, 2);
}

#[test]
fn consumer_without_producer_is_incorrect() {
    let mut account_balances = HashMap::new();
    let mut all_methods =
        vec![Method::Method(0, 0, 4, 0, Semantics::MAP, MethodType::CONSUMER, 0, 1, true)];
    let mut count: u64 = 0;
    assert!(!verify(&mut account_balances, &mut all_methods, &mut count));
}

#[test]
fn balances_match_compares_accounts_and_values() {
    assert!(balances_match(&balances(&[(1, 2), (3, 4)]), &balances(&[(3, 4), (1, 2)])));
    assert!(!balances_match(&balances(&[(1, 2), (3, 4)]), &balances(&[(1, 2), (3, 5)])));
    assert!(!balances_match(&balances(&[(1, 2), (3, 4)]), &balances(&[(1, 2), (5, 4)])));
    assert!(!balances_match(&balances(&[(1, 2)]), &balances(&[(1, 2), (5, 4)])));
    assert!(balances_match(&balances(&[]), &balances(&[])));
}

fn event(from: &str, to: &str, value: i32) -> Event {
    Event { from: from.to_string(), to: to.to_string(), value }
}

#[test]
fn addresses_get_ids_in_order_of_appearance() {
    let events = vec![event("alice", "bob", 3), event("carol", "alice", 2)];
    let (txns, names) = transactions_of_events(&events);
    assert_eq!(txns, vec![txn(3, 1, 0), txn(2, 2, 1)]);
    let names: Vec<String> = names.iter().map(|n| n.iter().collect()).collect();
    assert_eq!(names, vec!["bob".to_string(), "alice".to_string(), "carol".to_string()]);
}

#[test]
fn state_entries_are_read_in_order() {
    let events = vec![event("alice", "bob", 3)];
    let (_, names) = transactions_of_events(&events);
    assert_eq!(read_state_entries("alice:10|bob:-2", &names), Some(vec![(1, 10), (0, -2)]));
    assert_eq!(read_state_entries("alice:10|dave:1", &names), None);
    assert_eq!(read_state_entries("alice:+7:9", &names), Some(vec![(1, 7)]));
}

#[test]
fn block_states_accepted() {
    let events = vec![event("alice", "bob", 3)];
    assert_eq!(check_block_states(&events, "alice:10|bob:0", "alice:7|bob:3"), 1);
}

#[test]
fn block_states_with_wrong_after_state() {
    let events = vec![event("alice", "bob", 3)];
    assert_eq!(check_block_states(&events, "alice:10|bob:0", "alice:7|bob:4"), 0);
}

#[test]
fn block_states_receiver_opened_by_transfer() {
    let events = vec![event("alice", "bob", 3)];
    assert_eq!(check_block_states(&events, "alice:10", "alice:7|bob:3"), 1);
}

#[test]
fn block_states_overdraft() {
    let events = vec![event("alice", "bob", 30)];
    assert_eq!(check_block_states(&events, "alice:10|bob:0", "alice:-20|bob:30"), 0);
}

#[test]
fn block_states_unknown_address() {
    let events = vec![event("alice", "bob", 3)];
    assert_eq!(check_block_states(&events, "alice:10|zed:0", "alice:7|bob:3"), -1);
    assert_eq!(check_block_states(&events, "alice:10|bob:0", "alice:7|zed:3"), -1);
}

#[test]
fn block_states_self_transfer() {
    let events = vec![event("alice", "alice", 3)];
    assert_eq!(check_block_states(&events, "alice:10", "alice:10"), 0);
}

#[test]
fn runnable_block_states() {
    let events = vec![event("alice", "bob", 3)];
    assert!(block_states_runnable(&events, "alice:10|bob:0", "alice:7|bob:3"));
    // A malformed entry in the state before.
    assert!(!block_states_runnable(&events, "alice10|bob:0", "alice:7|bob:3"));
    assert!(!block_states_runnable(&events, "alice:1x|bob:0", "alice:7|bob:3"));
    // An unknown address before the malformed entry ends the reading.
    assert!(block_states_runnable(&events, "zed:1|alice10", "alice"));
    // A malformed state after.
    assert!(!block_states_runnable(&events, "alice:10|bob:0", "alice:7|bob"));
}

#[test]
fn replay_stuck_on_balance_overflow() {
    let events = vec![event("alice", "bob", 3)];
    let before = format!("alice:10|bob:{}", i64::MAX);
    assert!(!block_states_runnable(&events, &before, "alice:7|bob:3"));
}

#[test]
fn replay_stuck_past_the_item_table() {
    // The account with id 71 has no slot of its own.
    let all_methods = vec![producer(71, 5)];
    assert!(!history_checkable(&all_methods, &HashMap::new()));
    assert!(history_checkable(&vec![producer(70, 5)], &HashMap::new()));
}

#[test]
fn replay_stuck_after_many_writes_to_one_account() {
    let mut all_methods = vec![producer(1, 100)];
    for _ in 0..62 {
        all_methods.push(writer(1, 1));
    }
    assert!(history_checkable(&all_methods, &HashMap::new()));
    all_methods.push(writer(1, 1));
    assert!(!history_checkable(&all_methods, &HashMap::new()));
}

#[test]
fn rejected_replay_goes_through() {
    let all_methods = vec![producer(1, 1), writer(1, -2), writer(1, 1)];
    assert!(history_checkable(&all_methods, &HashMap::new()));
    let mut account_balances = HashMap::new();
    let mut all = all_methods.clone();
    let mut count = 0u64;
    assert!(!verify(&mut account_balances, &mut all, &mut count));
}

#[test]
fn verify_moves_taken_responses_up() {
    // Both updates respond at 4: the one that comes later in the history is
    // keyed at 5, so it is replayed after the other.
    let deposit = Method::Method(0, 0, 1, 5, Semantics::MAP, MethodType::WRITER, 0, 4, true);
    let send = Method::Method(0, 0, 1, -5, Semantics::MAP, MethodType::WRITER, 0, 4, true);

    let mut account_balances = HashMap::new();
    let mut all_methods = vec![producer(1, 0), deposit, send];
    let mut count: u64 = 0;
    assert!(verify(&mut account_balances, &mut all_methods, &mut count));
    assert_eq!(account_balances, balances(&[(1, 0)]));
    assert_eq!(count, 3);
    assert_eq!(all_methods, vec![producer(1, 0), deposit, send]);

    let mut account_balances = HashMap::new();
    let mut all_methods = vec![producer(1, 0), send, deposit];
    let mut count: u64 = 0;
    assert!(!verify(&mut account_balances, &mut all_methods, &mut count));
    assert_eq!(account_balances, balances(&[(1, 0)]));
    assert_eq!(count, 2);
}

#[test]
fn ordered_entries_come_in_key_order() {
    let mut map_methods = BTreeMap::new();
    for r in [7i64, 2, 5] {
        let m = Method::Method(0, 0, r, r * 10, Semantics::MAP, MethodType::WRITER, 0, r, true);
        map_methods.insert(r, m);
    }
    let (keys, entries) = ordered_entries(&map_methods);
    assert_eq!(keys, vec![2, 5, 7]);
    let vals: Vec<i64> = entries.iter().map(|m| m.item_val).collect();
    assert_eq!(vals, vec![20, 50, 70]);
}

#[test]
fn unknown_address_after_is_answered_without_replay() {
    // Sixty-three transfers from one account: their replay would get stuck,
    // but the state after names an unknown address, so nothing is replayed.
    let mut events = Vec::new();
    for _ in 0..63 {
        events.push(event("alice", "bob", 1));
    }
    assert!(block_states_runnable(&events, "alice:100|bob:0", "alice:37|bob:63|zed:1"));
    assert_eq!(check_block_states(&events, "alice:100|bob:0", "alice:37|bob:63|zed:1"), -1);
    assert!(!block_states_runnable(&events, "alice:100|bob:0", "alice:37|bob:63"));
}

#[test]
fn correct_block_keeps_the_sum_of_balances() {
    let mut account_balances = HashMap::new();
    let mut block = vec![txn(5, 1, 2), txn(7, 2, 4), txn(3, 3, 1)];
    let mut all_methods = three_accounts();
    let mut expected = balances(&[(1, 8), (2, 8), (3, 7), (4, 7)]);
    assert!(verify_block(&mut account_balances, &mut block, &mut all_methods, &mut expected));
    let sum: i64 = account_balances.values().sum();
    assert_eq!(sum, 30);
}

#[test]
fn checkpoint_ignores_min_and_agrees_with_verify() {
    let history = vec![producer(1, 10), writer(1, -4), writer(1, 3)];
    let mut verified_balances = HashMap::new();
    let mut all = history.clone();
    let mut verified_count = 0u64;
    let verdict = verify(&mut verified_balances, &mut all, &mut verified_count);
    assert!(verdict);
    for min in [i64::MIN, 0, i64::MAX] {
        // Every response is zero, so each method is keyed by its place.
        let mut map_methods = BTreeMap::new();
        for (i, m) in history.iter().enumerate() {
            let mut m = *m;
            m.response = i as i64;
            map_methods.insert(m.response, m);
        }
        let mut vector_items = Vec::new();
        for _ in 0..71 {
            vector_items.push(Item::newFromKey(i64::MAX));
        }
        let mut account_balances = HashMap::new();
        let mut it_start = 0i64;
        let mut count_iterated = 0u64;
        let mut reset_it_start = true;
        let mut method_count = 0u64;
        let r = verify_checkpoint(
            &mut account_balances,
            &mut map_methods,
            &mut it_start,
            &mut count_iterated,
            min,
            &mut reset_it_start,
            &mut method_count,
            &mut vector_items,
        );
        assert_eq!(r, verdict);
        assert_eq!(account_balances, verified_balances);
        assert_eq!(method_count, verified_count);
        assert_eq!(account_balances, balances(&[(1, 9)]));
    }
}

#[test]
fn read_and_write_flags_do_not_change_the_verdict() {
    let flagged = |status: bool| {
        vec![
            producer(1, 10),
            Method::Method(0, 0, 1, -4, Semantics::MAP, MethodType::WRITER, 0, 0, status),
            Method::Method(0, 0, 1, 3, Semantics::MAP, MethodType::READER, 0, 0, !status),
        ]
    };
    let mut outcomes = Vec::new();
    for status in [true, false] {
        let mut account_balances = HashMap::new();
        let mut all_methods = flagged(status);
        let mut count = 0u64;
        let r = verify(&mut account_balances, &mut all_methods, &mut count);
        outcomes.push((r, account_balances, count));
    }
    assert_eq!(outcomes[0], outcomes[1]);
    assert_eq!(outcomes[0], (true, balances(&[(1, 9)]), 3));
}

#[test]
fn renamed_addresses_give_the_same_answer() {
    let events = vec![event("alice", "bob", 3), event("bob", "carol", 1)];
    let renamed = vec![event("0xa1", "0xb2", 3), event("0xb2", "0xc3", 1)];
    for (before, after, before2, after2) in [
        ("alice:10|bob:0", "alice:7|bob:2|carol:1", "0xa1:10|0xb2:0", "0xa1:7|0xb2:2|0xc3:1"),
        ("alice:10|bob:0", "alice:7|bob:3", "0xa1:10|0xb2:0", "0xa1:7|0xb2:3"),
        ("alice:10|zed:0", "alice:7", "0xa1:10|0xzz:0", "0xa1:7"),
    ] {
        assert_eq!(
            check_block_states(&events, before, after),
            check_block_states(&renamed, before2, after2)
        );
    }
    assert_eq!(check_block_states(&renamed, "0xa1:10|0xb2:0", "0xa1:7|0xb2:2|0xc3:1"), 1);
}

#[test]
fn runnable_decides_general_histories() {
    let fifo = |key: i64, inv: i64, resp: i64| {
        Method::Method(0, 0, key, key, Semantics::FIFO, MethodType::PRODUCER, inv, resp, true)
    };
    let consumer = |key: i64, inv: i64, resp: i64| {
        Method::Method(0, 0, key, 0, Semantics::FIFO, MethodType::CONSUMER, inv, resp, true)
    };
    // The consumer overlaps the producer that demoted its item, and takes the
    // item's weight below zero: the replay cannot hand the demotion back.
    let stuck = vec![fifo(1, 0, 1), fifo(2, 5, 6), consumer(2, 0, 10)];
    assert!(!history_runnable(&stuck, &HashMap::new()));
    // Invoked after that producer responded, it does not overlap it: the
    // replay goes through, and the history is incorrect.
    let late = vec![fifo(1, 0, 1), fifo(2, 5, 6), consumer(2, 2, 10)];
    assert!(history_runnable(&late, &HashMap::new()));
    let mut all = late.clone();
    let mut count = 0u64;
    assert!(!verify(&mut HashMap::new(), &mut all, &mut count));
    // A produced item that is consumed once.
    let fine = vec![fifo(1, 0, 1), consumer(1, 2, 3)];
    assert!(history_runnable(&fine, &HashMap::new()));
    let mut all = fine.clone();
    assert!(verify(&mut HashMap::new(), &mut all, &mut count));
    // Plain histories: the same answer as the decider for them.
    assert!(!history_runnable(&vec![producer(71, 5)], &HashMap::new()));
    assert!(history_runnable(&vec![producer(70, 5)], &HashMap::new()));
    assert!(history_runnable(&Vec::new(), &HashMap::new()));
}

#[test]
fn block_keeps_the_sum_from_any_openings() {
    // Openings with other responses and failed flags still open their accounts.
    let opening = |key: i64, val: i64, resp: i64| {
        Method::Method(0, 0, key, val, Semantics::MAP, MethodType::PRODUCER, 0, resp, false)
    };
    let mut account_balances = HashMap::new();
    let mut block = vec![txn(4, 1, 2), txn(1, 2, 1)];
    let mut all_methods = vec![opening(1, 10, 0), opening(2, 5, 1)];
    let mut expected = balances(&[(1, 7), (2, 8)]);
    assert!(verify_block(&mut account_balances, &mut block, &mut all_methods, &mut expected));
    let sum: i64 = account_balances.values().sum();
    assert_eq!(sum, 15);
}
