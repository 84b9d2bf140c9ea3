//! Checking a block as the ledger hands it over: its transfers, with addresses
//! as text, and the states of the accounts before and after it, written as
//! `address:balance` entries separated by `|`.
use vstd::prelude::*;
use std::collections::HashMap;
use crate::types::{Event, Method, MethodType, Semantics, Transaction};
use crate::text::{split_on, parse_decimal, chars_of, split_chars, parse_i64, same_chars, char_views, lemma_split_on_nonempty};
use crate::block::{
    block_valid, block_history, block_checkable, verify_block, lemma_block_history_plain,
    add_block_methods,
};
use crate::runnable::history_checkable;
use crate::ledger::{ledger, plain_history, plain_method};

verus! {

/// The address book with address `a` in it: appended where it is new.
pub open spec fn enroll(names: Seq<Seq<char>>, a: Seq<char>) -> Seq<Seq<char>> {
    if names.contains(a) {
        names
    } else {
        names.push(a)
    }
}

/// The address book of a list of transfer events: the addresses in the order
/// they first appear, the receiver of each event before its sender.
pub open spec fn enrolled(events: Seq<Event>) -> Seq<Seq<char>>
    decreases events.len(),
{
    if events.len() == 0 {
        Seq::empty()
    } else {
        let names = enrolled(events.drop_last());
        enroll(enroll(names, events.last().to@), events.last().from@)
    }
}

/// The id of address `a` in an address book: its place there.
pub open spec fn id_of(names: Seq<Seq<char>>, a: Seq<char>) -> int {
    choose|i: int| 0 <= i < names.len() && names[i] == a
}

/// Whether no address is twice in the book.
pub open spec fn distinct(names: Seq<Seq<char>>) -> bool {
    forall|i: int, j: int| 0 <= i < j < names.len() ==> names[i] != names[j]
}

/// The transfers of a list of events, their addresses replaced by their ids.
pub open spec fn event_transactions(events: Seq<Event>) -> Seq<Transaction> {
    let names = enrolled(events);
    Seq::new(
        events.len(),
        |i: int|
            Transaction {
                amount: events[i].value as i64,
                send_addr: id_of(names, events[i].from@) as i64,
                receive_addr: id_of(names, events[i].to@) as i64,
            },
    )
}

/// How reading an account state ends: its entries, as (account id, balance)
/// pairs in order; at an address that the book does not hold; or at an entry
/// that is not `address:balance` with a decimal balance.
pub enum StateRead {
    Entries(Seq<(i64, i64)>),
    Unknown,
    Malformed,
}

/// Reading the entries `pieces`: each is split at `:`; the first part is the
/// address, the second the balance. An entry without `:` is malformed; an
/// unknown address ends the reading before its balance is looked at.
pub open spec fn read_entries(pieces: Seq<Seq<char>>, names: Seq<Seq<char>>) -> StateRead
    decreases pieces.len(),
{
    if pieces.len() == 0 {
        StateRead::Entries(Seq::empty())
    } else {
        let parts = split_on(pieces[0], ':');
        if parts.len() < 2 {
            StateRead::Malformed
        } else if !names.contains(parts[0]) {
            StateRead::Unknown
        } else {
            match parse_decimal(parts[1]) {
                None => StateRead::Malformed,
                Some(balance) => match read_entries(pieces.drop_first(), names) {
                    StateRead::Entries(rest) => StateRead::Entries(
                        seq![(id_of(names, parts[0]) as i64, balance)] + rest,
                    ),
                    other => other,
                },
            }
        }
    }
}

/// Reading an account state: its entries are separated by `|`.
pub open spec fn read_state(s: Seq<char>, names: Seq<Seq<char>>) -> StateRead {
    read_entries(split_on(s, '|'), names)
}

/// The producers that open the accounts of a state at its balances.
pub open spec fn state_producers(entries: Seq<(i64, i64)>) -> Seq<Method> {
    Seq::new(
        entries.len(),
        |i: int|
            Method {
                id: 0,
                process: 0,
                item_key: entries[i].0,
                item_val: entries[i].1,
                semantics: Semantics::MAP,
                MethodType: MethodType::PRODUCER,
                invocation: 0,
                response: 0,
                quiescent_period: -1i64,
                status: true,
            },
    )
}

/// The balances of a state; a later entry of an account wins.
pub open spec fn state_balances(entries: Seq<(i64, i64)>) -> Map<i64, i64>
    decreases entries.len(),
{
    if entries.len() == 0 {
        Map::empty()
    } else {
        state_balances(entries.drop_last()).insert(entries.last().0, entries.last().1)
    }
}

/// Where an address book holds no address twice, adding one keeps every id.
proof fn lemma_enroll(names: Seq<Seq<char>>, a: Seq<char>)
    requires
        distinct(names),
    ensures
        distinct(enroll(names, a)),
        enroll(names, a).contains(a),
        enroll(names, a).len() <= names.len() + 1,
        forall|b: Seq<char>|
            #[trigger] names.contains(b) ==> enroll(names, a).contains(b) && id_of(
                enroll(names, a),
                b,
            ) == id_of(names, b),
{
    let n = enroll(names, a);
    if !names.contains(a) {
        assert(n[names.len() as int] == a);
    }
    assert forall|b: Seq<char>| #[trigger] names.contains(b) implies n.contains(b) && id_of(n, b)
        == id_of(names, b) by {
        let j = choose|j: int| 0 <= j < names.len() && names[j] == b;
        assert(n[j] == b);
        let k = id_of(n, b);
        let l = id_of(names, b);
        assert(0 <= k < n.len() && n[k] == b);
        assert(0 <= l < names.len() && names[l] == b);
        if k != l {
            if k < names.len() {
                assert(n[k] == names[k]);
            } else {
                assert(names.contains(a));
            }
        }
    }
}

/// The index of address `a` in the book, if it is there.
fn find_name(names: &Vec<Vec<char>>, a: &Vec<char>) -> (r: Option<usize>)
    requires
        distinct(char_views(names@)),
    ensures
        match r {
            Some(i) => char_views(names@).contains(a@) && i == id_of(char_views(names@), a@),
            None => !char_views(names@).contains(a@),
        },
{
    let ghost v = char_views(names@);
    let mut i: usize = 0;
    while i < names.len()
        invariant
            i <= names.len(),
            v == char_views(names@),
            distinct(v),
            forall|j: int| 0 <= j < i ==> v[j] != a@,
        decreases names.len() - i,
    {
        if same_chars(&names[i], a) {
            proof {
                assert(v[i as int] == a@);
                let k = id_of(v, a@);
                assert(0 <= k < v.len() && v[k] == a@);
                if k != i {
                    if k < i {
                    } else {
                        assert(distinct(v));
                        assert(v[i as int] != v[k]);
                    }
                }
            }
            return Some(i);
        }
        i = i + 1;
    }
    proof {
        if v.contains(a@) {
            let k = choose|k: int| 0 <= k < v.len() && v[k] == a@;
        }
    }
    None
}

/// Adds address `a` to the book where it is new; returns its id.
fn enroll_name(names: &mut Vec<Vec<char>>, a: Vec<char>) -> (id: usize)
    requires
        distinct(char_views(old(names)@)),
    ensures
        char_views(final(names)@) == enroll(char_views(old(names)@), a@),
        distinct(char_views(final(names)@)),
        id == id_of(char_views(final(names)@), a@),
{
    proof {
        lemma_enroll(char_views(names@), a@);
    }
    match find_name(names, &a) {
        Some(i) => i,
        None => {
            let ghost before = char_views(names@);
            let ghost av = a@;
            names.push(a);
            proof {
                assert(char_views(names@) =~= before.push(av));
                let n = char_views(names@);
                let k = id_of(n, av);
                assert(n[before.len() as int] == av);
                assert(0 <= k < n.len() && n[k] == av);
                if k < before.len() {
                    assert(before[k] == av);
                }
            }
            names.len() - 1
        },
    }
}

/// A copy of an event.
fn copy_event(e: &Event) -> (r: Event)
    ensures
        r.from@ == e.from@,
        r.to@ == e.to@,
        r.value == e.value,
{
    Event { from: e.from.clone(), to: e.to.clone(), value: e.value }
}

/// Every address of `addrs` that the book holds stays there, with its id,
/// when address `a` is added.
proof fn lemma_enroll_keeps(names: Seq<Seq<char>>, a: Seq<char>, addrs: Seq<Seq<char>>)
    requires
        distinct(names),
        forall|k: int| 0 <= k < addrs.len() ==> names.contains(#[trigger] addrs[k]),
    ensures
        forall|k: int|
            0 <= k < addrs.len() ==> enroll(names, a).contains(#[trigger] addrs[k]) && id_of(
                enroll(names, a),
                addrs[k],
            ) == id_of(names, addrs[k]),
{
    lemma_enroll(names, a);
    assert forall|k: int| 0 <= k < addrs.len() implies enroll(names, a).contains(
        #[trigger] addrs[k],
    ) && id_of(enroll(names, a), addrs[k]) == id_of(names, addrs[k]) by {
        assert(names.contains(addrs[k]));
    }
}

/// The texts of the transfer events of a block: the pieces of `transactions`
/// between the `|` separators, in order.
pub fn event_texts(transactions: &str) -> (pieces: Vec<Vec<char>>)
    ensures
        char_views(pieces@) == split_on(transactions@, '|'),
{
    let cs = chars_of(transactions);
    split_chars(&cs, '|')
}

/// The transfers of a list of events and their address book: each address
/// gets the next id when it first appears, the receiver of an event before
/// its sender.
pub fn transactions_of_events(events: &Vec<Event>) -> (r: (Vec<Transaction>, Vec<Vec<char>>))
    requires
        events.len() <= i64::MAX / 2,
    ensures
        r.0@ == event_transactions(events@),
        char_views(r.1@) == enrolled(events@),
        distinct(enrolled(events@)),
        r.1.len() <= 2 * events.len(),
{
    let mut txn_list: Vec<Transaction> = Vec::new();
    let mut names: Vec<Vec<char>> = Vec::new();
    let mut i: usize = 0;
    proof {
        assert(char_views(names@) =~= Seq::<Seq<char>>::empty());
        assert(events@.take(0) =~= Seq::<Event>::empty());
    }
    while i < events.len()
        invariant
            i <= events.len() <= i64::MAX / 2,
            char_views(names@) == enrolled(events@.take(i as int)),
            distinct(char_views(names@)),
            names.len() <= 2 * i,
            txn_list.len() == i,
            forall|j: int|
                0 <= j < i ==> #[trigger] txn_list@[j] == (Transaction {
                    amount: events@[j].value as i64,
                    send_addr: id_of(char_views(names@), events@[j].from@) as i64,
                    receive_addr: id_of(char_views(names@), events@[j].to@) as i64,
                }),
            forall|j: int|
                #![trigger events@[j]]
                0 <= j < i ==> char_views(names@).contains(events@[j].from@) && char_views(
                    names@,
                ).contains(events@[j].to@),
        decreases events.len() - i,
    {
        let e = copy_event(&events[i]);
        let ghost before = char_views(names@);
        let ghost tos = Seq::new(i as nat, |j: int| events@[j].to@);
        let ghost froms = Seq::new(i as nat, |j: int| events@[j].from@);
        proof {
            assert(events@.take(i as int + 1).drop_last() =~= events@.take(i as int));
            assert(events@.take(i as int + 1).last() == events@[i as int]);
            lemma_enroll(before, e.to@);
            lemma_enroll(enroll(before, e.to@), e.from@);
            assert forall|k: int| 0 <= k < tos.len() implies before.contains(#[trigger] tos[k]) by {
                assert(before.contains(events@[k].to@));
            }
            assert forall|k: int| 0 <= k < froms.len() implies before.contains(
                #[trigger] froms[k],
            ) by {
                assert(before.contains(events@[k].from@));
            }
            lemma_enroll_keeps(before, e.to@, tos);
            lemma_enroll_keeps(before, e.to@, froms);
            lemma_enroll_keeps(enroll(before, e.to@), e.from@, tos);
            lemma_enroll_keeps(enroll(before, e.to@), e.from@, froms);
        }
        let receiver = enroll_name(&mut names, chars_of(e.to.as_str()));
        let sender = enroll_name(&mut names, chars_of(e.from.as_str()));
        proof {
            let n = char_views(names@);
            let mid = enroll(before, e.to@);
            assert(mid.contains(e.to@));
            assert(n.contains(e.to@));
            assert(n.contains(e.from@));
            assert(n.contains(events@[i as int].from@) && n.contains(events@[i as int].to@));
            assert forall|j: int| #![trigger events@[j]] 0 <= j < i implies n.contains(events@[j].from@)
                && n.contains(events@[j].to@) && id_of(n, events@[j].from@) == id_of(
                before,
                events@[j].from@,
            ) && id_of(n, events@[j].to@) == id_of(before, events@[j].to@) by {
                assert(tos[j] == events@[j].to@);
                assert(froms[j] == events@[j].from@);
            }
            let k = id_of(enroll(before, e.to@), e.to@);
            assert(id_of(n, e.to@) == receiver);
        }
        let t = Transaction::from_event(e, sender as i64, receiver as i64);
        txn_list.push(t);
        i = i + 1;
    }
    proof {
        assert(events@.take(events.len() as int) =~= events@);
        assert(txn_list@ =~= event_transactions(events@));
    }
    (txn_list, names)
}

/// Whether a block, where its transfers are acceptable and both states read
/// to entries, can be checked from the state before it (see
/// [`block_checkable`]). Where a state names an unknown address, nothing is
/// replayed.
pub open spec fn states_checkable(events: Seq<Event>, before: Seq<char>, after: Seq<char>) -> bool {
    match read_state(before, enrolled(events)) {
        StateRead::Entries(b) => match read_state(after, enrolled(events)) {
            StateRead::Entries(_) => block_valid(event_transactions(events)) ==> block_checkable(
                block_history(event_transactions(events), state_producers(b)),
                Map::empty(),
            ),
            _ => true,
        },
        _ => true,
    }
}

/// Whether a block may be checked from these states: neither state that is
/// read holds a malformed entry, and the replay of an acceptable block does
/// not get stuck.
pub open spec fn states_runnable(events: Seq<Event>, before: Seq<char>, after: Seq<char>) -> bool {
    &&& !(read_state(before, enrolled(events)) is Malformed)
    &&& read_state(before, enrolled(events)) is Entries ==> !(read_state(
        after,
        enrolled(events),
    ) is Malformed)
    &&& states_checkable(events, before, after)
}

/// The answer on a block and its states: -1 where a state names an address
/// that no event names (the state before is read first); otherwise 1 where
/// every transfer is acceptable and the ledger, replaying them from the
/// state before, reaches the state after, and 0 where not. (A malformed
/// state, which the checker may not be given, counts as 0.)
pub open spec fn block_states_verdict(events: Seq<Event>, before: Seq<char>, after: Seq<char>) -> i32 {
    match read_state(before, enrolled(events)) {
        StateRead::Unknown => -1i32,
        StateRead::Entries(b) => match read_state(after, enrolled(events)) {
            StateRead::Unknown => -1i32,
            StateRead::Entries(a) => if block_valid(event_transactions(events)) && ledger(
                block_history(event_transactions(events), state_producers(b)),
                Map::empty(),
            ) == Some(state_balances(a)) {
                1i32
            } else {
                0i32
            },
            StateRead::Malformed => 0i32,
        },
        StateRead::Malformed => 0i32,
    }
}

/// The reading `r` of the entries after `acc`, with `acc` in front.
pub open spec fn after_entries(acc: Seq<(i64, i64)>, r: StateRead) -> StateRead {
    match r {
        StateRead::Entries(rest) => StateRead::Entries(acc + rest),
        other => other,
    }
}

/// A reading that ends in entries has one entry per piece.
proof fn lemma_entries_per_piece(pieces: Seq<Seq<char>>, names: Seq<Seq<char>>)
    ensures
        read_entries(pieces, names) matches StateRead::Entries(es) ==> es.len() == pieces.len(),
    decreases pieces.len(),
{
    if pieces.len() > 0 {
        lemma_entries_per_piece(pieces.drop_first(), names);
    }
}

/// Reads an account state, as [`read_state`] says: its entries, or `None` at
/// an address that the book does not hold.
pub fn read_state_entries(state: &str, names: &Vec<Vec<char>>) -> (r: Option<Vec<(i64, i64)>>)
    requires
        distinct(char_views(names@)),
        names.len() <= i64::MAX,
        !(read_state(state@, char_views(names@)) is Malformed),
    ensures
        match read_state(state@, char_views(names@)) {
            StateRead::Entries(es) => r is Some && r.unwrap()@ == es,
            StateRead::Unknown => r is None,
            StateRead::Malformed => false,
        },
{
    let ghost book = char_views(names@);
    let chars = chars_of(state);
    let pieces = split_chars(&chars, '|');
    let ghost ps = char_views(pieces@);
    let ghost goal = read_state(state@, book);
    let mut entries: Vec<(i64, i64)> = Vec::new();
    let mut i: usize = 0;
    proof {
        assert(ps.skip(0) =~= ps);
        assert(Seq::<(i64, i64)>::empty() + Seq::<(i64, i64)>::empty() =~= Seq::<(
            i64,
            i64,
        )>::empty());
    }
    while i < pieces.len()
        invariant
            i <= pieces.len(),
            book == char_views(names@),
            distinct(book),
            names.len() <= i64::MAX,
            ps == char_views(pieces@),
            !(goal is Malformed),
            goal == read_state(state@, book),
            goal == after_entries(entries@, read_entries(ps.skip(i as int), book)),
        decreases pieces.len() - i,
    {
        let ghost rest = ps.skip(i as int);
        proof {
            assert(rest[0] == pieces@[i as int]@);
            assert(rest.drop_first() =~= ps.skip(i as int + 1));
        }
        let parts = split_chars(&pieces[i], ':');
        let address = &parts[0];
        let balance = parse_i64(&parts[1]);
        match find_name(names, address) {
            None => {
                proof {
                    assert(char_views(parts@)[0] == address@);
                    assert(read_entries(rest, book) is Unknown);
                }
                return None;
            },
            Some(id) => {
                let ghost before = entries@;
                entries.push((id as i64, balance.unwrap()));
                proof {
                    let e = (id as i64, balance.unwrap());
                    match read_entries(ps.skip(i as int + 1), book) {
                        StateRead::Entries(tail) => {
                            assert(before + (seq![e] + tail) =~= entries@ + tail);
                        },
                        _ => {
                        },
                    }
                }
            },
        }
        i = i + 1;
    }
    proof {
        assert(ps.skip(i as int) =~= Seq::<Seq<char>>::empty());
        assert(entries@ + Seq::<(i64, i64)>::empty() =~= entries@);
    }
    Some(entries)
}

/// Checks a block as the ledger hands it over: the events of its transfers,
/// the state of the accounts before it and the state after it. Addresses get
/// ids in the order they first appear in the events. Returns -1 where a
/// state names an address that no event names (the state before is read
/// first), 1 where the block is correct and 0 where it is not: every
/// transfer goes between two accounts and moves no negative amount, and
/// replaying them in order from the state before, each receiver's account
/// opened at zero where the states do not hold it, never sends from a
/// missing or short account and ends at the state after.
pub fn check_block_states(events: &Vec<Event>, before_state: &str, after_state: &str) -> (r: i32)
    requires
        events.len() <= i64::MAX / 2,
        states_runnable(events@, before_state@, after_state@),
    ensures
        r == block_states_verdict(events@, before_state@, after_state@),
{
    let (mut txn_list, names) = transactions_of_events(events);
    let before = match read_state_entries(before_state, &names) {
        None => {
            return -1;
        },
        Some(e) => e,
    };
    let ghost b = before@;
    let mut all_methods: Vec<Method> = Vec::new();
    let mut i: usize = 0;
    while i < before.len()
        invariant
            i <= before.len(),
            b == before@,
            all_methods@ =~= state_producers(b.take(i as int)),
        decreases before.len() - i,
    {
        let (id, balance) = before[i];
        all_methods.push(
            Method::Method(0, 0, id, balance, Semantics::MAP, MethodType::PRODUCER, 0, 0, true),
        );
        i = i + 1;
        proof {
            assert(all_methods@ =~= state_producers(b.take(i as int)));
        }
    }
    proof {
        assert(b.take(b.len() as int) =~= b);
    }
    let after = match read_state_entries(after_state, &names) {
        None => {
            return -1;
        },
        Some(e) => e,
    };
    let ghost a = after@;
    let mut expected_balances: HashMap<i64, i64> = HashMap::new();
    let mut j: usize = 0;
    proof {
        assert(a.take(0) =~= Seq::<(i64, i64)>::empty());
        assert(expected_balances@ =~= state_balances(a.take(0)));
    }
    while j < after.len()
        invariant
            j <= after.len(),
            a == after@,
            expected_balances@ == state_balances(a.take(j as int)),
        decreases after.len() - j,
    {
        let (id, balance) = after[j];
        expected_balances.insert(id, balance);
        proof {
            assert(a.take(j as int + 1).drop_last() =~= a.take(j as int));
        }
        j = j + 1;
    }
    proof {
        assert(a.take(a.len() as int) =~= a);
        lemma_split_on_nonempty(before_state@, '|');
        lemma_entries_per_piece(split_on(before_state@, '|'), enrolled(events@));
        assert(plain_history(all_methods@)) by {
            assert forall|k: int| 0 <= k < all_methods@.len() implies plain_method(
                #[trigger] all_methods@[k],
            ) by {
            }
        }
        assert(b.len() > 0);
        lemma_block_history_plain(txn_list@, all_methods@);
    }
    let mut account_balances: HashMap<i64, i64> = HashMap::new();
    assert(account_balances@ == Map::<i64, i64>::empty());
    let result = verify_block(
        &mut account_balances,
        &mut txn_list,
        &mut all_methods,
        &mut expected_balances,
    );
    if result {
        1
    } else {
        0
    }
}

/// Whether reading an account state goes through to its entries or to an
/// unknown address, without a malformed entry on the way: where it does not,
/// the state may not be read with [`read_state_entries`].
pub fn state_well_formed(state: &str, names: &Vec<Vec<char>>) -> (r: bool)
    requires
        distinct(char_views(names@)),
    ensures
        r == !(read_state(state@, char_views(names@)) is Malformed),
{
    let ghost book = char_views(names@);
    let chars = chars_of(state);
    let pieces = split_chars(&chars, '|');
    let ghost ps = char_views(pieces@);
    let mut i: usize = 0;
    proof {
        assert(ps.skip(0) =~= ps);
    }
    while i < pieces.len()
        invariant
            i <= pieces.len(),
            book == char_views(names@),
            distinct(book),
            ps == char_views(pieces@),
            ps == split_on(state@, '|'),
            (read_state(state@, book) is Malformed) == (read_entries(ps.skip(i as int), book) is Malformed),
        decreases pieces.len() - i,
    {
        let ghost rest = ps.skip(i as int);
        proof {
            assert(rest[0] == pieces@[i as int]@);
            assert(rest.drop_first() =~= ps.skip(i as int + 1));
        }
        let parts = split_chars(&pieces[i], ':');
        if parts.len() < 2 {
            return false;
        }
        match find_name(names, &parts[0]) {
            None => {
                proof {
                    assert(char_views(parts@)[0] == parts@[0]@);
                }
                return true;
            },
            Some(_) => {
                if parse_i64(&parts[1]).is_none() {
                    return false;
                }
            },
        }
        i = i + 1;
    }
    proof {
        assert(ps.skip(i as int) =~= Seq::<Seq<char>>::empty());
    }
    true
}

/// Whether [`check_block_states`] may be called on these events and states:
/// neither state that is read holds a malformed entry, and the replay of an
/// acceptable block does not get stuck.
pub fn block_states_runnable(events: &Vec<Event>, before_state: &str, after_state: &str) -> (r:
    bool)
    requires
        events.len() <= i64::MAX / 2,
    ensures
        r == states_runnable(events@, before_state@, after_state@),
{
    let (txn_list, names) = transactions_of_events(events);
    if !state_well_formed(before_state, &names) {
        return false;
    }
    let before = match read_state_entries(before_state, &names) {
        None => {
            return true;
        },
        Some(e) => e,
    };
    if !state_well_formed(after_state, &names) {
        return false;
    }
    if read_state_entries(after_state, &names).is_none() {
        return true;
    }
    let ghost b = before@;
    let mut all_methods: Vec<Method> = Vec::new();
    let mut i: usize = 0;
    while i < before.len()
        invariant
            i <= before.len(),
            b == before@,
            all_methods@ =~= state_producers(b.take(i as int)),
        decreases before.len() - i,
    {
        let (id, balance) = before[i];
        all_methods.push(
            Method::Method(0, 0, id, balance, Semantics::MAP, MethodType::PRODUCER, 0, 0, true),
        );
        i = i + 1;
        proof {
            assert(all_methods@ =~= state_producers(b.take(i as int)));
        }
    }
    proof {
        assert(b.take(b.len() as int) =~= b);
        assert(plain_history(all_methods@)) by {
            assert forall|k: int| 0 <= k < all_methods@.len() implies plain_method(
                #[trigger] all_methods@[k],
            ) by {
            }
        }
        lemma_block_history_plain(txn_list@, all_methods@);
    }
    let invalid = add_block_methods(&txn_list, &mut all_methods);
    if invalid {
        return true;
    }
    let account_balances: HashMap<i64, i64> = HashMap::new();
    assert(account_balances@ == Map::<i64, i64>::empty());
    history_checkable(&all_methods, &account_balances)
}

} // verus!
