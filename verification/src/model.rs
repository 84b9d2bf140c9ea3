//! The checker's meaning, method by method.
//!
//! A history is checked in the order of its methods' response times. The
//! checker keeps a table of item slots, one per item key below the table's
//! length and a last slot that stands in for all others, the account
//! balances that the reads and writes move, and three stacks of work that is
//! finished after the last method. A run can end in three ways: it finishes,
//! it rejects the history early (a send from a missing or short account), or
//! it gets stuck, where fixed-width arithmetic overflows, an index falls out
//! of its table, or a stack is popped past its end. The executable checker
//! only runs where the run does not get stuck.
use vstd::prelude::*;
use crate::types::{TEST_SIZE, NUM_THRDS, Method, MethodType, Semantics, Status};
use crate::item::ItemModel;
use crate::item::item_of_key;

verus! {

/// The number of item slots.
pub open spec fn slots() -> int {
    (TEST_SIZE * NUM_THRDS) as int + 1
}

/// The slot that stands for every key that has no slot of its own.
pub open spec fn null_slot() -> int {
    (TEST_SIZE * NUM_THRDS) as int
}

/// Whether `key` has a slot of its own.
pub open spec fn in_table(key: i64) -> bool {
    0 <= key < slots()
}

/// The slot of `key`: its own, or the null slot.
pub open spec fn slot_of(key: i64) -> int {
    if in_table(key) {
        key as int
    } else {
        null_slot()
    }
}

/// The slot an earlier method's item is looked up in: its own key's, unless
/// the key is the "no item" key `i64::MIN`. `None` where that key has no slot.
pub open spec fn lookup_slot(key: i64) -> Option<int> {
    if key == i64::MIN {
        Some(null_slot())
    } else if in_table(key) {
        Some(key as int)
    } else {
        None
    }
}

/// The table of slots before any method: every slot empty.
pub open spec fn empty_table() -> Seq<ItemModel> {
    Seq::new(slots() as nat, |i: int| item_of_key(i64::MAX))
}

/// The ordered map of methods: responses strictly increase, so a response is a key.
pub open spec fn keyed_by_response(ms: Seq<Method>) -> bool {
    forall|a: int, b: int| 0 <= a < b < ms.len() ==> ms[a].response < ms[b].response
}

/// The state of a run between two methods.
pub struct Replay {
    pub balances: Map<i64, i64>,
    pub items: Seq<ItemModel>,
    /// Items consumed, waiting for their promotions to be handed back.
    pub consumed: Seq<ItemModel>,
    /// Keys of methods that may leave the map once the run is over.
    pub finished: Seq<i64>,
    /// Items of producers that a failed method overlapped.
    pub failed: Seq<ItemModel>,
}

/// What one method does to a run.
pub enum Step {
    Next(Replay),
    Rejected(Replay),
    Stuck,
}

/// How a whole run ends: rejected while replaying method `at`, finished, or stuck.
pub enum Run {
    Rejected { st: Replay, at: int },
    Finished { st: Replay },
    Stuck,
}

/// Two methods overlap in time when neither responded before the other was invoked.
pub open spec fn overlaps(a: Method, b: Method) -> bool {
    !(a.response < b.invocation || b.response < a.invocation)
}

/// The table once method `m` has found a slot for its item: an empty own slot
/// is filled first, an empty null slot second. A new item records the last
/// method of the map, `last_key`, as its producer.
pub open spec fn claim_slot(items: Seq<ItemModel>, m: Method, last_key: i64) -> Seq<ItemModel> {
    let key = m.item_key;
    let fresh = ItemModel { producer: last_key, ..item_of_key(key) };
    if in_table(key) {
        if items[key as int].key == i64::MAX {
            items.update(key as int, fresh)
        } else if items[null_slot()].key == i64::MAX {
            items.update(null_slot(), fresh)
        } else {
            items
        }
    } else {
        items
    }
}

/// The earlier producers of an ordered producer `ms[i]`, from `ms[j]` on: a FIFO
/// producer that responded before `ms[i]` was invoked and whose item is
/// present demotes `ms[i]`'s item; a LIFO one is demoted by it, which pushes
/// its key on `ms[i]`'s promotion stack.
pub open spec fn order_loop(ms: Seq<Method>, i: int, j: int, items: Seq<ItemModel>) -> Option<
    Seq<ItemModel>,
>
    decreases i - j,
{
    if j >= i || j < 0 {
        Some(items)
    } else {
        let m = ms[i];
        let e = ms[j];
        if e.response < m.invocation {
            match lookup_slot(e.item_key) {
                None => None,
                Some(s) => {
                    let other = items[s];
                    let k = m.item_key as int;
                    if e.MethodType == MethodType::PRODUCER && other.status == Status::PRESENT
                        && e.semantics == Semantics::FIFO {
                        match items[k].demote() {
                            None => None,
                            Some(it) => order_loop(
                                ms,
                                i,
                                j + 1,
                                items.update(
                                    k,
                                    ItemModel { demote_methods: it.demote_methods.push(e), ..it },
                                ),
                            ),
                        }
                    } else if e.MethodType == MethodType::PRODUCER && other.status
                        == Status::PRESENT && e.semantics == Semantics::LIFO {
                        match other.demote() {
                            None => None,
                            Some(_) => order_loop(
                                ms,
                                i,
                                j + 1,
                                items.update(
                                    k,
                                    ItemModel {
                                        promote_items: items[k].promote_items.push(other.key),
                                        ..items[k]
                                    },
                                ),
                            ),
                        }
                    } else {
                        order_loop(ms, i, j + 1, items)
                    }
                },
            }
        } else {
            order_loop(ms, i, j + 1, items)
        }
    }
}

/// Whether an earlier producer `e` counts against a failed method `m` of the
/// given type, `item` being `m`'s item.
pub open spec fn failed_match(kind: MethodType, m: Method, e: Method, item: ItemModel) -> bool {
    &&& e.MethodType == MethodType::PRODUCER
    &&& item.status == Status::PRESENT
    &&& if kind == MethodType::CONSUMER {
        e.semantics == Semantics::FIFO || e.semantics == Semantics::LIFO || m.item_key
            == e.item_key
    } else {
        m.item_key == e.item_key
    }
}

/// The earlier methods of a failed method `ms[i]`, from `ms[j]` on: the item of
/// each one that counts against it goes on top of the failed stack. `None`
/// where an item has no slot to be looked up in.
pub open spec fn failed_loop(
    kind: MethodType,
    ms: Seq<Method>,
    i: int,
    j: int,
    items: Seq<ItemModel>,
    item: ItemModel,
    failed: Seq<ItemModel>,
) -> Option<Seq<ItemModel>>
    decreases i - j,
{
    if j >= i || j < 0 {
        Some(failed)
    } else {
        let m = ms[i];
        let e = ms[j];
        if e.response < m.invocation {
            let s = if m.item_key != i64::MIN {
                if in_table(e.item_key) {
                    Some(e.item_key as int)
                } else {
                    None
                }
            } else {
                Some(null_slot())
            };
            match s {
                None => None,
                Some(s) => if failed_match(kind, m, e, item) {
                    failed_loop(kind, ms, i, j + 1, items, item, seq![items[s]] + failed)
                } else {
                    failed_loop(kind, ms, i, j + 1, items, item, failed)
                },
            }
        } else {
            failed_loop(kind, ms, i, j + 1, items, item, failed)
        }
    }
}

/// A producer `ms[i]` puts its item in the table with its value as balance.
pub open spec fn producer_step(ms: Seq<Method>, i: int, st: Replay) -> Step {
    let m = ms[i];
    let key = m.item_key;
    let balances = st.balances.insert(key, m.item_val);
    if !in_table(key) {
        Step::Stuck
    } else {
        let item = st.items[key as int];
        let it = ItemModel { producer: m.response, ..item };
        let it = if item.status == Status::ABSENT {
            ItemModel { status: Status::PRESENT, demote_methods: Seq::empty(), ..it }
        } else {
            it
        };
        match it.add_int(1) {
            None => Step::Stuck,
            Some(it) => {
                let items = st.items.update(key as int, it);
                if m.semantics == Semantics::FIFO || m.semantics == Semantics::LIFO {
                    match order_loop(ms, i, 0, items) {
                        None => Step::Stuck,
                        Some(items) => Step::Next(Replay { balances, items, ..st }),
                    }
                } else {
                    Step::Next(Replay { balances, items, ..st })
                }
            },
        }
    }
}

/// A read or write `ms[i]` moves its value into its account: a negative value
/// is a send, rejected where the account is missing or holds less.
pub open spec fn read_write_step(ms: Seq<Method>, i: int, st: Replay) -> Step {
    let m = ms[i];
    let key = m.item_key;
    let present = st.balances.contains_key(key);
    let old_balance = st.balances[key];
    if m.item_val < 0 && !present {
        Step::Rejected(st)
    } else if m.item_val < 0 && m.item_val == i64::MIN {
        Step::Stuck
    } else if m.item_val < 0 && old_balance < -m.item_val {
        Step::Rejected(st)
    } else if !present {
        Step::Stuck
    } else {
        match old_balance.checked_add(m.item_val) {
            None => Step::Stuck,
            Some(new_balance) => {
                let balances = st.balances.insert(key, new_balance);
                let s = slot_of(key);
                if m.status {
                    match st.items[s].demote_r() {
                        None => Step::Stuck,
                        Some(it) => Step::Next(
                            Replay { balances, items: st.items.update(s, it), ..st },
                        ),
                    }
                } else {
                    match failed_loop(
                        MethodType::READER,
                        ms,
                        i,
                        0,
                        st.items,
                        st.items[s],
                        st.failed,
                    ) {
                        None => Step::Stuck,
                        Some(failed) => Step::Next(Replay { balances, failed, ..st }),
                    }
                }
            },
        }
    }
}

/// A consumer `ms[i]` takes its item away. Where that leaves the item's weight
/// below zero, a demotion by a method that overlaps `ms[i]` would have to be
/// handed back, which the checker cannot do: the run is stuck there.
pub open spec fn consumer_step(ms: Seq<Method>, i: int, st: Replay) -> Step {
    let m = ms[i];
    let key = m.item_key;
    let s = slot_of(key);
    let item = st.items[s];
    if m.status {
        if item.sum_positive() && !in_table(key) {
            Step::Stuck
        } else {
            match item.sub_int(1) {
                None => Step::Stuck,
                Some(it) => {
                    let it = ItemModel { status: Status::ABSENT, ..it };
                    if it.sum_negative() && exists|d: int|
                        0 <= d < it.demote_methods.len() && #[trigger] overlaps(
                            m,
                            it.demote_methods[d],
                        ) {
                        Step::Stuck
                    } else {
                        let last_key = ms[ms.len() - 1].response;
                        let finished = st.finished.push(m.response);
                        let finished = if it.producer != last_key {
                            finished.push(it.producer)
                        } else {
                            finished
                        };
                        Step::Next(
                            Replay {
                                items: st.items.update(s, it),
                                consumed: st.consumed.push(it),
                                finished,
                                ..st
                            },
                        )
                    }
                },
            }
        }
    } else {
        match failed_loop(MethodType::CONSUMER, ms, i, 0, st.items, item, st.failed) {
            None => Step::Stuck,
            Some(failed) => Step::Next(Replay { failed, ..st }),
        }
    }
}

/// What method `ms[i]` does to the run.
pub open spec fn step(ms: Seq<Method>, i: int, st: Replay) -> Step {
    let m = ms[i];
    let st = Replay { items: claim_slot(st.items, m, ms[ms.len() - 1].response), ..st };
    if m.MethodType == MethodType::PRODUCER {
        producer_step(ms, i, st)
    } else if m.MethodType == MethodType::READER || m.MethodType == MethodType::WRITER {
        read_write_step(ms, i, st)
    } else {
        consumer_step(ms, i, st)
    }
}

/// The run from method `ms[i]` to the last one.
pub open spec fn run_from(ms: Seq<Method>, i: int, st: Replay) -> Run
    decreases ms.len() - i,
{
    if i >= ms.len() || i < 0 {
        Run::Finished { st }
    } else {
        match step(ms, i, st) {
            Step::Stuck => Run::Stuck,
            Step::Rejected(st) => Run::Rejected { st, at: i },
            Step::Next(st) => run_from(ms, i + 1, st),
        }
    }
}

/// The index in `ms` of the method with response `k`, if there is one.
pub open spec fn position_of(ms: Seq<Method>, k: i64) -> Option<int> {
    if exists|j: int| 0 <= j < ms.len() && ms[j].response == k {
        Some(choose|j: int| 0 <= j < ms.len() && ms[j].response == k)
    } else {
        None
    }
}

/// The map once the finished methods, last pushed first, have been handled:
/// while the last key is below the map's size, each one whose item differs
/// from that of the last method leaves the map. `None` where a key is no
/// longer in the map, or the key `i64::MIN` would be stepped below its type.
pub open spec fn drain_finished(ms: Seq<Method>, last_key: i64, finished: Seq<i64>) -> Option<
    Seq<Method>,
>
    decreases finished.len(),
{
    if finished.len() == 0 {
        Some(ms)
    } else {
        let top = finished.last();
        let rest = finished.drop_last();
        if last_key < ms.len() {
            match position_of(ms, top) {
                None => None,
                Some(j) => match position_of(ms, last_key) {
                    None => None,
                    Some(l) => if ms[j].item_key != ms[l].item_key {
                        if top == i64::MIN {
                            None
                        } else {
                            drain_finished(ms.remove(j), last_key, rest)
                        }
                    } else {
                        drain_finished(ms, last_key, rest)
                    },
                },
            }
        } else {
            drain_finished(ms, last_key, rest)
        }
    }
}

/// Whether handing back the promotions of the consumed items goes through:
/// it does only where no consumed item holds a promotion.
pub open spec fn promotions_clear(consumed: Seq<ItemModel>) -> bool {
    forall|c: int| 0 <= c < consumed.len() ==> (#[trigger] consumed[c]).promote_items.len() == 0
}

/// Whether demoting the present items of the failed stack goes through.
pub open spec fn failed_demotable(failed: Seq<ItemModel>) -> bool {
    forall|c: int|
        0 <= c < failed.len() && (#[trigger] failed[c]).status == Status::PRESENT
            ==> failed[c].demote_f() is Some
}

/// The verdict on a finished run: no item in the table has a weight below zero.
pub open spec fn table_sound(items: Seq<ItemModel>) -> bool {
    forall|s: int|
        0 <= s < items.len() && (#[trigger] items[s]).key != i64::MAX ==> !items[s].sum_negative()
}

/// The index of the first method a checkpoint replays: the first one on a first
/// pass, the one after `it_start` on a later one. `None` where that index overflows.
pub open spec fn first_index(it_start: i64, count_iterated: u64) -> Option<int> {
    if count_iterated == 0 {
        Some(0)
    } else if it_start == i64::MAX {
        None
    } else {
        Some(it_start + 1)
    }
}

/// Whether a checkpoint over the ordered map `ms` goes through without getting stuck.
pub open spec fn checkpoint_goes_through(
    ms: Seq<Method>,
    balances: Map<i64, i64>,
    items: Seq<ItemModel>,
    it_start: i64,
    count_iterated: u64,
) -> bool {
    ms.len() > 0 ==> match first_index(it_start, count_iterated) {
        None => false,
        Some(s) => (s < ms.len() ==> s >= 0) && match run_from(
            ms,
            s,
            Replay {
                balances,
                items,
                consumed: Seq::empty(),
                finished: Seq::empty(),
                failed: Seq::empty(),
            },
        ) {
            Run::Stuck => false,
            Run::Rejected { .. } => true,
            Run::Finished { st } => {
                &&& promotions_clear(st.consumed)
                &&& failed_demotable(st.failed)
                &&& drain_finished(ms, ms[ms.len() - 1].response, st.finished) is Some
            },
        },
    }
}

/// Where a checkpoint leaves the checker's tables and counters.
pub struct Checkpoint {
    /// Whether the history is correct as far as the checkpoint saw.
    pub verdict: bool,
    pub balances: Map<i64, i64>,
    pub items: Seq<ItemModel>,
    /// The ordered map of methods once finished methods have left it.
    pub methods: Seq<Method>,
    pub it_start: i64,
    pub reset_it_start: bool,
    /// How many methods the checkpoint replayed.
    pub replayed: int,
}

/// A checkpoint over the ordered map `ms`, from the method after `it_start`
/// on a later pass (`count_iterated` not zero), or from the first on a first
/// pass. Meaningful where [`checkpoint_goes_through`] holds.
pub open spec fn checkpoint(
    ms: Seq<Method>,
    balances: Map<i64, i64>,
    items: Seq<ItemModel>,
    it_start: i64,
    count_iterated: u64,
    reset_it_start: bool,
) -> Checkpoint {
    if ms.len() == 0 {
        Checkpoint {
            verdict: false,
            balances,
            items,
            methods: ms,
            it_start,
            reset_it_start,
            replayed: 0,
        }
    } else {
        let s = first_index(it_start, count_iterated).unwrap();
        let (start1, reset1) = if count_iterated == 0 {
            (it_start, false)
        } else {
            (s as i64, reset_it_start)
        };
        let init = Replay {
            balances,
            items,
            consumed: Seq::empty(),
            finished: Seq::empty(),
            failed: Seq::empty(),
        };
        match run_from(ms, s, init) {
            Run::Rejected { st, at } => Checkpoint {
                verdict: false,
                balances: st.balances,
                items: st.items,
                methods: ms,
                it_start: at as i64,
                reset_it_start: false,
                replayed: at - s + 1,
            },
            Run::Finished { st } => {
                let ran = s < ms.len();
                Checkpoint {
                    verdict: table_sound(st.items),
                    balances: st.balances,
                    items: st.items,
                    methods: drain_finished(ms, ms[ms.len() - 1].response, st.finished).unwrap(),
                    it_start: if ran {
                        (ms.len() - 1) as i64
                    } else if reset1 {
                        (start1 - 1) as i64
                    } else {
                        start1
                    },
                    reset_it_start: if ran {
                        false
                    } else {
                        reset1
                    },
                    replayed: if ran {
                        ms.len() - s
                    } else {
                        0
                    },
                }
            },
            Run::Stuck => Checkpoint {
                verdict: false,
                balances,
                items,
                methods: ms,
                it_start,
                reset_it_start,
                replayed: 0,
            },
        }
    }
}

/// Whether some method of `ms` has response `k`.
pub open spec fn taken(ms: Seq<Method>, k: i64) -> bool {
    exists|j: int| 0 <= j < ms.len() && ms[j].response == k
}

/// Whether `k` is the least key from `r` up that no method of `ms` has taken.
pub open spec fn least_free_from(ms: Seq<Method>, r: i64, k: i64) -> bool {
    &&& r <= k
    &&& !taken(ms, k)
    &&& forall|k2: i64| r <= k2 < k ==> taken(ms, k2)
}

/// The key a method with response `r` gets in the ordered map `ms`: the least
/// key from `r` up that is free. `None` where every key from `r` up is taken.
pub open spec fn free_key(ms: Seq<Method>, r: i64) -> Option<i64> {
    if exists|k: i64| least_free_from(ms, r, k) {
        Some(choose|k: i64| least_free_from(ms, r, k))
    } else {
        None
    }
}

/// Whether `p` is where a method of response `k` goes in the ordered map `ms`.
pub open spec fn insertion_point(ms: Seq<Method>, k: i64, p: int) -> bool {
    &&& 0 <= p <= ms.len()
    &&& forall|a: int| 0 <= a < p ==> ms[a].response < k
    &&& forall|a: int| p <= a < ms.len() ==> k < ms[a].response
}

/// The ordered map `ms` with the method `m` added at its place.
pub open spec fn insert_by_response(ms: Seq<Method>, m: Method) -> Seq<Method> {
    ms.insert(choose|p: int| insertion_point(ms, m.response, p), m)
}

/// The ordered map of a history: each method in turn is keyed by its response,
/// moved up past the keys taken before it. `None` where a key overflows.
pub open spec fn key_methods(all: Seq<Method>) -> Option<Seq<Method>>
    decreases all.len(),
{
    if all.len() == 0 {
        Some(Seq::empty())
    } else {
        match key_methods(all.drop_last()) {
            None => None,
            Some(ms) => match free_key(ms, all.last().response) {
                None => None,
                Some(k) => Some(insert_by_response(ms, Method { response: k, ..all.last() })),
            },
        }
    }
}

/// Where the ordered map of a history exists, so does that of each of its prefixes.
pub proof fn lemma_key_methods_prefix(all: Seq<Method>, n: int)
    requires
        0 <= n <= all.len(),
        key_methods(all) is Some,
    ensures
        key_methods(all.take(n)) is Some,
    decreases all.len() - n,
{
    if n < all.len() {
        assert(all.take(n + 1).drop_last() =~= all.take(n));
        lemma_key_methods_prefix(all, n + 1);
        if n + 1 == all.len() {
            assert(all.take(n + 1) =~= all);
        }
    } else {
        assert(all.take(n) =~= all);
    }
}

} // verus!

verus! {

/// A checkpoint whose run is rejected at method `at` leaves the tables as the
/// run left them, `it_start` at `at`, and counts the methods replayed up to
/// and with `at`.
pub proof fn lemma_checkpoint_rejected(
    ms: Seq<Method>,
    balances: Map<i64, i64>,
    items: Seq<ItemModel>,
    it_start: i64,
    count_iterated: u64,
    reset_it_start: bool,
    st: Replay,
    at: int,
)
    requires
        ms.len() > 0,
        first_index(it_start, count_iterated) is Some,
        run_from(
            ms,
            first_index(it_start, count_iterated).unwrap(),
            Replay {
                balances,
                items,
                consumed: Seq::empty(),
                finished: Seq::empty(),
                failed: Seq::empty(),
            },
        ) == (Run::Rejected { st, at }),
    ensures
        ({
            let c = checkpoint(ms, balances, items, it_start, count_iterated, reset_it_start);
            &&& !c.verdict
            &&& c.balances == st.balances
            &&& c.items == st.items
            &&& c.methods == ms
            &&& c.it_start == at as i64
            &&& !c.reset_it_start
            &&& c.replayed == at - first_index(it_start, count_iterated).unwrap() + 1
        }),
{
}

} // verus!
