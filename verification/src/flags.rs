//! The success flags of reads and writes decide nothing: a failed read only
//! records which producers it overlapped, a successful one only demotes the
//! read and failed-method fractions, and neither of those is judged.
use vstd::prelude::*;
use crate::types::{Method, MethodType, Semantics, Status};
use crate::item::ItemModel;
use crate::model::{
    Replay, Step, Run, step, run_from, claim_slot, producer_step, read_write_step, consumer_step,
    order_loop, lookup_slot, checkpoint, checkpoint_goes_through, drain_finished,
    keyed_by_response, position_of, table_sound, first_index, slot_of, null_slot, slots, in_table,
};

verus! {

/// Two ordered maps that differ at most in the success flags of their reads
/// and writes.
pub open spec fn same_but_read_write_flags(ms: Seq<Method>, ms2: Seq<Method>) -> bool {
    &&& ms.len() == ms2.len()
    &&& forall|i: int|
        0 <= i < ms.len() ==> #[trigger] ms2[i] == (Method { status: ms2[i].status, ..ms[i] })
            && (ms[i].MethodType == MethodType::READER || ms[i].MethodType == MethodType::WRITER
            || ms2[i].status == ms[i].status)
}

/// An item with its read exponent and its failed-method fraction left out:
/// what the verdict and the rest of a run can see of it.
pub open spec fn judged_part(x: ItemModel) -> ItemModel {
    ItemModel { exponent_r: 0, numerator_f: 0, denominator_f: 0, exponent_f: 0, ..x }
}

/// Two tables whose items agree in their judged parts.
pub open spec fn same_judged(a: Seq<ItemModel>, b: Seq<ItemModel>) -> bool {
    &&& a.len() == b.len()
    &&& forall|s: int| 0 <= s < a.len() ==> judged_part(#[trigger] a[s]) == judged_part(b[s])
}

/// Two run states that agree in all the flags can change: the balances, the
/// judged parts of the items and of the consumed items, the finished keys.
pub open spec fn same_run(a: Replay, b: Replay) -> bool {
    &&& a.balances == b.balances
    &&& same_judged(a.items, b.items)
    &&& same_judged(a.consumed, b.consumed)
    &&& a.finished == b.finished
}

/// The weight operations read and write the judged part of an item only, and
/// a read demotion touches nothing of it.
proof fn lemma_judged_ops(x: ItemModel, y: ItemModel)
    requires
        judged_part(x) == judged_part(y),
    ensures
        x.add_int(1) is Some == y.add_int(1) is Some,
        x.add_int(1) is Some ==> judged_part(x.add_int(1).unwrap()) == judged_part(
            y.add_int(1).unwrap(),
        ),
        x.sub_int(1) is Some == y.sub_int(1) is Some,
        x.sub_int(1) is Some ==> judged_part(x.sub_int(1).unwrap()) == judged_part(
            y.sub_int(1).unwrap(),
        ),
        x.demote() is Some == y.demote() is Some,
        x.demote() is Some ==> judged_part(x.demote().unwrap()) == judged_part(
            y.demote().unwrap(),
        ),
        x.demote_r() is Some ==> judged_part(x.demote_r().unwrap()) == judged_part(x),
        x.sum_positive() == y.sum_positive(),
        x.sum_negative() == y.sum_negative(),
{
    assert(x.numerator == y.numerator && x.denominator == y.denominator && x.exponent
        == y.exponent);
}

/// Claiming a slot keeps two tables alike.
proof fn lemma_claim_same(a: Seq<ItemModel>, b: Seq<ItemModel>, m: Method, last_key: i64)
    requires
        same_judged(a, b),
        a.len() == slots(),
    ensures
        same_judged(claim_slot(a, m, last_key), claim_slot(b, m, last_key)),
{
    let key = m.item_key;
    if in_table(key) {
        assert(judged_part(a[key as int]) == judged_part(b[key as int]));
        assert(judged_part(a[null_slot()]) == judged_part(b[null_slot()]));
    }
    let ca = claim_slot(a, m, last_key);
    let cb = claim_slot(b, m, last_key);
    assert forall|s: int| 0 <= s < ca.len() implies judged_part(#[trigger] ca[s]) == judged_part(
        cb[s],
    ) by {
        assert(judged_part(a[s]) == judged_part(b[s]));
    }
}

/// Putting alike items in the same slot of two alike tables keeps them alike.
proof fn lemma_update_same(a: Seq<ItemModel>, b: Seq<ItemModel>, k: int, x: ItemModel, y: ItemModel)
    requires
        same_judged(a, b),
        0 <= k < a.len(),
        judged_part(x) == judged_part(y),
    ensures
        same_judged(a.update(k, x), b.update(k, y)),
{
    let a2 = a.update(k, x);
    let b2 = b.update(k, y);
    assert forall|t: int| 0 <= t < a2.len() implies judged_part(#[trigger] a2[t]) == judged_part(
        b2[t],
    ) by {
        if t != k {
            assert(judged_part(a[t]) == judged_part(b[t]));
        }
    }
}

/// The earlier producers of a producer order two alike tables alike.
#[verifier::rlimit(40)]
proof fn lemma_order_same(
    ms: Seq<Method>,
    ms2: Seq<Method>,
    i: int,
    j: int,
    a: Seq<ItemModel>,
    b: Seq<ItemModel>,
)
    requires
        same_but_read_write_flags(ms, ms2),
        0 <= i < ms.len(),
        ms[i].MethodType == MethodType::PRODUCER,
        in_table(ms[i].item_key),
        same_judged(a, b),
        a.len() == slots(),
        order_loop(ms, i, j, a) is Some,
        order_loop(ms2, i, j, b) is Some,
    ensures
        same_judged(order_loop(ms, i, j, a).unwrap(), order_loop(ms2, i, j, b).unwrap()),
        order_loop(ms, i, j, a).unwrap().len() == a.len(),
    decreases i - j,
{
    if 0 <= j < i {
        let m = ms[i];
        let e = ms[j];
        assert(ms2[i] == m);
        assert(ms2[j] == Method { status: ms2[j].status, ..e });
        if e.MethodType == MethodType::PRODUCER {
            assert(ms2[j] == e);
        }
        if e.response < m.invocation {
            match lookup_slot(e.item_key) {
                None => {
                },
                Some(s) => {
                    let k = m.item_key as int;
                    assert(judged_part(a[s]) == judged_part(b[s]));
                    assert(judged_part(a[k]) == judged_part(b[k]));
                    lemma_judged_ops(a[k], b[k]);
                    lemma_judged_ops(a[s], b[s]);
                    if e.MethodType == MethodType::PRODUCER && a[s].status == Status::PRESENT
                        && e.semantics == Semantics::FIFO {
                        let it = a[k].demote().unwrap();
                        let it2 = b[k].demote().unwrap();
                        let a2 = a.update(k, ItemModel { demote_methods: it.demote_methods.push(e), ..it });
                        let b2 = b.update(k, ItemModel { demote_methods: it2.demote_methods.push(e), ..it2 });
                        lemma_update_same(
                            a,
                            b,
                            k,
                            ItemModel { demote_methods: it.demote_methods.push(e), ..it },
                            ItemModel { demote_methods: it2.demote_methods.push(e), ..it2 },
                        );
                        lemma_order_same(ms, ms2, i, j + 1, a2, b2);
                    } else if e.MethodType == MethodType::PRODUCER && a[s].status
                        == Status::PRESENT && e.semantics == Semantics::LIFO {
                        let a2 = a.update(
                            k,
                            ItemModel { promote_items: a[k].promote_items.push(a[s].key), ..a[k] },
                        );
                        let b2 = b.update(
                            k,
                            ItemModel { promote_items: b[k].promote_items.push(b[s].key), ..b[k] },
                        );
                        lemma_update_same(
                            a,
                            b,
                            k,
                            ItemModel { promote_items: a[k].promote_items.push(a[s].key), ..a[k] },
                            ItemModel { promote_items: b[k].promote_items.push(b[s].key), ..b[k] },
                        );
                        lemma_order_same(ms, ms2, i, j + 1, a2, b2);
                    } else {
                        lemma_order_same(ms, ms2, i, j + 1, a, b);
                    }
                },
            }
        } else {
            lemma_order_same(ms, ms2, i, j + 1, a, b);
        }
    }
}

/// The outcomes of one method on two alike runs are alike: both go on, or
/// both reject, in alike states.
pub open spec fn same_step(x: Step, y: Step) -> bool {
    match (x, y) {
        (Step::Next(p), Step::Next(q)) => same_run(p, q) && p.items.len() == slots(),
        (Step::Rejected(p), Step::Rejected(q)) => same_run(p, q),
        _ => false,
    }
}

/// A producer moves two alike runs alike.
#[verifier::rlimit(40)]
proof fn lemma_producer_same(ms: Seq<Method>, ms2: Seq<Method>, i: int, a1: Replay, b1: Replay)
    requires
        same_but_read_write_flags(ms, ms2),
        0 <= i < ms.len(),
        ms[i].MethodType == MethodType::PRODUCER,
        same_run(a1, b1),
        a1.items.len() == slots(),
        !(producer_step(ms, i, a1) is Stuck),
        !(producer_step(ms2, i, b1) is Stuck),
    ensures
        same_step(producer_step(ms, i, a1), producer_step(ms2, i, b1)),
{
    let m = ms[i];
    assert(ms2[i] == m);
    let key = m.item_key;
    let x = a1.items[key as int];
    let y = b1.items[key as int];
    assert(judged_part(x) == judged_part(y));
    let itx0 = ItemModel { producer: m.response, ..x };
    let itx = if x.status == Status::ABSENT {
        ItemModel { status: Status::PRESENT, demote_methods: Seq::empty(), ..itx0 }
    } else {
        itx0
    };
    let ity0 = ItemModel { producer: m.response, ..y };
    let ity = if y.status == Status::ABSENT {
        ItemModel { status: Status::PRESENT, demote_methods: Seq::empty(), ..ity0 }
    } else {
        ity0
    };
    assert(judged_part(itx) == judged_part(ity));
    lemma_judged_ops(itx, ity);
    let ia = a1.items.update(key as int, itx.add_int(1).unwrap());
    let ib = b1.items.update(key as int, ity.add_int(1).unwrap());
    lemma_update_same(a1.items, b1.items, key as int, itx.add_int(1).unwrap(), ity.add_int(1).unwrap());
    if m.semantics == Semantics::FIFO || m.semantics == Semantics::LIFO {
        lemma_order_same(ms, ms2, i, 0, ia, ib);
    }
}

/// A read or a write moves two alike runs alike, whatever their flags.
#[verifier::rlimit(40)]
proof fn lemma_read_write_same(ms: Seq<Method>, ms2: Seq<Method>, i: int, a1: Replay, b1: Replay)
    requires
        same_but_read_write_flags(ms, ms2),
        0 <= i < ms.len(),
        ms[i].MethodType == MethodType::READER || ms[i].MethodType == MethodType::WRITER,
        same_run(a1, b1),
        a1.items.len() == slots(),
        !(read_write_step(ms, i, a1) is Stuck),
        !(read_write_step(ms2, i, b1) is Stuck),
    ensures
        same_step(read_write_step(ms, i, a1), read_write_step(ms2, i, b1)),
{
    let m = ms[i];
    assert(ms2[i] == Method { status: ms2[i].status, ..m });
    let s = slot_of(m.item_key);
    assert(judged_part(a1.items[s]) == judged_part(b1.items[s]));
    lemma_judged_ops(a1.items[s], b1.items[s]);
    lemma_judged_ops(b1.items[s], b1.items[s]);
    match read_write_step(ms, i, a1) {
        Step::Next(x) => {
            let y = read_write_step(ms2, i, b1)->Next_0;
            let xs = if m.status { a1.items[s].demote_r().unwrap() } else { a1.items[s] };
            let ys = if ms2[i].status { b1.items[s].demote_r().unwrap() } else { b1.items[s] };
            assert(x.items == a1.items.update(s, xs));
            assert(y.items == b1.items.update(s, ys));
            lemma_update_same(a1.items, b1.items, s, xs, ys);
        },
        _ => {
        },
    }
}

/// A consumer moves two alike runs alike.
#[verifier::rlimit(40)]
proof fn lemma_consumer_same(ms: Seq<Method>, ms2: Seq<Method>, i: int, a1: Replay, b1: Replay)
    requires
        same_but_read_write_flags(ms, ms2),
        0 <= i < ms.len(),
        ms[i].MethodType != MethodType::PRODUCER,
        ms[i].MethodType != MethodType::READER,
        ms[i].MethodType != MethodType::WRITER,
        same_run(a1, b1),
        a1.items.len() == slots(),
        !(consumer_step(ms, i, a1) is Stuck),
        !(consumer_step(ms2, i, b1) is Stuck),
    ensures
        same_step(consumer_step(ms, i, a1), consumer_step(ms2, i, b1)),
{
    let m = ms[i];
    assert(ms2[i] == m);
    assert(ms2[ms.len() - 1] == Method { status: ms2[ms.len() - 1].status, ..ms[ms.len() - 1] });
    let s = slot_of(m.item_key);
    let x = a1.items[s];
    let y = b1.items[s];
    assert(judged_part(x) == judged_part(y));
    lemma_judged_ops(x, y);
    if m.status {
        let itx = ItemModel { status: Status::ABSENT, ..x.sub_int(1).unwrap() };
        let ity = ItemModel { status: Status::ABSENT, ..y.sub_int(1).unwrap() };
        assert(judged_part(itx) == judged_part(ity));
        assert(itx.demote_methods == ity.demote_methods && itx.producer == ity.producer);
        lemma_judged_ops(itx, ity);
        let na = consumer_step(ms, i, a1)->Next_0;
        let nb = consumer_step(ms2, i, b1)->Next_0;
        lemma_update_same(a1.items, b1.items, s, itx, ity);
        assert(na.items == a1.items.update(s, itx));
        assert(nb.items == b1.items.update(s, ity));
        assert forall|t: int| 0 <= t < na.consumed.len() implies judged_part(
            #[trigger] na.consumed[t],
        ) == judged_part(nb.consumed[t]) by {
            if t < a1.consumed.len() {
                assert(judged_part(a1.consumed[t]) == judged_part(b1.consumed[t]));
            }
        }
    }
}

/// One method moves two alike runs alike: both go on, or both reject.
proof fn lemma_step_same(ms: Seq<Method>, ms2: Seq<Method>, i: int, a: Replay, b: Replay)
    requires
        same_but_read_write_flags(ms, ms2),
        0 <= i < ms.len(),
        same_run(a, b),
        a.items.len() == slots(),
        !(step(ms, i, a) is Stuck),
        !(step(ms2, i, b) is Stuck),
    ensures
        same_step(step(ms, i, a), step(ms2, i, b)),
{
    let m = ms[i];
    assert(ms2[i] == Method { status: ms2[i].status, ..m });
    let last = ms[ms.len() - 1].response;
    assert(ms2[ms.len() - 1] == Method { status: ms2[ms.len() - 1].status, ..ms[ms.len() - 1] });
    lemma_claim_same(a.items, b.items, m, last);
    let a1 = Replay { items: claim_slot(a.items, m, last), ..a };
    let b1 = Replay { items: claim_slot(b.items, m, last), ..b };
    if m.MethodType == MethodType::PRODUCER {
        lemma_producer_same(ms, ms2, i, a1, b1);
    } else if m.MethodType == MethodType::READER || m.MethodType == MethodType::WRITER {
        lemma_read_write_same(ms, ms2, i, a1, b1);
    } else {
        lemma_consumer_same(ms, ms2, i, a1, b1);
    }
}

/// Two alike runs end alike: rejected at the same method, or finished, in
/// alike states.
proof fn lemma_run_same(ms: Seq<Method>, ms2: Seq<Method>, i: int, a: Replay, b: Replay)
    requires
        same_but_read_write_flags(ms, ms2),
        0 <= i,
        same_run(a, b),
        a.items.len() == slots(),
        !(run_from(ms, i, a) is Stuck),
        !(run_from(ms2, i, b) is Stuck),
    ensures
        match (run_from(ms, i, a), run_from(ms2, i, b)) {
            (Run::Rejected { st: x, at: p }, Run::Rejected { st: y, at: q }) => p == q
                && same_run(x, y),
            (Run::Finished { st: x }, Run::Finished { st: y }) => same_run(x, y),
            _ => false,
        },
    decreases ms.len() - i,
{
    if i < ms.len() {
        lemma_step_same(ms, ms2, i, a, b);
        match (step(ms, i, a), step(ms2, i, b)) {
            (Step::Next(x), Step::Next(y)) => {
                lemma_run_same(ms, ms2, i + 1, x, y);
            },
            _ => {
            },
        }
    }
}

/// Two alike keyed maps find every key at the same place.
proof fn lemma_positions_same(ms: Seq<Method>, ms2: Seq<Method>, k: i64)
    requires
        same_but_read_write_flags(ms, ms2),
        keyed_by_response(ms),
    ensures
        position_of(ms, k) == position_of(ms2, k),
{
    if exists|j: int| 0 <= j < ms.len() && ms[j].response == k {
        let j1 = choose|j: int| 0 <= j < ms.len() && ms[j].response == k;
        assert(ms2[j1] == Method { status: ms2[j1].status, ..ms[j1] });
        assert(0 <= j1 < ms2.len() && ms2[j1].response == k);
        let j2 = choose|j: int| 0 <= j < ms2.len() && ms2[j].response == k;
        assert(ms2[j2] == Method { status: ms2[j2].status, ..ms[j2] });
        if j1 < j2 {
            assert(ms[j1].response < ms[j2].response);
        } else if j2 < j1 {
            assert(ms[j2].response < ms[j1].response);
        }
    } else {
        if exists|j: int| 0 <= j < ms2.len() && ms2[j].response == k {
            let j2 = choose|j: int| 0 <= j < ms2.len() && ms2[j].response == k;
            assert(ms2[j2] == Method { status: ms2[j2].status, ..ms[j2] });
        }
    }
}

/// Taking the same entry out of two alike keyed maps leaves them alike and keyed.
proof fn lemma_remove_same(ms: Seq<Method>, ms2: Seq<Method>, j: int)
    requires
        same_but_read_write_flags(ms, ms2),
        keyed_by_response(ms),
        0 <= j < ms.len(),
    ensures
        same_but_read_write_flags(ms.remove(j), ms2.remove(j)),
        keyed_by_response(ms.remove(j)),
{
    let n = ms.remove(j);
    let n2 = ms2.remove(j);
    assert forall|t: int| 0 <= t < n.len() implies #[trigger] n2[t] == (Method {
        status: n2[t].status,
        ..n[t]
    }) && (n[t].MethodType == MethodType::READER || n[t].MethodType == MethodType::WRITER
        || n2[t].status == n[t].status) by {
        if t < j {
            assert(n[t] == ms[t] && n2[t] == ms2[t]);
        } else {
            assert(n[t] == ms[t + 1] && n2[t] == ms2[t + 1]);
        }
    }
    assert forall|p: int, q: int| 0 <= p < q < n.len() implies n[p].response < n[q].response by {
        let p0 = if p < j {
            p
        } else {
            p + 1
        };
        let q0 = if q < j {
            q
        } else {
            q + 1
        };
        assert(n[p] == ms[p0] && n[q] == ms[q0]);
    }
}

/// Handing back the finished methods leaves two alike maps alike.
proof fn lemma_drain_same(ms: Seq<Method>, ms2: Seq<Method>, last_key: i64, finished: Seq<i64>)
    requires
        same_but_read_write_flags(ms, ms2),
        keyed_by_response(ms),
    ensures
        drain_finished(ms, last_key, finished) is Some == drain_finished(ms2, last_key, finished) is Some,
        drain_finished(ms, last_key, finished) is Some ==> same_but_read_write_flags(
            drain_finished(ms, last_key, finished).unwrap(),
            drain_finished(ms2, last_key, finished).unwrap(),
        ) && keyed_by_response(drain_finished(ms, last_key, finished).unwrap()),
    decreases finished.len(),
{
    if finished.len() > 0 {
        let top = finished.last();
        let rest = finished.drop_last();
        lemma_positions_same(ms, ms2, top);
        lemma_positions_same(ms, ms2, last_key);
        if last_key < ms.len() && position_of(ms, top) is Some && position_of(ms, last_key) is Some {
            let j = position_of(ms, top).unwrap();
            let l = position_of(ms, last_key).unwrap();
            assert(ms2[j] == Method { status: ms2[j].status, ..ms[j] });
            assert(ms2[l] == Method { status: ms2[l].status, ..ms[l] });
            if ms[j].item_key != ms[l].item_key && top != i64::MIN {
                lemma_remove_same(ms, ms2, j);
                lemma_drain_same(ms.remove(j), ms2.remove(j), last_key, rest);
            } else {
                lemma_drain_same(ms, ms2, last_key, rest);
            }
        } else {
            lemma_drain_same(ms, ms2, last_key, rest);
        }
    }
}

/// The success flags of reads and writes do not decide a checkpoint: two
/// checkpoints over ordered maps that differ only in those flags, where both
/// go through, give the same verdict, balances, counters and `it_start`, leave
/// maps that differ only in those flags again, and leave items that differ at
/// most in their read exponents and failed-method fractions.
pub proof fn law_read_write_flags_do_not_decide(
    ms: Seq<Method>,
    ms2: Seq<Method>,
    balances: Map<i64, i64>,
    items: Seq<ItemModel>,
    it_start: i64,
    count_iterated: u64,
    reset_it_start: bool,
)
    requires
        keyed_by_response(ms),
        same_but_read_write_flags(ms, ms2),
        ms.len() > 0 ==> items.len() == slots(),
        checkpoint_goes_through(ms, balances, items, it_start, count_iterated),
        checkpoint_goes_through(ms2, balances, items, it_start, count_iterated),
    ensures
        ({
            let c = checkpoint(ms, balances, items, it_start, count_iterated, reset_it_start);
            let c2 = checkpoint(ms2, balances, items, it_start, count_iterated, reset_it_start);
            &&& c.verdict == c2.verdict
            &&& c.balances == c2.balances
            &&& c.replayed == c2.replayed
            &&& c.it_start == c2.it_start
            &&& c.reset_it_start == c2.reset_it_start
            &&& same_but_read_write_flags(c.methods, c2.methods)
            &&& same_judged(c.items, c2.items)
        }),
{
    if ms.len() > 0 {
        let s = first_index(it_start, count_iterated).unwrap();
        let init = Replay {
            balances,
            items,
            consumed: Seq::empty(),
            finished: Seq::empty(),
            failed: Seq::empty(),
        };
        assert(same_run(init, init));
        assert(ms2[ms.len() - 1] == Method { status: ms2[ms.len() - 1].status, ..ms[ms.len() - 1] });
        if s >= 0 {
            lemma_run_same(ms, ms2, s, init, init);
        } else {
            assert(s >= ms.len());
        }
        match (run_from(ms, s, init), run_from(ms2, s, init)) {
            (Run::Finished { st: x }, Run::Finished { st: y }) => {
                lemma_drain_same(ms, ms2, ms[ms.len() - 1].response, x.finished);
                assert forall|t: int| 0 <= t < x.items.len() && (#[trigger] x.items[t]).key
                    != i64::MAX implies !x.items[t].sum_negative() == !y.items[t].sum_negative() by {
                    assert(judged_part(x.items[t]) == judged_part(y.items[t]));
                    lemma_judged_ops(x.items[t], y.items[t]);
                }
                assert(table_sound(x.items) == table_sound(y.items)) by {
                    if table_sound(x.items) {
                        assert forall|t: int| 0 <= t < y.items.len() && (#[trigger] y.items[t]).key
                            != i64::MAX implies !y.items[t].sum_negative() by {
                            assert(judged_part(x.items[t]) == judged_part(y.items[t]));
                            lemma_judged_ops(x.items[t], y.items[t]);
                        }
                    }
                    if table_sound(y.items) {
                        assert forall|t: int| 0 <= t < x.items.len() && (#[trigger] x.items[t]).key
                            != i64::MAX implies !x.items[t].sum_negative() by {
                            assert(judged_part(x.items[t]) == judged_part(y.items[t]));
                            lemma_judged_ops(x.items[t], y.items[t]);
                        }
                    }
                }
            },
            _ => {
            },
        }
    } else {
        assert(ms2.len() == 0);
    }
}

} // verus!
