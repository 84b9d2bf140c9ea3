//! Only equality between addresses matters: renaming the addresses of a block
//! and of its states, one to one, changes neither the transfers the checker
//! sees, nor the states it reads, nor its answer.
use vstd::prelude::*;
use crate::types::Event;
use crate::text::split_on;
use crate::connector::{
    enroll, enrolled, id_of, distinct, event_transactions, read_entries, read_state,
    states_runnable, block_states_verdict,
};

verus! {

/// A renaming of addresses that sends no two addresses to the same one.
pub open spec fn one_to_one(f: spec_fn(Seq<char>) -> Seq<char>) -> bool {
    forall|a: Seq<char>, b: Seq<char>| #[trigger] f(a) == #[trigger] f(b) ==> a == b
}

/// Events `ev2` are events `ev` with every address renamed by `f`.
pub open spec fn renamed_events(ev: Seq<Event>, ev2: Seq<Event>, f: spec_fn(Seq<char>) -> Seq<char>) -> bool {
    &&& ev.len() == ev2.len()
    &&& forall|i: int|
        0 <= i < ev.len() ==> {
            &&& (#[trigger] ev2[i]).value == ev[i].value
            &&& ev2[i].from@ == f(ev[i].from@)
            &&& ev2[i].to@ == f(ev[i].to@)
        }
}

/// State entries `ps2` are entries `ps` with every address renamed by `f`:
/// split at `:`, each has as many parts, and where it has an address and a
/// balance, the address is renamed and the balance is the same text.
pub open spec fn renamed_entries(ps: Seq<Seq<char>>, ps2: Seq<Seq<char>>, f: spec_fn(Seq<char>) -> Seq<char>) -> bool {
    &&& ps.len() == ps2.len()
    &&& forall|i: int|
        0 <= i < ps.len() ==> {
            let q = split_on(#[trigger] ps[i], ':');
            let q2 = split_on(ps2[i], ':');
            &&& q.len() == q2.len()
            &&& q.len() >= 2 ==> q2[0] == f(q[0]) && q2[1] == q[1]
        }
}

/// State `s2` is state `s` with every address renamed by `f`.
pub open spec fn renamed_state(s: Seq<char>, s2: Seq<char>, f: spec_fn(Seq<char>) -> Seq<char>) -> bool {
    renamed_entries(split_on(s, '|'), split_on(s2, '|'), f)
}

/// The address book of a list of events holds no address twice.
proof fn lemma_enrolled_distinct(ev: Seq<Event>)
    ensures
        distinct(enrolled(ev)),
    decreases ev.len(),
{
    if ev.len() > 0 {
        lemma_enrolled_distinct(ev.drop_last());
        let names = enrolled(ev.drop_last());
        let n1 = enroll(names, ev.last().to@);
        lemma_enroll_distinct(names, ev.last().to@);
        lemma_enroll_distinct(n1, ev.last().from@);
    }
}

/// Adding an address keeps a book without doubles, and holds what it held.
proof fn lemma_enroll_distinct(names: Seq<Seq<char>>, a: Seq<char>)
    requires
        distinct(names),
    ensures
        distinct(enroll(names, a)),
        enroll(names, a).contains(a),
        forall|b: Seq<char>| names.contains(b) ==> #[trigger] enroll(names, a).contains(b),
{
    let n = enroll(names, a);
    if !names.contains(a) {
        assert(n[names.len() as int] == a);
        assert forall|b: Seq<char>| names.contains(b) implies #[trigger] n.contains(b) by {
            let j = choose|j: int| 0 <= j < names.len() && names[j] == b;
            assert(n[j] == b);
        }
    }
}

/// Every address of the events is in their book.
proof fn lemma_enrolled_holds(ev: Seq<Event>, i: int)
    requires
        0 <= i < ev.len(),
    ensures
        enrolled(ev).contains(ev[i].from@),
        enrolled(ev).contains(ev[i].to@),
    decreases ev.len(),
{
    lemma_enrolled_distinct(ev.drop_last());
    let names = enrolled(ev.drop_last());
    let n1 = enroll(names, ev.last().to@);
    lemma_enroll_distinct(names, ev.last().to@);
    lemma_enroll_distinct(n1, ev.last().from@);
    if i < ev.len() - 1 {
        lemma_enrolled_holds(ev.drop_last(), i);
        assert(ev.drop_last()[i] == ev[i]);
    }
}

/// Renaming the addresses of a book renames the book of the renamed events.
proof fn lemma_enrolled_renamed(ev: Seq<Event>, ev2: Seq<Event>, f: spec_fn(Seq<char>) -> Seq<char>)
    requires
        one_to_one(f),
        renamed_events(ev, ev2, f),
    ensures
        enrolled(ev2) == enrolled(ev).map_values(f),
    decreases ev.len(),
{
    if ev.len() > 0 {
        let h = ev.drop_last();
        let h2 = ev2.drop_last();
        assert(renamed_events(h, h2, f)) by {
            assert forall|i: int| 0 <= i < h.len() implies {
                &&& (#[trigger] h2[i]).value == h[i].value
                &&& h2[i].from@ == f(h[i].from@)
                &&& h2[i].to@ == f(h[i].to@)
            } by {
                assert(h[i] == ev[i] && h2[i] == ev2[i]);
            }
        }
        lemma_enrolled_renamed(h, h2, f);
        let e = ev.last();
        let e2 = ev2.last();
        assert(e2 == ev2[ev.len() - 1] && e == ev[ev.len() - 1]);
        lemma_enroll_renamed(enrolled(h), e.to@, f);
        lemma_enroll_renamed(enroll(enrolled(h), e.to@), e.from@, f);
    }
}

/// Adding a renamed address to a renamed book renames the book with it added.
proof fn lemma_enroll_renamed(names: Seq<Seq<char>>, a: Seq<char>, f: spec_fn(Seq<char>) -> Seq<char>)
    requires
        one_to_one(f),
    ensures
        enroll(names.map_values(f), f(a)) == enroll(names, a).map_values(f),
{
    let m = names.map_values(f);
    if names.contains(a) {
        let j = choose|j: int| 0 <= j < names.len() && names[j] == a;
        assert(m[j] == f(a));
    } else {
        if m.contains(f(a)) {
            let j = choose|j: int| 0 <= j < m.len() && m[j] == f(a);
            assert(f(names[j]) == f(a));
        }
        assert(m.push(f(a)) =~= names.push(a).map_values(f));
    }
}

/// In a book without doubles, a renamed address has the id of the address.
proof fn lemma_id_renamed(names: Seq<Seq<char>>, a: Seq<char>, f: spec_fn(Seq<char>) -> Seq<char>)
    requires
        one_to_one(f),
        distinct(names),
        names.contains(a),
    ensures
        names.map_values(f).contains(f(a)),
        id_of(names.map_values(f), f(a)) == id_of(names, a),
{
    let m = names.map_values(f);
    let l = id_of(names, a);
    let w = choose|j: int| 0 <= j < names.len() && names[j] == a;
    assert(m[w] == f(a));
    assert(0 <= l < names.len() && names[l] == a);
    let k = id_of(m, f(a));
    assert(0 <= k < m.len() && m[k] == f(a));
    assert(f(names[k]) == f(a));
    if k < l {
        assert(names[k] != names[l]);
    } else if l < k {
        assert(names[l] != names[k]);
    }
}

/// Reading renamed entries with a renamed book reads the same entries.
proof fn lemma_read_renamed(
    ps: Seq<Seq<char>>,
    ps2: Seq<Seq<char>>,
    names: Seq<Seq<char>>,
    f: spec_fn(Seq<char>) -> Seq<char>,
)
    requires
        one_to_one(f),
        distinct(names),
        renamed_entries(ps, ps2, f),
    ensures
        read_entries(ps2, names.map_values(f)) == read_entries(ps, names),
    decreases ps.len(),
{
    if ps.len() > 0 {
        let q = split_on(ps[0], ':');
        let q2 = split_on(ps2[0], ':');
        assert(q.len() == q2.len());
        assert(renamed_entries(ps.drop_first(), ps2.drop_first(), f)) by {
            assert forall|i: int| 0 <= i < ps.drop_first().len() implies {
                let q = split_on(#[trigger] ps.drop_first()[i], ':');
                let q2 = split_on(ps2.drop_first()[i], ':');
                &&& q.len() == q2.len()
                &&& q.len() >= 2 ==> q2[0] == f(q[0]) && q2[1] == q[1]
            } by {
                assert(ps.drop_first()[i] == ps[i + 1]);
                assert(ps2.drop_first()[i] == ps2[i + 1]);
            }
        }
        lemma_read_renamed(ps.drop_first(), ps2.drop_first(), names, f);
        if q.len() >= 2 {
            let m = names.map_values(f);
            if names.contains(q[0]) {
                lemma_id_renamed(names, q[0], f);
            } else if m.contains(q2[0]) {
                let j = choose|j: int| 0 <= j < m.len() && m[j] == q2[0];
                assert(f(names[j]) == f(q[0]));
            }
        }
    }
}

/// Renaming the addresses of a block and of its states one to one changes
/// nothing the checker sees: the transfers, the readings of both states, and
/// so whether the check may run and what it answers.
pub proof fn law_addresses_are_names_only(
    ev: Seq<Event>,
    ev2: Seq<Event>,
    before: Seq<char>,
    before2: Seq<char>,
    after: Seq<char>,
    after2: Seq<char>,
    f: spec_fn(Seq<char>) -> Seq<char>,
)
    requires
        one_to_one(f),
        renamed_events(ev, ev2, f),
        renamed_state(before, before2, f),
        renamed_state(after, after2, f),
    ensures
        event_transactions(ev2) == event_transactions(ev),
        read_state(before2, enrolled(ev2)) == read_state(before, enrolled(ev)),
        read_state(after2, enrolled(ev2)) == read_state(after, enrolled(ev)),
        states_runnable(ev2, before2, after2) == states_runnable(ev, before, after),
        block_states_verdict(ev2, before2, after2) == block_states_verdict(ev, before, after),
{
    lemma_enrolled_renamed(ev, ev2, f);
    lemma_enrolled_distinct(ev);
    let names = enrolled(ev);
    lemma_read_renamed(split_on(before, '|'), split_on(before2, '|'), names, f);
    lemma_read_renamed(split_on(after, '|'), split_on(after2, '|'), names, f);
    assert forall|i: int| 0 <= i < ev.len() implies #[trigger] event_transactions(ev2)[i]
        == event_transactions(ev)[i] by {
        lemma_enrolled_holds(ev, i);
        lemma_id_renamed(names, ev[i].from@, f);
        lemma_id_renamed(names, ev[i].to@, f);
    }
    assert(event_transactions(ev2) =~= event_transactions(ev));
}

} // verus!
