//! The ordered map of methods, keyed by response, and the sequence of its
//! entries in key order.
use vstd::prelude::*;
use std::collections::BTreeMap;
use vstd::std_specs::btree::spec_keys_iter;
use vstd::std_specs::iter::IteratorSpec;
use crate::key_order::{lemma_integer_keys_ordered, lemma_increasing_keys};
use crate::types::Method;
use crate::model::{keyed_by_response, taken, position_of, insertion_point, insert_by_response};

verus! {

/// The map whose entries are those of `ms`, each keyed by its response.
pub open spec fn map_of(ms: Seq<Method>) -> Map<i64, Method> {
    Map::new(|k: i64| taken(ms, k), |k: i64| ms[position_of(ms, k).unwrap()])
}

/// A map of methods keyed by their responses.
pub open spec fn keyed_map(m: Map<i64, Method>) -> bool {
    &&& m.dom().finite()
    &&& forall|k: i64| #[trigger] m.contains_key(k) ==> m[k].response == k
}

/// The entries of a keyed map, in key order.
pub open spec fn entries_in_order(m: Map<i64, Method>) -> Seq<Method> {
    choose|ms: Seq<Method>| keyed_by_response(ms) && map_of(ms) == m
}

/// In a keyed sequence, the method of response `ms[j].response` is `ms[j]`.
pub proof fn lemma_position(ms: Seq<Method>, j: int)
    requires
        keyed_by_response(ms),
        0 <= j < ms.len(),
    ensures
        taken(ms, ms[j].response),
        position_of(ms, ms[j].response) == Some(j),
        map_of(ms).contains_key(ms[j].response),
        map_of(ms)[ms[j].response] == ms[j],
{
    let k = ms[j].response;
    assert(taken(ms, k));
    let c = choose|c: int| 0 <= c < ms.len() && ms[c].response == k;
    if c < j {
        assert(ms[c].response < ms[j].response);
    } else if c > j {
        assert(ms[j].response < ms[c].response);
    }
}

/// The entries of a keyed sequence make a keyed map of as many keys.
pub proof fn lemma_map_of(ms: Seq<Method>)
    requires
        keyed_by_response(ms),
    ensures
        keyed_map(map_of(ms)),
        map_of(ms).dom().len() == ms.len(),
    decreases ms.len(),
{
    let m = map_of(ms);
    let keys = ms.map_values(|x: Method| x.response);
    assert(m.dom() =~= keys.to_set()) by {
        assert forall|k: i64| m.dom().contains(k) implies keys.to_set().contains(k) by {
            let j = choose|j: int| 0 <= j < ms.len() && ms[j].response == k;
            assert(keys[j] == k);
        }
        assert forall|k: i64| keys.to_set().contains(k) implies m.dom().contains(k) by {
            let j = choose|j: int| 0 <= j < keys.len() && #[trigger] keys[j] == k;
            assert(ms[j].response == k);
        }
    }
    assert(keys.no_duplicates()) by {
        assert forall|a: int, b: int| 0 <= a < keys.len() && 0 <= b < keys.len() && a != b implies keys[a]
            != keys[b] by {
            if a < b {
                assert(ms[a].response < ms[b].response);
            } else {
                assert(ms[b].response < ms[a].response);
            }
        }
    }
    keys.unique_seq_to_set();
    assert forall|k: i64| #[trigger] m.contains_key(k) implies m[k].response == k by {
        let j = choose|j: int| 0 <= j < ms.len() && ms[j].response == k;
        lemma_position(ms, j);
    }
}

/// A keyed sequence keeps its order when an entry is removed, and its map
/// loses that entry's key.
pub proof fn lemma_map_of_remove(ms: Seq<Method>, j: int)
    requires
        keyed_by_response(ms),
        0 <= j < ms.len(),
    ensures
        keyed_by_response(ms.remove(j)),
        map_of(ms.remove(j)) == map_of(ms).remove(ms[j].response),
{
    let n = ms.remove(j);
    assert forall|a: int, b: int| 0 <= a < b < n.len() implies n[a].response < n[b].response by {
        let a0 = if a < j {
            a
        } else {
            a + 1
        };
        let b0 = if b < j {
            b
        } else {
            b + 1
        };
        assert(n[a] == ms[a0]);
        assert(n[b] == ms[b0]);
    }
    let k = ms[j].response;
    assert forall|x: i64| #[trigger] map_of(n).contains_key(x) == map_of(ms).remove(k).contains_key(x) by {
        if taken(n, x) {
            let c = choose|c: int| 0 <= c < n.len() && n[c].response == x;
            let c0 = if c < j {
                c
            } else {
                c + 1
            };
            assert(ms[c0] == n[c]);
            assert(taken(ms, x));
            if x == k {
                lemma_position(ms, c0);
                lemma_position(ms, j);
            }
        }
        if taken(ms, x) && x != k {
            let c = choose|c: int| 0 <= c < ms.len() && ms[c].response == x;
            let c1 = if c < j {
                c
            } else {
                c - 1
            };
            assert(c != j);
            assert(n[c1] == ms[c]);
        }
    }
    assert forall|x: i64| #[trigger] map_of(n).contains_key(x) implies map_of(n)[x] == map_of(
        ms,
    )[x] by {
        let c = choose|c: int| 0 <= c < n.len() && n[c].response == x;
        let c0 = if c < j {
            c
        } else {
            c + 1
        };
        assert(ms[c0] == n[c]);
        lemma_position(n, c);
        lemma_position(ms, c0);
    }
    assert(map_of(n) =~= map_of(ms).remove(k));
}

/// Where a response is not taken in a keyed sequence, it has an insertion point.
pub proof fn lemma_insertion_point_exists(ms: Seq<Method>, k: i64, p: int)
    requires
        keyed_by_response(ms),
        !taken(ms, k),
        0 <= p <= ms.len(),
        forall|a: int| 0 <= a < p ==> ms[a].response < k,
    ensures
        exists|q: int| insertion_point(ms, k, q),
    decreases ms.len() - p,
{
    if p == ms.len() {
        assert(insertion_point(ms, k, p));
    } else if ms[p].response < k {
        lemma_insertion_point_exists(ms, k, p + 1);
    } else {
        assert(ms[p].response != k);
        assert forall|a: int| p <= a < ms.len() implies k < ms[a].response by {
            if a > p {
                assert(ms[p].response < ms[a].response);
            }
        }
        assert(insertion_point(ms, k, p));
    }
}

/// Adding a method of a free response to a keyed sequence keeps it keyed, and
/// adds that entry to its map.
pub proof fn lemma_map_of_insert(ms: Seq<Method>, m: Method)
    requires
        keyed_by_response(ms),
        !taken(ms, m.response),
    ensures
        keyed_by_response(insert_by_response(ms, m)),
        map_of(insert_by_response(ms, m)) == map_of(ms).insert(m.response, m),
        insert_by_response(ms, m).len() == ms.len() + 1,
{
    lemma_insertion_point_exists(ms, m.response, 0);
    let p = choose|p: int| insertion_point(ms, m.response, p);
    let n = ms.insert(p, m);
    assert(n == insert_by_response(ms, m));
    assert forall|a: int, b: int| 0 <= a < b < n.len() implies n[a].response < n[b].response by {
        if b < p {
        } else if a > p {
            assert(n[a] == ms[a - 1]);
            assert(n[b] == ms[b - 1]);
        } else if a == p {
            assert(n[b] == ms[b - 1]);
        } else if b == p {
            assert(n[a] == ms[a]);
        } else {
            assert(n[a] == ms[a]);
            assert(n[b] == ms[b - 1]);
        }
    }
    let k = m.response;
    assert forall|x: i64| #[trigger] map_of(n).contains_key(x) == map_of(ms).insert(k, m).contains_key(x) by {
        if taken(n, x) {
            let c = choose|c: int| 0 <= c < n.len() && n[c].response == x;
            if c < p {
                assert(n[c] == ms[c]);
            } else if c > p {
                assert(n[c] == ms[c - 1]);
            }
        }
        if taken(ms, x) {
            let c = choose|c: int| 0 <= c < ms.len() && ms[c].response == x;
            if c < p {
                assert(n[c] == ms[c]);
            } else {
                assert(n[c + 1] == ms[c]);
            }
        }
        if x == k {
            assert(n[p] == m);
        }
    }
    assert forall|x: i64| #[trigger] map_of(n).contains_key(x) implies map_of(n)[x] == map_of(
        ms,
    ).insert(k, m)[x] by {
        let c = choose|c: int| 0 <= c < n.len() && n[c].response == x;
        lemma_position(n, c);
        if c < p {
            assert(n[c] == ms[c]);
            lemma_position(ms, c);
        } else if c > p {
            assert(n[c] == ms[c - 1]);
            lemma_position(ms, c - 1);
        } else {
            assert(n[c] == m);
        }
    }
    assert(map_of(n) =~= map_of(ms).insert(k, m));
}

/// The map of a prefix of a keyed sequence grows by the next entry.
pub proof fn lemma_map_of_take(ms: Seq<Method>, i: int)
    requires
        keyed_by_response(ms),
        0 <= i < ms.len(),
    ensures
        map_of(ms.take(i + 1)) == map_of(ms.take(i)).insert(ms[i].response, ms[i]),
{
    let t = ms.take(i);
    let t1 = ms.take(i + 1);
    let k = ms[i].response;
    assert(keyed_by_response(t));
    assert(keyed_by_response(t1));
    assert forall|x: i64| #[trigger] map_of(t1).contains_key(x) == map_of(t).insert(
        k,
        ms[i],
    ).contains_key(x) by {
        if taken(t1, x) {
            let c = choose|c: int| 0 <= c < t1.len() && t1[c].response == x;
            if c < i {
                assert(t[c] == t1[c]);
            }
        }
        if taken(t, x) {
            let c = choose|c: int| 0 <= c < t.len() && t[c].response == x;
            assert(t1[c] == t[c]);
        }
        if x == k {
            assert(t1[i] == ms[i]);
        }
    }
    assert forall|x: i64| #[trigger] map_of(t1).contains_key(x) implies map_of(t1)[x] == map_of(
        t,
    ).insert(k, ms[i])[x] by {
        let c = choose|c: int| 0 <= c < t1.len() && t1[c].response == x;
        lemma_position(t1, c);
        if c < i {
            assert(t[c] == t1[c]);
            assert(ms[c].response < ms[i].response);
            lemma_position(t, c);
        }
    }
    assert(map_of(t1) =~= map_of(t).insert(k, ms[i]));
}

/// Two keyed sequences with the same map are the same sequence.
pub proof fn lemma_map_of_unique(s: Seq<Method>, t: Seq<Method>)
    requires
        keyed_by_response(s),
        keyed_by_response(t),
        map_of(s) == map_of(t),
    ensures
        s == t,
    decreases s.len(),
{
    lemma_map_of(s);
    lemma_map_of(t);
    if s.len() > 0 {
        let ks = s[0].response;
        let kt = t[0].response;
        lemma_position(s, 0);
        lemma_position(t, 0);
        assert(map_of(t).contains_key(ks));
        assert(map_of(s).contains_key(kt));
        let cs = choose|c: int| 0 <= c < s.len() && s[c].response == kt;
        let ct = choose|c: int| 0 <= c < t.len() && t[c].response == ks;
        if cs > 0 {
            assert(s[0].response < s[cs].response);
        }
        if ct > 0 {
            assert(t[0].response < t[ct].response);
        }
        assert(ks == kt);
        assert(s[0] == t[0]);
        lemma_map_of_remove(s, 0);
        lemma_map_of_remove(t, 0);
        assert(s.remove(0) =~= s.drop_first());
        assert(t.remove(0) =~= t.drop_first());
        lemma_map_of_unique(s.drop_first(), t.drop_first());
        assert(s =~= seq![s[0]] + s.drop_first());
        assert(t =~= seq![t[0]] + t.drop_first());
    } else {
        assert(t.len() == 0);
        assert(s =~= t);
    }
}

/// The entries in key order of the map of a keyed sequence are that sequence.
pub proof fn lemma_entries_in_order(ms: Seq<Method>)
    requires
        keyed_by_response(ms),
    ensures
        entries_in_order(map_of(ms)) == ms,
{
    let e = entries_in_order(map_of(ms));
    assert(keyed_by_response(e) && map_of(e) == map_of(ms));
    lemma_map_of_unique(e, ms);
}

/// The keys of a keyed map and its entries, both in key order.
pub fn ordered_entries(map_methods: &BTreeMap<i64, Method>) -> (r: (Vec<i64>, Vec<Method>))
    requires
        keyed_map(map_methods@),
    ensures
        r.1@ == entries_in_order(map_methods@),
        keyed_by_response(r.1@),
        map_of(r.1@) == map_methods@,
        r.0.len() == r.1.len(),
        forall|a: int| 0 <= a < r.0.len() ==> r.0@[a] == r.1@[a].response,
{
    proof {
        lemma_integer_keys_ordered();
    }
    let mut keys: Vec<i64> = Vec::new();
    let mut entries: Vec<Method> = Vec::new();
    let map_methods_clone = map_methods.clone();
    let ghost order = spec_keys_iter(&map_methods_clone).remaining();
    proof {
        lemma_increasing_keys(order);
    }
    for k in iter: map_methods_clone.keys()
        invariant
            map_methods_clone@ == map_methods@,
            keyed_map(map_methods@),
            iter.seq() == order,
            order.unref().to_set() == map_methods@.dom(),
            order.len() == map_methods@.dom().len(),
            forall|a: int, b: int| 0 <= a < b < order.len() ==> *order[a] < *order[b],
            keys.len() == iter.index(),
            entries.len() == iter.index(),
            forall|a: int| 0 <= a < keys.len() ==> keys@[a] == *order[a],
            forall|a: int| 0 <= a < keys.len() ==> map_methods@.contains_key(keys@[a]),
            forall|a: int| 0 <= a < keys.len() ==> entries@[a] == map_methods@[keys@[a]],
    {
        proof {
            assert(order.unref().to_set().contains(*k)) by {
                assert(order.unref()[iter.index()] == *k);
            }
        }
        let m = *map_methods_clone.get(k).unwrap();
        keys.push(*k);
        entries.push(m);
    }
    let ghost es = entries@;
    assert(keys.len() == order.len());
    assert forall|a: int| 0 <= a < es.len() implies #[trigger] es[a].response == keys@[a] by {
        assert(map_methods@.contains_key(keys@[a]));
    }
    assert(keyed_by_response(es)) by {
        assert forall|a: int, b: int| 0 <= a < b < es.len() implies es[a].response
            < es[b].response by {
            assert(es[a].response == keys@[a]);
            assert(es[b].response == keys@[b]);
            assert(keys@[a] == *order[a] && keys@[b] == *order[b]);
        }
    }
    assert forall|k: i64| #[trigger] map_of(es).contains_key(k) == map_methods@.contains_key(k) by {
        if map_methods@.contains_key(k) {
            assert(order.unref().to_set().contains(k));
            let a = choose|a: int| 0 <= a < order.unref().len() && order.unref()[a] == k;
            assert(es[a].response == keys@[a]);
            assert(taken(es, k));
        }
        if taken(es, k) {
            let a = choose|a: int| 0 <= a < es.len() && es[a].response == k;
            assert(es[a].response == keys@[a]);
        }
    }
    assert forall|k: i64| #[trigger] map_of(es).contains_key(k) implies map_of(es)[k]
        == map_methods@[k] by {
        let a = choose|a: int| 0 <= a < es.len() && es[a].response == k;
        assert(es[a].response == keys@[a]);
        lemma_position(es, a);
    }
    assert(map_of(es) =~= map_methods@);
    proof {
        lemma_entries_in_order(es);
    }
    (keys, entries)
}

} // verus!
