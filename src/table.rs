//! Association lists keyed by strings, kept in insertion order with unique keys.
use vstd::prelude::*;

use crate::text::views;

verus! {

/// Whether some entry of `m` has key `k`.
pub open spec fn has_key<V>(m: Seq<(Seq<char>, V)>, k: Seq<char>) -> bool {
    exists|i: int| 0 <= i < m.len() && #[trigger] m[i].0 == k
}

/// The position of the entry with key `k`.
pub open spec fn key_index<V>(m: Seq<(Seq<char>, V)>, k: Seq<char>) -> int {
    choose|i: int| 0 <= i < m.len() && #[trigger] m[i].0 == k
}

/// The value stored under `k`, if any.
pub open spec fn lookup<V>(m: Seq<(Seq<char>, V)>, k: Seq<char>) -> Option<V> {
    if has_key(m, k) {
        Some(m[key_index(m, k)].1)
    } else {
        None
    }
}

/// No two entries share a key.
pub open spec fn keys_unique<V>(m: Seq<(Seq<char>, V)>) -> bool {
    forall|i: int, j: int|
        0 <= i < m.len() && 0 <= j < m.len() && #[trigger] m[i].0 == #[trigger] m[j].0 ==> i == j
}

/// `m` with `v` stored under `k`: replacing the entry with that key, or added last.
pub open spec fn put<V>(m: Seq<(Seq<char>, V)>, k: Seq<char>, v: V) -> Seq<(Seq<char>, V)> {
    if has_key(m, k) {
        m.update(key_index(m, k), (k, v))
    } else {
        m.push((k, v))
    }
}

/// `m` with `v` stored under `k` unless `k` already has an entry.
pub open spec fn put_absent<V>(m: Seq<(Seq<char>, V)>, k: Seq<char>, v: V) -> Seq<(Seq<char>, V)> {
    if has_key(m, k) {
        m
    } else {
        m.push((k, v))
    }
}

/// `m` with `x` added at the end of the list stored under `k`.
pub open spec fn append_value(
    m: Seq<(Seq<char>, Seq<Seq<char>>)>,
    k: Seq<char>,
    x: Seq<char>,
) -> Seq<(Seq<char>, Seq<Seq<char>>)> {
    match lookup(m, k) {
        Some(xs) => put(m, k, xs.push(x)),
        None => put(m, k, seq![x]),
    }
}

/// The view of a table from names to lists of names.
pub open spec fn list_table_view(m: Seq<(String, Vec<String>)>) -> Seq<(Seq<char>, Seq<Seq<char>>)> {
    m.map_values(|e: (String, Vec<String>)| (e.0@, views(e.1@)))
}

/// The view of a table from names to names.
pub open spec fn name_table_view(m: Seq<(String, String)>) -> Seq<(Seq<char>, Seq<char>)> {
    m.map_values(|e: (String, String)| (e.0@, e.1@))
}

/// The entry found at `i` is the one that `lookup` returns.
pub proof fn lemma_lookup_at<V>(m: Seq<(Seq<char>, V)>, k: Seq<char>, i: int)
    requires
        keys_unique(m),
        0 <= i < m.len(),
        m[i].0 == k,
    ensures
        has_key(m, k),
        key_index(m, k) == i,
        lookup(m, k) == Some(m[i].1),
{
    assert(has_key(m, k));
}

/// `put` keeps keys unique.
pub proof fn lemma_put_unique<V>(m: Seq<(Seq<char>, V)>, k: Seq<char>, v: V)
    requires
        keys_unique(m),
    ensures
        keys_unique(put(m, k, v)),
{
    if has_key(m, k) {
        let i = key_index(m, k);
        let r = put(m, k, v);
        assert forall|a: int, b: int|
            0 <= a < r.len() && 0 <= b < r.len() && #[trigger] r[a].0 == #[trigger] r[b].0 implies a
            == b by {
            assert(r[a].0 == m[a].0);
            assert(r[b].0 == m[b].0);
        }
    } else {
        let r = put(m, k, v);
        assert forall|a: int, b: int|
            0 <= a < r.len() && 0 <= b < r.len() && #[trigger] r[a].0 == #[trigger] r[b].0 implies a
            == b by {
            if a < m.len() && b < m.len() {
                assert(r[a].0 == m[a].0);
                assert(r[b].0 == m[b].0);
            } else if a < m.len() {
                assert(m[a].0 == k);
            } else if b < m.len() {
                assert(m[b].0 == k);
            }
        }
    }
}

/// `put_absent` keeps keys unique.
pub proof fn lemma_put_absent_unique<V>(m: Seq<(Seq<char>, V)>, k: Seq<char>, v: V)
    requires
        keys_unique(m),
    ensures
        keys_unique(put_absent(m, k, v)),
{
    if !has_key(m, k) {
        lemma_put_unique(m, k, v);
    }
}

/// The position of the entry with key `k`, if any.
pub(crate) fn find_key<V>(m: &Vec<(String, V)>, k: &String) -> (r: Option<usize>)
    ensures
        match r {
            Some(i) => i < m@.len() && m@[i as int].0@ == k@,
            None => forall|i: int| 0 <= i < m@.len() ==> (#[trigger] m@[i]).0@ != k@,
        },
{
    let mut i: usize = 0;
    while i < m.len()
        invariant
            i <= m@.len(),
            forall|j: int| 0 <= j < i ==> (#[trigger] m@[j]).0@ != k@,
        decreases m@.len() - i,
    {
        if m[i].0 == *k {
            return Some(i);
        }
        i = i + 1;
    }
    None
}

/// Adds `x` at the end of the list stored under `k`, starting the list if needed.
pub(crate) fn push_to_list(m: &mut Vec<(String, Vec<String>)>, k: String, x: String)
    requires
        keys_unique(list_table_view(old(m)@)),
    ensures
        keys_unique(list_table_view(final(m)@)),
        list_table_view(final(m)@) == append_value(list_table_view(old(m)@), k@, x@),
{
    let ghost v0 = list_table_view(m@);
    match find_key(m, &k) {
        Some(i) => {
            proof {
                lemma_lookup_at(v0, k@, i as int);
            }
            let ghost xs = views(m@[i as int].1@);
            m[i].1.push(x);
            proof {
                assert(views(m@[i as int].1@) =~= xs.push(x@));
                assert(list_table_view(m@) =~= v0.update(i as int, (k@, xs.push(x@))));
                lemma_put_unique(v0, k@, xs.push(x@));
            }
        },
        None => {
            proof {
                assert(!has_key(v0, k@));
            }
            let mut xs: Vec<String> = Vec::new();
            xs.push(x);
            let ghost xv = views(xs@);
            m.push((k, xs));
            proof {
                assert(xv =~= seq![x@]);
                assert(list_table_view(m@) =~= v0.push((k@, seq![x@])));
                lemma_put_unique(v0, k@, seq![x@]);
            }
        },
    }
}

/// Stores `v` under `k` unless `k` already has an entry.
pub(crate) fn put_name_absent(m: &mut Vec<(String, String)>, k: String, v: String)
    requires
        keys_unique(name_table_view(old(m)@)),
    ensures
        keys_unique(name_table_view(final(m)@)),
        name_table_view(final(m)@) == put_absent(name_table_view(old(m)@), k@, v@),
{
    let ghost v0 = name_table_view(m@);
    match find_key(m, &k) {
        Some(i) => {
            proof {
                lemma_lookup_at(v0, k@, i as int);
            }
        },
        None => {
            proof {
                assert(!has_key(v0, k@));
            }
            m.push((k, v));
            proof {
                assert(name_table_view(m@) =~= v0.push((k@, v@)));
                lemma_put_absent_unique(v0, k@, v@);
            }
        },
    }
}

} // verus!
