//! Tables keyed by text: a sequence of entries whose keys are distinct.
use vstd::prelude::*;

verus! {

/// The mathematical form of a table: its entries in order.
pub type TableView<V> = Seq<(Seq<char>, V)>;

/// No key stands in two entries.
pub open spec fn keys_distinct<V>(t: TableView<V>) -> bool {
    forall|i: int, j: int| 0 <= i < t.len() && 0 <= j < t.len() && i != j ==> t[i].0 != t[j].0
}

/// Some entry has key `k`.
pub open spec fn has_key<V>(t: TableView<V>, k: Seq<char>) -> bool {
    exists|i: int| 0 <= i < t.len() && t[i].0 == k
}

/// The position of the entry with key `k`, where there is one.
pub open spec fn key_index<V>(t: TableView<V>, k: Seq<char>) -> int {
    choose|i: int| 0 <= i < t.len() && t[i].0 == k
}

/// The value stored under `k`, if any.
pub open spec fn value_of<V>(t: TableView<V>, k: Seq<char>) -> Option<V> {
    if has_key(t, k) {
        Some(t[key_index(t, k)].1)
    } else {
        None
    }
}

/// The table of the entries of `v`, with their keys read as text.
pub open spec fn table_view<V>(v: Seq<(String, V)>) -> TableView<V> {
    v.map_values(|e: (String, V)| (e.0@, e.1))
}

/// In a table with distinct keys an entry is found at exactly one position.
pub proof fn lemma_key_index_unique<V>(t: TableView<V>, k: Seq<char>, i: int)
    requires
        keys_distinct(t),
        0 <= i < t.len(),
        t[i].0 == k,
    ensures
        has_key(t, k),
        key_index(t, k) == i,
        value_of(t, k) == Some(t[i].1),
{
}

/// The position of the entry of `v` whose key is `k`.
pub fn find_key<V>(v: &Vec<(String, V)>, k: &String) -> (r: Option<usize>)
    ensures
        match r {
            Some(i) => i < v.len() && v@[i as int].0@ == k@,
            None => !has_key(table_view(v@), k@) && forall|j: int|
                0 <= j < v.len() ==> v@[j].0@ != k@,
        },
{
    let mut i: usize = 0;
    while i < v.len()
        invariant
            i <= v.len(),
            forall|j: int| 0 <= j < i ==> v@[j].0@ != k@,
        decreases v.len() - i,
    {
        if v[i].0 == *k {
            return Some(i);
        }
        i = i + 1;
    }
    proof {
        if has_key(table_view(v@), k@) {
            let j = choose|j: int| 0 <= j < v@.len() && table_view(v@)[j].0 == k@;
            assert(v@[j].0@ == k@);
        }
    }
    None
}

} // verus!
