//! Insertion-ordered string-keyed maps held as `(key, value)` vectors: the
//! ordering the document model and netlists report.
use vstd::prelude::*;

verus! {

/// Position of `k`, if present.
pub open spec fn key_index<V>(e: Seq<(String, V)>, k: Seq<char>) -> Option<int>
    decreases e.len(),
{
    if e.len() == 0 {
        None
    } else if e[0].0@ == k {
        Some(0)
    } else {
        match key_index(e.drop_first(), k) {
            Some(i) => Some(i + 1),
            None => None,
        }
    }
}

pub open spec fn has_key<V>(e: Seq<(String, V)>, k: Seq<char>) -> bool {
    exists|i: int| 0 <= i < e.len() && #[trigger] e[i].0@ == k
}

/// The key sequence, as views.
pub proof fn lemma_key_index<V>(e: Seq<(String, V)>, k: Seq<char>)
    ensures
        match key_index(e, k) {
            Some(i) => 0 <= i < e.len() && e[i].0@ == k && forall|j: int|
                0 <= j < i ==> e[j].0@ != k,
            None => forall|j: int| 0 <= j < e.len() ==> e[j].0@ != k,
        },
        key_index(e, k) is Some <==> has_key(e, k),
    decreases e.len(),
{
    if e.len() > 0 && e[0].0@ != k {
        lemma_key_index(e.drop_first(), k);
        match key_index(e.drop_first(), k) {
            Some(i) => {
                assert forall|j: int| 0 <= j < i + 1 implies e[j].0@ != k by {
                    if j > 0 {
                        assert(e[j] == e.drop_first()[j - 1]);
                    }
                }
                assert(e[i + 1] == e.drop_first()[i]);
            },
            None => {
                assert forall|j: int| 0 <= j < e.len() implies e[j].0@ != k by {
                    if j > 0 {
                        assert(e[j] == e.drop_first()[j - 1]);
                    }
                }
            },
        }
    }
    if key_index(e, k) is Some {
        let i = key_index(e, k)->0;
        assert(e[i].0@ == k);
    }
}

pub proof fn lemma_key_index_exact<V>(e: Seq<(String, V)>, k: Seq<char>, i: int)
    requires
        0 <= i <= e.len(),
        forall|j: int| 0 <= j < i ==> e[j].0@ != k,
        i < e.len() ==> e[i].0@ == k,
    ensures
        key_index(e, k) == (if i < e.len() {
            Some(i)
        } else {
            None::<int>
        }),
{
    lemma_key_index(e, k);
}

/// Position of `k` in `e`.
pub fn find_key<V>(e: &Vec<(String, V)>, k: &String) -> (r: Option<usize>)
    ensures
        match r {
            Some(j) => j < e@.len() && key_index(e@, k@) == Some(j as int),
            None => key_index(e@, k@) == None::<int>,
        },
{
    let mut i: usize = 0;
    while i < e.len()
        invariant
            i <= e@.len(),
            forall|j: int| 0 <= j < i ==> e@[j].0@ != k@,
        decreases e@.len() - i,
    {
        if e[i].0 == *k {
            proof {
                lemma_key_index_exact(e@, k@, i as int);
            }
            return Some(i);
        }
        i = i + 1;
    }
    proof {
        lemma_key_index_exact(e@, k@, i as int);
    }
    None
}

/// The value stored under `k`.
/// `IndexMap::insert`: a present key keeps its position and takes the new value,
/// a new key is appended.
pub fn map_insert<V>(e: &mut Vec<(String, V)>, k: String, v: V)
    ensures
        match key_index(old(e)@, k@) {
            Some(i) => final(e)@ == old(e)@.update(i, (k, v)),
            None => final(e)@ == old(e)@.push((k, v)),
        },
{
    match find_key(e, &k) {
        Some(i) => {
            e.set(i, (k, v));
        },
        None => {
            e.push((k, v));
        },
    }
}

/// `entry(k).or_insert(v)`: `k` is appended with `v` unless already present.
pub fn map_insert_absent<V>(e: &mut Vec<(String, V)>, k: String, v: V)
    ensures
        match key_index(old(e)@, k@) {
            Some(i) => final(e)@ == old(e)@,
            None => final(e)@ == old(e)@.push((k, v)),
        },
{
    match find_key(e, &k) {
        Some(_) => {},
        None => {
            e.push((k, v));
        },
    }
}

} // verus!
