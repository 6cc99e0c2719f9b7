//! Maps kept as sequences of entries sorted by key: what `map_put` does to
//! the value held under each key, and that two sorted sequences holding the
//! same values under the same keys are the same sequence.
use vstd::prelude::*;
use crate::netlist::{vkey_index, lemma_vkey_index};
use crate::parser::{insert_sorted, str_lt, lemma_str_lt_irreflexive, lemma_str_lt_asymmetric};
use crate::proto::{map_put, keys_sorted};

verus! {

/// The value a sequence of entries holds under `k`: that of the first entry
/// with key `k`, where there is one.
pub open spec fn value_at<V>(e: Seq<(Seq<char>, V)>, k: Seq<char>) -> Option<V> {
    match vkey_index(e, k) {
        Some(i) => Some(e[i].1),
        None => None,
    }
}

pub proof fn lemma_str_lt_transitive(a: Seq<char>, b: Seq<char>, c: Seq<char>)
    requires
        str_lt(a, b),
        str_lt(b, c),
    ensures
        str_lt(a, c),
    decreases a.len(),
{
    if a.len() > 0 && a[0] == b[0] && b[0] == c[0] {
        lemma_str_lt_transitive(a.drop_first(), b.drop_first(), c.drop_first());
    }
}

proof fn lemma_char_code(c: char, d: char)
    ensures
        c != d ==> (c as u32) != (d as u32),
{
}

pub proof fn lemma_str_lt_total(a: Seq<char>, b: Seq<char>)
    requires
        a != b,
    ensures
        str_lt(a, b) || str_lt(b, a),
    decreases a.len(),
{
    if a.len() > 0 && b.len() > 0 && a[0] == b[0] {
        if a.drop_first() == b.drop_first() {
            assert(a =~= seq![a[0]] + a.drop_first());
            assert(b =~= seq![b[0]] + b.drop_first());
        }
        lemma_str_lt_total(a.drop_first(), b.drop_first());
    } else if a.len() == 0 && b.len() == 0 {
        assert(a =~= b);
    } else if a.len() > 0 && b.len() > 0 {
        lemma_char_code(a[0], b[0]);
    }
}

/// In a sorted sequence each key occurs once: the value under a key is that
/// of the entry that has it, and a key no entry has holds nothing.
pub proof fn lemma_value_at_sorted<V>(e: Seq<(Seq<char>, V)>, k: Seq<char>)
    requires
        keys_sorted(e),
    ensures
        forall|j: int| 0 <= j < e.len() && #[trigger] e[j].0 == k ==> value_at(e, k) == Some(e[j].1),
        (forall|j: int| 0 <= j < e.len() ==> #[trigger] e[j].0 != k) ==> value_at(e, k) is None,
{
    lemma_vkey_index(e, k);
    assert forall|j: int| 0 <= j < e.len() && #[trigger] e[j].0 == k implies value_at(e, k) == Some(e[j].1) by {
        let i = vkey_index(e, k)->0;
        if i != j {
            if i < j {
                assert(str_lt(e[i].0, e[j].0));
            } else {
                assert(str_lt(e[j].0, e[i].0));
            }
            lemma_str_lt_irreflexive(k);
        }
    }
}

/// Where `insert_sorted` puts a key that a sorted sequence lacks: after the
/// keys before it, before the keys after it.
proof fn lemma_insert_place<V>(e: Seq<(Seq<char>, V)>, x: (Seq<char>, V)) -> (p: int)
    requires
        keys_sorted(e),
        forall|j: int| 0 <= j < e.len() ==> #[trigger] e[j].0 != x.0,
    ensures
        0 <= p <= e.len(),
        insert_sorted(e, x) == e.take(p).push(x) + e.skip(p),
        forall|j: int| 0 <= j < p ==> str_lt(#[trigger] e[j].0, x.0),
        forall|j: int| p <= j < e.len() ==> str_lt(x.0, #[trigger] e[j].0),
    decreases e.len(),
{
    if e.len() == 0 {
        assert(insert_sorted(e, x) =~= e.take(0).push(x) + e.skip(0));
        0
    } else if str_lt(x.0, e.last().0) {
        let d = e.drop_last();
        assert forall|i: int, j: int| 0 <= i < j < d.len() implies str_lt(#[trigger] d[i].0, #[trigger] d[j].0) by {
            assert(d[i] == e[i] && d[j] == e[j]);
        }
        assert forall|j: int| 0 <= j < d.len() implies #[trigger] d[j].0 != x.0 by {
            assert(d[j] == e[j]);
        }
        let q = lemma_insert_place(d, x);
        assert(insert_sorted(e, x) == insert_sorted(d, x).push(e.last()));
        assert(insert_sorted(e, x) =~= e.take(q).push(x) + e.skip(q));
        assert forall|j: int| 0 <= j < q implies str_lt(#[trigger] e[j].0, x.0) by {
            assert(d[j] == e[j]);
        }
        assert forall|j: int| q <= j < e.len() implies str_lt(x.0, #[trigger] e[j].0) by {
            if j < d.len() {
                assert(d[j] == e[j]);
            }
        }
        q
    } else {
        let n = e.len() - 1;
        assert(e[n].0 != x.0);
        lemma_str_lt_total(x.0, e[n].0);
        assert(insert_sorted(e, x) =~= e.take(e.len() as int).push(x) + e.skip(e.len() as int));
        assert forall|j: int| 0 <= j < e.len() implies str_lt(#[trigger] e[j].0, x.0) by {
            if j < n {
                assert(str_lt(e[j].0, e[n].0));
                lemma_str_lt_transitive(e[j].0, e[n].0, x.0);
            }
        }
        e.len() as int
    }
}

/// `map_put` keeps a sequence sorted; afterwards the key put holds the value
/// put, and every other key what it held before.
pub proof fn lemma_map_put_sorted<V>(e: Seq<(Seq<char>, V)>, k: Seq<char>, v: V)
    requires
        keys_sorted(e),
    ensures
        keys_sorted(map_put(e, k, v)),
        forall|k2: Seq<char>| #[trigger] value_at(map_put(e, k, v), k2) == if k2 == k {
            Some(v)
        } else {
            value_at(e, k2)
        },
{
    let r = map_put(e, k, v);
    lemma_vkey_index(e, k);
    match vkey_index(e, k) {
        Some(i) => {
            assert(r == e.update(i, (k, v)));
            assert forall|a: int, b: int| 0 <= a < b < r.len() implies str_lt(#[trigger] r[a].0, #[trigger] r[b].0) by {
                assert(r[a].0 == e[a].0 && r[b].0 == e[b].0);
            }
            assert forall|k2: Seq<char>| #[trigger] value_at(r, k2) == if k2 == k {
                Some(v)
            } else {
                value_at(e, k2)
            } by {
                lemma_value_at_sorted(e, k2);
                lemma_value_at_sorted(r, k2);
                if k2 == k {
                    assert(r[i].0 == k2);
                } else {
                    assert forall|j: int| 0 <= j < r.len() && #[trigger] r[j].0 == k2 implies e[j] == r[j] by {}
                    if exists|j: int| 0 <= j < e.len() && #[trigger] e[j].0 == k2 {
                        let j = choose|j: int| 0 <= j < e.len() && #[trigger] e[j].0 == k2;
                        assert(r[j].0 == k2);
                    } else {
                        assert forall|j: int| 0 <= j < r.len() implies #[trigger] r[j].0 != k2 by {
                            if j != i {
                                assert(r[j] == e[j]);
                            }
                        }
                    }
                }
            }
        },
        None => {
            let x = (k, v);
            let p = lemma_insert_place(e, x);
            assert(r == e.take(p).push(x) + e.skip(p));
            assert forall|j: int| 0 <= j < r.len() implies #[trigger] r[j] == if j < p {
                e[j]
            } else if j == p {
                x
            } else {
                e[j - 1]
            } by {}
            assert forall|a: int, b: int| 0 <= a < b < r.len() implies str_lt(#[trigger] r[a].0, #[trigger] r[b].0) by {
                if b < p {
                    assert(str_lt(e[a].0, e[b].0));
                } else if b == p {
                } else if a < p {
                    lemma_str_lt_transitive(e[a].0, x.0, e[b - 1].0);
                } else if a == p {
                } else {
                    assert(str_lt(e[a - 1].0, e[b - 1].0));
                }
            }
            assert forall|k2: Seq<char>| #[trigger] value_at(r, k2) == if k2 == k {
                Some(v)
            } else {
                value_at(e, k2)
            } by {
                lemma_value_at_sorted(e, k2);
                lemma_value_at_sorted(r, k2);
                if k2 == k {
                    assert(r[p].0 == k2);
                } else {
                    if exists|j: int| 0 <= j < e.len() && #[trigger] e[j].0 == k2 {
                        let j = choose|j: int| 0 <= j < e.len() && #[trigger] e[j].0 == k2;
                        if j < p {
                            assert(r[j].0 == k2);
                        } else {
                            assert(r[j + 1].0 == k2);
                        }
                    } else {
                        assert forall|j: int| 0 <= j < r.len() implies #[trigger] r[j].0 != k2 by {
                            if j < p {
                                assert(r[j] == e[j]);
                            } else if j > p {
                                assert(r[j] == e[j - 1]);
                            }
                        }
                    }
                }
            }
        },
    }
}

/// Two sorted sequences that hold the same value under every key are equal.
pub proof fn lemma_sorted_unique<V>(a: Seq<(Seq<char>, V)>, b: Seq<(Seq<char>, V)>)
    requires
        keys_sorted(a),
        keys_sorted(b),
        forall|k: Seq<char>| #[trigger] value_at(a, k) == value_at(b, k),
    ensures
        a == b,
    decreases a.len() + b.len(),
{
    if a.len() == 0 || b.len() == 0 {
        if a.len() > 0 {
            lemma_value_at_sorted(a, a[0].0);
            lemma_value_at_sorted(b, a[0].0);
            assert(value_at(a, a[0].0) == value_at(b, a[0].0));
        } else if b.len() > 0 {
            lemma_value_at_sorted(a, b[0].0);
            lemma_value_at_sorted(b, b[0].0);
            assert(value_at(a, b[0].0) == value_at(b, b[0].0));
        } else {
            assert(a =~= b);
        }
    } else {
        let na = a.len() - 1;
        let nb = b.len() - 1;
        let ka = a[na].0;
        let kb = b[nb].0;
        lemma_value_at_sorted(a, ka);
        lemma_value_at_sorted(b, ka);
        lemma_value_at_sorted(a, kb);
        lemma_value_at_sorted(b, kb);
        assert(value_at(a, ka) == value_at(b, ka));
        assert(value_at(a, kb) == value_at(b, kb));
        let j = choose|j: int| 0 <= j < b.len() && #[trigger] b[j].0 == ka;
        let i = choose|i: int| 0 <= i < a.len() && #[trigger] a[i].0 == kb;
        if ka != kb {
            if j < nb {
                assert(str_lt(b[j].0, b[nb].0));
            }
            if i < na {
                assert(str_lt(a[i].0, a[na].0));
            }
            lemma_str_lt_asymmetric(ka, kb);
        }
        assert(a[na] == b[nb]);
        let da = a.drop_last();
        let db = b.drop_last();
        assert forall|x: int, y: int| 0 <= x < y < da.len() implies str_lt(#[trigger] da[x].0, #[trigger] da[y].0) by {
            assert(da[x] == a[x] && da[y] == a[y]);
        }
        assert forall|x: int, y: int| 0 <= x < y < db.len() implies str_lt(#[trigger] db[x].0, #[trigger] db[y].0) by {
            assert(db[x] == b[x] && db[y] == b[y]);
        }
        assert forall|k: Seq<char>| #[trigger] value_at(da, k) == value_at(db, k) by {
            lemma_value_at_sorted(a, k);
            lemma_value_at_sorted(b, k);
            lemma_value_at_sorted(da, k);
            lemma_value_at_sorted(db, k);
            assert(value_at(a, k) == value_at(b, k));
            if k == ka {
                lemma_str_lt_irreflexive(k);
                assert forall|x: int| 0 <= x < da.len() implies #[trigger] da[x].0 != k by {
                    assert(da[x] == a[x]);
                    assert(str_lt(a[x].0, a[na].0));
                }
                assert forall|x: int| 0 <= x < db.len() implies #[trigger] db[x].0 != k by {
                    assert(db[x] == b[x]);
                    assert(str_lt(b[x].0, b[nb].0));
                }
            } else {
                if exists|x: int| 0 <= x < a.len() && #[trigger] a[x].0 == k {
                    let x = choose|x: int| 0 <= x < a.len() && #[trigger] a[x].0 == k;
                    assert(da[x].0 == k);
                } else {
                    assert forall|x: int| 0 <= x < da.len() implies #[trigger] da[x].0 != k by {
                        assert(da[x] == a[x]);
                    }
                }
                if exists|x: int| 0 <= x < b.len() && #[trigger] b[x].0 == k {
                    let x = choose|x: int| 0 <= x < b.len() && #[trigger] b[x].0 == k;
                    assert(db[x].0 == k);
                } else {
                    assert forall|x: int| 0 <= x < db.len() implies #[trigger] db[x].0 != k by {
                        assert(db[x] == b[x]);
                    }
                }
            }
        }
        lemma_sorted_unique(da, db);
        assert(a =~= da.push(a[na]));
        assert(b =~= db.push(b[nb]));
    }
}

} // verus!
