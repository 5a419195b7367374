use vstd::prelude::*;

verus! {

// Association lists keyed by text: the model of maps whose keys keep their first place.

pub open spec fn has_key<V>(e: Seq<(Seq<char>, V)>, k: Seq<char>) -> bool {
    exists|i: int| 0 <= i < e.len() && e[i].0 == k
}

/// `i` is the first position of key `k` in `e`.
pub open spec fn is_first_key<V>(e: Seq<(Seq<char>, V)>, k: Seq<char>, i: int) -> bool {
    &&& 0 <= i < e.len()
    &&& e[i].0 == k
    &&& forall|j: int| 0 <= j < i ==> e[j].0 != k
}

pub open spec fn key_pos<V>(e: Seq<(Seq<char>, V)>, k: Seq<char>) -> int {
    choose|i: int| is_first_key(e, k, i)
}

/// What an object holds under key `k`.
pub open spec fn entries_get<V>(e: Seq<(Seq<char>, V)>, k: Seq<char>) -> Option<V> {
    if has_key(e, k) {
        Some(e[key_pos(e, k)].1)
    } else {
        None
    }
}

/// Insertion into an object: an existing key keeps its place and takes the new value,
/// a new key goes at the end.
pub open spec fn entries_insert<V>(e: Seq<(Seq<char>, V)>, k: Seq<char>, v: V) -> Seq<(Seq<char>, V)> {
    if has_key(e, k) {
        e.update(key_pos(e, k), (k, v))
    } else {
        e.push((k, v))
    }
}

/// Inserting every entry of `f`, in order, into `e`.
pub open spec fn entries_extend<V>(e: Seq<(Seq<char>, V)>, f: Seq<(Seq<char>, V)>) -> Seq<(Seq<char>, V)>
    decreases f.len(),
{
    if f.len() == 0 {
        e
    } else {
        entries_insert(entries_extend(e, f.drop_last()), f.last().0, f.last().1)
    }
}

/// No key occurs twice.
pub open spec fn keys_unique<V>(e: Seq<(Seq<char>, V)>) -> bool {
    forall|i: int, j: int| 0 <= i < j < e.len() ==> e[i].0 != e[j].0
}

pub proof fn lemma_first_key_unique<V>(e: Seq<(Seq<char>, V)>, k: Seq<char>, i: int, j: int)
    requires
        is_first_key(e, k, i),
        is_first_key(e, k, j),
    ensures
        i == j,
{
}

pub proof fn lemma_first_key_exists<V>(e: Seq<(Seq<char>, V)>, k: Seq<char>)
    requires
        has_key(e, k),
    ensures
        is_first_key(e, k, key_pos(e, k)),
    decreases e.len(),
{
    if e[0].0 == k {
        assert(is_first_key(e, k, 0));
    } else {
        let t = e.drop_first();
        let w = choose|i: int| 0 <= i < e.len() && e[i].0 == k;
        assert(t[w - 1].0 == k);
        lemma_first_key_exists(t, k);
        let p = key_pos(t, k);
        assert(is_first_key(e, k, p + 1)) by {
            assert forall|j: int| 0 <= j < p + 1 implies e[j].0 != k by {
                if j > 0 {
                    assert(e[j] == t[j - 1]);
                }
            }
        }
    }
}

/// What `find_key` reports pins the lookup and the insertion at that key.
pub proof fn lemma_key_at<V>(e: Seq<(Seq<char>, V)>, k: Seq<char>, i: int, v: V)
    requires
        is_first_key(e, k, i),
    ensures
        has_key(e, k),
        key_pos(e, k) == i,
        entries_get(e, k) == Some(e[i].1),
        entries_insert(e, k, v) == e.update(i, (k, v)),
{
    lemma_first_key_exists(e, k);
    lemma_first_key_unique(e, k, i, key_pos(e, k));
}

/// A lookup right after an insertion at the same key finds the inserted value.
pub proof fn lemma_insert_get<V>(e: Seq<(Seq<char>, V)>, k: Seq<char>, v: V)
    ensures
        entries_get(entries_insert(e, k, v), k) == Some(v),
{
    let f = entries_insert(e, k, v);
    if has_key(e, k) {
        lemma_first_key_exists(e, k);
        let p = key_pos(e, k);
        assert(is_first_key(f, k, p));
        lemma_key_at(f, k, p, v);
    } else {
        let p = e.len() as int;
        assert(is_first_key(f, k, p));
        lemma_key_at(f, k, p, v);
    }
}

/// An insertion leaves what the other keys hold alone.
pub proof fn lemma_insert_get_other<V>(e: Seq<(Seq<char>, V)>, k: Seq<char>, v: V, k2: Seq<char>)
    requires
        k2 != k,
    ensures
        entries_get(entries_insert(e, k, v), k2) == entries_get(e, k2),
{
    let f = entries_insert(e, k, v);
    if has_key(e, k) {
        lemma_first_key_exists(e, k);
    }
    if has_key(e, k2) {
        lemma_first_key_exists(e, k2);
        let p = key_pos(e, k2);
        assert(is_first_key(f, k2, p));
        lemma_key_at(f, k2, p, v);
    } else {
        if has_key(f, k2) {
            let w = choose|i: int| 0 <= i < f.len() && f[i].0 == k2;
            assert(e[w].0 == k2);
        }
    }
}

/// After inserting entries with distinct keys, a key holds what those entries give it, and
/// otherwise what it held before.
pub proof fn lemma_extend_get<V>(e: Seq<(Seq<char>, V)>, f: Seq<(Seq<char>, V)>, k: Seq<char>)
    requires
        keys_unique(f),
    ensures
        entries_get(entries_extend(e, f), k) == if has_key(f, k) {
            entries_get(f, k)
        } else {
            entries_get(e, k)
        },
    decreases f.len(),
{
    if f.len() > 0 {
        let g = f.drop_last();
        let n = f.len() - 1;
        assert forall|i: int, j: int| 0 <= i < j < g.len() implies g[i].0 != g[j].0 by {
            assert(g[i] == f[i] && g[j] == f[j]);
        }
        lemma_extend_get(e, g, k);
        let lk = f.last().0;
        let lv = f.last().1;
        if lk == k {
            lemma_insert_get(entries_extend(e, g), k, lv);
            assert(is_first_key(f, k, n));
            lemma_key_at(f, k, n, lv);
        } else {
            lemma_insert_get_other(entries_extend(e, g), lk, lv, k);
            if has_key(g, k) {
                lemma_first_key_exists(g, k);
                let p = key_pos(g, k);
                assert(is_first_key(f, k, p));
                lemma_key_at(f, k, p, lv);
                lemma_key_at(g, k, p, lv);
            } else {
                if has_key(f, k) {
                    let w = choose|i: int| 0 <= i < f.len() && f[i].0 == k;
                    assert(w != n);
                    assert(g[w].0 == k);
                }
            }
        }
    }
}

/// Position of the first entry whose key is `key`, if any.
pub fn find_entry<V>(entries: &Vec<(String, V)>, key: &String) -> (r: Option<usize>)
    ensures
        match r {
            Some(i) => i < entries@.len() && entries@[i as int].0@ == key@ && forall|j: int|
                0 <= j < i ==> entries@[j].0@ != key@,
            None => forall|j: int| 0 <= j < entries@.len() ==> entries@[j].0@ != key@,
        },
{
    let mut i: usize = 0;
    while i < entries.len()
        invariant
            i <= entries@.len(),
            forall|j: int| 0 <= j < i ==> entries@[j].0@ != key@,
        decreases entries@.len() - i,
    {
        if entries[i].0 == *key {
            return Some(i);
        }
        i = i + 1;
    }
    None
}

} // verus!
