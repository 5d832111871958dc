//! Association lists in which a later entry for a key replaces the earlier
//! one: the behaviour of collecting key/value pairs into a hash map.
use vstd::prelude::*;
use vstd::string::StringSliceAdditionalSpecFns;

verus! {

/// The first index at or after `j` whose key is `k`, or -1.
pub open spec fn find_key<K, V>(acc: Seq<(K, V)>, k: K, j: int) -> int
    decreases acc.len() - j,
{
    if j < 0 || j >= acc.len() {
        -1
    } else if acc[j].0 == k {
        j
    } else {
        find_key(acc, k, j + 1)
    }
}

/// The value stored under `k`.
pub open spec fn lookup<K, V>(acc: Seq<(K, V)>, k: K) -> Option<V> {
    let i = find_key(acc, k, 0);
    if i < 0 {
        None
    } else {
        Some(acc[i].1)
    }
}

/// Stores `v` under `k`: replaces the value of an entry with that key in
/// place, or appends a new entry.
pub open spec fn assoc_insert<K, V>(acc: Seq<(K, V)>, k: K, v: V) -> Seq<(K, V)> {
    let i = find_key(acc, k, 0);
    if i < 0 {
        acc.push((k, v))
    } else {
        acc.update(i, (k, v))
    }
}

/// Inserts the pairs of `list` in order: keys in the order they first
/// appear, each with its last value.
pub open spec fn assoc_build<K, V>(list: Seq<(K, V)>) -> Seq<(K, V)>
    decreases list.len(),
{
    if list.len() == 0 {
        seq![]
    } else {
        assoc_insert(assoc_build(list.drop_last()), list.last().0, list.last().1)
    }
}

/// The value of the last pair of `list` with key `k`.
pub open spec fn lookup_last<K, V>(list: Seq<(K, V)>, k: K) -> Option<V>
    decreases list.len(),
{
    if list.len() == 0 {
        None
    } else if list.last().0 == k {
        Some(list.last().1)
    } else {
        lookup_last(list.drop_last(), k)
    }
}

pub open spec fn distinct_keys<K, V>(acc: Seq<(K, V)>) -> bool {
    forall|i: int, j: int| 0 <= i < j < acc.len() ==> acc[i].0 != acc[j].0
}

/// `find_key` gives the first index from `j` whose key is `k`, or -1 when there is none.
pub proof fn lemma_find_key<K, V>(acc: Seq<(K, V)>, k: K, j: int)
    requires
        0 <= j,
    ensures
        find_key(acc, k, j) == -1 || (j <= find_key(acc, k, j) < acc.len() && acc[find_key(
            acc,
            k,
            j,
        )].0 == k),
        find_key(acc, k, j) == -1 ==> forall|i: int| j <= i < acc.len() ==> acc[i].0 != k,
        forall|i: int| j <= i < find_key(acc, k, j) ==> acc[i].0 != k,
    decreases acc.len() - j,
{
    if j < acc.len() && acc[j].0 != k {
        lemma_find_key(acc, k, j + 1);
    }
}

/// In a list with distinct keys, the entry with key `k` is the one `lookup` finds.
pub proof fn lemma_lookup_distinct<K, V>(acc: Seq<(K, V)>, k: K, i: int)
    requires
        distinct_keys(acc),
        0 <= i < acc.len(),
        acc[i].0 == k,
    ensures
        find_key(acc, k, 0) == i,
        lookup(acc, k) == Some(acc[i].1),
{
    lemma_find_key(acc, k, 0);
}

proof fn lemma_insert<K, V>(acc: Seq<(K, V)>, k: K, v: V, k2: K)
    requires
        distinct_keys(acc),
    ensures
        distinct_keys(assoc_insert(acc, k, v)),
        lookup(assoc_insert(acc, k, v), k2) == if k2 == k {
            Some(v)
        } else {
            lookup(acc, k2)
        },
{
    lemma_find_key(acc, k, 0);
    lemma_find_key(acc, k2, 0);
    let r = assoc_insert(acc, k, v);
    assert(distinct_keys(r));
    lemma_find_key(r, k2, 0);
    let i = find_key(r, k2, 0);
    if i >= 0 {
        lemma_lookup_distinct(r, k2, i);
        if k2 != k {
            lemma_lookup_distinct(acc, k2, i);
        }
    } else {
        let j = find_key(acc, k, 0);
        if k2 == k {
            if j < 0 {
                assert(r[acc.len() as int].0 == k);
            } else {
                assert(r[j].0 == k);
            }
        } else {
            let i2 = find_key(acc, k2, 0);
            if i2 >= 0 {
                assert(r[i2].0 == k2);
            }
        }
    }
}

/// Law: building an association list gives distinct keys, and each key is
/// answered with the value of its last pair, as a hash map filled from the
/// same pairs would answer it.
pub proof fn lemma_assoc_build_last_wins<K, V>(list: Seq<(K, V)>, k: K)
    ensures
        distinct_keys(assoc_build(list)),
        lookup(assoc_build(list), k) == lookup_last(list, k),
    decreases list.len(),
{
    if list.len() > 0 {
        lemma_assoc_build_last_wins(list.drop_last(), k);
        lemma_insert(assoc_build(list.drop_last()), list.last().0, list.last().1, k);
    }
}

/// The bytes of two string slices are equal.
pub fn str_bytes_eq(a: &str, b: &str) -> (r: bool)
    ensures
        r == (a.spec_bytes() == b.spec_bytes()),
{
    let x = a.as_bytes();
    let y = b.as_bytes();
    if x.len() != y.len() {
        return false;
    }
    let mut i: usize = 0;
    while i < x.len()
        invariant
            x@ == a.spec_bytes(),
            y@ == b.spec_bytes(),
            x@.len() == y@.len(),
            i <= x@.len(),
            forall|j: int| 0 <= j < i ==> x@[j] == y@[j],
        decreases x@.len() - i,
    {
        if x[i] != y[i] {
            return false;
        }
        i = i + 1;
    }
    assert(x@ =~= y@);
    true
}

/// The keys and values of string-keyed pairs, by their views.
pub open spec fn pairs_view<'a, V: View>(v: Seq<(&'a str, V)>) -> Seq<(Seq<u8>, V::V)> {
    v.map_values(|p: (&'a str, V)| (p.0.spec_bytes(), p.1@))
}

/// Stores `v` under `k` in `acc`, replacing the value of an equal key.
pub fn assoc_insert_str<'a, V: View>(acc: &mut Vec<(&'a str, V)>, k: &'a str, v: V)
    ensures
        pairs_view(final(acc)@) == assoc_insert(pairs_view(old(acc)@), k.spec_bytes(), v@),
{
    let ghost old_view = pairs_view(acc@);
    let mut i: usize = 0;
    while i < acc.len()
        invariant
            acc@ == old(acc)@,
            old_view == pairs_view(acc@),
            i <= acc@.len(),
            find_key(old_view, k.spec_bytes(), i as int) == find_key(old_view, k.spec_bytes(), 0),
        decreases acc@.len() - i,
    {
        if str_bytes_eq(acc[i].0, k) {
            assert(find_key(old_view, k.spec_bytes(), 0) == i);
            acc.set(i, (k, v));
            assert(pairs_view(acc@) =~= old_view.update(i as int, (k.spec_bytes(), v@)));
            return;
        }
        i = i + 1;
    }
    acc.push((k, v));
    assert(pairs_view(acc@) =~= old_view.push((k.spec_bytes(), v@)));
}

} // verus!
