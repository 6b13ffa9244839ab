//! The properties of a block, in the order in which their keys first appear.

use indexmap::IndexMap;
use vstd::prelude::*;

verus! {

/// `indexmap::IndexMap`, a map that remembers the order of its keys.
#[verifier::external_type_specification]
#[verifier::external_body]
#[verifier::reject_recursive_types(K)]
#[verifier::reject_recursive_types(V)]
#[verifier::reject_recursive_types(S)]
pub struct ExIndexMap<K, V, S>(IndexMap<K, V, S>);

/// The keys and values that a map holds, in its order.
pub uninterp spec fn entries(m: IndexMap<&str, &str>) -> Seq<(Seq<char>, Seq<char>)>;

/// The first position of the key `k`, or the length.
pub open spec fn key_position(es: Seq<(Seq<char>, Seq<char>)>, k: Seq<char>) -> int
    decreases es.len(),
{
    if es.len() == 0 || es[0].0 == k {
        0
    } else {
        1 + key_position(es.drop_first(), k)
    }
}

/// The value of the key `k`.
pub open spec fn lookup(es: Seq<(Seq<char>, Seq<char>)>, k: Seq<char>) -> Option<Seq<char>> {
    let i = key_position(es, k);
    if i < es.len() {
        Some(es[i].1)
    } else {
        None
    }
}

/// With `v` as the value of `k`: in place of the value that `k` had, or else at
/// the end.
pub open spec fn put(es: Seq<(Seq<char>, Seq<char>)>, k: Seq<char>, v: Seq<char>) -> Seq<
    (Seq<char>, Seq<char>),
> {
    let i = key_position(es, k);
    if i < es.len() {
        es.update(i, (k, v))
    } else {
        es.push((k, v))
    }
}

/// `IndexMap::new` makes an empty map.
#[verifier::external_body]
pub(crate) fn no_properties<'a>() -> (m: IndexMap<&'a str, &'a str>)
    ensures
        entries(m) == Seq::<(Seq<char>, Seq<char>)>::empty(),
{
    IndexMap::new()
}

/// `IndexMap::insert` replaces the value of a key that is there, which keeps its
/// place, and else adds the key and the value at the end.
#[verifier::external_body]
pub(crate) fn insert_property<'a>(
    m: &mut IndexMap<&'a str, &'a str>,
    key: &'a str,
    value: &'a str,
)
    ensures
        entries(*final(m)) == put(entries(*old(m)), key@, value@),
{
    m.insert(key, value);
}

/// `IndexMap::get` finds the value of a key.
#[verifier::external_body]
pub(crate) fn get_property<'a>(m: &IndexMap<&'a str, &'a str>, key: &str) -> (r: Option<&'a str>)
    ensures
        match lookup(entries(*m), key@) {
            Some(v) => r is Some && r->0@ == v,
            None => r is None,
        },
{
    m.get(key).copied()
}

/// No key appears twice.
pub open spec fn keys_distinct(es: Seq<(Seq<char>, Seq<char>)>) -> bool {
    forall|i: int, j: int| 0 <= i < j < es.len() ==> (#[trigger] es[i]).0 != (#[trigger] es[j]).0
}

/// What the position of a key is.
pub proof fn lemma_key_position(es: Seq<(Seq<char>, Seq<char>)>, k: Seq<char>)
    ensures
        0 <= key_position(es, k) <= es.len(),
        key_position(es, k) < es.len() ==> es[key_position(es, k)].0 == k,
        forall|i: int| 0 <= i < key_position(es, k) ==> (#[trigger] es[i]).0 != k,
    decreases es.len(),
{
    if es.len() > 0 && es[0].0 != k {
        let rest = es.drop_first();
        lemma_key_position(rest, k);
        assert forall|i: int| 0 <= i < key_position(es, k) implies (#[trigger] es[i]).0 != k by {
            if i > 0 {
                assert(rest[i - 1] == es[i]);
            }
        }
    }
}

/// A property that is set reads back, every other one is as before, and no key
/// comes to appear twice.
pub proof fn set_property_reads_back(
    es: Seq<(Seq<char>, Seq<char>)>,
    k: Seq<char>,
    v: Seq<char>,
    other: Seq<char>,
)
    ensures
        lookup(put(es, k, v), k) == Some(v),
        other != k ==> lookup(put(es, k, v), other) == lookup(es, other),
        keys_distinct(es) ==> keys_distinct(put(es, k, v)),
{
    let after = put(es, k, v);
    lemma_key_position(es, k);
    lemma_key_position(after, k);
    lemma_key_position(es, other);
    lemma_key_position(after, other);
    let i = key_position(es, k);
    assert(after[i].0 == k);
    if other != k {
        let p = key_position(es, other);
        let q = key_position(after, other);
        if p < es.len() {
            assert(after[p] == es[p]);
        }
        if q < es.len() {
            assert(after[q].0 == es[q].0);
        }
        if p < q && p < es.len() {
            assert(after[p].0 != other);
        }
        if q < p && q < es.len() {
            assert(es[q].0 != other);
        }
    }
}

/// Setting a property keeps the order: keys that are there stay where they are, with their
/// values but for the one that is set, and a new key comes last.
pub proof fn properties_keep_their_order(
    es: Seq<(Seq<char>, Seq<char>)>,
    k: Seq<char>,
    v: Seq<char>,
    i: int,
)
    requires
        keys_distinct(es),
        0 <= i < es.len(),
    ensures
        put(es, k, v)[i].0 == es[i].0,
        put(es, k, v)[i].1 == if es[i].0 == k {
            v
        } else {
            es[i].1
        },
        (exists|j: int| 0 <= j < es.len() && (#[trigger] es[j]).0 == k) ==> put(es, k, v).len()
            == es.len(),
        (forall|j: int| 0 <= j < es.len() ==> (#[trigger] es[j]).0 != k) ==> put(es, k, v).len()
            == es.len() + 1 && put(es, k, v).last() == (k, v),
{
    lemma_key_position(es, k);
    let p = key_position(es, k);
    if es[i].0 == k && p < es.len() {
        if p < i {
            assert(es[p].0 != es[i].0);
        }
    }
}

/// A property is found if and only if its key is there, and then with the value of the
/// first such key.
pub proof fn properties_are_found(es: Seq<(Seq<char>, Seq<char>)>, k: Seq<char>, i: int)
    requires
        0 <= i < es.len(),
    ensures
        es[i].0 == k && (forall|j: int| 0 <= j < i ==> (#[trigger] es[j]).0 != k) ==> lookup(es, k)
            == Some(es[i].1),
        (forall|j: int| 0 <= j < es.len() ==> (#[trigger] es[j]).0 != k) ==> lookup(es, k) is None,
        lookup(Seq::empty(), k) is None,
{
    lemma_key_position(es, k);
    let p = key_position(es, k);
    if es[i].0 == k && p < i {
        assert(es[p].0 == k);
    }
    if p < es.len() {
        assert(es[p].0 == k);
    }
}

} // verus!
