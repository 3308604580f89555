//! Trusted interface to the insertion-ordered maps of the `indexmap` crate.
//!
//! A numeral system keeps two synchronized maps: digit string to index and
//! index to digit string. Each map is modelled by the sequence of key-value
//! pairs it holds, in insertion order; every contract below states what the
//! `indexmap` documentation promises of the operation over that sequence.

use indexmap::IndexMap;
use vstd::prelude::*;

verus! {

#[verifier::external_type_specification]
#[verifier::external_body]
#[verifier::reject_recursive_types(K)]
#[verifier::reject_recursive_types(V)]
#[verifier::reject_recursive_types(S)]
pub struct ExIndexMap<K, V, S>(IndexMap<K, V, S>);

/// The key-value pairs a digit-to-index map holds, in insertion order.
pub uninterp spec fn digit_map_entries(m: IndexMap<String, usize>) -> Seq<(Seq<char>, usize)>;

/// The key-value pairs an index-to-digit map holds, in insertion order.
pub uninterp spec fn index_map_entries(m: IndexMap<usize, String>) -> Seq<(usize, Seq<char>)>;

/// Relies on `IndexMap::new`: the new map holds no pairs.
#[verifier::external_body]
pub(crate) fn digit_map_new() -> (m: IndexMap<String, usize>)
    ensures
        digit_map_entries(m) == Seq::<(Seq<char>, usize)>::empty(),
{
    IndexMap::new()
}

/// Relies on `IndexMap::new`: the new map holds no pairs.
#[verifier::external_body]
pub(crate) fn index_map_new() -> (m: IndexMap<usize, String>)
    ensures
        index_map_entries(m) == Seq::<(usize, Seq<char>)>::empty(),
{
    IndexMap::new()
}

/// Relies on `IndexMap::insert`: a new key is appended last in order; an
/// existing key keeps its place and only its value is replaced.
#[verifier::external_body]
pub(crate) fn digit_map_insert(m: &mut IndexMap<String, usize>, k: String, v: usize)
    ensures
        (forall|i: int|
            0 <= i < digit_map_entries(*old(m)).len()
                ==> (#[trigger] digit_map_entries(*old(m))[i]).0 !== k@)
            ==> digit_map_entries(*final(m)) == digit_map_entries(*old(m)).push((k@, v)),
        (exists|i: int|
            0 <= i < digit_map_entries(*old(m)).len()
                && (#[trigger] digit_map_entries(*old(m))[i]).0 == k@)
            ==> digit_map_entries(*final(m)) == digit_map_entries(*old(m)).update(
            choose|i: int|
                0 <= i < digit_map_entries(*old(m)).len()
                    && (#[trigger] digit_map_entries(*old(m))[i]).0 == k@,
            (k@, v),
        ),
{
    m.insert(k, v);
}

/// Relies on `IndexMap::insert`: a new key is appended last in order; an
/// existing key keeps its place and only its value is replaced.
#[verifier::external_body]
pub(crate) fn index_map_insert(m: &mut IndexMap<usize, String>, k: usize, v: String)
    ensures
        (forall|i: int|
            0 <= i < index_map_entries(*old(m)).len()
                ==> (#[trigger] index_map_entries(*old(m))[i]).0 != k)
            ==> index_map_entries(*final(m)) == index_map_entries(*old(m)).push((k, v@)),
        (exists|i: int|
            0 <= i < index_map_entries(*old(m)).len()
                && (#[trigger] index_map_entries(*old(m))[i]).0 == k)
            ==> index_map_entries(*final(m)) == index_map_entries(*old(m)).update(
            choose|i: int|
                0 <= i < index_map_entries(*old(m)).len()
                    && (#[trigger] index_map_entries(*old(m))[i]).0 == k,
            (k, v@),
        ),
{
    m.insert(k, v);
}

/// Relies on `IndexMap::get`: `Some` exactly when an equivalent key is
/// present, returning the value stored for it.
#[verifier::external_body]
pub(crate) fn digit_map_get(m: &IndexMap<String, usize>, k: &str) -> (r: Option<usize>)
    ensures
        match r {
            Some(v) => exists|i: int|
                0 <= i < digit_map_entries(*m).len() && #[trigger] digit_map_entries(*m)[i] == (
                    k@,
                    v,
                ),
            None => forall|i: int|
                0 <= i < digit_map_entries(*m).len() ==> (#[trigger] digit_map_entries(
                    *m,
                )[i]).0 !== k@,
        },
{
    m.get(k).copied()
}

/// Relies on `IndexMap::get`: `Some` exactly when the key is present,
/// returning the value stored for it.
#[verifier::external_body]
pub(crate) fn index_map_get(m: &IndexMap<usize, String>, k: usize) -> (r: Option<String>)
    ensures
        match r {
            Some(v) => exists|i: int|
                0 <= i < index_map_entries(*m).len() && #[trigger] index_map_entries(*m)[i] == (
                    k,
                    v@,
                ),
            None => forall|i: int|
                0 <= i < index_map_entries(*m).len() ==> (#[trigger] index_map_entries(
                    *m,
                )[i]).0 != k,
        },
{
    m.get(&k).cloned()
}

/// Relies on `IndexMap::len`: the number of key-value pairs held.
#[verifier::external_body]
pub(crate) fn digit_map_len(m: &IndexMap<String, usize>) -> (n: usize)
    ensures
        n == digit_map_entries(*m).len(),
{
    m.len()
}

} // verus!
