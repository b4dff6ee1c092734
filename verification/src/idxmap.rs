//! Trusted view of the insertion-ordered maps used in lookup results.
//!
//! The service's responses carry order-significant mappings (part-of-speech
//! tags to definition groups, language codes to translations), and the
//! domain model keeps them in `indexmap::IndexMap`.  Verus cannot look
//! inside that type, so the contents of each map instantiation are named by
//! an uninterpreted sequence of key/value pairs in insertion order, and the
//! few methods the engine calls are wrapped with contracts over that
//! sequence.

use indexmap::IndexMap;
use vstd::prelude::*;

verus! {

#[verifier::external_type_specification]
#[verifier::external_body]
#[verifier::reject_recursive_types(K)]
#[verifier::reject_recursive_types(V)]
#[verifier::reject_recursive_types(S)]
pub struct ExIndexMap<K, V, S>(IndexMap<K, V, S>);

/// The key/value pairs of a definition map, in insertion order.
pub uninterp spec fn dmap_entries(m: IndexMap<String, Vec<Vec<String>>>) -> Seq<
    (Seq<char>, Seq<Seq<Seq<char>>>),
>;

/// The key/value pairs of a translation map, in insertion order.
pub uninterp spec fn tmap_entries(m: IndexMap<String, Vec<String>>) -> Seq<
    (Seq<char>, Seq<Seq<char>>),
>;

/// Relies on `IndexMap::new`: a new map has no entries.
#[verifier::external_body]
pub fn dmap_new() -> (r: IndexMap<String, Vec<Vec<String>>>)
    ensures
        dmap_entries(r) == Seq::<(Seq<char>, Seq<Seq<Seq<char>>>)>::empty(),
{
    IndexMap::new()
}

/// Relies on `IndexMap::contains_key`: true exactly when some entry has
/// this key.
#[verifier::external_body]
pub fn dmap_contains(m: &IndexMap<String, Vec<Vec<String>>>, k: &String) -> (r: bool)
    ensures
        r == (exists|i: int| 0 <= i < dmap_entries(*m).len() && #[trigger] dmap_entries(*m)[i].0 == k@),
{
    m.contains_key(k.as_str())
}

/// Relies on `IndexMap::insert`: a key not yet present is appended, last
/// in order.
#[verifier::external_body]
pub fn dmap_insert_new(m: &mut IndexMap<String, Vec<Vec<String>>>, k: String, v: Vec<Vec<String>>)
    requires
        forall|i: int|
            0 <= i < dmap_entries(*old(m)).len() ==> #[trigger] dmap_entries(*old(m))[i].0 != k@,
    ensures
        dmap_entries(*final(m)) == dmap_entries(*old(m)).push((k@, v.deep_view())),
{
    m.insert(k, v);
}

/// Relies on `IndexMap::get_mut` and `Vec::push`: the value of the entry
/// with this key gains one more group; every other entry, and the order,
/// stay as they were.
#[verifier::external_body]
pub fn dmap_push_group(m: &mut IndexMap<String, Vec<Vec<String>>>, k: &String, g: Vec<String>)
    requires
        exists|i: int|
            0 <= i < dmap_entries(*old(m)).len() && #[trigger] dmap_entries(*old(m))[i].0 == k@,
    ensures
        forall|i: int|
            0 <= i < dmap_entries(*old(m)).len() && #[trigger] dmap_entries(*old(m))[i].0 == k@
                ==> dmap_entries(*final(m)) == dmap_entries(*old(m)).update(
                i,
                (k@, dmap_entries(*old(m))[i].1.push(g.deep_view())),
            ),
{
    if let Some(groups) = m.get_mut(k.as_str()) {
        groups.push(g);
    }
}

/// Relies on `IndexMap::new`: a new map has no entries.
#[verifier::external_body]
pub fn tmap_new() -> (r: IndexMap<String, Vec<String>>)
    ensures
        tmap_entries(r) == Seq::<(Seq<char>, Seq<Seq<char>>)>::empty(),
{
    IndexMap::new()
}

/// Relies on `IndexMap::insert`: an existing key keeps its place and its
/// value is replaced; a new key is appended, last in order.
#[verifier::external_body]
pub fn tmap_insert(m: &mut IndexMap<String, Vec<String>>, k: String, v: Vec<String>)
    ensures
        forall|i: int|
            0 <= i < tmap_entries(*old(m)).len() && #[trigger] tmap_entries(*old(m))[i].0 == k@
                ==> tmap_entries(*final(m)) == tmap_entries(*old(m)).update(
                i,
                (k@, v.deep_view()),
            ),
        (forall|i: int|
            0 <= i < tmap_entries(*old(m)).len() ==> #[trigger] tmap_entries(*old(m))[i].0 != k@)
            ==> tmap_entries(*final(m)) == tmap_entries(*old(m)).push((k@, v.deep_view())),
{
    m.insert(k, v);
}

} // verus!
