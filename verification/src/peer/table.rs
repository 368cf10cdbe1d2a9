//! The table of connections and the other things that come from outside: random choices
//! and identifiers in text.
//!
//! A connection is known by its identifier, a 128-bit number. The table holds for each
//! connection whether it was made by hole punching.
use rand::Rng;
use vstd::prelude::*;

verus! {

/// The concurrent map of the `dashmap` crate.
#[verifier::external_type_specification]
#[verifier::external_body]
#[verifier::reject_recursive_types(K)]
#[verifier::reject_recursive_types(V)]
#[verifier::reject_recursive_types(S)]
pub struct ExDashMap<K, V, S>(dashmap::DashMap<K, V, S>);

/// The concurrent set of the `dashmap` crate.
#[verifier::external_type_specification]
#[verifier::external_body]
#[verifier::reject_recursive_types(K)]
#[verifier::reject_recursive_types(S)]
pub struct ExDashSet<K, S>(dashmap::DashSet<K, S>);

/// What a table of connections holds.
pub uninterp spec fn conn_table(m: dashmap::DashMap<u128, bool>) -> Map<u128, bool>;

/// What a set of identifiers holds.
pub uninterp spec fn id_set(s: dashmap::DashSet<u128>) -> Set<u128>;

/// The identifier that a text stands for, if it stands for one.
pub uninterp spec fn uuid_of_text(text: Seq<char>) -> Option<u128>;

/// Calls `dashmap::DashMap::new`, which makes an empty map.
#[verifier::external_body]
pub(crate) fn table_new() -> (r: dashmap::DashMap<u128, bool>)
    ensures
        (conn_table(r) == Map::<u128, bool>::empty()),
{
    dashmap::DashMap::new()
}

/// Calls `dashmap::DashMap::insert`, which sets the value of a key.
#[verifier::external_body]
pub(crate) fn table_insert(m: &mut dashmap::DashMap<u128, bool>, id: u128, hole_punched: bool)
    ensures
        conn_table(*final(m)) == conn_table(*old(m)).insert(id, hole_punched),
{
    m.insert(id, hole_punched);
}

/// Calls `dashmap::DashMap::remove`, which takes a key out and gives the value that it had.
#[verifier::external_body]
pub(crate) fn table_remove(m: &mut dashmap::DashMap<u128, bool>, id: u128) -> (r: Option<bool>)
    ensures
        conn_table(*final(m)) == conn_table(*old(m)).remove(id),
        r == if conn_table(*old(m)).dom().contains(id) {
            Some(conn_table(*old(m))[id])
        } else {
            None
        },
{
    m.remove(&id).map(|entry| entry.1)
}

/// Calls `dashmap::DashMap::contains_key`.
#[verifier::external_body]
pub(crate) fn table_contains(m: &dashmap::DashMap<u128, bool>, id: u128) -> (r: bool)
    ensures
        r == conn_table(*m).dom().contains(id),
{
    m.contains_key(&id)
}

/// Calls `dashmap::DashMap::len`, which counts the keys.
#[verifier::external_body]
pub(crate) fn table_len(m: &dashmap::DashMap<u128, bool>) -> (r: usize)
    ensures
        r == conn_table(*m).dom().len(),
{
    m.len()
}

/// Calls `dashmap::DashMap::is_empty`.
#[verifier::external_body]
pub(crate) fn table_is_empty(m: &dashmap::DashMap<u128, bool>) -> (r: bool)
    ensures
        r == (conn_table(*m) == Map::<u128, bool>::empty()),
{
    m.is_empty()
}

/// Calls `dashmap::DashMap::iter`, which walks over the entries, each of them once. Nothing
/// is claimed of their order.
#[verifier::external_body]
pub(crate) fn table_entries(m: &dashmap::DashMap<u128, bool>) -> (r: Vec<(u128, bool)>)
    ensures
        forall|i: int|
            0 <= i < r.len() ==> conn_table(*m).dom().contains((#[trigger] r@[i]).0) && conn_table(
                *m,
            )[r@[i].0] == r@[i].1,
        forall|i: int, j: int| 0 <= i < j < r.len() ==> (#[trigger] r@[i]).0 != (#[trigger] r@[j]).0,
        forall|id: u128| #[trigger]
            conn_table(*m).dom().contains(id) ==> r@.contains((id, conn_table(*m)[id])),
{
    m.iter().map(|e| (*e.key(), *e.value())).collect()
}

/// Calls `dashmap::DashSet::new`, which makes an empty set.
#[verifier::external_body]
pub(crate) fn set_new() -> (r: dashmap::DashSet<u128>)
    ensures
        id_set(r) == Set::<u128>::empty(),
{
    dashmap::DashSet::new()
}

/// Calls `dashmap::DashSet::insert`, which puts a key into the set.
#[verifier::external_body]
pub(crate) fn set_insert(s: &mut dashmap::DashSet<u128>, id: u128)
    ensures
        id_set(*final(s)) == id_set(*old(s)).insert(id),
{
    s.insert(id);
}

/// Calls `rand::Rng::gen_range` on the range of the numbers below `count`, which must not be
/// empty. The number is random; it is one of the range.
#[verifier::external_body]
pub(crate) fn random_index(count: usize) -> (r: usize)
    requires
        count > 0,
    ensures
        r < count,
{
    rand::thread_rng().gen_range(0..count)
}

/// Calls the parser of `uuid::Uuid`. The result depends on the text alone; which texts stand
/// for which identifiers is left to the parser.
#[verifier::external_body]
pub(crate) fn parse_uuid(text: &str) -> (r: Option<u128>)
    ensures
        r == uuid_of_text(text@),
{
    match text.parse::<uuid::Uuid>() {
        Ok(id) => Some(id.as_u128()),
        Err(_) => None,
    }
}

} // verus!
