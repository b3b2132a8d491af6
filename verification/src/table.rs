//! The concurrent map of `dashmap` that keeps every temperature text of
//! every station, keyed by the station's name as bytes. Each function here
//! makes one call into `dashmap`; its contract is believed, not proved, and
//! says what the crate's source does to the map's contents.
use vstd::prelude::*;
use dashmap::DashMap;

verus! {

#[verifier::external_type_specification]
#[verifier::external_body]
#[verifier::reject_recursive_types(K)]
#[verifier::reject_recursive_types(V)]
#[verifier::reject_recursive_types(S)]
pub struct ExDashMap<K, V, S>(DashMap<K, V, S>);

/// The entries of a table of grouped measurements: name bytes to the
/// temperature texts, in the order they were added.
pub uninterp spec fn group_entries(groups: DashMap<Vec<u8>, Vec<Vec<u8>>>) -> Map<Seq<u8>, Seq<Seq<u8>>>;

/// `DashMap::new`: a map with no entry.
#[verifier::external_body]
pub(crate) fn new_group_table() -> (fresh: DashMap<Vec<u8>, Vec<Vec<u8>>>)
    ensures
        group_entries(fresh).dom().is_empty(),
        group_entries(fresh).dom().finite(),
{
    DashMap::new()
}

/// `DashMap::remove`: takes out the temperature texts stored under `name`,
/// if any, and leaves no entry for it.
#[verifier::external_body]
pub(crate) fn group_remove(groups: &mut DashMap<Vec<u8>, Vec<Vec<u8>>>, name: &[u8]) -> (r: Option<Vec<Vec<u8>>>)
    ensures
        r is Some <==> group_entries(*old(groups)).contains_key(name@),
        r matches Some(v) ==> v.deep_view() == group_entries(*old(groups))[name@],
        group_entries(*final(groups)) == group_entries(*old(groups)).remove(name@),
{
    groups.remove(name).map(|(_, v)| v)
}

/// `DashMap::insert`: stores `temperatures` under `name`, replacing what was there.
#[verifier::external_body]
pub(crate) fn group_insert(groups: &mut DashMap<Vec<u8>, Vec<Vec<u8>>>, name: Vec<u8>, temperatures: Vec<Vec<u8>>)
    ensures
        group_entries(*final(groups)) == group_entries(*old(groups)).insert(
            name@,
            temperatures.deep_view(),
        ),
{
    groups.insert(name, temperatures);
}

} // verus!
