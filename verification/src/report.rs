//! Putting the stations in the order of the report.

use std::cmp::Ordering;
use itertools::Itertools;
use vstd::prelude::*;
use crate::key_order::{key_before, rank_keys, KeyRank};
use crate::table::{entry_views, with_key, StationEntry};

verus! {

/// The order of two entries in the report: that of their keys.
pub fn entry_order(a: &StationEntry, b: &StationEntry) -> (order: Ordering)
    ensures
        order == Ordering::Less <==> key_before(a@.0, b@.0),
        order == Ordering::Equal <==> a@.0 == b@.0,
        order == Ordering::Greater <==> key_before(b@.0, a@.0),
{
    match rank_keys(a.key(), b.key()) {
        KeyRank::Before => Ordering::Less,
        KeyRank::Same => Ordering::Equal,
        KeyRank::After => Ordering::Greater,
    }
}

/// Sorts the entries with `Itertools::sorted_by`, under `entry_order`.
///
/// Trusted: what comes back holds the entries that went in, each as often as
/// it went in; none of them stands behind one that `entry_order` puts after
/// it; and entries with the same key keep the order they had, the sort being
/// stable. The order of keys is total, as `sorted_by` asks.
#[verifier::external_body]
pub(crate) fn sort_entries(entries: Vec<StationEntry>) -> (sorted: Vec<StationEntry>)
    ensures
        entry_views(sorted@).to_multiset() == entry_views(entries@).to_multiset(),
        forall|i: int, j: int|
            0 <= i < j < sorted@.len() ==> !key_before(
                (#[trigger] sorted@[j])@.0,
                (#[trigger] sorted@[i])@.0,
            ),
        forall|key: Seq<u8>|
            #[trigger] with_key(entry_views(sorted@), key) == with_key(entry_views(entries@), key),
{
    entries.into_iter().sorted_by(|a, b| entry_order(a, b)).collect()
}

} // verus!
