use crate::common::rid::FrameId;
use crate::common::rid::PageId;
use dashmap::DashMap;
use vstd::prelude::*;

verus! {

/// The concurrent map of the `dashmap` crate, in which the pool keeps its
/// page table. What is inside a value of it is not seen here; the functions
/// below say what holds of its entries.
#[verifier::external_type_specification]
#[verifier::external_body]
#[verifier::reject_recursive_types(K)]
#[verifier::reject_recursive_types(V)]
#[verifier::reject_recursive_types(S)]
pub struct ExDashMap<K, V, S>(DashMap<K, V, S>);

/// The entries of a page table: the frame of each page that has one. The
/// table is a `DashMap`, whose methods take `&self`; the pool owns its table
/// alone, and the functions below that change it take `&mut`, so that each
/// change is seen.
pub uninterp spec fn table_entries(table: DashMap<PageId, FrameId>) -> Map<PageId, FrameId>;

/// `DashMap::new`: a map without entries.
#[verifier::external_body]
pub(crate) fn table_new() -> (table: DashMap<PageId, FrameId>)
    ensures
        forall|page_id: PageId| !table_entries(table).contains_key(page_id),
{
    DashMap::new()
}

/// `DashMap::insert`: the key maps to the value afterwards and every other key
/// is as before; returns the value the key had.
#[verifier::external_body]
pub(crate) fn table_insert(table: &mut DashMap<PageId, FrameId>, page_id: PageId, frame_id: FrameId) -> (previous: Option<FrameId>)
    ensures
        table_entries(*final(table)) == table_entries(*old(table)).insert(page_id, frame_id),
        previous == if table_entries(*old(table)).contains_key(page_id) {
            Some(table_entries(*old(table))[page_id])
        } else {
            None
        },
{
    table.insert(page_id, frame_id)
}

/// `DashMap::get`: the value of the key, if the map has the key.
#[verifier::external_body]
pub(crate) fn table_get(table: &DashMap<PageId, FrameId>, page_id: PageId) -> (frame_id: Option<FrameId>)
    ensures
        frame_id == if table_entries(*table).contains_key(page_id) {
            Some(table_entries(*table)[page_id])
        } else {
            None
        },
{
    table.get(&page_id).map(|entry| *entry.value())
}

/// `DashMap::remove`: the key is gone afterwards and every other key is as
/// before; returns the value the key had.
#[verifier::external_body]
pub(crate) fn table_remove(table: &mut DashMap<PageId, FrameId>, page_id: PageId) -> (previous: Option<FrameId>)
    ensures
        table_entries(*final(table)) == table_entries(*old(table)).remove(page_id),
        previous == if table_entries(*old(table)).contains_key(page_id) {
            Some(table_entries(*old(table))[page_id])
        } else {
            None
        },
{
    table.remove(&page_id).map(|entry| entry.1)
}

/// `DashMap::len`: the number of entries.
#[verifier::external_body]
pub(crate) fn table_len(table: &DashMap<PageId, FrameId>) -> (count: usize)
    ensures
        count == table_entries(*table).dom().len(),
{
    table.len()
}

/// `DashMap::iter`: every key of the map once, in an order that is not
/// fixed.
#[verifier::external_body]
pub(crate) fn table_keys(table: &DashMap<PageId, FrameId>) -> (keys: Vec<PageId>)
    ensures
        keys@.no_duplicates(),
        forall|page_id: PageId| keys@.contains(page_id) <==> table_entries(*table).contains_key(page_id),
{
    table.iter().map(|entry| *entry.key()).collect()
}

} // verus!
