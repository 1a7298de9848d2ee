//! What a query in SQL reads.

use std::sync::Arc;
use vstd::prelude::*;

use crate::manifest::entry::SuperfileEntry;
use crate::manifest::list::{part_views, ManifestListEntryView};
use crate::manifest::part::PartId;
use crate::manifest::snapshot::{share_all, Manifest};

verus! {

/// The name of the table in queries.
pub const TABLE_NAME: &'static str = "supertable";

/// Where the superfiles of a query come from.
#[derive(Debug)]
pub enum SqlSource {
    /// The parts of the list, all of them, in order.
    Parts(Vec<PartId>),
    /// The version holds them itself.
    Flat(Vec<Arc<SuperfileEntry>>),
}

/// The identities of the parts of a list.
pub open spec fn part_ids(s: Seq<ManifestListEntryView>) -> Seq<PartId> {
    Seq::new(s.len(), |i: int| s[i].part_id)
}

/// Where the superfiles of a query come from.
pub fn sql_source(manifest: &Manifest) -> (r: SqlSource)
    ensures
        match manifest.list {
            Some(list) => r matches SqlSource::Parts(ids) && ids@ == part_ids(
                part_views(list.parts@),
            ),
            None => r matches SqlSource::Flat(s) && s@ == manifest.superfile_list.superfiles@,
        },
{
    match &manifest.list {
        Some(list) => {
            let mut ids: Vec<PartId> = Vec::new();
            let mut i: usize = 0;
            while i < list.parts.len()
                invariant
                    i <= list.parts@.len(),
                    ids@.len() == i,
                    forall|k: int| 0 <= k < i ==> #[trigger] ids@[k] == list.parts@[k].part_id,
                decreases list.parts@.len() - i,
            {
                ids.push(list.parts[i].part_id);
                i = i + 1;
            }
            assert(ids@ =~= part_ids(part_views(list.parts@)));
            SqlSource::Parts(ids)
        },
        None => SqlSource::Flat(share_all(&manifest.superfile_list.superfiles)),
    }
}

/// The partitions of a query: one for each superfile. A table without
/// superfiles has one that is empty, so that a query finds no rows rather than
/// no table.
pub fn sql_partitions<T>(read: Vec<Vec<T>>) -> (r: Vec<Vec<T>>)
    ensures
        read@.len() > 0 ==> r@ == read@,
        read@.len() == 0 ==> r@.len() == 1 && r@[0]@.len() == 0,
{
    let mut partitions = read;
    if partitions.len() == 0 {
        partitions.push(Vec::new());
    }
    partitions
}

} // verus!
