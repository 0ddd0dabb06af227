//! Catalog metadata: the database name and the list of its collection
//! names.  The surrounding program persists and loads this record; the
//! logic here only keeps the name list free of duplicates.

use vstd::prelude::*;

verus! {

/// The persisted catalog record of one database.
pub struct DatabaseMetadata {
    pub name: String,
    pub collections: Vec<String>,
}

impl DatabaseMetadata {
    pub open spec fn spec_contains(&self, name: Seq<char>) -> bool {
        exists|i: int| 0 <= i < self.collections@.len() && (#[trigger] self.collections@[i])@ == name
    }

    /// A fresh catalog record with no collections.
    pub fn new(name: String) -> (r: DatabaseMetadata)
        ensures
            r.name@ == name@,
            r.collections@.len() == 0,
    {
        DatabaseMetadata { name, collections: Vec::new() }
    }

    /// Records a collection name unless it is already present; reports
    /// whether the list changed.
    #[verifier::loop_isolation(false)]
    pub fn add_collection(&mut self, collection_name: String) -> (r: bool)
        ensures
            final(self).name == old(self).name,
            r == !old(self).spec_contains(collection_name@),
            r ==> final(self).collections@ == old(self).collections@.push(collection_name),
            !r ==> final(self).collections@ == old(self).collections@,
    {
        let n = self.collections.len();
        for i in 0..n
            invariant
                forall|j: int| 0 <= j < i ==> (#[trigger] self.collections@[j])@ != collection_name@,
        {
            if self.collections[i].eq(&collection_name) {
                return false;
            }
        }
        self.collections.push(collection_name);
        true
    }
}

} // verus!
