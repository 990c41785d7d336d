//! An in-memory image of the record store: the named collections and their
//! records, in store order. The caller fills it from whatever medium holds
//! the records; the pipeline only reads it.

use crate::record::{clone_records, views_of, Record, RecordView};
use crate::utils::str_eq;
use vstd::prelude::*;

verus! {

/// The named collections of the store.
pub struct Store {
    pub collections: Vec<(String, Vec<Record>)>,
}

/// The records of the collection named `name`: the first entry with that
/// name, or the empty sequence when the store has no such collection.
pub open spec fn collection_lookup(
    collections: Seq<(Seq<char>, Seq<RecordView>)>,
    name: Seq<char>,
) -> Seq<RecordView>
    decreases collections.len(),
{
    if collections.len() == 0 {
        Seq::empty()
    } else if collections[0].0 == name {
        collections[0].1
    } else {
        collection_lookup(collections.drop_first(), name)
    }
}

impl Store {
    /// The mathematical model: collection names with their records' models.
    pub open spec fn view(self) -> Seq<(Seq<char>, Seq<RecordView>)> {
        self.collections@.map_values(|c: (String, Vec<Record>)| (c.0@, views_of(c.1@)))
    }

    /// The model of the collection named `name`; empty when absent.
    pub open spec fn spec_collection(self, name: Seq<char>) -> Seq<RecordView> {
        collection_lookup(self.view(), name)
    }

    /// A copy of the records of the collection named `name`, in store order.
    /// A name the store does not know yields the empty list, not an error.
    pub fn collection(&self, name: &str) -> (r: Vec<Record>)
        ensures
            views_of(r@) == self.spec_collection(name@),
    {
        let n = self.collections.len();
        let mut i: usize = 0;
        proof {
            assert(self.view().skip(0) =~= self.view());
        }
        while i < n
            invariant
                i <= n,
                n == self.collections@.len(),
                self.view().len() == n,
                forall|j: int|
                    0 <= j < n ==> self.view()[j] == (
                        self.collections@[j].0@,
                        views_of(self.collections@[j].1@),
                    ),
                collection_lookup(self.view(), name@) == collection_lookup(
                    self.view().skip(i as int),
                    name@,
                ),
            decreases n - i,
        {
            proof {
                assert(self.view().skip(i as int)[0] == self.view()[i as int]);
            }
            if str_eq(self.collections[i].0.as_str(), name) {
                return clone_records(&self.collections[i].1);
            }
            proof {
                assert(self.view().skip(i as int).drop_first() =~= self.view().skip(i as int + 1));
            }
            i += 1;
        }
        Vec::new()
    }
}

} // verus!
