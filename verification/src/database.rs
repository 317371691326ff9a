//! The coordinator: one columnar store behind a multi-reader/single-writer
//! lock, shared by every connection. The transaction manager it also hands
//! out lives with the process wiring, outside this library.

use crate::avc::{
    decoded_rows, AttributeValueContainer, DynAttributeValueContainer, MainAttributeValueContainer,
};
use vstd::prelude::*;
use vstd::rwlock::RwLock;

verus! {

/// Process-wide shared state: the single table's column store, guarded by a
/// read/write lock. No write path exists yet, so the lock's invariant pins
/// its contents to exactly the column the store was built with, carried
/// alongside as a ghost snapshot.
pub struct Database {
    pub avc: RwLock<MainAttributeValueContainer, spec_fn(MainAttributeValueContainer) -> bool>,
    pub contents: Ghost<MainAttributeValueContainer>,
}

impl Database {
    /// The snapshot is a well-formed column and the lock holds exactly it.
    pub open spec fn wf(&self) -> bool {
        &&& self.contents@.wf()
        &&& forall|v: MainAttributeValueContainer| #[trigger] self.avc.inv(v) <==> v == self.contents@
    }

    pub fn new(avc: MainAttributeValueContainer) -> (r: Database)
        requires
            avc.wf(),
        ensures
            r.wf(),
            r.contents@ == avc,
    {
        let ghost snapshot = avc;
        let lock = RwLock::new(avc, Ghost(|v: MainAttributeValueContainer| v == snapshot));
        Database { avc: lock, contents: Ghost(snapshot) }
    }

    /// Decode every row of the store under its read lock: the full decoding
    /// of the column the store holds.
    pub fn read_all_rows(&self) -> (r: Vec<Option<i64>>)
        requires
            self.wf(),
        ensures
            r@ == decoded_rows(self.contents@.ids(), self.contents@.dict_entries()),
    {
        let handle = self.avc.acquire_read();
        let store = handle.borrow();
        proof {
            assert(*store == self.contents@);
        }
        let n = store.len();
        let mut rows: Vec<Option<i64>> = Vec::new();
        let mut i: usize = 0;
        while i < n
            invariant
                *store == self.contents@,
                store.wf(),
                n == store.ids().len(),
                0 <= i <= n,
                rows@.len() == i,
                forall|j: int|
                    0 <= j < i ==> rows@[j] == crate::avc::decoded_row(
                        store.ids(),
                        store.dict_entries(),
                        j,
                    ),
            decreases n - i,
        {
            rows.push(store.lookup(i));
            i = i + 1;
        }
        proof {
            assert(rows@ =~= decoded_rows(store.ids(), store.dict_entries()));
        }
        handle.release_read();
        rows
    }
}

} // verus!
