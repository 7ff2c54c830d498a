//! The shared application state: one identifier generator and one data
//! store, constructed once at process start and passed by reference into
//! every component that needs them.

use vstd::prelude::*;

verus! {

use crate::allocator::{step_issues, IdAllocator};
use crate::snowflake::{IdError, Snowflake};
use crate::store::Database;

pub struct AppState {
    pub allocator: IdAllocator,
    pub database: Database,
}

impl AppState {
    pub open spec fn wf(self) -> bool {
        self.allocator.wf() && self.database.wf()
    }

    /// A fresh state: an empty store and a generator for `node_id` counting
    /// from `epoch_millis`. Fails exactly as the generator's constructor
    /// does: a node tag outside 8 bits is always refused as such; an epoch
    /// in the future of the clock is refused too.
    pub fn new(node_id: i64, epoch_millis: u64) -> (r: Result<AppState, IdError>)
        ensures
            !(0 <= node_id < 0x100) ==> r is Err && r->Err_0 == IdError::NodeOutOfRange,
            r is Ok ==> ({
                let s = r->Ok_0;
                s.wf() && s.allocator.node_id == node_id && s.allocator.epoch_millis
                    == epoch_millis && s.allocator.last_ts == 0 && s.allocator.next_seq == 0
                    && s.database.users@.len() == 0 && s.database.sessions@.len() == 0
                    && s.database.rooms@.len() == 0 && s.database.messages@.len() == 0
            }),
    {
        let allocator = IdAllocator::new_now(node_id, epoch_millis)?;
        let database = Database::build();
        Ok(AppState { allocator, database })
    }

    /// The next fresh identifier; one pure generator step at whatever the
    /// clock read. The store is untouched either way.
    pub fn next_snowflake(&mut self) -> (r: Result<Snowflake, IdError>)
        requires
            old(self).wf(),
        ensures
            final(self).wf(),
            final(self).database == old(self).database,
            r is Ok ==> exists|now_rel: int|
                step_issues(old(self).allocator, now_rel, final(self).allocator, r->Ok_0),
            r is Ok ==> r->Ok_0.valid(),
            r is Err ==> *final(self) == *old(self),
    {
        let r = self.allocator.next_id();
        proof {
            if r is Ok {
                let now_rel = choose|now_rel: int|
                    step_issues(old(self).allocator, now_rel, self.allocator, r->Ok_0);
                assert(step_issues(old(self).allocator, now_rel, self.allocator, r->Ok_0));
            }
        }
        r
    }
}

} // verus!
