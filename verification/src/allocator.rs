//! The identifier generator.
//!
//! The generator holds the last used millisecond timestamp and the next
//! sequence number for that millisecond. Each call reads the clock and then
//! takes a pure step ([`IdAllocator::next_id_at`]): same millisecond means the
//! sequence is incremented, a later millisecond resets the sequence to zero,
//! an exhausted sequence or a clock that moved backwards is an error. The
//! pure step is fully specified by [`step_issues`], and the laws at the end
//! of this module prove that the identifiers issued along any run are
//! strictly increasing (hence pairwise distinct) and that sequence numbers
//! within one millisecond are dense, starting at zero.

use vstd::prelude::*;

verus! {

use crate::snowflake::{IdError, Snowflake};

pub struct IdAllocator {
    /// The node tag stamped into every identifier; fits in 8 bits.
    pub node_id: i64,
    /// The epoch, as milliseconds since the Unix epoch.
    pub epoch_millis: u64,
    /// The millisecond (relative to the epoch) of the last issued identifier.
    pub last_ts: i64,
    /// The sequence number the next identifier gets if the clock still reads
    /// `last_ts`; `0x1000` means the current millisecond is exhausted.
    pub next_seq: i64,
}

impl IdAllocator {
    pub open spec fn wf(self) -> bool {
        &&& 0 <= self.node_id < 0x100
        &&& 0 <= self.last_ts < 0x80000000000
        &&& 0 <= self.next_seq <= 0x1000
    }

    /// Lower bound (inclusive) on every identifier this allocator will still
    /// issue: the packed value of (last_ts, node, next_seq).
    pub open spec fn floor(self) -> int {
        self.last_ts * 0x100000 + self.node_id * 0x1000 + self.next_seq
    }

    /// A fresh generator for `node_id`, counting milliseconds from
    /// `epoch_millis`. Fails exactly when the node tag does not fit in 8 bits
    /// or the epoch lies in the future of `now_millis`.
    pub fn new(node_id: i64, epoch_millis: u64, now_millis: u64) -> (r: Result<
        IdAllocator,
        IdError,
    >)
        ensures
            r is Ok <==> (0 <= node_id < 0x100 && epoch_millis <= now_millis),
            r is Ok ==> ({
                let a = r->Ok_0;
                a.wf() && a.node_id == node_id && a.epoch_millis == epoch_millis && a.last_ts == 0
                    && a.next_seq == 0
            }),
            r is Err ==> r->Err_0 == (if 0 <= node_id < 0x100 {
                IdError::EpochInFuture
            } else {
                IdError::NodeOutOfRange
            }),
    {
        if node_id < 0 || node_id >= 0x100 {
            Err(IdError::NodeOutOfRange)
        } else if epoch_millis > now_millis {
            Err(IdError::EpochInFuture)
        } else {
            Ok(IdAllocator { node_id, epoch_millis, last_ts: 0, next_seq: 0 })
        }
    }

    /// Reads the clock and builds a generator; fails as [`IdAllocator::new`]
    /// does, or with `ClockRegression` when no clock reading is available.
    pub fn new_now(node_id: i64, epoch_millis: u64) -> (r: Result<IdAllocator, IdError>)
        ensures
            r is Ok ==> ({
                let a = r->Ok_0;
                a.wf() && a.node_id == node_id && a.epoch_millis == epoch_millis && a.last_ts == 0
                    && a.next_seq == 0
            }),
            !(0 <= node_id < 0x100) ==> r == Result::<IdAllocator, IdError>::Err(
                IdError::NodeOutOfRange,
            ),
    {
        match unix_millis_now() {
            Some(now) => IdAllocator::new(node_id, epoch_millis, now),
            None => {
                if node_id < 0 || node_id >= 0x100 {
                    Err(IdError::NodeOutOfRange)
                } else {
                    Err(IdError::ClockRegression)
                }
            },
        }
    }

    /// One pure step of the generator, at clock reading `now_millis`
    /// (milliseconds since the Unix epoch). Issues an identifier exactly when
    /// the clock, relative to the epoch, is in range and has not moved
    /// backwards, and the current millisecond is not exhausted.
    pub fn next_id_at(&mut self, now_millis: u64) -> (r: Result<Snowflake, IdError>)
        requires
            old(self).wf(),
        ensures
            final(self).wf(),
            r is Ok <==> step_possible(*old(self), now_millis),
            r is Ok ==> step_issues(
                *old(self),
                now_millis - old(self).epoch_millis,
                *final(self),
                r->Ok_0,
            ),
            r is Err ==> *final(self) == *old(self) && r->Err_0 == step_error(
                *old(self),
                now_millis,
            ),
    {
        if now_millis < self.epoch_millis {
            return Err(IdError::ClockRegression);
        }
        let rel_u = now_millis - self.epoch_millis;
        if rel_u >= 0x80000000000u64 {
            return Err(IdError::TimestampOverflow);
        }
        let rel = rel_u as i64;
        if rel < self.last_ts {
            return Err(IdError::ClockRegression);
        }
        if rel == self.last_ts {
            if self.next_seq >= 0x1000 {
                return Err(IdError::SequenceExhausted);
            }
            let f = Snowflake::from_parts(rel, self.node_id, self.next_seq);
            self.next_seq = self.next_seq + 1;
            Ok(f)
        } else {
            let f = Snowflake::from_parts(rel, self.node_id, 0);
            self.last_ts = rel;
            self.next_seq = 1;
            Ok(f)
        }
    }

    /// Reads the clock and issues the next identifier, retrying a bounded
    /// number of times while the current millisecond is exhausted. Never
    /// blocks indefinitely. Whatever the clock returned, a success is one
    /// pure generator step from the old state.
    pub fn next_id(&mut self) -> (r: Result<Snowflake, IdError>)
        requires
            old(self).wf(),
        ensures
            final(self).wf(),
            r is Ok ==> exists|now_rel: int|
                step_issues(*old(self), now_rel, *final(self), r->Ok_0),
            r is Err ==> *final(self) == *old(self),
    {
        self.next_id_spin(1000000)
    }

    fn next_id_spin(&mut self, fuel: u32) -> (r: Result<Snowflake, IdError>)
        requires
            old(self).wf(),
        ensures
            final(self).wf(),
            r is Ok ==> exists|now_rel: int|
                step_issues(*old(self), now_rel, *final(self), r->Ok_0),
            r is Err ==> *final(self) == *old(self),
        decreases fuel,
    {
        let now = match unix_millis_now() {
            Some(n) => n,
            None => {
                return Err(IdError::ClockRegression);
            },
        };
        match self.next_id_at(now) {
            Ok(f) => {
                proof {
                    let rel = now - self.epoch_millis;
                    assert(step_issues(*old(self), rel, *self, f));
                }
                Ok(f)
            },
            Err(IdError::SequenceExhausted) => {
                if fuel == 0 {
                    Err(IdError::SequenceExhausted)
                } else {
                    self.next_id_spin(fuel - 1)
                }
            },
            Err(e) => Err(e),
        }
    }
}

/// Whether a step of `pre` at clock reading `now_millis` issues an
/// identifier.
pub open spec fn step_possible(pre: IdAllocator, now_millis: u64) -> bool {
    let rel = now_millis - pre.epoch_millis;
    &&& now_millis >= pre.epoch_millis
    &&& rel < 0x80000000000
    &&& rel >= pre.last_ts
    &&& (rel > pre.last_ts || pre.next_seq < 0x1000)
}

/// The error a failing step reports.
pub open spec fn step_error(pre: IdAllocator, now_millis: u64) -> IdError {
    let rel = now_millis - pre.epoch_millis;
    if now_millis < pre.epoch_millis {
        IdError::ClockRegression
    } else if rel >= 0x80000000000 {
        IdError::TimestampOverflow
    } else if rel < pre.last_ts {
        IdError::ClockRegression
    } else {
        IdError::SequenceExhausted
    }
}

/// One successful generator step: from state `pre`, at `now_rel` milliseconds
/// past the epoch, the identifier `f` is issued and the state becomes `post`.
pub open spec fn step_issues(
    pre: IdAllocator,
    now_rel: int,
    post: IdAllocator,
    f: Snowflake,
) -> bool {
    &&& pre.last_ts <= now_rel < 0x80000000000
    &&& (now_rel == pre.last_ts ==> pre.next_seq < 0x1000)
    &&& post.node_id == pre.node_id
    &&& post.epoch_millis == pre.epoch_millis
    &&& f.valid()
    &&& f.spec_node() == pre.node_id
    &&& f.spec_ts() == now_rel
    &&& f.spec_seq() == (if now_rel == pre.last_ts {
        pre.next_seq as int
    } else {
        0
    })
    &&& f.id == now_rel * 0x100000 + pre.node_id * 0x1000 + f.spec_seq()
    &&& post.last_ts == now_rel
    &&& post.next_seq == f.spec_seq() + 1
}

/// Relies on std::time::SystemTime::now and duration_since(UNIX_EPOCH):
/// milliseconds since the Unix epoch, or None when the system clock reads
/// earlier than the Unix epoch or past what fits in a u64 of milliseconds.
#[verifier::external_body]
fn unix_millis_now() -> (r: Option<u64>) {
    std::time::SystemTime::now().duration_since(std::time::UNIX_EPOCH).ok().and_then(
        |d| u64::try_from(d.as_millis()).ok(),
    )
}

// ---------------------------------------------------------------------------
// Runs of the generator, and the laws that hold along them.
// ---------------------------------------------------------------------------
/// The state before step `i` of a run: the initial state, or the state the
/// previous step left behind.
pub open spec fn state_at(
    init: IdAllocator,
    steps: Seq<(int, IdAllocator, Snowflake)>,
    i: int,
) -> IdAllocator {
    if i <= 0 {
        init
    } else {
        steps[i - 1].1
    }
}

/// A run of the generator: a sequence of successful steps, each one a pure
/// generator step from the state the previous step left behind. Entry `i`
/// holds the clock reading, the state after the step, and the issued
/// identifier.
pub open spec fn run_ok(init: IdAllocator, steps: Seq<(int, IdAllocator, Snowflake)>) -> bool {
    &&& init.wf()
    &&& forall|i: int|
        0 <= i < steps.len() ==> #[trigger] step_issues(
            state_at(init, steps, i),
            steps[i].0,
            steps[i].1,
            steps[i].2,
        )
}

/// A successful step issues an identifier at or above the floor of its start
/// state, and raises the floor past the issued identifier.
proof fn lemma_step_raises_floor(pre: IdAllocator, now_rel: int, post: IdAllocator, f: Snowflake)
    requires
        pre.wf(),
        step_issues(pre, now_rel, post, f),
    ensures
        post.wf(),
        pre.floor() <= f.id,
        post.floor() == f.id + 1,
{
}

/// Along a run, every state is well formed and the floor after step `i`
/// exceeds the identifier issued at step `i`.
proof fn lemma_run_wf(init: IdAllocator, steps: Seq<(int, IdAllocator, Snowflake)>, i: int)
    requires
        run_ok(init, steps),
        0 <= i <= steps.len(),
    ensures
        state_at(init, steps, i).wf(),
        i > 0 ==> state_at(init, steps, i).floor() == steps[i - 1].2.id + 1,
        i > 0 ==> steps[i - 1].2.id >= state_at(init, steps, i - 1).floor(),
    decreases i,
{
    if i > 0 {
        lemma_run_wf(init, steps, i - 1);
        lemma_step_raises_floor(
            state_at(init, steps, i - 1),
            steps[i - 1].0,
            steps[i - 1].1,
            steps[i - 1].2,
        );
    }
}

/// The floor never goes down along a run.
proof fn lemma_run_floor_monotonic(
    init: IdAllocator,
    steps: Seq<(int, IdAllocator, Snowflake)>,
    i: int,
    j: int,
)
    requires
        run_ok(init, steps),
        0 <= i <= j <= steps.len(),
    ensures
        state_at(init, steps, i).floor() <= state_at(init, steps, j).floor(),
    decreases j - i,
{
    if i < j {
        lemma_run_wf(init, steps, j);
        lemma_run_floor_monotonic(init, steps, i, j - 1);
    }
}

/// LAW: identifiers issued along a run are strictly increasing in the order
/// they were issued.
pub proof fn lemma_run_ids_increase(
    init: IdAllocator,
    steps: Seq<(int, IdAllocator, Snowflake)>,
    i: int,
    j: int,
)
    requires
        run_ok(init, steps),
        0 <= i < j < steps.len(),
    ensures
        steps[i].2.id < steps[j].2.id,
{
    lemma_run_wf(init, steps, i + 1);
    lemma_run_floor_monotonic(init, steps, i + 1, j);
    lemma_run_wf(init, steps, j + 1);
}

/// LAW: identifiers issued along a run are pairwise distinct.
pub proof fn lemma_run_ids_distinct(
    init: IdAllocator,
    steps: Seq<(int, IdAllocator, Snowflake)>,
    i: int,
    j: int,
)
    requires
        run_ok(init, steps),
        0 <= i < steps.len(),
        0 <= j < steps.len(),
        i != j,
    ensures
        steps[i].2.id != steps[j].2.id,
{
    if i < j {
        lemma_run_ids_increase(init, steps, i, j);
    } else {
        lemma_run_ids_increase(init, steps, j, i);
    }
}

/// How many of the first `upto` steps issued an identifier stamped with
/// millisecond `ts`.
pub open spec fn count_with_ts(
    steps: Seq<(int, IdAllocator, Snowflake)>,
    upto: int,
    ts: int,
) -> int
    decreases upto,
{
    if upto <= 0 {
        0
    } else {
        count_with_ts(steps, upto - 1, ts) + if steps[upto - 1].2.spec_ts() == ts {
            1int
        } else {
            0int
        }
    }
}

/// Timestamps never decrease along a run.
proof fn lemma_run_ts_monotonic(
    init: IdAllocator,
    steps: Seq<(int, IdAllocator, Snowflake)>,
    i: int,
    j: int,
)
    requires
        run_ok(init, steps),
        0 <= i <= j < steps.len(),
    ensures
        steps[i].2.spec_ts() <= steps[j].2.spec_ts(),
    decreases j - i,
{
    if i < j {
        lemma_run_ts_monotonic(init, steps, i, j - 1);
        assert(step_issues(
            state_at(init, steps, j - 1),
            steps[j - 1].0,
            steps[j - 1].1,
            steps[j - 1].2,
        ));
        assert(step_issues(state_at(init, steps, j), steps[j].0, steps[j].1, steps[j].2));
    }
}

/// Nothing is counted for a millisecond later than everything seen so far.
proof fn lemma_count_zero_above(
    init: IdAllocator,
    steps: Seq<(int, IdAllocator, Snowflake)>,
    upto: int,
    ts: int,
)
    requires
        run_ok(init, steps),
        0 <= upto <= steps.len(),
        forall|k: int| 0 <= k < upto ==> steps[k].2.spec_ts() < ts,
    ensures
        count_with_ts(steps, upto, ts) == 0,
    decreases upto,
{
    if upto > 0 {
        lemma_count_zero_above(init, steps, upto - 1, ts);
    }
}

/// LAW: along a run that starts from a fresh generator, the sequence number
/// of each issued identifier equals the number of earlier identifiers stamped
/// with the same millisecond: within each millisecond, sequence numbers are
/// dense, starting at zero.
pub proof fn lemma_run_seqs_dense(
    init: IdAllocator,
    steps: Seq<(int, IdAllocator, Snowflake)>,
    i: int,
)
    requires
        run_ok(init, steps),
        init.next_seq == 0,
        0 <= i < steps.len(),
    ensures
        steps[i].2.spec_seq() == count_with_ts(steps, i, steps[i].2.spec_ts()),
    decreases i,
{
    let ts_i = steps[i].2.spec_ts();
    assert(step_issues(state_at(init, steps, i), steps[i].0, steps[i].1, steps[i].2));
    if i == 0 {
        assert(count_with_ts(steps, 0, ts_i) == 0);
    } else {
        lemma_run_seqs_dense(init, steps, i - 1);
        let ts_p = steps[i - 1].2.spec_ts();
        assert(step_issues(
            state_at(init, steps, i - 1),
            steps[i - 1].0,
            steps[i - 1].1,
            steps[i - 1].2,
        ));
        if ts_i == ts_p {
            assert(state_at(init, steps, i).last_ts == ts_p);
            assert(state_at(init, steps, i).next_seq == steps[i - 1].2.spec_seq() + 1);
        } else {
            assert forall|k: int| 0 <= k < i implies steps[k].2.spec_ts() < ts_i by {
                lemma_run_ts_monotonic(init, steps, k, i - 1);
            }
            lemma_count_zero_above(init, steps, i, ts_i);
        }
    }
}

} // verus!
