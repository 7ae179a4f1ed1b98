use vstd::prelude::*;

use crate::error::OracleError;

verus! {

/// The reserves of an automated market maker as one block left them.
#[derive(Clone, Copy, Debug, PartialEq, Eq, Structural)]
pub struct ReserveSnapshot {
    /// Fixed-point quote asset reserve.
    pub quote_asset_reserve: u128,
    /// Fixed-point base asset reserve.
    pub base_asset_reserve: u128,
    /// Seconds since the epoch.
    pub timestamp: u64,
    pub block_height: u64,
}

/// Reserve snapshots under one global counter: the snapshot of counter value
/// `c` (from 1) is the `c`-th that was appended, as last amended.
#[derive(Debug)]
pub struct ReserveSnapshotStore {
    counter: u64,
    snapshots: Vec<ReserveSnapshot>,
}

/// The snapshot stored under counter value `height`, if any.
pub open spec fn snapshot_at(snapshots: Seq<ReserveSnapshot>, height: int) -> Result<
    ReserveSnapshot,
    OracleError,
> {
    if 1 <= height <= snapshots.len() {
        Ok(snapshots[height - 1])
    } else {
        Err(OracleError::NotFound)
    }
}

impl ReserveSnapshotStore {
    /// The snapshots, the one of counter value `c` at index `c - 1`.
    pub closed spec fn view(&self) -> Seq<ReserveSnapshot> {
        self.snapshots@
    }

    /// The counter names the most recent snapshot.
    pub closed spec fn wf(&self) -> bool {
        self.counter == self.snapshots@.len()
    }

    /// An empty store, its counter at zero.
    pub fn new() -> (r: Self)
        ensures
            r.wf(),
            r@ == Seq::<ReserveSnapshot>::empty(),
    {
        ReserveSnapshotStore { counter: 0, snapshots: Vec::new() }
    }

    /// The current counter value: the number of snapshots appended so far.
    pub fn read_reserve_snapshot_counter(&self) -> (r: u64)
        requires
            self.wf(),
        ensures
            r == self@.len(),
    {
        self.counter
    }

    /// The snapshot under counter value `height`; `NotFound` where none is.
    pub fn read_reserve_snapshot(&self, height: u64) -> (r: Result<ReserveSnapshot, OracleError>)
        requires
            self.wf(),
        ensures
            r == snapshot_at(self@, height as int),
    {
        if height == 0 || height > self.counter {
            Err(OracleError::NotFound)
        } else {
            let n: usize = self.snapshots.len();
            assert(height - 1 < n);
            Ok(self.snapshots[(height - 1) as usize])
        }
    }

    /// Advances the counter by one; `ArithmeticError` at `u64::MAX`.
    fn increment_reserve_snapshot_counter(&mut self) -> (r: Result<(), OracleError>)
        requires
            old(self).wf(),
        ensures
            final(self).snapshots == old(self).snapshots,
            r is Ok <==> old(self).counter < u64::MAX,
            r is Ok ==> final(self).counter == old(self).counter + 1,
            r is Err ==> *final(self) == *old(self) && r == Err::<(), OracleError>(
                OracleError::ArithmeticError,
            ),
    {
        match self.counter.checked_add(1) {
            Some(c) => {
                self.counter = c;
                Ok(())
            },
            None => Err(OracleError::ArithmeticError),
        }
    }

    /// Appends `snapshot` under the next counter value. Fails with
    /// `ArithmeticError`, changing nothing, only when the counter is at
    /// `u64::MAX`.
    pub fn store_reserve_snapshot(&mut self, snapshot: ReserveSnapshot) -> (r: Result<
        (),
        OracleError,
    >)
        requires
            old(self).wf(),
        ensures
            final(self).wf(),
            r is Ok <==> old(self)@.len() < u64::MAX,
            r is Ok ==> final(self)@ == old(self)@.push(snapshot),
            r is Err ==> final(self)@ == old(self)@ && r == Err::<(), OracleError>(
                OracleError::ArithmeticError,
            ),
    {
        self.increment_reserve_snapshot_counter()?;
        self.snapshots.push(snapshot);
        Ok(())
    }

    /// Overwrites the snapshot under the current counter value, keeping the
    /// counter; `NoSnapshot`, changing nothing, while no snapshot exists.
    pub fn update_current_reserve_snapshot(&mut self, snapshot: ReserveSnapshot) -> (r: Result<
        (),
        OracleError,
    >)
        requires
            old(self).wf(),
        ensures
            final(self).wf(),
            r is Ok <==> old(self)@.len() > 0,
            final(self)@ == amended(old(self)@, snapshot),
            r is Err ==> r == Err::<(), OracleError>(OracleError::NoSnapshot),
    {
        if self.counter == 0 {
            return Err(OracleError::NoSnapshot);
        }
        let last = self.snapshots.len() - 1;
        self.snapshots.set(last, snapshot);
        Ok(())
    }
}

/// The snapshots after an amend with `s`: the most recent one replaced, if
/// there is one.
pub open spec fn amended(snapshots: Seq<ReserveSnapshot>, s: ReserveSnapshot) -> Seq<ReserveSnapshot> {
    if snapshots.len() > 0 {
        snapshots.update(snapshots.len() - 1, s)
    } else {
        snapshots
    }
}

/// Two amends in a row keep the counter where it was, and the snapshot under
/// it is the second one; without any snapshot both change nothing.
pub proof fn lemma_amend_twice(snapshots: Seq<ReserveSnapshot>, a: ReserveSnapshot, b: ReserveSnapshot)
    ensures
        amended(amended(snapshots, a), b).len() == snapshots.len(),
        snapshots.len() > 0 ==> snapshot_at(amended(amended(snapshots, a), b), snapshots.len() as int)
            == Ok::<ReserveSnapshot, OracleError>(b),
        snapshots.len() == 0 ==> amended(amended(snapshots, a), b) == snapshots,
{
}

} // verus!
