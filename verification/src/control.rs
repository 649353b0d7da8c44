//! What the user of a repository controls: the provider of the files, the
//! policy for snapshots, and the user data in the headers of files.

use vstd::prelude::*;
use crate::detail::part::PartIO;
use crate::detail::part::capped;
use crate::error::Error;
use crate::readwrite::header::FileHeader;
use crate::readwrite::header::UserData;

verus! {

/// A policy for snapshots: it is told of the commits and edits since the
/// last snapshot and says when the next one is due.
pub trait SnapshotPolicy {
    /// Records that there is a fresh snapshot.
    fn reset(&mut self);

    /// Records that a snapshot is needed in any case, until the next one is
    /// made.
    fn force_snapshot(&mut self);

    /// Records so many commits and edits.
    fn count(&mut self, commits: usize, edits: usize);

    /// Whether a snapshot is due.
    fn want_snapshot(&self) -> bool;
}

/// The default policy: a snapshot is due when five times the commits and
/// the edits since the last one are above 150. A snapshot that was asked for
/// stays due until the next one is made.
#[derive(Clone, Copy, Debug, PartialEq, Eq, Structural)]
pub struct DefaultSnapshot {
    pub counter: usize,
}

/// Five times the commits and the edits, held at the largest count where
/// they would pass it.
pub open spec fn weight(commits: usize, edits: usize) -> usize {
    if commits * 5 + edits > usize::MAX {
        usize::MAX
    } else {
        (commits * 5 + edits) as usize
    }
}

impl DefaultSnapshot {
    /// Whether a snapshot is due.
    pub open spec fn wants(&self) -> bool {
        self.counter > 150
    }

    /// The policy after a snapshot was made.
    pub open spec fn after_reset(&self) -> Self {
        DefaultSnapshot { counter: 0 }
    }

    /// The policy after a snapshot was asked for.
    pub open spec fn after_force(&self) -> Self {
        DefaultSnapshot { counter: 1000 }
    }

    /// The policy after so many commits and edits.
    pub open spec fn after_count(&self, commits: usize, edits: usize) -> Self {
        DefaultSnapshot { counter: capped(self.counter, weight(commits, edits)) }
    }

    /// The policy of a partition with a fresh snapshot.
    pub fn new() -> (p: DefaultSnapshot)
        ensures
            p.counter == 0,
            !p.wants(),
    {
        DefaultSnapshot { counter: 0 }
    }
}

impl SnapshotPolicy for DefaultSnapshot {
    fn reset(&mut self)
        ensures
            *final(self) == old(self).after_reset(),
    {
        self.counter = 0;
    }

    fn force_snapshot(&mut self)
        ensures
            *final(self) == old(self).after_force(),
    {
        self.counter = 1000;
    }

    fn count(&mut self, commits: usize, edits: usize)
        ensures
            *final(self) == old(self).after_count(commits, edits),
    {
        let five = if commits > usize::MAX / 5 {
            usize::MAX
        } else {
            commits * 5
        };
        let more = if edits > usize::MAX - five {
            usize::MAX
        } else {
            five + edits
        };
        self.counter = if more > usize::MAX - self.counter {
            usize::MAX
        } else {
            self.counter + more
        };
    }

    fn want_snapshot(&self) -> (r: bool)
        ensures
            r == self.wants(),
    {
        self.counter > 150
    }
}

impl SnapshotPolicy for crate::detail::part::SnapshotPolicy {
    fn reset(&mut self)
        ensures
            *final(self) == old(self).cleared(),
    {
        crate::detail::part::SnapshotPolicy::reset(self);
    }

    fn force_snapshot(&mut self)
        ensures
            *final(self) == (crate::detail::part::SnapshotPolicy { commits: 1000, ..*old(self) }),
    {
        self.require();
    }

    fn count(&mut self, commits: usize, edits: usize)
        ensures
            *final(self) == old(self).with_commits(commits).with_edits(edits),
    {
        self.add_commits(commits);
        self.add_edits(edits);
    }

    fn want_snapshot(&self) -> (r: bool)
        ensures
            r == self.due(),
    {
        self.snapshot()
    }
}

/// What the user of a repository controls.
pub trait Control {
    /// The provider of the files.
    type IO: PartIO;

    /// The policy for snapshots.
    type Policy: SnapshotPolicy;

    /// The provider of the files.
    fn io(&self) -> &Self::IO;

    /// The policy for snapshots.
    fn snapshot_policy(&self) -> &Self::Policy;

    /// The user data for the header of a new file, of which everything but
    /// the user data is given.
    fn make_user_data(&mut self, header: &FileHeader) -> Result<Vec<UserData>, Error>;

    /// Takes note of the header of a file that is loaded. An error stops the
    /// loading of that file.
    fn read_header(&mut self, header: &FileHeader) -> Result<(), Error>;
}

/// A control with the default policy for snapshots, without user data.
pub struct DefaultControl<IO: PartIO> {
    pub io: IO,
    pub ss_policy: DefaultSnapshot,
}

impl<IO: PartIO> DefaultControl<IO> {
    /// The control of the files of `io`.
    pub fn new(io: IO) -> (c: Self)
        ensures
            c.io == io,
            c.ss_policy == (DefaultSnapshot { counter: 0 }),
    {
        DefaultControl { io: io, ss_policy: DefaultSnapshot::new() }
    }

    /// The provider of the files.
    pub fn io(&self) -> (io: &IO)
        ensures
            *io == self.io,
    {
        &self.io
    }

    /// The provider of the files, to change it.
    pub fn io_mut(&mut self) -> (io: &mut IO)
        ensures
            *io == old(self).io,
            final(self).io == *final(io),
            final(self).ss_policy == old(self).ss_policy,
    {
        &mut self.io
    }

    /// Gives the provider of the files back.
    pub fn unwrap_io(self) -> (io: IO)
        ensures
            io == self.io,
    {
        self.io
    }
}

impl<IO: PartIO> Control for DefaultControl<IO> {
    type IO = IO;

    type Policy = DefaultSnapshot;

    /// The provider that the control was made with.
    fn io(&self) -> (io: &IO)
        ensures
            *io == self.io,
    {
        &self.io
    }

    /// The default policy, with what it has counted.
    fn snapshot_policy(&self) -> (policy: &DefaultSnapshot)
        ensures
            *policy == self.ss_policy,
    {
        &self.ss_policy
    }

    /// No user data, whatever the header.
    fn make_user_data(&mut self, _header: &FileHeader) -> (r: Result<Vec<UserData>, Error>)
        ensures
            r matches Ok(user) && user@.len() == 0,
            final(self).io == old(self).io,
            final(self).ss_policy == old(self).ss_policy,
    {
        Ok(Vec::new())
    }

    /// Every header is accepted, and no note is taken of it.
    fn read_header(&mut self, _header: &FileHeader) -> (r: Result<(), Error>)
        ensures
            r is Ok,
            final(self).io == old(self).io,
            final(self).ss_policy == old(self).ss_policy,
    {
        Ok(())
    }
}

/// With the default policy, a snapshot that was asked for is due, and a
/// snapshot that is due stays due whatever is counted.
pub proof fn law_due_until_reset(p: DefaultSnapshot, commits: usize, edits: usize)
    ensures
        p.after_force().wants(),
        p.wants() ==> p.after_count(commits, edits).wants(),
        !p.after_reset().wants(),
{
}

} // verus!
