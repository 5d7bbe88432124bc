//! Which versions of a key a compaction keeps.
//!
//! A merge hands out entries in order of their user keys, and the versions of
//! one user key newest first. A strategy decides about each of them in turn.
//!
//! - `BottommostStrategy` keeps the newest version of each key, and drops it
//!   too where it is a tombstone. That is right where nothing below the output
//!   and no snapshot can see an older version.
//! - `SnapshotAwareStrategy` also keeps the newest version that a snapshot can
//!   see, tombstone or not.
//! - `PassthroughStrategy` keeps everything.

use crate::format::internal_key::{InternalKey, KeyParts, ValueType};
use vstd::prelude::*;

verus! {

/// What becomes of one version of a key.
#[derive(Debug, Clone, Copy, PartialEq, Eq, Structural)]
pub enum KeepDecision {
    /// It goes into the output.
    Keep,
    /// It does not.
    Drop,
}

/// `Keep` or `Drop`.
pub open spec fn decision(keep: bool) -> KeepDecision {
    if keep {
        KeepDecision::Keep
    } else {
        KeepDecision::Drop
    }
}

/// Decides about one version after the other.
///
/// `keeps` says what becomes of a version when a strategy is in some state,
/// and `after` which state it is in then.
pub trait CompactionStrategy {
    type State;

    spec fn state(&self) -> Self::State;

    spec fn keeps(state: Self::State, key: KeyParts, first: bool) -> bool;

    spec fn after(state: Self::State, key: KeyParts, first: bool) -> Self::State;

    /// `is_first_for_key` is true exactly for the newest version of a user
    /// key.
    fn decide(&mut self, ik: &InternalKey<'_>, is_first_for_key: bool) -> (r: KeepDecision)
        ensures
            r == decision(Self::keeps(old(self).state(), ik@, is_first_for_key)),
            final(self).state() == Self::after(old(self).state(), ik@, is_first_for_key),
    ;
}

/// Whether a version only hides older ones.
fn is_tombstone(value_type: ValueType) -> (r: bool)
    ensures
        r == value_type.is_tombstone(),
{
    match value_type {
        ValueType::Deletion => true,
        ValueType::SingleDeletion => true,
        _ => false,
    }
}

/// Keeps the newest version of each key unless it is a tombstone.
#[derive(Debug, Clone, Copy)]
pub struct BottommostStrategy;

impl Default for BottommostStrategy {
    fn default() -> (r: Self)
        ensures
            r == BottommostStrategy,
    {
        BottommostStrategy
    }
}

impl CompactionStrategy for BottommostStrategy {
    type State = ();

    open spec fn state(&self) -> () {
        ()
    }

    open spec fn keeps(state: (), key: KeyParts, first: bool) -> bool {
        first && !key.value_type.is_tombstone()
    }

    open spec fn after(state: (), key: KeyParts, first: bool) -> () {
        ()
    }

    fn decide(&mut self, ik: &InternalKey<'_>, is_first_for_key: bool) -> (r: KeepDecision) {
        if !is_first_for_key {
            return KeepDecision::Drop;
        }
        if is_tombstone(ik.value_type) {
            return KeepDecision::Drop;
        }
        KeepDecision::Keep
    }
}

/// Keeps the newest version of each key, and the newest one that a snapshot
/// can see.
pub struct SnapshotAwareStrategy {
    snapshot_seqno: u64,
    /// Whether a version that the snapshot can see has been kept of the
    /// current key.
    kept_visible_version_for_current_key: bool,
}

impl SnapshotAwareStrategy {
    /// The snapshot sees versions up to `snapshot_seqno`.
    pub fn new(snapshot_seqno: u64) -> (r: Self)
        ensures
            r.state() == (snapshot_seqno, false),
    {
        SnapshotAwareStrategy { snapshot_seqno, kept_visible_version_for_current_key: false }
    }
}

impl CompactionStrategy for SnapshotAwareStrategy {
    /// The snapshot, and whether its version of the current key was kept.
    type State = (u64, bool);

    closed spec fn state(&self) -> (u64, bool) {
        (self.snapshot_seqno, self.kept_visible_version_for_current_key)
    }

    open spec fn keeps(state: (u64, bool), key: KeyParts, first: bool) -> bool {
        first || !state.1 && key.sequence <= state.0
    }

    open spec fn after(state: (u64, bool), key: KeyParts, first: bool) -> (u64, bool) {
        (state.0, !first && state.1 || key.sequence <= state.0)
    }

    fn decide(&mut self, ik: &InternalKey<'_>, is_first_for_key: bool) -> (r: KeepDecision) {
        if is_first_for_key {
            // The newest version is kept whatever it is. Where the snapshot
            // can see it, it is also the one for the snapshot.
            self.kept_visible_version_for_current_key = ik.sequence <= self.snapshot_seqno;
            return KeepDecision::Keep;
        }
        if self.kept_visible_version_for_current_key {
            return KeepDecision::Drop;
        }
        if ik.sequence <= self.snapshot_seqno {
            // The first version that the snapshot can see. A tombstone counts:
            // the snapshot has to find the key deleted.
            self.kept_visible_version_for_current_key = true;
            return KeepDecision::Keep;
        }
        KeepDecision::Drop
    }
}

/// Keeps everything.
#[derive(Debug, Clone, Copy)]
pub struct PassthroughStrategy;

impl Default for PassthroughStrategy {
    fn default() -> (r: Self)
        ensures
            r == PassthroughStrategy,
    {
        PassthroughStrategy
    }
}

impl CompactionStrategy for PassthroughStrategy {
    type State = ();

    open spec fn state(&self) -> () {
        ()
    }

    open spec fn keeps(state: (), key: KeyParts, first: bool) -> bool {
        true
    }

    open spec fn after(state: (), key: KeyParts, first: bool) -> () {
        ()
    }

    fn decide(&mut self, _ik: &InternalKey<'_>, _is_first_for_key: bool) -> (r: KeepDecision) {
        KeepDecision::Keep
    }
}

} // verus!
