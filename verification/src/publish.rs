//! Publishing a staged site in place of the live one.
//!
//! The swap is a protocol of storage operations, each of which can fail.
//! This module decides; the caller performs each operation that it is
//! told and reports back whether it succeeded.

use vstd::prelude::*;
use crate::error::SiteError;
use crate::path::{join_paths, join_relative};
use crate::text::concat;

verus! {

/// How a publication ended.
#[derive(Clone, Copy, Debug, PartialEq, Eq, Structural)]
pub enum PublishOutcome {
    /// The new site is live and the backup is gone.
    Published,
    /// The new site is live; the backup of the prior one could not be
    /// removed and still takes up space.
    PublishedBackupLeft,
    /// The new site is not live, and the live location is as it was.
    FailedUntouched,
    /// The new site is not live; the prior site was put back.
    FailedRestored,
    /// The new site is not live and the prior site could not be put back:
    /// it lies at the backup location.
    FailedBackupKept,
}

/// One storage operation of the protocol.
#[derive(Clone, Copy, Debug, PartialEq, Eq, Structural)]
pub enum PublishAction {
    /// Remove the backup location with all that is in it.
    RemoveBackup,
    /// Find out whether the live location exists.
    ProbeLive,
    /// Rename the live location to the backup location.
    RenameLiveToBackup,
    /// Rename the staging tree to the live location.
    RenameStagingToLive,
    /// Copy the staging tree, in full, to the scratch location.
    CopyStagingToScratch,
    /// Rename the scratch location to the live location.
    RenameScratchToLive,
    /// Remove the scratch location with all that is in it.
    RemoveScratch,
    /// Rename the backup location to the live location.
    RenameBackupToLive,
    /// Nothing is left to do.
    Finish(PublishOutcome),
}

/// Where a publication stands: which operation it waits for.
#[derive(Clone, Copy, Debug, PartialEq, Eq, Structural)]
pub enum PublishState {
    ClearingStale,
    Probing,
    BackingUp,
    Promoting { backed_up: bool },
    Copying { backed_up: bool },
    Installing { backed_up: bool },
    DiscardingScratch { backed_up: bool },
    Restoring,
    Cleaning,
    Finished(PublishOutcome),
}

impl PublishOutcome {
    /// Whether the new site is live.
    pub open spec fn spec_is_published(&self) -> bool {
        *self == PublishOutcome::Published || *self == PublishOutcome::PublishedBackupLeft
    }

    /// Whether the new site is live.
    #[verifier::when_used_as_spec(spec_is_published)]
    pub fn is_published(&self) -> (r: bool)
        ensures
            r == self.spec_is_published(),
    {
        match self {
            PublishOutcome::Published => true,
            PublishOutcome::PublishedBackupLeft => true,
            _ => false,
        }
    }

    /// The result that the deployment reports.
    pub open spec fn spec_result(&self) -> Result<(), SiteError> {
        if self.spec_is_published() {
            Ok(())
        } else {
            Err(SiteError::IOFailure)
        }
    }

    /// The result that the deployment reports: success when the new site
    /// is live, else a storage failure.
    #[verifier::when_used_as_spec(spec_result)]
    pub fn result(&self) -> (r: Result<(), SiteError>)
        ensures
            r == self.spec_result(),
    {
        if self.is_published() {
            Ok(())
        } else {
            Err(SiteError::IOFailure)
        }
    }
}

impl PublishState {
    /// The operation that the caller is to perform in this state.
    pub open spec fn spec_action(&self) -> PublishAction {
        match *self {
            PublishState::ClearingStale => PublishAction::RemoveBackup,
            PublishState::Probing => PublishAction::ProbeLive,
            PublishState::BackingUp => PublishAction::RenameLiveToBackup,
            PublishState::Promoting { .. } => PublishAction::RenameStagingToLive,
            PublishState::Copying { .. } => PublishAction::CopyStagingToScratch,
            PublishState::Installing { .. } => PublishAction::RenameScratchToLive,
            PublishState::DiscardingScratch { .. } => PublishAction::RemoveScratch,
            PublishState::Restoring => PublishAction::RenameBackupToLive,
            PublishState::Cleaning => PublishAction::RemoveBackup,
            PublishState::Finished(outcome) => PublishAction::Finish(outcome),
        }
    }

    /// The state after the pending operation ended, `ok` telling whether it
    /// succeeded (for the probe: whether the live location exists).
    pub open spec fn spec_advance(&self, ok: bool) -> PublishState {
        match *self {
            PublishState::ClearingStale => PublishState::Probing,
            PublishState::Probing => if ok {
                PublishState::BackingUp
            } else {
                PublishState::Promoting { backed_up: false }
            },
            PublishState::BackingUp => if ok {
                PublishState::Promoting { backed_up: true }
            } else {
                PublishState::Finished(PublishOutcome::FailedUntouched)
            },
            PublishState::Promoting { backed_up } => if ok {
                PublishState::Cleaning
            } else {
                PublishState::Copying { backed_up }
            },
            PublishState::Copying { backed_up } => if ok {
                PublishState::Installing { backed_up }
            } else {
                PublishState::DiscardingScratch { backed_up }
            },
            PublishState::Installing { backed_up } => if ok {
                PublishState::Cleaning
            } else {
                PublishState::DiscardingScratch { backed_up }
            },
            PublishState::DiscardingScratch { backed_up } => if backed_up {
                PublishState::Restoring
            } else {
                PublishState::Finished(PublishOutcome::FailedUntouched)
            },
            PublishState::Restoring => if ok {
                PublishState::Finished(PublishOutcome::FailedRestored)
            } else {
                PublishState::Finished(PublishOutcome::FailedBackupKept)
            },
            PublishState::Cleaning => if ok {
                PublishState::Finished(PublishOutcome::Published)
            } else {
                PublishState::Finished(PublishOutcome::PublishedBackupLeft)
            },
            PublishState::Finished(outcome) => PublishState::Finished(outcome),
        }
    }

    /// The state in which every publication starts: a backup left over by
    /// an earlier attempt is removed first.
    pub fn start() -> (r: PublishState)
        ensures
            r == PublishState::ClearingStale,
    {
        PublishState::ClearingStale
    }

    /// The operation that the caller is to perform next.
    #[verifier::when_used_as_spec(spec_action)]
    pub fn action(&self) -> (r: PublishAction)
        ensures
            r == self.spec_action(),
    {
        match *self {
            PublishState::ClearingStale => PublishAction::RemoveBackup,
            PublishState::Probing => PublishAction::ProbeLive,
            PublishState::BackingUp => PublishAction::RenameLiveToBackup,
            PublishState::Promoting { .. } => PublishAction::RenameStagingToLive,
            PublishState::Copying { .. } => PublishAction::CopyStagingToScratch,
            PublishState::Installing { .. } => PublishAction::RenameScratchToLive,
            PublishState::DiscardingScratch { .. } => PublishAction::RemoveScratch,
            PublishState::Restoring => PublishAction::RenameBackupToLive,
            PublishState::Cleaning => PublishAction::RemoveBackup,
            PublishState::Finished(outcome) => PublishAction::Finish(outcome),
        }
    }

    /// Takes in how the pending operation ended and moves on.
    #[verifier::when_used_as_spec(spec_advance)]
    pub fn advance(&self, ok: bool) -> (r: PublishState)
        ensures
            r == self.spec_advance(ok),
    {
        match *self {
            PublishState::ClearingStale => PublishState::Probing,
            PublishState::Probing => if ok {
                PublishState::BackingUp
            } else {
                PublishState::Promoting { backed_up: false }
            },
            PublishState::BackingUp => if ok {
                PublishState::Promoting { backed_up: true }
            } else {
                PublishState::Finished(PublishOutcome::FailedUntouched)
            },
            PublishState::Promoting { backed_up } => if ok {
                PublishState::Cleaning
            } else {
                PublishState::Copying { backed_up }
            },
            PublishState::Copying { backed_up } => if ok {
                PublishState::Installing { backed_up }
            } else {
                PublishState::DiscardingScratch { backed_up }
            },
            PublishState::Installing { backed_up } => if ok {
                PublishState::Cleaning
            } else {
                PublishState::DiscardingScratch { backed_up }
            },
            PublishState::DiscardingScratch { backed_up } => if backed_up {
                PublishState::Restoring
            } else {
                PublishState::Finished(PublishOutcome::FailedUntouched)
            },
            PublishState::Restoring => if ok {
                PublishState::Finished(PublishOutcome::FailedRestored)
            } else {
                PublishState::Finished(PublishOutcome::FailedBackupKept)
            },
            PublishState::Cleaning => if ok {
                PublishState::Finished(PublishOutcome::Published)
            } else {
                PublishState::Finished(PublishOutcome::PublishedBackupLeft)
            },
            PublishState::Finished(outcome) => PublishState::Finished(outcome),
        }
    }

    /// How far the publication is from its end: an upper bound on the
    /// operations that are still to come.
    pub open spec fn remaining(&self) -> nat {
        match *self {
            PublishState::ClearingStale => 9,
            PublishState::Probing => 8,
            PublishState::BackingUp => 7,
            PublishState::Promoting { .. } => 6,
            PublishState::Copying { .. } => 5,
            PublishState::Installing { .. } => 4,
            PublishState::DiscardingScratch { .. } => 3,
            PublishState::Restoring => 2,
            PublishState::Cleaning => 1,
            PublishState::Finished(_) => 0,
        }
    }
}

/// The locations that a publication works on.
#[derive(Debug)]
pub struct SitePaths {
    /// Where the user's site is served from.
    pub live: String,
    /// Where the prior site waits while the new one moves in.
    pub backup: String,
    /// Where a copy of the staging tree is assembled when it cannot be
    /// renamed into place.
    pub scratch: String,
}

/// The live location of a user's site below the sandbox root.
pub open spec fn live_path_of(sites_dir: Seq<char>, username: Seq<char>) -> Seq<char> {
    join_paths(sites_dir, username)
}

/// The backup location: the live one with `.old` added.
pub open spec fn backup_path_of(sites_dir: Seq<char>, username: Seq<char>) -> Seq<char> {
    join_paths(sites_dir, username + ".old"@)
}

/// The scratch location: a hidden sibling of the live one.
pub open spec fn scratch_path_of(sites_dir: Seq<char>, username: Seq<char>) -> Seq<char> {
    join_paths(sites_dir, "."@ + username + ".new"@)
}

/// The locations for publishing the site of `username` below `sites_dir`.
pub fn site_paths(sites_dir: &str, username: &str) -> (r: SitePaths)
    ensures
        r.live@ == live_path_of(sites_dir@, username@),
        r.backup@ == backup_path_of(sites_dir@, username@),
        r.scratch@ == scratch_path_of(sites_dir@, username@),
{
    let backup_name = concat(username, ".old");
    let hidden = concat(".", username);
    let scratch_name = concat(hidden.as_str(), ".new");
    SitePaths {
        live: join_relative(sites_dir, username),
        backup: join_relative(sites_dir, backup_name.as_str()),
        scratch: join_relative(sites_dir, scratch_name.as_str()),
    }
}

/// What a location holds, as far as the protocol cares.
#[derive(Debug, PartialEq, Eq, Structural)]
pub enum Slot {
    /// Nothing.
    Empty,
    /// The site that was live before the publication began.
    Prior,
    /// The new site, complete.
    Fresh,
    /// Remains of something: a stale backup, or a copy that broke off.
    Partial,
}

/// The three locations of a publication.
#[derive(Debug)]
pub struct Disk {
    pub live: Slot,
    pub backup: Slot,
    pub scratch: Slot,
}

/// What removing a location leaves when it fails: nothing where nothing
/// was, remains otherwise.
pub open spec fn after_failed_removal(slot: Slot) -> Slot {
    if slot == Slot::Empty {
        Slot::Empty
    } else {
        Slot::Partial
    }
}

/// What an operation does to the locations. A rename moves everything or,
/// failing, nothing; a copy that fails leaves remains; a removal that fails
/// may have removed a part.
pub open spec fn effect(action: PublishAction, ok: bool, disk: Disk) -> Disk {
    match action {
        PublishAction::RemoveBackup => Disk {
            backup: if ok {
                Slot::Empty
            } else {
                after_failed_removal(disk.backup)
            },
            ..disk
        },
        PublishAction::ProbeLive => disk,
        PublishAction::RenameLiveToBackup => if ok {
            Disk { live: Slot::Empty, backup: disk.live, ..disk }
        } else {
            disk
        },
        PublishAction::RenameStagingToLive => if ok {
            Disk { live: Slot::Fresh, ..disk }
        } else {
            disk
        },
        PublishAction::CopyStagingToScratch => Disk {
            scratch: if ok {
                Slot::Fresh
            } else {
                Slot::Partial
            },
            ..disk
        },
        PublishAction::RenameScratchToLive => if ok {
            Disk { live: disk.scratch, scratch: Slot::Empty, ..disk }
        } else {
            disk
        },
        PublishAction::RemoveScratch => Disk {
            scratch: if ok {
                Slot::Empty
            } else {
                after_failed_removal(disk.scratch)
            },
            ..disk
        },
        PublishAction::RenameBackupToLive => if ok {
            Disk { live: disk.backup, backup: Slot::Empty, ..disk }
        } else {
            disk
        },
        PublishAction::Finish(_) => disk,
    }
}

/// Whether the operation can end as `ok` says: the probe answers what is
/// there; every other operation may succeed or fail.
pub open spec fn possible(action: PublishAction, ok: bool, disk: Disk) -> bool {
    action == PublishAction::ProbeLive ==> ok == (disk.live != Slot::Empty)
}

/// What the live location held before the publication began.
pub open spec fn prior_slot(had_site: bool) -> Slot {
    if had_site {
        Slot::Prior
    } else {
        Slot::Empty
    }
}

/// What holds of the locations in each state of a publication, `had_site`
/// telling whether a site was live when it began.
pub open spec fn consistent(state: PublishState, disk: Disk, had_site: bool) -> bool {
    match state {
        PublishState::ClearingStale => disk.live == prior_slot(had_site),
        PublishState::Probing => disk.live == prior_slot(had_site),
        PublishState::BackingUp => had_site && disk.live == Slot::Prior,
        PublishState::Promoting { backed_up } => awaiting_new_site(disk, had_site, backed_up),
        PublishState::Copying { backed_up } => awaiting_new_site(disk, had_site, backed_up),
        PublishState::Installing { backed_up } => awaiting_new_site(disk, had_site, backed_up)
            && disk.scratch == Slot::Fresh,
        PublishState::DiscardingScratch { backed_up } => awaiting_new_site(
            disk,
            had_site,
            backed_up,
        ),
        PublishState::Restoring => awaiting_new_site(disk, had_site, true),
        PublishState::Cleaning => disk.live == Slot::Fresh,
        PublishState::Finished(outcome) => match outcome {
            PublishOutcome::Published => disk.live == Slot::Fresh,
            PublishOutcome::PublishedBackupLeft => disk.live == Slot::Fresh,
            PublishOutcome::FailedUntouched => disk.live == prior_slot(had_site),
            PublishOutcome::FailedRestored => had_site && disk.live == Slot::Prior,
            PublishOutcome::FailedBackupKept => had_site && disk.live == Slot::Empty && disk.backup
                == Slot::Prior,
        },
    }
}

/// The live location is free for the new site: either no site was live, or
/// the prior one waits at the backup location.
pub open spec fn awaiting_new_site(disk: Disk, had_site: bool, backed_up: bool) -> bool {
    disk.live == Slot::Empty && had_site == backed_up && (backed_up ==> disk.backup == Slot::Prior)
}

/// Whether the prior site can still be had: it is live, or it lies at the
/// backup location.
pub open spec fn prior_site_is_kept(disk: Disk) -> bool {
    disk.live == Slot::Prior || disk.backup == Slot::Prior
}

/// At its start a publication is consistent with any locations whose live
/// one holds the prior site or nothing.
pub proof fn law_publication_starts_consistent(disk: Disk, had_site: bool)
    requires
        disk.live == prior_slot(had_site),
    ensures
        consistent(PublishState::ClearingStale, disk, had_site),
{
}

/// Every step keeps the publication consistent with the locations,
/// however the operation ends.
pub proof fn law_publication_stays_consistent(
    state: PublishState,
    disk: Disk,
    had_site: bool,
    ok: bool,
)
    requires
        consistent(state, disk, had_site),
        possible(state.spec_action(), ok, disk),
    ensures
        consistent(state.spec_advance(ok), effect(state.spec_action(), ok, disk), had_site),
{
}

/// Until the new site is live, the prior site is never lost: in every
/// state but those after a successful promotion it is live or lies at the
/// backup location.
pub proof fn law_prior_site_survives(state: PublishState, disk: Disk, had_site: bool)
    requires
        consistent(state, disk, had_site),
        had_site,
    ensures
        prior_site_is_kept(disk) || disk.live == Slot::Fresh,
        state matches PublishState::Finished(outcome) && !outcome.spec_is_published()
            ==> prior_site_is_kept(disk),
{
}

/// A publication that ends in success has the new site live; one that
/// ends in failure reports a storage failure and has the prior site live
/// or, at worst, at the backup location.
pub proof fn law_publication_outcome(outcome: PublishOutcome, disk: Disk, had_site: bool)
    requires
        consistent(PublishState::Finished(outcome), disk, had_site),
    ensures
        outcome.spec_result() is Ok <==> disk.live == Slot::Fresh,
        outcome.spec_result() is Err ==> outcome.spec_result() == Err::<(), SiteError>(
            SiteError::IOFailure,
        ),
        outcome.spec_result() is Err && had_site ==> prior_site_is_kept(disk),
        outcome.spec_result() is Err && !had_site ==> disk.live == Slot::Empty,
{
}

/// The state in which the new site is to move in while the prior one
/// waits at the backup location.
pub open spec fn promoting_after_backup() -> PublishState {
    PublishState::Promoting { backed_up: true }
}

/// A failure to move the new site into place, after the prior site went
/// to the backup location, is followed by the attempt to put it back:
/// whether the copy failed, or the copy succeeded and could not be moved
/// in.
pub proof fn law_failed_promotion_restores(ok_discard: bool)
    ensures
        promoting_after_backup().spec_advance(false).spec_advance(false).spec_advance(
            ok_discard,
        ).spec_action() == PublishAction::RenameBackupToLive,
        promoting_after_backup().spec_advance(false).spec_advance(true).spec_advance(
            false,
        ).spec_advance(ok_discard).spec_action() == PublishAction::RenameBackupToLive,
{
}

/// Every step brings a publication nearer to its end, so that it ends
/// after at most nine operations.
pub proof fn law_publication_ends(state: PublishState, ok: bool)
    ensures
        state.spec_advance(ok).remaining() < state.remaining() || (state is Finished),
        state.remaining() == 0 <==> (state is Finished),
{
}

} // verus!
