//! The steps that mount and unmount an archive.
use vstd::prelude::*;
use crate::outcome::Failure;

verus! {

/// A step towards a mounted archive. The outcome of each decides on the next.
#[derive(Debug, Clone, Copy, PartialEq, Eq, Structural)]
pub enum MountStep {
    /// Open the archive and mount it from within this process.
    Direct,
    /// Make the directory at which another process will mount the archive.
    MakeMountPoint,
    /// Start that process.
    StartHelper,
    /// The archive is mounted by this process.
    Mounted,
    /// The archive is being mounted by another process.
    HelperStarted,
    /// The archive is not mounted.
    Failed(Failure),
}

/// The step after `step`. Where an archive becomes a drive, only this process can mount it.
pub open spec fn mount_following(step: MountStep, succeeded: bool, as_drive: bool) -> MountStep {
    match step {
        MountStep::Direct => if succeeded {
            MountStep::Mounted
        } else if as_drive {
            MountStep::Failed(Failure::OpenForMount)
        } else {
            MountStep::MakeMountPoint
        },
        MountStep::MakeMountPoint => if succeeded {
            MountStep::StartHelper
        } else {
            MountStep::Failed(Failure::MountPoint)
        },
        MountStep::StartHelper => if succeeded {
            MountStep::HelperStarted
        } else {
            MountStep::Failed(Failure::Mount)
        },
        _ => step,
    }
}

/// The step after `step`.
pub fn next_mount_step(step: MountStep, succeeded: bool, as_drive: bool) -> (r: MountStep)
    ensures
        r == mount_following(step, succeeded, as_drive),
{
    match step {
        MountStep::Direct => {
            if succeeded {
                MountStep::Mounted
            } else if as_drive {
                MountStep::Failed(Failure::OpenForMount)
            } else {
                MountStep::MakeMountPoint
            }
        },
        MountStep::MakeMountPoint => {
            if succeeded {
                MountStep::StartHelper
            } else {
                MountStep::Failed(Failure::MountPoint)
            }
        },
        MountStep::StartHelper => {
            if succeeded {
                MountStep::HelperStarted
            } else {
                MountStep::Failed(Failure::Mount)
            }
        },
        MountStep::Mounted => MountStep::Mounted,
        MountStep::HelperStarted => MountStep::HelperStarted,
        MountStep::Failed(failure) => MountStep::Failed(failure),
    }
}

/// Three steps decide whether an archive is mounted, and a failure is reported only when the last
/// way to mount it has failed.
pub proof fn law_mounting_ends(first: bool, second: bool, third: bool, as_drive: bool)
    ensures
        ({
            let one = mount_following(MountStep::Direct, first, as_drive);
            let two = mount_following(one, second, as_drive);
            let end = mount_following(two, third, as_drive);
            &&& end is Mounted <==> first
            &&& end is HelperStarted <==> !first && !as_drive && second && third
            &&& end is Failed <==> !first && (as_drive || !second || !third)
        }),
{
}

/// How many times a process that mounts an archive is given a moment to end by itself.
pub const MAX_PROBES: u8 = 50;

/// A step. The outcome of each decides on the next.
#[derive(Debug, Clone, Copy, PartialEq, Eq, Structural)]
pub enum UnmountStep {
    /// Run the command for this attempt.
    Release(u8),
    /// See whether the process still runs, and wait a moment if so. Counts what came before.
    Probe(u8),
    /// Ask the process to end.
    Terminate,
    /// The archive is unmounted.
    Done,
    /// The archive is still mounted.
    Failed,
}

/// The program and the option for an attempt: both programs, then both again without waiting for
/// files that are in use.
pub open spec fn release_words(attempt: u8) -> (Seq<char>, Seq<char>) {
    (
        if attempt % 2 == 0 {
            "fusermount3"@
        } else {
            "fusermount"@
        },
        if attempt < 2 {
            "-u"@
        } else {
            "-uz"@
        },
    )
}

/// The program and the option for an attempt.
pub fn release_command(attempt: u8) -> (r: (&'static str, &'static str))
    ensures
        (r.0@, r.1@) == release_words(attempt),
{
    (
        if attempt % 2 == 0 {
            "fusermount3"
        } else {
            "fusermount"
        },
        if attempt < 2 {
            "-u"
        } else {
            "-uz"
        },
    )
}

/// What follows once the archive is no longer mounted.
pub open spec fn after_release(has_process: bool) -> UnmountStep {
    if has_process {
        UnmountStep::Probe(0)
    } else {
        UnmountStep::Done
    }
}

/// The first step.
pub fn first_step(mount_point: &str, has_process: bool) -> (r: UnmountStep)
    ensures
        r == if mount_point@.len() > 0 {
            UnmountStep::Release(0)
        } else {
            after_release(has_process)
        },
{
    if !mount_point.is_empty() {
        UnmountStep::Release(0)
    } else if has_process {
        UnmountStep::Probe(0)
    } else {
        UnmountStep::Done
    }
}

/// The step after `step`, where the command succeeded or not.
pub open spec fn following(step: UnmountStep, succeeded: bool, has_process: bool) -> UnmountStep {
    match step {
        UnmountStep::Release(attempt) => if succeeded {
            after_release(has_process)
        } else if attempt < 3 {
            UnmountStep::Release((attempt + 1) as u8)
        } else {
            UnmountStep::Failed
        },
        UnmountStep::Probe(count) => if !succeeded {
            UnmountStep::Done
        } else if count + 1 < MAX_PROBES {
            UnmountStep::Probe((count + 1) as u8)
        } else {
            UnmountStep::Terminate
        },
        UnmountStep::Terminate => UnmountStep::Done,
        UnmountStep::Done => UnmountStep::Done,
        UnmountStep::Failed => UnmountStep::Failed,
    }
}

/// The step after `step`, where the command succeeded or not.
pub fn next_step(step: UnmountStep, succeeded: bool, has_process: bool) -> (r: UnmountStep)
    ensures
        r == following(step, succeeded, has_process),
{
    match step {
        UnmountStep::Release(attempt) => {
            if succeeded {
                if has_process {
                    UnmountStep::Probe(0)
                } else {
                    UnmountStep::Done
                }
            } else if attempt < 3 {
                UnmountStep::Release(attempt + 1)
            } else {
                UnmountStep::Failed
            }
        },
        UnmountStep::Probe(count) => {
            if !succeeded {
                UnmountStep::Done
            } else if count < MAX_PROBES - 1 {
                UnmountStep::Probe(count + 1)
            } else {
                UnmountStep::Terminate
            }
        },
        UnmountStep::Terminate => UnmountStep::Done,
        UnmountStep::Done => UnmountStep::Done,
        UnmountStep::Failed => UnmountStep::Failed,
    }
}

/// The most steps that can follow `step` before all is over.
pub open spec fn steps_left(step: UnmountStep) -> int {
    match step {
        UnmountStep::Release(attempt) => if attempt < 3 {
            MAX_PROBES + 5 - attempt
        } else {
            MAX_PROBES + 2
        },
        UnmountStep::Probe(count) => if count < MAX_PROBES {
            MAX_PROBES + 1 - count
        } else {
            2
        },
        UnmountStep::Terminate => 1,
        UnmountStep::Done => 0,
        UnmountStep::Failed => 0,
    }
}

/// Every step brings the end nearer, whatever its outcome.
pub proof fn law_unmount_ends(step: UnmountStep, succeeded: bool, has_process: bool)
    requires
        !(step is Done),
        !(step is Failed),
    ensures
        0 <= steps_left(following(step, succeeded, has_process)) < steps_left(step),
{
}

/// An archive counts as still mounted only after the last attempt to release it, and never once
/// one of them succeeded.
pub proof fn law_unmount_failure(step: UnmountStep, succeeded: bool, has_process: bool)
    requires
        !(step is Failed),
    ensures
        following(step, succeeded, has_process) is Failed <==> !succeeded && step is Release
            && step->Release_0 >= 3,
{
}

} // verus!
