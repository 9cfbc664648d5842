//! Installing to a disk: the checks made before anything is written, and
//! the order of the writes, with what is done when one of them fails. The
//! writes themselves (to the disk, to its boot filesystem) are made by the
//! caller, which reports back how each one went.

use crate::saved::PartitionFilter;
use vstd::prelude::*;

verus! {

/// Why an install was refused before anything was written.
#[derive(Debug, Clone, Copy, PartialEq, Eq)]
pub enum InstallError {
    /// The image location gave no artifact.
    NoArtifacts,
    /// The image location gave more than one artifact.
    MultipleArtifacts,
    /// No signature was found and `--insecure` was not given.
    MissingSignature,
}

/// What the install does with the image it was given.
#[derive(Debug, Clone, Copy, PartialEq, Eq)]
pub struct InstallPlan {
    /// The image is checked against its signature while it is written.
    pub verify_signature: bool,
    /// A missing signature is passed over, as `--insecure` asked.
    pub skip_verification: bool,
    /// Partitions are saved before the image is written, and put back.
    pub save_partitions: bool,
}

/// Decides, before the disk is touched, whether the install may go on:
/// exactly one artifact, and a signature unless none is required or
/// `--insecure` was given.
pub fn plan_install(
    n_artifacts: usize,
    has_signature: bool,
    require_signature: bool,
    insecure: bool,
    save_partitions: &[PartitionFilter],
) -> (r: Result<InstallPlan, InstallError>)
    ensures
        n_artifacts == 0 ==> r == Err::<InstallPlan, InstallError>(InstallError::NoArtifacts),
        n_artifacts > 1 ==> r == Err::<InstallPlan, InstallError>(InstallError::MultipleArtifacts),
        n_artifacts == 1 && !has_signature && require_signature && !insecure ==> r == Err::<
            InstallPlan,
            InstallError,
        >(InstallError::MissingSignature),
        n_artifacts == 1 && (has_signature || !require_signature || insecure) ==> r == Ok::<
            InstallPlan,
            InstallError,
        >(
            InstallPlan {
                verify_signature: has_signature,
                skip_verification: !has_signature && require_signature,
                save_partitions: save_partitions@.len() > 0,
            },
        ),
{
    if n_artifacts == 0 {
        return Err(InstallError::NoArtifacts);
    }
    if n_artifacts > 1 {
        return Err(InstallError::MultipleArtifacts);
    }
    if !has_signature && require_signature && !insecure {
        return Err(InstallError::MissingSignature);
    }
    Ok(
        InstallPlan {
            verify_signature: has_signature,
            skip_verification: !has_signature && require_signature,
            save_partitions: save_partitions.len() > 0,
        },
    )
}

/// What the install is asked to do once the image is on the disk.
#[derive(Debug, Clone, Copy, PartialEq, Eq)]
pub struct WriteConfig {
    pub ignition: bool,
    pub firstboot_kargs: bool,
    /// Kernel arguments to append or delete.
    pub edit_kargs: bool,
    pub platform: bool,
    pub network: bool,
    /// The boot loader is installed from the boot filesystem (s390x).
    pub install_bootloader: bool,
    /// On failure, keep the damaged partition table.
    pub preserve_on_error: bool,
    /// Partitions were saved.
    pub saved: bool,
}

/// The stages of writing a disk, in order.
#[derive(Debug, Clone, Copy, PartialEq, Eq, Structural)]
pub enum WriteStage {
    CopyImage,
    RestorePartitions,
    RereadTable,
    MountBoot,
    WriteIgnition,
    WriteFirstbootKargs,
    EditKargs,
    WritePlatform,
    CopyNetwork,
    InstallBootloader,
    Done,
    Cleanup,
    Failed,
}

/// The place of a stage in the order of the writes.
pub open spec fn rank(s: WriteStage) -> int {
    match s {
        WriteStage::CopyImage => 0,
        WriteStage::RestorePartitions => 1,
        WriteStage::RereadTable => 2,
        WriteStage::MountBoot => 3,
        WriteStage::WriteIgnition => 4,
        WriteStage::WriteFirstbootKargs => 5,
        WriteStage::EditKargs => 6,
        WriteStage::WritePlatform => 7,
        WriteStage::CopyNetwork => 8,
        WriteStage::InstallBootloader => 9,
        WriteStage::Done => 10,
        WriteStage::Cleanup => 11,
        WriteStage::Failed => 12,
    }
}

/// The stage at a place of the order.
pub open spec fn stage_at(k: int) -> WriteStage {
    if k == 0 {
        WriteStage::CopyImage
    } else if k == 1 {
        WriteStage::RestorePartitions
    } else if k == 2 {
        WriteStage::RereadTable
    } else if k == 3 {
        WriteStage::MountBoot
    } else if k == 4 {
        WriteStage::WriteIgnition
    } else if k == 5 {
        WriteStage::WriteFirstbootKargs
    } else if k == 6 {
        WriteStage::EditKargs
    } else if k == 7 {
        WriteStage::WritePlatform
    } else if k == 8 {
        WriteStage::CopyNetwork
    } else if k == 9 {
        WriteStage::InstallBootloader
    } else {
        WriteStage::Done
    }
}

/// The boot filesystem is mounted: something is to be written to it.
pub open spec fn needs_boot(c: WriteConfig) -> bool {
    c.ignition || c.firstboot_kargs || c.edit_kargs || c.platform || c.network || c.install_bootloader
}

/// The stage is one that the configuration asks for. The image copy, the
/// partition restore and the table reread always are.
pub open spec fn enabled(c: WriteConfig, s: WriteStage) -> bool {
    match s {
        WriteStage::MountBoot => needs_boot(c),
        WriteStage::WriteIgnition => c.ignition,
        WriteStage::WriteFirstbootKargs => c.firstboot_kargs,
        WriteStage::EditKargs => c.edit_kargs,
        WriteStage::WritePlatform => c.platform,
        WriteStage::CopyNetwork => c.network,
        WriteStage::InstallBootloader => c.install_bootloader,
        _ => true,
    }
}

/// A stage in which a write is under way.
pub open spec fn working(s: WriteStage) -> bool {
    rank(s) < 10
}

/// `n` is the stage after `s`: the first one after it, in order, that the
/// configuration asks for (`Done` at the end).
pub open spec fn is_next(c: WriteConfig, s: WriteStage, n: WriteStage) -> bool {
    &&& rank(s) < rank(n) <= 10
    &&& enabled(c, n)
    &&& forall|k: int| rank(s) < k < rank(n) ==> !enabled(c, #[trigger] stage_at(k))
}

/// What the caller is to do next.
#[derive(Debug, Clone, Copy, PartialEq, Eq, Structural)]
pub enum WriteAction {
    /// Carry out the stage.
    Run(WriteStage),
    /// Clear the partition table, then write back the saved partitions.
    ClearTable,
    /// Keep the damaged table; keep the saved partitions in a file.
    StashSaved,
    /// Keep the damaged table as it is.
    Preserve,
    /// Report the failure of the install.
    ReportFailure,
    /// Report the success of the install.
    ReportSuccess,
    /// Nothing is left to do.
    Nothing,
}

/// How the last action went.
#[derive(Debug, Clone, Copy, PartialEq, Eq, Structural)]
pub enum WriteEvent {
    Succeeded,
    Failed,
}

/// Where writing a disk stands.
#[derive(Debug, Clone, Copy, PartialEq, Eq)]
pub struct WriteState {
    pub config: WriteConfig,
    pub stage: WriteStage,
}

/// The action that goes with a stage.
pub open spec fn action_of(s: WriteStage) -> WriteAction {
    if s == WriteStage::Done {
        WriteAction::ReportSuccess
    } else {
        WriteAction::Run(s)
    }
}

/// What is done after a failure, before it is reported.
pub open spec fn cleanup_action(c: WriteConfig) -> WriteAction {
    if c.preserve_on_error {
        if c.saved {
            WriteAction::StashSaved
        } else {
            WriteAction::Preserve
        }
    } else {
        WriteAction::ClearTable
    }
}

/// The first state of writing a disk, and its first action: copying the
/// image.
pub fn write_disk_start(config: WriteConfig) -> (r: (WriteState, WriteAction))
    ensures
        r == (WriteState { config, stage: WriteStage::CopyImage }, WriteAction::Run(WriteStage::CopyImage)),
{
    (WriteState { config, stage: WriteStage::CopyImage }, WriteAction::Run(WriteStage::CopyImage))
}

fn following(c: WriteConfig, s: WriteStage) -> (r: WriteStage)
    requires
        working(s),
    ensures
        is_next(c, s, r),
{
    let mut k: u8 = match s {
        WriteStage::CopyImage => 1,
        WriteStage::RestorePartitions => 2,
        WriteStage::RereadTable => 3,
        WriteStage::MountBoot => 4,
        WriteStage::WriteIgnition => 5,
        WriteStage::WriteFirstbootKargs => 6,
        WriteStage::EditKargs => 7,
        WriteStage::WritePlatform => 8,
        WriteStage::CopyNetwork => 9,
        _ => 10,
    };
    let boot = c.ignition || c.firstboot_kargs || c.edit_kargs || c.platform || c.network
        || c.install_bootloader;
    loop
        invariant
            rank(s) < k <= 10,
            boot == needs_boot(c),
            forall|j: int| rank(s) < j < k ==> !enabled(c, #[trigger] stage_at(j)),
        decreases 10 - k,
    {
        let (stage, on) = if k == 1 {
            (WriteStage::RestorePartitions, true)
        } else if k == 2 {
            (WriteStage::RereadTable, true)
        } else if k == 3 {
            (WriteStage::MountBoot, boot)
        } else if k == 4 {
            (WriteStage::WriteIgnition, c.ignition)
        } else if k == 5 {
            (WriteStage::WriteFirstbootKargs, c.firstboot_kargs)
        } else if k == 6 {
            (WriteStage::EditKargs, c.edit_kargs)
        } else if k == 7 {
            (WriteStage::WritePlatform, c.platform)
        } else if k == 8 {
            (WriteStage::CopyNetwork, c.network)
        } else if k == 9 {
            (WriteStage::InstallBootloader, c.install_bootloader)
        } else {
            (WriteStage::Done, true)
        };
        assert(stage == stage_at(k as int) && on == enabled(c, stage) && rank(stage) == k);
        if on {
            return stage;
        }
        k = k + 1;
    }
}

/// One step of writing a disk: from the state and how the last action
/// went, the next state and what to do. A stage that succeeds leads to
/// the next stage the configuration asks for; the first failure leads to
/// the cleanup (clearing the partition table and putting the saved
/// partitions back, unless the table is to be preserved), then to the
/// report of the failure.
pub fn write_disk_step(state: WriteState, event: WriteEvent) -> (r: (WriteState, WriteAction))
    ensures
        r.0.config == state.config,
        working(state.stage) && event == WriteEvent::Succeeded ==> is_next(state.config, state.stage, r.0.stage)
            && r.1 == action_of(r.0.stage),
        working(state.stage) && event == WriteEvent::Failed ==> r.0.stage == WriteStage::Cleanup && r.1
            == cleanup_action(state.config),
        state.stage == WriteStage::Cleanup ==> r.0.stage == WriteStage::Failed && r.1
            == WriteAction::ReportFailure,
        state.stage == WriteStage::Done || state.stage == WriteStage::Failed ==> r == (state, WriteAction::Nothing),
{
    let c = state.config;
    match state.stage {
        WriteStage::Done | WriteStage::Failed => (state, WriteAction::Nothing),
        WriteStage::Cleanup => (WriteState { config: c, stage: WriteStage::Failed }, WriteAction::ReportFailure),
        s => match event {
            WriteEvent::Succeeded => {
                let n = following(c, s);
                let a = match n {
                    WriteStage::Done => WriteAction::ReportSuccess,
                    _ => WriteAction::Run(n),
                };
                (WriteState { config: c, stage: n }, a)
            },
            WriteEvent::Failed => {
                let a = if c.preserve_on_error {
                    if c.saved {
                        WriteAction::StashSaved
                    } else {
                        WriteAction::Preserve
                    }
                } else {
                    WriteAction::ClearTable
                };
                (WriteState { config: c, stage: WriteStage::Cleanup }, a)
            },
        },
    }
}

} // verus!
