use coreos_installer::install::{
    plan_install, write_disk_start, write_disk_step, InstallError, InstallPlan, WriteAction,
    WriteConfig, WriteEvent, WriteStage,
};
use coreos_installer::saved::PartitionFilter;

#[test]
fn install_plans() {
    assert_eq!(plan_install(0, true, true, false, &[]), Err(InstallError::NoArtifacts));
    assert_eq!(plan_install(2, true, true, false, &[]), Err(InstallError::MultipleArtifacts));
    assert_eq!(plan_install(1, false, true, false, &[]), Err(InstallError::MissingSignature));
    assert_eq!(
        plan_install(1, false, true, true, &[]),
        Ok(InstallPlan { verify_signature: false, skip_verification: true, save_partitions: false })
    );
    assert_eq!(
        plan_install(1, false, false, false, &[PartitionFilter::Index(Some(1), None)]),
        Ok(InstallPlan { verify_signature: false, skip_verification: false, save_partitions: true })
    );
    assert_eq!(
        plan_install(1, true, true, false, &[]),
        Ok(InstallPlan { verify_signature: true, skip_verification: false, save_partitions: false })
    );
}

fn config() -> WriteConfig {
    WriteConfig {
        ignition: true,
        firstboot_kargs: false,
        edit_kargs: true,
        platform: false,
        network: true,
        install_bootloader: false,
        preserve_on_error: false,
        saved: true,
    }
}

#[test]
fn write_disk_in_order() {
    let (mut state, mut action) = write_disk_start(config());
    let mut actions = vec![action];
    while action != WriteAction::Nothing {
        let (s, a) = write_disk_step(state, WriteEvent::Succeeded);
        state = s;
        action = a;
        actions.push(a);
    }
    assert_eq!(
        actions,
        vec![
            WriteAction::Run(WriteStage::CopyImage),
            WriteAction::Run(WriteStage::RestorePartitions),
            WriteAction::Run(WriteStage::RereadTable),
            WriteAction::Run(WriteStage::MountBoot),
            WriteAction::Run(WriteStage::WriteIgnition),
            WriteAction::Run(WriteStage::EditKargs),
            WriteAction::Run(WriteStage::CopyNetwork),
            WriteAction::ReportSuccess,
            WriteAction::Nothing,
        ]
    );
    assert_eq!(state.stage, WriteStage::Done);

    // nothing to write to the boot filesystem: it is not mounted
    let bare = WriteConfig { ignition: false, edit_kargs: false, network: false, ..config() };
    let (s, _) = write_disk_start(bare);
    let (s, _) = write_disk_step(s, WriteEvent::Succeeded);
    let (s, _) = write_disk_step(s, WriteEvent::Succeeded);
    assert_eq!(write_disk_step(s, WriteEvent::Succeeded).1, WriteAction::ReportSuccess);
}

#[test]
fn write_disk_failures() {
    let (s, _) = write_disk_start(config());
    let (s, a) = write_disk_step(s, WriteEvent::Failed);
    assert_eq!(a, WriteAction::ClearTable);
    let (s, a) = write_disk_step(s, WriteEvent::Succeeded);
    assert_eq!(a, WriteAction::ReportFailure);
    assert_eq!(s.stage, WriteStage::Failed);

    let keep = WriteConfig { preserve_on_error: true, ..config() };
    let (s, _) = write_disk_start(keep);
    assert_eq!(write_disk_step(s, WriteEvent::Failed).1, WriteAction::StashSaved);
    let keep_unsaved = WriteConfig { saved: false, ..keep };
    let (s, _) = write_disk_start(keep_unsaved);
    assert_eq!(write_disk_step(s, WriteEvent::Failed).1, WriteAction::Preserve);
}
