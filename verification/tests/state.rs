use zts_installer::state::{RunAction, RunEvent, RunState};

#[test]
fn run_persists_only_after_full_success() {
    let mut run = RunState::new_run(2, 1);
    assert_eq!(run.on_event(RunEvent::DownloadSettled { ok: true }), RunAction::Wait);
    assert_eq!(run.on_event(RunEvent::DownloadSettled { ok: true }), RunAction::StartDeploy);
    assert_eq!(run.on_event(RunEvent::DeploySettled { ok: true }), RunAction::Persist);
}

#[test]
fn run_aborts_on_failed_download_without_persisting() {
    // The failure does not cancel the sibling: the machine waits for it,
    // then aborts instead of persisting.
    let mut run = RunState::new_run(2, 1);
    assert_eq!(run.on_event(RunEvent::DownloadSettled { ok: false }), RunAction::Wait);
    assert_eq!(run.on_event(RunEvent::DownloadSettled { ok: true }), RunAction::Abort);
}

#[test]
fn run_aborts_on_failed_deploy_without_persisting() {
    let mut run = RunState::new_run(1, 2);
    assert_eq!(run.on_event(RunEvent::DownloadSettled { ok: true }), RunAction::StartDeploy);
    assert_eq!(run.on_event(RunEvent::DeploySettled { ok: true }), RunAction::Wait);
    assert_eq!(run.on_event(RunEvent::DeploySettled { ok: false }), RunAction::Abort);
}

#[test]
fn run_with_nothing_to_do_persists_at_once() {
    let mut run = RunState::new_run(0, 0);
    assert_eq!(run.initial_action(), RunAction::Persist);
}

#[test]
fn run_with_only_deploys_starts_deploying() {
    let mut run = RunState::new_run(0, 2);
    assert_eq!(run.initial_action(), RunAction::StartDeploy);
    assert_eq!(run.on_event(RunEvent::DeploySettled { ok: true }), RunAction::Wait);
    assert_eq!(run.on_event(RunEvent::DeploySettled { ok: true }), RunAction::Persist);
}
