use euv_app::lifecycle::{
    deploy_next, retry_next, wait_step, DeployAction, RetryAction, WaitAction, RETRY_INTERVAL_MILLIS,
};

#[test]
fn deploy_steps_in_order() {
    assert_eq!(deploy_next(false, true, None, None, None, None), DeployAction::ReadActive);
    assert_eq!(deploy_next(false, true, Some(false), None, None, None), DeployAction::CreateVersionDir);
    assert_eq!(deploy_next(false, true, Some(false), Some(true), None, None), DeployAction::WriteFiles);
    assert_eq!(deploy_next(false, true, Some(false), Some(true), Some(3), None), DeployAction::SwitchActive);
    assert_eq!(deploy_next(false, true, Some(false), Some(true), Some(3), Some(true)), DeployAction::Finish(true));
    assert_eq!(deploy_next(false, true, Some(false), Some(true), Some(3), Some(false)), DeployAction::Finish(false));
}

#[test]
fn deploy_reuses_existing_active_version() {
    assert_eq!(deploy_next(false, true, Some(true), None, None, None), DeployAction::Finish(true));
    assert_eq!(deploy_next(true, true, Some(true), None, None, None), DeployAction::Finish(true));
    assert_eq!(deploy_next(true, true, None, None, None, None), DeployAction::ReadActive);
}

#[test]
fn deploy_failures_end_with_false() {
    assert_eq!(deploy_next(false, false, None, None, None, None), DeployAction::Finish(false));
    assert_eq!(deploy_next(true, true, Some(false), None, None, None), DeployAction::Finish(false));
    assert_eq!(deploy_next(false, true, Some(false), Some(false), None, None), DeployAction::Finish(false));
    assert_eq!(deploy_next(false, true, Some(false), Some(true), Some(0), None), DeployAction::RemoveVersionDir);
}

#[test]
fn fetch_retries_until_success() {
    for background in [false, true] {
        assert_eq!(retry_next(background, false, None), RetryAction::Stop);
        assert_eq!(retry_next(background, true, None), RetryAction::FetchSnapshot);
        assert_eq!(retry_next(background, true, Some(false)), RetryAction::Retry(1000));
    }
    assert_eq!(RETRY_INTERVAL_MILLIS, 1000);
    assert_eq!(retry_next(false, true, Some(true)), RetryAction::NotifyReload);
}

#[test]
fn background_update_does_not_reload() {
    assert_eq!(retry_next(true, true, Some(true)), RetryAction::Stop);
}

#[test]
fn scheme_waits_until_deadline() {
    assert_eq!(wait_step(0, 2), WaitAction::Sleep(2));
    assert_eq!(wait_step(1999, 64), WaitAction::Sleep(64));
    assert_eq!(wait_step(2000, 64), WaitAction::NotReady);
    assert_eq!(wait_step(u64::MAX, 2), WaitAction::NotReady);
}
