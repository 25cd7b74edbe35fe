//! The decisions between the I/O steps of deploying the bundled cache and of
//! fetching snapshots until one succeeds. The caller performs each action and
//! hands back what came of it; these functions say what to do next.
use vstd::prelude::*;
use crate::serve::CACHE_READY_TIMEOUT_MILLIS;

verus! {

/// Interval in milliseconds between fetch retry attempts.
pub const RETRY_INTERVAL_MILLIS: u64 = 1000;

/// The next step of deploying the bundled cache.
#[derive(PartialEq, Eq, Structural, Debug, Clone, Copy)]
pub enum DeployAction {
    /// Stop: the deployment is done, with this result.
    Finish(bool),
    /// Read the active version pointer; report whether it names a version.
    ReadActive,
    /// Create the cache root and a new version directory; report success.
    CreateVersionDir,
    /// Write the bundled files into the new version directory; report how
    /// many were written.
    WriteFiles,
    /// Remove the new version directory; the deployment then ends with
    /// `false`.
    RemoveVersionDir,
    /// Point the active version at the new directory; report success.
    SwitchActive,
}

/// What to do next, given what has happened so far: `root_ok` whether the
/// cache root is known, and for each step already taken its report (`None`
/// for a step not taken yet). An existing active deployment is reused
/// whatever is bundled; with nothing bundled and none active the result is
/// `false`.
pub open spec fn deploy_next_spec(
    bundled_empty: bool,
    root_ok: bool,
    active: Option<bool>,
    dir_ok: Option<bool>,
    written: Option<usize>,
    switched: Option<bool>,
) -> DeployAction {
    if !root_ok {
        DeployAction::Finish(false)
    } else {
        match active {
            None => DeployAction::ReadActive,
            Some(true) => DeployAction::Finish(true),
            Some(false) => if bundled_empty {
                DeployAction::Finish(false)
            } else {
                match dir_ok {
                    None => DeployAction::CreateVersionDir,
                    Some(false) => DeployAction::Finish(false),
                    Some(true) => match written {
                        None => DeployAction::WriteFiles,
                        Some(n) => if n == 0 {
                            DeployAction::RemoveVersionDir
                        } else {
                            match switched {
                                None => DeployAction::SwitchActive,
                                Some(ok) => DeployAction::Finish(ok),
                            }
                        },
                    },
                }
            },
        }
    }
}

/// Decides the next step of deploying the bundled cache.
pub fn deploy_next(
    bundled_empty: bool,
    root_ok: bool,
    active: Option<bool>,
    dir_ok: Option<bool>,
    written: Option<usize>,
    switched: Option<bool>,
) -> (a: DeployAction)
    ensures
        a == deploy_next_spec(bundled_empty, root_ok, active, dir_ok, written, switched),
{
    if !root_ok {
        return DeployAction::Finish(false);
    }
    match active {
        None => DeployAction::ReadActive,
        Some(true) => DeployAction::Finish(true),
        Some(false) => {
            if bundled_empty {
                return DeployAction::Finish(false);
            }
            match dir_ok {
                None => DeployAction::CreateVersionDir,
                Some(false) => DeployAction::Finish(false),
                Some(true) => match written {
                    None => DeployAction::WriteFiles,
                    Some(n) => {
                        if n == 0 {
                            DeployAction::RemoveVersionDir
                        } else {
                            match switched {
                                None => DeployAction::SwitchActive,
                                Some(ok) => DeployAction::Finish(ok),
                            }
                        }
                    },
                },
            }
        },
    }
}

/// Deployment reports success exactly when an active deployment already
/// exists, or when files were written and the switch to them succeeded; it
/// never writes anything while an active deployment exists.
pub proof fn lemma_deploy_succeeds_only_when_served(
    bundled_empty: bool,
    root_ok: bool,
    active: Option<bool>,
    dir_ok: Option<bool>,
    written: Option<usize>,
    switched: Option<bool>,
)
    ensures
        deploy_next_spec(bundled_empty, root_ok, active, dir_ok, written, switched) == DeployAction::Finish(true)
            <==> root_ok && (active == Some(true) || (active == Some(false) && !bundled_empty && dir_ok
            == Some(true) && written is Some && written->0 > 0 && switched == Some(true))),
        active == Some(true) ==> deploy_next_spec(bundled_empty, root_ok, active, dir_ok, written, switched)
            != DeployAction::WriteFiles,
        bundled_empty ==> deploy_next_spec(bundled_empty, root_ok, active, dir_ok, written, switched)
            != DeployAction::WriteFiles,
{
}

/// The next step of fetching snapshots until one succeeds.
#[derive(PartialEq, Eq, Structural, Debug, Clone, Copy)]
pub enum RetryAction {
    /// Stop: the loop is over.
    Stop,
    /// Fetch a full snapshot; report whether it succeeded.
    FetchSnapshot,
    /// Ask the open page to reload; the loop then ends.
    NotifyReload,
    /// Wait this many milliseconds, then fetch again.
    Retry(u64),
}

/// What to do next: without a cache root stop; before the first attempt
/// fetch; after a failure wait and fetch again. After a success the initial
/// fetch reloads the page, while a `background` update stops: its snapshot
/// takes effect on the next launch.
pub open spec fn retry_next_spec(background: bool, root_ok: bool, last: Option<bool>) -> RetryAction {
    if !root_ok {
        RetryAction::Stop
    } else {
        match last {
            None => RetryAction::FetchSnapshot,
            Some(true) => if background {
                RetryAction::Stop
            } else {
                RetryAction::NotifyReload
            },
            Some(false) => RetryAction::Retry(RETRY_INTERVAL_MILLIS),
        }
    }
}

/// Decides the next step of the fetch loop; `last` is the report of the last
/// fetch, `None` before the first one.
pub fn retry_next(background: bool, root_ok: bool, last: Option<bool>) -> (a: RetryAction)
    ensures
        a == retry_next_spec(background, root_ok, last),
{
    if !root_ok {
        return RetryAction::Stop;
    }
    match last {
        None => RetryAction::FetchSnapshot,
        Some(true) => {
            if background {
                RetryAction::Stop
            } else {
                RetryAction::NotifyReload
            }
        },
        Some(false) => RetryAction::Retry(RETRY_INTERVAL_MILLIS),
    }
}

/// The fetch loop never gives up on a failure, reloads the page only after a
/// successful initial fetch, and never reloads it for a background update.
pub proof fn lemma_retry_until_success(background: bool, root_ok: bool, last: Option<bool>)
    ensures
        retry_next_spec(background, root_ok, last) == RetryAction::NotifyReload <==> root_ok && !background
            && last == Some(true),
        background ==> retry_next_spec(background, root_ok, last) != RetryAction::NotifyReload,
        root_ok && last == Some(false) ==> retry_next_spec(background, root_ok, last) is Retry,
        retry_next_spec(background, root_ok, last) == RetryAction::Stop <==> !root_ok || (background
            && last == Some(true)),
{
}

/// What the scheme handler does while no active version exists yet.
#[derive(PartialEq, Eq, Structural, Debug, Clone, Copy)]
pub enum WaitAction {
    /// Give up and answer that the cache is not ready.
    NotReady,
    /// Sleep this many milliseconds, then look for the active version again.
    Sleep(u64),
}

/// Give up once `elapsed_millis` reaches the deadline, else sleep `wait_millis`.
pub open spec fn wait_step_spec(elapsed_millis: u64, wait_millis: u64) -> WaitAction {
    if elapsed_millis >= CACHE_READY_TIMEOUT_MILLIS {
        WaitAction::NotReady
    } else {
        WaitAction::Sleep(wait_millis)
    }
}

/// Decides whether the scheme handler keeps waiting for an active version,
/// `elapsed_millis` after it started waiting.
pub fn wait_step(elapsed_millis: u64, wait_millis: u64) -> (a: WaitAction)
    ensures
        a == wait_step_spec(elapsed_millis, wait_millis),
        a == WaitAction::NotReady <==> elapsed_millis >= CACHE_READY_TIMEOUT_MILLIS,
{
    if elapsed_millis >= CACHE_READY_TIMEOUT_MILLIS {
        WaitAction::NotReady
    } else {
        WaitAction::Sleep(wait_millis)
    }
}

} // verus!
