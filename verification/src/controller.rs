use vstd::prelude::*;

use crate::{AppError, Project};

verus! {

/// What the scan's join point observes first: the finished pipeline, or a
/// cancellation request.
pub enum ScanEvent {
    PipelineDone(Result<Vec<Project>, AppError>),
    CancelRequested,
}

/// The terminal states of one scan.
pub enum ScanOutcome {
    Completed(Vec<Project>),
    Cancelled,
    Failed(AppError),
}

/// Resolve the race at the join point: cancellation wins with no partial
/// results; otherwise the pipeline's own result decides.
pub fn resolve_scan(event: ScanEvent) -> (r: ScanOutcome)
    ensures
        match event {
            ScanEvent::CancelRequested => r is Cancelled,
            ScanEvent::PipelineDone(res) => match res {
                Ok(v) => r matches ScanOutcome::Completed(w) && w == v,
                Err(e) => r matches ScanOutcome::Failed(e2) && e2 == e,
            },
        },
{
    match event {
        ScanEvent::CancelRequested => ScanOutcome::Cancelled,
        ScanEvent::PipelineDone(res) => match res {
            Ok(v) => ScanOutcome::Completed(v),
            Err(e) => ScanOutcome::Failed(e),
        },
    }
}

/// Report a terminal state to the caller; a cancelled scan yields a
/// `Cancel` failure and never a partial project list.
pub fn outcome_result(outcome: ScanOutcome) -> (r: Result<Vec<Project>, AppError>)
    ensures
        match outcome {
            ScanOutcome::Completed(v) => r matches Ok(w) && w == v,
            ScanOutcome::Cancelled => r matches Err(e) && e matches AppError::Cancel(m) && m@
                == "Command was canceled"@,
            ScanOutcome::Failed(e) => r matches Err(e2) && e2 == e,
        },
{
    match outcome {
        ScanOutcome::Completed(v) => Ok(v),
        ScanOutcome::Cancelled => Err(
            AppError::Cancel(String::from_str("Command was canceled")),
        ),
        ScanOutcome::Failed(e) => Err(e),
    }
}

/// One step of the cancellation monitor: when the shared flag is seen set,
/// it is reset and the token is fired.
pub fn monitor_step(flag: bool) -> (r: (bool, bool))
    ensures
        r.1 == flag,
        flag ==> r.0 == false,
        !flag ==> r.0 == flag,
{
    if flag {
        (false, true)
    } else {
        (flag, false)
    }
}

/// A cancellation that reaches the join point first never yields partial
/// results: the reported value is a `Cancel` failure, not a project list.
pub proof fn lemma_cancel_no_partial(r1: ScanOutcome, r2: Result<Vec<Project>, AppError>)
    requires
        r1 is Cancelled,
        r2 matches Err(e) && e matches AppError::Cancel(m) && m@ == "Command was canceled"@,
    ensures
        !(r2 is Ok),
{
}

/// The progress steps of one scan, in the order their messages are
/// emitted: searching once, then per project validating, fetching sizes
/// and inferring the language, and finished once at the end.
pub enum ScanStep {
    Searching,
    Validating,
    FetchingSizes,
    InferringLanguage,
    Finished,
}

/// The progress message for a step; the per-project steps name the
/// project.
pub fn progress_message(step: &ScanStep, name: &str) -> (r: String)
    ensures
        match step {
            ScanStep::Searching => r@ == "Searching..."@,
            ScanStep::Validating => r@ == "Validating file: '"@ + name@ + "'..."@,
            ScanStep::FetchingSizes => r@ == "Fetching build dirs from: '"@ + name@ + "'..."@,
            ScanStep::InferringLanguage => r@ == "Getting language of: '"@ + name@ + "'..."@,
            ScanStep::Finished => r@ == "Finished."@,
        },
{
    match step {
        ScanStep::Searching => String::from_str("Searching..."),
        ScanStep::Validating => {
            let mut s = String::from_str("Validating file: '");
            s.append(name);
            s.append("'...");
            proof {
                assert(s@ =~= "Validating file: '"@ + name@ + "'..."@);
            }
            s
        },
        ScanStep::FetchingSizes => {
            let mut s = String::from_str("Fetching build dirs from: '");
            s.append(name);
            s.append("'...");
            proof {
                assert(s@ =~= "Fetching build dirs from: '"@ + name@ + "'..."@);
            }
            s
        },
        ScanStep::InferringLanguage => {
            let mut s = String::from_str("Getting language of: '");
            s.append(name);
            s.append("'...");
            proof {
                assert(s@ =~= "Getting language of: '"@ + name@ + "'..."@);
            }
            s
        },
        ScanStep::Finished => String::from_str("Finished."),
    }
}

/// The loading-status payload: status true with duration zero at the
/// start, status false with the elapsed time at the end.
pub fn loading_status(at_start: bool, elapsed_millis: u64) -> (r: (bool, u64))
    ensures
        r.0 == at_start,
        at_start ==> r.1 == 0,
        !at_start ==> r.1 == elapsed_millis,
{
    if at_start {
        (true, 0)
    } else {
        (false, elapsed_millis)
    }
}

/// Containment of walk failures: only a failure to read the root itself
/// ends the scan, as a typed failure; any other entry is skipped and its
/// siblings go on.
pub fn entry_failure(at_root: bool, message: String) -> (r: Option<AppError>)
    ensures
        at_root ==> (r matches Some(e) && e matches AppError::IoError(m) && m@ == message@),
        !at_root ==> r is None,
{
    if at_root {
        Some(AppError::IoError(message))
    } else {
        None
    }
}

} // verus!
