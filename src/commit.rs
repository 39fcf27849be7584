//! The decisions of an atomic package commit: download into a temporary
//! sibling directory, validate there, and only then replace the target with
//! one rename; whatever happens, the temporary directory is removed at the
//! end. The caller performs each step on the file system and reports back.
use vstd::prelude::*;

verus! {

/// A step of an atomic commit.
#[derive(Debug, Clone, Copy, PartialEq, Eq)]
pub enum CommitStep {
    /// Download every file of the package into the temporary directory.
    Download,
    /// Validate the package in the temporary directory.
    Validate,
    /// Remove the existing target directory.
    RemoveTarget,
    /// Create the target's missing parent directories.
    CreateParent,
    /// Rename the temporary directory to the target.
    Rename,
    /// Remove the temporary directory if it is still there.
    CleanUp { succeeded: bool },
    /// The commit is over.
    Finished { succeeded: bool },
}

/// What the caller saw after performing a step.
#[derive(Debug, Clone, Copy, PartialEq, Eq)]
pub struct StepReport {
    /// The step succeeded.
    pub ok: bool,
    /// The target directory exists now.
    pub target_exists: bool,
    /// The target's parent directory exists now.
    pub parent_exists: bool,
}

/// The step that moves the validated package into place.
pub open spec fn placing_step(report: StepReport) -> CommitStep {
    if report.target_exists {
        CommitStep::RemoveTarget
    } else if !report.parent_exists {
        CommitStep::CreateParent
    } else {
        CommitStep::Rename
    }
}

/// The step after `step`, given what was seen once it was performed.
pub open spec fn step_after(step: CommitStep, report: StepReport) -> CommitStep {
    match step {
        CommitStep::Download => if report.ok {
            CommitStep::Validate
        } else {
            CommitStep::CleanUp { succeeded: false }
        },
        CommitStep::Validate => if report.ok {
            placing_step(report)
        } else {
            CommitStep::CleanUp { succeeded: false }
        },
        CommitStep::RemoveTarget => if !report.ok {
            CommitStep::CleanUp { succeeded: false }
        } else if !report.parent_exists {
            CommitStep::CreateParent
        } else {
            CommitStep::Rename
        },
        CommitStep::CreateParent => if report.ok {
            CommitStep::Rename
        } else {
            CommitStep::CleanUp { succeeded: false }
        },
        CommitStep::Rename => CommitStep::CleanUp { succeeded: report.ok },
        CommitStep::CleanUp { succeeded } => CommitStep::Finished { succeeded },
        CommitStep::Finished { succeeded } => CommitStep::Finished { succeeded },
    }
}

/// The first step of a commit.
pub fn first_commit_step() -> (s: CommitStep)
    ensures
        s == CommitStep::Download,
{
    CommitStep::Download
}

/// The step after `step`: download, then validate, then remove an existing
/// target, create a missing parent, and rename; any failure before the
/// rename, and the rename itself, lead to the clean-up of the temporary
/// directory, and the clean-up to the end.
pub fn next_commit_step(step: CommitStep, report: StepReport) -> (r: CommitStep)
    ensures
        r == step_after(step, report),
{
    match step {
        CommitStep::Download => if report.ok {
            CommitStep::Validate
        } else {
            CommitStep::CleanUp { succeeded: false }
        },
        CommitStep::Validate => if !report.ok {
            CommitStep::CleanUp { succeeded: false }
        } else if report.target_exists {
            CommitStep::RemoveTarget
        } else if !report.parent_exists {
            CommitStep::CreateParent
        } else {
            CommitStep::Rename
        },
        CommitStep::RemoveTarget => if !report.ok {
            CommitStep::CleanUp { succeeded: false }
        } else if !report.parent_exists {
            CommitStep::CreateParent
        } else {
            CommitStep::Rename
        },
        CommitStep::CreateParent => if report.ok {
            CommitStep::Rename
        } else {
            CommitStep::CleanUp { succeeded: false }
        },
        CommitStep::Rename => CommitStep::CleanUp { succeeded: report.ok },
        CommitStep::CleanUp { succeeded } => CommitStep::Finished { succeeded },
        CommitStep::Finished { succeeded } => CommitStep::Finished { succeeded },
    }
}

/// The steps taken from `step` when the reports come as given, up to the end.
pub open spec fn commit_run(step: CommitStep, reports: Seq<StepReport>) -> Seq<CommitStep>
    decreases reports.len(),
{
    if reports.len() == 0 || step is Finished {
        seq![step]
    } else {
        seq![step] + commit_run(step_after(step, reports[0]), reports.drop_first())
    }
}

/// The step changes the target directory or what surrounds it.
pub open spec fn touches_target(step: CommitStep) -> bool {
    step is RemoveTarget || step is CreateParent || step is Rename
}

proof fn lemma_cleanup_run(succeeded: bool, reports: Seq<StepReport>)
    requires
        reports.len() >= 1,
    ensures
        commit_run(CommitStep::CleanUp { succeeded }, reports) =~= seq![
            CommitStep::CleanUp { succeeded },
            CommitStep::Finished { succeeded },
        ],
{
    let rest = reports.drop_first();
    assert(commit_run(CommitStep::Finished { succeeded }, rest) =~= seq![CommitStep::Finished { succeeded }]);
}

/// When the download or the validation fails, the commit never touches the
/// target directory (nor its parent): it goes straight to removing the
/// temporary directory, and ends as a failure.
pub proof fn lemma_failed_commit_leaves_target(reports: Seq<StepReport>)
    requires
        reports.len() >= 3,
        !reports[0].ok || !reports[1].ok,
    ensures
        forall|i: int|
            0 <= i < commit_run(CommitStep::Download, reports).len() ==> !touches_target(
                #[trigger] commit_run(CommitStep::Download, reports)[i],
            ),
        commit_run(CommitStep::Download, reports).last() == (CommitStep::Finished { succeeded: false }),
        commit_run(CommitStep::Download, reports).contains(CommitStep::CleanUp { succeeded: false }),
{
    let run = commit_run(CommitStep::Download, reports);
    let fail = CommitStep::CleanUp { succeeded: false };
    if !reports[0].ok {
        lemma_cleanup_run(false, reports.drop_first());
        assert(run =~= seq![CommitStep::Download, fail, CommitStep::Finished { succeeded: false }]);
        assert(run[1] == fail);
    } else {
        let r1 = reports.drop_first();
        lemma_cleanup_run(false, r1.drop_first());
        assert(commit_run(CommitStep::Validate, r1) =~= seq![CommitStep::Validate, fail, CommitStep::Finished { succeeded: false }]);
        assert(run =~= seq![CommitStep::Download, CommitStep::Validate, fail, CommitStep::Finished { succeeded: false }]);
        assert(run[2] == fail);
    }
}

/// Every commit that ends passes through the clean-up of the temporary
/// directory right before its end, with the same outcome.
pub proof fn lemma_commit_always_cleans_up(step: CommitStep, reports: Seq<StepReport>, i: int)
    requires
        !(step is Finished),
        0 < i < commit_run(step, reports).len(),
        commit_run(step, reports)[i] is Finished,
    ensures
        commit_run(step, reports)[i - 1] == (CommitStep::CleanUp {
            succeeded: commit_run(step, reports)[i]->Finished_succeeded,
        }),
    decreases reports.len(),
{
    let next = step_after(step, reports[0]);
    let run = commit_run(step, reports);
    assert(reports.len() > 0);
    assert(run[i] == commit_run(next, reports.drop_first())[i - 1]);
    if i == 1 {
        assert(run[0] == step);
        assert(next is Finished);
    } else {
        assert(run[i - 1] == commit_run(next, reports.drop_first())[i - 2]);
        if next is Finished {
            assert(commit_run(next, reports.drop_first()).len() == 1);
        }
        lemma_commit_always_cleans_up(next, reports.drop_first(), i - 1);
    }
}

} // verus!
