use vstd::prelude::*;

verus! {

/// Which packages of a workspace a command acts on.
#[derive(Clone, Copy, Debug, PartialEq, Eq, Structural)]
pub enum PackageSelection {
    Selected,
    DefaultOrAll,
    All,
}

/// The workspace lock that a command takes.
#[derive(Clone, Copy, Debug, PartialEq, Eq, Structural)]
pub enum LockType {
    Unlocked,
    Shared,
    Exclusive,
}

/// Removes the build artifacts and CRS files.
#[derive(Clone, Copy, Debug, PartialEq, Eq, Structural)]
pub struct CleanCommand {}

impl CleanCommand {
    /// Cleaning acts on the whole workspace.
    pub fn package_selection(&self) -> (r: PackageSelection)
        ensures
            r == PackageSelection::All,
    {
        PackageSelection::All
    }

    /// Cleaning deletes files, so it locks the workspace exclusively.
    pub fn lock_type(&self) -> (r: LockType)
        ensures
            r == LockType::Exclusive,
    {
        LockType::Exclusive
    }
}

/// A directory that cleaning may remove, and what to say about it.
#[derive(Clone, Copy, Debug, PartialEq, Eq, Structural)]
pub enum CleanTarget {
    TargetDirectory,
    LocalCrs,
    GlobalCrs,
}

/// What to do with one directory, given whether it exists.
#[derive(Clone, Copy, Debug, PartialEq, Eq, Structural)]
pub enum CleanStep {
    Remove(CleanTarget),
    ReportMissing(CleanTarget),
    Skip(CleanTarget),
    HomeUnknown,
}

pub open spec fn step_for(target: CleanTarget, exists: bool) -> CleanStep {
    if exists {
        CleanStep::Remove(target)
    } else if target == CleanTarget::TargetDirectory {
        CleanStep::ReportMissing(target)
    } else {
        CleanStep::Skip(target)
    }
}

/// The step for one directory: remove it if it exists; report a missing target
/// directory, and pass over missing CRS directories in silence.
pub fn plan_step(target: CleanTarget, exists: bool) -> (r: CleanStep)
    ensures
        r == step_for(target, exists),
{
    if exists {
        CleanStep::Remove(target)
    } else if target == CleanTarget::TargetDirectory {
        CleanStep::ReportMissing(target)
    } else {
        CleanStep::Skip(target)
    }
}

/// The steps of cleaning, in the order they are carried out: the target directory, the local
/// CRS directory, then the global CRS directory, or a note that the home directory is unknown.
/// Carrying them out stops at the first that fails.
pub fn clean_steps(target_exists: bool, local_crs_exists: bool, global_crs_exists: Option<bool>) -> (r: Vec<CleanStep>)
    ensures
        r@ == seq![step_for(CleanTarget::TargetDirectory, target_exists), step_for(CleanTarget::LocalCrs, local_crs_exists)]
            + match global_crs_exists {
                Some(e) => seq![step_for(CleanTarget::GlobalCrs, e)],
                None => seq![CleanStep::HomeUnknown],
            },
{
    let mut r: Vec<CleanStep> = Vec::new();
    r.push(plan_step(CleanTarget::TargetDirectory, target_exists));
    r.push(plan_step(CleanTarget::LocalCrs, local_crs_exists));
    match global_crs_exists {
        Some(e) => r.push(plan_step(CleanTarget::GlobalCrs, e)),
        None => r.push(CleanStep::HomeUnknown),
    }
    assert(r@ =~= seq![step_for(CleanTarget::TargetDirectory, target_exists), step_for(CleanTarget::LocalCrs, local_crs_exists)]
        + match global_crs_exists {
            Some(e) => seq![step_for(CleanTarget::GlobalCrs, e)],
            None => seq![CleanStep::HomeUnknown],
        });
    r
}

} // verus!
