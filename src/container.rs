//! The container toolchain's command lines, and what its exit statuses mean.
use vstd::prelude::*;
use vstd::string::StringExecFns;
use crate::modules::views;

verus! {

/// One of the two toolchain invocations.
#[derive(Debug, Clone, Copy, PartialEq, Eq, Structural)]
pub enum ContainerStep {
    Build,
    Run,
}

/// A toolchain invocation that exited unsuccessfully.
#[derive(Debug, PartialEq, Eq, Structural)]
pub enum DriverError {
    BuildFailed,
    RunFailed,
}

impl DriverError {
    /// A message for the user.
    pub fn message(&self) -> (r: String)
        ensures
            r@ == match self {
                DriverError::BuildFailed => "Failed to build Docker image"@,
                DriverError::RunFailed => "Failed to run Docker container"@,
            },
    {
        match self {
            DriverError::BuildFailed => String::from_str("Failed to build Docker image"),
            DriverError::RunFailed => String::from_str("Failed to run Docker container"),
        }
    }
}

/// Arguments that build an image tagged with the script's name from `context_dir`.
pub fn build_args(script_name: &String, context_dir: &String) -> (r: Vec<String>)
    ensures
        views(r@) == seq!["build"@, "-t"@, script_name@, context_dir@],
{
    let mut v: Vec<String> = Vec::new();
    v.push(String::from_str("build"));
    v.push(String::from_str("-t"));
    v.push(script_name.clone());
    v.push(context_dir.clone());
    proof {
        assert(views(v@) =~= seq!["build"@, "-t"@, script_name@, context_dir@]);
    }
    v
}

/// Arguments that run the image tagged with the script's name, passing `extra` on.
pub fn run_args(script_name: &String, extra: &[String]) -> (r: Vec<String>)
    ensures
        views(r@) == seq!["run"@, script_name@] + views(extra@),
{
    let mut v: Vec<String> = Vec::new();
    v.push(String::from_str("run"));
    v.push(script_name.clone());
    let mut i: usize = 0;
    while i < extra.len()
        invariant
            i <= extra@.len(),
            views(v@) == seq!["run"@, script_name@] + views(extra@.subrange(0, i as int)),
        decreases extra@.len() - i,
    {
        let ghost prev = views(v@);
        v.push(extra[i].clone());
        proof {
            assert(views(v@) =~= prev.push(extra@[i as int]@));
            assert(views(extra@.subrange(0, i + 1)) =~= views(extra@.subrange(0, i as int)).push(
                extra@[i as int]@,
            ));
            assert(views(v@) =~= seq!["run"@, script_name@] + views(extra@.subrange(0, i + 1)));
        }
        i = i + 1;
    }
    proof {
        assert(extra@.subrange(0, extra@.len() as int) =~= extra@);
    }
    v
}

/// Whether the pipeline may go on after `step` exited as `success` says; a
/// failed build stops it before the run.
pub fn check_exit(step: ContainerStep, success: bool) -> (r: Result<(), DriverError>)
    ensures
        success ==> r is Ok,
        !success ==> r == match step {
            ContainerStep::Build => Err::<(), DriverError>(DriverError::BuildFailed),
            ContainerStep::Run => Err::<(), DriverError>(DriverError::RunFailed),
        },
{
    if success {
        Ok(())
    } else {
        match step {
            ContainerStep::Build => Err(DriverError::BuildFailed),
            ContainerStep::Run => Err(DriverError::RunFailed),
        }
    }
}

} // verus!
