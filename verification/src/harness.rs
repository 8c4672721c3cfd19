//! Checking an observed program run against a test plan: the plan names
//! the command, its arguments and input, and the exact output, error text
//! and exit code the run is expected to produce. Spawning the command and
//! collecting its output is the caller's work; judging the result is done
//! here.

use vstd::prelude::*;

verus! {

/// One expected program run.
pub struct TestPlan {
    pub cmd: String,
    pub args: Vec<String>,
    pub stdin_data: String,
    pub expected_out: String,
    pub expected_err: String,
    pub expected_exit_code: i32,
}

/// Judge an observed run against the plan: true exactly when the observed
/// output, error text and exit code all equal what the plan expects.
pub fn run_test(plan: &TestPlan, stdout: &String, stderr: &String, exit_code: i32) -> (ok: bool)
    ensures
        ok == (stdout@ == plan.expected_out@ && stderr@ == plan.expected_err@ && exit_code
            == plan.expected_exit_code),
{
    let out_ok = *stdout == plan.expected_out;
    let err_ok = *stderr == plan.expected_err;
    let code_ok = exit_code == plan.expected_exit_code;
    out_ok && err_ok && code_ok
}

} // verus!
