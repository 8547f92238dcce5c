//! Combines the outcomes of the problem's validation rules into one verdict.

use vstd::prelude::*;
use crate::format::{FormatError, describe_all, join_lines};
use vstd::string::StringExecFns;

verus! {

/// The text that opens the report of a problem that fails validation.
pub const VALIDATION_MESSAGE_PREFIX: &'static str = "Problem has the following validation errors:\n";

/// The errors that the rules on jobs, on vehicles and on objectives found in a
/// problem, in that order.
pub struct ValidationContext {
    pub job_errors: Vec<FormatError>,
    pub vehicle_errors: Vec<FormatError>,
    pub objective_errors: Vec<FormatError>,
}

impl ValidationContext {
    /// Creates a context from what each group of rules found.
    pub fn new(job_errors: Vec<FormatError>, vehicle_errors: Vec<FormatError>, objective_errors: Vec<FormatError>) -> (r: Self)
        ensures
            r.job_errors == job_errors,
            r.vehicle_errors == vehicle_errors,
            r.objective_errors == objective_errors,
    {
        ValidationContext { job_errors, vehicle_errors, objective_errors }
    }

    /// All errors, jobs' first, then vehicles', then objectives'.
    pub open spec fn all_errors(&self) -> Seq<FormatError> {
        self.job_errors@ + self.vehicle_errors@ + self.objective_errors@
    }

    /// `Ok` when no rule found an error; otherwise the report: a fixed first
    /// line, then one line for each error.
    pub fn validate(&self) -> (r: Result<(), String>)
        ensures
            r.is_ok() == (self.all_errors().len() == 0),
            r.is_err() ==> r->Err_0@ == VALIDATION_MESSAGE_PREFIX@ + join_lines(self.all_errors()),
    {
        let mut errors: Vec<FormatError> = Vec::new();
        append_errors(&mut errors, &self.job_errors);
        append_errors(&mut errors, &self.vehicle_errors);
        append_errors(&mut errors, &self.objective_errors);
        assert(errors@ == self.all_errors());
        if errors.len() == 0 {
            Ok(())
        } else {
            let lines = describe_all(&errors);
            let mut report = <String as StringExecFns>::from_str(VALIDATION_MESSAGE_PREFIX);
            report.append(lines.as_str());
            Err(report)
        }
    }
}

/// Copies a format error.
pub fn copy_error(e: &FormatError) -> (r: FormatError)
    ensures
        r.code == e.code,
        r.cause == e.cause,
        r.action == e.action,
        r.details == e.details,
{
    let details = match &e.details {
        Some(d) => Some(d.clone()),
        None => None,
    };
    FormatError { code: e.code.clone(), cause: e.cause.clone(), action: e.action.clone(), details }
}

fn append_errors(into: &mut Vec<FormatError>, from: &Vec<FormatError>)
    ensures
        final(into)@ == old(into)@ + from@,
{
    let ghost start = into@;
    let mut i: usize = 0;
    while i < from.len()
        invariant
            i <= from@.len(),
            into@ == start + from@.subrange(0, i as int),
        decreases from@.len() - i,
    {
        let e = copy_error(&from[i]);
        assert(e == from@[i as int]);
        into.push(e);
        assert(from@.subrange(0, i as int + 1) == from@.subrange(0, i as int).push(from@[i as int]));
        i = i + 1;
    }
    assert(from@.subrange(0, from@.len() as int) == from@);
}

} // verus!
