//! Format errors and the registry of violation codes.

use vstd::prelude::*;
use vstd::string::StringExecFns;

verus! {

/// The violation code of the timing rule.
pub const TIME_CONSTRAINT_CODE: i32 = 1;
/// The violation code of the distance limit.
pub const DISTANCE_LIMIT_CONSTRAINT_CODE: i32 = 2;
/// The violation code of the duration limit.
pub const DURATION_LIMIT_CONSTRAINT_CODE: i32 = 3;
/// The violation code of the capacity rule.
pub const CAPACITY_CONSTRAINT_CODE: i32 = 4;
/// The violation code of the break rule.
pub const BREAK_CONSTRAINT_CODE: i32 = 5;
/// The violation code of the skills rule.
pub const SKILL_CONSTRAINT_CODE: i32 = 6;
/// The violation code of the locking rule.
pub const LOCKING_CONSTRAINT_CODE: i32 = 7;
/// The violation code of the reachability rule.
pub const REACHABLE_CONSTRAINT_CODE: i32 = 8;
/// The violation code of the area rule.
pub const AREA_CONSTRAINT_CODE: i32 = 9;
/// The violation code of the tour size rule.
pub const TOUR_SIZE_CONSTRAINT_CODE: i32 = 10;
/// The violation code of the tour order rule.
pub const TOUR_ORDER_CONSTRAINT_CODE: i32 = 11;
/// The violation code of the group rule.
pub const GROUP_CONSTRAINT_CODE: i32 = 12;
/// The violation code of the compatibility rule.
pub const COMPATIBILITY_CONSTRAINT_CODE: i32 = 13;
/// The violation code of the reload rule.
pub const RELOAD_RESOURCE_CONSTRAINT_CODE: i32 = 14;
/// The violation code of the recharge rule.
pub const RECHARGE_CONSTRAINT_CODE: i32 = 15;

/// A custom location type which has no reference in a matrix.
#[derive(Clone, Copy, Debug, PartialEq, Eq, Structural)]
pub enum CustomLocationType {
    /// A location with a zero distance and duration to any other location.
    Unknown,
}

/// A format error.
#[derive(Clone, Debug)]
pub struct FormatError {
    /// An error code in the registry.
    pub code: String,
    /// A possible cause of the error.
    pub cause: String,
    /// An action to take in order to recover from the error.
    pub action: String,
    /// Details about the error.
    pub details: Option<String>,
}

/// The one-line description of a format error.
pub open spec fn describe_spec(code: Seq<char>, cause: Seq<char>, action: Seq<char>) -> Seq<char> {
    code + ", cause: '"@ + cause + "', action: '"@ + action + "'."@
}

impl FormatError {
    /// Creates a format error without details.
    pub fn new(code: String, cause: String, action: String) -> (r: Self)
        ensures
            r.code == code,
            r.cause == cause,
            r.action == action,
            r.details.is_none(),
    {
        FormatError { code, cause, action, details: None }
    }

    /// Creates a format error with details.
    pub fn new_with_details(code: String, cause: String, action: String, details: String) -> (r: Self)
        ensures
            r.code == code,
            r.cause == cause,
            r.action == action,
            r.details == Some(details),
    {
        FormatError { code, cause, action, details: Some(details) }
    }

    /// Describes the error in one line: `<code>, cause: '<cause>', action: '<action>'.`
    pub fn describe(&self) -> (r: String)
        ensures
            r@ == describe_spec(self.code@, self.cause@, self.action@),
    {
        let mut s = <String as StringExecFns>::from_str(self.code.as_str());
        s.append(", cause: '");
        s.append(self.cause.as_str());
        s.append("', action: '");
        s.append(self.action.as_str());
        s.append("'.");
        s
    }
}

/// The descriptions of the errors, one per line.
pub open spec fn join_lines(errors: Seq<FormatError>) -> Seq<char>
    decreases errors.len(),
{
    if errors.len() == 0 {
        Seq::empty()
    } else if errors.len() == 1 {
        describe_spec(errors[0].code@, errors[0].cause@, errors[0].action@)
    } else {
        join_lines(errors.drop_last()) + "\n"@ + describe_spec(
            errors.last().code@,
            errors.last().cause@,
            errors.last().action@,
        )
    }
}

/// Describes the errors, one per line.
pub fn describe_all(errors: &Vec<FormatError>) -> (r: String)
    ensures
        r@ == join_lines(errors@),
{
    let mut r = String::new();
    let mut i: usize = 0;
    while i < errors.len()
        invariant
            i <= errors@.len(),
            r@ == join_lines(errors@.subrange(0, i as int)),
        decreases errors@.len() - i,
    {
        let line = errors[i].describe();
        assert(errors@.subrange(0, i as int + 1).drop_last() == errors@.subrange(0, i as int));
        if i == 0 {
            r = line;
        } else {
            r.append("\n");
            r.append(line.as_str());
        }
        i = i + 1;
    }
    assert(errors@.subrange(0, errors@.len() as int) == errors@);
    r
}

/// Several format errors.
#[derive(Debug)]
pub struct MultiFormatError {
    /// The errors.
    pub errors: Vec<FormatError>,
}

impl MultiFormatError {
    /// Describes the errors, one per line.
    pub fn describe(&self) -> (r: String)
        ensures
            r@ == join_lines(self.errors@),
    {
        describe_all(&self.errors)
    }
}

impl From<Vec<FormatError>> for MultiFormatError {
    fn from(errors: Vec<FormatError>) -> (r: Self) {
        MultiFormatError { errors }
    }
}

impl vstd::std_specs::convert::FromSpecImpl<Vec<FormatError>> for MultiFormatError {
    open spec fn obeys_from_spec() -> bool {
        true
    }

    open spec fn from_spec(v: Vec<FormatError>) -> Self {
        MultiFormatError { errors: v }
    }
}

} // verus!
