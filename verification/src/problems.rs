//! Which server solves which problem.
use crate::error::ServerError;
use crate::util::{decimal, text_with_number};
use vstd::prelude::*;

verus! {

/// The servers that can be started.
#[derive(Copy, Clone, Debug, PartialEq, Eq, Structural)]
pub enum ProblemKind {
    /// Problem 0: echo.
    Echo,
    /// Problem 1: primality over JSON.
    PrimeTest,
    /// Problem 2: price means.
    PriceTracking,
    /// Problem 3: chat room.
    Chat,
}

/// Choose the server for a given Protohackers problem
pub fn problem_kind(problem_number: u8) -> (r: Result<ProblemKind, ServerError>)
    ensures
        problem_number == 0 ==> r == Ok::<ProblemKind, ServerError>(ProblemKind::Echo),
        problem_number == 1 ==> r == Ok::<ProblemKind, ServerError>(ProblemKind::PrimeTest),
        problem_number == 2 ==> r == Ok::<ProblemKind, ServerError>(ProblemKind::PriceTracking),
        problem_number == 3 ==> r == Ok::<ProblemKind, ServerError>(ProblemKind::Chat),
        problem_number > 3 ==> (r matches Err(ServerError::Other(text)) && text@ == "Unknown problem: "@
            + decimal(problem_number as nat)),
{
    match problem_number {
        0 => Ok(ProblemKind::Echo),
        1 => Ok(ProblemKind::PrimeTest),
        2 => Ok(ProblemKind::PriceTracking),
        3 => Ok(ProblemKind::Chat),
        problem => Err(ServerError::Other(text_with_number("Unknown problem: ", problem))),
    }
}

} // verus!
