//! Picking the winner of the nameserver race.
//!
//! Four candidate lookups run concurrently outside this crate; the
//! caller records each candidate's outcome in completion order. The
//! winner is the first success in that order — a race has no priority
//! among candidates — and the race fails only when every candidate
//! failed.

use vstd::prelude::*;
use crate::PathError;
use crate::addr::IpAddress;

verus! {

/// How many candidate nameservers are raced.
pub const NAMESERVER_COUNT: usize = 4;

/// The outcome of the race, given the candidates' outcomes in the order
/// they completed: the first address that arrived, or — exactly when
/// every candidate failed — the no-nameserver-reachable failure.
pub fn race_winner(outcomes: &Vec<Option<IpAddress>>) -> (r: Result<IpAddress, PathError>)
    requires
        outcomes@.len() == NAMESERVER_COUNT,
    ensures
        match r {
            Result::Ok(a) => exists|i: int|
                0 <= i < outcomes@.len() && outcomes@[i] == Some(a) && (forall|j: int|
                    0 <= j < i ==> outcomes@[j] is None),
            Result::Err(e) => e == PathError::NoNameserverReachable && (forall|j: int|
                0 <= j < outcomes@.len() ==> outcomes@[j] is None),
        },
{
    let mut i: usize = 0;
    while i < outcomes.len()
        invariant
            i <= outcomes@.len(),
            forall|j: int| 0 <= j < i ==> outcomes@[j] is None,
        decreases outcomes@.len() - i,
    {
        match outcomes[i] {
            Option::Some(a) => {
                proof {
                    assert(outcomes@[i as int] == Some(a));
                }
                return Ok(a);
            },
            Option::None => {},
        }
        i = i + 1;
    }
    Err(PathError::NoNameserverReachable)
}

} // verus!
