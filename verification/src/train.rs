//! What is made of the outcomes of the workers once all of them have ended.

use vstd::prelude::*;
use crate::utils::W2vError;

verus! {

/// Worker `i` is the first one that failed.
pub open spec fn is_first_failure(outcomes: Seq<Result<bool, W2vError>>, i: int) -> bool {
    &&& 0 <= i < outcomes.len()
    &&& outcomes[i] is Err
    &&& forall|j: int| 0 <= j < i ==> outcomes[j] is Ok
}

/// The outcome of a run whose workers ended with `outcomes`: the error of
/// the first worker that failed, whatever the others did, and `Ok` where none
/// failed.
pub fn first_failure(outcomes: Vec<Result<bool, W2vError>>) -> (result: Result<(), W2vError>)
    ensures
        match result {
            Ok(()) => forall|i: int| 0 <= i < outcomes@.len() ==> outcomes@[i] is Ok,
            Err(e) => exists|i: int|
                #[trigger] is_first_failure(outcomes@, i) && outcomes@[i] == Err::<bool, W2vError>(
                    e,
                ),
        },
{
    let ghost all = outcomes@;
    let mut left = outcomes;
    let mut found: Option<W2vError> = None;
    while left.len() > 0
        invariant
            left@.len() <= all.len(),
            left@ == all.take(left@.len() as int),
            match found {
                None => forall|j: int| left@.len() <= j < all.len() ==> all[j] is Ok,
                Some(e) => exists|i: int|
                    {
                        &&& left@.len() <= i < all.len()
                        &&& #[trigger] all[i] == Err::<bool, W2vError>(e)
                        &&& forall|j: int| left@.len() <= j < i ==> all[j] is Ok
                    },
            },
        decreases left@.len(),
    {
        let ghost before = left@;
        let last = left.pop();
        proof {
            assert(left@ =~= all.take(left@.len() as int));
            assert(before[left@.len() as int] == all[left@.len() as int]);
        }
        match last {
            Some(Err(e)) => {
                proof {
                    assert(all[left@.len() as int] == Err::<bool, W2vError>(e));
                }
                found = Some(e);
            },
            _ => {},
        }
    }
    match found {
        Some(e) => {
            proof {
                let i = choose|i: int|
                    {
                        &&& 0 <= i < all.len()
                        &&& #[trigger] all[i] == Err::<bool, W2vError>(e)
                        &&& forall|j: int| 0 <= j < i ==> all[j] is Ok
                    };
                assert(is_first_failure(all, i));
            }
            Err(e)
        },
        None => Ok(()),
    }
}

} // verus!
