//! Requests for data that a chart lacks.
use vstd::prelude::*;

verus! {

/// `uuid::Uuid`, the name of a request. It is only carried along.
#[verifier::external_type_specification]
#[verifier::external_body]
pub struct ExUuid(uuid::Uuid);

/// What a chart asks of its surroundings: `E` is an error, `R` a range of data.
pub enum Action<E, R> {
    ErrorOccurred(E),
    FetchRequested(uuid::Uuid, R),
}

/// What a chart asks for after the handler of requests has answered: a new request is fetched under
/// its name; one that is already pending, or that was refused, asks for nothing.
pub fn request_fetch<E, R, X>(answer: Result<Option<uuid::Uuid>, X>, range: R) -> (r: Option<
    Action<E, R>,
>)
    ensures
        r == match answer {
            Ok(Some(req_id)) => Some(Action::<E, R>::FetchRequested(req_id, range)),
            Ok(None) => None,
            Err(_) => None,
        },
{
    match answer {
        Ok(Some(req_id)) => Some(Action::FetchRequested(req_id, range)),
        Ok(None) => None,
        Err(_) => None,
    }
}

} // verus!
