//! What the library uses of `cosmwasm_std::Response`: a new response, and
//! one more attribute at its end.

use crate::text::leads_with_underscore;
use cosmwasm_std::{Empty, Response};
use vstd::prelude::*;

verus! {

/// `cosmwasm_std::Empty`, the custom message of a response that carries none.
#[verifier::external_type_specification]
#[verifier::external_body]
pub struct ExEmpty(cosmwasm_std::Empty);

/// `cosmwasm_std::Response`, what an entry point of a contract hands back to the host.
#[verifier::external_type_specification]
#[verifier::external_body]
#[verifier::reject_recursive_types(T)]
pub struct ExResponse<T>(cosmwasm_std::Response<T>);

/// The attributes of a response, key and value, in the order in which they
/// were added: what its field `attributes` holds.
pub uninterp spec fn response_attributes(r: Response<Empty>) -> Seq<(Seq<char>, Seq<char>)>;

/// `Response::new`: the response that it makes has no attributes.
#[verifier::external_body]
pub(crate) fn new_response() -> (r: Response<Empty>)
    ensures
        response_attributes(r) == Seq::<(Seq<char>, Seq<char>)>::empty(),
{
    Response::new()
}

/// `Response::add_attribute`: the response comes back with the attribute of
/// this key and value added behind those that it had. A key that begins
/// with an underscore is reserved, and a debug build panics on it: such a
/// key is left out.
#[verifier::external_body]
pub(crate) fn with_attribute(r: Response<Empty>, key: &str, value: &str) -> (out: Response<Empty>)
    requires
        !leads_with_underscore(key@),
    ensures
        response_attributes(out) == response_attributes(r).push((key@, value@)),
{
    r.add_attribute(key, value)
}

} // verus!
