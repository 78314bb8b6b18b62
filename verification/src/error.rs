use vstd::prelude::*;

verus! {

/// `cosmwasm_std::StdError`, the error that the host's facilities report.
/// The library only carries such a value through; nothing is known of what it holds.
#[verifier::external_type_specification]
#[verifier::external_body]
pub struct ExStdError(cosmwasm_std::StdError);

/// Why a call was refused.
#[derive(Debug, PartialEq)]
pub enum ContractError {
    /// An error of the host, handed on unchanged.
    Std(cosmwasm_std::StdError),
    /// The caller may not do this.
    Unauthorized,
    /// A poll was to be created with more options than a poll may have.
    TooManyOptions {  },
    /// No poll is stored under the given id.
    PollNotFound {  },
    /// The poll has no option with the given label.
    VoteOptionNotFound {  },
}

impl From<cosmwasm_std::StdError> for ContractError {
    /// Wraps an error of the host.
    fn from(e: cosmwasm_std::StdError) -> (r: ContractError) {
        ContractError::Std(e)
    }
}

impl vstd::std_specs::convert::FromSpecImpl<cosmwasm_std::StdError> for ContractError {
    open spec fn obeys_from_spec() -> bool {
        true
    }

    open spec fn from_spec(e: cosmwasm_std::StdError) -> ContractError {
        ContractError::Std(e)
    }
}

} // verus!
