//! Calls from one contract into another: what is asked of the host, and
//! what the answer of the host is taken to mean.

use crate::types::Address;
use vstd::prelude::*;

verus! {

/// The gas that a contract keeps back for itself when it calls another.
pub const CALL_GAS_RESERVE: u64 = 10_000;

/// The gas that a call into another contract may burn, of `gas_left` that
/// the caller has: all but the reserve, and nothing where less than the
/// reserve is left.
pub open spec fn gas_limit_of(gas_left: u64) -> u64 {
    if gas_left >= CALL_GAS_RESERVE {
        (gas_left - CALL_GAS_RESERVE) as u64
    } else {
        0
    }
}

/// The gas that a call into another contract may burn.
pub fn call_gas_limit(gas_left: u64) -> (r: u64)
    ensures
        r == gas_limit_of(gas_left),
{
    gas_left.saturating_sub(CALL_GAS_RESERVE)
}

/// A call into another contract.
#[derive(Clone, Debug, PartialEq, Eq)]
pub struct ContractCall {
    /// The contract that is called.
    pub contract_address: Address,
    /// The method of that contract.
    pub method_name: String,
    /// Its arguments, serialized.
    pub args: Vec<u8>,
    /// Whether the call may change nothing.
    pub read_only: bool,
    /// The gas that the call may burn.
    pub gas_limit: u64,
}

impl ContractCall {
    /// A call of `method_name` on `contract_address` that may change
    /// nothing, by a caller with `gas_left`.
    pub fn query(contract_address: Address, method_name: String, args: Vec<u8>, gas_left: u64) -> (r:
        ContractCall)
        ensures
            r.contract_address == contract_address,
            r.method_name == method_name,
            r.args == args,
            r.read_only,
            r.gas_limit == gas_limit_of(gas_left),
    {
        ContractCall {
            contract_address,
            method_name,
            args,
            read_only: true,
            gas_limit: call_gas_limit(gas_left),
        }
    }

    /// A call of `method_name` on `contract_address` that may change the
    /// state of that contract, by a caller with `gas_left`.
    pub fn command(contract_address: Address, method_name: String, args: Vec<u8>, gas_left: u64)
        -> (r: ContractCall)
        ensures
            r.contract_address == contract_address,
            r.method_name == method_name,
            r.args == args,
            !r.read_only,
            r.gas_limit == gas_limit_of(gas_left),
    {
        ContractCall {
            contract_address,
            method_name,
            args,
            read_only: false,
            gas_limit: call_gas_limit(gas_left),
        }
    }
}

/// Why the answer to a call cannot be used.
#[derive(Clone, Debug, PartialEq, Eq)]
pub enum CallError {
    /// The called contract failed, with this message.
    Failed(String),
    /// The called contract returned nothing where a result was expected.
    EmptyResult,
    /// The called contract returned something where nothing was expected.
    UnexpectedResult,
}

/// The result of a call from which a result is expected: the bytes that were
/// returned, which are not empty.
pub fn expect_result(reply: Result<Vec<u8>, String>) -> (r: Result<Vec<u8>, CallError>)
    ensures
        match reply {
            Ok(bytes) => if bytes@.len() == 0 {
                r == Err::<Vec<u8>, CallError>(CallError::EmptyResult)
            } else {
                r == Ok::<Vec<u8>, CallError>(bytes)
            },
            Err(message) => r == Err::<Vec<u8>, CallError>(CallError::Failed(message)),
        },
{
    match reply {
        Ok(bytes) => {
            if bytes.len() == 0 {
                Err(CallError::EmptyResult)
            } else {
                Ok(bytes)
            }
        },
        Err(message) => Err(CallError::Failed(message)),
    }
}

/// The result of a call that may or may not return one: the bytes that were
/// returned, if any were.
pub fn optional_result(reply: Result<Vec<u8>, String>) -> (r: Result<Option<Vec<u8>>, CallError>)
    ensures
        match reply {
            Ok(bytes) => if bytes@.len() == 0 {
                r == Ok::<Option<Vec<u8>>, CallError>(None)
            } else {
                r == Ok::<Option<Vec<u8>>, CallError>(Some(bytes))
            },
            Err(message) => r == Err::<Option<Vec<u8>>, CallError>(CallError::Failed(message)),
        },
{
    match reply {
        Ok(bytes) => {
            if bytes.len() == 0 {
                Ok(None)
            } else {
                Ok(Some(bytes))
            }
        },
        Err(message) => Err(CallError::Failed(message)),
    }
}

/// The outcome of a call from which no result is expected.
pub fn expect_no_result(reply: Result<Vec<u8>, String>) -> (r: Result<(), CallError>)
    ensures
        match reply {
            Ok(bytes) => if bytes@.len() == 0 {
                r == Ok::<(), CallError>(())
            } else {
                r == Err::<(), CallError>(CallError::UnexpectedResult)
            },
            Err(message) => r == Err::<(), CallError>(CallError::Failed(message)),
        },
{
    match reply {
        Ok(bytes) => {
            if bytes.len() == 0 {
                Ok(())
            } else {
                Err(CallError::UnexpectedResult)
            }
        },
        Err(message) => Err(CallError::Failed(message)),
    }
}

} // verus!
