//! The lookup's decisions, as a step machine: each function takes what the
//! remote service answered, as plain values, and returns what the driver must
//! do next. The driver performs the two remote calls in order — list the
//! signatures for the program address, then fetch one transaction's detail —
//! and owns nothing but the transport.

use crate::base58::base58_decode;
use crate::base58::decode_spec;
use vstd::prelude::*;

verus! {

/// Why a lookup stopped without a slot.
#[derive(Clone, Copy, PartialEq, Eq, Debug)]
pub enum LookupError {
    /// Wrong argument count on invocation.
    Usage,
    /// The program identifier is not base-58 text of exactly 32 bytes.
    IdentifierParse,
    /// A remote call failed at the transport level.
    Network,
    /// The address has an empty signature history.
    NoTransactionsFound,
    /// A listed signature is not base-58 text of exactly 64 bytes.
    MalformedSignature,
    /// The remote node has no record of the selected transaction.
    TransactionNotFound,
}

/// The bytes a base-58 text stands for, where it decodes to exactly `len` of
/// them.
pub open spec fn decoded_fixed(text: Seq<u8>, len: int) -> Option<Seq<u8>> {
    match decode_spec(text) {
        Some(b) => if b.len() == len {
            Some(b)
        } else {
            None
        },
        None => None,
    }
}

/// A 32-byte on-chain program address.
#[derive(PartialEq, Eq, Debug)]
pub struct ProgramId {
    pub bytes: Vec<u8>,
}

impl ProgramId {
    pub open spec fn wf(self) -> bool {
        self.bytes@.len() == 32
    }
}

/// A 64-byte transaction signature.
#[derive(PartialEq, Eq, Debug)]
pub struct TransactionSignature {
    pub bytes: Vec<u8>,
}

impl TransactionSignature {
    pub open spec fn wf(self) -> bool {
        self.bytes@.len() == 64
    }
}

/// Decodes fixed-length base-58 text; the error to report is the caller's.
fn parse_fixed(text: &Vec<u8>, len: usize, err: LookupError) -> (r: Result<Vec<u8>, LookupError>)
    ensures
        r matches Ok(b) ==> decoded_fixed(text@, len as int) == Some(b@),
        r matches Err(e) ==> e == err && decoded_fixed(text@, len as int) is None,
{
    match base58_decode(text) {
        Some(bytes) => {
            if bytes.len() == len {
                Ok(bytes)
            } else {
                Err(err)
            }
        },
        None => Err(err),
    }
}

/// Parses a program identifier: base-58 text that must decode to exactly 32
/// bytes.
pub fn parse_program_id(text: &Vec<u8>) -> (r: Result<ProgramId, LookupError>)
    ensures
        r matches Ok(p) ==> p.wf() && decoded_fixed(text@, 32) == Some(p.bytes@),
        r matches Err(e) ==> e == LookupError::IdentifierParse && decoded_fixed(text@, 32)
            is None,
{
    match parse_fixed(text, 32, LookupError::IdentifierParse) {
        Ok(bytes) => Ok(ProgramId { bytes }),
        Err(e) => Err(e),
    }
}

/// Parses a transaction signature: base-58 text that must decode to exactly
/// 64 bytes.
pub fn parse_signature(text: &Vec<u8>) -> (r: Result<TransactionSignature, LookupError>)
    ensures
        r matches Ok(s) ==> s.wf() && decoded_fixed(text@, 64) == Some(s.bytes@),
        r matches Err(e) ==> e == LookupError::MalformedSignature && decoded_fixed(text@, 64)
            is None,
{
    match parse_fixed(text, 64, LookupError::MalformedSignature) {
        Ok(bytes) => Ok(TransactionSignature { bytes }),
        Err(e) => Err(e),
    }
}

/// What the driver must do next.
#[derive(PartialEq, Eq, Debug)]
pub enum Step {
    /// Ask the node for the signatures recorded for this address, newest
    /// first.
    FetchSignatures(ProgramId),
    /// Ask the node for this transaction's detail.
    FetchTransaction(TransactionSignature),
    /// The lookup succeeded with this slot.
    Done(u64),
    /// The lookup failed; nothing more is to be asked.
    Failed(LookupError),
}

/// What came back from listing the signatures for an address.
#[derive(PartialEq, Eq, Debug)]
pub enum SignaturesOutcome {
    /// The listed signatures as base-58 text, newest first.
    Listed(Vec<Vec<u8>>),
    /// The call failed at the transport level.
    Unreachable,
}

/// What came back from fetching one transaction's detail.
#[derive(Clone, Copy, PartialEq, Eq, Debug)]
pub enum TransactionOutcome {
    /// The transaction was found, confirmed in this slot.
    Confirmed(u64),
    /// The node has no record of the transaction.
    Missing,
    /// The call failed at the transport level.
    Unreachable,
}

/// Begins a lookup: parse the program identifier. No remote call is asked
/// for unless the identifier is well-formed.
pub fn start_lookup(program_text: &Vec<u8>) -> (r: Step)
    ensures
        decoded_fixed(program_text@, 32) matches Some(b) ==> (r matches Step::FetchSignatures(p)
            && p.bytes@ == b),
        decoded_fixed(program_text@, 32) is None ==> r == Step::Failed(
            LookupError::IdentifierParse,
        ),
{
    match parse_program_id(program_text) {
        Ok(p) => Step::FetchSignatures(p),
        Err(e) => Step::Failed(e),
    }
}

/// Decides after the signature listing: an empty history fails the lookup;
/// otherwise the last listed signature — the oldest, since the service lists
/// newest first — is parsed and its transaction is fetched next.
pub fn on_signatures(outcome: SignaturesOutcome) -> (r: Step)
    ensures
        outcome matches SignaturesOutcome::Listed(sigs) ==> {
            if sigs@.len() == 0 {
                r == Step::Failed(LookupError::NoTransactionsFound)
            } else {
                match decoded_fixed(sigs@.last()@, 64) {
                    Some(b) => r matches Step::FetchTransaction(s) && s.bytes@ == b,
                    None => r == Step::Failed(LookupError::MalformedSignature),
                }
            }
        },
        outcome is Unreachable ==> r == Step::Failed(LookupError::Network),
{
    match outcome {
        SignaturesOutcome::Listed(sigs) => {
            if sigs.len() == 0 {
                Step::Failed(LookupError::NoTransactionsFound)
            } else {
                let oldest = &sigs[sigs.len() - 1];
                match parse_signature(oldest) {
                    Ok(s) => Step::FetchTransaction(s),
                    Err(e) => Step::Failed(e),
                }
            }
        },
        SignaturesOutcome::Unreachable => Step::Failed(LookupError::Network),
    }
}

/// Decides after the transaction fetch: the confirmed slot is the result; a
/// transaction the node no longer records fails the lookup.
pub fn on_transaction(outcome: TransactionOutcome) -> (r: Step)
    ensures
        outcome matches TransactionOutcome::Confirmed(slot) ==> r == Step::Done(slot),
        outcome is Missing ==> r == Step::Failed(LookupError::TransactionNotFound),
        outcome is Unreachable ==> r == Step::Failed(LookupError::Network),
{
    match outcome {
        TransactionOutcome::Confirmed(slot) => Step::Done(slot),
        TransactionOutcome::Missing => Step::Failed(LookupError::TransactionNotFound),
        TransactionOutcome::Unreachable => Step::Failed(LookupError::Network),
    }
}

/// An invocation's two positional arguments.
#[derive(PartialEq, Eq, Debug)]
pub struct Invocation {
    /// The remote node's URL, passed through unvalidated.
    pub endpoint: Vec<u8>,
    /// The program identifier as given, base-58 text.
    pub program_text: Vec<u8>,
}

/// Reads the argument list (program name included): exactly two positional
/// arguments are accepted, the endpoint and the program identifier; any
/// other count is a usage error.
pub fn parse_invocation(args: Vec<Vec<u8>>) -> (r: Result<Invocation, LookupError>)
    ensures
        r is Ok <==> args@.len() == 3,
        r matches Ok(inv) ==> inv.endpoint@ == args@[1]@ && inv.program_text@ == args@[2]@,
        r matches Err(e) ==> e == LookupError::Usage,
{
    if args.len() != 3 {
        return Err(LookupError::Usage);
    }
    let mut rest = args;
    let endpoint = rest.remove(1);
    let program_text = rest.remove(1);
    Ok(Invocation { endpoint, program_text })
}

} // verus!
