use vstd::prelude::*;

verus! {

/// The error taxonomy of the service.
///
/// - `InvalidIdentifier`: a wire identifier that does not denote an internal key
///   (client fault, surfaced as a query error).
/// - `InvalidNumericLiteral`: a wire string that is not a base-10 decimal literal
///   (client fault).
/// - `DetailsNotFound`: a body exists without a matching detail row (internal
///   consistency fault, surfaced per field; carries the offending key).
/// - `GatewayUnavailable`: the persistence gateway could not be reached
///   (infrastructure fault; raised by the transport around the library).
/// - `UnsupportedOperation`: programmer misuse of the codec, a defect to fix
///   rather than a condition to recover from.
#[derive(Debug, PartialEq, Eq, Structural)]
pub enum ApiError {
    InvalidIdentifier,
    InvalidNumericLiteral,
    DetailsNotFound(i32),
    GatewayUnavailable,
    UnsupportedOperation,
}

} // verus!
