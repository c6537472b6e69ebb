//! Failures that the monitor tells apart.
use vstd::prelude::*;

verus! {

/// A failure of the monitor, each kind carrying the description it came with.
///
/// Probe and store-write failures happen inside a sweep and are only reported;
/// store-read failures are surfaced to whoever asked for a series or incidents;
/// an endpoint-source failure ends the current sweep.
#[derive(Clone, Debug, PartialEq, Eq)]
pub enum ApiError {
    ProbeFailure(String),
    StoreWriteFailure(String),
    StoreReadFailure(String),
    EndpointSourceFailure(String),
    /// A new endpoint was refused because its URL does not parse.
    InvalidUrl(String),
}

impl ApiError {
    /// The failure came from reading the sample store, so the request fails.
    pub open spec fn is_read_path_spec(&self) -> bool {
        self is StoreReadFailure
    }

    /// Whether the failure has to be surfaced to a caller rather than only logged.
    pub fn is_read_path(&self) -> (r: bool)
        ensures
            r == self.is_read_path_spec(),
    {
        match self {
            ApiError::StoreReadFailure(_) => true,
            _ => false,
        }
    }

    /// The HTTP status that a request failing with this error answers with.
    pub fn http_status(&self) -> (r: u16)
        ensures
            r == 500,
    {
        500
    }

    /// The description that the failure carries.
    pub fn description(&self) -> (r: &String)
        ensures
            *r == match self {
                ApiError::ProbeFailure(d) => d,
                ApiError::StoreWriteFailure(d) => d,
                ApiError::StoreReadFailure(d) => d,
                ApiError::EndpointSourceFailure(d) => d,
                ApiError::InvalidUrl(d) => d,
            },
    {
        match self {
            ApiError::ProbeFailure(d) => d,
            ApiError::StoreWriteFailure(d) => d,
            ApiError::StoreReadFailure(d) => d,
            ApiError::EndpointSourceFailure(d) => d,
            ApiError::InvalidUrl(d) => d,
        }
    }
}

} // verus!
