//! The limits on how the tracker may be started.
use vstd::prelude::*;

verus! {

/// The most streams that may be opened at once.
pub const MAX_STREAMS: usize = 3;

/// The most price levels a snapshot may be asked for.
pub const MAX_SNAPSHOT_LIMIT: usize = 5000;

/// Why the requested settings are refused.
#[derive(Debug, Clone, Copy, PartialEq, Eq, Structural)]
pub enum SettingsError {
    TooManyStreams,
    LimitTooBig,
}

impl SettingsError {
    /// Human-readable description of the error.
    pub fn message(&self) -> (s: &'static str)
        ensures
            s@ == match *self {
                SettingsError::TooManyStreams => "To many streams. Max 3"@,
                SettingsError::LimitTooBig => "Limit is too big. Max 5000"@,
            },
    {
        match self {
            SettingsError::TooManyStreams => "To many streams. Max 3",
            SettingsError::LimitTooBig => "Limit is too big. Max 5000",
        }
    }
}

/// Checks the number of streams, then the snapshot depth.
pub fn check_settings(streams: usize, limit: usize) -> (r: Result<(), SettingsError>)
    ensures
        streams > MAX_STREAMS ==> r == Err::<(), SettingsError>(SettingsError::TooManyStreams),
        streams <= MAX_STREAMS && limit > MAX_SNAPSHOT_LIMIT ==> r == Err::<(), SettingsError>(
            SettingsError::LimitTooBig,
        ),
        streams <= MAX_STREAMS && limit <= MAX_SNAPSHOT_LIMIT ==> r is Ok,
{
    if streams > MAX_STREAMS {
        return Err(SettingsError::TooManyStreams);
    }
    if limit > MAX_SNAPSHOT_LIMIT {
        return Err(SettingsError::LimitTooBig);
    }
    Ok(())
}

} // verus!
