use vstd::prelude::*;

verus! {

/// Why the server refused a request.
#[derive(Clone, Copy, Debug, PartialEq, Eq, Structural)]
pub enum ApiFailure {
    /// The statistics are being written by someone else.
    DataLocked,
}

/// The answer to a request to reload the statistics: accepted while nobody
/// holds the statistics, refused with `DataLocked` otherwise.
pub fn reload_reply(lock_free: bool) -> (r: Result<&'static str, ApiFailure>)
    ensures
        lock_free ==> (r matches Ok(text) && text@ == "Reloading..."@),
        !lock_free ==> r == Err::<&'static str, ApiFailure>(ApiFailure::DataLocked),
{
    if lock_free {
        Ok("Reloading...")
    } else {
        Err(ApiFailure::DataLocked)
    }
}

} // verus!
