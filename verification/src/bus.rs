//! The single-instance guard on the session bus: what claiming the app's
//! well-known name means for this launch.

use vstd::prelude::*;

verus! {

/// The outcome of claiming the app's bus name.
pub enum BusAcquire {
    /// We own the name: we are the only instance.
    Primary,
    /// Another instance owns the name.
    AlreadyRunning,
    /// No usable session bus (continue without guard or widget service).
    NoBus,
}

/// What the session bus answered to a request for the name, asked without
/// queueing and without replacement.
pub enum NameRequest {
    /// No session bus could be reached.
    NoSession,
    PrimaryOwner,
    AlreadyOwner,
    InQueue,
    Exists,
    /// The request failed because the name is taken.
    NameTaken,
    /// The request failed for another reason.
    OtherError,
}

/// Owning the name (newly or already) makes this the primary instance; a
/// name held by someone else means another instance runs; anything else
/// leaves the app without a bus.
pub fn bus_acquire(r: NameRequest) -> (a: BusAcquire)
    ensures
        (r is PrimaryOwner || r is AlreadyOwner) <==> a is Primary,
        (r is InQueue || r is Exists || r is NameTaken) <==> a is AlreadyRunning,
        (r is NoSession || r is OtherError) <==> a is NoBus,
{
    match r {
        NameRequest::PrimaryOwner | NameRequest::AlreadyOwner => BusAcquire::Primary,
        NameRequest::InQueue | NameRequest::Exists | NameRequest::NameTaken => BusAcquire::AlreadyRunning,
        NameRequest::NoSession | NameRequest::OtherError => BusAcquire::NoBus,
    }
}

} // verus!
