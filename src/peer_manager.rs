use vstd::prelude::*;
use crate::peer::Peer;
use crate::tracker::{GetResponse, TrackerErr};

verus! {

/// Seconds between announces when the tracker names no usable interval.
pub const DEFAULT_INTERVAL: u64 = 600;

#[derive(Debug)]
pub enum PeerManagerError {
    ConnectionFailed,
    PeerStartFailed,
    TrackerError(TrackerErr),
    TrackerFailureError(String),
}

/// What an announce yields for the peer manager: the peers and the seconds until the next
/// announce (the default when the tracker's interval is not positive), or the tracker's error.
pub fn peers_from_response(response: Result<GetResponse, TrackerErr>) -> (r: Result<
    (Vec<Peer>, u64),
    PeerManagerError,
>)
    ensures
        match response {
            Ok(GetResponse::Success { interval, peers }) => r matches Ok((ps, secs)) && ps == peers
                && secs == (if interval > 0 {
                interval as u64
            } else {
                DEFAULT_INTERVAL
            }),
            Ok(GetResponse::Failure(m)) => r matches Err(PeerManagerError::TrackerFailureError(x))
                && x == m,
            Err(e) => r matches Err(PeerManagerError::TrackerError(x)) && x == e,
        },
{
    match response {
        Ok(GetResponse::Success { interval, peers }) => {
            let secs = if interval > 0 {
                interval as u64
            } else {
                DEFAULT_INTERVAL
            };
            Ok((peers, secs))
        },
        Ok(GetResponse::Failure(message)) => Err(PeerManagerError::TrackerFailureError(message)),
        Err(e) => Err(PeerManagerError::TrackerError(e)),
    }
}

} // verus!
