//! The lease service: leases are granted and revoked by name only; none
//! expires.

use vstd::prelude::*;

verus! {

#[derive(Debug, PartialEq, Eq)]
pub struct LeaseGrantResponse {
    /// The revision in the header.
    pub revision: i64,
    pub id: i64,
    pub ttl: i64,
}

#[derive(Debug, PartialEq, Eq)]
pub struct LeaseRevokeResponse {
    /// The revision in the header.
    pub revision: i64,
}

#[derive(Debug, PartialEq, Eq)]
pub struct LeaseKeepAliveResponse {
    /// The revision in the header.
    pub revision: i64,
    pub id: i64,
    pub ttl: i64,
}

/// The calls that the lease service does not offer.
#[derive(Copy, Clone, Debug, PartialEq, Eq, Structural)]
pub enum LeaseCall {
    TimeToLive,
    Leases,
}

impl LeaseCall {
    /// The text with which the call is refused as unimplemented.
    pub fn message(&self) -> (m: &'static str)
        ensures
            m@ == match self {
                LeaseCall::TimeToLive => "lease_time_to_live not implemented"@,
                LeaseCall::Leases => "lease_leases not implemented"@,
            },
    {
        match self {
            LeaseCall::TimeToLive => "lease_time_to_live not implemented",
            LeaseCall::Leases => "lease_leases not implemented",
        }
    }
}

pub struct LeaseService {
    /// The id that the next lease without one gets.
    lease_id: i64,
}

/// The id after `id`, wrapping round at the end of the range.
pub open spec fn next_id(id: i64) -> i64 {
    if id == i64::MAX {
        i64::MIN
    } else {
        (id + 1) as i64
    }
}

impl View for LeaseService {
    type V = i64;

    closed spec fn view(&self) -> i64 {
        self.lease_id
    }
}

impl LeaseService {
    /// A service whose first lease without an id gets the id 0.
    pub fn new() -> (s: Self)
        ensures
            s@ == 0,
    {
        LeaseService { lease_id: 0 }
    }

    /// Grants a lease under the id asked for, or under the next id of the
    /// service where 0 is asked for, with the time to live asked for.
    pub fn lease_grant(&mut self, id: i64, ttl: i64) -> (r: LeaseGrantResponse)
        ensures
            r == (LeaseGrantResponse {
                revision: 1,
                id: if id == 0 {
                    old(self)@
                } else {
                    id
                },
                ttl,
            }),
            final(self)@ == if id == 0 {
                next_id(old(self)@)
            } else {
                old(self)@
            },
    {
        let granted_id = if id == 0 {
            let granted = self.lease_id;
            self.lease_id = if granted == i64::MAX {
                i64::MIN
            } else {
                granted + 1
            };
            granted
        } else {
            id
        };
        LeaseGrantResponse { revision: 1, id: granted_id, ttl }
    }

    /// Revokes a lease: nothing is attached to it, so nothing happens.
    pub fn lease_revoke(&self, id: i64) -> (r: LeaseRevokeResponse)
        ensures
            r == (LeaseRevokeResponse { revision: 2 }),
    {
        LeaseRevokeResponse { revision: 2 }
    }

    /// The one message that answers a stream of keep-alive requests.
    pub fn lease_keep_alive(&self) -> (r: LeaseKeepAliveResponse)
        ensures
            r == (LeaseKeepAliveResponse { revision: 1, id: 0, ttl: 0 }),
    {
        LeaseKeepAliveResponse { revision: 1, id: 0, ttl: 0 }
    }
}

} // verus!
