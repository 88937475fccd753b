//! Per-connection state: one WHOIS conversation's buffers, target and
//! progress.  The socket itself lives with the caller; the record only
//! holds what the dispatcher decides over.

use vstd::prelude::*;
use crate::query::WhoisQuery;
use crate::ip::IpAddress;
use vstd::string::StrSliceExecFns;

verus! {

/// Where a slot stands in its life cycle.
#[derive(PartialEq, Eq, Copy, Clone, Debug, Structural)]
pub enum Status {
    Initial,
    DNS,
    Referral,
    Other,
}

/// The availability verdict over a response body.
#[derive(PartialEq, Eq, Copy, Clone, Debug, Structural)]
pub enum Availability {
    AVAILABLE,
    UNAVAILABLE,
    UNKNOWN,
}

impl Availability {
    /// The verdict's name.
    pub fn to_string(&self) -> (r: String)
        ensures
            *self == Availability::AVAILABLE ==> r@ == "AVAILABLE"@,
            *self == Availability::UNAVAILABLE ==> r@ == "UNAVAILABLE"@,
            *self == Availability::UNKNOWN ==> r@ == "UNKNOWN"@,
    {
        match self {
            Availability::AVAILABLE => "AVAILABLE".to_owned(),
            Availability::UNAVAILABLE => "UNAVAILABLE".to_owned(),
            Availability::UNKNOWN => "UNKNOWN".to_owned(),
        }
    }
}

/// One slot of the dispatcher pool.
pub struct WhoisClient {
    pub token: usize,
    pub query_str: String,
    pub inbuf: Vec<u8>,
    pub outbuf: Vec<u8>,
    pub terminated: bool,
    pub dns_tries: usize,
    pub error: bool,
    pub query: WhoisQuery,
    pub referral_count: usize,
    pub server: Option<String>,
    pub address: Option<IpAddress>,
    pub status: Status,
    pub availability: Availability,
}

impl WhoisClient {
    /// A fresh slot record: the wire string followed by a newline is queued
    /// for sending, the inbound buffer starts empty.
    pub fn new(
        concurrency_index: usize,
        query: WhoisQuery,
        query_str: String,
        address: Option<IpAddress>,
        server: Option<String>,
    ) -> (r: Self)
        ensures
            r.token == concurrency_index,
            r.query == query,
            r.query_str == query_str,
            r.address == address,
            r.server == server,
            r.inbuf@ =~= Seq::<u8>::empty(),
            r.outbuf@ =~= vstd::utf8::encode_utf8(query_str@) + seq![10u8],
            !r.terminated,
            !r.error,
            r.dns_tries == 0,
            r.referral_count == 0,
            r.status == Status::Initial,
            r.availability == Availability::UNKNOWN,
    {
        let mut outbuf: Vec<u8> = query_str.as_str().as_bytes_vec();
        outbuf.push(10u8);
        WhoisClient {
            token: concurrency_index,
            inbuf: Vec::new(),
            outbuf,
            query_str,
            terminated: false,
            dns_tries: 0,
            error: false,
            query,
            referral_count: 0,
            server,
            address,
            status: Status::Initial,
            availability: Availability::UNKNOWN,
        }
    }
}

} // verus!
