//! Lookup objects: domains, IP addresses, autonomous-system numbers, or
//! uninterpreted text, with the inference that classifies raw input.

use vstd::prelude::*;
use crate::ip::{IpAddress, spec_parse_ip, parse_ip, spec_render_ip, render_ip};
use crate::textutil::{spec_parse_u64, parse_u64, spec_dec_chars, u64_to_string};

verus! {

#[derive(Clone, Copy, PartialEq, Eq, Structural, Debug)]
pub enum WhoisQueryType {
    Domain,
    IpAddr,
    AS,
    Unspecified,
}

/// A lookup object.
#[derive(Clone)]
pub enum WhoisQuery {
    Domain(String),
    IpAddr(IpAddress),
    AS(u32),
    Unspecified(String),
}

/// An autonomous-system number: a decimal below 2^32.
pub open spec fn spec_parse_u32(s: Seq<char>) -> Option<int> {
    match spec_parse_u64(s) {
        Option::Some(v) => if v <= 0xFFFF_FFFF {
            Some(v)
        } else {
            None
        },
        Option::None => None,
    }
}

/// The kind raw input classifies as: with inference disabled everything is
/// `Unspecified`; otherwise an IP literal, then a decimal ASN, then a
/// domain.
pub open spec fn spec_classified_type(s: Seq<char>, unspecified: bool) -> WhoisQueryType {
    if unspecified {
        WhoisQueryType::Unspecified
    } else {
        match spec_parse_ip(s) {
            Option::Some(_) => WhoisQueryType::IpAddr,
            Option::None => match spec_parse_u32(s) {
                Option::Some(_) => WhoisQueryType::AS,
                Option::None => WhoisQueryType::Domain,
            },
        }
    }
}

/// What the classified query renders as: the raw text, or the canonical
/// form of the address or number it was read as.
pub open spec fn spec_classified_text(s: Seq<char>, unspecified: bool) -> Seq<char> {
    if unspecified {
        s
    } else {
        match spec_parse_ip(s) {
            Option::Some(a) => spec_render_ip(a),
            Option::None => match spec_parse_u32(s) {
                Option::Some(v) => spec_dec_chars(v as nat),
                Option::None => s,
            },
        }
    }
}

impl WhoisQuery {
    /// The text the query renders as: its stored text, or the canonical
    /// form of its address or number.
    pub open spec fn spec_text(self) -> Seq<char> {
        match self {
            WhoisQuery::Domain(x) => x@,
            WhoisQuery::IpAddr(a) => spec_render_ip(a),
            WhoisQuery::AS(n) => spec_dec_chars(n as nat),
            WhoisQuery::Unspecified(x) => x@,
        }
    }

    pub open spec fn spec_get_type(self) -> WhoisQueryType {
        match self {
            WhoisQuery::Domain(_) => WhoisQueryType::Domain,
            WhoisQuery::IpAddr(_) => WhoisQueryType::IpAddr,
            WhoisQuery::AS(_) => WhoisQueryType::AS,
            WhoisQuery::Unspecified(_) => WhoisQueryType::Unspecified,
        }
    }

    /// Classifies raw input: with inference disabled everything is
    /// `Unspecified`; otherwise an IP literal, then a decimal ASN, then a
    /// domain.
    pub fn new(query: String, unspecified: bool) -> (r: Self)
        ensures
            unspecified ==> r == WhoisQuery::Unspecified(query),
            !unspecified ==> match spec_parse_ip(query@) {
                Option::Some(a) => r == WhoisQuery::IpAddr(a),
                Option::None => match spec_parse_u32(query@) {
                    Option::Some(v) => r == WhoisQuery::AS(v as u32),
                    Option::None => r == WhoisQuery::Domain(query),
                },
            },
            r.spec_get_type() == spec_classified_type(query@, unspecified),
            r.spec_text() == spec_classified_text(query@, unspecified),
    {
        if unspecified {
            WhoisQuery::Unspecified(query)
        } else {
            match parse_ip(query.as_str()) {
                Some(a) => WhoisQuery::IpAddr(a),
                None => {
                    let asn = parse_u64(query.as_str());
                    match asn {
                        Some(v) => {
                            if v <= 0xFFFF_FFFFu64 {
                                WhoisQuery::AS(v as u32)
                            } else {
                                WhoisQuery::Domain(query)
                            }
                        },
                        None => WhoisQuery::Domain(query),
                    }
                },
            }
        }
    }

    pub fn get_type(&self) -> (r: WhoisQueryType)
        ensures
            r == self.spec_get_type(),
    {
        match self {
            WhoisQuery::Domain(_) => WhoisQueryType::Domain,
            WhoisQuery::IpAddr(_) => WhoisQueryType::IpAddr,
            WhoisQuery::AS(_) => WhoisQueryType::AS,
            WhoisQuery::Unspecified(_) => WhoisQueryType::Unspecified,
        }
    }

    /// The query's textual rendering.
    pub fn to_string(&self) -> (r: String)
        ensures
            r@ == self.spec_text(),
    {
        match self {
            WhoisQuery::Domain(x) => x.clone(),
            WhoisQuery::IpAddr(a) => render_ip(a),
            WhoisQuery::AS(n) => u64_to_string(*n as u64),
            WhoisQuery::Unspecified(x) => x.clone(),
        }
    }
}

} // verus!
