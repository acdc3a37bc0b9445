//! The read-only validation endpoints. Each takes the submitted string and
//! returns the multi-line criteria report of the corresponding validator, so
//! clients can pre-check a field before submitting a transaction.

use vstd::prelude::*;

use crate::validation::check_domain;
use crate::validation::check_email;
use crate::validation::check_info;
use crate::validation::check_ip;
use crate::validation::check_key;
use crate::validation::check_name;
use crate::validation::spec_check_domain;
use crate::validation::spec_check_email;
use crate::validation::spec_check_info;
use crate::validation::spec_check_ip;
use crate::validation::spec_check_key;
use crate::validation::spec_check_name;
use vstd::string::StringSliceAdditionalSpecFns;
use vstd::utf8::encode_utf8;
use vstd::utf8::valid_utf8;

verus! {

/// Relies on String::from_utf8: wraps well-formed UTF-8 bytes into a string
/// unchanged.
#[verifier::external_body]
fn utf8_bytes_to_string(v: Vec<u8>) -> (r: String)
    requires
        valid_utf8(v@),
    ensures
        encode_utf8(r@) == v@,
{
    String::from_utf8(v).unwrap_or_default()
}

/// The validation endpoints over a client handle. The handle itself is only
/// carried; every endpoint is a pure function of its argument.
pub struct SiipRpcStruct<C> {
    pub client: C,
}

impl<C> SiipRpcStruct<C> {
    /// Endpoints over the given client handle.
    pub fn new(client: C) -> (r: SiipRpcStruct<C>) {
        SiipRpcStruct { client }
    }

    /// The criteria report for an owner name.
    pub fn validate_name(&self, name: String) -> (r: String)
        ensures
            encode_utf8(r@) == spec_check_name(encode_utf8(name@)),
    {
        utf8_bytes_to_string(check_name(name.as_str().as_bytes()))
    }

    /// The criteria report for a domain.
    pub fn validate_domain(&self, domain: String) -> (r: String)
        ensures
            encode_utf8(r@) == spec_check_domain(encode_utf8(domain@)),
    {
        utf8_bytes_to_string(check_domain(domain.as_str().as_bytes()))
    }

    /// The criteria report for an IPv4 address.
    pub fn validate_ip(&self, ip: String) -> (r: String)
        ensures
            encode_utf8(r@) == spec_check_ip(encode_utf8(ip@)),
    {
        utf8_bytes_to_string(check_ip(ip.as_str().as_bytes()))
    }

    /// The criteria report for a metadata blob.
    pub fn validate_info(&self, info: String) -> (r: String)
        ensures
            encode_utf8(r@) == spec_check_info(encode_utf8(info@)),
    {
        utf8_bytes_to_string(check_info(info.as_str().as_bytes()))
    }

    /// The criteria report for a public key.
    pub fn validate_key(&self, key: String) -> (r: String)
        ensures
            encode_utf8(r@) == spec_check_key(encode_utf8(key@)),
    {
        utf8_bytes_to_string(check_key(key.as_str().as_bytes()))
    }

    /// The criteria report for an email address.
    pub fn validate_email(&self, email: String) -> (r: String)
        ensures
            encode_utf8(r@) == spec_check_email(encode_utf8(email@)),
    {
        utf8_bytes_to_string(check_email(email.as_str().as_bytes()))
    }
}

} // verus!
