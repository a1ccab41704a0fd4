//! Geolocation record for one address, as the enrichment collaborator
//! writes it back.

use vstd::prelude::*;

verus! {

/// Geolocation facts for one IP address. Only `ip` and `source` are always
/// known; the rest is whatever the lookup produced.
pub struct IpGeoInfo {
    pub ip: String,
    pub country: Option<String>,
    pub region: Option<String>,
    pub city: Option<String>,
    pub isp: Option<String>,
    pub asn: Option<String>,
    pub source: String,
}

impl IpGeoInfo {
    /// A record with nothing but the address and the lookup source.
    pub fn new(ip: String, source: String) -> (r: IpGeoInfo)
        ensures
            r.ip == ip,
            r.source == source,
            r.country is None,
            r.region is None,
            r.city is None,
            r.isp is None,
            r.asn is None,
    {
        IpGeoInfo { ip, country: None, region: None, city: None, isp: None, asn: None, source }
    }
}

} // verus!
