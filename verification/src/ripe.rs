//! The registry side of the pipeline: which resource list is fetched.
//! The HTTP transport and JSON decoding live with the caller; the
//! library pins the endpoint the client queries.
use vstd::prelude::*;
use vstd::string::StringExecFns;

verus! {

/// A client of the registry's country-resource-list service.
pub struct RipeClient;

impl RipeClient {
    pub fn new() -> (c: RipeClient) {
        RipeClient
    }

    /// The fixed endpoint this client queries: the IPv4 resource list
    /// assigned to country code RU.
    pub fn resource_list_url(&self) -> (u: String)
        ensures
            u@ == "https://stat.ripe.net/data/country-resource-list/data.json?resource=RU"@,
    {
        String::from_str("https://stat.ripe.net/data/country-resource-list/data.json?resource=RU")
    }
}

} // verus!
