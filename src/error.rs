use vstd::prelude::*;

verus! {

#[verifier::external_type_specification]
#[verifier::external_body]
pub struct ExUrlParseError(url::ParseError);

/// Why the proxy could not start or could not serve one request.
#[derive(Debug)]
pub enum ProxyError {
    /// No key was configured (after blank entries were dropped).
    EmptyKeySet,
    /// The upstream base address is not a valid URL.
    InvalidEndpoint { endpoint: String, source: url::ParseError },
    /// The store holds no key at all.
    NoAvailableKeys,
    /// The persistent store failed; the message says how.
    Database(String),
    /// The upstream could not be reached; the message says how.
    Http(String),
}

} // verus!
