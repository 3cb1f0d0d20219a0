use vstd::prelude::*;

pub mod encoding;
pub mod params;
pub mod text;
pub mod oauth;
pub mod target;
pub mod proxy;

verus! {

/// OAuth consumer and token credentials, fixed at startup and shared
/// read-only by every request.
pub struct Credentials {
    pub consumer_key: String,
    pub consumer_secret: String,
    pub token: Option<String>,
    pub token_secret: Option<String>,
}

} // verus!
