use vstd::prelude::*;

verus! {

/// An HTTP method a configured resource accepts.
#[derive(Clone, Copy, Debug, PartialEq, Eq, Structural)]
pub enum HttpMethod {
    GET,
    POST,
    PUT,
    PATCH,
    DELETE,
    HEAD,
}

/// One configured REST resource: the methods it accepts, its route pattern,
/// and the query parameters it extracts.
#[derive(Clone, Debug)]
pub struct RestConfig {
    pub method: Vec<HttpMethod>,
    pub path: String,
    pub params: Option<Vec<String>>,
}

/// The validated listener configuration, with explicit defaults.
#[derive(Clone, Debug)]
pub struct Config {
    /// Host to listen on; defaults to every interface.
    pub host: String,
    /// Port to listen on; defaults to 8000.
    pub port: u32,
    pub resources: Vec<RestConfig>,
}

/// The default listen host.
pub fn dflt_host() -> (r: String)
    ensures
        r@ == "0.0.0.0"@,
{
    "0.0.0.0".to_owned()
}

/// The default listen port.
pub fn dflt_port() -> (r: u32)
    ensures
        r == 8000,
{
    8000
}

impl Default for Config {
    fn default() -> (r: Config)
        ensures
            r.host@ == "0.0.0.0"@,
            r.port == 8000,
            r.resources@.len() == 0,
    {
        Config { host: dflt_host(), port: dflt_port(), resources: Vec::new() }
    }
}

/// The HTTP onramp: holds its validated configuration; the listener itself
/// and its route matching live with the surrounding wiring.
#[derive(Clone, Debug)]
pub struct Http {
    pub config: Config,
}

impl Http {
    /// The codec this onramp decodes with when none is configured: the one
    /// name this crate's codec registry resolves.
    pub fn default_codec(&self) -> (r: &'static str)
        ensures
            r@ == "binary"@,
    {
        "binary"
    }
}

/// What one accepted HTTP request carries into the dataflow: its paths,
/// query string, captured path parameters, headers, body and method.
#[derive(Clone, Debug)]
pub struct Response {
    pub path: String,
    pub query_params: String,
    pub actual_path: String,
    pub path_params: Vec<(String, String)>,
    pub headers: Vec<(String, String)>,
    pub body: String,
    pub method: String,
}

} // verus!
