//! The settings that the broker starts from.

use vstd::prelude::*;

verus! {

/// How many clients may hold a credential at once where the settings do not
/// say.
pub fn default_num_concurrent() -> (n: u32)
    ensures
        n == 1,
{
    1
}

/// The address to listen on where the settings name none.
pub fn default_listen() -> (address: String)
    ensures
        address@ == "127.0.0.1:9992"@,
{
    String::from_str("127.0.0.1:9992")
}

/// How many seconds a lease lasts where the settings do not say: five
/// minutes.
pub fn default_lease_timeout_secs() -> (secs: u32)
    ensures
        secs == 300,
{
    60 * 5
}

/// The path that the endpoints hang under where the settings name none.
pub fn default_web_path() -> (path: String)
    ensures
        path@ == "/"@,
{
    String::from_str("/")
}

/// One account of a service, and how many clients may hold it at once.
#[derive(Debug)]
pub struct Credential {
    pub user: String,
    pub password: String,
    pub num_concurrent: u32,
}

/// The accounts of one service, and how long a lease on one of them lasts.
#[derive(Debug)]
pub struct Service {
    pub lease_timeout_secs: u32,
    pub credentials: Vec<Credential>,
}

/// Where the private key and the certificate chain for TLS are kept.
#[derive(Debug)]
pub struct SSLConfig {
    pub private_key_pem_file: String,
    pub certificate_chain_file: String,
}

/// Everything the broker is started with. `services` lists each service under
/// its name; where a name occurs twice, the first entry is the one in force.
#[derive(Debug)]
pub struct Config {
    pub listen_on: String,
    pub web_path: String,
    pub services: Vec<(String, Service)>,
    pub access_tokens: Vec<String>,
    pub ssl: Option<SSLConfig>,
    pub persistent_leases_filename: Option<String>,
}

impl Default for Config {
    /// The settings of a broker without services: the default address and
    /// path, no access token, plain HTTP and no snapshot file.
    fn default() -> (config: Config)
        ensures
            config.listen_on@ == "127.0.0.1:9992"@,
            config.web_path@ == "/"@,
            config.services@.len() == 0,
            config.access_tokens@.len() == 0,
            config.ssl.is_none(),
            config.persistent_leases_filename.is_none(),
    {
        Config {
            listen_on: default_listen(),
            web_path: default_web_path(),
            services: Vec::new(),
            access_tokens: Vec::new(),
            ssl: None,
            persistent_leases_filename: None,
        }
    }
}

} // verus!
