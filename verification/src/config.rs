//! What a deployment is configured with: the trust boundary, the whitelist,
//! the quota, and where the service listens.

use crate::address::IpAddress;
use crate::bucket::Quota;
use crate::origin::OriginResolver;
use crate::origin::TrustConfig;
use crate::parse::ip_of_text;
use crate::parse::parse_ip;
use crate::utils::env::find;
use crate::utils::env::get_env_or;
use crate::utils::env::lookup;
use vstd::prelude::*;
use vstd::string::StringExecFns;

verus! {

/// Tokens refilled per second for each client.
pub const PER_SECOND: u32 = 10;

/// Tokens that the bucket of a client holds at most.
pub const BURST_SIZE: u32 = 2;

/// Why a configuration cannot be used.
#[derive(Clone, Copy, Debug, PartialEq, Eq, Structural)]
pub enum ConfigError {
    /// `REVERSE_PROXY` is not set.
    MissingProxy,
    /// `REVERSE_PROXY` is set to something that is no address.
    InvalidProxy,
    /// `WHITELIST` is set to something that is no address.
    InvalidWhitelist,
}

/// The value of the setting `key`, which is `default` where `vars` do not
/// set it.
pub open spec fn setting(vars: Seq<(String, String)>, key: Seq<char>, default: Seq<char>) -> Seq<
    char,
> {
    match lookup(vars, key) {
        Some(v) => v,
        None => default,
    }
}

/// The quota that holds for every client: ten requests a second, in bursts
/// of two.
pub fn default_quota() -> (quota: Quota)
    ensures
        quota == (Quota { per_second: PER_SECOND, burst_size: BURST_SIZE }),
        quota.wf(),
{
    Quota { per_second: PER_SECOND, burst_size: BURST_SIZE }
}

/// The name under which resolved identities appear in logs.
pub fn name() -> (name: &'static str)
    ensures
        name@ == "Proxy IP"@,
{
    "Proxy IP"
}

/// The text under which the identity `key` appears in logs: the address
/// written out.
pub fn key_name(key: &IpAddress) -> (text: Option<String>)
    ensures
        text is Some,
        text->0@ == key.spec_text(),
{
    Some(key.to_text())
}

/// The one address that `WHITELIST` names, which is `127.0.0.1` where it is
/// not set; none if it is set to something that is no address.
pub open spec fn whitelist_of(vars: Seq<(String, String)>) -> Option<IpAddress> {
    ip_of_text(setting(vars, "WHITELIST"@, "127.0.0.1"@))
}

/// Tells whether `WHITELIST` names an address or is not set.
pub fn has_valid_whitelist(vars: &Vec<(String, String)>) -> (b: bool)
    ensures
        b == (whitelist_of(vars@) is Some),
{
    let text = get_env_or(vars, "WHITELIST", "127.0.0.1");
    parse_ip(text.as_str()).is_some()
}

/// The clients that are never rate limited: the one address that `WHITELIST`
/// names, which is `127.0.0.1` where it is not set. It must name an address;
/// `has_valid_whitelist` tells.
pub fn whitelisted_keys(vars: &Vec<(String, String)>) -> (keys: Vec<IpAddress>)
    requires
        whitelist_of(vars@) is Some,
    ensures
        keys@ == seq![whitelist_of(vars@)->0],
{
    let text = get_env_or(vars, "WHITELIST", "127.0.0.1");
    let mut keys: Vec<IpAddress> = Vec::new();
    match parse_ip(text.as_str()) {
        Some(ip) => {
            keys.push(ip);
        },
        None => {},
    }
    keys
}

/// The address of the trusted reverse proxy: what `REVERSE_PROXY` names.
pub fn reverse_proxy(vars: &Vec<(String, String)>) -> (proxy: Result<IpAddress, ConfigError>)
    ensures
        proxy == match lookup(vars@, "REVERSE_PROXY"@) {
            None => Err::<IpAddress, ConfigError>(ConfigError::MissingProxy),
            Some(text) => match ip_of_text(text) {
                Some(ip) => Ok(ip),
                None => Err(ConfigError::InvalidProxy),
            },
        },
{
    match find(vars, "REVERSE_PROXY") {
        None => Err(ConfigError::MissingProxy),
        Some(text) => match parse_ip(text.as_str()) {
            Some(ip) => Ok(ip),
            None => Err(ConfigError::InvalidProxy),
        },
    }
}

/// The trust boundary of a deployment behind the proxy that `REVERSE_PROXY`
/// names.
pub fn trust_config(vars: &Vec<(String, String)>, strict_mode: bool) -> (config: Result<
    TrustConfig,
    ConfigError,
>)
    ensures
        config == match lookup(vars@, "REVERSE_PROXY"@) {
            None => Err::<TrustConfig, ConfigError>(ConfigError::MissingProxy),
            Some(text) => match ip_of_text(text) {
                Some(ip) => Ok(TrustConfig { proxy_address: ip, strict_mode }),
                None => Err(ConfigError::InvalidProxy),
            },
        },
{
    match reverse_proxy(vars) {
        Ok(ip) => Ok(TrustConfig { proxy_address: ip, strict_mode }),
        Err(e) => Err(e),
    }
}

/// How a deployment resolves identities, and whom it never limits.
///
/// Where `REVERSE_PROXY` is set the service stands behind that proxy, under
/// `strict_mode`; where it is not, the peer of a connection is the client.
/// A proxy that is no address is reported first, then a whitelist that is
/// none.
pub open spec fn deployment(vars: Seq<(String, String)>, strict_mode: bool) -> Result<
    (OriginResolver, Seq<IpAddress>),
    ConfigError,
> {
    let resolver = match lookup(vars, "REVERSE_PROXY"@) {
        None => Ok(OriginResolver::DirectPeer),
        Some(text) => match ip_of_text(text) {
            Some(ip) => Ok(
                OriginResolver::TrustedProxy(TrustConfig { proxy_address: ip, strict_mode }),
            ),
            None => Err(ConfigError::InvalidProxy),
        },
    };
    match resolver {
        Err(e) => Err(e),
        Ok(r) => match whitelist_of(vars) {
            Some(ip) => Ok((r, seq![ip])),
            None => Err(ConfigError::InvalidWhitelist),
        },
    }
}

/// Reads from `vars` how the deployment resolves identities and whom it
/// never limits.
pub fn resolver_from_env(vars: &Vec<(String, String)>, strict_mode: bool) -> (r: Result<
    (OriginResolver, Vec<IpAddress>),
    ConfigError,
>)
    ensures
        r is Ok <==> deployment(vars@, strict_mode) is Ok,
        r is Ok ==> r->Ok_0.0 == deployment(vars@, strict_mode)->Ok_0.0,
        r is Ok ==> r->Ok_0.1@ == deployment(vars@, strict_mode)->Ok_0.1,
        r is Err ==> r->Err_0 == deployment(vars@, strict_mode)->Err_0,
{
    let resolver = match find(vars, "REVERSE_PROXY") {
        None => OriginResolver::DirectPeer,
        Some(text) => match parse_ip(text.as_str()) {
            Some(ip) => OriginResolver::TrustedProxy(
                TrustConfig { proxy_address: ip, strict_mode },
            ),
            None => {
                return Err(ConfigError::InvalidProxy);
            },
        },
    };
    if !has_valid_whitelist(vars) {
        return Err(ConfigError::InvalidWhitelist);
    }
    Ok((resolver, whitelisted_keys(vars)))
}

/// The port on which the service listens: what `PORT` names, which is `8080`
/// where it is not set.
pub fn port(vars: &Vec<(String, String)>) -> (port: String)
    ensures
        port@ == setting(vars@, "PORT"@, "8080"@),
{
    get_env_or(vars, "PORT", "8080")
}

/// The address to which the service binds: every interface, on `port`.
pub fn bind_address(port: &str) -> (address: String)
    ensures
        address@ == "0.0.0.0:"@ + port@,
{
    String::from_str("0.0.0.0:").concat(port)
}

} // verus!
