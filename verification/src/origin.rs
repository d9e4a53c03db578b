//! Who sent a request: the client's address, taken from the connection or,
//! behind the trusted proxy, from the forwarding header.

use crate::address::IpAddress;
use crate::address::UNSPECIFIED_V4;
use crate::parse::forwarded_of_text;
use crate::parse::parse_forwarded;
use vstd::prelude::*;

verus! {

/// The trust boundary of a deployment. It is fixed when the process starts.
#[derive(Clone, Copy, Debug, PartialEq, Eq, Structural)]
pub struct TrustConfig {
    /// The one address whose forwarding header is believed.
    pub proxy_address: IpAddress,
    /// Whether a request that came past the proxy is a fault of the
    /// deployment rather than a request to serve.
    pub strict_mode: bool,
}

/// What the resolver found for one request.
#[derive(Clone, Copy, Debug, PartialEq, Eq, Structural)]
pub enum Outcome {
    /// The client's identity.
    Resolved(IpAddress),
    /// No identity can be given to this request; it is to be refused, and
    /// nothing else is affected.
    Unresolvable,
    /// The request did not take the path that the configuration declares. The
    /// process must stop serving. No request is resolved to this: it is what
    /// `is_misconfigured` tells of beforehand.
    Misconfigured,
}

/// How identities are resolved, chosen once at startup.
#[derive(Clone, Copy, Debug, PartialEq, Eq, Structural)]
pub enum OriginResolver {
    /// Behind a reverse proxy, under the given trust boundary.
    TrustedProxy(TrustConfig),
    /// Without a proxy: the peer of the connection is the client.
    DirectPeer,
}

/// The outcome for a request with the given peer and forwarding header under
/// `config`. The first rule that applies decides:
///
/// 1. without a peer address there is no identity;
/// 2. from the proxy, the identity is what the header names, and there is
///    none if the header is missing or names no address;
/// 3. from anyone else in strict mode, only the loopback address is let
///    through, as itself, and any other peer is a misconfiguration;
/// 4. from anyone else otherwise, the peer is the identity.
pub open spec fn resolution(
    config: TrustConfig,
    peer: Option<IpAddress>,
    forwarded: Option<Seq<char>>,
) -> Outcome {
    match peer {
        None => Outcome::Unresolvable,
        Some(p) => if p == config.proxy_address {
            match forwarded {
                Some(text) => match forwarded_of_text(text) {
                    Some(client) => Outcome::Resolved(client),
                    None => Outcome::Unresolvable,
                },
                None => Outcome::Unresolvable,
            }
        } else if config.strict_mode && !p.spec_is_loopback() {
            Outcome::Misconfigured
        } else {
            Outcome::Resolved(p)
        },
    }
}

/// The outcome without a proxy: the peer, if the connection has one.
pub open spec fn direct_resolution(peer: Option<IpAddress>) -> Outcome {
    match peer {
        Some(p) => Outcome::Resolved(p),
        None => Outcome::Unresolvable,
    }
}

/// The view of an optional text.
pub open spec fn text_of(forwarded: Option<&str>) -> Option<Seq<char>> {
    match forwarded {
        Some(text) => Some(text@),
        None => None,
    }
}

impl TrustConfig {
    /// A trust boundary around `proxy`. Where no proxy address is configured,
    /// `0.0.0.0` stands in, which is no peer's address.
    pub fn new(proxy: Option<IpAddress>, strict_mode: bool) -> (config: TrustConfig)
        ensures
            config.strict_mode == strict_mode,
            config.proxy_address == match proxy {
                Some(p) => p,
                None => IpAddress::V4(UNSPECIFIED_V4),
            },
    {
        let proxy_address = match proxy {
            Some(p) => p,
            None => IpAddress::V4(UNSPECIFIED_V4),
        };
        TrustConfig { proxy_address, strict_mode }
    }

    /// Whether a request from `peer` contradicts this trust boundary: in
    /// strict mode, a peer that is neither the proxy nor the loopback address.
    pub open spec fn spec_is_misconfigured(self, peer: Option<IpAddress>) -> bool {
        self.strict_mode && peer is Some && peer->0 != self.proxy_address
            && !peer->0.spec_is_loopback()
    }

    /// Tells whether a request from `peer` contradicts this trust boundary.
    /// Such a request is a fault of the deployment: it must not be resolved,
    /// and the process must stop serving.
    pub fn is_misconfigured(&self, peer: Option<IpAddress>) -> (b: bool)
        ensures
            b == self.spec_is_misconfigured(peer),
            b == (resolution(*self, peer, None) is Misconfigured),
    {
        match peer {
            Some(p) => self.strict_mode && p != self.proxy_address && !p.is_loopback(),
            None => false,
        }
    }

    /// Resolves the identity of one request from the address of its peer and
    /// the value of its forwarding header, each if there is one.
    ///
    /// The request must not contradict the trust boundary; `is_misconfigured`
    /// tells.
    pub fn resolve(&self, peer: Option<IpAddress>, forwarded: Option<&str>) -> (outcome: Outcome)
        requires
            !self.spec_is_misconfigured(peer),
        ensures
            outcome == resolution(*self, peer, text_of(forwarded)),
            !(outcome is Misconfigured),
    {
        match peer {
            None => Outcome::Unresolvable,
            Some(p) => {
                if p == self.proxy_address {
                    match forwarded {
                        Some(text) => match parse_forwarded(text) {
                            Some(client) => Outcome::Resolved(client),
                            None => Outcome::Unresolvable,
                        },
                        None => Outcome::Unresolvable,
                    }
                } else {
                    Outcome::Resolved(p)
                }
            },
        }
    }
}

impl OriginResolver {
    /// What this resolver gives for a request.
    pub open spec fn spec_resolve(
        self,
        peer: Option<IpAddress>,
        forwarded: Option<Seq<char>>,
    ) -> Outcome {
        match self {
            OriginResolver::TrustedProxy(config) => resolution(config, peer, forwarded),
            OriginResolver::DirectPeer => direct_resolution(peer),
        }
    }

    /// Whether a request from `peer` contradicts the trust boundary of this
    /// resolver. Without a proxy there is none to contradict.
    pub open spec fn spec_is_misconfigured(self, peer: Option<IpAddress>) -> bool {
        match self {
            OriginResolver::TrustedProxy(config) => config.spec_is_misconfigured(peer),
            OriginResolver::DirectPeer => false,
        }
    }

    /// Tells whether a request from `peer` contradicts the trust boundary of
    /// this resolver.
    pub fn is_misconfigured(&self, peer: Option<IpAddress>) -> (b: bool)
        ensures
            b == self.spec_is_misconfigured(peer),
            b == (self.spec_resolve(peer, None) is Misconfigured),
    {
        match self {
            OriginResolver::TrustedProxy(config) => config.is_misconfigured(peer),
            OriginResolver::DirectPeer => false,
        }
    }

    /// Resolves the identity of one request, which must not contradict the
    /// trust boundary.
    pub fn resolve(&self, peer: Option<IpAddress>, forwarded: Option<&str>) -> (outcome: Outcome)
        requires
            !self.spec_is_misconfigured(peer),
        ensures
            outcome == self.spec_resolve(peer, text_of(forwarded)),
            !(outcome is Misconfigured),
    {
        match self {
            OriginResolver::TrustedProxy(config) => config.resolve(peer, forwarded),
            OriginResolver::DirectPeer => match peer {
                Some(p) => Outcome::Resolved(p),
                None => Outcome::Unresolvable,
            },
        }
    }
}

/// A request from the proxy whose header names an address is resolved to that
/// address, whatever the proxy's own address is.
pub proof fn law_proxy_header_is_identity(
    config: TrustConfig,
    header: Seq<char>,
    client: IpAddress,
)
    requires
        forwarded_of_text(header) == Some(client),
    ensures
        resolution(config, Some(config.proxy_address), Some(header)) == Outcome::Resolved(client),
{
}

/// A request from the proxy is never resolved to anything but what its header
/// names: without such a name it has no identity.
pub proof fn law_proxy_needs_header(config: TrustConfig, forwarded: Option<Seq<char>>)
    ensures
        match resolution(config, Some(config.proxy_address), forwarded) {
            Outcome::Resolved(client) => forwarded is Some && forwarded_of_text(forwarded->0)
                == Some(client),
            Outcome::Unresolvable => forwarded is None || forwarded_of_text(forwarded->0) is None,
            Outcome::Misconfigured => false,
        },
{
}

/// A request that did not come from the proxy is resolved without a look at
/// its forwarding header: any two headers give the same outcome.
pub proof fn law_header_ignored_off_proxy(
    config: TrustConfig,
    peer: Option<IpAddress>,
    first: Option<Seq<char>>,
    second: Option<Seq<char>>,
)
    requires
        peer != Some(config.proxy_address),
    ensures
        resolution(config, peer, first) == resolution(config, peer, second),
        resolution(config, peer, first) is Resolved ==> resolution(config, peer, first)
            == Outcome::Resolved(peer->0),
{
}

/// In strict mode, the outcome is a misconfiguration exactly for a peer that
/// is neither the proxy nor the loopback address; such a request is given no
/// identity.
pub proof fn law_strict_direct_is_fatal(
    config: TrustConfig,
    peer: Option<IpAddress>,
    forwarded: Option<Seq<char>>,
)
    ensures
        resolution(config, peer, forwarded) is Misconfigured <==> {
            &&& config.strict_mode
            &&& peer is Some
            &&& peer->0 != config.proxy_address
            &&& !peer->0.spec_is_loopback()
        },
{
}

} // verus!
