use ingress_guard::address::IpAddress;
use ingress_guard::origin::OriginResolver;
use ingress_guard::origin::Outcome;
use ingress_guard::origin::TrustConfig;

fn proxy() -> IpAddress {
    IpAddress::v4(10, 0, 0, 1)
}

fn strict() -> TrustConfig {
    TrustConfig::new(Some(proxy()), true)
}

fn lenient() -> TrustConfig {
    TrustConfig::new(Some(proxy()), false)
}

#[test]
fn proxied_request_is_resolved_from_the_header() {
    let client = IpAddress::v4(203, 0, 113, 5);
    for config in [strict(), lenient()] {
        assert_eq!(config.resolve(Some(proxy()), Some("203.0.113.5")), Outcome::Resolved(client));
        assert_eq!(
            config.resolve(Some(proxy()), Some("203.0.113.5:4711")),
            Outcome::Resolved(client)
        );
        assert_eq!(
            config.resolve(Some(proxy()), Some("[2001:db8::1]:443")),
            Outcome::Resolved(IpAddress::V6(0x2001_0db8_0000_0000_0000_0000_0000_0001))
        );
    }
}

#[test]
fn proxied_request_may_name_the_proxy_itself() {
    assert_eq!(strict().resolve(Some(proxy()), Some("10.0.0.1")), Outcome::Resolved(proxy()));
}

#[test]
fn proxied_request_without_usable_header_is_unresolvable() {
    for config in [strict(), lenient()] {
        assert_eq!(config.resolve(Some(proxy()), None), Outcome::Unresolvable);
        assert_eq!(config.resolve(Some(proxy()), Some("")), Outcome::Unresolvable);
        assert_eq!(config.resolve(Some(proxy()), Some("garbage")), Outcome::Unresolvable);
        assert_eq!(config.resolve(Some(proxy()), Some("203.0.113.5, 10.0.0.1")), Outcome::Unresolvable);
    }
}

#[test]
fn direct_request_ignores_the_header() {
    let peer = IpAddress::v4(198, 51, 100, 7);
    assert!(!lenient().is_misconfigured(Some(peer)));
    for header in [None, Some("203.0.113.5"), Some("203.0.113.5:4711"), Some("garbage"), Some("")] {
        assert_eq!(lenient().resolve(Some(peer), header), Outcome::Resolved(peer));
    }
}

#[test]
fn strict_mode_finds_a_direct_request_misconfigured() {
    let config = TrustConfig::new(Some(IpAddress::v4(10, 0, 0, 1)), true);
    assert!(config.is_misconfigured(Some(IpAddress::v4(198, 51, 100, 7))));
    assert!(strict().is_misconfigured(Some(IpAddress::v4(203, 0, 113, 5))));
    assert!(OriginResolver::TrustedProxy(strict()).is_misconfigured(Some(IpAddress::V6(7))));
}

#[test]
fn requests_on_the_declared_path_are_not_misconfigured() {
    let home = IpAddress::v4(127, 0, 0, 1);
    for config in [strict(), lenient()] {
        assert!(!config.is_misconfigured(None));
        assert!(!config.is_misconfigured(Some(proxy())));
        assert!(!config.is_misconfigured(Some(home)));
    }
    assert!(!lenient().is_misconfigured(Some(IpAddress::v4(198, 51, 100, 7))));
    assert!(!OriginResolver::DirectPeer.is_misconfigured(Some(IpAddress::v4(198, 51, 100, 7))));
    assert!(!OriginResolver::DirectPeer.is_misconfigured(None));
}

#[test]
fn strict_mode_lets_loopback_through() {
    let home = IpAddress::v4(127, 0, 0, 1);
    assert!(home.is_loopback());
    assert_eq!(strict().resolve(Some(home), None), Outcome::Resolved(home));
    assert_eq!(strict().resolve(Some(home), Some("203.0.113.5")), Outcome::Resolved(home));
}

#[test]
fn strict_mode_takes_only_one_address_for_loopback() {
    for peer in [IpAddress::v4(127, 0, 0, 2), IpAddress::V6(1), IpAddress::v4(0, 0, 0, 0)] {
        assert!(!peer.is_loopback());
        assert!(strict().is_misconfigured(Some(peer)));
    }
}

#[test]
fn request_without_peer_is_unresolvable() {
    for config in [strict(), lenient()] {
        assert_eq!(config.resolve(None, None), Outcome::Unresolvable);
        assert_eq!(config.resolve(None, Some("203.0.113.5")), Outcome::Unresolvable);
    }
}

#[test]
fn unset_proxy_is_the_unspecified_address() {
    let config = TrustConfig::new(None, false);
    assert_eq!(config.proxy_address, IpAddress::v4(0, 0, 0, 0));
    assert!(!config.strict_mode);
}

#[test]
fn resolver_without_proxy_takes_the_peer() {
    let peer = IpAddress::v4(198, 51, 100, 7);
    let resolver = OriginResolver::DirectPeer;
    assert_eq!(resolver.resolve(Some(peer), Some("203.0.113.5")), Outcome::Resolved(peer));
    assert_eq!(resolver.resolve(None, Some("203.0.113.5")), Outcome::Unresolvable);
}

#[test]
fn resolver_with_proxy_follows_the_trust_boundary() {
    let resolver = OriginResolver::TrustedProxy(strict());
    assert_eq!(
        resolver.resolve(Some(proxy()), Some("203.0.113.5:1")),
        Outcome::Resolved(IpAddress::v4(203, 0, 113, 5))
    );
    assert!(resolver.is_misconfigured(Some(IpAddress::v4(1, 1, 1, 1))));
    assert_eq!(
        resolver.resolve(Some(IpAddress::v4(127, 0, 0, 1)), None),
        Outcome::Resolved(IpAddress::v4(127, 0, 0, 1))
    );
}
