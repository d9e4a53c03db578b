use ingress_guard::address::IpAddress;
use ingress_guard::bucket::Quota;
use ingress_guard::config::bind_address;
use ingress_guard::config::default_quota;
use ingress_guard::config::has_valid_whitelist;
use ingress_guard::config::name;
use ingress_guard::config::port;
use ingress_guard::config::resolver_from_env;
use ingress_guard::config::reverse_proxy;
use ingress_guard::config::trust_config;
use ingress_guard::config::whitelisted_keys;
use ingress_guard::config::ConfigError;
use ingress_guard::origin::OriginResolver;
use ingress_guard::origin::TrustConfig;
use ingress_guard::repository::surrealdb_repo::ConnectionSettings;
use ingress_guard::utils::env::find;
use ingress_guard::utils::env::get_env;
use ingress_guard::utils::env::get_env_or;
use ingress_guard::utils::env::same_text;

fn vars(pairs: &[(&str, &str)]) -> Vec<(String, String)> {
    pairs.iter().map(|(k, v)| (k.to_string(), v.to_string())).collect()
}

#[test]
fn get_env_or_finds_the_value_or_the_default() {
    let vars = vars(&[("PORT", "9000"), ("HOME", "/root")]);
    assert_eq!(get_env_or(&vars, "PORT", "8080"), "9000");
    assert_eq!(get_env_or(&vars, "HOME", ""), "/root");
    assert_eq!(get_env_or(&vars, "PORTS", "8080"), "8080");
    assert_eq!(get_env_or(&vars, "port", "8080"), "8080");
    assert_eq!(get_env_or(&Vec::new(), "PORT", "8080"), "8080");
}

#[test]
fn get_env_finds_the_value() {
    let vars = vars(&[("REVERSE_PROXY", "10.0.0.1"), ("EMPTY", "")]);
    assert_eq!(get_env(&vars, "REVERSE_PROXY"), "10.0.0.1");
    assert_eq!(get_env(&vars, "EMPTY"), "");
}

#[test]
fn later_pair_overrides_earlier() {
    let vars = vars(&[("A", "1"), ("B", "2"), ("A", "3")]);
    assert_eq!(get_env_or(&vars, "A", "0"), "3");
    assert_eq!(get_env(&vars, "B"), "2");
    assert_eq!(find(&vars, "A").map(|s| s.as_str()), Some("3"));
    assert_eq!(find(&vars, "C"), None);
}

#[test]
fn texts_are_compared_by_their_characters() {
    assert!(same_text("", ""));
    assert!(same_text("WHITELIST", "WHITELIST"));
    assert!(!same_text("WHITELIST", "WHITELIS"));
    assert!(!same_text("WHITELIST", "WHITELISt"));
    assert!(same_text("gr\u{fc}n", "gr\u{fc}n"));
    assert!(!same_text("gr\u{fc}n", "grun"));
}

#[test]
fn whitelist_defaults_to_loopback() {
    assert!(has_valid_whitelist(&Vec::new()));
    assert_eq!(whitelisted_keys(&Vec::new()), vec![IpAddress::v4(127, 0, 0, 1)]);
}

#[test]
fn whitelist_is_the_named_address() {
    let named = vars(&[("WHITELIST", "192.0.2.10")]);
    assert!(has_valid_whitelist(&named));
    assert_eq!(whitelisted_keys(&named), vec![IpAddress::v4(192, 0, 2, 10)]);
    let named = vars(&[("WHITELIST", "::1")]);
    assert!(has_valid_whitelist(&named));
    assert_eq!(whitelisted_keys(&named), vec![IpAddress::V6(1)]);
}

#[test]
fn whitelist_must_be_an_address() {
    assert!(!has_valid_whitelist(&vars(&[("WHITELIST", "localhost")])));
    assert!(!has_valid_whitelist(&vars(&[("WHITELIST", "")])));
    assert!(!has_valid_whitelist(&vars(&[("WHITELIST", "127.0.0.1,10.0.0.1")])));
}

#[test]
fn deployment_behind_a_proxy() {
    let env = vars(&[("REVERSE_PROXY", "10.0.0.1"), ("WHITELIST", "192.0.2.10")]);
    let trust = TrustConfig { proxy_address: IpAddress::v4(10, 0, 0, 1), strict_mode: true };
    assert_eq!(
        resolver_from_env(&env, true),
        Ok((OriginResolver::TrustedProxy(trust), vec![IpAddress::v4(192, 0, 2, 10)]))
    );
    let env = vars(&[("REVERSE_PROXY", "10.0.0.1")]);
    let trust = TrustConfig { proxy_address: IpAddress::v4(10, 0, 0, 1), strict_mode: false };
    assert_eq!(
        resolver_from_env(&env, false),
        Ok((OriginResolver::TrustedProxy(trust), vec![IpAddress::v4(127, 0, 0, 1)]))
    );
}

#[test]
fn deployment_without_a_proxy() {
    assert_eq!(
        resolver_from_env(&Vec::new(), true),
        Ok((OriginResolver::DirectPeer, vec![IpAddress::v4(127, 0, 0, 1)]))
    );
    assert_eq!(
        resolver_from_env(&vars(&[("WHITELIST", "::1")]), false),
        Ok((OriginResolver::DirectPeer, vec![IpAddress::V6(1)]))
    );
}

#[test]
fn deployment_with_a_bad_setting() {
    let env = vars(&[("REVERSE_PROXY", "nginx"), ("WHITELIST", "localhost")]);
    assert_eq!(resolver_from_env(&env, true), Err(ConfigError::InvalidProxy));
    let env = vars(&[("REVERSE_PROXY", "10.0.0.1"), ("WHITELIST", "localhost")]);
    assert_eq!(resolver_from_env(&env, true), Err(ConfigError::InvalidWhitelist));
    let env = vars(&[("WHITELIST", "")]);
    assert_eq!(resolver_from_env(&env, false), Err(ConfigError::InvalidWhitelist));
}

#[test]
fn proxy_must_be_set_and_an_address() {
    assert_eq!(reverse_proxy(&Vec::new()), Err(ConfigError::MissingProxy));
    assert_eq!(reverse_proxy(&vars(&[("REVERSE_PROXY", "nginx")])), Err(ConfigError::InvalidProxy));
    assert_eq!(reverse_proxy(&vars(&[("REVERSE_PROXY", "10.0.0.1")])), Ok(IpAddress::v4(10, 0, 0, 1)));
    assert_eq!(trust_config(&Vec::new(), true), Err(ConfigError::MissingProxy));
    assert_eq!(trust_config(&vars(&[("REVERSE_PROXY", "x")]), false), Err(ConfigError::InvalidProxy));
    assert_eq!(
        trust_config(&vars(&[("REVERSE_PROXY", "10.0.0.1")]), true),
        Ok(TrustConfig { proxy_address: IpAddress::v4(10, 0, 0, 1), strict_mode: true })
    );
}

#[test]
fn quota_is_ten_a_second_in_bursts_of_two() {
    assert_eq!(default_quota(), Quota { per_second: 10, burst_size: 2 });
    assert_eq!(Some(default_quota()), Quota::new(10, 2));
}

#[test]
fn service_listens_on_every_interface() {
    assert_eq!(port(&Vec::new()), "8080");
    assert_eq!(port(&vars(&[("PORT", "3000")])), "3000");
    assert_eq!(bind_address("8080"), "0.0.0.0:8080");
    assert_eq!(bind_address(&port(&vars(&[("PORT", "3000")]))), "0.0.0.0:3000");
}

#[test]
fn identities_are_logged_under_one_name() {
    assert_eq!(name(), "Proxy IP");
}

#[test]
fn connection_settings_have_defaults() {
    let s = ConnectionSettings::from_env(&Vec::new());
    assert_eq!(s.location, "127.0.0.1:8000");
    assert_eq!(s.username, "root");
    assert_eq!(s.password, "root");
    assert_eq!(s.namespace, "test");
    assert_eq!(s.database, "test");
}

#[test]
fn connection_settings_follow_the_environment() {
    let s = ConnectionSettings::from_env(&vars(&[
        ("DB_LOCATION", "db:8000"),
        ("DB_USERNAME", "admin"),
        ("DB_PASSWORD", "hunter2"),
        ("DB_NAMESPACE", "prod"),
        ("DB_DATABASE", "main"),
    ]));
    assert_eq!(s.location, "db:8000");
    assert_eq!(s.username, "admin");
    assert_eq!(s.password, "hunter2");
    assert_eq!(s.namespace, "prod");
    assert_eq!(s.database, "main");
}
