use dns_rs::config::{
    BlockMode, BlockingConfig, BlocklistsConfig, CacheConfig, Config, ConfigError, Profile, TlsSources,
    UpstreamConfig, UpstreamStrategy, UpstreamsConfig, Variable, WhitelistConfig,
};
use dns_rs::env::{default_max_size_bytes, EnvValue, EnvVar};
use dns_rs::ip::IpAddr;

const SERVERLESS: Profile = Profile { dot: false, doh: true, certless: true };

const NO_TLS: TlsSources =
    TlsSources { cert_in_env: false, key_in_env: false, cert_is_file: false, key_is_file: false };

fn set(vars: &mut Vec<EnvVar>, name: &str, value: &str) {
    unset(vars, name);
    vars.push(EnvVar { name: name.to_string(), value: EnvValue::Text(value.to_string()) });
}

fn unset(vars: &mut Vec<EnvVar>, name: &str) {
    vars.retain(|v| v.name != name);
}

fn from_env(vars: &Vec<EnvVar>) -> Result<Config, ConfigError> {
    Config::from_env(vars, None, SERVERLESS, NO_TLS)
}

fn error(vars: &Vec<EnvVar>) -> ConfigError {
    match from_env(vars) {
        Ok(_) => panic!("should be refused"),
        Err(e) => e,
    }
}

#[test]
fn from_env_defaults_then_overrides() {
    let mut vars = Vec::new();
    let base = from_env(&vars).ok().expect("no env vars must still yield a valid config");
    assert_eq!(base.server.doh_port, 8053);
    assert!(matches!(base.server.bind_address, IpAddr::V4([0, 0, 0, 0])));
    assert_eq!(base.upstream.urls, vec!["https://cloudflare-dns.com/dns-query".to_string()]);
    assert_eq!(base.upstream.strategy, UpstreamStrategy::Sequential);
    assert_eq!(base.blocking.mode, BlockMode::Nxdomain);
    assert!(base.cache.enabled);
    assert!(base.cache.max_size_bytes > 0);

    set(&mut vars, "PORT", "9000");
    set(&mut vars, "DNSRS_DOH_PORT", "9001");
    set(&mut vars, "DNSRS_UPSTREAM_URLS", "tls://1.1.1.1:853, https://dns.google/dns-query");
    set(&mut vars, "DNSRS_UPSTREAM_STRATEGY", "race");
    set(&mut vars, "DNSRS_BLOCK_MODE", "sinkhole");
    set(&mut vars, "DNSRS_SINKHOLE_IP", "10.0.0.2");
    set(&mut vars, "DNSRS_STATIC_HOSTS", " router.local = 192.168.1.10 ");
    set(&mut vars, "DNSRS_BLOCKLIST_DOMAINS", "ads.example.com,tracker.example");
    set(&mut vars, "DNSRS_CACHE_MAX_SIZE_BYTES", "4194304");

    let overridden = from_env(&vars).ok().expect("overrides must validate");
    assert_eq!(overridden.server.doh_port, 9000, "PORT must win over DNSRS_DOH_PORT");
    assert_eq!(overridden.upstream.urls.len(), 2);
    assert_eq!(overridden.upstream.strategy, UpstreamStrategy::Race);
    assert_eq!(overridden.blocking.mode, BlockMode::Sinkhole);
    assert_eq!(overridden.blocking.sinkhole_ip, [10, 0, 0, 2]);
    assert_eq!(overridden.static_hosts.len(), 1);
    assert_eq!(
        overridden
            .static_hosts_map()
            .get("router.local.")
            .expect("trimmed entry must be stored under the normalized name")
            .ip,
        [192, 168, 1, 10]
    );
    assert_eq!(overridden.blocklists.domains, vec!["ads.example.com", "tracker.example"]);
    assert_eq!(overridden.cache.max_size_bytes, 4 * 1024 * 1024);

    set(&mut vars, "DNSRS_UPSTREAM_STRATEGY", "first-one-wins");
    assert!(from_env(&vars).is_err(), "an unknown strategy must fail startup");
    set(&mut vars, "DNSRS_UPSTREAM_STRATEGY", "sequential");
    set(&mut vars, "DNSRS_CACHE_MAX_SIZE_BYTES", "9999999999999");
    assert!(from_env(&vars).is_err(), "an arena bigger than the ceiling must be rejected, not allocated");
    unset(&mut vars, "DNSRS_CACHE_MAX_SIZE_BYTES");
    set(&mut vars, "DNSRS_UPSTREAM_URLS", "");
    assert!(from_env(&vars).is_err(), "empty upstreams must not start a resolver that answers nothing");

    unset(&mut vars, "DNSRS_UPSTREAM_URLS");
    set(&mut vars, "DNSRS_CACHE_MAX_SIZE_BYTES", "1000");
    assert!(
        from_env(&vars).is_err(),
        "a cache budget too small to hold anything must be rejected, not ignored"
    );
    set(&mut vars, "DNSRS_CACHE_ENABLED", "false");
    assert!(from_env(&vars).is_ok(), "the same budget is fine once the cache is explicitly off");
}

#[test]
fn every_bad_variable_is_refused() {
    let digit = "invalid digit found in string";
    let large = "number too large to fit in target type";
    let empty = "cannot parse integer from empty string";
    let cases = [
        ("DNSRS_BIND_ADDRESS", "nowhere", Variable::BindAddress, "invalid IP address syntax"),
        ("PORT", "65536", Variable::Port, large),
        ("DNSRS_DOH_PORT", "-1", Variable::DohPort, digit),
        ("DNSRS_DEFAULT_TTL", "4294967296", Variable::DefaultTtl, large),
        (
            "DNSRS_UPSTREAM_STRATEGY",
            "Race",
            Variable::UpstreamStrategy,
            "unknown variant `Race`, expected one of `sequential`, `hedged`, `race`",
        ),
        ("DNSRS_BLOCKLIST_REFRESH_SECS", "1h", Variable::BlocklistRefreshSecs, digit),
        ("DNSRS_WHITELIST_REFRESH_SECS", "", Variable::WhitelistRefreshSecs, empty),
        (
            "DNSRS_BLOCK_MODE",
            "drop",
            Variable::BlockMode,
            "unknown variant `drop`, expected `nxdomain` or `sinkhole`",
        ),
        ("DNSRS_SINKHOLE_IP", "::1", Variable::SinkholeIp, "invalid IPv4 address syntax"),
        ("DNSRS_CACHE_ENABLED", "yes", Variable::CacheEnabled, "provided string was not `true` or `false`"),
        ("DNSRS_CACHE_MAX_SIZE_BYTES", "1.5", Variable::CacheMaxSizeBytes, digit),
    ];
    for (name, value, variable, cause) in cases {
        let mut vars = Vec::new();
        set(&mut vars, name, value);
        let e = error(&vars);
        assert!(matches!(e, ConfigError::Invalid(v, _) if v == variable), "{name}");
        assert_eq!(e.message(), format!("invalid {name}: {cause}"));
        let value = EnvValue::NotUnicode("\u{fffd}x".to_string());
        let e = error(&vec![EnvVar { name: name.to_string(), value }]);
        assert!(matches!(e, ConfigError::NotUnicode(v, _) if v == variable), "{name}");
        assert_eq!(e.message(), format!("{name} must be valid Unicode: \u{fffd}x"));
    }
}

#[test]
fn the_cause_of_a_bad_number_is_that_of_the_standard_library() {
    for text in ["", "+", "-", "-0", "+1x", "65535", "65536", "99999x", "6553x6", "655360", "0000000000001", "٣"] {
        let mut vars = Vec::new();
        set(&mut vars, "PORT", text);
        match (from_env(&vars), text.parse::<u16>()) {
            (Ok(config), Ok(port)) => assert_eq!(config.server.doh_port, port),
            (Err(e), Err(cause)) => assert_eq!(e.message(), format!("invalid PORT: {cause}")),
            (_, parsed) => panic!("{text} should be {parsed:?}"),
        }
    }
}

#[test]
fn every_variable_takes_effect() {
    let mut vars = Vec::new();
    set(&mut vars, "DNSRS_BIND_ADDRESS", "::1");
    set(&mut vars, "DNSRS_DOH_PORT", "9001");
    set(&mut vars, "DNSRS_DOT_PORT", "9002");
    set(&mut vars, "DNSRS_TLS_CERT", "/c.pem");
    set(&mut vars, "DNSRS_TLS_KEY", "/k.pem");
    set(&mut vars, "DNSRS_DEFAULT_TTL", "7");
    set(&mut vars, "DNSRS_UPSTREAM_STRATEGY", "hedged");
    set(&mut vars, "DNSRS_BLOCKLIST_URLS", "http://a, ,http://b,");
    set(&mut vars, "DNSRS_BLOCKLIST_REFRESH_SECS", "1");
    set(&mut vars, "DNSRS_WHITELIST_URLS", "http://c");
    set(&mut vars, "DNSRS_WHITELIST_DOMAINS", "ok.example");
    set(&mut vars, "DNSRS_WHITELIST_REFRESH_SECS", "2");
    set(&mut vars, "DNSRS_STATIC_HOSTS", "a=1.1.1.1,b=2.2.2.2,a=3.3.3.3");
    let profile = Profile { dot: true, doh: true, certless: false };
    let tls = TlsSources { cert_in_env: false, key_in_env: false, cert_is_file: true, key_is_file: true };
    let config = Config::from_env(&vars, Some(40 * 1024 * 1024), profile, tls).ok().unwrap();
    assert!(matches!(config.server.bind_address, IpAddr::V6([0, 0, 0, 0, 0, 0, 0, 1])));
    assert_eq!(config.server.doh_listen().port, 9001);
    assert_eq!(config.server.dot_listen().port, 9002);
    assert_eq!(config.server.tls_cert.as_deref(), Some("/c.pem"));
    assert_eq!(config.server.tls_key.as_deref(), Some("/k.pem"));
    assert_eq!(config.server.default_ttl, 7);
    assert_eq!(config.upstream.strategy, UpstreamStrategy::Hedged);
    assert_eq!(config.blocklists.urls, vec!["http://a", "http://b"]);
    assert_eq!(config.blocklists.refresh_interval_secs, 1);
    assert_eq!(config.whitelist.urls, vec!["http://c"]);
    assert_eq!(config.whitelist.domains, vec!["ok.example"]);
    assert_eq!(config.whitelist.refresh_interval_secs, 2);
    assert_eq!(config.static_hosts.len(), 2, "a name that is given twice counts once");
    let hosts = config.static_hosts_map();
    assert_eq!(hosts.get("a.").unwrap().ip, [3, 3, 3, 3]);
    assert_eq!(hosts.get("a.").unwrap().ttl, 7);
    assert_eq!(hosts.get("b.").unwrap().ip, [2, 2, 2, 2]);
    assert_eq!(config.cache.max_size_bytes, 10 * 1024 * 1024);

    unset(&mut vars, "DNSRS_DOT_PORT");
    unset(&mut vars, "DNSRS_DOH_PORT");
    let config = Config::from_env(&vars, None, profile, tls).ok().unwrap();
    assert_eq!(config.server.dot_port, 8853);
    assert_eq!(config.server.doh_port, 443);

    unset(&mut vars, "DNSRS_TLS_KEY");
    let e = Config::from_env(&vars, None, profile, tls).err().unwrap();
    assert!(matches!(e, ConfigError::Missing(Variable::TlsKey)));
    assert_eq!(e.message(), "DNSRS_TLS_KEY must be set");
}

#[test]
fn static_hosts_must_be_well_formed() {
    let mut vars = Vec::new();
    set(&mut vars, "DNSRS_STATIC_HOSTS", "a=1.1.1.1,router");
    let e = error(&vars);
    assert!(matches!(&e, ConfigError::StaticHostForm(s) if s == "router"));
    assert_eq!(e.message(), "invalid DNSRS_STATIC_HOSTS entry 'router': expected name=ip");
    set(&mut vars, "DNSRS_STATIC_HOSTS", "a=1.1.1");
    let e = error(&vars);
    assert!(matches!(&e, ConfigError::StaticHostIp(s) if s == "a=1.1.1"));
    assert_eq!(e.message(), "invalid IP in DNSRS_STATIC_HOSTS entry 'a=1.1.1'");
}

#[test]
fn upstreams_are_parsed_by_scheme() {
    assert!(matches!(UpstreamConfig::parse("https://dns.google/dns-query"),
        Ok(UpstreamConfig::Doh { url }) if url == "https://dns.google/dns-query"));
    match UpstreamConfig::parse("tls://1.1.1.1:853") {
        Ok(UpstreamConfig::Dot { host, port, tls_name }) => {
            assert_eq!(host, "1.1.1.1");
            assert_eq!(port, 853);
            assert_eq!(tls_name, "1.1.1.1");
        }
        _ => panic!("should be DoT"),
    }
    match UpstreamConfig::parse("tls://[2606:4700::1111]:853#cloudflare-dns.com#x") {
        Ok(UpstreamConfig::Dot { host, port, tls_name }) => {
            assert_eq!(host, "[2606:4700::1111]");
            assert_eq!(port, 853);
            assert_eq!(tls_name, "cloudflare-dns.com#x");
        }
        _ => panic!("should be DoT"),
    }
    let e = UpstreamConfig::parse("tls://1.1.1.1").err().unwrap();
    assert!(matches!(e, ConfigError::UpstreamNoPort(_)));
    assert_eq!(e.message(), "upstream 'tls://1.1.1.1' is missing a port, expected tls://host:port");
    let e = UpstreamConfig::parse("tls://1.1.1.1:99999").err().unwrap();
    assert!(matches!(e, ConfigError::UpstreamPort(_)));
    assert_eq!(e.message(), "upstream 'tls://1.1.1.1:99999' has an invalid port");
    let e = UpstreamConfig::parse("udp://1.1.1.1").err().unwrap();
    assert!(matches!(e, ConfigError::UpstreamScheme(_)));
    assert_eq!(
        e.message(),
        "upstream 'udp://1.1.1.1' must start with https:// (DoH) or tls:// (DoT)"
    );
}

#[test]
fn invalid_configurations_are_refused() {
    let config = || from_env(&Vec::new()).ok().unwrap();
    let tls_profile = Profile { dot: true, doh: true, certless: false };
    let files = TlsSources { cert_in_env: false, key_in_env: false, cert_is_file: true, key_is_file: true };

    let mut c = config();
    c.upstream.urls.clear();
    assert!(matches!(c.validate(SERVERLESS, NO_TLS), Err(ConfigError::NoUpstream)));
    let mut c = config();
    c.upstream.urls.push("ftp://x".to_string());
    assert!(matches!(c.validate(SERVERLESS, NO_TLS), Err(ConfigError::UpstreamScheme(s)) if s == "ftp://x"));
    assert!(matches!(c.parsed_upstreams(), Err(ConfigError::UpstreamScheme(_))));

    let mut c = config();
    assert!(matches!(c.validate(tls_profile, files), Err(ConfigError::TlsCertUnset)));
    c.server.tls_cert = Some("/c".to_string());
    let e = c.validate(tls_profile, files).unwrap_err();
    assert!(matches!(e, ConfigError::TlsKeyUnset));
    assert_eq!(e.message(), "server.tls_key is not set");
    c.server.tls_key = Some("/k".to_string());
    assert!(c.validate(tls_profile, files).is_ok());
    let e = c.validate(tls_profile, NO_TLS).unwrap_err();
    assert!(matches!(&e, ConfigError::TlsCertMissing(p) if p == "/c"));
    assert_eq!(e.message(), "server.tls_cert does not point to a file: /c");
    let e = c.validate(tls_profile, TlsSources { cert_is_file: true, ..NO_TLS }).unwrap_err();
    assert!(matches!(&e, ConfigError::TlsKeyMissing(p) if p == "/k"));
    assert_eq!(e.message(), "server.tls_key does not point to a file: /k");
    let half = TlsSources { cert_in_env: true, ..NO_TLS };
    assert!(matches!(c.validate(tls_profile, half), Err(ConfigError::TlsHalfSet)));
    let both = TlsSources { key_in_env: true, ..half };
    assert!(c.validate(tls_profile, both).is_ok());

    let mut c = config();
    c.server.dot_port = c.server.doh_port;
    let dot = Profile { dot: true, doh: true, certless: true };
    assert!(matches!(c.validate(dot, NO_TLS), Err(ConfigError::SamePorts)));
    assert!(c.validate(SERVERLESS, NO_TLS).is_ok());

    let mut c = config();
    c.cache.max_size_bytes = 1024 * 1024 * 1024 + 1;
    assert!(matches!(c.validate(SERVERLESS, NO_TLS), Err(ConfigError::CacheTooLarge)));
    c.cache.enabled = false;
    assert!(c.validate(SERVERLESS, NO_TLS).is_ok());

    let mut c = config();
    c.blocklists.refresh_interval_secs = 0;
    assert!(c.validate(SERVERLESS, NO_TLS).is_ok());
    c.blocklists.urls.push("http://a".to_string());
    assert!(matches!(c.validate(SERVERLESS, NO_TLS), Err(ConfigError::BlocklistRefreshZero)));
    let mut c = config();
    c.whitelist.urls.push("http://a".to_string());
    c.whitelist.refresh_interval_secs = 0;
    assert!(matches!(c.validate(SERVERLESS, NO_TLS), Err(ConfigError::WhitelistRefreshZero)));

    let mut vars = Vec::new();
    set(&mut vars, "DNSRS_CACHE_MAX_SIZE_BYTES", "1048575");
    assert!(matches!(error(&vars), ConfigError::CacheTooSmall));
    set(&mut vars, "DNSRS_CACHE_MAX_SIZE_BYTES", "1048576");
    assert!(from_env(&vars).is_ok());
}

#[test]
fn defaults_are_those_of_the_documentation() {
    assert_eq!(BlockMode::default(), BlockMode::Nxdomain);
    assert_eq!(BlockingConfig::default().sinkhole_ip, [0, 0, 0, 0]);
    assert_eq!(BlocklistsConfig::default().refresh_interval_secs, 43_200);
    assert!(WhitelistConfig::default().urls.is_empty());
    assert_eq!(UpstreamsConfig::default().strategy, UpstreamStrategy::Sequential);
    assert_eq!(CacheConfig::default().max_size_bytes, 64 * 1024 * 1024);
    assert_eq!(default_max_size_bytes(None), 64 * 1024 * 1024);
    assert_eq!(default_max_size_bytes(Some(1)), 1024 * 1024);
    assert_eq!(default_max_size_bytes(Some(8 * 1024 * 1024)), 2 * 1024 * 1024);
    assert_eq!(default_max_size_bytes(Some(u64::MAX)), 64 * 1024 * 1024);
}

#[test]
fn an_upstream_is_read_back_as_it_was_written() {
    for host in ["9.9.9.9", "[2620:fe::fe]", "dns.quad9.net", ""] {
        for port in [0u16, 7, 853, 65535] {
            for name in [None, Some(""), Some("dns.quad9.net"), Some("a#b:1")] {
                let entry = match name {
                    Some(name) => format!("tls://{host}:{port}#{name}"),
                    None => format!("tls://{host}:{port}"),
                };
                match UpstreamConfig::parse(&entry) {
                    Ok(UpstreamConfig::Dot { host: h, port: p, tls_name }) => {
                        assert_eq!(h, host);
                        assert_eq!(p, port);
                        assert_eq!(tls_name, name.unwrap_or(host));
                    }
                    _ => panic!("{entry} should be DoT"),
                }
            }
        }
    }
}
