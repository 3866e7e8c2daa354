//! The configuration: its parts and their defaults, what makes it valid, and what
//! is derived from it.

use rustc_hash::FxHashMap;
use vstd::prelude::*;
use vstd::string::*;

use crate::ip::{IpAddr, IpView};
use crate::text::{
    decimal, find_first, find_last, first_index, from_chars, has_prefix, head, is_digit,
    last_index, law_decimal_is_read_back, lemma_last_index, parse_unsigned, starts_with, tail,
    to_chars, unsigned, NumberError,
};
use crate::util::{normalize_name, normalized};
use crate::text_laws::lemma_first;

verus! {

/// Ceiling on the cache's byte budget: the pool is one eager allocation at
/// startup, so this is the point where a mistuned value is rejected instead of
/// exhausting memory.
pub const MAX_CACHE_BYTES: u64 = 1_073_741_824;

/// The cache's byte budget unless something else is said.
pub const DEFAULT_CACHE_BYTES: u64 = 67_108_864;

/// The texts that the strings hold.
pub open spec fn strings(v: Seq<String>) -> Seq<Seq<char>> {
    v.map_values(|s: String| s@)
}

/// Which listeners there are, and how their transports are protected.
#[derive(Clone, Copy)]
pub struct Profile {
    pub dot: bool,
    pub doh: bool,
    /// Inbound transports are plaintext, behind a proxy that terminates TLS.
    pub certless: bool,
}

pub struct ServerConfig {
    pub bind_address: IpAddr,
    pub dot_port: u16,
    pub doh_port: u16,
    pub tls_cert: Option<String>,
    pub tls_key: Option<String>,
    pub default_ttl: u32,
}

#[verifier::ext_equal]
pub struct ServerView {
    pub bind_address: IpView,
    pub dot_port: u16,
    pub doh_port: u16,
    pub tls_cert: Option<Seq<char>>,
    pub tls_key: Option<Seq<char>>,
    pub default_ttl: u32,
}

pub open spec fn text_view(s: Option<String>) -> Option<Seq<char>> {
    match s {
        Some(s) => Some(s@),
        None => None,
    }
}

impl View for ServerConfig {
    type V = ServerView;

    open spec fn view(&self) -> ServerView {
        ServerView {
            bind_address: self.bind_address@,
            dot_port: self.dot_port,
            doh_port: self.doh_port,
            tls_cert: text_view(self.tls_cert),
            tls_key: text_view(self.tls_key),
            default_ttl: self.default_ttl,
        }
    }
}

/// A place to listen at.
pub struct ListenAddress {
    pub address: IpAddr,
    pub port: u16,
}

impl ServerConfig {
    pub fn dot_listen(&self) -> (r: ListenAddress)
        ensures
            r.address == self.bind_address,
            r.port == self.dot_port,
    {
        ListenAddress { address: self.bind_address, port: self.dot_port }
    }

    pub fn doh_listen(&self) -> (r: ListenAddress)
        ensures
            r.address == self.bind_address,
            r.port == self.doh_port,
    {
        ListenAddress { address: self.bind_address, port: self.doh_port }
    }
}

pub fn default_bind_address() -> (r: IpAddr)
    ensures
        r@ == IpView::V4(seq![0u8, 0u8, 0u8, 0u8]),
{
    let r = IpAddr::V4([0u8, 0u8, 0u8, 0u8]);
    assert(r@->V4_0 =~= seq![0u8, 0u8, 0u8, 0u8]);
    r
}

pub fn default_dot_port() -> (r: u16)
    ensures
        r == 853,
{
    853
}

/// A plaintext listener gets a high port: it needs no privilege to bind, and it
/// isn't meant to be the public endpoint anyway.
pub open spec fn doh_port_default(certless: bool) -> u16 {
    if certless {
        8053
    } else {
        443
    }
}

pub fn default_doh_port(certless: bool) -> (r: u16)
    ensures
        r == doh_port_default(certless),
{
    if certless {
        8053
    } else {
        443
    }
}

pub fn default_ttl() -> (r: u32)
    ensures
        r == 300,
{
    300
}

#[derive(Debug, Clone, Copy, PartialEq, Eq, Structural)]
pub enum BlockMode {
    /// Blocked domains get a "this domain doesn't exist" (NXDOMAIN) response.
    Nxdomain,
    /// Blocked domains resolve successfully, but to `sinkhole_ip` instead of their
    /// real address.
    Sinkhole,
}

impl Default for BlockMode {
    fn default() -> (r: Self)
        ensures
            r == BlockMode::Nxdomain,
    {
        BlockMode::Nxdomain
    }
}

#[derive(Clone, Copy)]
pub struct BlockingConfig {
    pub mode: BlockMode,
    pub sinkhole_ip: [u8; 4],
}

#[verifier::ext_equal]
pub struct BlockingView {
    pub mode: BlockMode,
    pub sinkhole_ip: Seq<u8>,
}

impl View for BlockingConfig {
    type V = BlockingView;

    open spec fn view(&self) -> BlockingView {
        BlockingView { mode: self.mode, sinkhole_ip: self.sinkhole_ip@ }
    }
}

impl Default for BlockingConfig {
    fn default() -> (r: Self)
        ensures
            r@ == (BlockingView {
                mode: BlockMode::Nxdomain,
                sinkhole_ip: seq![0u8, 0u8, 0u8, 0u8],
            }),
    {
        let r = BlockingConfig { mode: BlockMode::Nxdomain, sinkhole_ip: [0u8, 0u8, 0u8, 0u8] };
        assert(r@.sinkhole_ip =~= seq![0u8, 0u8, 0u8, 0u8]);
        r
    }
}

/// Domains to block: `urls` are fetched and refreshed every
/// `refresh_interval_secs`; `domains` are literal names, always applied in addition
/// to whatever the URLs resolve to. Either or both may be used.
pub struct BlocklistsConfig {
    pub urls: Vec<String>,
    pub domains: Vec<String>,
    pub refresh_interval_secs: u64,
}

/// A list of domains: where to fetch it from and how often, and its literal names.
#[verifier::ext_equal]
pub struct ListView {
    pub urls: Seq<Seq<char>>,
    pub domains: Seq<Seq<char>>,
    pub refresh_interval_secs: u64,
}

/// How often lists are fetched again: every twelve hours.
pub const DEFAULT_LIST_REFRESH_SECS: u64 = 43_200;

pub open spec fn empty_list() -> ListView {
    ListView {
        urls: seq![],
        domains: seq![],
        refresh_interval_secs: DEFAULT_LIST_REFRESH_SECS,
    }
}

impl View for BlocklistsConfig {
    type V = ListView;

    open spec fn view(&self) -> ListView {
        ListView {
            urls: strings(self.urls@),
            domains: strings(self.domains@),
            refresh_interval_secs: self.refresh_interval_secs,
        }
    }
}

impl Default for BlocklistsConfig {
    fn default() -> (r: Self)
        ensures
            r@ == empty_list(),
    {
        let r = BlocklistsConfig {
            urls: Vec::new(),
            domains: Vec::new(),
            refresh_interval_secs: DEFAULT_LIST_REFRESH_SECS,
        };
        assert(r@ =~= empty_list());
        r
    }
}

/// Domains that must never be blocked, even if a blocklist has them; checked as
/// exact names, not by subdomain. Same shape as the blocklists.
pub struct WhitelistConfig {
    pub urls: Vec<String>,
    pub domains: Vec<String>,
    pub refresh_interval_secs: u64,
}

impl View for WhitelistConfig {
    type V = ListView;

    open spec fn view(&self) -> ListView {
        ListView {
            urls: strings(self.urls@),
            domains: strings(self.domains@),
            refresh_interval_secs: self.refresh_interval_secs,
        }
    }
}

impl Default for WhitelistConfig {
    fn default() -> (r: Self)
        ensures
            r@ == empty_list(),
    {
        let r = WhitelistConfig {
            urls: Vec::new(),
            domains: Vec::new(),
            refresh_interval_secs: DEFAULT_LIST_REFRESH_SECS,
        };
        assert(r@ =~= empty_list());
        r
    }
}

#[derive(Debug, Clone, Copy, PartialEq, Eq, Structural)]
pub enum UpstreamStrategy {
    /// Try each upstream in order, falling back on failure or timeout.
    Sequential,
    /// Start upstreams in order with a short delay between each, returning the
    /// first success. Usually as fast as racing every upstream while avoiding
    /// duplicate traffic when the preferred one responds promptly.
    Hedged,
    /// Query every upstream at once, use whichever answers first.
    Race,
}

impl Default for UpstreamStrategy {
    fn default() -> (r: Self)
        ensures
            r == UpstreamStrategy::Sequential,
    {
        UpstreamStrategy::Sequential
    }
}

pub struct UpstreamsConfig {
    pub strategy: UpstreamStrategy,
    /// Plain URL-like strings; the protocol is inferred from the scheme
    /// (`https://` = DoH, `tls://` = DoT). See `UpstreamConfig::parse`.
    pub urls: Vec<String>,
}

#[verifier::ext_equal]
pub struct UpstreamsView {
    pub strategy: UpstreamStrategy,
    pub urls: Seq<Seq<char>>,
}

impl View for UpstreamsConfig {
    type V = UpstreamsView;

    open spec fn view(&self) -> UpstreamsView {
        UpstreamsView { strategy: self.strategy, urls: strings(self.urls@) }
    }
}

impl Default for UpstreamsConfig {
    fn default() -> (r: Self)
        ensures
            r@ == (UpstreamsView { strategy: UpstreamStrategy::Sequential, urls: seq![] }),
    {
        let r = UpstreamsConfig { strategy: UpstreamStrategy::Sequential, urls: Vec::new() };
        assert(r@.urls =~= seq![]);
        r
    }
}

#[derive(Clone, Copy)]
pub struct CacheConfig {
    pub enabled: bool,
    /// Total bytes reserved for cache storage, allocated once as a single pool
    /// that responses are suballocated from.
    pub max_size_bytes: u64,
}

impl Default for CacheConfig {
    fn default() -> (r: Self)
        ensures
            r.enabled,
            r.max_size_bytes == DEFAULT_CACHE_BYTES,
    {
        CacheConfig { enabled: true, max_size_bytes: DEFAULT_CACHE_BYTES }
    }
}

/// Why a variable's value is not of the kind it should be.
#[derive(Debug)]
pub enum Cause {
    Number(NumberError),
    NotBool,
    NotIp,
    NotIpv4,
    /// No strategy has this name.
    Strategy(String),
    /// No block mode has this name.
    Mode(String),
}

pub enum CauseView {
    Number(NumberError),
    NotBool,
    NotIp,
    NotIpv4,
    Strategy(Seq<char>),
    Mode(Seq<char>),
}

impl View for Cause {
    type V = CauseView;

    open spec fn view(&self) -> CauseView {
        match self {
            Cause::Number(e) => CauseView::Number(*e),
            Cause::NotBool => CauseView::NotBool,
            Cause::NotIp => CauseView::NotIp,
            Cause::NotIpv4 => CauseView::NotIpv4,
            Cause::Strategy(s) => CauseView::Strategy(s@),
            Cause::Mode(s) => CauseView::Mode(s@),
        }
    }
}

impl CauseView {
    /// The cause in words.
    pub open spec fn text(self) -> Seq<char> {
        match self {
            CauseView::Number(NumberError::Empty) => "cannot parse integer from empty string"@,
            CauseView::Number(NumberError::InvalidDigit) => "invalid digit found in string"@,
            CauseView::Number(NumberError::TooLarge) =>
                "number too large to fit in target type"@,
            CauseView::NotBool => "provided string was not `true` or `false`"@,
            CauseView::NotIp => "invalid IP address syntax"@,
            CauseView::NotIpv4 => "invalid IPv4 address syntax"@,
            CauseView::Strategy(s) => about_entry(
                "unknown variant `"@,
                s,
                "`, expected one of `sequential`, `hedged`, `race`"@,
            ),
            CauseView::Mode(s) => about_entry(
                "unknown variant `"@,
                s,
                "`, expected `nxdomain` or `sinkhole`"@,
            ),
        }
    }
}

impl Cause {
    /// The cause in words.
    pub fn message(&self) -> (r: String)
        ensures
            r@ == self@.text(),
    {
        match self {
            Cause::Number(NumberError::Empty) =>
                "cannot parse integer from empty string".to_owned(),
            Cause::Number(NumberError::InvalidDigit) => "invalid digit found in string".to_owned(),
            Cause::Number(NumberError::TooLarge) =>
                "number too large to fit in target type".to_owned(),
            Cause::NotBool => "provided string was not `true` or `false`".to_owned(),
            Cause::NotIp => "invalid IP address syntax".to_owned(),
            Cause::NotIpv4 => "invalid IPv4 address syntax".to_owned(),
            Cause::Strategy(s) => entry_message(
                "unknown variant `",
                s.as_str(),
                "`, expected one of `sequential`, `hedged`, `race`",
            ),
            Cause::Mode(s) => entry_message(
                "unknown variant `",
                s.as_str(),
                "`, expected `nxdomain` or `sinkhole`",
            ),
        }
    }
}

/// What is wrong with a configuration. The texts are the offending entries.
#[derive(Debug)]
pub enum ConfigError {
    /// A variable does not hold valid Unicode. The text is what can be shown of it.
    NotUnicode(Variable, String),
    /// A variable's value is not of the kind it should be.
    Invalid(Variable, Cause),
    /// A variable that is needed is not set.
    Missing(Variable),
    /// A static host is not of the form `name=ip`.
    StaticHostForm(String),
    /// A static host's address is not an IPv4 address.
    StaticHostIp(String),
    /// The cache is enabled but has no room for a usable number of responses.
    CacheTooSmall,
    /// There is no upstream.
    NoUpstream,
    /// An upstream's scheme is neither `https://` nor `tls://`.
    UpstreamScheme(String),
    /// A `tls://` upstream has no port.
    UpstreamNoPort(String),
    /// A `tls://` upstream's port is not a number below 65536.
    UpstreamPort(String),
    /// Exactly one of the two variables with TLS material is set.
    TlsHalfSet,
    /// No certificate path is configured.
    TlsCertUnset,
    /// There is no file at the configured certificate path.
    TlsCertMissing(String),
    /// No key path is configured.
    TlsKeyUnset,
    /// There is no file at the configured key path.
    TlsKeyMissing(String),
    /// The listeners' ports are the same.
    SamePorts,
    /// The cache's byte budget is above the ceiling.
    CacheTooLarge,
    /// Blocklists would be fetched without pause.
    BlocklistRefreshZero,
    /// Whitelists would be fetched without pause.
    WhitelistRefreshZero,
}

pub enum ErrorView {
    NotUnicode(Variable, Seq<char>),
    Invalid(Variable, CauseView),
    Missing(Variable),
    StaticHostForm(Seq<char>),
    StaticHostIp(Seq<char>),
    CacheTooSmall,
    NoUpstream,
    UpstreamScheme(Seq<char>),
    UpstreamNoPort(Seq<char>),
    UpstreamPort(Seq<char>),
    TlsHalfSet,
    TlsCertUnset,
    TlsCertMissing(Seq<char>),
    TlsKeyUnset,
    TlsKeyMissing(Seq<char>),
    SamePorts,
    CacheTooLarge,
    BlocklistRefreshZero,
    WhitelistRefreshZero,
}

impl View for ConfigError {
    type V = ErrorView;

    open spec fn view(&self) -> ErrorView {
        match self {
            ConfigError::NotUnicode(v, s) => ErrorView::NotUnicode(*v, s@),
            ConfigError::Invalid(v, cause) => ErrorView::Invalid(*v, cause@),
            ConfigError::Missing(v) => ErrorView::Missing(*v),
            ConfigError::StaticHostForm(s) => ErrorView::StaticHostForm(s@),
            ConfigError::StaticHostIp(s) => ErrorView::StaticHostIp(s@),
            ConfigError::CacheTooSmall => ErrorView::CacheTooSmall,
            ConfigError::NoUpstream => ErrorView::NoUpstream,
            ConfigError::UpstreamScheme(s) => ErrorView::UpstreamScheme(s@),
            ConfigError::UpstreamNoPort(s) => ErrorView::UpstreamNoPort(s@),
            ConfigError::UpstreamPort(s) => ErrorView::UpstreamPort(s@),
            ConfigError::TlsHalfSet => ErrorView::TlsHalfSet,
            ConfigError::TlsCertUnset => ErrorView::TlsCertUnset,
            ConfigError::TlsCertMissing(s) => ErrorView::TlsCertMissing(s@),
            ConfigError::TlsKeyUnset => ErrorView::TlsKeyUnset,
            ConfigError::TlsKeyMissing(s) => ErrorView::TlsKeyMissing(s@),
            ConfigError::SamePorts => ErrorView::SamePorts,
            ConfigError::CacheTooLarge => ErrorView::CacheTooLarge,
            ConfigError::BlocklistRefreshZero => ErrorView::BlocklistRefreshZero,
            ConfigError::WhitelistRefreshZero => ErrorView::WhitelistRefreshZero,
        }
    }
}

/// `what`, an entry between quotes, and what is wrong with it.
pub open spec fn about_entry(what: Seq<char>, entry: Seq<char>, wrong: Seq<char>) -> Seq<char> {
    what + entry + wrong
}

impl ErrorView {
    /// What is wrong, in words.
    pub open spec fn text(self) -> Seq<char> {
        match self {
            ErrorView::NotUnicode(v, s) => about_entry(
                ""@,
                v.spelled(),
                about_entry(" must be valid Unicode: "@, s, ""@),
            ),
            ErrorView::Invalid(v, cause) => about_entry(
                "invalid "@,
                v.spelled(),
                about_entry(": "@, cause.text(), ""@),
            ),
            ErrorView::Missing(v) => about_entry(""@, v.spelled(), " must be set"@),
            ErrorView::StaticHostForm(s) => about_entry(
                "invalid DNSRS_STATIC_HOSTS entry '"@,
                s,
                "': expected name=ip"@,
            ),
            ErrorView::StaticHostIp(s) => about_entry(
                "invalid IP in DNSRS_STATIC_HOSTS entry '"@,
                s,
                "'"@,
            ),
            ErrorView::CacheTooSmall =>
                "DNSRS_CACHE_MAX_SIZE_BYTES must be at least 1048576 (1 MiB) while the cache is enabled; set DNSRS_CACHE_ENABLED=false to disable it"@,
            ErrorView::NoUpstream => "config must define at least one entry in [upstream] urls"@,
            ErrorView::UpstreamScheme(s) => about_entry(
                "upstream '"@,
                s,
                "' must start with https:// (DoH) or tls:// (DoT)"@,
            ),
            ErrorView::UpstreamNoPort(s) => about_entry(
                "upstream '"@,
                s,
                "' is missing a port, expected tls://host:port"@,
            ),
            ErrorView::UpstreamPort(s) => about_entry("upstream '"@, s, "' has an invalid port"@),
            ErrorView::TlsHalfSet =>
                "both DNS_RS_TLS_CERT_B64 and DNS_RS_TLS_KEY_B64 must be set together, or neither"@,
            ErrorView::TlsCertUnset => "server.tls_cert is not set"@,
            ErrorView::TlsCertMissing(s) => about_entry(
                "server.tls_cert does not point to a file: "@,
                s,
                ""@,
            ),
            ErrorView::TlsKeyUnset => "server.tls_key is not set"@,
            ErrorView::TlsKeyMissing(s) => about_entry(
                "server.tls_key does not point to a file: "@,
                s,
                ""@,
            ),
            ErrorView::SamePorts => "server.dot_port and server.doh_port must be different"@,
            ErrorView::CacheTooLarge =>
                "cache.max_size_bytes must be at most 1073741824 (1024 MiB)"@,
            ErrorView::BlocklistRefreshZero => "blocklists.refresh_interval_secs must not be 0"@,
            ErrorView::WhitelistRefreshZero => "whitelist.refresh_interval_secs must not be 0"@,
        }
    }
}

fn entry_message(what: &str, entry: &str, wrong: &str) -> (r: String)
    ensures
        r@ == about_entry(what@, entry@, wrong@),
{
    let mut r: String = what.to_owned();
    r.append(entry);
    r.append(wrong);
    r
}

impl ConfigError {
    /// What is wrong, in words.
    pub fn message(&self) -> (r: String)
        ensures
            r@ == self@.text(),
    {
        match self {
            ConfigError::NotUnicode(v, s) => entry_message(
                "",
                v.name(),
                entry_message(" must be valid Unicode: ", s.as_str(), "").as_str(),
            ),
            ConfigError::Invalid(v, cause) => entry_message(
                "invalid ",
                v.name(),
                entry_message(": ", cause.message().as_str(), "").as_str(),
            ),
            ConfigError::Missing(v) => entry_message("", v.name(), " must be set"),
            ConfigError::StaticHostForm(s) => entry_message(
                "invalid DNSRS_STATIC_HOSTS entry '",
                s.as_str(),
                "': expected name=ip",
            ),
            ConfigError::StaticHostIp(s) => entry_message(
                "invalid IP in DNSRS_STATIC_HOSTS entry '",
                s.as_str(),
                "'",
            ),
            ConfigError::CacheTooSmall =>
                "DNSRS_CACHE_MAX_SIZE_BYTES must be at least 1048576 (1 MiB) while the cache is enabled; set DNSRS_CACHE_ENABLED=false to disable it".to_owned(),
            ConfigError::NoUpstream =>
                "config must define at least one entry in [upstream] urls".to_owned(),
            ConfigError::UpstreamScheme(s) => entry_message(
                "upstream '",
                s.as_str(),
                "' must start with https:// (DoH) or tls:// (DoT)",
            ),
            ConfigError::UpstreamNoPort(s) => entry_message(
                "upstream '",
                s.as_str(),
                "' is missing a port, expected tls://host:port",
            ),
            ConfigError::UpstreamPort(s) => entry_message(
                "upstream '",
                s.as_str(),
                "' has an invalid port",
            ),
            ConfigError::TlsHalfSet =>
                "both DNS_RS_TLS_CERT_B64 and DNS_RS_TLS_KEY_B64 must be set together, or neither".to_owned(),
            ConfigError::TlsCertUnset => "server.tls_cert is not set".to_owned(),
            ConfigError::TlsCertMissing(s) => entry_message(
                "server.tls_cert does not point to a file: ",
                s.as_str(),
                "",
            ),
            ConfigError::TlsKeyUnset => "server.tls_key is not set".to_owned(),
            ConfigError::TlsKeyMissing(s) => entry_message(
                "server.tls_key does not point to a file: ",
                s.as_str(),
                "",
            ),
            ConfigError::SamePorts =>
                "server.dot_port and server.doh_port must be different".to_owned(),
            ConfigError::CacheTooLarge =>
                "cache.max_size_bytes must be at most 1073741824 (1024 MiB)".to_owned(),
            ConfigError::BlocklistRefreshZero =>
                "blocklists.refresh_interval_secs must not be 0".to_owned(),
            ConfigError::WhitelistRefreshZero =>
                "whitelist.refresh_interval_secs must not be 0".to_owned(),
        }
    }
}

/// The environment variables that configure the resolver.
#[derive(Debug, Clone, Copy, PartialEq, Eq, Structural)]
pub enum Variable {
    BindAddress,
    Port,
    DohPort,
    DotPort,
    TlsCert,
    TlsKey,
    DefaultTtl,
    UpstreamUrls,
    UpstreamStrategy,
    BlocklistUrls,
    BlocklistDomains,
    BlocklistRefreshSecs,
    WhitelistUrls,
    WhitelistDomains,
    WhitelistRefreshSecs,
    BlockMode,
    SinkholeIp,
    StaticHosts,
    CacheEnabled,
    CacheMaxSizeBytes,
}

impl Variable {
    pub open spec fn spelled(self) -> Seq<char> {
        match self {
            Variable::BindAddress => "DNSRS_BIND_ADDRESS"@,
            Variable::Port => "PORT"@,
            Variable::DohPort => "DNSRS_DOH_PORT"@,
            Variable::DotPort => "DNSRS_DOT_PORT"@,
            Variable::TlsCert => "DNSRS_TLS_CERT"@,
            Variable::TlsKey => "DNSRS_TLS_KEY"@,
            Variable::DefaultTtl => "DNSRS_DEFAULT_TTL"@,
            Variable::UpstreamUrls => "DNSRS_UPSTREAM_URLS"@,
            Variable::UpstreamStrategy => "DNSRS_UPSTREAM_STRATEGY"@,
            Variable::BlocklistUrls => "DNSRS_BLOCKLIST_URLS"@,
            Variable::BlocklistDomains => "DNSRS_BLOCKLIST_DOMAINS"@,
            Variable::BlocklistRefreshSecs => "DNSRS_BLOCKLIST_REFRESH_SECS"@,
            Variable::WhitelistUrls => "DNSRS_WHITELIST_URLS"@,
            Variable::WhitelistDomains => "DNSRS_WHITELIST_DOMAINS"@,
            Variable::WhitelistRefreshSecs => "DNSRS_WHITELIST_REFRESH_SECS"@,
            Variable::BlockMode => "DNSRS_BLOCK_MODE"@,
            Variable::SinkholeIp => "DNSRS_SINKHOLE_IP"@,
            Variable::StaticHosts => "DNSRS_STATIC_HOSTS"@,
            Variable::CacheEnabled => "DNSRS_CACHE_ENABLED"@,
            Variable::CacheMaxSizeBytes => "DNSRS_CACHE_MAX_SIZE_BYTES"@,
        }
    }

    /// The variable's name.
    pub fn name(&self) -> (r: &'static str)
        ensures
            r@ == self.spelled(),
    {
        match self {
            Variable::BindAddress => "DNSRS_BIND_ADDRESS",
            Variable::Port => "PORT",
            Variable::DohPort => "DNSRS_DOH_PORT",
            Variable::DotPort => "DNSRS_DOT_PORT",
            Variable::TlsCert => "DNSRS_TLS_CERT",
            Variable::TlsKey => "DNSRS_TLS_KEY",
            Variable::DefaultTtl => "DNSRS_DEFAULT_TTL",
            Variable::UpstreamUrls => "DNSRS_UPSTREAM_URLS",
            Variable::UpstreamStrategy => "DNSRS_UPSTREAM_STRATEGY",
            Variable::BlocklistUrls => "DNSRS_BLOCKLIST_URLS",
            Variable::BlocklistDomains => "DNSRS_BLOCKLIST_DOMAINS",
            Variable::BlocklistRefreshSecs => "DNSRS_BLOCKLIST_REFRESH_SECS",
            Variable::WhitelistUrls => "DNSRS_WHITELIST_URLS",
            Variable::WhitelistDomains => "DNSRS_WHITELIST_DOMAINS",
            Variable::WhitelistRefreshSecs => "DNSRS_WHITELIST_REFRESH_SECS",
            Variable::BlockMode => "DNSRS_BLOCK_MODE",
            Variable::SinkholeIp => "DNSRS_SINKHOLE_IP",
            Variable::StaticHosts => "DNSRS_STATIC_HOSTS",
            Variable::CacheEnabled => "DNSRS_CACHE_ENABLED",
            Variable::CacheMaxSizeBytes => "DNSRS_CACHE_MAX_SIZE_BYTES",
        }
    }
}

/// One upstream resolver.
pub enum UpstreamConfig {
    Doh { url: String },
    Dot { host: String, port: u16, tls_name: String },
}

pub enum UpstreamView {
    Doh { url: Seq<char> },
    Dot { host: Seq<char>, port: u16, tls_name: Seq<char> },
}

impl View for UpstreamConfig {
    type V = UpstreamView;

    open spec fn view(&self) -> UpstreamView {
        match self {
            UpstreamConfig::Doh { url } => UpstreamView::Doh { url: url@ },
            UpstreamConfig::Dot { host, port, tls_name } => UpstreamView::Dot {
                host: host@,
                port: *port,
                tls_name: tls_name@,
            },
        }
    }
}

/// `host:port` and a TLS name, which is the host's if none is given.
pub open spec fn dot_upstream(entry: Seq<char>, rest: Seq<char>) -> Result<UpstreamView, ErrorView> {
    let hash = first_index(rest, '#');
    let host_port = rest.take(hash);
    let colon = last_index(host_port, ':');
    let host = host_port.take(colon);
    if colon < 0 {
        Err(ErrorView::UpstreamNoPort(entry))
    } else {
        match unsigned(host_port.skip(colon + 1), 65535) {
            None => Err(ErrorView::UpstreamPort(entry)),
            Some(port) => Ok(
                UpstreamView::Dot {
                    host,
                    port: port as u16,
                    tls_name: if hash < rest.len() {
                        rest.skip(hash + 1)
                    } else {
                        host
                    },
                },
            ),
        }
    }
}

/// What an upstream entry means.
pub open spec fn upstream_of(entry: Seq<char>) -> Result<UpstreamView, ErrorView> {
    if starts_with(entry, "https://"@) {
        Ok(UpstreamView::Doh { url: entry })
    } else if starts_with(entry, "tls://"@) {
        dot_upstream(entry, entry.skip("tls://"@.len() as int))
    } else {
        Err(ErrorView::UpstreamScheme(entry))
    }
}

impl UpstreamConfig {
    /// `https://...` is DoH. `tls://host:port` is DoT; the TLS name defaults to
    /// `host`, or is overridden with `tls://host:port#tls_name` (e.g. connecting to
    /// a literal IP but validating against the provider's hostname).
    pub fn parse(entry: &str) -> (r: Result<Self, ConfigError>)
        ensures
            match r {
                Ok(u) => upstream_of(entry@) == Ok::<UpstreamView, ErrorView>(u@),
                Err(e) => upstream_of(entry@) == Err::<UpstreamView, ErrorView>(e@),
            },
    {
        let chars: Vec<char> = to_chars(entry);
        let all: &[char] = chars.as_slice();
        proof {
            reveal_strlit("https://");
            reveal_strlit("tls://");
        }
        if has_prefix(all, "https://") {
            return Ok(UpstreamConfig::Doh { url: entry.to_owned() });
        }
        if !has_prefix(all, "tls://") {
            return Err(ConfigError::UpstreamScheme(entry.to_owned()));
        }
        let rest: &[char] = tail(all, 6);
        let hash: usize = find_first(rest, '#');
        let host_port: &[char] = head(rest, hash);
        let colon: usize = match find_last(host_port, ':') {
            Some(i) => i,
            None => {
                return Err(ConfigError::UpstreamNoPort(entry.to_owned()));
            },
        };
        let host: &[char] = head(host_port, colon);
        let port: u64 = match parse_unsigned(tail(host_port, colon + 1), 65535) {
            Some(p) => p,
            None => {
                return Err(ConfigError::UpstreamPort(entry.to_owned()));
            },
        };
        let tls_name: String = if hash < rest.len() {
            from_chars(tail(rest, hash + 1))
        } else {
            from_chars(host)
        };
        Ok(UpstreamConfig::Dot { host: from_chars(host), port: port as u16, tls_name })
    }
}

/// An address that is answered for a name without asking any upstream.
#[derive(Clone, Copy)]
pub struct StaticHost {
    pub ip: [u8; 4],
    pub ttl: u32,
}

/// A configured override. No two have the same name.
pub struct StaticEntry {
    pub name: String,
    pub ip: [u8; 4],
}

pub open spec fn entries_view(entries: Seq<StaticEntry>) -> Seq<(Seq<char>, Seq<u8>)> {
    entries.map_values(|e: StaticEntry| (e.name@, e.ip@))
}

/// The entries of the table of static hosts.
pub uninterp spec fn hosts_of(table: FxHashMap<String, StaticHost>) -> Map<Seq<char>, StaticHost>;

/// `FxHashMap::default` is an empty map.
#[verifier::external_body]
fn no_hosts() -> (r: FxHashMap<String, StaticHost>)
    ensures
        hosts_of(r).dom() == Set::<Seq<char>>::empty(),
{
    FxHashMap::default()
}

/// `FxHashMap::insert` sets the value for the key and leaves all others alone.
#[verifier::external_body]
fn put_host(table: &mut FxHashMap<String, StaticHost>, name: String, host: StaticHost)
    ensures
        hosts_of(*final(table)) == hosts_of(*old(table)).insert(name@, host),
{
    table.insert(name, host);
}

/// `FxHashMap::get` finds the value that the map holds for the key, if any.
#[verifier::external_body]
pub(crate) fn find_host(table: &FxHashMap<String, StaticHost>, name: &str) -> (r: Option<StaticHost>)
    ensures
        match r {
            Some(host) => hosts_of(*table).contains_key(name@) && host == hosts_of(*table)[name@],
            None => !hosts_of(*table).contains_key(name@),
        },
{
    table.get(name).copied()
}

/// The static hosts by normalized name. Where names differ in form alone, the
/// last one counts.
pub open spec fn static_hosts_of(entries: Seq<StaticEntry>, ttl: u32) -> Map<Seq<char>, StaticHost>
    decreases entries.len(),
{
    if entries.len() == 0 {
        Map::empty()
    } else {
        static_hosts_of(entries.drop_last(), ttl).insert(
            normalized(entries.last().name@),
            StaticHost { ip: entries.last().ip, ttl },
        )
    }
}

pub struct Config {
    pub server: ServerConfig,
    pub blocking: BlockingConfig,
    pub blocklists: BlocklistsConfig,
    pub whitelist: WhitelistConfig,
    pub static_hosts: Vec<StaticEntry>,
    pub upstream: UpstreamsConfig,
    pub cache: CacheConfig,
}

#[verifier::ext_equal]
pub struct ConfigView {
    pub server: ServerView,
    pub blocking: BlockingView,
    pub blocklists: ListView,
    pub whitelist: ListView,
    pub static_hosts: Seq<(Seq<char>, Seq<u8>)>,
    pub upstream: UpstreamsView,
    pub cache: CacheConfig,
}

impl View for Config {
    type V = ConfigView;

    open spec fn view(&self) -> ConfigView {
        ConfigView {
            server: self.server@,
            blocking: self.blocking@,
            blocklists: self.blocklists@,
            whitelist: self.whitelist@,
            static_hosts: entries_view(self.static_hosts@),
            upstream: self.upstream@,
            cache: self.cache,
        }
    }
}

/// What is known at startup of the TLS material: whether the two environment
/// variables that may hold it are set, and whether there are files at the
/// configured paths.
#[derive(Clone, Copy)]
pub struct TlsSources {
    pub cert_in_env: bool,
    pub key_in_env: bool,
    pub cert_is_file: bool,
    pub key_is_file: bool,
}

/// The error of the first upstream entry that has one.
pub open spec fn upstream_error(urls: Seq<Seq<char>>) -> Option<ErrorView>
    decreases urls.len(),
{
    if urls.len() == 0 {
        None
    } else {
        match upstream_error(urls.drop_last()) {
            Some(e) => Some(e),
            None => match upstream_of(urls.last()) {
                Ok(_) => None,
                Err(e) => Some(e),
            },
        }
    }
}

/// What is missing of the TLS material.
pub open spec fn tls_error(config: ConfigView, tls: TlsSources) -> Option<ErrorView> {
    if tls.cert_in_env != tls.key_in_env {
        Some(ErrorView::TlsHalfSet)
    } else if tls.cert_in_env {
        None
    } else {
        match (config.server.tls_cert, config.server.tls_key) {
            (None, _) => Some(ErrorView::TlsCertUnset),
            (Some(cert), key) => if !tls.cert_is_file {
                Some(ErrorView::TlsCertMissing(cert))
            } else {
                match key {
                    None => Some(ErrorView::TlsKeyUnset),
                    Some(key) => if !tls.key_is_file {
                        Some(ErrorView::TlsKeyMissing(key))
                    } else {
                        None
                    },
                }
            },
        }
    }
}

/// What is wrong with a configuration, if anything is. Of several things, the one
/// that comes first here.
pub open spec fn config_error(
    config: ConfigView,
    profile: Profile,
    tls: TlsSources,
) -> Option<ErrorView> {
    if config.upstream.urls.len() == 0 {
        Some(ErrorView::NoUpstream)
    } else if upstream_error(config.upstream.urls) is Some {
        upstream_error(config.upstream.urls)
    } else if !profile.certless && tls_error(config, tls) is Some {
        tls_error(config, tls)
    } else if profile.dot && config.server.dot_port == config.server.doh_port {
        Some(ErrorView::SamePorts)
    } else if config.cache.enabled && config.cache.max_size_bytes > MAX_CACHE_BYTES {
        Some(ErrorView::CacheTooLarge)
    } else if config.blocklists.urls.len() > 0 && config.blocklists.refresh_interval_secs == 0 {
        Some(ErrorView::BlocklistRefreshZero)
    } else if config.whitelist.urls.len() > 0 && config.whitelist.refresh_interval_secs == 0 {
        Some(ErrorView::WhitelistRefreshZero)
    } else {
        None
    }
}

proof fn lemma_upstream_error_take(urls: Seq<Seq<char>>, i: int)
    requires
        0 <= i <= urls.len(),
        upstream_error(urls.take(i)) is Some,
    ensures
        upstream_error(urls) == upstream_error(urls.take(i)),
    decreases urls.len(),
{
    if i < urls.len() {
        assert(urls.drop_last().take(i) =~= urls.take(i));
        lemma_upstream_error_take(urls.drop_last(), i);
    } else {
        assert(urls.take(i) =~= urls);
    }
}

impl Config {
    /// The upstreams, or the error of the first entry that has one.
    pub fn parsed_upstreams(&self) -> (r: Result<Vec<UpstreamConfig>, ConfigError>)
        ensures
            match r {
                Ok(v) => {
                    &&& upstream_error(self@.upstream.urls) is None
                    &&& v@.len() == self@.upstream.urls.len()
                    &&& forall|i: int|
                        0 <= i < v@.len() ==> upstream_of(#[trigger] self@.upstream.urls[i])
                            == Ok::<UpstreamView, ErrorView>(v@[i]@)
                },
                Err(e) => upstream_error(self@.upstream.urls) == Some(e@),
            },
    {
        let ghost urls = self@.upstream.urls;
        let n: usize = self.upstream.urls.len();
        let mut v: Vec<UpstreamConfig> = Vec::new();
        let mut i: usize = 0;
        while i < n
            invariant
                i <= n,
                n == urls.len(),
                urls == self@.upstream.urls,
                v@.len() == i,
                upstream_error(urls.take(i as int)) is None,
                forall|j: int|
                    0 <= j < i ==> upstream_of(#[trigger] urls[j]) == Ok::<UpstreamView, ErrorView>(
                        v@[j]@,
                    ),
            decreases n - i,
        {
            assert(urls.take(i + 1).drop_last() =~= urls.take(i as int));
            match UpstreamConfig::parse(self.upstream.urls[i].as_str()) {
                Ok(u) => {
                    v.push(u);
                },
                Err(e) => {
                    proof {
                        lemma_upstream_error_take(urls, i + 1);
                    }
                    return Err(e);
                },
            }
            i = i + 1;
        }
        assert(urls.take(n as int) =~= urls);
        Ok(v)
    }

    /// Refuses a configuration that the resolver could not work with.
    pub fn validate(&self, profile: Profile, tls: TlsSources) -> (r: Result<(), ConfigError>)
        ensures
            match r {
                Ok(_) => config_error(self@, profile, tls) is None,
                Err(e) => config_error(self@, profile, tls) == Some(e@),
            },
    {
        if self.upstream.urls.len() == 0 {
            return Err(ConfigError::NoUpstream);
        }
        match self.parsed_upstreams() {
            Ok(_) => {},
            Err(e) => {
                return Err(e);
            },
        }
        if !profile.certless {
            if tls.cert_in_env != tls.key_in_env {
                return Err(ConfigError::TlsHalfSet);
            }
            if !tls.cert_in_env {
                match &self.server.tls_cert {
                    None => {
                        return Err(ConfigError::TlsCertUnset);
                    },
                    Some(cert) => {
                        if !tls.cert_is_file {
                            return Err(ConfigError::TlsCertMissing(cert.clone()));
                        }
                    },
                }
                match &self.server.tls_key {
                    None => {
                        return Err(ConfigError::TlsKeyUnset);
                    },
                    Some(key) => {
                        if !tls.key_is_file {
                            return Err(ConfigError::TlsKeyMissing(key.clone()));
                        }
                    },
                }
            }
        }
        if profile.dot && self.server.dot_port == self.server.doh_port {
            return Err(ConfigError::SamePorts);
        }
        if self.cache.enabled && self.cache.max_size_bytes > MAX_CACHE_BYTES {
            return Err(ConfigError::CacheTooLarge);
        }
        if self.blocklists.urls.len() > 0 && self.blocklists.refresh_interval_secs == 0 {
            return Err(ConfigError::BlocklistRefreshZero);
        }
        if self.whitelist.urls.len() > 0 && self.whitelist.refresh_interval_secs == 0 {
            return Err(ConfigError::WhitelistRefreshZero);
        }
        Ok(())
    }

    /// The static hosts by normalized name.
    pub fn static_hosts_map(&self) -> (r: FxHashMap<String, StaticHost>)
        ensures
            hosts_of(r) == static_hosts_of(self.static_hosts@, self.server.default_ttl),
    {
        let ghost entries = self.static_hosts@;
        let mut table: FxHashMap<String, StaticHost> = no_hosts();
        let n: usize = self.static_hosts.len();
        let mut i: usize = 0;
        assert(hosts_of(table) =~= Map::empty());
        while i < n
            invariant
                i <= n,
                n == self.static_hosts@.len(),
                entries == self.static_hosts@,
                hosts_of(table) == static_hosts_of(
                    entries.take(i as int),
                    self.server.default_ttl,
                ),
            decreases n - i,
        {
            assert(entries.take(i + 1).drop_last() =~= entries.take(i as int));
            put_host(
                &mut table,
                normalize_name(self.static_hosts[i].name.as_str()),
                StaticHost { ip: self.static_hosts[i].ip, ttl: self.server.default_ttl },
            );
            i = i + 1;
        }
        assert(entries.take(n as int) =~= entries);
        table
    }
}

/// Every configured static host can be looked up under its normalized name, with
/// the default time to live, and with an address that was configured for a name of
/// that form.
pub proof fn law_static_hosts_are_found(entries: Seq<StaticEntry>, ttl: u32, i: int)
    requires
        0 <= i < entries.len(),
    ensures
        ({
            let key = normalized(entries[i].name@);
            let hosts = static_hosts_of(entries, ttl);
            &&& hosts.contains_key(key)
            &&& hosts[key].ttl == ttl
            &&& exists|j: int|
                i <= j < entries.len() && normalized((#[trigger] entries[j]).name@) == key
                    && hosts[key].ip == entries[j].ip
        }),
    decreases entries.len(),
{
    let key = normalized(entries[i].name@);
    let last = entries.len() - 1;
    if normalized(entries[last].name@) == key {
        assert(static_hosts_of(entries, ttl)[key].ip == entries[last].ip);
    } else {
        law_static_hosts_are_found(entries.drop_last(), ttl, i);
        let init = entries.drop_last();
        let j = choose|j: int|
            i <= j < init.len() && normalized((#[trigger] init[j]).name@) == key
                && static_hosts_of(init, ttl)[key].ip == init[j].ip;
        assert(entries[j] == init[j]);
    }
}

/// How an upstream is written that is reached over TLS.
pub open spec fn dot_entry(host: Seq<char>, port: u16, tls_name: Option<Seq<char>>) -> Seq<char> {
    "tls://"@ + (host + seq![':'] + decimal(port as nat) + (match tls_name {
        Some(name) => seq!['#'] + name,
        None => seq![],
    }))
}

/// An upstream that is written with a host, a port and a TLS name is read back as these,
/// and one without a TLS name has the host's. The host may hold anything but a `#`.
pub proof fn law_upstreams_are_read_back(host: Seq<char>, port: u16, tls_name: Option<Seq<char>>)
    requires
        !host.contains('#'),
    ensures
        upstream_of(dot_entry(host, port, tls_name)) == Ok::<UpstreamView, ErrorView>(
            UpstreamView::Dot {
                host,
                port,
                tls_name: match tls_name {
                    Some(name) => name,
                    None => host,
                },
            },
        ),
{
    reveal_strlit("tls://");
    let entry = dot_entry(host, port, tls_name);
    let digits = decimal(port as nat);
    let host_port = host + seq![':'] + digits;
    let behind = match tls_name {
        Some(name) => seq!['#'] + name,
        None => seq![],
    };
    let rest = host_port + behind;
    law_decimal_is_read_back(port as nat, 65535);
    assert(entry =~= seq!['t', 'l', 's', ':', '/', '/'] + (host_port + behind));
    lemma_tls_entry(host_port, behind);
    assert(!host_port.contains('#')) by {
        if host_port.contains('#') {
            let i = host_port.index_of('#');
            if i < host.len() {
                assert(host[i] == '#');
            } else if i > host.len() {
                assert(is_digit(digits[i - host.len() - 1]));
            }
        }
    }
    lemma_up_to_hash(host_port, behind);
    let hash = first_index(rest, '#');
    assert(rest.take(hash) =~= host_port);
    if let Some(name) = tls_name {
        assert(rest.skip(hash + 1) =~= name);
    }
    lemma_last_index(host_port, ':');
    let colon = last_index(host_port, ':');
    assert(host_port[host.len() as int] == ':');
    assert(colon == host.len()) by {
        if colon > host.len() {
            assert(host_port[colon] == digits[colon - host.len() - 1]);
            assert(is_digit(digits[colon - host.len() - 1]));
        }
    }
    assert(host_port.take(colon) =~= host);
    assert(host_port.skip(colon + 1) =~= digits);
}

pub(crate) proof fn lemma_tls_entry(front: Seq<char>, behind: Seq<char>)
    ensures
        ({
            let entry = seq!['t', 'l', 's', ':', '/', '/'] + (front + behind);
            &&& !starts_with(entry, "https://"@)
            &&& starts_with(entry, "tls://"@)
            &&& "tls://"@.len() == 6
            &&& entry.skip(6) == front + behind
        }),
{
    reveal_strlit("https://");
    reveal_strlit("tls://");
    let entry = seq!['t', 'l', 's', ':', '/', '/'] + (front + behind);
    assert(entry.take(6) =~= "tls://"@);
    assert(entry.skip(6) =~= front + behind);
    if starts_with(entry, "https://"@) {
        assert(entry.take(8)[0] == "https://"@[0]);
    }
}

pub(crate) proof fn lemma_up_to_hash(front: Seq<char>, behind: Seq<char>)
    requires
        !front.contains('#'),
        behind.len() > 0 ==> behind[0] == '#',
    ensures
        first_index(front + behind, '#') == front.len(),
{
    if behind.len() > 0 {
        lemma_first(front, behind.drop_first(), '#');
        assert(front + behind =~= front + seq!['#'] + behind.drop_first());
    } else {
        lemma_first(front, seq![], '#');
        assert(front + behind =~= front);
    }
}

} // verus!
